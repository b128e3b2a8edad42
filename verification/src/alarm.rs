//! The earliest machine: positional add and multiply over an unsigned
//! store, the pointer marching four cells at a time, with a noun and a
//! verb patched into cells 1 and 2 before the run.  The machine halts
//! on opcode 99 or when the pointer marches past memory; any other
//! word, an out-of-range address, or unsigned overflow is a fatal
//! fault.

use vstd::prelude::*;

verus! {

#[derive(Clone, Copy, Debug, PartialEq, Eq, Structural)]
pub enum AlarmFault {
    UnknownOpcode,
    OutOfBounds,
    Overflow,
}

#[derive(Clone, Copy, Debug, PartialEq, Eq, Structural)]
pub enum AStatus {
    Running,
    Done,
    Faulted(AlarmFault),
}

/// The mathematical state of the early machine.
#[verifier::ext_equal]
pub struct AState {
    pub mem: Seq<usize>,
    pub ip: int,
    pub status: AStatus,
}

pub open spec fn alarm_init(mem: Seq<usize>) -> AState {
    AState { mem, ip: 0, status: AStatus::Running }
}

pub open spec fn a_fault(s: AState, f: AlarmFault) -> AState {
    AState { status: AStatus::Faulted(f), ..s }
}

/// One stride of the early machine: read the word under the pointer,
/// read both argument addresses and the result address, then add,
/// multiply, or stop.  The argument cells are read before the opcode
/// is acted on, so even a halt word faults when they lie past memory.
pub open spec fn alarm_step(s: AState) -> AState {
    if s.status != AStatus::Running {
        s
    } else if s.ip >= s.mem.len() {
        AState { status: AStatus::Done, ..s }
    } else {
        let op = s.mem[s.ip];
        if op != 1 && op != 2 && op != 99 {
            a_fault(s, AlarmFault::UnknownOpcode)
        } else if s.ip + 3 >= s.mem.len() {
            a_fault(s, AlarmFault::OutOfBounds)
        } else {
            let pa = s.mem[s.ip + 1];
            let pb = s.mem[s.ip + 2];
            if pa >= s.mem.len() || pb >= s.mem.len() {
                a_fault(s, AlarmFault::OutOfBounds)
            } else {
                let a = s.mem[pa as int];
                let b = s.mem[pb as int];
                let dst = s.mem[s.ip + 3];
                if op == 99 {
                    AState { status: AStatus::Done, ..s }
                } else {
                    let v = if op == 1 {
                        a + b
                    } else {
                        a * b
                    };
                    if v > usize::MAX {
                        a_fault(s, AlarmFault::Overflow)
                    } else if dst >= s.mem.len() {
                        a_fault(s, AlarmFault::OutOfBounds)
                    } else {
                        AState { mem: s.mem.update(dst as int, v as usize), ip: s.ip + 4, ..s }
                    }
                }
            }
        }
    }
}

pub open spec fn alarm_steps(s: AState, n: nat) -> AState
    decreases n,
{
    if n == 0 {
        s
    } else {
        alarm_step(alarm_steps(s, (n - 1) as nat))
    }
}

/// The machine stops eventually.
pub open spec fn alarm_halts(s: AState) -> bool {
    exists|n: nat| (#[trigger] alarm_steps(s, n)).status == AStatus::Done
}

/// The state a stopping machine ends in.
pub open spec fn alarm_final(s: AState) -> AState {
    alarm_steps(s, choose|n: nat| (#[trigger] alarm_steps(s, n)).status == AStatus::Done)
}

proof fn lemma_alarm_settled_stable(s: AState, n: nat)
    requires
        s.status != AStatus::Running,
    ensures
        alarm_steps(s, n) == s,
    decreases n,
{
    if n > 0 {
        lemma_alarm_settled_stable(s, (n - 1) as nat);
    }
}

proof fn lemma_alarm_steps_add(s: AState, m: nat, n: nat)
    ensures
        alarm_steps(s, m + n) == alarm_steps(alarm_steps(s, m), n),
    decreases n,
{
    if n > 0 {
        lemma_alarm_steps_add(s, m, (n - 1) as nat);
        assert(m + n - 1 == (m + n - 1) as nat);
    }
}

pub proof fn lemma_alarm_final(s: AState, n: nat)
    requires
        alarm_steps(s, n).status == AStatus::Done,
    ensures
        alarm_final(s) == alarm_steps(s, n),
        alarm_final(s).status == AStatus::Done,
        alarm_halts(s),
{
    let m = choose|m: nat| (#[trigger] alarm_steps(s, m)).status == AStatus::Done;
    if m <= n {
        lemma_alarm_steps_add(s, m, (n - m) as nat);
        lemma_alarm_settled_stable(alarm_steps(s, m), (n - m) as nat);
    } else {
        lemma_alarm_steps_add(s, n, (m - n) as nat);
        lemma_alarm_settled_stable(alarm_steps(s, n), (m - n) as nat);
    }
}

pub proof fn lemma_alarm_faulted_never_done(s: AState, n: nat)
    requires
        alarm_steps(s, n).status is Faulted,
    ensures
        !alarm_halts(s),
{
    assert forall|m: nat| (#[trigger] alarm_steps(s, m)).status != AStatus::Done by {
        if m <= n {
            if alarm_steps(s, m).status == AStatus::Done {
                lemma_alarm_steps_add(s, m, (n - m) as nat);
                lemma_alarm_settled_stable(alarm_steps(s, m), (n - m) as nat);
            }
        } else {
            lemma_alarm_steps_add(s, n, (m - n) as nat);
            lemma_alarm_settled_stable(alarm_steps(s, n), (m - n) as nat);
        }
    }
}

/// The instruction tags of the early machine.
#[derive(Clone, Copy, Debug, PartialEq, Eq, Structural)]
pub enum AlarmOp {
    Add,
    Mul,
    Halt,
}

/// The executable early machine.
pub struct IntcodeMachine {
    memory: Vec<usize>,
    cmd_ptr: usize,
    status: AStatus,
}

impl View for IntcodeMachine {
    type V = AState;

    closed spec fn view(&self) -> AState {
        AState { mem: self.memory@, ip: self.cmd_ptr as int, status: self.status }
    }
}

impl IntcodeMachine {
    pub fn new(memory: Vec<usize>) -> (r: Self)
        ensures
            r@ == alarm_init(memory@),
    {
        let r = IntcodeMachine { memory, cmd_ptr: 0, status: AStatus::Running };
        proof {
            assert(r@ =~= alarm_init(r.memory@));
        }
        r
    }

    /// Patches the noun into cell 1.
    pub fn set_noun(self, x: usize) -> (r: Self)
        requires
            self@.mem.len() > 1,
        ensures
            r@ == (AState { mem: self@.mem.update(1, x), ..self@ }),
    {
        let mut m = self;
        m.memory.set(1, x);
        proof {
            assert(m@ =~= (AState { mem: self@.mem.update(1, x), ..self@ }));
        }
        m
    }

    /// Patches the verb into cell 2.
    pub fn set_verb(self, x: usize) -> (r: Self)
        requires
            self@.mem.len() > 2,
        ensures
            r@ == (AState { mem: self@.mem.update(2, x), ..self@ }),
    {
        let mut m = self;
        m.memory.set(2, x);
        m
    }

    /// The tag of the word at `index`.
    pub fn get_command(&self, index: usize) -> (r: Result<AlarmOp, AlarmFault>)
        requires
            index < self@.mem.len(),
        ensures
            r == (if self@.mem[index as int] == 1 {
                Ok::<AlarmOp, AlarmFault>(AlarmOp::Add)
            } else if self@.mem[index as int] == 2 {
                Ok::<AlarmOp, AlarmFault>(AlarmOp::Mul)
            } else if self@.mem[index as int] == 99 {
                Ok::<AlarmOp, AlarmFault>(AlarmOp::Halt)
            } else {
                Err::<AlarmOp, AlarmFault>(AlarmFault::UnknownOpcode)
            }),
    {
        match self.memory[index] {
            1usize => Ok(AlarmOp::Add),
            2usize => Ok(AlarmOp::Mul),
            99usize => Ok(AlarmOp::Halt),
            _ => Err(AlarmFault::UnknownOpcode),
        }
    }

    /// The two operand values: each cell named at `a` and `b` is read,
    /// and the cells they name are read in turn.
    pub fn get_args(&self, pair: (usize, usize)) -> (r: (usize, usize))
        requires
            pair.0 < self@.mem.len(),
            pair.1 < self@.mem.len(),
            self@.mem[pair.0 as int] < self@.mem.len(),
            self@.mem[pair.1 as int] < self@.mem.len(),
        ensures
            r.0 == self@.mem[self@.mem[pair.0 as int] as int],
            r.1 == self@.mem[self@.mem[pair.1 as int] as int],
    {
        let address_a: usize = self.memory[pair.0];
        let address_b: usize = self.memory[pair.1];
        (self.memory[address_a], self.memory[address_b])
    }

    /// The sum of the operands.
    pub fn add(pair: (usize, usize)) -> (r: Option<usize>)
        requires
            pair.0 + pair.1 <= usize::MAX,
        ensures
            r == Some((pair.0 + pair.1) as usize),
    {
        Some(pair.0 + pair.1)
    }

    /// The product of the operands.
    pub fn mul(pair: (usize, usize)) -> (r: Option<usize>)
        requires
            pair.0 * pair.1 <= usize::MAX,
        ensures
            r == Some((pair.0 * pair.1) as usize),
    {
        Some(pair.0 * pair.1)
    }

    /// The stop signal.
    pub fn halt(pair: (usize, usize)) -> (r: Option<usize>)
        ensures
            r is None,
    {
        None
    }

    /// One four-cell stride; `Ok(true)` means the machine keeps going.
    pub fn execute_step(&mut self) -> (r: Result<bool, AlarmFault>)
        ensures
            final(self)@ == alarm_step(old(self)@),
            r is Ok <==> !(alarm_step(old(self)@).status is Faulted),
            r == Ok::<bool, AlarmFault>(true) <==> alarm_step(old(self)@).status
                == AStatus::Running && old(self)@.status == AStatus::Running,
    {
        match self.status {
            AStatus::Done => {
                return Ok(false);
            },
            AStatus::Faulted(f) => {
                return Err(f);
            },
            AStatus::Running => {},
        }
        if self.cmd_ptr >= self.memory.len() {
            self.status = AStatus::Done;
            proof {
                assert(final(self)@ =~= alarm_step(old(self)@));
            }
            return Ok(false);
        }
        let op = match self.get_command(self.cmd_ptr) {
            Ok(o) => o,
            Err(f) => {
                self.status = AStatus::Faulted(f);
                proof {
                    assert(final(self)@ =~= alarm_step(old(self)@));
                }
                return Err(f);
            },
        };
        if self.memory.len() - self.cmd_ptr <= 3 {
            self.status = AStatus::Faulted(AlarmFault::OutOfBounds);
            proof {
                assert(final(self)@ =~= alarm_step(old(self)@));
            }
            return Err(AlarmFault::OutOfBounds);
        }
        let pa: usize = self.memory[self.cmd_ptr + 1];
        let pb: usize = self.memory[self.cmd_ptr + 2];
        if pa >= self.memory.len() || pb >= self.memory.len() {
            self.status = AStatus::Faulted(AlarmFault::OutOfBounds);
            proof {
                assert(final(self)@ =~= alarm_step(old(self)@));
            }
            return Err(AlarmFault::OutOfBounds);
        }
        let args = self.get_args((self.cmd_ptr + 1, self.cmd_ptr + 2));
        let result_address: usize = self.memory[self.cmd_ptr + 3];
        let result: Option<usize> = match op {
            AlarmOp::Halt => Self::halt(args),
            AlarmOp::Add => {
                if args.0 > usize::MAX - args.1 {
                    self.status = AStatus::Faulted(AlarmFault::Overflow);
                    proof {
                        assert(final(self)@ =~= alarm_step(old(self)@));
                    }
                    return Err(AlarmFault::Overflow);
                }
                Self::add(args)
            },
            AlarmOp::Mul => {
                if args.1 != 0 && args.0 > usize::MAX / args.1 {
                    proof {
                        assert(args.0 * args.1 > usize::MAX) by (nonlinear_arith)
                            requires
                                args.1 > 0,
                                args.0 > usize::MAX as int / args.1 as int,
                        ;
                    }
                    self.status = AStatus::Faulted(AlarmFault::Overflow);
                    proof {
                        assert(final(self)@ =~= alarm_step(old(self)@));
                    }
                    return Err(AlarmFault::Overflow);
                }
                proof {
                    assert(args.0 * args.1 <= usize::MAX) by (nonlinear_arith)
                        requires
                            args.1 == 0 || args.0 <= usize::MAX as int / args.1 as int,
                            args.0 >= 0,
                            args.1 >= 0,
                    ;
                }
                Self::mul(args)
            },
        };
        match result {
            None => {
                self.status = AStatus::Done;
                proof {
                    assert(final(self)@ =~= alarm_step(old(self)@));
                }
                Ok(false)
            },
            Some(v) => {
                if result_address >= self.memory.len() {
                    self.status = AStatus::Faulted(AlarmFault::OutOfBounds);
                    proof {
                        assert(final(self)@ =~= alarm_step(old(self)@));
                    }
                    return Err(AlarmFault::OutOfBounds);
                }
                self.memory.set(result_address, v);
                self.cmd_ptr = self.cmd_ptr + 4;
                proof {
                    assert(final(self)@ =~= alarm_step(old(self)@));
                }
                Ok(true)
            },
        }
    }

    /// Runs to the stop or to a fault and reports cell 0.
    pub fn run(&mut self) -> (r: Result<usize, AlarmFault>)
        requires
            old(self)@.mem.len() > 0,
        ensures
            match r {
                Ok(v) => alarm_halts(old(self)@) && v == alarm_final(old(self)@).mem[0],
                Err(_) => !alarm_halts(old(self)@),
            },
    {
        let ghost s0 = self@;
        let ghost mut n: nat = 0nat;
        loop
            invariant
                s0 == old(self)@,
                self@ == alarm_steps(s0, n),
                self@.mem.len() == s0.mem.len(),
                s0.mem.len() > 0,
            decreases (if self@.status == AStatus::Running {
                self@.mem.len() + 4 - self@.ip
            } else {
                0int
            }),
        {
            let ghost prev = self@;
            let r = self.execute_step();
            proof {
                n = n + 1;
                assert(alarm_steps(s0, n) == alarm_step(alarm_steps(s0, (n - 1) as nat)));
            }
            match r {
                Ok(true) => {},
                Ok(false) => {
                    proof {
                        lemma_alarm_final(s0, n);
                    }
                    return Ok(self.memory[0]);
                },
                Err(f) => {
                    proof {
                        lemma_alarm_faulted_never_done(s0, n);
                    }
                    return Err(f);
                },
            }
        }
    }
}

/// The machine's memory patched for one try: the program with `noun`
/// in cell 1 and `verb` in cell 2.
pub open spec fn alarm_try(input: Seq<usize>, noun: usize, verb: usize) -> AState {
    alarm_init(input.update(1, noun).update(2, verb))
}

/// Runs the program with noun 12 and verb 2 and reports cell 0.
pub fn solve_1(input: &Vec<usize>) -> (r: Result<usize, AlarmFault>)
    requires
        input@.len() > 2,
    ensures
        match r {
            Ok(v) => alarm_halts(alarm_try(input@, 12, 2)) && v == alarm_final(
                alarm_try(input@, 12, 2),
            ).mem[0],
            Err(_) => !alarm_halts(alarm_try(input@, 12, 2)),
        },
{
    let mut computer = IntcodeMachine::new(input.clone()).set_noun(12).set_verb(2);
    proof {
        assert(computer@ =~= alarm_try(input@, 12, 2));
    }
    computer.run()
}

/// A noun and verb try stops with the sought value in cell 0.
pub open spec fn try_hits(input: Seq<usize>, noun: usize, verb: usize, target: usize) -> bool {
    alarm_halts(alarm_try(input, noun, verb)) && alarm_final(alarm_try(input, noun, verb)).mem[0]
        == target
}

/// A noun and verb try stops with some other value in cell 0.
pub open spec fn try_misses(input: Seq<usize>, noun: usize, verb: usize, target: usize) -> bool {
    alarm_halts(alarm_try(input, noun, verb)) && alarm_final(alarm_try(input, noun, verb)).mem[0]
        != target
}

#[derive(Clone, Copy, Debug, PartialEq, Eq, Structural)]
pub enum AlarmSearchError {
    /// A try faulted before any try hit the target.
    Faulted,
    /// Every try stopped, none with the target.
    NotFound,
}

/// Searches nouns and verbs 0 through 99, in lexicographic order, for
/// the pair that leaves 19690720 in cell 0, and reports
/// `100 * noun + verb` for the first such pair.
pub fn solve_2(input: &Vec<usize>) -> (r: Result<usize, AlarmSearchError>)
    requires
        input@.len() > 2,
    ensures
        match r {
            Ok(v) => exists|i: int, j: int|
                {
                    &&& 0 <= i < 100 && 0 <= j < 100
                    &&& v == 100 * i + j
                    &&& #[trigger] try_hits(input@, i as usize, j as usize, 19690720)
                    &&& forall|a: int, b: int|
                        0 <= a < 100 && 0 <= b < 100 && (a < i || (a == i && b < j))
                            ==> #[trigger] try_misses(input@, a as usize, b as usize, 19690720)
                },
            Err(AlarmSearchError::NotFound) => forall|a: int, b: int|
                0 <= a < 100 && 0 <= b < 100 ==> #[trigger] try_misses(
                    input@,
                    a as usize,
                    b as usize,
                    19690720,
                ),
            Err(AlarmSearchError::Faulted) => exists|i: int, j: int|
                {
                    &&& 0 <= i < 100 && 0 <= j < 100
                    &&& !alarm_halts(#[trigger] alarm_try(input@, i as usize, j as usize))
                    &&& forall|a: int, b: int|
                        0 <= a < 100 && 0 <= b < 100 && (a < i || (a == i && b < j))
                            ==> #[trigger] try_misses(input@, a as usize, b as usize, 19690720)
                },
        },
{
    let mut i: usize = 0;
    while i < 100
        invariant
            i <= 100,
            input@.len() > 2,
            forall|a: int, b: int|
                0 <= a < i && 0 <= b < 100 ==> #[trigger] try_misses(
                    input@,
                    a as usize,
                    b as usize,
                    19690720,
                ),
        decreases 100 - i,
    {
        let mut j: usize = 0;
        while j < 100
            invariant
                i < 100,
                j <= 100,
                input@.len() > 2,
                forall|a: int, b: int|
                    0 <= a < i && 0 <= b < 100 ==> #[trigger] try_misses(
                        input@,
                        a as usize,
                        b as usize,
                        19690720,
                    ),
                forall|b: int|
                    0 <= b < j ==> #[trigger] try_misses(input@, i as usize, b as usize, 19690720),
            decreases 100 - j,
        {
            let mut computer = IntcodeMachine::new(input.clone()).set_noun(i).set_verb(j);
            proof {
                assert(computer@ =~= alarm_try(input@, i, j));
            }
            match computer.run() {
                Ok(v) => {
                    if v == 19690720 {
                        proof {
                            assert(try_hits(input@, i, j, 19690720));
                            assert(forall|a: int, b: int|
                                0 <= a < 100 && 0 <= b < 100 && (a < i || (a == i && b < j))
                                    ==> #[trigger] try_misses(
                                    input@,
                                    a as usize,
                                    b as usize,
                                    19690720,
                                ));
                            assert(100 * (i as int) + (j as int) == (100 * i + j) as int);
                            let ai: int = i as int;
                            let bj: int = j as int;
                            assert(ai as usize == i && bj as usize == j);
                            assert(try_hits(input@, ai as usize, bj as usize, 19690720));
                            assert(forall|a: int, b: int|
                                0 <= a < 100 && 0 <= b < 100 && (a < ai || (a == ai && b < bj))
                                    ==> #[trigger] try_misses(
                                    input@,
                                    a as usize,
                                    b as usize,
                                    19690720,
                                ));
                        }
                        return Ok(100 * i + j);
                    }
                    proof {
                        assert(try_misses(input@, i, j, 19690720));
                    }
                },
                Err(_) => {
                    proof {
                        let ai: int = i as int;
                        let bj: int = j as int;
                        assert(ai as usize == i && bj as usize == j);
                        assert(!alarm_halts(alarm_try(input@, ai as usize, bj as usize)));
                        assert(forall|a: int, b: int|
                            0 <= a < 100 && 0 <= b < 100 && (a < ai || (a == ai && b < bj))
                                ==> #[trigger] try_misses(input@, a as usize, b as usize, 19690720));
                    }
                    return Err(AlarmSearchError::Faulted);
                },
            }
            j = j + 1;
        }
        i = i + 1;
    }
    Err(AlarmSearchError::NotFound)
}

} // verus!
