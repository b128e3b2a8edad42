//! The Intcode machine: a linear store of signed 64-bit integers, a
//! fetch-decode-execute engine with an instruction pointer and a
//! relative-base register, an input queue primed with an optional
//! one-shot phase setting, and an output stream.
//!
//! The module defines the machine twice: once as a mathematical step
//! function over `MState` (`step_spec`), and once as the executable
//! `IntcodeMachine`, whose methods are proved to implement the step
//! function exactly.  Every fault the engine can experience — an opcode
//! outside the known set, an unknown addressing-mode digit, a negative
//! or out-of-range resolved address, arithmetic that leaves the 64-bit
//! range — is a terminal `Status::Faulted` state rather than a panic.

use vstd::prelude::*;

verus! {

/// How one parameter of an instruction is interpreted.
#[derive(Clone, Copy, Debug, PartialEq, Eq, Structural)]
pub enum Mode {
    /// The parameter is an address.
    Position,
    /// The parameter's own slot is the value source: an immediate.
    Value,
    /// The parameter is an offset from the relative base.
    Relative,
}

/// A fatal engine fault; no fault is ever recovered.
#[derive(Clone, Copy, Debug, PartialEq, Eq, Structural)]
pub enum Fault {
    /// The instruction word's low two digits name no instruction.
    UnknownOpcode,
    /// A mode digit above the known range.
    UnknownMode,
    /// A resolved address or jump target below zero.
    NegativeAddress,
    /// A fetch, a resolved address or a jump target beyond memory.
    OutOfBounds,
    /// An add, multiply or base adjustment left the 64-bit range.
    Overflow,
}

/// The engine's lifecycle: running until it halts by opcode 99 or
/// faults fatally.
#[derive(Clone, Copy, Debug, PartialEq, Eq, Structural)]
pub enum Status {
    Running,
    Halted,
    Faulted(Fault),
}

/// Zero to three resolved operands of one instruction.
#[derive(Clone, Copy, Debug)]
pub enum Args<T> {
    Zero,
    One(T),
    Two(T, T),
    Three(T, T, T),
}

/// The instruction set, one tag per opcode.
#[derive(Clone, Copy, Debug, PartialEq, Eq, Structural)]
pub enum Op {
    Add,
    Mul,
    Store,
    PushOutput,
    JumpIfTrue,
    JumpIfFalse,
    LessThan,
    Equals,
    MutateRelBase,
    Halt,
}

/// A decoded instruction: its tag and its resolved operands.
#[derive(Clone, Copy, Debug)]
pub struct Command {
    pub op: Op,
    pub args: Args<usize>,
}

/// What one execution step did.
#[derive(Clone, Copy, Debug, PartialEq, Eq, Structural)]
pub enum StepOutcome {
    /// An instruction ran; the machine is still running.
    Progressed,
    /// The next instruction pulls input and none is available; the
    /// machine is unchanged and can resume once input arrives.
    NeedInput,
    Halted,
    Faulted,
}

/// The mathematical state of one machine.
#[verifier::ext_equal]
pub struct MState {
    pub mem: Seq<i64>,
    pub ip: int,
    pub rel: int,
    pub phase: Option<i64>,
    pub input: Seq<i64>,
    pub in_ptr: int,
    pub output: Seq<i64>,
    pub status: Status,
}

pub open spec fn i64_fits(v: int) -> bool {
    i64::MIN <= v <= i64::MAX
}

/// The state a fresh machine starts in.
pub open spec fn init_state(mem: Seq<i64>, phase: Option<i64>, input: Seq<i64>) -> MState {
    MState {
        mem,
        ip: 0,
        rel: 0,
        phase,
        input,
        in_ptr: 0,
        output: Seq::empty(),
        status: Status::Running,
    }
}

/// The same state with a terminal fault recorded.
pub open spec fn fault_state(s: MState, f: Fault) -> MState {
    MState { status: Status::Faulted(f), ..s }
}

/// The instruction pointer names a readable cell.
pub open spec fn fetch_ok(s: MState) -> bool {
    0 <= s.ip < s.mem.len()
}

/// The instruction word under the pointer.
pub open spec fn word(s: MState) -> int {
    s.mem[s.ip] as int
}

/// The opcode: the word's low two decimal digits.
pub open spec fn opcode_of(w: int) -> int {
    w % 100
}

/// The mode digit of parameter `i` (0-based): the decimal digits above
/// the opcode, least significant first.  Digits beyond the third are
/// not read.
pub open spec fn mode_digit(w: int, i: int) -> int {
    if i == 0 {
        w / 100 % 10
    } else if i == 1 {
        w / 1000 % 10
    } else {
        w / 10000 % 10
    }
}

pub open spec fn mode_digit_ok(d: int) -> bool {
    0 <= d <= 2
}

pub open spec fn mode_of(d: int) -> Mode {
    if d == 0 {
        Mode::Position
    } else if d == 1 {
        Mode::Value
    } else {
        Mode::Relative
    }
}

pub open spec fn mode_for(w: int, i: int) -> Mode {
    mode_of(mode_digit(w, i))
}

/// All three mode digits of the word are known, whatever the opcode:
/// the decoder reads them before it dispatches.
pub open spec fn modes_ok(w: int) -> bool {
    mode_digit_ok(mode_digit(w, 0)) && mode_digit_ok(mode_digit(w, 1)) && mode_digit_ok(
        mode_digit(w, 2),
    )
}

pub open spec fn known_opcode(op: int) -> bool {
    1 <= op <= 9 || op == 99
}

/// How many parameters each opcode declares.
pub open spec fn arg_count(op: int) -> int {
    if op == 1 || op == 2 || op == 7 || op == 8 {
        3
    } else if op == 3 || op == 4 || op == 9 {
        1
    } else if op == 5 || op == 6 {
        2
    } else {
        0
    }
}

pub open spec fn op_of(opcode: int) -> Op {
    if opcode == 1 {
        Op::Add
    } else if opcode == 2 {
        Op::Mul
    } else if opcode == 3 {
        Op::Store
    } else if opcode == 4 {
        Op::PushOutput
    } else if opcode == 5 {
        Op::JumpIfTrue
    } else if opcode == 6 {
        Op::JumpIfFalse
    } else if opcode == 7 {
        Op::LessThan
    } else if opcode == 8 {
        Op::Equals
    } else if opcode == 9 {
        Op::MutateRelBase
    } else {
        Op::Halt
    }
}

/// One raw parameter word, read just past the instruction word.
pub open spec fn raw_param(s: MState, i: int) -> i64 {
    s.mem[s.ip + 1 + i]
}

/// A parameter and its mode, resolved to a concrete address: position
/// mode uses the raw value, an immediate uses the parameter's own slot,
/// relative mode offsets the relative base.
pub open spec fn resolve_one(mode: Mode, raw: i64, slot: int, rel: int) -> int {
    match mode {
        Mode::Position => raw as int,
        Mode::Value => slot,
        Mode::Relative => rel + raw,
    }
}

pub open spec fn resolved(s: MState, w: int, i: int) -> int {
    resolve_one(mode_for(w, i), raw_param(s, i), s.ip + 1 + i, s.rel)
}

/// The first fault among the resolved parameters, in parameter order:
/// a negative address, or one beyond memory.
pub open spec fn resolve_fault(s: MState, w: int, i: int, argc: int) -> Option<Fault>
    decreases argc - i,
{
    if i >= argc {
        None
    } else if resolved(s, w, i) < 0 {
        Some(Fault::NegativeAddress)
    } else if resolved(s, w, i) >= s.mem.len() {
        Some(Fault::OutOfBounds)
    } else {
        resolve_fault(s, w, i + 1, argc)
    }
}

/// The operands of the current instruction, resolved and packed.
pub open spec fn spec_args(s: MState, w: int, argc: int) -> Args<usize> {
    if argc == 0 {
        Args::Zero
    } else if argc == 1 {
        Args::One(resolved(s, w, 0) as usize)
    } else if argc == 2 {
        Args::Two(resolved(s, w, 0) as usize, resolved(s, w, 1) as usize)
    } else {
        Args::Three(
            resolved(s, w, 0) as usize,
            resolved(s, w, 1) as usize,
            resolved(s, w, 2) as usize,
        )
    }
}

pub open spec fn op_arity(op: Op) -> int {
    match op {
        Op::Add => 3,
        Op::Mul => 3,
        Op::Store => 1,
        Op::PushOutput => 1,
        Op::JumpIfTrue => 2,
        Op::JumpIfFalse => 2,
        Op::LessThan => 3,
        Op::Equals => 3,
        Op::MutateRelBase => 1,
        Op::Halt => 0,
    }
}

pub open spec fn arity_matches(args: Args<usize>, op: Op) -> bool {
    match args {
        Args::Zero => op_arity(op) == 0,
        Args::One(_) => op_arity(op) == 1,
        Args::Two(_, _) => op_arity(op) == 2,
        Args::Three(_, _, _) => op_arity(op) == 3,
    }
}

/// Every packed operand is a readable, writable cell.
pub open spec fn args_in_bounds(args: Args<usize>, len: int) -> bool {
    match args {
        Args::Zero => true,
        Args::One(a) => a < len,
        Args::Two(a, b) => a < len && b < len,
        Args::Three(a, b, o) => a < len && b < len && o < len,
    }
}

/// A jump: the target must name a cell of memory.
pub open spec fn jump_to(s: MState, t: int) -> MState {
    if t < 0 {
        fault_state(s, Fault::NegativeAddress)
    } else if t >= s.mem.len() {
        fault_state(s, Fault::OutOfBounds)
    } else {
        MState { ip: t, ..s }
    }
}

/// The effect of one decoded instruction on a machine whose pointer
/// already sits past the instruction word.  Operands are assumed
/// resolved and in bounds.  A blocked input instruction leaves the
/// state unchanged.
pub open spec fn op_effect(s: MState, op: Op, args: Args<usize>) -> MState {
    match (op, args) {
        (Op::Add, Args::Three(a, b, o)) => {
            let v = s.mem[a as int] + s.mem[b as int];
            if !i64_fits(v) {
                fault_state(s, Fault::Overflow)
            } else {
                MState { mem: s.mem.update(o as int, v as i64), ip: s.ip + 3, ..s }
            }
        },
        (Op::Mul, Args::Three(a, b, o)) => {
            let v = s.mem[a as int] * s.mem[b as int];
            if !i64_fits(v) {
                fault_state(s, Fault::Overflow)
            } else {
                MState { mem: s.mem.update(o as int, v as i64), ip: s.ip + 3, ..s }
            }
        },
        (Op::Store, Args::One(d)) => {
            match s.phase {
                Some(p) => MState {
                    mem: s.mem.update(d as int, p),
                    phase: None,
                    ip: s.ip + 1,
                    ..s
                },
                None => {
                    if s.in_ptr < s.input.len() {
                        MState {
                            mem: s.mem.update(d as int, s.input[s.in_ptr]),
                            in_ptr: s.in_ptr + 1,
                            ip: s.ip + 1,
                            ..s
                        }
                    } else {
                        s
                    }
                },
            }
        },
        (Op::PushOutput, Args::One(a)) => MState {
            output: s.output.push(s.mem[a as int]),
            ip: s.ip + 1,
            ..s
        },
        (Op::JumpIfTrue, Args::Two(c, t)) => {
            if s.mem[c as int] != 0 {
                jump_to(s, s.mem[t as int] as int)
            } else {
                MState { ip: s.ip + 2, ..s }
            }
        },
        (Op::JumpIfFalse, Args::Two(c, t)) => {
            if s.mem[c as int] == 0 {
                jump_to(s, s.mem[t as int] as int)
            } else {
                MState { ip: s.ip + 2, ..s }
            }
        },
        (Op::LessThan, Args::Three(a, b, o)) => MState {
            mem: s.mem.update(o as int, if s.mem[a as int] < s.mem[b as int] { 1i64 } else { 0i64 }),
            ip: s.ip + 3,
            ..s
        },
        (Op::Equals, Args::Three(a, b, o)) => MState {
            mem: s.mem.update(o as int, if s.mem[a as int] == s.mem[b as int] { 1i64 } else { 0i64 }),
            ip: s.ip + 3,
            ..s
        },
        (Op::MutateRelBase, Args::One(a)) => {
            let v = s.rel + s.mem[a as int];
            if !i64_fits(v) {
                fault_state(s, Fault::Overflow)
            } else {
                MState { rel: v, ip: s.ip + 1, ..s }
            }
        },
        (Op::Halt, Args::Zero) => MState { status: Status::Halted, ..s },
        _ => s,
    }
}

/// The machine is running, decodes an input instruction, and has no
/// phase setting and no queued value to pull: it is blocked.
pub open spec fn blocked_on_input(s: MState) -> bool {
    &&& s.status == Status::Running
    &&& fetch_ok(s)
    &&& word(s) >= 0
    &&& modes_ok(word(s))
    &&& opcode_of(word(s)) == 3
    &&& s.ip + 2 <= s.mem.len()
    &&& resolve_fault(s, word(s), 0, 1) is None
    &&& s.phase is None
    &&& s.in_ptr >= s.input.len()
}

/// One step of the machine: fetch, decode, resolve, execute.  A halted,
/// faulted or blocked machine does not move.
pub open spec fn step_spec(s: MState) -> MState {
    if s.status != Status::Running {
        s
    } else if !fetch_ok(s) {
        fault_state(s, Fault::OutOfBounds)
    } else if word(s) < 0 {
        fault_state(s, Fault::UnknownOpcode)
    } else if !modes_ok(word(s)) {
        fault_state(s, Fault::UnknownMode)
    } else if !known_opcode(opcode_of(word(s))) {
        fault_state(s, Fault::UnknownOpcode)
    } else if s.ip + 1 + arg_count(opcode_of(word(s))) > s.mem.len() {
        fault_state(s, Fault::OutOfBounds)
    } else if resolve_fault(s, word(s), 0, arg_count(opcode_of(word(s)))) is Some {
        fault_state(s, resolve_fault(s, word(s), 0, arg_count(opcode_of(word(s)))).unwrap())
    } else if blocked_on_input(s) {
        s
    } else {
        op_effect(
            MState { ip: s.ip + 1, ..s },
            op_of(opcode_of(word(s))),
            spec_args(s, word(s), arg_count(opcode_of(word(s)))),
        )
    }
}

/// What one step reports.
pub open spec fn step_outcome(s: MState) -> StepOutcome {
    if s.status == Status::Halted {
        StepOutcome::Halted
    } else if s.status is Faulted {
        StepOutcome::Faulted
    } else if blocked_on_input(s) {
        StepOutcome::NeedInput
    } else {
        match step_spec(s).status {
            Status::Running => StepOutcome::Progressed,
            Status::Halted => StepOutcome::Halted,
            Status::Faulted(_) => StepOutcome::Faulted,
        }
    }
}

/// `n` steps of the machine.
pub open spec fn steps(s: MState, n: nat) -> MState
    decreases n,
{
    if n == 0 {
        s
    } else {
        step_spec(steps(s, (n - 1) as nat))
    }
}

/// `s1` is what `n` steps make of `s0`, and no step along the way was
/// taken from a blocked state: the run made real progress throughout.
pub open spec fn advanced_to(s0: MState, s1: MState, n: nat) -> bool {
    &&& s1 == steps(s0, n)
    &&& forall|k: nat| k < n ==> !blocked_on_input(#[trigger] steps(s0, k))
}

/// The relative-mode law: once an adjust-base instruction has added
/// `k` to the relative base, a relative-mode parameter with offset `d`
/// resolves to the absolute address `base + k + d` — exactly the cell
/// a position-mode parameter naming that address reaches.
pub proof fn lemma_relative_matches_position(s: MState, a: usize, d: i64, slot: int, raw_abs: i64)
    requires
        a < s.mem.len(),
        i64_fits(s.rel + s.mem[a as int]),
        raw_abs == s.rel + s.mem[a as int] + d,
    ensures
        op_effect(s, Op::MutateRelBase, Args::One(a)).rel == s.rel + s.mem[a as int],
        resolve_one(Mode::Relative, d, slot, op_effect(s, Op::MutateRelBase, Args::One(a)).rel)
            == raw_abs,
        resolve_one(Mode::Position, raw_abs, slot, op_effect(s, Op::MutateRelBase, Args::One(a)).rel)
            == raw_abs,
{
}

/// A machine that is not running any more never moves again.
pub proof fn lemma_settled_stable(s: MState, n: nat)
    requires
        s.status != Status::Running,
    ensures
        steps(s, n) == s,
    decreases n,
{
    if n > 0 {
        lemma_settled_stable(s, (n - 1) as nat);
    }
}

/// A blocked machine never moves again on its own.
pub proof fn lemma_blocked_stable(s: MState, n: nat)
    requires
        blocked_on_input(s),
    ensures
        steps(s, n) == s,
    decreases n,
{
    if n > 0 {
        lemma_blocked_stable(s, (n - 1) as nat);
    }
}

/// Step counts compose.
pub proof fn lemma_steps_add(s: MState, m: nat, n: nat)
    ensures
        steps(s, m + n) == steps(steps(s, m), n),
    decreases n,
{
    if n > 0 {
        lemma_steps_add(s, m, (n - 1) as nat);
        assert(m + n - 1 == (m + n - 1) as nat);
    }
}

/// A vector never holds more elements than `usize` can count.
proof fn lemma_vec_len_bound(v: &Vec<i64>)
    ensures
        v@.len() <= usize::MAX,
{
    broadcast use vstd::std_specs::vec::axiom_spec_len;

    assert(vstd::std_specs::vec::spec_vec_len(v) == v@.len());
}

/// The executable machine.  Its view is the mathematical `MState`.
pub struct IntcodeMachine {
    memory: Vec<i64>,
    cmd_ptr: usize,
    rel_base: i64,
    phase_setting: Option<i64>,
    input: Vec<i64>,
    in_ptr: usize,
    output: Vec<i64>,
    status: Status,
}

impl View for IntcodeMachine {
    type V = MState;

    closed spec fn view(&self) -> MState {
        MState {
            mem: self.memory@,
            ip: self.cmd_ptr as int,
            rel: self.rel_base as int,
            phase: self.phase_setting,
            input: self.input@,
            in_ptr: self.in_ptr as int,
            output: self.output@,
            status: self.status,
        }
    }
}

impl Mode {
    /// The addressing mode named by one decimal digit.
    pub fn from_code(code: u64) -> (r: Result<Mode, Fault>)
        ensures
            r == if mode_digit_ok(code as int) {
                Ok::<Mode, Fault>(mode_of(code as int))
            } else {
                Err::<Mode, Fault>(Fault::UnknownMode)
            },
    {
        match code {
            0u64 => Ok(Mode::Position),
            1u64 => Ok(Mode::Value),
            2u64 => Ok(Mode::Relative),
            _ => Err(Fault::UnknownMode),
        }
    }
}

/// A program followed by `extra` zero-filled scratch cells.
pub open spec fn padded_program(prog: Seq<i64>, extra: nat) -> Seq<i64> {
    prog + Seq::new(extra, |i: int| 0i64)
}

/// A program followed by `extra` zero-filled scratch cells; the caller
/// chooses the scratch size for the program's working set.
pub fn with_scratch(program: &Vec<i64>, extra: usize) -> (r: Vec<i64>)
    ensures
        r@ == padded_program(program@, extra as nat),
{
    let mut out: Vec<i64> = Vec::new();
    let mut i: usize = 0;
    while i < program.len()
        invariant
            i <= program.len(),
            out@ == program@.take(i as int),
        decreases program.len() - i,
    {
        out.push(program[i]);
        i = i + 1;
    }
    proof {
        assert(out@ =~= program@);
    }
    let mut j: usize = 0;
    while j < extra
        invariant
            j <= extra,
            out@ == program@ + Seq::new(j as nat, |i: int| 0i64),
        decreases extra - j,
    {
        out.push(0);
        proof {
            assert(out@ =~= program@ + Seq::new((j + 1) as nat, |i: int| 0i64));
        }
        j = j + 1;
    }
    out
}

impl IntcodeMachine {
    /// A fresh machine over a copy of the program, pointer and relative
    /// base at zero, the phase setting waiting for the first input
    /// instruction, and empty input and output streams.
    pub fn new(program: &Vec<i64>, phase_setting: i64) -> (r: Self)
        ensures
            r@ == init_state(program@, Some(phase_setting), Seq::<i64>::empty()),
    {
        let r = IntcodeMachine {
            memory: program.clone(),
            cmd_ptr: 0,
            rel_base: 0,
            phase_setting: Some(phase_setting),
            input: Vec::new(),
            in_ptr: 0,
            output: Vec::new(),
            status: Status::Running,
        };
        proof {
            assert(r@ =~= init_state(program@, Some(phase_setting), Seq::<i64>::empty()));
        }
        r
    }

    /// A fresh machine with no phase setting: every input comes from
    /// the input port.
    pub fn new_without_phase(program: &Vec<i64>) -> (r: Self)
        ensures
            r@ == init_state(program@, None::<i64>, Seq::<i64>::empty()),
    {
        let r = IntcodeMachine {
            memory: program.clone(),
            cmd_ptr: 0,
            rel_base: 0,
            phase_setting: None,
            input: Vec::new(),
            in_ptr: 0,
            output: Vec::new(),
            status: Status::Running,
        };
        proof {
            assert(r@ =~= init_state(program@, None::<i64>, Seq::<i64>::empty()));
        }
        r
    }

    /// Queue one value on the machine's input port.
    pub fn set_input(&mut self, value: i64)
        ensures
            final(self)@ == (MState { input: old(self)@.input.push(value), ..old(self)@ }),
    {
        self.input.push(value);
        proof {
            assert(final(self)@ =~= (MState { input: old(self)@.input.push(value), ..old(self)@ }));
        }
    }

    /// The machine's memory, as it stands.
    pub fn memory(&self) -> (r: &Vec<i64>)
        ensures
            r@ == self@.mem,
    {
        &self.memory
    }

    /// Everything the machine has emitted so far, in emission order.
    pub fn outputs(&self) -> (r: &Vec<i64>)
        ensures
            r@ == self@.output,
    {
        &self.output
    }

    pub fn is_halted(&self) -> (r: bool)
        ensures
            r == (self@.status == Status::Halted),
    {
        match self.status {
            Status::Halted => true,
            _ => false,
        }
    }

    /// Reads the word under the pointer, advances the pointer past it,
    /// and returns the opcode with the three mode digits above it.
    pub fn decode_instruction(&mut self) -> (r: Result<(u64, Vec<Mode>), Fault>)
        requires
            old(self)@.status == Status::Running,
        ensures
            match r {
                Ok((op, modes)) => {
                    &&& fetch_ok(old(self)@)
                    &&& word(old(self)@) >= 0
                    &&& modes_ok(word(old(self)@))
                    &&& op == opcode_of(word(old(self)@))
                    &&& modes@.len() == 3
                    &&& modes@[0] == mode_for(word(old(self)@), 0)
                    &&& modes@[1] == mode_for(word(old(self)@), 1)
                    &&& modes@[2] == mode_for(word(old(self)@), 2)
                    &&& final(self)@ == (MState { ip: old(self)@.ip + 1, ..old(self)@ })
                },
                Err(f) => {
                    &&& final(self)@ == old(self)@
                    &&& step_spec(old(self)@) == fault_state(old(self)@, f)
                },
            },
    {
        if self.cmd_ptr >= self.memory.len() {
            return Err(Fault::OutOfBounds);
        }
        let w: i64 = self.memory[self.cmd_ptr];
        if w < 0 {
            return Err(Fault::UnknownOpcode);
        }
        let d0: u64 = ((w / 100) % 10) as u64;
        let d1: u64 = ((w / 1000) % 10) as u64;
        let d2: u64 = ((w / 10000) % 10) as u64;
        let m0: Mode = match Mode::from_code(d0) {
            Ok(m) => m,
            Err(f) => {
                return Err(f);
            },
        };
        let m1: Mode = match Mode::from_code(d1) {
            Ok(m) => m,
            Err(f) => {
                return Err(f);
            },
        };
        let m2: Mode = match Mode::from_code(d2) {
            Ok(m) => m,
            Err(f) => {
                return Err(f);
            },
        };
        let mut modes: Vec<Mode> = Vec::new();
        modes.push(m0);
        modes.push(m1);
        modes.push(m2);
        let opcode: u64 = (w % 100) as u64;
        self.cmd_ptr = self.cmd_ptr + 1;
        proof {
            assert(final(self)@ =~= (MState { ip: old(self)@.ip + 1, ..old(self)@ }));
        }
        Ok((opcode, modes))
    }

    /// The raw parameter words of the current instruction: the
    /// `arg_count` cells just past the pointer.
    pub fn get_current_memory_slice(&self, opcode: u64) -> (r: Result<Vec<i64>, Fault>)
        ensures
            match r {
                Ok(v) => {
                    &&& known_opcode(opcode as int)
                    &&& self@.ip + arg_count(opcode as int) <= self@.mem.len()
                    &&& v@ == self@.mem.subrange(self@.ip, self@.ip + arg_count(opcode as int))
                },
                Err(f) => {
                    &&& (f == Fault::UnknownOpcode <==> !known_opcode(opcode as int))
                    &&& f == Fault::UnknownOpcode || f == Fault::OutOfBounds
                    &&& f == Fault::OutOfBounds ==> known_opcode(opcode as int) && self@.ip
                        + arg_count(opcode as int) > self@.mem.len()
                },
            },
    {
        let argc: usize = match opcode {
            1u64 => 3,
            2u64 => 3,
            3u64 => 1,
            4u64 => 1,
            5u64 => 2,
            6u64 => 2,
            7u64 => 3,
            8u64 => 3,
            9u64 => 1,
            99u64 => 0,
            _ => {
                return Err(Fault::UnknownOpcode);
            },
        };
        if self.cmd_ptr > self.memory.len() || argc > self.memory.len() - self.cmd_ptr {
            return Err(Fault::OutOfBounds);
        }
        let mut v: Vec<i64> = Vec::new();
        let mut j: usize = 0;
        while j < argc
            invariant
                j <= argc,
                self.cmd_ptr + argc <= self.memory.len(),
                v@ == self@.mem.subrange(self@.ip, self@.ip + j),
            decreases argc - j,
        {
            v.push(self.memory[self.cmd_ptr + j]);
            proof {
                assert(v@ =~= self@.mem.subrange(self@.ip, self@.ip + j + 1));
            }
            j = j + 1;
        }
        Ok(v)
    }

    /// Resolves each raw parameter with its mode to a concrete address,
    /// in parameter order; the first negative or out-of-range address
    /// is the fault of the whole instruction.
    pub fn build_args(&self, raw_args: &Vec<i64>, modes: Vec<Mode>) -> (r: Result<
        Args<usize>,
        Fault,
    >)
        requires
            raw_args@.len() <= 3,
            modes@.len() == 3,
        ensures
            ({
                let s = self@;
                let n = raw_args@.len() as int;
                match r {
                    Ok(args) => {
                        &&& build_fault(s, modes@, raw_args@, 0) is None
                        &&& args == built_args(s, modes@, raw_args@)
                        &&& args_in_bounds(args, s.mem.len() as int)
                        &&& arg_lens_match(args, n)
                    },
                    Err(f) => build_fault(s, modes@, raw_args@, 0) == Some(f),
                }
            }),
    {
        let n: usize = raw_args.len();
        let mut resolved_vals: Vec<usize> = Vec::new();
        let mut i: usize = 0;
        while i < n
            invariant
                i <= n,
                n == raw_args@.len(),
                n <= 3,
                modes@.len() == 3,
                build_fault(self@, modes@, raw_args@, 0) == build_fault(
                    self@,
                    modes@,
                    raw_args@,
                    i as int,
                ),
                resolved_vals@.len() == i,
                forall|k: int|
                    0 <= k < i ==> {
                        &&& #[trigger] resolved_vals@[k] == resolve_one(
                            modes@[k],
                            raw_args@[k],
                            self@.ip + k,
                            self@.rel,
                        )
                        &&& 0 <= resolved_vals@[k] < self@.mem.len()
                    },
            decreases n - i,
        {
            let raw: i64 = raw_args[i];
            let a: usize = match modes[i] {
                Mode::Position => {
                    if raw < 0 {
                        return Err(Fault::NegativeAddress);
                    }
                    if raw as u64 >= self.memory.len() as u64 {
                        return Err(Fault::OutOfBounds);
                    }
                    raw as usize
                },
                Mode::Value => {
                    if self.cmd_ptr >= self.memory.len() || i >= self.memory.len() - self.cmd_ptr {
                        return Err(Fault::OutOfBounds);
                    }
                    self.cmd_ptr + i
                },
                Mode::Relative => {
                    let sum: i128 = self.rel_base as i128 + raw as i128;
                    if sum < 0 {
                        return Err(Fault::NegativeAddress);
                    }
                    if sum >= self.memory.len() as i128 {
                        return Err(Fault::OutOfBounds);
                    }
                    sum as usize
                },
            };
            resolved_vals.push(a);
            i = i + 1;
        }
        let args: Args<usize> = if n == 0 {
            Args::Zero
        } else if n == 1 {
            Args::One(resolved_vals[0])
        } else if n == 2 {
            Args::Two(resolved_vals[0], resolved_vals[1])
        } else {
            Args::Three(resolved_vals[0], resolved_vals[1], resolved_vals[2])
        };
        Ok(args)
    }

    /// Pairs the opcode's tag with its resolved operands.
    pub fn get_command(&self, opcode: u64, args: Args<usize>) -> (r: Result<Command, Fault>)
        ensures
            r == if known_opcode(opcode as int) {
                Ok::<Command, Fault>(Command { op: op_of(opcode as int), args })
            } else {
                Err::<Command, Fault>(Fault::UnknownOpcode)
            },
    {
        let op: Op = match opcode {
            1u64 => Op::Add,
            2u64 => Op::Mul,
            3u64 => Op::Store,
            4u64 => Op::PushOutput,
            5u64 => Op::JumpIfTrue,
            6u64 => Op::JumpIfFalse,
            7u64 => Op::LessThan,
            8u64 => Op::Equals,
            9u64 => Op::MutateRelBase,
            99u64 => Op::Halt,
            _ => {
                return Err(Fault::UnknownOpcode);
            },
        };
        Ok(Command { op, args })
    }

    /// Adds the two operands into the output cell.
    pub fn add(&mut self, args: Args<usize>) -> (r: StepOutcome)
        requires
            old(self)@.status == Status::Running,
            args is Three,
            args_in_bounds(args, old(self)@.mem.len() as int),
            old(self)@.ip + 3 <= old(self)@.mem.len(),
        ensures
            final(self)@ == op_effect(old(self)@, Op::Add, args),
            r == op_outcome_spec(old(self)@, Op::Add, args),
    {
        if let Args::Three(a, b, o) = args {
            proof {
                lemma_vec_len_bound(&self.memory);
            }
            match self.memory[a].checked_add(self.memory[b]) {
                Some(v) => {
                    self.memory.set(o, v);
                    self.cmd_ptr = self.cmd_ptr + 3;
                    proof {
                        assert(final(self)@ =~= op_effect(old(self)@, Op::Add, args));
                    }
                    StepOutcome::Progressed
                },
                None => {
                    self.status = Status::Faulted(Fault::Overflow);
                    proof {
                        assert(final(self)@ =~= op_effect(old(self)@, Op::Add, args));
                    }
                    StepOutcome::Faulted
                },
            }
        } else {
            proof {
                assert(false);
            }
            StepOutcome::Faulted
        }
    }

    /// Multiplies the two operands into the output cell.
    pub fn mul(&mut self, args: Args<usize>) -> (r: StepOutcome)
        requires
            old(self)@.status == Status::Running,
            args is Three,
            args_in_bounds(args, old(self)@.mem.len() as int),
            old(self)@.ip + 3 <= old(self)@.mem.len(),
        ensures
            final(self)@ == op_effect(old(self)@, Op::Mul, args),
            r == op_outcome_spec(old(self)@, Op::Mul, args),
    {
        if let Args::Three(a, b, o) = args {
            proof {
                lemma_vec_len_bound(&self.memory);
            }
            match self.memory[a].checked_mul(self.memory[b]) {
                Some(v) => {
                    self.memory.set(o, v);
                    self.cmd_ptr = self.cmd_ptr + 3;
                    proof {
                        assert(final(self)@ =~= op_effect(old(self)@, Op::Mul, args));
                    }
                    StepOutcome::Progressed
                },
                None => {
                    self.status = Status::Faulted(Fault::Overflow);
                    proof {
                        assert(final(self)@ =~= op_effect(old(self)@, Op::Mul, args));
                    }
                    StepOutcome::Faulted
                },
            }
        } else {
            proof {
                assert(false);
            }
            StepOutcome::Faulted
        }
    }

    /// Writes the next input value into the target cell: the phase
    /// setting if still unconsumed, else the next queued value; with
    /// neither, the machine blocks unchanged.
    pub fn store(&mut self, args: Args<usize>) -> (r: StepOutcome)
        requires
            old(self)@.status == Status::Running,
            args is One,
            args_in_bounds(args, old(self)@.mem.len() as int),
            old(self)@.ip + 1 <= old(self)@.mem.len(),
        ensures
            final(self)@ == op_effect(old(self)@, Op::Store, args),
            r == op_outcome_spec(old(self)@, Op::Store, args),
    {
        if let Args::One(d) = args {
            proof {
                lemma_vec_len_bound(&self.memory);
            }
            match self.phase_setting {
                Some(p) => {
                    self.memory.set(d, p);
                    self.phase_setting = None;
                    self.cmd_ptr = self.cmd_ptr + 1;
                    proof {
                        assert(final(self)@ =~= op_effect(old(self)@, Op::Store, args));
                    }
                    StepOutcome::Progressed
                },
                None => {
                    if self.in_ptr < self.input.len() {
                        let v: i64 = self.input[self.in_ptr];
                        self.memory.set(d, v);
                        self.in_ptr = self.in_ptr + 1;
                        self.cmd_ptr = self.cmd_ptr + 1;
                        proof {
                            assert(final(self)@ =~= op_effect(old(self)@, Op::Store, args));
                        }
                        StepOutcome::Progressed
                    } else {
                        StepOutcome::NeedInput
                    }
                },
            }
        } else {
            proof {
                assert(false);
            }
            StepOutcome::Faulted
        }
    }

    /// Emits the operand's value on the output stream.
    pub fn push_output(&mut self, args: Args<usize>) -> (r: StepOutcome)
        requires
            old(self)@.status == Status::Running,
            args is One,
            args_in_bounds(args, old(self)@.mem.len() as int),
            old(self)@.ip + 1 <= old(self)@.mem.len(),
        ensures
            final(self)@ == op_effect(old(self)@, Op::PushOutput, args),
            r == op_outcome_spec(old(self)@, Op::PushOutput, args),
    {
        if let Args::One(a) = args {
            proof {
                lemma_vec_len_bound(&self.memory);
            }
            let v: i64 = self.memory[a];
            self.output.push(v);
            self.cmd_ptr = self.cmd_ptr + 1;
            proof {
                assert(final(self)@ =~= op_effect(old(self)@, Op::PushOutput, args));
            }
            StepOutcome::Progressed
        } else {
            proof {
                assert(false);
            }
            StepOutcome::Faulted
        }
    }

    /// Jumps to the target if the condition cell is non-zero.
    pub fn jump_if_true(&mut self, args: Args<usize>) -> (r: StepOutcome)
        requires
            old(self)@.status == Status::Running,
            args is Two,
            args_in_bounds(args, old(self)@.mem.len() as int),
            old(self)@.ip + 2 <= old(self)@.mem.len(),
        ensures
            final(self)@ == op_effect(old(self)@, Op::JumpIfTrue, args),
            r == op_outcome_spec(old(self)@, Op::JumpIfTrue, args),
    {
        if let Args::Two(c, t) = args {
            proof {
                lemma_vec_len_bound(&self.memory);
            }
            if self.memory[c] != 0 {
                let target: i64 = self.memory[t];
                if target < 0 {
                    self.status = Status::Faulted(Fault::NegativeAddress);
                    proof {
                        assert(final(self)@ =~= op_effect(old(self)@, Op::JumpIfTrue, args));
                    }
                    StepOutcome::Faulted
                } else if target as u64 >= self.memory.len() as u64 {
                    self.status = Status::Faulted(Fault::OutOfBounds);
                    proof {
                        assert(final(self)@ =~= op_effect(old(self)@, Op::JumpIfTrue, args));
                    }
                    StepOutcome::Faulted
                } else {
                    self.cmd_ptr = target as usize;
                    proof {
                        assert(final(self)@ =~= op_effect(old(self)@, Op::JumpIfTrue, args));
                    }
                    StepOutcome::Progressed
                }
            } else {
                self.cmd_ptr = self.cmd_ptr + 2;
                proof {
                    assert(final(self)@ =~= op_effect(old(self)@, Op::JumpIfTrue, args));
                }
                StepOutcome::Progressed
            }
        } else {
            proof {
                assert(false);
            }
            StepOutcome::Faulted
        }
    }

    /// Jumps to the target if the condition cell is zero.
    pub fn jump_if_false(&mut self, args: Args<usize>) -> (r: StepOutcome)
        requires
            old(self)@.status == Status::Running,
            args is Two,
            args_in_bounds(args, old(self)@.mem.len() as int),
            old(self)@.ip + 2 <= old(self)@.mem.len(),
        ensures
            final(self)@ == op_effect(old(self)@, Op::JumpIfFalse, args),
            r == op_outcome_spec(old(self)@, Op::JumpIfFalse, args),
    {
        if let Args::Two(c, t) = args {
            proof {
                lemma_vec_len_bound(&self.memory);
            }
            if self.memory[c] == 0 {
                let target: i64 = self.memory[t];
                if target < 0 {
                    self.status = Status::Faulted(Fault::NegativeAddress);
                    proof {
                        assert(final(self)@ =~= op_effect(old(self)@, Op::JumpIfFalse, args));
                    }
                    StepOutcome::Faulted
                } else if target as u64 >= self.memory.len() as u64 {
                    self.status = Status::Faulted(Fault::OutOfBounds);
                    proof {
                        assert(final(self)@ =~= op_effect(old(self)@, Op::JumpIfFalse, args));
                    }
                    StepOutcome::Faulted
                } else {
                    self.cmd_ptr = target as usize;
                    proof {
                        assert(final(self)@ =~= op_effect(old(self)@, Op::JumpIfFalse, args));
                    }
                    StepOutcome::Progressed
                }
            } else {
                self.cmd_ptr = self.cmd_ptr + 2;
                proof {
                    assert(final(self)@ =~= op_effect(old(self)@, Op::JumpIfFalse, args));
                }
                StepOutcome::Progressed
            }
        } else {
            proof {
                assert(false);
            }
            StepOutcome::Faulted
        }
    }

    /// Writes 1 into the output cell if the first operand is below the
    /// second, else 0.
    pub fn less_than(&mut self, args: Args<usize>) -> (r: StepOutcome)
        requires
            old(self)@.status == Status::Running,
            args is Three,
            args_in_bounds(args, old(self)@.mem.len() as int),
            old(self)@.ip + 3 <= old(self)@.mem.len(),
        ensures
            final(self)@ == op_effect(old(self)@, Op::LessThan, args),
            r == op_outcome_spec(old(self)@, Op::LessThan, args),
    {
        if let Args::Three(a, b, o) = args {
            proof {
                lemma_vec_len_bound(&self.memory);
            }
            let v: i64 = if self.memory[a] < self.memory[b] {
                1
            } else {
                0
            };
            self.memory.set(o, v);
            self.cmd_ptr = self.cmd_ptr + 3;
            proof {
                assert(final(self)@ =~= op_effect(old(self)@, Op::LessThan, args));
            }
            StepOutcome::Progressed
        } else {
            proof {
                assert(false);
            }
            StepOutcome::Faulted
        }
    }

    /// Writes 1 into the output cell if the operands are equal, else 0.
    pub fn equals(&mut self, args: Args<usize>) -> (r: StepOutcome)
        requires
            old(self)@.status == Status::Running,
            args is Three,
            args_in_bounds(args, old(self)@.mem.len() as int),
            old(self)@.ip + 3 <= old(self)@.mem.len(),
        ensures
            final(self)@ == op_effect(old(self)@, Op::Equals, args),
            r == op_outcome_spec(old(self)@, Op::Equals, args),
    {
        if let Args::Three(a, b, o) = args {
            proof {
                lemma_vec_len_bound(&self.memory);
            }
            let v: i64 = if self.memory[a] == self.memory[b] {
                1
            } else {
                0
            };
            self.memory.set(o, v);
            self.cmd_ptr = self.cmd_ptr + 3;
            proof {
                assert(final(self)@ =~= op_effect(old(self)@, Op::Equals, args));
            }
            StepOutcome::Progressed
        } else {
            proof {
                assert(false);
            }
            StepOutcome::Faulted
        }
    }

    /// Adds the operand's value to the relative base.
    pub fn mutate_rel_base(&mut self, args: Args<usize>) -> (r: StepOutcome)
        requires
            old(self)@.status == Status::Running,
            args is One,
            args_in_bounds(args, old(self)@.mem.len() as int),
            old(self)@.ip + 1 <= old(self)@.mem.len(),
        ensures
            final(self)@ == op_effect(old(self)@, Op::MutateRelBase, args),
            r == op_outcome_spec(old(self)@, Op::MutateRelBase, args),
    {
        if let Args::One(a) = args {
            proof {
                lemma_vec_len_bound(&self.memory);
            }
            match self.rel_base.checked_add(self.memory[a]) {
                Some(v) => {
                    self.rel_base = v;
                    self.cmd_ptr = self.cmd_ptr + 1;
                    proof {
                        assert(final(self)@ =~= op_effect(old(self)@, Op::MutateRelBase, args));
                    }
                    StepOutcome::Progressed
                },
                None => {
                    self.status = Status::Faulted(Fault::Overflow);
                    proof {
                        assert(final(self)@ =~= op_effect(old(self)@, Op::MutateRelBase, args));
                    }
                    StepOutcome::Faulted
                },
            }
        } else {
            proof {
                assert(false);
            }
            StepOutcome::Faulted
        }
    }

    /// Enters the terminal halted state; nothing more is mutated.
    pub fn halt(&mut self, args: Args<usize>) -> (r: StepOutcome)
        requires
            old(self)@.status == Status::Running,
            args is Zero,
        ensures
            final(self)@ == op_effect(old(self)@, Op::Halt, args),
            r == op_outcome_spec(old(self)@, Op::Halt, args),
    {
        if let Args::Zero = args {
            self.status = Status::Halted;
            proof {
                assert(final(self)@ =~= op_effect(old(self)@, Op::Halt, args));
            }
            StepOutcome::Halted
        } else {
            proof {
                assert(false);
            }
            StepOutcome::Faulted
        }
    }
}

/// What a handler reports for one decoded instruction.
pub open spec fn op_outcome_spec(s: MState, op: Op, args: Args<usize>) -> StepOutcome {
    match (op, args) {
        (Op::Store, Args::One(_)) => {
            if s.phase is None && s.in_ptr >= s.input.len() {
                StepOutcome::NeedInput
            } else {
                StepOutcome::Progressed
            }
        },
        (Op::Halt, Args::Zero) => StepOutcome::Halted,
        _ => {
            if op_effect(s, op, args).status is Faulted {
                StepOutcome::Faulted
            } else {
                StepOutcome::Progressed
            }
        },
    }
}

impl Command {
    /// Dispatches to the handler of the command's tag.
    pub fn apply(self, machine: &mut IntcodeMachine) -> (r: StepOutcome)
        requires
            old(machine)@.status == Status::Running,
            arity_matches(self.args, self.op),
            args_in_bounds(self.args, old(machine)@.mem.len() as int),
            old(machine)@.ip + op_arity(self.op) <= old(machine)@.mem.len(),
        ensures
            final(machine)@ == op_effect(old(machine)@, self.op, self.args),
            r == op_outcome_spec(old(machine)@, self.op, self.args),
    {
        match self.op {
            Op::Add => machine.add(self.args),
            Op::Mul => machine.mul(self.args),
            Op::Store => machine.store(self.args),
            Op::PushOutput => machine.push_output(self.args),
            Op::JumpIfTrue => machine.jump_if_true(self.args),
            Op::JumpIfFalse => machine.jump_if_false(self.args),
            Op::LessThan => machine.less_than(self.args),
            Op::Equals => machine.equals(self.args),
            Op::MutateRelBase => machine.mutate_rel_base(self.args),
            Op::Halt => machine.halt(self.args),
        }
    }
}

/// The first resolution fault over the generic mode/raw sequences, as
/// the resolver walks them.
pub open spec fn build_fault(s: MState, modes: Seq<Mode>, raws: Seq<i64>, i: int) -> Option<Fault>
    decreases raws.len() - i,
{
    if i < 0 || i >= raws.len() {
        None
    } else {
        let a = resolve_one(modes[i], raws[i], s.ip + i, s.rel);
        if a < 0 {
            Some(Fault::NegativeAddress)
        } else if a >= s.mem.len() {
            Some(Fault::OutOfBounds)
        } else {
            build_fault(s, modes, raws, i + 1)
        }
    }
}

/// The operands the resolver packs when nothing faults.
pub open spec fn built_args(s: MState, modes: Seq<Mode>, raws: Seq<i64>) -> Args<usize> {
    if raws.len() == 0 {
        Args::Zero
    } else if raws.len() == 1 {
        Args::One(resolve_one(modes[0], raws[0], s.ip + 0, s.rel) as usize)
    } else if raws.len() == 2 {
        Args::Two(
            resolve_one(modes[0], raws[0], s.ip + 0, s.rel) as usize,
            resolve_one(modes[1], raws[1], s.ip + 1, s.rel) as usize,
        )
    } else {
        Args::Three(
            resolve_one(modes[0], raws[0], s.ip + 0, s.rel) as usize,
            resolve_one(modes[1], raws[1], s.ip + 1, s.rel) as usize,
            resolve_one(modes[2], raws[2], s.ip + 2, s.rel) as usize,
        )
    }
}

pub open spec fn arg_lens_match(args: Args<usize>, n: int) -> bool {
    match args {
        Args::Zero => n == 0,
        Args::One(_) => n == 1,
        Args::Two(_, _) => n == 2,
        Args::Three(_, _, _) => n == 3,
    }
}

/// The resolver's walk over the packed sequences finds the same first
/// fault as the specification's walk over the machine state.
proof fn lemma_fault_equiv(s0: MState, s1: MState, modes: Seq<Mode>, raws: Seq<i64>, w: int, i: int)
    requires
        s1.mem == s0.mem,
        s1.rel == s0.rel,
        s1.ip == s0.ip + 1,
        raws.len() <= 3,
        modes.len() == 3,
        forall|j: int|
            0 <= j < raws.len() ==> #[trigger] modes[j] == mode_for(w, j) && raws[j] == raw_param(
                s0,
                j,
            ),
        0 <= i <= raws.len(),
    ensures
        build_fault(s1, modes, raws, i) == resolve_fault(s0, w, i, raws.len() as int),
    decreases raws.len() - i,
{
    if i < raws.len() {
        assert(resolve_one(modes[i], raws[i], s1.ip + i, s1.rel) == resolved(s0, w, i));
        lemma_fault_equiv(s0, s1, modes, raws, w, i + 1);
    }
}

/// What one event of a resumable run reports.
#[derive(Clone, Copy, Debug, PartialEq, Eq, Structural)]
pub enum RunEvent {
    /// The machine emitted this value and is still running.
    Output(i64),
    /// The machine is blocked on its input port.
    NeedInput,
    Halted,
    Faulted,
    /// The step budget ran out before any event.
    Stalled,
}

/// The state with one more value queued on the input port.
pub open spec fn with_input(s: MState, v: i64) -> MState {
    MState { input: s.input.push(v), ..s }
}

/// The input cursor never points below the stream's start; every
/// machine the library builds satisfies this, and stepping keeps it.
pub open spec fn wf_state(s: MState) -> bool {
    0 <= s.in_ptr
}

pub proof fn lemma_wf_steps(s: MState, n: nat)
    requires
        wf_state(s),
    ensures
        wf_state(steps(s, n)),
    decreases n,
{
    if n > 0 {
        lemma_wf_steps(s, (n - 1) as nat);
    }
}

/// A machine that is not blocked takes the same step whether or not a
/// further value is queued behind the input it can already see.
pub proof fn lemma_step_append(s: MState, v: i64)
    requires
        !blocked_on_input(s),
        wf_state(s),
    ensures
        step_spec(with_input(s, v)) == with_input(step_spec(s), v),
        !blocked_on_input(with_input(s, v)),
{
    let t = with_input(s, v);
    lemma_resolve_fault_same(s, t, word(s), 0, 1);
    assert(!blocked_on_input(t)) by {
        if blocked_on_input(t) {
            assert(t.in_ptr >= t.input.len());
            assert(s.in_ptr >= s.input.len());
            assert(blocked_on_input(s));
        }
    }
    if s.status != Status::Running {
        assert(step_spec(t) =~= with_input(step_spec(s), v));
    } else if !fetch_ok(s) || word(s) < 0 || !modes_ok(word(s)) || !known_opcode(
        opcode_of(word(s)),
    ) {
        assert(step_spec(t) =~= with_input(step_spec(s), v));
    } else {
        let w = word(s);
        let argc = arg_count(opcode_of(w));
        assert(forall|i: int| resolved(t, w, i) == resolved(s, w, i));
        assert(forall|i: int, a: int|
            0 <= i && 0 <= a ==> resolve_fault(t, w, i, a) == resolve_fault(s, w, i, a)) by {
            assert forall|i: int, a: int|
                0 <= i && 0 <= a implies resolve_fault(t, w, i, a) == resolve_fault(
                s,
                w,
                i,
                a,
            ) by {
                lemma_resolve_fault_same(s, t, w, i, a);
            }
        }
        if s.ip + 1 + argc > s.mem.len() || resolve_fault(s, w, 0, argc) is Some {
            assert(step_spec(t) =~= with_input(step_spec(s), v));
        } else {
            let s1 = MState { ip: s.ip + 1, ..s };
            let t1 = MState { ip: t.ip + 1, ..t };
            assert(t1 == with_input(s1, v));
            assert(spec_args(t, w, argc) == spec_args(s, w, argc));
            let op = op_of(opcode_of(w));
            let args = spec_args(s, w, argc);
            if op == Op::Store {
                assert(opcode_of(w) == 3);
                assert(argc == 1);
                if s.phase is None && s.in_ptr >= s.input.len() {
                    assert(blocked_on_input(s));
                    assert(false);
                }
                assert(args == Args::<usize>::One(resolved(s, w, 0) as usize));
                if s.phase is None {
                    assert(s1.in_ptr < s1.input.len());
                    assert(t1.input == s.input.push(v));
                    assert(s.input.push(v)[s.in_ptr] == s.input[s.in_ptr]);
                }
                assert(op_effect(t1, op, args) =~= with_input(op_effect(s1, op, args), v));
            } else {
                assert(op_effect(t1, op, args) =~= with_input(op_effect(s1, op, args), v));
            }
            assert(step_spec(t) =~= with_input(step_spec(s), v));
        }
    }
}

/// Resolution faults do not depend on the input stream.
proof fn lemma_resolve_fault_same(s: MState, t: MState, w: int, i: int, argc: int)
    requires
        t.mem == s.mem,
        t.rel == s.rel,
        t.ip == s.ip,
        0 <= i,
    ensures
        resolve_fault(t, w, i, argc) == resolve_fault(s, w, i, argc),
    decreases argc - i,
{
    if i < argc {
        lemma_resolve_fault_same(s, t, w, i + 1, argc);
    }
}

/// An uninterrupted run is undisturbed by a value queued behind the
/// input it consumed.
pub proof fn lemma_advanced_append(s0: MState, s1: MState, n: nat, v: i64)
    requires
        advanced_to(s0, s1, n),
        wf_state(s0),
    ensures
        advanced_to(with_input(s0, v), with_input(s1, v), n),
    decreases n,
{
    if n > 0 {
        let prev = steps(s0, (n - 1) as nat);
        lemma_wf_steps(s0, (n - 1) as nat);
        lemma_advanced_append(s0, prev, (n - 1) as nat, v);
        lemma_step_append(prev, v);
        assert(steps(with_input(s0, v), n) == step_spec(steps(with_input(s0, v), (n - 1) as nat)));
        assert(forall|k: nat|
            k < n ==> !blocked_on_input(#[trigger] steps(with_input(s0, v), k))) by {
            assert forall|k: nat|
                k < n implies !blocked_on_input(#[trigger] steps(with_input(s0, v), k)) by {
                if k < n - 1 {
                } else {
                    assert(steps(with_input(s0, v), k) == with_input(steps(s0, k), v));
                }
            }
        }
    }
}

/// The state with a whole stream of further values queued on the
/// input port.
pub open spec fn with_inputs(s: MState, vs: Seq<i64>) -> MState {
    MState { input: s.input + vs, ..s }
}

/// An uninterrupted run is undisturbed by any stream of values queued
/// behind the input it consumed.
pub proof fn lemma_advanced_append_seq(s0: MState, s1: MState, n: nat, vs: Seq<i64>)
    requires
        advanced_to(s0, s1, n),
        wf_state(s0),
    ensures
        advanced_to(with_inputs(s0, vs), with_inputs(s1, vs), n),
    decreases vs.len(),
{
    if vs.len() == 0 {
        assert(with_inputs(s0, vs) =~= s0);
        assert(with_inputs(s1, vs) =~= s1);
    } else {
        lemma_advanced_append_seq(s0, s1, n, vs.drop_last());
        lemma_advanced_append(
            with_inputs(s0, vs.drop_last()),
            with_inputs(s1, vs.drop_last()),
            n,
            vs.last(),
        );
        assert(with_input(with_inputs(s0, vs.drop_last()), vs.last()) =~= with_inputs(s0, vs));
        assert(with_input(with_inputs(s1, vs.drop_last()), vs.last()) =~= with_inputs(s1, vs));
    }
}

/// Uninterrupted runs compose.
pub proof fn lemma_advanced_trans(s0: MState, s1: MState, s2: MState, m: nat, n: nat)
    requires
        advanced_to(s0, s1, m),
        advanced_to(s1, s2, n),
    ensures
        advanced_to(s0, s2, m + n),
{
    lemma_steps_add(s0, m, n);
    assert forall|k: nat| k < m + n implies !blocked_on_input(#[trigger] steps(s0, k)) by {
        if k >= m {
            lemma_steps_add(s0, m, (k - m) as nat);
            assert(steps(s0, k) == steps(s1, (k - m) as nat));
        }
    }
}

/// Along any run, the input stream is never altered and the output
/// stream only grows at its end.
proof fn lemma_steps_io(s: MState, n: nat)
    ensures
        steps(s, n).input == s.input,
        s.output.len() <= steps(s, n).output.len(),
        steps(s, n).output.take(s.output.len() as int) == s.output,
    decreases n,
{
    if n > 0 {
        let prev = steps(s, (n - 1) as nat);
        lemma_steps_io(s, (n - 1) as nat);
        lemma_step_output(prev);
        let cur = step_spec(prev);
        let l = s.output.len() as int;
        if cur.output == prev.output {
        } else {
            assert(cur.output == prev.output.push(cur.output.last()));
            assert(cur.output.take(l) =~= prev.output.take(l));
        }
    }
}

/// `s1` is reachable from `s0` by an uninterrupted run.  The predicate
/// is kept opaque: callers carry it through the lemmas below instead
/// of unfolding step counts.
#[verifier::opaque]
pub open spec fn reaches(s0: MState, s1: MState) -> bool {
    exists|n: nat| advanced_to(s0, s1, n)
}

pub proof fn lemma_reaches_refl(s: MState)
    ensures
        reaches(s, s),
{
    reveal(reaches);
    assert(advanced_to(s, s, 0));
}

/// A run never alters its input stream, and only appends to its
/// output stream.
pub proof fn lemma_reaches_io(s0: MState, s1: MState)
    requires
        reaches(s0, s1),
    ensures
        s1.input == s0.input,
        s0.output.len() <= s1.output.len(),
        s1.output.take(s0.output.len() as int) == s0.output,
{
    reveal(reaches);
    let n = choose|n: nat| advanced_to(s0, s1, n);
    lemma_steps_io(s0, n);
}

pub proof fn lemma_reaches_trans(s0: MState, s1: MState, s2: MState)
    requires
        reaches(s0, s1),
        reaches(s1, s2),
    ensures
        reaches(s0, s2),
{
    reveal(reaches);
    let m = choose|m: nat| advanced_to(s0, s1, m);
    let n = choose|n: nat| advanced_to(s1, s2, n);
    lemma_advanced_trans(s0, s1, s2, m, n);
}

/// Queuing a further input stream disturbs no finished run.
pub proof fn lemma_reaches_append_seq(s0: MState, s1: MState, vs: Seq<i64>)
    requires
        reaches(s0, s1),
        wf_state(s0),
    ensures
        reaches(with_inputs(s0, vs), with_inputs(s1, vs)),
{
    reveal(reaches);
    let n = choose|n: nat| advanced_to(s0, s1, n);
    lemma_advanced_append_seq(s0, s1, n, vs);
}

/// A reachable halted state is the run's unique final state.
pub proof fn lemma_reaches_halted(s0: MState, s1: MState)
    requires
        reaches(s0, s1),
        s1.status == Status::Halted,
    ensures
        halts(s0),
        final_state(s0) == s1,
{
    reveal(reaches);
    let n = choose|n: nat| advanced_to(s0, s1, n);
    lemma_final_state(s0, n);
}

/// A run that reached a blocked state will never halt on its own.
pub proof fn lemma_reaches_blocked(s0: MState, s1: MState)
    requires
        reaches(s0, s1),
        blocked_on_input(s1),
    ensures
        !halts(s0),
        blocks(s0),
{
    reveal(reaches);
    let n = choose|n: nat| advanced_to(s0, s1, n);
    lemma_blocked_never_halts(s0, n);
    assert(blocked_on_input(steps(s0, n)));
}

/// A run that faulted will never halt.
pub proof fn lemma_reaches_faulted(s0: MState, s1: MState)
    requires
        reaches(s0, s1),
        s1.status is Faulted,
    ensures
        !halts(s0),
        faults(s0),
{
    reveal(reaches);
    let n = choose|n: nat| advanced_to(s0, s1, n);
    lemma_faulted_never_halts(s0, n);
    assert(steps(s0, n).status is Faulted);
}

/// A program consisting solely of halt words stops at its first step
/// and performs no memory mutation then or ever after: the machine's
/// memory, outputs and inputs stay exactly as loaded.
pub proof fn lemma_pure_halt_program(prog: Seq<i64>, phase: Option<i64>, ins: Seq<i64>, n: nat)
    requires
        prog.len() > 0,
        forall|i: int| 0 <= i < prog.len() ==> #[trigger] prog[i] == 99i64,
    ensures
        n >= 1 ==> steps(init_state(prog, phase, ins), n).status == Status::Halted,
        steps(init_state(prog, phase, ins), n).mem == prog,
        steps(init_state(prog, phase, ins), n).output == Seq::<i64>::empty(),
        steps(init_state(prog, phase, ins), n).in_ptr == 0,
{
    let s0 = init_state(prog, phase, ins);
    assert(prog[0] == 99i64);
    assert(word(s0) == 99);
    assert(opcode_of(99) == 99 && modes_ok(99));
    assert(arg_count(99) == 0);
    let s1 = step_spec(s0);
    assert(s1.status == Status::Halted && s1.mem == prog && s1.output == Seq::<i64>::empty()
        && s1.in_ptr == 0);
    if n >= 1 {
        lemma_settled_stable(s1, (n - 1) as nat);
        lemma_steps_add(s0, 1, (n - 1) as nat);
        assert(steps(s0, 0) == s0);
        assert(steps(s0, 1) == s1);
        assert(steps(s0, n) == steps(s1, (n - 1) as nat));
    }
}

/// The machine halts eventually.
pub open spec fn halts(s: MState) -> bool {
    exists|n: nat| (#[trigger] steps(s, n)).status == Status::Halted
}

/// The machine halts within `bound` steps.
pub open spec fn halts_within(s: MState, bound: nat) -> bool {
    exists|n: nat| n <= bound && (#[trigger] steps(s, n)).status == Status::Halted
}

/// The machine reaches a fatal fault.
pub open spec fn faults(s: MState) -> bool {
    exists|n: nat| (#[trigger] steps(s, n)).status is Faulted
}

/// The machine reaches a state blocked on its input port.
pub open spec fn blocks(s: MState) -> bool {
    exists|n: nat| blocked_on_input(#[trigger] steps(s, n))
}

/// The step budget of one run call.
pub open spec fn run_budget() -> nat {
    u64::MAX as nat
}

/// The run covered at least `bound` uninterrupted steps.
pub open spec fn ran_past(s0: MState, s1: MState, bound: nat) -> bool {
    exists|n: nat| n >= bound && #[trigger] advanced_to(s0, s1, n)
}

/// A run still going after `bound` steps rules out any halt within
/// them.
pub proof fn lemma_ran_past_no_halt_within(s0: MState, s1: MState, bound: nat)
    requires
        ran_past(s0, s1, bound),
        s1.status == Status::Running,
    ensures
        !halts_within(s0, bound),
{
    let n = choose|n: nat| n >= bound && #[trigger] advanced_to(s0, s1, n);
    assert forall|k: nat| k <= bound implies (#[trigger] steps(s0, k)).status != Status::Halted by {
        if steps(s0, k).status == Status::Halted {
            lemma_steps_add(s0, k, (n - k) as nat);
            lemma_settled_stable(steps(s0, k), (n - k) as nat);
        }
    }
}

/// A faulting machine never halts.
pub proof fn lemma_faults_never_halts(s: MState)
    requires
        faults(s),
    ensures
        !halts(s),
{
    let n = choose|n: nat| (#[trigger] steps(s, n)).status is Faulted;
    lemma_faulted_never_halts(s, n);
}

/// A machine that starves on input never halts.
pub proof fn lemma_blocks_never_halts(s: MState)
    requires
        blocks(s),
    ensures
        !halts(s),
{
    let n = choose|n: nat| blocked_on_input(#[trigger] steps(s, n));
    lemma_blocked_never_halts(s, n);
}

/// Composing a finished run with a further long run covers the bound.
pub proof fn lemma_reaches_then_ran_past(s0: MState, s1: MState, s2: MState, bound: nat)
    requires
        reaches(s0, s1),
        ran_past(s1, s2, bound),
    ensures
        ran_past(s0, s2, bound),
{
    reveal(reaches);
    let m = choose|m: nat| advanced_to(s0, s1, m);
    let n = choose|n: nat| n >= bound && #[trigger] advanced_to(s1, s2, n);
    lemma_advanced_trans(s0, s1, s2, m, n);
    assert(m + n >= bound);
}

/// The state a halting machine settles in.
pub open spec fn final_state(s: MState) -> MState {
    steps(s, choose|n: nat| (#[trigger] steps(s, n)).status == Status::Halted)
}

/// All halted points of a run carry one and the same state.
pub proof fn lemma_final_state(s: MState, n: nat)
    requires
        steps(s, n).status == Status::Halted,
    ensures
        final_state(s) == steps(s, n),
        final_state(s).status == Status::Halted,
{
    let m = choose|m: nat| (#[trigger] steps(s, m)).status == Status::Halted;
    assert(steps(s, m).status == Status::Halted);
    if m <= n {
        lemma_steps_add(s, m, (n - m) as nat);
        lemma_settled_stable(steps(s, m), (n - m) as nat);
    } else {
        lemma_steps_add(s, n, (m - n) as nat);
        lemma_settled_stable(steps(s, n), (m - n) as nat);
    }
}

/// A run that reached a blocked state never halts.
pub proof fn lemma_blocked_never_halts(s0: MState, n: nat)
    requires
        blocked_on_input(steps(s0, n)),
    ensures
        !halts(s0),
{
    assert forall|m: nat| (#[trigger] steps(s0, m)).status != Status::Halted by {
        if m <= n {
            if steps(s0, m).status == Status::Halted {
                lemma_steps_add(s0, m, (n - m) as nat);
                lemma_settled_stable(steps(s0, m), (n - m) as nat);
            }
        } else {
            lemma_steps_add(s0, n, (m - n) as nat);
            lemma_blocked_stable(steps(s0, n), (m - n) as nat);
        }
    }
}

/// A run that faulted never halts.
pub proof fn lemma_faulted_never_halts(s0: MState, n: nat)
    requires
        steps(s0, n).status is Faulted,
    ensures
        !halts(s0),
{
    assert forall|m: nat| (#[trigger] steps(s0, m)).status != Status::Halted by {
        if m <= n {
            if steps(s0, m).status == Status::Halted {
                lemma_steps_add(s0, m, (n - m) as nat);
                lemma_settled_stable(steps(s0, m), (n - m) as nat);
            }
        } else {
            lemma_steps_add(s0, n, (m - n) as nat);
            lemma_settled_stable(steps(s0, n), (m - n) as nat);
        }
    }
}

/// One step changes the output stream by at most one appended value.
proof fn lemma_step_output(s: MState)
    ensures
        step_spec(s).output == s.output || step_spec(s).output == s.output.push(
            step_spec(s).output.last(),
        ),
        step_spec(s).output.len() == s.output.len() || step_spec(s).output.len() == s.output.len()
            + 1,
{
}

impl IntcodeMachine {
    /// Fetch, decode, resolve and execute one instruction: the
    /// machine's state becomes exactly `step_spec` of the old state.
    pub fn execute_step(&mut self) -> (r: StepOutcome)
        ensures
            final(self)@ == step_spec(old(self)@),
            r == step_outcome(old(self)@),
    {
        let ghost s0 = self@;
        match self.status {
            Status::Halted => {
                return StepOutcome::Halted;
            },
            Status::Faulted(_) => {
                return StepOutcome::Faulted;
            },
            Status::Running => {},
        }
        let decoded = self.decode_instruction();
        let (opcode, modes) = match decoded {
            Ok(x) => x,
            Err(f) => {
                self.status = Status::Faulted(f);
                proof {
                    assert(final(self)@ =~= step_spec(s0));
                }
                return StepOutcome::Faulted;
            },
        };
        let ghost w = word(s0);
        let raw = match self.get_current_memory_slice(opcode) {
            Ok(v) => v,
            Err(f) => {
                self.cmd_ptr = self.cmd_ptr - 1;
                self.status = Status::Faulted(f);
                proof {
                    assert(final(self)@ =~= step_spec(s0));
                }
                return StepOutcome::Faulted;
            },
        };
        let ghost argc = arg_count(opcode_of(w));
        proof {
            assert(raw@.len() == argc);
            assert(forall|j: int|
                0 <= j < raw@.len() ==> #[trigger] raw@[j] == raw_param(s0, j));
        }
        let args = match self.build_args(&raw, modes) {
            Ok(a) => a,
            Err(f) => {
                proof {
                    lemma_fault_equiv(s0, self@, modes@, raw@, w, 0);
                }
                self.cmd_ptr = self.cmd_ptr - 1;
                self.status = Status::Faulted(f);
                proof {
                    assert(final(self)@ =~= step_spec(s0));
                }
                return StepOutcome::Faulted;
            },
        };
        proof {
            lemma_fault_equiv(s0, self@, modes@, raw@, w, 0);
            assert(resolve_fault(s0, w, 0, argc) is None);
            assert(args == spec_args(s0, w, argc));
        }
        let cmd = match self.get_command(opcode, args) {
            Ok(c) => c,
            Err(_) => {
                proof {
                    assert(false);
                }
                return StepOutcome::Faulted;
            },
        };
        let ghost s1 = self@;
        proof {
            assert(s1 == (MState { ip: s0.ip + 1, ..s0 }));
            assert(op_arity(op_of(opcode_of(w))) == arg_count(opcode_of(w)));
            assert(arity_matches(cmd.args, cmd.op));
        }
        let outcome = cmd.apply(self);
        match outcome {
            StepOutcome::NeedInput => {
                self.cmd_ptr = self.cmd_ptr - 1;
                proof {
                    assert(final(self)@ =~= s0);
                    assert(blocked_on_input(s0));
                    assert(step_spec(s0) == s0);
                }
                StepOutcome::NeedInput
            },
            o => {
                proof {
                    assert(!blocked_on_input(s0));
                    assert(final(self)@ == step_spec(s0));
                    assert(o == step_outcome(s0));
                }
                o
            },
        }
    }

    /// Runs until the machine halts, faults, or blocks on input; a
    /// step budget bounds the loop, and an exhausted budget reports
    /// `Progressed`.
    pub fn run(&mut self) -> (r: StepOutcome)
        ensures
            reaches(old(self)@, final(self)@),
            r == StepOutcome::Halted ==> final(self)@.status == Status::Halted,
            r == StepOutcome::Faulted ==> final(self)@.status is Faulted,
            r == StepOutcome::NeedInput ==> blocked_on_input(final(self)@),
            r == StepOutcome::Progressed ==> ran_past(old(self)@, final(self)@, run_budget())
                && final(self)@.status == Status::Running,
            r != StepOutcome::NeedInput ==> final(self)@.input == old(self)@.input,
    {
        let ghost s0 = self@;
        let ghost mut n: nat = 0nat;
        let mut fuel: u64 = u64::MAX;
        loop
            invariant
                s0 == old(self)@,
                advanced_to(s0, self@, n),
                self@.input == s0.input,
                n + fuel == u64::MAX,
            decreases fuel,
        {
            let ghost prev = self@;
            let o = self.execute_step();
            proof {
                if o != StepOutcome::NeedInput {
                    assert(!blocked_on_input(prev));
                    n = n + 1;
                    assert(steps(s0, n) == step_spec(steps(s0, (n - 1) as nat)));
                }
            }
            match o {
                StepOutcome::Progressed => {
                    if fuel <= 1 {
                        proof {
                            assert(reaches(s0, self@)) by {
                                reveal(reaches);
                                assert(advanced_to(s0, self@, n));
                            }
                            assert(n >= run_budget());
                            assert(ran_past(s0, self@, run_budget())) by {
                                assert(n >= run_budget() && advanced_to(s0, self@, n));
                            }
                            assert(self@.status == Status::Running);
                        }
                        return StepOutcome::Progressed;
                    }
                    fuel = fuel - 1;
                },
                StepOutcome::NeedInput => {
                    proof {
                        assert(reaches(s0, self@)) by {
                            reveal(reaches);
                            assert(advanced_to(s0, self@, n));
                        }
                    }
                    return StepOutcome::NeedInput;
                },
                StepOutcome::Halted => {
                    proof {
                        assert(reaches(s0, self@)) by {
                            reveal(reaches);
                            assert(advanced_to(s0, self@, n));
                        }
                    }
                    return StepOutcome::Halted;
                },
                StepOutcome::Faulted => {
                    proof {
                        assert(reaches(s0, self@)) by {
                            reveal(reaches);
                            assert(advanced_to(s0, self@, n));
                        }
                    }
                    return StepOutcome::Faulted;
                },
            }
        }
    }

    /// Runs until the machine emits one value, halts, faults, or
    /// blocks on input: the resumable call that lets a consumer
    /// interleave its own work with execution.
    pub fn run_until_event(&mut self) -> (ev: RunEvent)
        ensures
            reaches(old(self)@, final(self)@),
            final(self)@.input == old(self)@.input,
            match ev {
                RunEvent::Output(v) => final(self)@.output == old(self)@.output.push(v)
                    && final(self)@.status == Status::Running,
                RunEvent::NeedInput => blocked_on_input(final(self)@) && final(self)@.output == old(
                    self,
                )@.output,
                RunEvent::Halted => final(self)@.status == Status::Halted && final(self)@.output
                    == old(self)@.output,
                RunEvent::Faulted => final(self)@.status is Faulted && final(self)@.output == old(
                    self,
                )@.output,
                RunEvent::Stalled => {
                    &&& ran_past(old(self)@, final(self)@, run_budget())
                    &&& final(self)@.status == Status::Running
                    &&& final(self)@.output == old(self)@.output
                },
            },
    {
        let ghost s0 = self@;
        let ghost mut n: nat = 0nat;
        let mut fuel: u64 = u64::MAX;
        loop
            invariant
                s0 == old(self)@,
                advanced_to(s0, self@, n),
                self@.input == s0.input,
                self@.output == s0.output,
                n + fuel == u64::MAX,
            decreases fuel,
        {
            let ghost prev = self@;
            let before: usize = self.output.len();
            let o = self.execute_step();
            proof {
                if o != StepOutcome::NeedInput {
                    assert(!blocked_on_input(prev));
                    n = n + 1;
                    assert(steps(s0, n) == step_spec(steps(s0, (n - 1) as nat)));
                }
                lemma_step_output(prev);
            }
            match o {
                StepOutcome::Progressed => {
                    if self.output.len() > before {
                        let v: i64 = self.output[self.output.len() - 1];
                        proof {
                        assert(reaches(s0, self@)) by {
                            reveal(reaches);
                            assert(advanced_to(s0, self@, n));
                        }
                    }
                    return RunEvent::Output(v);
                    }
                    if fuel <= 1 {
                        proof {
                            assert(reaches(s0, self@)) by {
                                reveal(reaches);
                                assert(advanced_to(s0, self@, n));
                            }
                            assert(n >= run_budget());
                            assert(ran_past(s0, self@, run_budget())) by {
                                assert(n >= run_budget() && advanced_to(s0, self@, n));
                            }
                            assert(self@.status == Status::Running);
                        }
                        return RunEvent::Stalled;
                    }
                    fuel = fuel - 1;
                },
                StepOutcome::NeedInput => {
                    proof {
                        assert(reaches(s0, self@)) by {
                            reveal(reaches);
                            assert(advanced_to(s0, self@, n));
                        }
                    }
                    return RunEvent::NeedInput;
                },
                StepOutcome::Halted => {
                    proof {
                        assert(reaches(s0, self@)) by {
                            reveal(reaches);
                            assert(advanced_to(s0, self@, n));
                        }
                    }
                    return RunEvent::Halted;
                },
                StepOutcome::Faulted => {
                    proof {
                        assert(reaches(s0, self@)) by {
                            reveal(reaches);
                            assert(advanced_to(s0, self@, n));
                        }
                    }
                    return RunEvent::Faulted;
                },
            }
        }
    }
}

} // verus!
