//! The grid-painting agent: one Intcode machine whose output stream is
//! consumed in strictly alternating pairs — a color to paint the
//! current cell, then a turn command followed by one step forward —
//! while the machine's next input is always the color of the cell the
//! agent stands on.  The grid is a 1000 by 1000 field of cells indexed
//! from its center; the cell first stood on is pre-seeded marked.

use vstd::prelude::*;
use crate::machine::{
    IntcodeMachine, MState, Status, RunEvent, init_state, reaches, with_inputs, padded_program,
    faults, ran_past, run_budget, lemma_reaches_refl, lemma_reaches_trans,
    lemma_reaches_append_seq, lemma_reaches_faulted, lemma_reaches_then_ran_past,
};

verus! {

/// One of the four cardinal headings.
#[derive(Clone, Copy, Debug, PartialEq, Eq, Structural)]
pub enum Direction {
    Up,
    Down,
    Left,
    Right,
}

/// The heading after one turn command: 0 turns left, anything else
/// turns right.
pub open spec fn dir_next(d: Direction, command: i64) -> Direction {
    if command == 0 {
        match d {
            Direction::Up => Direction::Left,
            Direction::Down => Direction::Right,
            Direction::Left => Direction::Down,
            Direction::Right => Direction::Up,
        }
    } else {
        match d {
            Direction::Up => Direction::Right,
            Direction::Down => Direction::Left,
            Direction::Left => Direction::Up,
            Direction::Right => Direction::Down,
        }
    }
}

/// One cell forward in the heading.
pub open spec fn dir_move(p: (int, int), d: Direction) -> (int, int) {
    match d {
        Direction::Up => (p.0, p.1 + 1),
        Direction::Down => (p.0, p.1 - 1),
        Direction::Right => (p.0 + 1, p.1),
        Direction::Left => (p.0 - 1, p.1),
    }
}

impl Direction {
    pub fn next(&self, command: i64) -> (r: Direction)
        ensures
            r == dir_next(*self, command),
    {
        if command == 0 {
            match self {
                Direction::Up => Direction::Left,
                Direction::Down => Direction::Right,
                Direction::Left => Direction::Down,
                Direction::Right => Direction::Up,
            }
        } else {
            match self {
                Direction::Up => Direction::Right,
                Direction::Down => Direction::Left,
                Direction::Left => Direction::Up,
                Direction::Right => Direction::Down,
            }
        }
    }
}

/// The mathematical state of the agent.
#[verifier::ext_equal]
pub struct RState {
    pub panels: Seq<Seq<i64>>,
    pub painted: Set<(int, int)>,
    pub pos: (int, int),
    pub dir: Direction,
    pub should_paint: bool,
    pub signal: i64,
    /// False once the agent has walked off the grid; the walk is stuck.
    pub ok: bool,
}

pub open spec fn grid_side() -> int {
    1000
}

/// The position lies on the grid, whose origin cell is its center.
pub open spec fn in_grid(p: (int, int)) -> bool {
    0 <= p.0 + 500 < grid_side() && 0 <= p.1 + 500 < grid_side()
}

/// The agent's state before the machine emits anything: at the origin,
/// heading up, expecting a color, over a grid whose origin cell is
/// pre-seeded marked.
pub open spec fn init_robot(signal: i64) -> RState {
    RState {
        panels: Seq::new(grid_side() as nat, |x: int| Seq::new(grid_side() as nat, |y: int| 0i64))
            .update(500, Seq::new(grid_side() as nat, |y: int| 0i64).update(500, 1i64)),
        painted: Set::empty(),
        pos: (0, 0),
        dir: Direction::Up,
        should_paint: true,
        signal,
        ok: true,
    }
}

/// How one emitted value moves the agent: a color write when a color
/// is expected, else a turn and a step; the agent's next input signal
/// is always the color under it.  A step off the grid wedges the walk.
pub open spec fn robot_step(rs: RState, v: i64) -> RState {
    if !rs.ok {
        rs
    } else if rs.should_paint {
        if !in_grid(rs.pos) {
            RState { ok: false, ..rs }
        } else {
            let x = rs.pos.0 + 500;
            let y = rs.pos.1 + 500;
            RState {
                panels: rs.panels.update(x, rs.panels[x].update(y, v)),
                painted: rs.painted.insert(rs.pos),
                signal: v,
                should_paint: false,
                ..rs
            }
        }
    } else {
        let d = dir_next(rs.dir, v);
        let np = dir_move(rs.pos, d);
        if !in_grid(np) {
            RState { ok: false, dir: d, pos: np, ..rs }
        } else {
            RState {
                pos: np,
                dir: d,
                signal: rs.panels[np.0 + 500][np.1 + 500],
                should_paint: true,
                ..rs
            }
        }
    }
}

/// The agent's state after consuming a whole output stream, in order.
pub open spec fn robot_fold(rs: RState, vs: Seq<i64>) -> RState
    decreases vs.len(),
{
    if vs.len() == 0 {
        rs
    } else {
        robot_step(robot_fold(rs, vs.drop_last()), vs.last())
    }
}

/// Why an agent run reported no grid.
#[derive(Clone, Copy, Debug, PartialEq, Eq, Structural)]
pub enum RobotError {
    /// The machine faulted fatally.
    MachineFault,
    /// The agent stepped off the grid.
    OffGrid,
    /// The paired-output protocol began mid-pair when the machine
    /// halted, or the step budget ran out.
    Stalled,
}

/// The executable agent around one machine.
pub struct Robot {
    machine: IntcodeMachine,
    panels: Vec<Vec<i64>>,
    painted_flags: Vec<Vec<bool>>,
    painted: Vec<(i64, i64)>,
    position: (i64, i64),
    direction: Direction,
    should_paint: bool,
    input_signal: i64,
    program: Ghost<Seq<i64>>,
    initial_signal: Ghost<i64>,
}

/// The agent's view: its own walking state, its machine's state, the
/// program and starting signal it was built over, the raw paint
/// record, and the record of distinct painted cells.
pub struct RobotView {
    pub rs: RState,
    pub m: MState,
    pub prog: Seq<i64>,
    pub sig0: i64,
    pub flags: Seq<Seq<bool>>,
    pub plist: Seq<(i64, i64)>,
}

impl View for Robot {
    type V = RobotView;

    closed spec fn view(&self) -> RobotView {
        RobotView {
            rs: RState {
                panels: Seq::new(self.panels@.len(), |x: int| self.panels@[x]@),
                painted: Set::new(
                    |p: (int, int)|
                        in_grid(p) && self.painted_flags@[p.0 + 500]@[p.1 + 500],
                ),
                pos: (self.position.0 as int, self.position.1 as int),
                dir: self.direction,
                should_paint: self.should_paint,
                signal: self.input_signal,
                ok: true,
            },
            m: self.machine@,
            prog: self.program@,
            sig0: self.initial_signal@,
            flags: Seq::new(self.painted_flags@.len(), |x: int| self.painted_flags@[x]@),
            plist: self.painted@,
        }
    }
}

/// The distinct painted cells, as the walk records them: no cell
/// twice, and exactly the cells of the painted set.
pub open spec fn painted_list_matches(painted: Seq<(i64, i64)>, set: Set<(int, int)>) -> bool {
    &&& forall|a: int, b: int|
        0 <= a < b < painted.len() ==> #[trigger] painted[a] != #[trigger] painted[b]
    &&& forall|p: (i64, i64)|
        #[trigger] painted.contains(p) <==> set.contains((p.0 as int, p.1 as int))
    &&& forall|q: (int, int)| #[trigger] set.contains(q) ==> in_grid(q)
}

/// The agent consumes honestly: its walking state is the fold of
/// everything its machine has emitted, its machine is somewhere along
/// a legitimate run, its paint record covers the grid, and its list of
/// painted cells is truthful.
pub open spec fn robot_wf(v: RobotView) -> bool {
    &&& v.rs == robot_fold(init_robot(v.sig0), v.m.output)
    &&& reaches(init_state(v.prog, None::<i64>, v.m.input), v.m)
    &&& v.flags.len() == grid_side()
    &&& forall|x: int| 0 <= x < grid_side() ==> (#[trigger] v.flags[x]).len() == grid_side()
    &&& painted_list_matches(v.plist, v.rs.painted)
}

/// While the walk is not wedged, the agent stands on the grid.
pub proof fn lemma_fold_in_grid(sig0: i64, vs: Seq<i64>)
    ensures
        robot_fold(init_robot(sig0), vs).ok ==> in_grid(robot_fold(init_robot(sig0), vs).pos),
        robot_fold(init_robot(sig0), vs).panels.len() == grid_side(),
        forall|x: int|
            0 <= x < grid_side() ==> (#[trigger] robot_fold(init_robot(sig0), vs).panels[x]).len()
                == grid_side(),
    decreases vs.len(),
{
    if vs.len() > 0 {
        lemma_fold_in_grid(sig0, vs.drop_last());
    }
}

/// A value stays in a sequence that another value is pushed onto.
proof fn lemma_push_contains(s: Seq<(i64, i64)>, x: (i64, i64), p: (i64, i64))
    ensures
        s.contains(p) ==> s.push(x).contains(p),
        s.push(x).contains(p) ==> s.contains(p) || p == x,
{
    if s.contains(p) {
        let i = choose|i: int| 0 <= i < s.len() && s[i] == p;
        assert(s.push(x)[i] == p);
    }
    if s.push(x).contains(p) {
        let i = choose|i: int| 0 <= i < s.push(x).len() && s.push(x)[i] == p;
        if i < s.len() {
            assert(s[i] == p);
        }
    }
}

/// A row of one repeated value.
fn filled_row_i64(v: i64) -> (r: Vec<i64>)
    ensures
        r@ == Seq::new(grid_side() as nat, |y: int| v),
{
    let mut r: Vec<i64> = Vec::new();
    let mut y: usize = 0;
    while y < 1000
        invariant
            y <= 1000,
            r@ == Seq::new(y as nat, |k: int| v),
        decreases 1000 - y,
    {
        r.push(v);
        proof {
            assert(r@ =~= Seq::new((y + 1) as nat, |k: int| v));
        }
        y = y + 1;
    }
    r
}

fn filled_row_bool(v: bool) -> (r: Vec<bool>)
    ensures
        r@ == Seq::new(grid_side() as nat, |y: int| v),
{
    let mut r: Vec<bool> = Vec::new();
    let mut y: usize = 0;
    while y < 1000
        invariant
            y <= 1000,
            r@ == Seq::new(y as nat, |k: int| v),
        decreases 1000 - y,
    {
        r.push(v);
        proof {
            assert(r@ =~= Seq::new((y + 1) as nat, |k: int| v));
        }
        y = y + 1;
    }
    r
}

impl Robot {
    /// A fresh agent over its own machine: at the origin of a zeroed
    /// grid whose origin cell is pre-seeded marked, heading up,
    /// expecting a color, with the caller's starting input signal.
    pub fn new(program: &Vec<i64>, input_signal: i64) -> (r: Robot)
        ensures
            robot_wf(r@),
            r@.prog == program@,
            r@.sig0 == input_signal,
            r@.m == init_state(program@, None::<i64>, Seq::<i64>::empty()),
    {
        let mut panels: Vec<Vec<i64>> = Vec::new();
        let mut flags: Vec<Vec<bool>> = Vec::new();
        let mut x: usize = 0;
        while x < 1000
            invariant
                x <= 1000,
                panels@.len() == x,
                flags@.len() == x,
                forall|k: int|
                    0 <= k < x ==> (#[trigger] panels@[k])@ == Seq::new(
                        grid_side() as nat,
                        |y: int| 0i64,
                    ),
                forall|k: int|
                    0 <= k < x ==> (#[trigger] flags@[k])@ == Seq::new(
                        grid_side() as nat,
                        |y: int| false,
                    ),
            decreases 1000 - x,
        {
            panels.push(filled_row_i64(0));
            flags.push(filled_row_bool(false));
            x = x + 1;
        }
        let mut origin_row = panels.remove(500);
        origin_row.set(500, 1);
        panels.insert(500, origin_row);
        let machine = IntcodeMachine::new_without_phase(program);
        let r = Robot {
            machine,
            panels,
            painted_flags: flags,
            painted: Vec::new(),
            position: (0, 0),
            direction: Direction::Up,
            should_paint: true,
            input_signal,
            program: Ghost(program@),
            initial_signal: Ghost(input_signal),
        };
        proof {
            let ini = init_robot(input_signal);
            assert(r@.rs.panels.len() == ini.panels.len());
            assert forall|a: int| 0 <= a < grid_side() implies r@.rs.panels[a] =~= ini.panels[a] by {
                if a == 500 {
                    assert(r@.rs.panels[a] =~= Seq::new(grid_side() as nat, |y: int| 0i64).update(
                        500,
                        1i64,
                    ));
                }
            }
            assert(r@.rs.panels =~~= ini.panels);
            assert(r@.rs.painted =~= ini.painted);
            assert(r@.rs =~~= ini);
            assert(r@.m =~= init_state(program@, None::<i64>, Seq::<i64>::empty()));
            lemma_reaches_refl(r@.m);
            assert(init_state(r@.prog, None::<i64>, r@.m.input) =~= r@.m);
        }
        r
    }

    /// Consumes one emitted value: a color write, or a turn and a step
    /// with the new cell's color becoming the next input signal.  An
    /// off-grid step is the only error.
    fn consume_output(&mut self, v: i64) -> (r: Result<(), RobotError>)
        requires
            old(self)@.m.output.len() > 0,
            old(self)@.rs == robot_fold(
                init_robot(old(self)@.sig0),
                old(self)@.m.output.drop_last(),
            ),
            v == old(self)@.m.output.last(),
            old(self)@.flags.len() == grid_side(),
            forall|x: int|
                0 <= x < grid_side() ==> (#[trigger] old(self)@.flags[x]).len() == grid_side(),
            painted_list_matches(old(self)@.plist, old(self)@.rs.painted),
            reaches(init_state(old(self)@.prog, None::<i64>, old(self)@.m.input), old(self)@.m),
        ensures
            final(self)@.m == old(self)@.m,
            final(self)@.prog == old(self)@.prog,
            final(self)@.sig0 == old(self)@.sig0,
            match r {
                Ok(()) => robot_wf(final(self)@),
                Err(e) => e == RobotError::OffGrid && !robot_fold(
                    init_robot(old(self)@.sig0),
                    old(self)@.m.output,
                ).ok,
            },
    {
        let ghost rs0 = self@.rs;
        let ghost target = robot_step(rs0, v);
        proof {
            lemma_fold_in_grid(self@.sig0, self@.m.output.drop_last());
            assert(self@.m.output.drop_last().push(v) =~= self@.m.output);
            assert(robot_fold(init_robot(self@.sig0), self@.m.output) == target);
            assert(in_grid(rs0.pos));
            assert(self.panels@.len() == grid_side());
            assert(self.painted_flags@.len() == grid_side());
            assert forall|a: int|
                0 <= a < grid_side() implies (#[trigger] self.panels@[a])@.len() == grid_side() by {
                assert(self@.rs.panels[a] == self.panels@[a]@);
            }
            assert forall|a: int|
                0 <= a < grid_side() implies (#[trigger] self.painted_flags@[a])@.len()
                == grid_side() by {
                assert(self@.flags[a] == self.painted_flags@[a]@);
            }
        }
        if self.should_paint {
            let x: usize = (self.position.0 + 500) as usize;
            let y: usize = (self.position.1 + 500) as usize;
            let ghost old_row = self.panels@[x as int]@;
            let mut row = self.panels.remove(x);
            row.set(y, v);
            self.panels.insert(x, row);
            let already = self.painted_flags[x][y];
            let ghost flags0 = self@.flags;
            if !already {
                let mut frow = self.painted_flags.remove(x);
                frow.set(y, true);
                self.painted_flags.insert(x, frow);
                self.painted.push(self.position);
            }
            self.input_signal = v;
            self.should_paint = false;
            proof {
                if !already {
                    assert(self@.flags =~~= flags0.update(
                        x as int,
                        flags0[x as int].update(y as int, true),
                    ));
                } else {
                    assert(self@.flags =~~= flags0);
                }
                assert forall|a: int|
                    0 <= a < grid_side() implies self@.rs.panels[a] =~= target.panels[a] by {}
                assert(self@.rs.panels =~~= target.panels);
                assert forall|p: (int, int)|
                    self@.rs.painted.contains(p) <==> target.painted.contains(p) by {
                    if p == rs0.pos {
                        assert(self@.flags[x as int][y as int]);
                        assert(self@.rs.painted.contains(p));
                        assert(target.painted.contains(p));
                    } else {
                        if in_grid(p) {
                            assert(p.0 + 500 != x as int || p.1 + 500 != y as int);
                            assert(self@.flags[p.0 + 500][p.1 + 500] == flags0[p.0 + 500][p.1
                                + 500]);
                        }
                    }
                }
                assert(self@.rs.painted =~= target.painted);
                assert(self@.rs =~~= target);
                assert(painted_list_matches(self@.plist, self@.rs.painted)) by {
                    if !already {
                        assert forall|p: (i64, i64)|
                            #[trigger] self@.plist.contains(p) implies (old(
                            self,
                        )@.plist.contains(p) || p == old(self).position) by {
                            lemma_push_contains(old(self)@.plist, old(self).position, p);
                        }
                        assert forall|p: (i64, i64)|
                            old(self)@.plist.contains(p) implies #[trigger] self@.plist.contains(
                            p,
                        ) by {
                            lemma_push_contains(old(self)@.plist, old(self).position, p);
                        }
                        assert(self@.plist.last() == old(self).position);
                        assert(self@.plist.contains(old(self).position));
                        assert forall|a: int, b: int|
                            0 <= a < b < self@.plist.len() implies #[trigger] self@.plist[a]
                            != #[trigger] self@.plist[b] by {
                            if b == self@.plist.len() - 1 {
                                assert(old(self)@.plist[a] == self@.plist[a]);
                                assert(old(self)@.plist.contains(old(self)@.plist[a]));
                                assert(!rs0.painted.contains(
                                    (old(self).position.0 as int, old(self).position.1 as int),
                                ));
                            }
                        }
                    } else {
                        assert(rs0.painted.contains(
                            (old(self).position.0 as int, old(self).position.1 as int),
                        ));
                        assert(self@.rs.painted =~= rs0.painted);
                    }
                }
            }
            Ok(())
        } else {
            let d = self.direction.next(v);
            let np: (i64, i64) = match d {
                Direction::Up => (self.position.0, self.position.1 + 1),
                Direction::Down => (self.position.0, self.position.1 - 1),
                Direction::Right => (self.position.0 + 1, self.position.1),
                Direction::Left => (self.position.0 - 1, self.position.1),
            };
            if np.0 + 500 < 0 || np.0 + 500 >= 1000 || np.1 + 500 < 0 || np.1 + 500 >= 1000 {
                return Err(RobotError::OffGrid);
            }
            self.position = np;
            self.direction = d;
            self.input_signal = self.panels[(np.0 + 500) as usize][(np.1 + 500) as usize];
            self.should_paint = true;
            proof {
                assert(self@.rs =~~= target);
            }
            Ok(())
        }
    }

    /// Drives the machine to its halt, painting and walking on every
    /// emitted pair and answering every input pull with the color of
    /// the cell the agent stands on.
    pub fn run(&mut self) -> (r: Result<(), RobotError>)
        requires
            robot_wf(old(self)@),
        ensures
            final(self)@.prog == old(self)@.prog,
            final(self)@.sig0 == old(self)@.sig0,
            reaches(
                init_state(old(self)@.prog, None::<i64>, final(self)@.m.input),
                final(self)@.m,
            ),
            match r {
                Ok(()) => robot_wf(final(self)@) && final(self)@.m.status == Status::Halted,
                Err(RobotError::OffGrid) => !robot_fold(
                    init_robot(old(self)@.sig0),
                    final(self)@.m.output,
                ).ok,
                Err(RobotError::MachineFault) => final(self)@.m.status is Faulted && faults(
                    init_state(old(self)@.prog, None::<i64>, final(self)@.m.input),
                ),
                Err(RobotError::Stalled) => (ran_past(
                    init_state(old(self)@.prog, None::<i64>, final(self)@.m.input),
                    final(self)@.m,
                    run_budget(),
                ) && final(self)@.m.status == Status::Running) || final(self)@.m.output.len()
                    + final(self)@.m.input.len() + 1 >= old(self)@.m.output.len() + old(
                    self,
                )@.m.input.len() + run_budget(),
            },
    {
        let ghost prog = self@.prog;
        let ghost sig0 = self@.sig0;
        let ghost lens0 = self@.m.output.len() + self@.m.input.len();
        let mut fuel: u64 = u64::MAX;
        loop
            invariant
                robot_wf(self@),
                self@.prog == prog,
                self@.sig0 == sig0,
                prog == old(self)@.prog,
                sig0 == old(self)@.sig0,
                lens0 == old(self)@.m.output.len() + old(self)@.m.input.len(),
                self@.m.output.len() + self@.m.input.len() + fuel == lens0 + u64::MAX,
            decreases fuel,
        {
            let ghost m_pre = self@.m;
            let ev = self.machine.run_until_event();
            proof {
                lemma_reaches_trans(init_state(prog, None::<i64>, m_pre.input), m_pre, self@.m);
            }
            match ev {
                RunEvent::Output(v) => {
                    proof {
                        assert(self@.rs == robot_fold(
                            init_robot(sig0),
                            self@.m.output.drop_last(),
                        )) by {
                            assert(self@.m.output.drop_last() =~= m_pre.output);
                        }
                    }
                    match self.consume_output(v) {
                        Ok(()) => {},
                        Err(e) => {
                            return Err(e);
                        },
                    }
                },
                RunEvent::NeedInput => {
                    let ghost m_blocked = self@.m;
                    let sig = self.input_signal;
                    self.machine.set_input(sig);
                    proof {
                        lemma_reaches_append_seq(
                            init_state(prog, None::<i64>, m_blocked.input),
                            m_blocked,
                            seq![sig],
                        );
                        assert(with_inputs(init_state(prog, None::<i64>, m_blocked.input), seq![sig])
                            =~= init_state(prog, None::<i64>, m_blocked.input.push(sig)));
                        assert(with_inputs(m_blocked, seq![sig]) =~= self@.m);
                    }
                },
                RunEvent::Halted => {
                    return Ok(());
                },
                RunEvent::Faulted => {
                    proof {
                        lemma_reaches_faulted(
                            init_state(prog, None::<i64>, m_pre.input),
                            self@.m,
                        );
                    }
                    return Err(RobotError::MachineFault);
                },
                RunEvent::Stalled => {
                    proof {
                        lemma_reaches_then_ran_past(
                            init_state(prog, None::<i64>, m_pre.input),
                            m_pre,
                            self@.m,
                            run_budget(),
                        );
                    }
                    return Err(RobotError::Stalled);
                },
            }
            if fuel <= 1 {
                return Err(RobotError::Stalled);
            }
            fuel = fuel - 1;
        }
    }

    /// The distinct cells ever painted, in first-paint order.
    pub fn painted_cells(&self) -> (r: &Vec<(i64, i64)>)
        ensures
            r@ == self@.plist,
    {
        &self.painted
    }

    /// The distinct painted cells, surrendered by the agent.
    pub fn into_painted(self) -> (r: Vec<(i64, i64)>)
        ensures
            r@ == self@.plist,
    {
        let r = self.painted;
        r
    }

    /// The whole grid, row by row.
    pub fn into_panels(self) -> (r: Vec<Vec<i64>>)
        ensures
            r@.len() == self@.rs.panels.len(),
            forall|x: int| 0 <= x < r@.len() ==> (#[trigger] r@[x])@ == self@.rs.panels[x],
    {
        let r = self.panels;
        r
    }
}

/// Runs the agent over the program (padded with the working scratch)
/// starting on an unmarked reading, and reports the distinct cells the
/// walk painted.
pub fn solve_1(program: &Vec<i64>) -> (r: Result<Vec<(i64, i64)>, RobotError>)
    ensures
        match r {
            Ok(cells) => exists|m: MState|
                {
                    &&& #[trigger] reaches(
                        init_state(padded_program(program@, 1000nat), None::<i64>, m.input),
                        m,
                    )
                    &&& m.status == Status::Halted
                    &&& painted_list_matches(
                        cells@,
                        robot_fold(init_robot(0i64), m.output).painted,
                    )
                },
            Err(e) => exists|m: MState|
                {
                    &&& #[trigger] reaches(
                        init_state(padded_program(program@, 1000nat), None::<i64>, m.input),
                        m,
                    )
                    &&& robot_run_err(padded_program(program@, 1000nat), 0i64, m, e)
                },
        },
{
    let padded = crate::machine::with_scratch(program, 1000);
    let mut robot = Robot::new(&padded, 0);
    let run_result = robot.run();
    match run_result {
        Ok(()) => {
            let ghost mfin = robot@.m;
            let cells = robot.into_painted();
            proof {
                assert(robot@.prog == padded_program(program@, 1000nat));
                assert(reaches(
                    init_state(padded_program(program@, 1000nat), None::<i64>, mfin.input),
                    mfin,
                ));
                assert(painted_list_matches(
                    cells@,
                    robot_fold(init_robot(0i64), mfin.output).painted,
                ));
            }
            Ok(cells)
        },
        Err(e) => {
            proof {
                let mfin = robot@.m;
                assert(robot@.prog == padded_program(program@, 1000nat));
                assert(reaches(
                    init_state(padded_program(program@, 1000nat), None::<i64>, mfin.input),
                    mfin,
                ));
                assert(robot_run_err(padded_program(program@, 1000nat), 0i64, mfin, e));
            }
            Err(e)
        },
    }
}

/// What the agent owes on each error: the walk it witnessed left the
/// grid, the machine faulted, or a step budget ran out.
pub open spec fn robot_run_err(prog: Seq<i64>, sig0: i64, m: MState, e: RobotError) -> bool {
    match e {
        RobotError::OffGrid => !robot_fold(init_robot(sig0), m.output).ok,
        RobotError::MachineFault => m.status is Faulted,
        RobotError::Stalled => (ran_past(init_state(prog, None::<i64>, m.input), m, run_budget())
            && m.status == Status::Running) || m.output.len() + m.input.len() + 1 >= run_budget(),
    }
}

/// Runs the agent over the program starting on a marked reading, and
/// reports the painted grid.
pub fn solve_2(program: &Vec<i64>) -> (r: Result<Vec<Vec<i64>>, RobotError>)
    ensures
        match r {
            Ok(panels) => exists|m: MState|
                {
                    &&& #[trigger] reaches(
                        init_state(padded_program(program@, 1000nat), None::<i64>, m.input),
                        m,
                    )
                    &&& m.status == Status::Halted
                    &&& panels@.len() == robot_fold(init_robot(1i64), m.output).panels.len()
                    &&& forall|x: int|
                        0 <= x < panels@.len() ==> (#[trigger] panels@[x])@ == robot_fold(
                            init_robot(1i64),
                            m.output,
                        ).panels[x]
                },
            Err(e) => exists|m: MState|
                {
                    &&& #[trigger] reaches(
                        init_state(padded_program(program@, 1000nat), None::<i64>, m.input),
                        m,
                    )
                    &&& robot_run_err(padded_program(program@, 1000nat), 1i64, m, e)
                },
        },
{
    let padded = crate::machine::with_scratch(program, 1000);
    let mut robot = Robot::new(&padded, 1);
    let run_result = robot.run();
    match run_result {
        Ok(()) => {
            let ghost mfin = robot@.m;
            proof {
                assert(robot@.prog == padded_program(program@, 1000nat));
                assert(reaches(
                    init_state(padded_program(program@, 1000nat), None::<i64>, mfin.input),
                    mfin,
                ));
                assert(robot@.rs.panels == robot_fold(init_robot(1i64), mfin.output).panels);
            }
            let panels = robot.into_panels();
            Ok(panels)
        },
        Err(e) => {
            proof {
                let mfin = robot@.m;
                assert(robot@.prog == padded_program(program@, 1000nat));
                assert(reaches(
                    init_state(padded_program(program@, 1000nat), None::<i64>, mfin.input),
                    mfin,
                ));
                assert(robot_run_err(padded_program(program@, 1000nat), 1i64, mfin, e));
            }
            Err(e)
        },
    }
}

} // verus!
