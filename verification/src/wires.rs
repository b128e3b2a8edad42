//! Crossed wires: each wire is a list of axis-aligned steps walked
//! from the origin, every visited cell recorded in order; the answers
//! are the closest crossing by taxicab distance and the crossing
//! reached soonest by combined walking distance.

use vstd::prelude::*;

verus! {

/// One axis-aligned stretch of a wire.
#[derive(Clone, Copy, Debug, PartialEq, Eq, Structural)]
pub enum Step {
    Right(u32),
    Left(u32),
    Up(u32),
    Down(u32),
}

/// Why a wire description was rejected.
#[derive(Clone, Copy, Debug, PartialEq, Eq, Structural)]
pub enum WireError {
    /// A token has no direction letter, no digits, or stray bytes.
    BadToken,
    /// A stretch of zero cells cannot be walked.
    ZeroStep,
    /// The walk left the supported coordinate range.
    OutOfRange,
    /// No crossing exists away from the origin.
    NoCrossing,
}

pub open spec fn step_count(s: Step) -> int {
    match s {
        Step::Right(n) => n as int,
        Step::Left(n) => n as int,
        Step::Up(n) => n as int,
        Step::Down(n) => n as int,
    }
}

pub open spec fn step_delta(s: Step) -> (int, int) {
    match s {
        Step::Right(n) => (n as int, 0),
        Step::Left(n) => (-(n as int), 0),
        Step::Up(n) => (0, n as int),
        Step::Down(n) => (0, -(n as int)),
    }
}

/// Where a step list ends, walked from the origin.
pub open spec fn end_of(steps: Seq<Step>) -> (int, int)
    decreases steps.len(),
{
    if steps.len() == 0 {
        (0, 0)
    } else {
        let prev = end_of(steps.drop_last());
        let d = step_delta(steps.last());
        (prev.0 + d.0, prev.1 + d.1)
    }
}

/// The cells one stretch visits: each stretch records its own start
/// and every cell up to, but not including, its end.
pub open spec fn seg_cells(from: (int, int), s: Step) -> Seq<(int, int)> {
    match s {
        Step::Right(n) => Seq::new(n as nat, |i: int| (from.0 + i, from.1)),
        Step::Left(n) => Seq::new(n as nat, |i: int| (from.0 - i, from.1)),
        Step::Up(n) => Seq::new(n as nat, |i: int| (from.0, from.1 + i)),
        Step::Down(n) => Seq::new(n as nat, |i: int| (from.0, from.1 - i)),
    }
}

/// Every cell a wire visits, in walking order: the origin first, each
/// stretch's final cell owned by the following stretch.
pub open spec fn path_of(steps: Seq<Step>) -> Seq<(int, int)>
    decreases steps.len(),
{
    if steps.len() == 0 {
        Seq::<(int, int)>::empty()
    } else {
        path_of(steps.drop_last()) + seg_cells(end_of(steps.drop_last()), steps.last())
    }
}

/// A position on the grid.
#[derive(Clone, Copy, Debug, PartialEq, Eq, Structural)]
pub struct Position(pub i64, pub i64);

/// Coordinates the walk keeps to, far from the 64-bit edges.
pub open spec fn pos_ok(p: (int, int)) -> bool {
    -0x1_0000_0000_0000 <= p.0 <= 0x1_0000_0000_0000 && -0x1_0000_0000_0000 <= p.1
        <= 0x1_0000_0000_0000
}

pub open spec fn abs1(v: int) -> int {
    if v < 0 {
        -v
    } else {
        v
    }
}

impl Position {
    pub fn origin() -> (r: Position)
        ensures
            r == Position(0, 0),
    {
        Position(0, 0)
    }

    /// The position a whole step away.
    pub fn walk(&self, step: Step) -> (r: Position)
        requires
            pos_ok((self.0 as int, self.1 as int)),
        ensures
            r.0 == self.0 + step_delta(step).0,
            r.1 == self.1 + step_delta(step).1,
    {
        match step {
            Step::Right(n) => Position(self.0 + n as i64, self.1),
            Step::Left(n) => Position(self.0 - n as i64, self.1),
            Step::Up(n) => Position(self.0, self.1 + n as i64),
            Step::Down(n) => Position(self.0, self.1 - n as i64),
        }
    }

    /// The taxicab distance from the origin.
    pub fn distance_from_origin(&self) -> (r: i64)
        requires
            pos_ok((self.0 as int, self.1 as int)),
        ensures
            r == abs1(self.0 as int) + abs1(self.1 as int),
    {
        (if self.0 < 0 {
            -self.0
        } else {
            self.0
        }) + (if self.1 < 0 {
            -self.1
        } else {
            self.1
        })
    }
}

/// A wire's steps.
#[derive(Clone, Debug)]
pub struct StepList(pub Vec<Step>);

/// One step token: a direction letter, then a decimal cell count
/// below one hundred million.
pub open spec fn step_token(tok: Seq<u8>) -> Option<Step> {
    if tok.len() < 2 {
        None
    } else {
        match token_count(tok, 1, 0) {
            Some(n) => {
                if tok[0] == 82 {
                    Some(Step::Right(n))
                } else if tok[0] == 76 {
                    Some(Step::Left(n))
                } else if tok[0] == 85 {
                    Some(Step::Up(n))
                } else if tok[0] == 68 {
                    Some(Step::Down(n))
                } else {
                    None
                }
            },
            None => None,
        }
    }
}

/// The token's digits folded into a count, rejecting anything but
/// digits and any count of one hundred million or more.
pub open spec fn token_count(tok: Seq<u8>, i: int, acc: int) -> Option<u32>
    decreases tok.len() - i,
{
    if i >= tok.len() {
        Some(acc as u32)
    } else if !(48 <= tok[i] <= 57) {
        None
    } else {
        let next = acc * 10 + (tok[i] - 48);
        if next >= 100000000 {
            None
        } else {
            token_count(tok, i + 1, next)
        }
    }
}

/// The comma-separated steps of a wire's text.
pub open spec fn parse_steps(s: Seq<u8>) -> Option<Seq<Step>>
    decreases s.len(),
{
    if !(exists|i: int| 0 <= i < s.len() && s[i] == 44) {
        match step_token(s) {
            Some(v) => Some(seq![v]),
            None => None,
        }
    } else {
        let c = step_comma(s, 0);
        if 0 <= c < s.len() {
            match step_token(s.take(c)) {
                Some(v) => {
                    match parse_steps(s.skip(c + 1)) {
                        Some(rest) => Some(seq![v] + rest),
                        None => None,
                    }
                },
                None => None,
            }
        } else {
            None
        }
    }
}

pub open spec fn step_comma(s: Seq<u8>, i: int) -> int
    decreases s.len() - i,
{
    if i >= s.len() {
        i
    } else if s[i] == 44 {
        i
    } else {
        step_comma(s, i + 1)
    }
}

impl StepList {
    /// Reads a wire's comma-separated step tokens.
    pub fn from_string(text: &Vec<u8>) -> (r: Result<StepList, WireError>)
        ensures
            match r {
                Ok(sl) => parse_steps(text@) == Some(sl.0@),
                Err(_) => parse_steps(text@) is None,
            },
    {
        let hi: usize = text.len();
        let mut out: Vec<Step> = Vec::new();
        let mut start: usize = 0;
        proof {
            assert(text@.subrange(0, hi as int) =~= text@);
            if parse_steps(text@) is Some {
                assert(Seq::<Step>::empty() + parse_steps(text@).unwrap() =~= parse_steps(
                    text@,
                ).unwrap());
            }
        }
        loop
            invariant
                start <= hi == text@.len(),
                start == 0 || text@[start as int - 1] == 44,
                parse_steps(text@) == (match parse_steps(text@.subrange(start as int, hi as int)) {
                    Some(rest) => Some(out@ + rest),
                    None => None::<Seq<Step>>,
                }),
            decreases hi - start,
        {
            let mut end: usize = start;
            while end < hi && text[end] != 44
                invariant
                    start <= end <= hi == text@.len(),
                    forall|q: int| start <= q < end ==> text@[q] != 44,
                decreases hi - end,
            {
                end = end + 1;
            }
            let ghost seg = text@.subrange(start as int, hi as int);
            let ghost out_pre = out@;
            let v = match Self::parse_step(text, start, end) {
                Ok(v) => v,
                Err(f) => {
                    proof {
                        lemma_step_split(text@, start as int, end as int, hi as int);
                    }
                    return Err(f);
                },
            };
            out.push(v);
            proof {
                lemma_step_split(text@, start as int, end as int, hi as int);
            }
            if end == hi {
                proof {
                    assert(out_pre + seq![v] =~= out@);
                }
                return Ok(StepList(out));
            }
            proof {
                let rest_seg = text@.subrange(end + 1, hi as int);
                if parse_steps(rest_seg) is Some {
                    assert(out_pre + (seq![v] + parse_steps(rest_seg).unwrap()) =~= out@
                        + parse_steps(rest_seg).unwrap());
                }
            }
            start = end + 1;
        }
    }

    /// Parses the token standing at `text[start..end]`.
    fn parse_step(text: &Vec<u8>, start: usize, end: usize) -> (r: Result<Step, WireError>)
        requires
            start <= end <= text@.len(),
        ensures
            match r {
                Ok(v) => step_token(text@.subrange(start as int, end as int)) == Some(v),
                Err(_) => step_token(text@.subrange(start as int, end as int)) is None,
            },
    {
        let ghost tok = text@.subrange(start as int, end as int);
        if end - start < 2 {
            return Err(WireError::BadToken);
        }
        let dir: u8 = text[start];
        let mut acc: u32 = 0;
        let mut i: usize = start + 1;
        while i < end
            invariant
                start + 1 <= i <= end <= text@.len(),
                tok == text@.subrange(start as int, end as int),
                tok.len() >= 2,
                acc < 100000000,
                token_count(tok, 1, 0) == token_count(tok, i as int - start, acc as int),
            decreases end - i,
        {
            let b: u8 = text[i];
            proof {
                assert(tok[i as int - start] == b);
            }
            if !(48 <= b && b <= 57) {
                return Err(WireError::BadToken);
            }
            let next: u32 = acc * 10 + (b - 48) as u32;
            if next >= 100000000 {
                return Err(WireError::BadToken);
            }
            acc = next;
            i = i + 1;
        }
        proof {
            assert(token_count(tok, end as int - start, acc as int) == Some(acc));
        }
        match dir {
            82u8 => Ok(Step::Right(acc)),
            76u8 => Ok(Step::Left(acc)),
            85u8 => Ok(Step::Up(acc)),
            68u8 => Ok(Step::Down(acc)),
            _ => Err(WireError::BadToken),
        }
    }

    /// The steps, surrendered in order.
    pub fn into_iter(self) -> (r: Vec<Step>)
        ensures
            r@ == self.0@,
    {
        let StepList(steps) = self;
        steps
    }
}

/// Splitting the remaining text at its first comma, or taking it
/// whole, matches the parsing recursion.
proof fn lemma_step_split(text: Seq<u8>, start: int, end: int, hi: int)
    requires
        0 <= start <= end <= hi == text.len(),
        forall|q: int| start <= q < end ==> text[q] != 44,
        end < hi ==> text[end] == 44,
    ensures
        end == hi ==> !(exists|i: int|
            0 <= i < text.subrange(start, hi).len() && text.subrange(start, hi)[i] == 44)
            && step_token(text.subrange(start, hi)) == step_token(text.subrange(start, end)),
        end < hi ==> (exists|i: int|
            0 <= i < text.subrange(start, hi).len() && text.subrange(start, hi)[i] == 44)
            && step_comma(text.subrange(start, hi), 0) == end - start && text.subrange(
            start,
            hi,
        ).take(end - start) =~= text.subrange(start, end) && text.subrange(start, hi).skip(
            end - start + 1,
        ) =~= text.subrange(end + 1, hi),
{
    let seg = text.subrange(start, hi);
    if end == hi {
        assert(forall|i: int| 0 <= i < seg.len() ==> seg[i] == text[start + i] && seg[i] != 44);
        assert(text.subrange(start, hi) =~= text.subrange(start, end));
    } else {
        assert(seg[end - start] == 44);
        lemma_step_comma(seg, 0, end - start);
        assert(seg.take(end - start) =~= text.subrange(start, end));
        assert(seg.skip(end - start + 1) =~= text.subrange(end + 1, hi));
    }
}

proof fn lemma_step_comma(s: Seq<u8>, i: int, c: int)
    requires
        0 <= i <= c < s.len(),
        s[c] == 44,
        forall|q: int| i <= q < c ==> s[q] != 44,
    ensures
        step_comma(s, i) == c,
    decreases c - i,
{
    if i < c {
        lemma_step_comma(s, i + 1, c);
    }
}

/// A wire's whole visited path.
#[derive(Clone, Debug)]
pub struct PositionList(pub Vec<Position>);

/// Every prefix of the walk stays in the supported range.
pub open spec fn walk_in_range(steps: Seq<Step>) -> bool {
    forall|i: int| 0 <= i <= steps.len() ==> pos_ok(#[trigger] end_of(steps.take(i)))
}

impl PositionList {
    /// Walks the steps from the origin and records every visited
    /// cell: each stretch contributes its start and every cell short
    /// of its end.  A zero-cell stretch cannot be walked, and a walk
    /// that strays too far from the origin is refused.
    pub fn from_step_list(step_list: StepList) -> (r: Result<PositionList, WireError>)
        ensures
            match r {
                Ok(pl) => {
                    &&& pl.0@.len() == path_of(step_list.0@).len()
                    &&& forall|q: int|
                        0 <= q < pl.0@.len() ==> ((#[trigger] pl.0@[q]).0 as int,
                        pl.0@[q].1 as int) == path_of(step_list.0@)[q]
                    &&& forall|q: int|
                        0 <= q < pl.0@.len() ==> pos_ok(
                            ((#[trigger] pl.0@[q]).0 as int, pl.0@[q].1 as int),
                        )
                    &&& forall|q: int| 0 <= q < step_list.0@.len() ==> step_count(
                        #[trigger] step_list.0@[q],
                    ) > 0
                },
                Err(e) => match e {
                    WireError::ZeroStep => exists|q: int|
                        0 <= q < step_list.0@.len() && step_count(#[trigger] step_list.0@[q])
                            == 0,
                    WireError::OutOfRange => exists|q: int|
                        0 <= q <= step_list.0@.len() && !pos_ok(
                            #[trigger] end_of(step_list.0@.take(q)),
                        ),
                    _ => false,
                },
            },
    {
        let steps = step_list.0;
        let ghost all = steps@;
        let mut path: Vec<Position> = Vec::new();
        let mut last = Position::origin();
        let mut i: usize = 0;
        proof {
            assert(all.take(0) =~= Seq::<Step>::empty());
            assert(path_of(all.take(0)) =~= Seq::<(int, int)>::empty());
        }
        while i < steps.len()
            invariant
                i <= steps@.len(),
                all == steps@,
                all == step_list.0@,
                (last.0 as int, last.1 as int) == end_of(all.take(i as int)),
                pos_ok((last.0 as int, last.1 as int)),
                path@.len() == path_of(all.take(i as int)).len(),
                forall|q: int|
                    0 <= q < path@.len() ==> ((#[trigger] path@[q]).0 as int, path@[q].1 as int)
                        == path_of(all.take(i as int))[q],
                forall|q: int|
                    0 <= q < path@.len() ==> pos_ok(
                        ((#[trigger] path@[q]).0 as int, path@[q].1 as int),
                    ),
                forall|q: int| 0 <= q < i ==> step_count(#[trigger] all[q]) > 0,
            decreases steps@.len() - i,
        {
            let step = steps[i];
            let n: u32 = match step {
                Step::Right(n) => n,
                Step::Left(n) => n,
                Step::Up(n) => n,
                Step::Down(n) => n,
            };
            if n == 0 {
                proof {
                    assert(step_count(all[i as int]) == 0);
                }
                return Err(WireError::ZeroStep);
            }
            let next = last.walk(step);
            if next.0 < -0x1_0000_0000_0000 || next.0 > 0x1_0000_0000_0000 || next.1
                < -0x1_0000_0000_0000 || next.1 > 0x1_0000_0000_0000 {
                proof {
                    assert(all.take(i + 1).drop_last() =~= all.take(i as int));
                    assert(all.take(i + 1).last() == all[i as int]);
                    assert(end_of(all.take(i + 1)) == (next.0 as int, next.1 as int));
                    assert(!pos_ok(end_of(all.take(i + 1))));
                }
                return Err(WireError::OutOfRange);
            }
            let ghost seg = seg_cells((last.0 as int, last.1 as int), step);
            let mut c: u32 = 0;
            let mut cur = last;
            while c < n
                invariant
                    c <= n,
                    n > 0,
                    step_count(step) == n,
                    seg == seg_cells((last.0 as int, last.1 as int), step),
                    pos_ok((last.0 as int, last.1 as int)),
                    pos_ok((last.0 + step_delta(step).0, last.1 + step_delta(step).1)),
                    (cur.0 as int, cur.1 as int) == seg_path_at(
                        (last.0 as int, last.1 as int),
                        step,
                        c as int,
                    ),
                    path@.len() == path_of(all.take(i as int)).len() + c,
                    forall|q: int|
                        0 <= q < path_of(all.take(i as int)).len() ==> ((
                        #[trigger] path@[q]).0 as int, path@[q].1 as int) == path_of(
                            all.take(i as int),
                        )[q],
                    forall|q: int|
                        0 <= q < c ==> ((#[trigger] path@[path_of(all.take(i as int)).len() + q]).0
                            as int, path@[path_of(all.take(i as int)).len() + q].1 as int)
                            == seg[q],
                    forall|q: int|
                        0 <= q < path@.len() ==> pos_ok(
                            ((#[trigger] path@[q]).0 as int, path@[q].1 as int),
                        ),
                decreases n - c,
            {
                proof {
                    assert(pos_ok((cur.0 as int, cur.1 as int)));
                }
                path.push(cur);
                proof {
                    assert(seg[c as int] == (cur.0 as int, cur.1 as int));
                }
                cur = match step {
                    Step::Right(_) => Position(cur.0 + 1, cur.1),
                    Step::Left(_) => Position(cur.0 - 1, cur.1),
                    Step::Up(_) => Position(cur.0, cur.1 + 1),
                    Step::Down(_) => Position(cur.0, cur.1 - 1),
                };
                c = c + 1;
            }
            proof {
                assert(all.take(i + 1).drop_last() =~= all.take(i as int));
                assert(all.take(i + 1).last() == all[i as int]);
                assert(path_of(all.take(i + 1)) =~= path_of(all.take(i as int)) + seg);
                assert(end_of(all.take(i + 1)) == (last.0 + step_delta(step).0, last.1
                    + step_delta(step).1));
                let plen = path_of(all.take(i as int)).len();
                assert forall|q: int|
                    0 <= q < path@.len() implies ((#[trigger] path@[q]).0 as int,
                path@[q].1 as int) == path_of(all.take(i + 1))[q] by {
                    if q >= plen {
                        let qq = q - plen;
                        assert(((path@[plen + qq]).0 as int, path@[plen + qq].1 as int)
                            == seg[qq]);
                        assert(path_of(all.take(i + 1))[q] == seg[qq]);
                    }
                }
            }
            last = next;
            i = i + 1;
        }
        proof {
            assert(all.take(all.len() as int) =~= all);
        }
        Ok(PositionList(path))
    }

    /// A borrowed look at the path.
    pub fn iter(&self) -> (r: &Vec<Position>)
        ensures
            r@ == self.0@,
    {
        &self.0
    }

    /// The path, surrendered in order.
    pub fn into_iter(self) -> (r: Vec<Position>)
        ensures
            r@ == self.0@,
    {
        let PositionList(path) = self;
        path
    }
}

/// A stretch's cell `c` steps in.
pub open spec fn seg_path_at(from: (int, int), s: Step, c: int) -> (int, int) {
    match s {
        Step::Right(_) => (from.0 + c, from.1),
        Step::Left(_) => (from.0 - c, from.1),
        Step::Up(_) => (from.0, from.1 + c),
        Step::Down(_) => (from.0, from.1 - c),
    }
}

/// The paths cross at `p`, away from the origin.
pub open spec fn is_crossing(pa: Seq<(int, int)>, pb: Seq<(int, int)>, p: (int, int)) -> bool {
    pa.contains(p) && pb.contains(p) && p != (0int, 0int)
}

/// The closest crossing of the two wires, by taxicab distance from
/// the origin.
pub fn solve_1(wire_a: StepList, wire_b: StepList) -> (r: Result<i64, WireError>)
    ensures
        match r {
            Ok(v) => {
                &&& exists|p: (int, int)|
                    #[trigger] is_crossing(
                        path_of(wire_a.0@),
                        path_of(wire_b.0@),
                        p,
                    ) && v == abs1(p.0) + abs1(p.1)
                &&& forall|p: (int, int)|
                    #[trigger] is_crossing(path_of(wire_a.0@), path_of(wire_b.0@), p) ==> v <= abs1(
                        p.0,
                    ) + abs1(p.1)
            },
            Err(e) => wire_run_err(wire_a.0@, wire_b.0@, e) || (e == WireError::NoCrossing
                && forall|p: (int, int)|
                !is_crossing(path_of(wire_a.0@), path_of(wire_b.0@), p)),
        },
{
    let ghost pa_spec = path_of(wire_a.0@);
    let ghost pb_spec = path_of(wire_b.0@);
    let ghost wa = wire_a.0@;
    let ghost wb = wire_b.0@;
    let pa = match PositionList::from_step_list(wire_a) {
        Ok(p) => p,
        Err(e) => {
            return Err(e);
        },
    };
    let pb = match PositionList::from_step_list(wire_b) {
        Ok(p) => p,
        Err(e) => {
            return Err(e);
        },
    };
    let mut best: i64 = 0;
    let mut found: bool = false;
    let mut i: usize = 0;
    while i < pa.0.len()
        invariant
            i <= pa.0@.len(),
            pa.0@.len() == pa_spec.len(),
            pb.0@.len() == pb_spec.len(),
            forall|q: int|
                0 <= q < pa.0@.len() ==> ((#[trigger] pa.0@[q]).0 as int, pa.0@[q].1 as int)
                    == pa_spec[q],
            forall|q: int|
                0 <= q < pb.0@.len() ==> ((#[trigger] pb.0@[q]).0 as int, pb.0@[q].1 as int)
                    == pb_spec[q],
            forall|q: int|
                0 <= q < pa.0@.len() ==> pos_ok(
                    ((#[trigger] pa.0@[q]).0 as int, pa.0@[q].1 as int),
                ),
            found ==> exists|p: (int, int)|
                #[trigger] is_crossing(pa_spec, pb_spec, p) && best == abs1(p.0) + abs1(p.1),
            forall|q: int|
                0 <= q < i ==> !is_crossing(pa_spec, pb_spec, #[trigger] pa_spec[q]) || (found
                    && best <= abs1(pa_spec[q].0) + abs1(pa_spec[q].1)),
        decreases pa.0@.len() - i,
    {
        let p = pa.0[i];
        if !(p.0 == 0 && p.1 == 0) {
            let mut hit: bool = false;
            let mut j: usize = 0;
            while j < pb.0.len()
                invariant
                    j <= pb.0@.len(),
                    pb.0@.len() == pb_spec.len(),
                    i < pa.0@.len(),
                    p == pa.0@[i as int],
                    forall|q: int|
                        0 <= q < pb.0@.len() ==> ((#[trigger] pb.0@[q]).0 as int,
                        pb.0@[q].1 as int) == pb_spec[q],
                    hit <==> exists|q: int|
                        0 <= q < j && #[trigger] pb_spec[q] == (p.0 as int, p.1 as int),
                decreases pb.0@.len() - j,
            {
                let q = pb.0[j];
                if q.0 == p.0 && q.1 == p.1 {
                    proof {
                        assert(pb_spec[j as int] == (p.0 as int, p.1 as int));
                    }
                    hit = true;
                }
                j = j + 1;
            }
            if hit {
                let d = p.distance_from_origin();
                if !found || d < best {
                    best = d;
                    found = true;
                }
                proof {
                    assert(pa_spec.contains((p.0 as int, p.1 as int))) by {
                        assert(pa_spec[i as int] == (p.0 as int, p.1 as int));
                    }
                    assert(pb_spec.contains((p.0 as int, p.1 as int)));
                    assert(is_crossing(pa_spec, pb_spec, (p.0 as int, p.1 as int)));
                }
            }
        }
        i = i + 1;
    }
    if !found {
        proof {
            assert forall|p: (int, int)| !is_crossing(pa_spec, pb_spec, p) by {
                if is_crossing(pa_spec, pb_spec, p) {
                    let q = choose|q: int| 0 <= q < pa_spec.len() && pa_spec[q] == p;
                }
            }
        }
        return Err(WireError::NoCrossing);
    }
    proof {
        assert forall|p: (int, int)|
            #[trigger] is_crossing(pa_spec, pb_spec, p) implies best <= abs1(p.0) + abs1(p.1) by {
            let q = choose|q: int| 0 <= q < pa_spec.len() && pa_spec[q] == p;
        }
    }
    Ok(best)
}

/// What a wire walk owes on a rejected description: a zero-cell
/// stretch or a stray walk on one of the two wires.
pub open spec fn wire_run_err(wa: Seq<Step>, wb: Seq<Step>, e: WireError) -> bool {
    match e {
        WireError::ZeroStep => (exists|q: int|
            0 <= q < wa.len() && step_count(#[trigger] wa[q]) == 0) || (exists|q: int|
            0 <= q < wb.len() && step_count(#[trigger] wb[q]) == 0),
        WireError::OutOfRange => (exists|q: int|
            0 <= q <= wa.len() && !pos_ok(#[trigger] end_of(wa.take(q)))) || (exists|q: int|
            0 <= q <= wb.len() && !pos_ok(#[trigger] end_of(wb.take(q)))),
        _ => false,
    }
}

/// The crossing reached soonest: the smallest sum of the two wires'
/// first walking distances to a shared cell away from the origin.
pub fn solve_2(wire_a: StepList, wire_b: StepList) -> (r: Result<usize, WireError>)
    ensures
        match r {
            Ok(v) => exists|ia: int, ib: int|
                {
                    &&& 0 <= ia < path_of(wire_a.0@).len()
                    &&& 0 <= ib < path_of(wire_b.0@).len()
                    &&& #[trigger] path_of(wire_a.0@)[ia] == #[trigger] path_of(wire_b.0@)[ib]
                    &&& path_of(wire_a.0@)[ia] != (0int, 0int)
                    &&& v == ia + ib
                    &&& forall|ja: int, jb: int|
                        0 <= ja < path_of(wire_a.0@).len() && 0 <= jb < path_of(wire_b.0@).len()
                            && #[trigger] path_of(wire_a.0@)[ja] == #[trigger] path_of(
                            wire_b.0@,
                        )[jb] && path_of(wire_a.0@)[ja] != (0int, 0int) && first_at(
                            path_of(wire_a.0@),
                            ja,
                        ) && first_at(path_of(wire_b.0@), jb) ==> v <= ja + jb
                },
            Err(e) => wire_run_err(wire_a.0@, wire_b.0@, e) || (e == WireError::NoCrossing
                && forall|ja: int, jb: int|
                !(0 <= ja < path_of(wire_a.0@).len() && 0 <= jb < path_of(wire_b.0@).len()
                    && #[trigger] path_of(wire_a.0@)[ja] == #[trigger] path_of(wire_b.0@)[jb]
                    && path_of(wire_a.0@)[ja] != (0int, 0int) && first_at(path_of(wire_a.0@), ja)
                    && first_at(path_of(wire_b.0@), jb))) || (e == WireError::OutOfRange && exists|
                ja: int,
                jb: int,
            |
                0 <= ja < path_of(wire_a.0@).len() && 0 <= jb < path_of(wire_b.0@).len()
                    && #[trigger] path_of(wire_a.0@)[ja] == #[trigger] path_of(wire_b.0@)[jb] && ja
                    + jb > usize::MAX),
        },
{
    let ghost pa_spec = path_of(wire_a.0@);
    let ghost pb_spec = path_of(wire_b.0@);
    let ghost wa = wire_a.0@;
    let ghost wb = wire_b.0@;
    let pa = match PositionList::from_step_list(wire_a) {
        Ok(p) => p,
        Err(e) => {
            return Err(e);
        },
    };
    let pb = match PositionList::from_step_list(wire_b) {
        Ok(p) => p,
        Err(e) => {
            return Err(e);
        },
    };
    let mut best: usize = 0;
    let mut found: bool = false;
    let mut i: usize = 0;
    while i < pa.0.len()
        invariant
            i <= pa.0@.len(),
            wa == wire_a.0@,
            wb == wire_b.0@,
            pa_spec == path_of(wa),
            pb_spec == path_of(wb),
            pa.0@.len() == pa_spec.len(),
            pb.0@.len() == pb_spec.len(),
            forall|q: int|
                0 <= q < pa.0@.len() ==> ((#[trigger] pa.0@[q]).0 as int, pa.0@[q].1 as int)
                    == pa_spec[q],
            forall|q: int|
                0 <= q < pb.0@.len() ==> ((#[trigger] pb.0@[q]).0 as int, pb.0@[q].1 as int)
                    == pb_spec[q],
            found ==> exists|ia: int, ib: int|
                {
                    &&& 0 <= ia < pa_spec.len()
                    &&& 0 <= ib < pb_spec.len()
                    &&& #[trigger] pa_spec[ia] == #[trigger] pb_spec[ib]
                    &&& pa_spec[ia] != (0int, 0int)
                    &&& best == ia + ib
                },
            forall|ja: int, jb: int|
                0 <= ja < i && 0 <= jb < pb_spec.len() && #[trigger] pa_spec[ja]
                    == #[trigger] pb_spec[jb] && pa_spec[ja] != (0int, 0int) && first_at(
                    pa_spec,
                    ja,
                ) && first_at(pb_spec, jb) ==> found && best <= ja + jb,
        decreases pa.0@.len() - i,
    {
        let p = pa.0[i];
        let mut earlier: bool = false;
        let mut k: usize = 0;
        while k < i
            invariant
                k <= i,
                i < pa.0@.len(),
                pa.0@.len() == pa_spec.len(),
                p == pa.0@[i as int],
                forall|q: int|
                    0 <= q < pa.0@.len() ==> ((#[trigger] pa.0@[q]).0 as int, pa.0@[q].1 as int)
                        == pa_spec[q],
                earlier <==> exists|q: int|
                    0 <= q < k && #[trigger] pa_spec[q] == (p.0 as int, p.1 as int),
            decreases i - k,
        {
            let q = pa.0[k];
            if q.0 == p.0 && q.1 == p.1 {
                proof {
                    assert(pa_spec[k as int] == (p.0 as int, p.1 as int));
                }
                earlier = true;
            }
            k = k + 1;
        }
        if !earlier && !(p.0 == 0 && p.1 == 0) {
            // p's first visit on wire a stands at i; find its first
            // visit on wire b
            let mut j: usize = 0;
            let mut hit: bool = false;
            while j < pb.0.len() && !hit
                invariant
                    j <= pb.0@.len(),
                    pb.0@.len() == pb_spec.len(),
                    i < pa.0@.len(),
                    p == pa.0@[i as int],
                    forall|q: int|
                        0 <= q < pb.0@.len() ==> ((#[trigger] pb.0@[q]).0 as int,
                        pb.0@[q].1 as int) == pb_spec[q],
                    !hit ==> forall|q: int|
                        0 <= q < j ==> #[trigger] pb_spec[q] != (p.0 as int, p.1 as int),
                    hit ==> j >= 1 && pb_spec[j as int - 1] == (p.0 as int, p.1 as int) && (forall|
                        q: int,
                    |
                        0 <= q < j - 1 ==> #[trigger] pb_spec[q] != (p.0 as int, p.1 as int)),
                decreases pb.0@.len() - j + (if hit {
                    0int
                } else {
                    1int
                }),
            {
                let q = pb.0[j];
                if q.0 == p.0 && q.1 == p.1 {
                    proof {
                        assert(pb_spec[j as int] == (p.0 as int, p.1 as int));
                    }
                    hit = true;
                }
                j = j + 1;
            }
            if hit {
                let steps_sum: usize = match i.checked_add(j - 1) {
                    Some(v) => v,
                    None => {
                        proof {
                            assert(pa_spec[i as int] == pb_spec[j as int - 1]);
                            assert(i + (j - 1) > usize::MAX);
                        }
                        return Err(WireError::OutOfRange);
                    },
                };
                if !found || steps_sum < best {
                    best = steps_sum;
                    found = true;
                }
                proof {
                    assert(pa_spec[i as int] == pb_spec[j as int - 1]);
                }
            }
        }
        i = i + 1;
    }
    if !found {
        proof {
            assert forall|ja: int, jb: int|
                !(0 <= ja < pa_spec.len() && 0 <= jb < pb_spec.len() && #[trigger] pa_spec[ja]
                    == #[trigger] pb_spec[jb] && pa_spec[ja] != (0int, 0int) && first_at(
                    pa_spec,
                    ja,
                ) && first_at(pb_spec, jb)) by {}
        }
        return Err(WireError::NoCrossing);
    }
    proof {
        assert forall|ja: int, jb: int|
            0 <= ja < pa_spec.len() && 0 <= jb < pb_spec.len() && #[trigger] pa_spec[ja]
                == #[trigger] pb_spec[jb] && pa_spec[ja] != (0int, 0int) && first_at(pa_spec, ja)
                && first_at(pb_spec, jb) implies best <= ja + jb by {}
    }
    Ok(best)
}

/// No earlier visit of the same cell stands before `i`.
pub open spec fn first_at(p: Seq<(int, int)>, i: int) -> bool {
    forall|q: int| 0 <= q < i ==> #[trigger] p[q] != p[i]
}

} // verus!
