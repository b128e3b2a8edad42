//! Password counting: six-digit values swept over a range, each value
//! normalized so its digits never decrease, and filtered by rules
//! about repeated adjacent digits.

use vstd::prelude::*;

verus! {

/// Six digits, each at most 9.
pub open spec fn digits_ok(s: Seq<usize>) -> bool {
    s.len() == 6 && forall|i: int| 0 <= i < 6 ==> #[trigger] s[i] <= 9
}

/// The numeric value of the digit string, most significant first.
pub open spec fn value_int(s: Seq<usize>) -> int
    decreases s.len(),
{
    if s.len() == 0 {
        0
    } else {
        value_int(s.drop_last()) * 10 + s.last()
    }
}

/// The digit string incremented at position `i`, carrying leftward
/// past nines.
pub open spec fn incr_at(s: Seq<usize>, i: int) -> Seq<usize>
    decreases i + 1,
{
    if i < 0 {
        s
    } else if s[i] >= 9 {
        incr_at(s.update(i, 0), i - 1)
    } else {
        s.update(i, (s[i] + 1) as usize)
    }
}

/// The normalization scan: from position `i` on, once a digit below
/// its left neighbour is found, that neighbour's value floods the
/// rest.
pub open spec fn rule_scan(s: Seq<usize>, i: int, last: usize, found: bool) -> Seq<usize>
    decreases s.len() - i,
{
    if i < 0 || i >= s.len() {
        s
    } else if found {
        rule_scan(s.update(i, last), i + 1, last, true)
    } else if s[i] < last {
        rule_scan(s.update(i, last), i + 1, last, true)
    } else {
        rule_scan(s, i + 1, s[i], false)
    }
}

/// The digit string with the never-decreasing rule applied.
pub open spec fn apply_rule(s: Seq<usize>) -> Seq<usize> {
    rule_scan(s, 1, s[0], false)
}

/// The six low decimal digits of a number, most significant first.
pub open spec fn digits_of(min: usize) -> Seq<usize> {
    seq![
        (min as int / 100000 % 10) as usize,
        (min as int / 10000 % 10) as usize,
        (min as int / 1000 % 10) as usize,
        (min as int / 100 % 10) as usize,
        (min as int / 10 % 10) as usize,
        (min as int % 10) as usize,
    ]
}

proof fn lemma_rule_scan_ok(s: Seq<usize>, i: int, last: usize, found: bool)
    requires
        digits_ok(s),
        last <= 9,
    ensures
        digits_ok(rule_scan(s, i, last, found)),
    decreases s.len() - i,
{
    if 0 <= i < s.len() {
        if found || s[i] < last {
            assert(digits_ok(s.update(i, last)));
            lemma_rule_scan_ok(s.update(i, last), i + 1, last, found || s[i] < last);
        } else {
            lemma_rule_scan_ok(s, i + 1, s[i], false);
        }
    }
}

proof fn lemma_incr_at_ok(s: Seq<usize>, i: int)
    requires
        digits_ok(s),
        i < 6,
    ensures
        digits_ok(incr_at(s, i)),
    decreases i + 1,
{
    if i >= 0 {
        if s[i] >= 9 {
            assert(digits_ok(s.update(i, 0)));
            lemma_incr_at_ok(s.update(i, 0), i - 1);
        } else {
            assert(digits_ok(s.update(i, (s[i] + 1) as usize)));
        }
    }
}

/// The normalization scan keeps the digits it has passed in order and
/// leaves every digit string nondecreasing.
proof fn lemma_rule_scan_nondecreasing(s: Seq<usize>, i: int, last: usize, found: bool)
    requires
        digits_ok(s),
        1 <= i <= s.len(),
        last <= 9,
        s[i - 1] == last,
        forall|a: int, b: int| 0 <= a < b < i ==> #[trigger] s[a] <= #[trigger] s[b],
    ensures
        ({
            let r = rule_scan(s, i, last, found);
            &&& digits_ok(r)
            &&& forall|a: int, b: int| 0 <= a < b < r.len() ==> #[trigger] r[a] <= #[trigger] r[b]
        }),
    decreases s.len() - i,
{
    if i >= s.len() {
    } else if found || s[i] < last {
        let s2 = s.update(i, last);
        assert(digits_ok(s2));
        assert(forall|a: int, b: int| 0 <= a < b < i + 1 ==> #[trigger] s2[a] <= #[trigger] s2[b]);
        lemma_rule_scan_nondecreasing(s2, i + 1, last, true);
    } else {
        lemma_rule_scan_nondecreasing(s, i + 1, s[i] as usize, false);
    }
}

/// The never-decreasing rule does what its name says: the normalized
/// digit string never decreases from one digit to the next.
pub proof fn lemma_apply_rule_nondecreasing(s: Seq<usize>)
    requires
        digits_ok(s),
    ensures
        digits_ok(apply_rule(s)),
        forall|a: int, b: int|
            0 <= a < b < apply_rule(s).len() ==> #[trigger] apply_rule(s)[a]
                <= #[trigger] apply_rule(s)[b],
{
    lemma_rule_scan_nondecreasing(s, 1, s[0] as usize, false);
}

/// The sweeping password value: a range and the current digit string.
pub struct ElfPassword {
    min: usize,
    max: usize,
    value: [usize; 6],
}

impl View for ElfPassword {
    type V = (usize, usize, Seq<usize>);

    closed spec fn view(&self) -> (usize, usize, Seq<usize>) {
        (self.min, self.max, self.value@)
    }
}

impl ElfPassword {
    /// The password's digits stay digits.
    pub closed spec fn wf(&self) -> bool {
        digits_ok(self.value@)
    }

    /// Starts the sweep at the range's lower bound, normalized.
    pub fn new(min: usize, max: usize) -> (r: Self)
        ensures
            r.wf(),
            r@ == (min, max, apply_rule(digits_of(min))),
    {
        let d0: usize = min / 100000 % 10;
        let d1: usize = min / 10000 % 10;
        let d2: usize = min / 1000 % 10;
        let d3: usize = min / 100 % 10;
        let d4: usize = min / 10 % 10;
        let d5: usize = min % 10;
        let value: [usize; 6] = [d0, d1, d2, d3, d4, d5];
        let mut result = ElfPassword { min, value, max };
        proof {
            assert(result.value@ =~= digits_of(min));
            assert(digits_ok(result.value@));
        }
        result.apply_inscrease_rule();
        result
    }

    /// Adds one to the digit string, carrying leftward; a string of
    /// nines rolls over to zeroes.
    pub fn incr_value(&mut self)
        requires
            old(self).wf(),
        ensures
            final(self).wf(),
            final(self)@ == (old(self)@.0, old(self)@.1, incr_at(old(self)@.2, 5)),
    {
        proof {
            lemma_incr_at_ok(self.value@, 5);
        }
        let mut digs: Vec<usize> = Vec::new();
        let mut c: usize = 0;
        while c < 6
            invariant
                c <= 6,
                digs@ == self.value@.take(c as int),
            decreases 6 - c,
        {
            digs.push(self.value[c]);
            proof {
                assert(digs@ =~= self.value@.take(c + 1));
            }
            c = c + 1;
        }
        proof {
            assert(digs@ =~= self.value@);
        }
        let ghost v0 = self.value@;
        let mut i: usize = 6;
        let mut carry: bool = true;
        while carry && i > 0
            invariant
                i <= 6,
                digs@.len() == 6,
                digits_ok(v0),
                carry ==> incr_at(v0, 5) == incr_at(digs@, i as int - 1),
                !carry ==> incr_at(v0, 5) == digs@,
                forall|k: int| 0 <= k < 6 ==> #[trigger] digs@[k] <= 9,
            decreases i,
        {
            let d: usize = digs[i - 1];
            if d >= 9 {
                digs.set(i - 1, 0);
            } else {
                digs.set(i - 1, d + 1);
                carry = false;
            }
            i = i - 1;
        }
        proof {
            if carry {
                assert(incr_at(digs@, -1) == digs@);
            }
        }
        self.value = [digs[0], digs[1], digs[2], digs[3], digs[4], digs[5]];
        proof {
            assert(self.value@ =~= digs@);
            assert(self.value@ == incr_at(v0, 5));
        }
    }

    /// Applies the never-decreasing rule: from the first digit below
    /// its left neighbour on, that neighbour's value floods the rest.
    pub fn apply_inscrease_rule(&mut self)
        requires
            old(self).wf(),
        ensures
            final(self).wf(),
            final(self)@ == (old(self)@.0, old(self)@.1, apply_rule(old(self)@.2)),
    {
        let ghost v0 = self.value@;
        proof {
            lemma_rule_scan_ok(v0, 1, v0[0] as usize, false);
        }
        let mut digs: Vec<usize> = Vec::new();
        let mut c: usize = 0;
        while c < 6
            invariant
                c <= 6,
                digs@ == self.value@.take(c as int),
            decreases 6 - c,
        {
            digs.push(self.value[c]);
            proof {
                assert(digs@ =~= self.value@.take(c + 1));
            }
            c = c + 1;
        }
        proof {
            assert(digs@ =~= v0);
        }
        let mut last: usize = digs[0];
        let mut found: bool = false;
        let mut i: usize = 1;
        while i < 6
            invariant
                1 <= i <= 6,
                digs@.len() == 6,
                digits_ok(v0),
                last <= 9,
                forall|k: int| 0 <= k < 6 ==> #[trigger] digs@[k] <= 9,
                apply_rule(v0) == rule_scan(digs@, i as int, last, found),
            decreases 6 - i,
        {
            let d: usize = digs[i];
            if found {
                digs.set(i, last);
            } else if d < last {
                digs.set(i, last);
                found = true;
            } else {
                last = d;
            }
            i = i + 1;
        }
        self.value = [digs[0], digs[1], digs[2], digs[3], digs[4], digs[5]];
        proof {
            assert(self.value@ =~= digs@);
            assert(self.value@ == apply_rule(v0));
        }
    }

    /// One whole increment: add one, then normalize.
    pub fn incr(&mut self)
        requires
            old(self).wf(),
        ensures
            final(self).wf(),
            final(self)@ == (
                old(self)@.0,
                old(self)@.1,
                apply_rule(incr_at(old(self)@.2, 5)),
            ),
    {
        self.incr_value();
        self.apply_inscrease_rule();
    }

    /// The sweep goes on while the value is below the upper bound.
    pub fn is_in_range(&self) -> (r: bool)
        requires
            self.wf(),
        ensures
            r == (value_int(self@.2) < self@.1),
    {
        self.get_value_int() < self.max
    }

    /// The numeric value of the current digit string.
    pub fn get_value_int(&self) -> (r: usize)
        requires
            self.wf(),
        ensures
            r == value_int(self@.2),
            r <= 999999,
    {
        proof {
            lemma_value_int_bound(self.value@);
        }
        self.value[0] * 100000 + self.value[1] * 10000 + self.value[2] * 1000 + self.value[3] * 100
            + self.value[4] * 10 + self.value[5]
    }

    /// The current value, and a step of the sweep; nothing once the
    /// value leaves the range.
    pub fn next(&mut self) -> (r: Option<[usize; 6]>)
        requires
            old(self).wf(),
        ensures
            final(self).wf(),
            match r {
                Some(v) => {
                    &&& value_int(old(self)@.2) < old(self)@.1
                    &&& v@ == old(self)@.2
                    &&& final(self)@ == (
                        old(self)@.0,
                        old(self)@.1,
                        apply_rule(incr_at(old(self)@.2, 5)),
                    )
                },
                None => {
                    &&& value_int(old(self)@.2) >= old(self)@.1
                    &&& final(self)@ == old(self)@
                },
            },
    {
        if self.is_in_range() {
            let value = self.value;
            self.incr();
            Some(value)
        } else {
            None
        }
    }
}

proof fn lemma_value_int_bound(s: Seq<usize>)
    requires
        digits_ok(s),
    ensures
        0 <= value_int(s) <= 999999,
        value_int(s) == s[0] * 100000 + s[1] * 10000 + s[2] * 1000 + s[3] * 100 + s[4] * 10 + s[5],
{
    assert(s.take(1).drop_last() =~= s.take(0));
    assert(s.take(2).drop_last() =~= s.take(1));
    assert(s.take(3).drop_last() =~= s.take(2));
    assert(s.take(4).drop_last() =~= s.take(3));
    assert(s.take(5).drop_last() =~= s.take(4));
    assert(s.take(6) =~= s);
    assert(s.take(6).drop_last() =~= s.take(5));
    assert(value_int(s.take(0)) == 0);
    assert(value_int(s.take(1)) == value_int(s.take(0)) * 10 + s[0]);
    assert(value_int(s.take(2)) == value_int(s.take(1)) * 10 + s[1]);
    assert(value_int(s.take(3)) == value_int(s.take(2)) * 10 + s[2]);
    assert(value_int(s.take(4)) == value_int(s.take(3)) * 10 + s[3]);
    assert(value_int(s.take(5)) == value_int(s.take(4)) * 10 + s[4]);
    assert(value_int(s) == value_int(s.take(5)) * 10 + s[5]);
}

/// Two equal digits stand side by side.
pub fn has_double_repeat(value: &[usize; 6]) -> (r: bool)
    ensures
        r == exists|i: int| 0 <= i < 5 && #[trigger] value@[i] == value@[i + 1],
{
    let mut i: usize = 0;
    while i < 5
        invariant
            i <= 5,
            forall|k: int| 0 <= k < i ==> #[trigger] value@[k] != value@[k + 1],
        decreases 5 - i,
    {
        if value[i] == value[i + 1] {
            return true;
        }
        i = i + 1;
    }
    false
}

/// How many adjacent pairs of the digit `d` the string holds.
pub open spec fn adj_count(s: Seq<usize>, d: usize, upto: int) -> int
    decreases upto,
{
    if upto <= 0 {
        0
    } else {
        adj_count(s, d, upto - 1) + if s[upto - 1] == d && s[upto] == d {
            1int
        } else {
            0int
        }
    }
}

/// Some digit forms exactly one adjacent pair: a strict double that
/// is not part of a longer run.
pub fn has_strict_double_repeat(value: &[usize; 6]) -> (r: bool)
    requires
        forall|i: int| 0 <= i < 6 ==> #[trigger] value@[i] <= 9,
    ensures
        r == exists|d: usize| d <= 9 && adj_count(value@, d, 5) == 1,
{
    let mut counts: Vec<usize> = Vec::new();
    let mut z: usize = 0;
    while z < 10
        invariant
            z <= 10,
            counts@.len() == z,
            forall|q: int| 0 <= q < z ==> counts@[q] == 0usize,
        decreases 10 - z,
    {
        counts.push(0);
        z = z + 1;
    }
    let mut i: usize = 1;
    while i < 6
        invariant
            1 <= i <= 6,
            counts@.len() == 10,
            forall|i2: int| 0 <= i2 < 6 ==> #[trigger] value@[i2] <= 9,
            forall|d: int| 0 <= d < 10 ==> counts@[d] == adj_count(value@, d as usize, i as int - 1),
        decreases 6 - i,
    {
        if value[i - 1] == value[i] {
            let d: usize = value[i];
            let cur: usize = counts[d];
            proof {
                lemma_adj_count_bound(value@, d, i as int - 1);
            }
            counts.set(d, cur + 1);
        }
        i = i + 1;
    }
    let mut d: usize = 0;
    while d < 10
        invariant
            d <= 10,
            counts@.len() == 10,
            forall|q: int| 0 <= q < 10 ==> counts@[q] == adj_count(value@, q as usize, 5),
            forall|q: int| 0 <= q < d ==> #[trigger] adj_count(value@, q as usize, 5) != 1,
        decreases 10 - d,
    {
        if counts[d] == 1 {
            proof {
                assert(adj_count(value@, d, 5) == 1);
            }
            return true;
        }
        d = d + 1;
    }
    proof {
        assert forall|q: usize| q <= 9 implies adj_count(value@, q, 5) != 1 by {
            assert(adj_count(value@, q as int as usize, 5) != 1);
        }
    }
    false
}

proof fn lemma_adj_count_bound(s: Seq<usize>, d: usize, upto: int)
    ensures
        0 <= adj_count(s, d, upto) <= (if upto > 0 {
            upto
        } else {
            0int
        }),
    decreases upto,
{
    if upto > 0 {
        lemma_adj_count_bound(s, d, upto - 1);
    }
}

/// How many passwords the sweep yields, counted by the loose rule,
/// within a step budget that covers the whole six-digit space.
pub open spec fn count_loose(digits: Seq<usize>, max: usize, fuel: nat) -> int
    decreases fuel,
{
    if fuel == 0 || value_int(digits) >= max {
        0
    } else {
        count_loose(apply_rule(incr_at(digits, 5)), max, (fuel - 1) as nat) + (
        if exists|i: int| 0 <= i < 5 && #[trigger] digits[i] == digits[i + 1] {
            1int
        } else {
            0int
        })
    }
}

/// How many passwords the sweep yields, counted by the strict rule,
/// within a step budget that covers the whole six-digit space.
pub open spec fn count_strict(digits: Seq<usize>, max: usize, fuel: nat) -> int
    decreases fuel,
{
    if fuel == 0 || value_int(digits) >= max {
        0
    } else {
        count_strict(apply_rule(incr_at(digits, 5)), max, (fuel - 1) as nat) + (
        if exists|d: usize| d <= 9 && adj_count(digits, d, 5) == 1 {
            1int
        } else {
            0int
        })
    }
}

/// The sweep's starting point and budget: a million steps cover every
/// six-digit value.
pub open spec fn sweep_fuel() -> nat {
    1000000nat
}

proof fn lemma_count_loose_bound(digits: Seq<usize>, max: usize, fuel: nat)
    ensures
        0 <= count_loose(digits, max, fuel) <= fuel,
    decreases fuel,
{
    if fuel > 0 && value_int(digits) < max {
        lemma_count_loose_bound(apply_rule(incr_at(digits, 5)), max, (fuel - 1) as nat);
    }
}

proof fn lemma_count_strict_bound(digits: Seq<usize>, max: usize, fuel: nat)
    ensures
        0 <= count_strict(digits, max, fuel) <= fuel,
    decreases fuel,
{
    if fuel > 0 && value_int(digits) < max {
        lemma_count_strict_bound(apply_rule(incr_at(digits, 5)), max, (fuel - 1) as nat);
    }
}

/// Sweeps the range and counts the passwords with some adjacent
/// repeat.
pub fn solve_1(bounds: (usize, usize)) -> (r: usize)
    ensures
        r == count_loose(apply_rule(digits_of(bounds.0)), bounds.1, sweep_fuel()),
{
    let mut pw = ElfPassword::new(bounds.0, bounds.1);
    let mut count: usize = 0;
    let mut fuel: u64 = 1000000;
    loop
        invariant
            pw.wf(),
            pw@.1 == bounds.1,
            fuel <= 1000000,
            count <= 1000000 - fuel,
            count + count_loose(pw@.2, bounds.1, fuel as nat) == count_loose(
                apply_rule(digits_of(bounds.0)),
                bounds.1,
                sweep_fuel(),
            ),
        decreases fuel,
    {
        if fuel == 0 {
            return count;
        }
        proof {
            lemma_count_loose_bound(pw@.2, bounds.1, fuel as nat);
        }
        match pw.next() {
            Some(v) => {
                if has_double_repeat(&v) {
                    count = count + 1;
                }
                fuel = fuel - 1;
            },
            None => {
                return count;
            },
        }
    }
}

/// Sweeps the range and counts the passwords with a strict double.
pub fn solve_2(bounds: (usize, usize)) -> (r: usize)
    ensures
        r == count_strict(apply_rule(digits_of(bounds.0)), bounds.1, sweep_fuel()),
{
    let mut pw = ElfPassword::new(bounds.0, bounds.1);
    let mut count: usize = 0;
    let mut fuel: u64 = 1000000;
    loop
        invariant
            pw.wf(),
            pw@.1 == bounds.1,
            fuel <= 1000000,
            count <= 1000000 - fuel,
            count + count_strict(pw@.2, bounds.1, fuel as nat) == count_strict(
                apply_rule(digits_of(bounds.0)),
                bounds.1,
                sweep_fuel(),
            ),
        decreases fuel,
    {
        if fuel == 0 {
            return count;
        }
        proof {
            lemma_count_strict_bound(pw@.2, bounds.1, fuel as nat);
        }
        match pw.next() {
            Some(v) => {
                proof {
                    assert(forall|i: int| 0 <= i < 6 ==> #[trigger] v@[i] <= 9);
                }
                if has_strict_double_repeat(&v) {
                    count = count + 1;
                }
                fuel = fuel - 1;
            },
            None => {
                return count;
            },
        }
    }
}

/// The sweep's fixed input range.
pub fn get_input() -> (r: (usize, usize))
    ensures
        r == (130254usize, 678275usize),
{
    (130254, 678275)
}

} // verus!
