//! Fuel arithmetic for module masses: each module needs a third of its
//! mass, rounded down, less two; fuel itself has mass and needs fuel of
//! its own until the requirement reaches zero.

use vstd::prelude::*;

verus! {

/// Fuel needed to lift a single mass: `mass / 3 - 2`, floored at zero.
pub open spec fn fuel_for(mass: int) -> int {
    if mass / 3 - 2 > 0 {
        mass / 3 - 2
    } else {
        0
    }
}

/// Fuel needed to lift a mass together with the fuel's own mass,
/// the fuel for that fuel, and so on until the requirement is zero.
pub open spec fn total_fuel_for(mass: int) -> int
    decreases mass,
{
    if fuel_for(mass) > 0 {
        fuel_for(mass) + total_fuel_for(fuel_for(mass))
    } else {
        0
    }
}

/// Fuel for each mass of a list, summed.
pub open spec fn sum_fuel(masses: Seq<i32>) -> int
    decreases masses.len(),
{
    if masses.len() == 0 {
        0
    } else {
        sum_fuel(masses.drop_last()) + fuel_for(masses.last() as int)
    }
}

/// Total (recursive) fuel for each mass of a list, summed.
pub open spec fn sum_total_fuel(masses: Seq<i32>) -> int
    decreases masses.len(),
{
    if masses.len() == 0 {
        0
    } else {
        sum_total_fuel(masses.drop_last()) + total_fuel_for(masses.last() as int)
    }
}

pub proof fn lemma_fuel_for_bounds(mass: int)
    ensures
        0 <= fuel_for(mass),
        mass > 0 ==> fuel_for(mass) <= mass / 3,
        fuel_for(mass) > 0 ==> mass >= 9,
{
}

/// The recursive requirement never exceeds the starting mass.
pub proof fn lemma_total_fuel_bound(mass: int)
    ensures
        0 <= total_fuel_for(mass),
        mass > 0 ==> total_fuel_for(mass) <= mass,
        mass <= 0 ==> total_fuel_for(mass) == 0,
    decreases mass,
{
    if fuel_for(mass) > 0 {
        lemma_total_fuel_bound(fuel_for(mass));
        assert(mass >= 9 && fuel_for(mass) == mass / 3 - 2);
        assert(3 * (mass / 3) <= mass) by (nonlinear_arith)
            requires mass >= 9,
        {
            vstd::arithmetic::div_mod::lemma_fundamental_div_mod(mass, 3);
        }
        assert(total_fuel_for(mass) <= 2 * (mass / 3) - 4);
    }
}

/// Fuel for one module: a third of the mass, rounded down, less two,
/// and never negative.
pub fn calculate_fuel(mass: i32) -> (r: i32)
    ensures
        r == fuel_for(mass as int),
{
    if mass >= 9 {
        mass / 3 - 2
    } else {
        assert(mass / 3 - 2 <= 0);
        0
    }
}

/// Yields the chain of fuel requirements: each call computes the fuel
/// for the previous requirement and stops once that reaches zero.
pub struct FuelIter {
    pub previous: i32,
}

impl FuelIter {
    pub fn new(previous: i32) -> (r: Self)
        ensures
            r.previous == previous,
    {
        FuelIter { previous }
    }

    /// The next link of the chain: fuel for the previous value, or
    /// nothing once the requirement has reached zero.
    pub fn next(&mut self) -> (r: Option<i32>)
        ensures
            final(self).previous == fuel_for(old(self).previous as int),
            r == if fuel_for(old(self).previous as int) > 0 {
                Some(fuel_for(old(self).previous as int) as i32)
            } else {
                None::<i32>
            },
    {
        let fuel = calculate_fuel(self.previous);
        self.previous = fuel;
        if fuel > 0 {
            Some(fuel)
        } else {
            None
        }
    }
}

/// Fuel for a mass and, recursively, for that fuel itself.
pub fn calculate_total_fuel(start_mass: i32) -> (r: i32)
    ensures
        r == total_fuel_for(start_mass as int),
{
    proof {
        lemma_total_fuel_bound(start_mass as int);
    }
    let mut total: i32 = 0;
    let mut current: i32 = start_mass;
    loop
        invariant
            total + total_fuel_for(current as int) == total_fuel_for(start_mass as int),
            0 <= total,
            total_fuel_for(start_mass as int) <= i32::MAX,
        decreases (if current > 0 { current as int } else { 0int }),
    {
        proof {
            lemma_total_fuel_bound(current as int);
            lemma_fuel_for_bounds(current as int);
        }
        let fuel = calculate_fuel(current);
        if fuel <= 0 {
            return total;
        }
        proof {
            lemma_total_fuel_bound(fuel as int);
        }
        total = total + fuel;
        current = fuel;
    }
}

/// Fuel for every module of the list, summed.
pub fn solve_1(input: &Vec<i32>) -> (r: i32)
    requires
        sum_fuel(input@) <= i32::MAX,
    ensures
        r == sum_fuel(input@),
{
    let mut total: i32 = 0;
    let mut i: usize = 0;
    while i < input.len()
        invariant
            i <= input.len(),
            total == sum_fuel(input@.take(i as int)),
            sum_fuel(input@) <= i32::MAX,
        decreases input.len() - i,
    {
        proof {
            lemma_sum_fuel_prefix(input@, i as int);
            lemma_sum_fuel_prefix(input@, i + 1);
            assert(input@.take(i + 1 as int).drop_last() =~= input@.take(i as int));
            assert(input@.take(i + 1 as int).last() == input@[i as int]);
        }
        total = total + calculate_fuel(input[i]);
        i = i + 1;
    }
    proof {
        assert(input@.take(input@.len() as int) =~= input@);
    }
    total
}

/// Total recursive fuel for every module of the list, summed.
pub fn solve_2(input: &Vec<i32>) -> (r: i32)
    requires
        sum_total_fuel(input@) <= i32::MAX,
    ensures
        r == sum_total_fuel(input@),
{
    let mut total: i32 = 0;
    let mut i: usize = 0;
    while i < input.len()
        invariant
            i <= input.len(),
            total == sum_total_fuel(input@.take(i as int)),
            sum_total_fuel(input@) <= i32::MAX,
        decreases input.len() - i,
    {
        proof {
            lemma_sum_total_fuel_prefix(input@, i as int);
            lemma_sum_total_fuel_prefix(input@, i + 1);
            assert(input@.take(i + 1 as int).drop_last() =~= input@.take(i as int));
            assert(input@.take(i + 1 as int).last() == input@[i as int]);
        }
        total = total + calculate_total_fuel(input[i]);
        i = i + 1;
    }
    proof {
        assert(input@.take(input@.len() as int) =~= input@);
    }
    total
}

/// Every partial sum of fuels lies between zero and the full sum.
proof fn lemma_sum_fuel_prefix(masses: Seq<i32>, i: int)
    requires
        0 <= i <= masses.len(),
    ensures
        0 <= sum_fuel(masses.take(i)),
        sum_fuel(masses.take(i)) <= sum_fuel(masses),
    decreases masses.len(),
{
    if masses.len() == 0 {
    } else if i == masses.len() {
        assert(masses.take(i) =~= masses);
        lemma_sum_fuel_prefix(masses.drop_last(), i - 1);
        lemma_fuel_for_bounds(masses.last() as int);
        assert(masses.drop_last().take(i - 1) =~= masses.drop_last());
    } else {
        lemma_sum_fuel_prefix(masses.drop_last(), i);
        lemma_fuel_for_bounds(masses.last() as int);
        assert(masses.drop_last().take(i) =~= masses.take(i));
    }
}

/// Every partial sum of total fuels lies between zero and the full sum.
proof fn lemma_sum_total_fuel_prefix(masses: Seq<i32>, i: int)
    requires
        0 <= i <= masses.len(),
    ensures
        0 <= sum_total_fuel(masses.take(i)),
        sum_total_fuel(masses.take(i)) <= sum_total_fuel(masses),
    decreases masses.len(),
{
    if masses.len() == 0 {
    } else if i == masses.len() {
        assert(masses.take(i) =~= masses);
        lemma_sum_total_fuel_prefix(masses.drop_last(), i - 1);
        lemma_total_fuel_bound(masses.last() as int);
        assert(masses.drop_last().take(i - 1) =~= masses.drop_last());
    } else {
        lemma_sum_total_fuel_prefix(masses.drop_last(), i);
        lemma_total_fuel_bound(masses.last() as int);
        assert(masses.drop_last().take(i) =~= masses.take(i));
    }
}

} // verus!
