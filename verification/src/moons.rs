//! The four-moon simulation: pairwise gravity nudges each velocity
//! component one step toward the other moon, velocities then carry
//! the positions, and energy is read off as the product of positional
//! and kinetic magnitude; the second search finds each axis's period.

use vstd::prelude::*;
use crate::program::{token_value, parse_token, LoadFault};

verus! {

/// One component's pull: one step toward the other value.
pub open spec fn sign_toward(a: int, b: int) -> int {
    if a > b {
        -1
    } else if a < b {
        1
    } else {
        0
    }
}

pub open spec fn abs1(v: int) -> int {
    if v < 0 {
        -v
    } else {
        v
    }
}

#[derive(Clone, Copy, Debug, PartialEq, Eq, Structural)]
pub struct Vec3 {
    pub x: i32,
    pub y: i32,
    pub z: i32,
}

#[derive(Clone, Copy, Debug, PartialEq, Eq, Structural)]
pub struct Moon {
    pub position: Vec3,
    pub velocity: Vec3,
}

/// One moon with unbounded components, for the mathematical model.
#[verifier::ext_equal]
pub struct SimMoon {
    pub px: int,
    pub py: int,
    pub pz: int,
    pub vx: int,
    pub vy: int,
    pub vz: int,
}

impl View for Moon {
    type V = SimMoon;

    open spec fn view(&self) -> SimMoon {
        SimMoon {
            px: self.position.x as int,
            py: self.position.y as int,
            pz: self.position.z as int,
            vx: self.velocity.x as int,
            vy: self.velocity.y as int,
            vz: self.velocity.z as int,
        }
    }
}

/// The gravity felt by moon `i` from the moons before `j`, summed
/// component by component.
pub open spec fn grav_upto(moons: Seq<SimMoon>, i: int, j: int) -> (int, int, int)
    decreases j,
{
    if j <= 0 {
        (0, 0, 0)
    } else {
        let rest = grav_upto(moons, i, j - 1);
        if j - 1 == i {
            rest
        } else {
            (
                rest.0 + sign_toward(moons[i].px, moons[j - 1].px),
                rest.1 + sign_toward(moons[i].py, moons[j - 1].py),
                rest.2 + sign_toward(moons[i].pz, moons[j - 1].pz),
            )
        }
    }
}

/// One simultaneous step: every moon's velocity takes the gravity of
/// all the others, then every position takes its velocity.
pub open spec fn sim_step(moons: Seq<SimMoon>) -> Seq<SimMoon> {
    Seq::new(
        moons.len(),
        |i: int|
            {
                let g = grav_upto(moons, i, moons.len() as int);
                let vx = moons[i].vx + g.0;
                let vy = moons[i].vy + g.1;
                let vz = moons[i].vz + g.2;
                SimMoon {
                    px: moons[i].px + vx,
                    py: moons[i].py + vy,
                    pz: moons[i].pz + vz,
                    vx,
                    vy,
                    vz,
                }
            },
    )
}

pub open spec fn sim_steps(moons: Seq<SimMoon>, n: nat) -> Seq<SimMoon>
    decreases n,
{
    if n == 0 {
        moons
    } else {
        sim_step(sim_steps(moons, (n - 1) as nat))
    }
}

/// A moon's energies: positional and kinetic magnitude, and their
/// product.
pub open spec fn spec_potential(m: SimMoon) -> int {
    abs1(m.px) + abs1(m.py) + abs1(m.pz)
}

pub open spec fn spec_kinetic(m: SimMoon) -> int {
    abs1(m.vx) + abs1(m.vy) + abs1(m.vz)
}

pub open spec fn spec_total(m: SimMoon) -> int {
    spec_potential(m) * spec_kinetic(m)
}

pub open spec fn sum_total(moons: Seq<SimMoon>) -> int
    decreases moons.len(),
{
    if moons.len() == 0 {
        0
    } else {
        sum_total(moons.drop_last()) + spec_total(moons.last())
    }
}

/// Every component fits the 32-bit range.
pub open spec fn fits32(m: SimMoon) -> bool {
    &&& i32::MIN <= m.px <= i32::MAX
    &&& i32::MIN <= m.py <= i32::MAX
    &&& i32::MIN <= m.pz <= i32::MAX
    &&& i32::MIN <= m.vx <= i32::MAX
    &&& i32::MIN <= m.vy <= i32::MAX
    &&& i32::MIN <= m.vz <= i32::MAX
}

/// Every component sits at least one round of gravity away from the
/// 32-bit edges.
pub open spec fn near32(m: SimMoon) -> bool {
    &&& i32::MIN + 4 <= m.px <= i32::MAX - 4
    &&& i32::MIN + 4 <= m.py <= i32::MAX - 4
    &&& i32::MIN + 4 <= m.pz <= i32::MAX - 4
    &&& i32::MIN + 4 <= m.vx <= i32::MAX - 4
    &&& i32::MIN + 4 <= m.vy <= i32::MAX - 4
    &&& i32::MIN + 4 <= m.vz <= i32::MAX - 4
}

/// A step left the 32-bit range, at the step `k` the clauses name.
pub open spec fn sim_overflow_at(mv: Seq<SimMoon>, k: nat) -> bool {
    exists|q: int|
        0 <= q < 4 && (!near32(#[trigger] sim_steps(mv, k)[q]) || !fits32(
            sim_steps(mv, (k + 1) as nat)[q],
        ))
}

/// Gravity never pulls a component by more than one per other moon.
proof fn lemma_grav_bound(moons: Seq<SimMoon>, i: int, j: int)
    requires
        0 <= j,
    ensures
        -j <= grav_upto(moons, i, j).0 <= j,
        -j <= grav_upto(moons, i, j).1 <= j,
        -j <= grav_upto(moons, i, j).2 <= j,
    decreases j,
{
    if j > 0 {
        lemma_grav_bound(moons, i, j - 1);
    }
}

/// The simulation left the 32-bit range.
#[derive(Clone, Copy, Debug, PartialEq, Eq, Structural)]
pub enum SimFault {
    Overflow,
    Stalled,
}

impl Vec3 {
    pub fn zero() -> (r: Vec3)
        ensures
            r == (Vec3 { x: 0, y: 0, z: 0 }),
    {
        Vec3 { x: 0, y: 0, z: 0 }
    }

    /// The pull another position exerts: each component one step
    /// toward the other value.
    pub fn apply_gravity(&self, other: &Vec3) -> (r: Vec3)
        ensures
            r.x as int == sign_toward(self.x as int, other.x as int),
            r.y as int == sign_toward(self.y as int, other.y as int),
            r.z as int == sign_toward(self.z as int, other.z as int),
    {
        let x: i32 = if self.x > other.x {
            -1
        } else if self.x < other.x {
            1
        } else {
            0
        };
        let y: i32 = if self.y > other.y {
            -1
        } else if self.y < other.y {
            1
        } else {
            0
        };
        let z: i32 = if self.z > other.z {
            -1
        } else if self.z < other.z {
            1
        } else {
            0
        };
        Vec3 { x, y, z }
    }
}

impl Moon {
    pub fn new(position: Vec3) -> (r: Moon)
        ensures
            r.position == position,
            r.velocity == (Vec3 { x: 0, y: 0, z: 0 }),
    {
        Moon { position, velocity: Vec3::zero() }
    }

    /// Adds the other moon's pull to this moon's velocity.
    pub fn apply_gravity(&mut self, other: &Moon) -> (r: Result<(), SimFault>)
        ensures
            match r {
                Ok(()) => {
                    &&& final(self).position == old(self).position
                    &&& final(self).velocity.x as int == old(self).velocity.x + sign_toward(
                        old(self).position.x as int,
                        other.position.x as int,
                    )
                    &&& final(self).velocity.y as int == old(self).velocity.y + sign_toward(
                        old(self).position.y as int,
                        other.position.y as int,
                    )
                    &&& final(self).velocity.z as int == old(self).velocity.z + sign_toward(
                        old(self).position.z as int,
                        other.position.z as int,
                    )
                },
                Err(f) => f == SimFault::Overflow && (old(self).velocity.x == i32::MAX || old(
                    self,
                ).velocity.x == i32::MIN || old(self).velocity.y == i32::MAX || old(
                    self,
                ).velocity.y == i32::MIN || old(self).velocity.z == i32::MAX || old(
                    self,
                ).velocity.z == i32::MIN),
            },
    {
        let d = self.position.apply_gravity(&other.position);
        let nx = match self.velocity.x.checked_add(d.x) {
            Some(v) => v,
            None => {
                return Err(SimFault::Overflow);
            },
        };
        let ny = match self.velocity.y.checked_add(d.y) {
            Some(v) => v,
            None => {
                return Err(SimFault::Overflow);
            },
        };
        let nz = match self.velocity.z.checked_add(d.z) {
            Some(v) => v,
            None => {
                return Err(SimFault::Overflow);
            },
        };
        self.velocity = Vec3 { x: nx, y: ny, z: nz };
        Ok(())
    }

    /// Carries the position by the velocity.
    pub fn step(&mut self) -> (r: Result<(), SimFault>)
        ensures
            match r {
                Ok(()) => {
                    &&& final(self).velocity == old(self).velocity
                    &&& final(self).position.x as int == old(self).position.x + old(
                        self,
                    ).velocity.x
                    &&& final(self).position.y as int == old(self).position.y + old(
                        self,
                    ).velocity.y
                    &&& final(self).position.z as int == old(self).position.z + old(
                        self,
                    ).velocity.z
                },
                Err(f) => f == SimFault::Overflow && !(i32::MIN <= old(self).position.x + old(
                    self,
                ).velocity.x <= i32::MAX && i32::MIN <= old(self).position.y + old(
                    self,
                ).velocity.y <= i32::MAX && i32::MIN <= old(self).position.z + old(
                    self,
                ).velocity.z <= i32::MAX),
            },
    {
        let nx = match self.position.x.checked_add(self.velocity.x) {
            Some(v) => v,
            None => {
                return Err(SimFault::Overflow);
            },
        };
        let ny = match self.position.y.checked_add(self.velocity.y) {
            Some(v) => v,
            None => {
                return Err(SimFault::Overflow);
            },
        };
        let nz = match self.position.z.checked_add(self.velocity.z) {
            Some(v) => v,
            None => {
                return Err(SimFault::Overflow);
            },
        };
        self.position = Vec3 { x: nx, y: ny, z: nz };
        Ok(())
    }

    /// The positional magnitude.
    pub fn get_potential_energy(&self) -> (r: i64)
        ensures
            r == spec_potential(self@),
    {
        let x: i64 = self.position.x as i64;
        let y: i64 = self.position.y as i64;
        let z: i64 = self.position.z as i64;
        (if x < 0 {
            -x
        } else {
            x
        }) + (if y < 0 {
            -y
        } else {
            y
        }) + (if z < 0 {
            -z
        } else {
            z
        })
    }

    /// The kinetic magnitude.
    pub fn get_kinetic_energy(&self) -> (r: i64)
        ensures
            r == spec_kinetic(self@),
    {
        let x: i64 = self.velocity.x as i64;
        let y: i64 = self.velocity.y as i64;
        let z: i64 = self.velocity.z as i64;
        (if x < 0 {
            -x
        } else {
            x
        }) + (if y < 0 {
            -y
        } else {
            y
        }) + (if z < 0 {
            -z
        } else {
            z
        })
    }

    /// The product of the two magnitudes.
    pub fn get_total_energy(&self) -> (r: i128)
        ensures
            r == spec_total(self@),
    {
        let p: i128 = self.get_potential_energy() as i128;
        let k: i128 = self.get_kinetic_energy() as i128;
        proof {
            assert(p * k == spec_potential(self@) * spec_kinetic(self@)) by (nonlinear_arith)
                requires
                    p == spec_potential(self@),
                    k == spec_kinetic(self@),
            ;
            assert(p * k <= 0x7000_0000_0000_0000_0000i128 && p * k
                >= -0x7000_0000_0000_0000_0000i128) by (nonlinear_arith)
                requires
                    0 <= p <= 0x2_0000_0000i128,
                    0 <= k <= 0x2_0000_0000i128,
            ;
        }
        p * k
    }
}

/// The moons' mathematical state.
pub open spec fn moons_view(moons: Seq<Moon>) -> Seq<SimMoon> {
    moons.map_values(|m: Moon| m@)
}

/// One exec gravity-and-move round over all four moons, proved equal
/// to one simultaneous mathematical step.
fn sim_round(moons: &mut Vec<Moon>) -> (r: Result<(), SimFault>)
    requires
        old(moons)@.len() == 4,
    ensures
        match r {
            Ok(()) => final(moons)@.len() == 4 && moons_view(final(moons)@) == sim_step(
                moons_view(old(moons)@),
            ),
            Err(f) => f == SimFault::Overflow && sim_overflow_at(moons_view(old(moons)@), 0nat),
        },
{
    let ghost mv0 = moons_view(moons@);
    let mut i: usize = 0;
    while i < 4
        invariant
            i <= 4,
            moons@.len() == 4,
            mv0 == moons_view(old(moons)@),
            mv0.len() == 4,
            forall|k: int|
                0 <= k < 4 ==> (#[trigger] moons@[k])@.px == mv0[k].px && moons@[k]@.py
                    == mv0[k].py && moons@[k]@.pz == mv0[k].pz,
            forall|k: int|
                i <= k < 4 ==> (#[trigger] moons@[k])@.vx == mv0[k].vx && moons@[k]@.vy
                    == mv0[k].vy && moons@[k]@.vz == mv0[k].vz,
            forall|k: int|
                0 <= k < i ==> {
                    let g = grav_upto(mv0, k, 4);
                    &&& (#[trigger] moons@[k])@.vx == mv0[k].vx + g.0
                    &&& moons@[k]@.vy == mv0[k].vy + g.1
                    &&& moons@[k]@.vz == mv0[k].vz + g.2
                },
        decreases 4 - i,
    {
        let mut moon = moons.remove(i);
        let ghost m_start = moon@;
        proof {
            assert(grav_upto(mv0, i as int, 0) == (0int, 0int, 0int));
            if i == 0 {
                assert(grav_upto(mv0, 0, 1) == (0int, 0int, 0int));
            }
        }
        let mut j: usize = 0;
        while j < 3
            invariant
                j <= 3,
                moons@.len() == 3,
                i < 4,
                mv0 == moons_view(old(moons)@),
                mv0.len() == 4,
                forall|k: int|
                    0 <= k < 3 ==> {
                        let orig = if k < i {
                            k
                        } else {
                            k + 1
                        };
                        (#[trigger] moons@[k])@.px == mv0[orig].px && moons@[k]@.py == mv0[orig].py
                            && moons@[k]@.pz == mv0[orig].pz
                    },
                moon@.px == mv0[i as int].px && moon@.py == mv0[i as int].py && moon@.pz
                    == mv0[i as int].pz,
                ({
                    let upto = if j < i {
                        j as int
                    } else {
                        j + 1
                    };
                    let g = grav_upto(mv0, i as int, upto);
                    &&& moon@.vx == mv0[i as int].vx + g.0
                    &&& moon@.vy == mv0[i as int].vy + g.1
                    &&& moon@.vz == mv0[i as int].vz + g.2
                }),
            decreases 3 - j,
        {
            let ghost upto = if j < i {
                j as int
            } else {
                j + 1
            };
            match moon.apply_gravity(&moons[j]) {
                Ok(()) => {},
                Err(f) => {
                    proof {
                        lemma_grav_bound(mv0, i as int, if j < i {
                            j as int
                        } else {
                            j + 1
                        });
                        assert(!near32(mv0[i as int]));
                        assert(sim_steps(mv0, 0nat) =~= mv0);
                        assert(!near32(sim_steps(mv0, 0nat)[i as int]));
                        assert(sim_overflow_at(mv0, 0nat));
                    }
                    return Err(f);
                },
            }
            proof {
                let orig = if (j as int) < i {
                    j as int
                } else {
                    j + 1
                };
                if (j as int) < i {
                    assert(grav_upto(mv0, i as int, orig + 1) == ({
                        let rest = grav_upto(mv0, i as int, orig);
                        (
                            rest.0 + sign_toward(mv0[i as int].px, mv0[orig].px),
                            rest.1 + sign_toward(mv0[i as int].py, mv0[orig].py),
                            rest.2 + sign_toward(mv0[i as int].pz, mv0[orig].pz),
                        )
                    }));
                    if j + 1 == i {
                        assert(grav_upto(mv0, i as int, i + 1) == grav_upto(mv0, i as int, i as int));
                    }
                } else {
                    assert(grav_upto(mv0, i as int, orig + 1) == ({
                        let rest = grav_upto(mv0, i as int, orig);
                        (
                            rest.0 + sign_toward(mv0[i as int].px, mv0[orig].px),
                            rest.1 + sign_toward(mv0[i as int].py, mv0[orig].py),
                            rest.2 + sign_toward(mv0[i as int].pz, mv0[orig].pz),
                        )
                    }));
                }
            }
            j = j + 1;
        }
        moons.insert(i, moon);
        proof {
            if i == 3 {
                assert(grav_upto(mv0, 3, 4) == grav_upto(mv0, 3, 3));
            }
        }
        i = i + 1;
    }
    // every velocity is updated; now the move
    let mut i2: usize = 0;
    while i2 < 4
        invariant
            i2 <= 4,
            moons@.len() == 4,
            mv0 == moons_view(old(moons)@),
            mv0.len() == 4,
            forall|k: int|
                i2 <= k < 4 ==> {
                    let g = grav_upto(mv0, k, 4);
                    &&& (#[trigger] moons@[k])@.px == mv0[k].px
                    &&& moons@[k]@.py == mv0[k].py
                    &&& moons@[k]@.pz == mv0[k].pz
                    &&& moons@[k]@.vx == mv0[k].vx + g.0
                    &&& moons@[k]@.vy == mv0[k].vy + g.1
                    &&& moons@[k]@.vz == mv0[k].vz + g.2
                },
            forall|k: int| 0 <= k < i2 ==> (#[trigger] moons@[k])@ == sim_step(mv0)[k],
        decreases 4 - i2,
    {
        let mut moon = moons.remove(i2);
        match moon.step() {
            Ok(()) => {},
            Err(f) => {
                proof {
                    assert(sim_steps(mv0, 0nat) =~= mv0);
                    assert(sim_steps(mv0, 1nat) == sim_step(sim_steps(mv0, 0nat)));
                    let g = grav_upto(mv0, i2 as int, 4);
                    assert(sim_step(mv0)[i2 as int].px == mv0[i2 as int].px + (mv0[i2 as int].vx
                        + g.0) && sim_step(mv0)[i2 as int].py == mv0[i2 as int].py + (mv0[i2
                        as int].vy + g.1) && sim_step(mv0)[i2 as int].pz == mv0[i2 as int].pz + (
                    mv0[i2 as int].vz + g.2));
                    assert(!fits32(sim_step(mv0)[i2 as int]));
                    assert(!near32(sim_steps(mv0, 0nat)[i2 as int]) || !fits32(
                        sim_steps(mv0, 1nat)[i2 as int],
                    ));
                    assert(sim_overflow_at(mv0, 0nat));
                }
                return Err(f);
            },
        }
        moons.insert(i2, moon);
        proof {
            assert(moons@[i2 as int]@ =~= sim_step(mv0)[i2 as int]);
        }
        i2 = i2 + 1;
    }
    proof {
        assert(moons_view(moons@) =~= sim_step(mv0));
    }
    Ok(())
}

/// Steps the four moons the given number of times and sums every
/// moon's total energy.
pub fn solve_1(moons: Vec<Moon>, steps: usize) -> (r: Result<i128, SimFault>)
    requires
        moons@.len() == 4,
    ensures
        match r {
            Ok(e) => e == sum_total(sim_steps(moons_view(moons@), steps as nat)),
            Err(f) => f == SimFault::Overflow && exists|k: nat|
                k < steps && #[trigger] sim_overflow_at(sim_steps(moons_view(moons@), k), 0nat),
        },
{
    let ghost mv0 = moons_view(moons@);
    let mut ms = moons;
    let mut k: usize = 0;
    while k < steps
        invariant
            k <= steps,
            ms@.len() == 4,
            mv0 == moons_view(moons@),
            moons_view(ms@) == sim_steps(mv0, k as nat),
        decreases steps - k,
    {
        match sim_round(&mut ms) {
            Ok(()) => {},
            Err(f) => {
                proof {
                    assert(sim_overflow_at(sim_steps(mv0, k as nat), 0nat));
                }
                return Err(f);
            },
        }
        k = k + 1;
    }
    let ghost fin = sim_steps(mv0, steps as nat);
    let mut total: i128 = 0;
    let mut q: usize = 0;
    while q < 4
        invariant
            q <= 4,
            ms@.len() == 4,
            moons_view(ms@) == fin,
            fin.len() == 4,
            total == sum_total(fin.take(q as int)),
            -(q as int) * 0x4_0000_0000_0000_0000i128 <= total <= (q as int)
                * 0x4_0000_0000_0000_0000i128,
        decreases 4 - q,
    {
        let e = ms[q].get_total_energy();
        proof {
            assert(fin.take(q + 1).drop_last() =~= fin.take(q as int));
            assert(fin.take(q + 1).last() == fin[q as int]);
            assert(ms@[q as int]@ == fin[q as int]);
            assert(spec_total(fin[q as int]) <= 0x4_0000_0000_0000_0000i128
                && spec_total(fin[q as int]) >= 0) by (nonlinear_arith)
                requires
                    0 <= spec_potential(fin[q as int]) <= 0x2_0000_0000i128,
                    0 <= spec_kinetic(fin[q as int]) <= 0x2_0000_0000i128,
            ;
        }
        total = total + e;
        q = q + 1;
    }
    proof {
        assert(fin.take(4) =~= fin);
    }
    Ok(total)
}

/// The axis states match the starting state.
pub open spec fn same_axis_x(a: Seq<SimMoon>, b: Seq<SimMoon>) -> bool {
    a.len() == b.len() && forall|k: int|
        0 <= k < a.len() ==> (#[trigger] a[k]).px == b[k].px && a[k].vx == b[k].vx
}

pub open spec fn same_axis_y(a: Seq<SimMoon>, b: Seq<SimMoon>) -> bool {
    a.len() == b.len() && forall|k: int|
        0 <= k < a.len() ==> (#[trigger] a[k]).py == b[k].py && a[k].vy == b[k].vy
}

pub open spec fn same_axis_z(a: Seq<SimMoon>, b: Seq<SimMoon>) -> bool {
    a.len() == b.len() && forall|k: int|
        0 <= k < a.len() ==> (#[trigger] a[k]).pz == b[k].pz && a[k].vz == b[k].vz
}

/// `n` is the first step count at which the axis state returns.
pub open spec fn first_axis_period_x(mv0: Seq<SimMoon>, n: nat) -> bool {
    &&& n >= 1
    &&& same_axis_x(sim_steps(mv0, n), mv0)
    &&& forall|m: nat| 1 <= m < n ==> !same_axis_x(#[trigger] sim_steps(mv0, m), mv0)
}

pub open spec fn first_axis_period_y(mv0: Seq<SimMoon>, n: nat) -> bool {
    &&& n >= 1
    &&& same_axis_y(sim_steps(mv0, n), mv0)
    &&& forall|m: nat| 1 <= m < n ==> !same_axis_y(#[trigger] sim_steps(mv0, m), mv0)
}

pub open spec fn first_axis_period_z(mv0: Seq<SimMoon>, n: nat) -> bool {
    &&& n >= 1
    &&& same_axis_z(sim_steps(mv0, n), mv0)
    &&& forall|m: nat| 1 <= m < n ==> !same_axis_z(#[trigger] sim_steps(mv0, m), mv0)
}

/// Compares one axis of every moon against the start.
fn axis_matches(ms: &Vec<Moon>, initial: &Vec<Moon>, axis: u8) -> (r: bool)
    requires
        ms@.len() == 4,
        initial@.len() == 4,
        axis == 0 || axis == 1 || axis == 2,
    ensures
        axis == 0 ==> r == same_axis_x(moons_view(ms@), moons_view(initial@)),
        axis == 1 ==> r == same_axis_y(moons_view(ms@), moons_view(initial@)),
        axis == 2 ==> r == same_axis_z(moons_view(ms@), moons_view(initial@)),
{
    let mut k: usize = 0;
    let mut same: bool = true;
    while k < 4
        invariant
            k <= 4,
            ms@.len() == 4,
            initial@.len() == 4,
            axis == 0 || axis == 1 || axis == 2,
            axis == 0 ==> same == (forall|q: int|
                0 <= q < k ==> (#[trigger] moons_view(ms@)[q]).px == moons_view(initial@)[q].px
                    && moons_view(ms@)[q].vx == moons_view(initial@)[q].vx),
            axis == 1 ==> same == (forall|q: int|
                0 <= q < k ==> (#[trigger] moons_view(ms@)[q]).py == moons_view(initial@)[q].py
                    && moons_view(ms@)[q].vy == moons_view(initial@)[q].vy),
            axis == 2 ==> same == (forall|q: int|
                0 <= q < k ==> (#[trigger] moons_view(ms@)[q]).pz == moons_view(initial@)[q].pz
                    && moons_view(ms@)[q].vz == moons_view(initial@)[q].vz),
        decreases 4 - k,
    {
        let a = &ms[k];
        let b = &initial[k];
        let differs: bool = if axis == 0 {
            a.position.x != b.position.x || a.velocity.x != b.velocity.x
        } else if axis == 1 {
            a.position.y != b.position.y || a.velocity.y != b.velocity.y
        } else {
            a.position.z != b.position.z || a.velocity.z != b.velocity.z
        };
        if differs {
            same = false;
        }
        proof {
            assert(moons_view(ms@)[k as int] == ms@[k as int]@);
            assert(moons_view(initial@)[k as int] == initial@[k as int]@);
        }
        k = k + 1;
    }
    same
}

/// Runs one axis search: the least positive step count after which
/// the axis state returns to the start.
fn find_axis_period(initial: &Vec<Moon>, axis: u8) -> (r: Result<u64, SimFault>)
    requires
        initial@.len() == 4,
        axis == 0 || axis == 1 || axis == 2,
    ensures
        match r {
            Ok(n) => {
                &&& axis == 0 ==> first_axis_period_x(moons_view(initial@), n as nat)
                &&& axis == 1 ==> first_axis_period_y(moons_view(initial@), n as nat)
                &&& axis == 2 ==> first_axis_period_z(moons_view(initial@), n as nat)
            },
            Err(f) => match f {
                SimFault::Overflow => exists|k: nat|
                    #[trigger] sim_overflow_at(sim_steps(moons_view(initial@), k), 0nat),
                SimFault::Stalled => {
                    &&& axis == 0 ==> forall|m: nat|
                        1 <= m <= u64::MAX - 2 ==> !same_axis_x(
                            #[trigger] sim_steps(moons_view(initial@), m),
                            moons_view(initial@),
                        )
                    &&& axis == 1 ==> forall|m: nat|
                        1 <= m <= u64::MAX - 2 ==> !same_axis_y(
                            #[trigger] sim_steps(moons_view(initial@), m),
                            moons_view(initial@),
                        )
                    &&& axis == 2 ==> forall|m: nat|
                        1 <= m <= u64::MAX - 2 ==> !same_axis_z(
                            #[trigger] sim_steps(moons_view(initial@), m),
                            moons_view(initial@),
                        )
                },
            },
        },
{
    let ghost mv0 = moons_view(initial@);
    let mut ms = initial.clone();
    proof {
        assert(moons_view(ms@) =~= mv0);
    }
    let mut count: u64 = 0;
    loop
        invariant
            initial@.len() == 4,
            ms@.len() == 4,
            axis == 0 || axis == 1 || axis == 2,
            mv0 == moons_view(initial@),
            moons_view(ms@) == sim_steps(mv0, count as nat),
            count <= u64::MAX - 2,
            axis == 0 ==> forall|m: nat|
                1 <= m <= count ==> !same_axis_x(#[trigger] sim_steps(mv0, m), mv0),
            axis == 1 ==> forall|m: nat|
                1 <= m <= count ==> !same_axis_y(#[trigger] sim_steps(mv0, m), mv0),
            axis == 2 ==> forall|m: nat|
                1 <= m <= count ==> !same_axis_z(#[trigger] sim_steps(mv0, m), mv0),
        decreases u64::MAX - count,
    {
        if count >= u64::MAX - 2 {
            return Err(SimFault::Stalled);
        }
        match sim_round(&mut ms) {
            Ok(()) => {},
            Err(f) => {
                proof {
                    assert(sim_overflow_at(sim_steps(mv0, count as nat), 0nat));
                }
                return Err(f);
            },
        }
        count = count + 1;
        let same = axis_matches(&ms, initial, axis);
        if same {
            return Ok(count);
        }
    }
}

/// Finds each axis's first period and combines them with the halving
/// product `x / 2 * y / 2 * z / 2`.
pub fn solve_2(moons: Vec<Moon>) -> (r: Result<u64, SimFault>)
    requires
        moons@.len() == 4,
    ensures
        match r {
            Ok(v) => exists|nx: nat, ny: nat, nz: nat|
                {
                    &&& #[trigger] first_axis_period_x(moons_view(moons@), nx)
                    &&& #[trigger] first_axis_period_y(moons_view(moons@), ny)
                    &&& #[trigger] first_axis_period_z(moons_view(moons@), nz)
                    &&& v == nx as int / 2 * ny / 2 * nz / 2
                },
            Err(f) => match f {
                SimFault::Overflow => (exists|k: nat|
                    #[trigger] sim_overflow_at(sim_steps(moons_view(moons@), k), 0nat)) || (exists|
                    nx: nat,
                    ny: nat,
                |
                    #[trigger] first_axis_period_x(moons_view(moons@), nx)
                        && #[trigger] first_axis_period_y(moons_view(moons@), ny) && nx as int / 2
                        * ny > u64::MAX) || (exists|nx: nat, ny: nat, nz: nat|
                    #[trigger] first_axis_period_x(moons_view(moons@), nx)
                        && #[trigger] first_axis_period_y(moons_view(moons@), ny)
                        && #[trigger] first_axis_period_z(moons_view(moons@), nz) && nx as int / 2
                        * ny / 2 * nz > u64::MAX),
                SimFault::Stalled => (forall|m: nat|
                    1 <= m <= u64::MAX - 2 ==> !same_axis_x(
                        #[trigger] sim_steps(moons_view(moons@), m),
                        moons_view(moons@),
                    )) || (forall|m: nat|
                    1 <= m <= u64::MAX - 2 ==> !same_axis_y(
                        #[trigger] sim_steps(moons_view(moons@), m),
                        moons_view(moons@),
                    )) || (forall|m: nat|
                    1 <= m <= u64::MAX - 2 ==> !same_axis_z(
                        #[trigger] sim_steps(moons_view(moons@), m),
                        moons_view(moons@),
                    )),
            },
        },
{
    let x = match find_axis_period(&moons, 0) {
        Ok(n) => n,
        Err(f) => {
            return Err(f);
        },
    };
    let y = match find_axis_period(&moons, 1) {
        Ok(n) => n,
        Err(f) => {
            return Err(f);
        },
    };
    let z = match find_axis_period(&moons, 2) {
        Ok(n) => n,
        Err(f) => {
            return Err(f);
        },
    };
    let a: u64 = x / 2;
    let b: u64 = match a.checked_mul(y) {
        Some(v) => v,
        None => {
            proof {
                assert(first_axis_period_x(moons_view(moons@), x as nat) && first_axis_period_y(
                    moons_view(moons@),
                    y as nat,
                ) && (x as nat) as int / 2 * (y as nat) > u64::MAX);
            }
            return Err(SimFault::Overflow);
        },
    };
    let c: u64 = b / 2;
    let d: u64 = match c.checked_mul(z) {
        Some(v) => v,
        None => {
            proof {
                assert(first_axis_period_x(moons_view(moons@), x as nat) && first_axis_period_y(
                    moons_view(moons@),
                    y as nat,
                ) && first_axis_period_z(moons_view(moons@), z as nat) && (x as nat) as int / 2 * (
                y as nat) / 2 * (z as nat) > u64::MAX);
            }
            return Err(SimFault::Overflow);
        },
    };
    let v: u64 = d / 2;
    proof {
        assert(v == x as int / 2 * y / 2 * z / 2);
    }
    Ok(v)
}

/// Builds the moons from the flat coordinate triples.
pub fn parse_input(numbers: Vec<i64>) -> (r: Vec<Moon>)
    requires
        numbers@.len() % 3 == 0,
        forall|k: int|
            0 <= k < numbers@.len() ==> i32::MIN <= #[trigger] numbers@[k] <= i32::MAX,
    ensures
        r@.len() * 3 == numbers@.len(),
        forall|k: int|
            0 <= k < r@.len() ==> {
                &&& (#[trigger] r@[k]).position.x == numbers@[3 * k]
                &&& r@[k].position.y == numbers@[3 * k + 1]
                &&& r@[k].position.z == numbers@[3 * k + 2]
                &&& r@[k].velocity == (Vec3 { x: 0, y: 0, z: 0 })
            },
{
    let mut r: Vec<Moon> = Vec::new();
    let mut i: usize = 0;
    while i < numbers.len()
        invariant
            i <= numbers@.len(),
            i % 3 == 0,
            numbers@.len() % 3 == 0,
            i == 3 * r@.len(),
            forall|k: int|
                0 <= k < numbers@.len() ==> i32::MIN <= #[trigger] numbers@[k] <= i32::MAX,
            forall|k: int|
                0 <= k < r@.len() ==> {
                    &&& (#[trigger] r@[k]).position.x == numbers@[3 * k]
                    &&& r@[k].position.y == numbers@[3 * k + 1]
                    &&& r@[k].position.z == numbers@[3 * k + 2]
                    &&& r@[k].velocity == (Vec3 { x: 0, y: 0, z: 0 })
                },
        decreases numbers@.len() - i,
    {
        proof {
            assert(numbers@.len() - i >= 3);
        }
        let v = Vec3 {
            x: numbers[i] as i32,
            y: numbers[i + 1] as i32,
            z: numbers[i + 2] as i32,
        };
        r.push(Moon::new(v));
        i = i + 3;
    }
    proof {
        assert(i == numbers@.len());
    }
    r
}

/// The first position at or after `i` where the four bytes stand.
pub open spec fn find_sep(s: Seq<u8>, c0: u8, c1: u8, c2: u8, c3: u8, i: int) -> int
    decreases s.len() - i,
{
    if i < 0 || i + 4 > s.len() {
        s.len() as int
    } else if s[i] == c0 && s[i + 1] == c1 && s[i + 2] == c2 && s[i + 3] == c3 {
        i
    } else {
        find_sep(s, c0, c1, c2, c3, i + 1)
    }
}

/// What one line of the coordinate format means: a line shaped
/// `<x=A, y=B, z=C>` (separators matched at their first occurrence)
/// carries its three numbers; a line of any other shape is passed
/// over; a shaped line whose number does not parse rejects the text.
pub open spec fn moon_line_value(line: Seq<u8>) -> Option<Seq<i64>> {
    if line.len() < 4 || line[0] != 60 || line[1] != 120 || line[2] != 61 || line.last() != 62 {
        Some(Seq::<i64>::empty())
    } else {
        let body = line.subrange(3, line.len() - 1);
        let ysep = find_sep(body, 44, 32, 121, 61, 0);
        if ysep >= body.len() {
            Some(Seq::<i64>::empty())
        } else {
            let a = body.take(ysep);
            let rest = body.skip(ysep + 4);
            let zsep = find_sep(rest, 44, 32, 122, 61, 0);
            if zsep >= rest.len() {
                Some(Seq::<i64>::empty())
            } else {
                let b = rest.take(zsep);
                let c = rest.skip(zsep + 4);
                match (token_value(a), token_value(b), token_value(c)) {
                    (Some(x), Some(y), Some(z)) => Some(seq![x, y, z]),
                    _ => None,
                }
            }
        }
    }
}

/// The flat coordinate list of a whole text, line by line.
pub open spec fn parse_moons_spec(s: Seq<u8>) -> Option<Seq<i64>>
    decreases s.len(),
{
    if !(exists|i: int| 0 <= i < s.len() && s[i] == 10) {
        moon_line_value(s)
    } else {
        let c = moon_nl(s, 0);
        if 0 <= c < s.len() {
            match moon_line_value(s.take(c)) {
                Some(v) => {
                    match parse_moons_spec(s.skip(c + 1)) {
                        Some(rest) => Some(v + rest),
                        None => None,
                    }
                },
                None => None,
            }
        } else {
            None
        }
    }
}

/// The position of the first line break at or after `i`.
pub open spec fn moon_nl(s: Seq<u8>, i: int) -> int
    decreases s.len() - i,
{
    if i >= s.len() {
        i
    } else if s[i] == 10 {
        i
    } else {
        moon_nl(s, i + 1)
    }
}

/// Reads the coordinate-line format: each line shaped `<x=A, y=B,
/// z=C>` contributes its three numbers in order, other lines are
/// passed over, and a shaped line with a bad number rejects the text.
pub fn parse_moon_text(bytes: &Vec<u8>) -> (r: Result<Vec<i64>, LoadFault>)
    ensures
        match r {
            Ok(v) => parse_moons_spec(bytes@) == Some(v@),
            Err(_) => parse_moons_spec(bytes@) is None,
        },
{
    let hi: usize = bytes.len();
    let mut out: Vec<i64> = Vec::new();
    let mut start: usize = 0;
    proof {
        assert(bytes@.subrange(0, hi as int) =~= bytes@);
        if parse_moons_spec(bytes@) is Some {
            assert(Seq::<i64>::empty() + parse_moons_spec(bytes@).unwrap() =~= parse_moons_spec(
                bytes@,
            ).unwrap());
        }
    }
    loop
        invariant
            start <= hi == bytes@.len(),
            start == 0 || bytes@[start as int - 1] == 10,
            parse_moons_spec(bytes@) == (match parse_moons_spec(
                bytes@.subrange(start as int, hi as int),
            ) {
                Some(rest) => Some(out@ + rest),
                None => None::<Seq<i64>>,
            }),
        decreases hi - start,
    {
        let mut end: usize = start;
        while end < hi && bytes[end] != 10
            invariant
                start <= end <= hi <= bytes@.len(),
                forall|q: int| start <= q < end ==> bytes@[q] != 10,
            decreases hi - end,
        {
            end = end + 1;
        }
        let ghost seg = bytes@.subrange(start as int, hi as int);
        let ghost line = bytes@.subrange(start as int, end as int);
        let ghost out_pre = out@;
        let triple = match parse_moon_line(bytes, start, end) {
            Ok(t) => t,
            Err(f) => {
                proof {
                    lemma_moon_split(bytes@, start as int, end as int, hi as int);
                }
                return Err(f);
            },
        };
        match triple {
            Some((x, y, z)) => {
                out.push(x);
                out.push(y);
                out.push(z);
                proof {
                    assert(out@ =~= out_pre + seq![x, y, z]);
                }
            },
            None => {
                proof {
                    assert(out@ =~= out_pre + Seq::<i64>::empty());
                }
            },
        }
        proof {
            lemma_moon_split(bytes@, start as int, end as int, hi as int);
        }
        if end == hi {
            proof {
                let lv = moon_line_value(line);
                assert(lv is Some);
                assert(out_pre + lv.unwrap() =~= out@);
            }
            return Ok(out);
        }
        proof {
            let rest_seg = bytes@.subrange(end + 1, hi as int);
            if parse_moons_spec(rest_seg) is Some {
                assert(out_pre + (moon_line_value(line).unwrap() + parse_moons_spec(
                    rest_seg,
                ).unwrap()) =~= out@ + parse_moons_spec(rest_seg).unwrap());
            }
        }
        start = end + 1;
    }
}

/// Splitting the remaining text at its first line break matches the
/// specification's recursion.
proof fn lemma_moon_split(bytes: Seq<u8>, start: int, end: int, hi: int)
    requires
        0 <= start <= end <= hi <= bytes.len(),
        forall|q: int| start <= q < end ==> bytes[q] != 10,
        end < hi ==> bytes[end] == 10,
    ensures
        end == hi ==> !(exists|i: int|
            0 <= i < bytes.subrange(start, hi).len() && bytes.subrange(start, hi)[i] == 10)
            && moon_line_value(bytes.subrange(start, hi)) == moon_line_value(
            bytes.subrange(start, end),
        ),
        end < hi ==> (exists|i: int|
            0 <= i < bytes.subrange(start, hi).len() && bytes.subrange(start, hi)[i] == 10)
            && moon_nl(bytes.subrange(start, hi), 0) == end - start && bytes.subrange(
            start,
            hi,
        ).take(end - start) =~= bytes.subrange(start, end) && bytes.subrange(start, hi).skip(
            end - start + 1,
        ) =~= bytes.subrange(end + 1, hi),
{
    let seg = bytes.subrange(start, hi);
    if end == hi {
        assert(forall|i: int| 0 <= i < seg.len() ==> seg[i] == bytes[start + i] && seg[i] != 10);
        assert(bytes.subrange(start, hi) =~= bytes.subrange(start, end));
    } else {
        assert(seg[end - start] == 10);
        lemma_moon_nl(seg, 0, end - start);
        assert(seg.take(end - start) =~= bytes.subrange(start, end));
        assert(seg.skip(end - start + 1) =~= bytes.subrange(end + 1, hi));
    }
}

proof fn lemma_moon_nl(s: Seq<u8>, i: int, c: int)
    requires
        0 <= i <= c < s.len(),
        s[c] == 10,
        forall|q: int| i <= q < c ==> s[q] != 10,
    ensures
        moon_nl(s, i) == c,
    decreases c - i,
{
    if i < c {
        lemma_moon_nl(s, i + 1, c);
    }
}

/// The separator position is the text's end, or a real match with
/// room for all four bytes.
proof fn lemma_find_sep_props(s: Seq<u8>, c0: u8, c1: u8, c2: u8, c3: u8, i: int)
    requires
        0 <= i,
    ensures
        ({
            let f = find_sep(s, c0, c1, c2, c3, i);
            f == s.len() || (i <= f && f + 4 <= s.len() && s[f] == c0 && s[f + 1] == c1 && s[f + 2]
                == c2 && s[f + 3] == c3)
        }),
    decreases s.len() - i,
{
    if i + 4 <= s.len() && !(s[i] == c0 && s[i + 1] == c1 && s[i + 2] == c2 && s[i + 3] == c3) {
        lemma_find_sep_props(s, c0, c1, c2, c3, i + 1);
    }
}

/// Finds the four-byte separator, first occurrence, within
/// `bytes[lo..hi]`.
fn find_sep_exec(bytes: &Vec<u8>, lo: usize, hi: usize, c0: u8, c1: u8, c2: u8, c3: u8) -> (r:
    usize)
    requires
        lo <= hi <= bytes@.len(),
    ensures
        lo <= r <= hi,
        r == hi ==> find_sep(bytes@.subrange(lo as int, hi as int), c0, c1, c2, c3, 0) == hi - lo,
        r < hi ==> find_sep(bytes@.subrange(lo as int, hi as int), c0, c1, c2, c3, 0) == r - lo,
{
    let ghost body = bytes@.subrange(lo as int, hi as int);
    let mut j: usize = lo;
    while j < hi && hi - j >= 4
        invariant
            lo <= j <= hi <= bytes@.len(),
            body == bytes@.subrange(lo as int, hi as int),
            find_sep(body, c0, c1, c2, c3, 0) == find_sep(body, c0, c1, c2, c3, j - lo),
        decreases hi - j,
    {
        if bytes[j] == c0 && bytes[j + 1] == c1 && bytes[j + 2] == c2 && bytes[j + 3] == c3 {
            proof {
                assert(body[j - lo] == c0 && body[j - lo + 1] == c1 && body[j - lo + 2] == c2
                    && body[j - lo + 3] == c3);
                assert(find_sep(body, c0, c1, c2, c3, j - lo) == j - lo);
            }
            return j;
        }
        proof {
            assert(find_sep(body, c0, c1, c2, c3, j - lo) == find_sep(
                body,
                c0,
                c1,
                c2,
                c3,
                j - lo + 1,
            ));
        }
        j = j + 1;
    }
    proof {
        assert(find_sep(body, c0, c1, c2, c3, j - lo) == body.len());
    }
    hi
}

/// Reads one line: its three numbers when it has the coordinate
/// shape, nothing when it has another shape, an error when a number
/// is bad.
fn parse_moon_line(bytes: &Vec<u8>, start: usize, end: usize) -> (r: Result<
    Option<(i64, i64, i64)>,
    LoadFault,
>)
    requires
        start <= end <= bytes@.len(),
    ensures
        match r {
            Ok(Some((x, y, z))) => moon_line_value(bytes@.subrange(start as int, end as int))
                == Some(seq![x, y, z]),
            Ok(None) => moon_line_value(bytes@.subrange(start as int, end as int)) == Some(
                Seq::<i64>::empty(),
            ),
            Err(_) => moon_line_value(bytes@.subrange(start as int, end as int)) is None,
        },
{
    let ghost line = bytes@.subrange(start as int, end as int);
    if end - start < 4 || bytes[start] != 60 || bytes[start + 1] != 120 || bytes[start + 2] != 61
        || bytes[end - 1] != 62 {
        return Ok(None);
    }
    let blo: usize = start + 3;
    let bhi: usize = end - 1;
    let ghost body = bytes@.subrange(blo as int, bhi as int);
    proof {
        assert(line.subrange(3, line.len() - 1) =~= body);
    }
    let ysep = find_sep_exec(bytes, blo, bhi, 44, 32, 121, 61);
    if ysep == bhi {
        proof {
            assert(find_sep(body, 44, 32, 121, 61, 0) >= body.len());
        }
        return Ok(None);
    }
    proof {
        assert(find_sep(body, 44, 32, 121, 61, 0) == ysep - blo);
        lemma_find_sep_props(body, 44, 32, 121, 61, 0);
        assert(ysep + 4 <= bhi);
        assert(body.take(ysep as int - blo) =~= bytes@.subrange(blo as int, ysep as int));
        assert(body.skip(ysep as int - blo + 4) =~= bytes@.subrange(ysep + 4, bhi as int));
    }
    let rlo: usize = ysep + 4;
    let ghost rest = bytes@.subrange(rlo as int, bhi as int);
    let zsep = find_sep_exec(bytes, rlo, bhi, 44, 32, 122, 61);
    if zsep == bhi {
        proof {
            assert(find_sep(rest, 44, 32, 122, 61, 0) >= rest.len());
        }
        return Ok(None);
    }
    proof {
        assert(find_sep(rest, 44, 32, 122, 61, 0) == zsep - rlo);
        lemma_find_sep_props(rest, 44, 32, 122, 61, 0);
        assert(zsep + 4 <= bhi);
        assert(rest.take(zsep as int - rlo) =~= bytes@.subrange(rlo as int, zsep as int));
        assert(rest.skip(zsep as int - rlo + 4) =~= bytes@.subrange(zsep + 4, bhi as int));
    }
    let x = match parse_token(bytes, blo, ysep) {
        Ok(v) => v,
        Err(f) => {
            return Err(f);
        },
    };
    let y = match parse_token(bytes, rlo, zsep) {
        Ok(v) => v,
        Err(f) => {
            return Err(f);
        },
    };
    let z = match parse_token(bytes, zsep + 4, bhi) {
        Ok(v) => v,
        Err(f) => {
            return Err(f);
        },
    };
    Ok(Some((x, y, z)))
}

} // verus!
