//! Asteroid line-of-sight: a grid of cells parsed from ASCII art,
//! sight lines reduced to lowest-term slopes, a count of visible
//! asteroids from each one, and a rotating sweep that destroys them
//! in angular order.

use vstd::prelude::*;
use core::cmp::Ordering;

verus! {

#[derive(Clone, Copy, Debug, PartialEq, Eq, Structural)]
pub enum Space {
    Empty,
    Asteroid,
}

/// A cell: its row coordinate, its column coordinate, and what it
/// holds.
#[derive(Clone, Copy, Debug)]
pub struct Point(pub i64, pub i64, pub Space);

#[derive(Clone, Copy, Debug, PartialEq, Eq, Structural)]
pub enum Quadrant {
    One,
    Two,
    Three,
    Four,
}

/// A sight line in lowest terms, with the quarter-turn it falls in.
#[derive(Clone, Copy, Debug, PartialEq, Eq)]
pub struct Slope {
    pub slope: (i64, i64),
    pub quadrant: Quadrant,
}

/// Coordinates small enough that squares and differences fit.
pub open spec fn coord_ok(v: int) -> bool {
    -0x4000_0000 <= v <= 0x4000_0000
}

/// Slope components small enough that cross products fit.
pub open spec fn slope_ok(v: int) -> bool {
    -0x8000_0000 <= v <= 0x8000_0000
}

pub open spec fn point_ok(p: Point) -> bool {
    coord_ok(p.0 as int) && coord_ok(p.1 as int)
}

pub open spec fn abs1(v: int) -> int {
    if v < 0 {
        -v
    } else {
        v
    }
}

impl Space {
    /// A hash mark is an asteroid; anything else is empty space.
    pub fn parse(c: char) -> (r: Space)
        ensures
            r == (if c == '#' {
                Space::Asteroid
            } else {
                Space::Empty
            }),
    {
        if c == '#' {
            Space::Asteroid
        } else {
            Space::Empty
        }
    }
}

impl Point {
    /// The squared distance from the origin.
    pub fn norm_squared(&self) -> (r: i64)
        requires
            point_ok(*self),
        ensures
            r == self.0 * self.0 + self.1 * self.1,
    {
        proof {
            assert(self.0 * self.0 <= 0x4000_0000i64 * 0x4000_0000i64 && self.0 * self.0 >= 0)
                by (nonlinear_arith)
                requires
                    coord_ok(self.0 as int),
            ;
            assert(self.1 * self.1 <= 0x4000_0000i64 * 0x4000_0000i64 && self.1 * self.1 >= 0)
                by (nonlinear_arith)
                requires
                    coord_ok(self.1 as int),
            ;
        }
        self.0 * self.0 + self.1 * self.1
    }
}

/// `g` is the greatest common divisor of the magnitudes of `a` and
/// `b`.
pub open spec fn is_gcd(a: int, b: int, g: int) -> bool {
    &&& g >= 1
    &&& abs1(a) % g == 0
    &&& abs1(b) % g == 0
    &&& forall|d: int| d > g ==> !(abs1(a) % d == 0 && #[trigger] (abs1(b) % d) == 0)
}

/// The two values in ascending order.
pub fn order(a: i64, b: i64) -> (r: (i64, i64))
    ensures
        r == (if a > b {
            (b, a)
        } else {
            (a, b)
        }),
{
    if a > b {
        (b, a)
    } else {
        (a, b)
    }
}

/// The positive divisors of `x`, ascending.
pub fn get_divisors_iter(x: i64) -> (r: Vec<i64>)
    requires
        0 <= x < i64::MAX,
    ensures
        forall|k: int| 0 <= k < r@.len() ==> 1 <= #[trigger] r@[k] <= x && x % r@[k] == 0,
        forall|d: i64| 1 <= d <= x && x as int % (d as int) == 0 ==> r@.contains(d),
        forall|k1: int, k2: int| 0 <= k1 < k2 < r@.len() ==> r@[k1] < r@[k2],
{
    let mut r: Vec<i64> = Vec::new();
    let mut d: i64 = 1;
    while d <= x
        invariant
            1 <= d <= x + 1,
            0 <= x < i64::MAX,
            forall|k: int| 0 <= k < r@.len() ==> 1 <= #[trigger] r@[k] < d && x % r@[k] == 0,
            forall|e: i64| 1 <= e < d && x as int % (e as int) == 0 ==> r@.contains(e),
            forall|k1: int, k2: int| 0 <= k1 < k2 < r@.len() ==> r@[k1] < r@[k2],
        decreases x + 1 - d,
    {
        let ghost r_pre = r@;
        if x % d == 0 {
            r.push(d);
        }
        proof {
            assert forall|e: i64|
                1 <= e < d + 1 && x as int % (e as int) == 0 implies r@.contains(e) by {
                if e == d {
                    assert(r@.last() == d);
                } else {
                    assert(r_pre.contains(e));
                    let k = choose|k: int| 0 <= k < r_pre.len() && r_pre[k] == e;
                    assert(r@[k] == e);
                }
            }
        }
        d = d + 1;
    }
    r
}

/// The greatest common divisor of the two magnitudes, found by
/// scanning the first magnitude's divisors downward for one that also
/// divides the second value.
pub fn gcd(a: i64, b: i64) -> (r: i64)
    requires
        (if a > b {
            b
        } else {
            a
        }) != 0,
        a > i64::MIN,
        b > i64::MIN,
    ensures
        is_gcd(a as int, b as int, r as int),
{
    let pair = order(a, b);
    let lo: i64 = pair.0;
    let hi: i64 = pair.1;
    let la: i64 = if lo < 0 {
        -lo
    } else {
        lo
    };
    let lb: i64 = if hi < 0 {
        -hi
    } else {
        hi
    };
    proof {
        assert(la == abs1(a as int) || la == abs1(b as int));
        assert(la >= 1 && lb >= 0);
        assert forall|e: int|
            la < e implies !(abs1(a as int) % e == 0 && #[trigger] (abs1(b as int) % e)
            == 0) by {
            assert((la as int) % e == la as int) by (nonlinear_arith)
                requires
                    0 <= (la as int),
                    (la as int) < e,
            ;
        }
    }
    let mut d: i64 = la;
    while d >= 2
        invariant
            1 <= d <= la,
            la >= 1,
            lb >= 0,
            la == abs1(a as int) && lb == abs1(b as int) || la == abs1(b as int) && lb == abs1(
                a as int,
            ),
            forall|e: int| d < e ==> !(abs1(a as int) % e == 0 && #[trigger] (abs1(b as int) % e)
                == 0),
        decreases d,
    {
        if la % d == 0 && lb % d == 0 {
            return d;
        }
        proof {
            assert forall|e: int|
                d - 1 < e implies !(abs1(a as int) % e == 0 && #[trigger] (abs1(b as int) % e)
                == 0) by {
                if e == d {
                } else {
                    assert(e > d || e <= d - 1);
                }
            }
        }
        d = d - 1;
    }
    proof {
        assert(abs1(a as int) % 1 == 0 && abs1(b as int) % 1 == 0);
    }
    1
}

/// Whether every divisor claim of `is_gcd` pins a single value.
pub proof fn lemma_gcd_unique(a: int, b: int, g1: int, g2: int)
    requires
        is_gcd(a, b, g1),
        is_gcd(a, b, g2),
    ensures
        g1 == g2,
{
    if g1 < g2 {
        assert(!(abs1(a) % g2 == 0 && abs1(b) % g2 == 0));
    } else if g2 < g1 {
        assert(!(abs1(a) % g1 == 0 && abs1(b) % g1 == 0));
    }
}

/// What the slope of the sight line from `a` to `b` is: axis-aligned
/// lines reduce to a unit step, others to the rise and run divided by
/// their greatest common divisor.
pub open spec fn slope_spec_ok(a: Point, b: Point, r: (i64, i64)) -> bool {
    if a.0 == b.0 {
        r == (if a.1 > b.1 {
            (-1i64, 0i64)
        } else {
            (1i64, 0i64)
        })
    } else if a.1 == b.1 {
        r == (if a.0 > b.0 {
            (0i64, -1i64)
        } else {
            (0i64, 1i64)
        })
    } else {
        exists|g: int|
            {
                &&& #[trigger] is_gcd(b.1 - a.1, b.0 - a.0, g)
                &&& r.0 * g == b.1 - a.1
                &&& r.1 * g == b.0 - a.0
            }
    }
}

/// The rise and run from `a` to `b`, reduced to lowest terms.
pub fn get_slope(a: Point, b: Point) -> (r: (i64, i64))
    requires
        point_ok(a),
        point_ok(b),
    ensures
        slope_spec_ok(a, b, r),
        !(r.0 == 0 && r.1 == 0),
        slope_ok(r.0 as int),
        slope_ok(r.1 as int),
{
    if a.0 == b.0 {
        return (if a.1 > b.1 {
            -1
        } else {
            1
        }, 0);
    }
    if a.1 == b.1 {
        return (0, if a.0 > b.0 {
            -1
        } else {
            1
        });
    }
    let rise: i64 = b.1 - a.1;
    let run: i64 = b.0 - a.0;
    let g: i64 = gcd(rise, run);
    let rise_mag: i64 = if rise < 0 {
        -rise
    } else {
        rise
    };
    let run_mag: i64 = if run < 0 {
        -run
    } else {
        run
    };
    proof {
        assert(g >= 1);
        assert(rise_mag % g == 0 && run_mag % g == 0);
        vstd::arithmetic::div_mod::lemma_fundamental_div_mod(rise_mag as int, g as int);
        vstd::arithmetic::div_mod::lemma_fundamental_div_mod(run_mag as int, g as int);
        assert(rise_mag / g >= 0 && (rise_mag / g) * g == rise_mag) by (nonlinear_arith)
            requires
                g >= 1,
                rise_mag >= 0,
                rise_mag % g == 0,
                rise_mag as int == g as int * (rise_mag as int / g as int) + rise_mag as int
                    % g as int,
        ;
        assert(run_mag / g >= 0 && (run_mag / g) * g == run_mag) by (nonlinear_arith)
            requires
                g >= 1,
                run_mag >= 0,
                run_mag % g == 0,
                run_mag as int == g as int * (run_mag as int / g as int) + run_mag as int
                    % g as int,
        ;
    }
    let qr: i64 = rise_mag / g;
    let qu: i64 = run_mag / g;
    let rise_red: i64 = if rise < 0 {
        -qr
    } else {
        qr
    };
    let run_red: i64 = if run < 0 {
        -qu
    } else {
        qu
    };
    proof {
        assert(rise_red * g == rise && run_red * g == run) by (nonlinear_arith)
            requires
                qr * g == rise_mag,
                qu * g == run_mag,
                rise_red == (if rise < 0 {
                    -(qr as int)
                } else {
                    qr as int
                }),
                run_red == (if run < 0 {
                    -(qu as int)
                } else {
                    qu as int
                }),
                rise_mag == abs1(rise as int),
                run_mag == abs1(run as int),
        ;
        assert(is_gcd(b.1 - a.1, b.0 - a.0, g as int));
        assert(rise_red != 0) by (nonlinear_arith)
            requires
                rise_red * g == rise,
                rise != 0,
        ;
        assert(abs1(rise_red as int) <= abs1(rise as int) && abs1(run_red as int) <= abs1(
            run as int,
        )) by (nonlinear_arith)
            requires
                rise_red * g == rise,
                run_red * g == run,
                g >= 1,
        ;
    }
    (rise_red, run_red)
}

/// Which quarter-turn a reduced slope falls in, vertical lines leading
/// the first and third.
pub open spec fn quadrant_of(s: (i64, i64)) -> Quadrant {
    if s.1 == 0 {
        if s.0 < 0 {
            Quadrant::One
        } else {
            Quadrant::Three
        }
    } else if s.0 == 0 {
        if s.1 > 0 {
            Quadrant::Two
        } else {
            Quadrant::Four
        }
    } else if s.1 > 0 && s.0 < 0 {
        Quadrant::One
    } else if s.1 > 0 && s.0 > 0 {
        Quadrant::Two
    } else if s.1 < 0 && s.0 > 0 {
        Quadrant::Three
    } else {
        Quadrant::Four
    }
}

impl Slope {
    /// The reduced sight line from `origin` to `point`, tagged with
    /// its quarter-turn.
    pub fn new(origin: &Point, point: &Point) -> (r: Slope)
        requires
            point_ok(*origin),
            point_ok(*point),
        ensures
            slope_spec_ok(*origin, *point, r.slope),
            r.quadrant == quadrant_of(r.slope),
            !(r.slope.0 == 0 && r.slope.1 == 0),
            slope_ok(r.slope.0 as int),
            slope_ok(r.slope.1 as int),
    {
        let slope = get_slope(*origin, *point);
        let quadrant: Quadrant = if slope.1 == 0 {
            if slope.0 < 0 {
                Quadrant::One
            } else {
                Quadrant::Three
            }
        } else if slope.0 == 0 {
            if slope.1 > 0 {
                Quadrant::Two
            } else {
                Quadrant::Four
            }
        } else if slope.1 > 0 && slope.0 < 0 {
            Quadrant::One
        } else if slope.1 > 0 && slope.0 > 0 {
            Quadrant::Two
        } else if slope.1 < 0 && slope.0 > 0 {
            Quadrant::Three
        } else {
            Quadrant::Four
        };
        Slope { slope, quadrant }
    }

    /// The sweeping order: by quarter-turn, then by angle within it,
    /// vertical lines standing for the infinite slopes.
    pub fn cmp(&self, other: &Slope) -> (r: Ordering)
        requires
            slope_ok(self.slope.0 as int),
            slope_ok(self.slope.1 as int),
            slope_ok(other.slope.0 as int),
            slope_ok(other.slope.1 as int),
        ensures
            r == slope_cmp_spec(*self, *other),
    {
        let qa: u8 = quadrant_rank_exec(self.quadrant);
        let qb: u8 = quadrant_rank_exec(other.quadrant);
        if qa < qb {
            return Ordering::Less;
        }
        if qa > qb {
            return Ordering::Greater;
        }
        angle_cmp_exec(self.slope, other.slope)
    }
}

pub open spec fn quadrant_rank(q: Quadrant) -> int {
    match q {
        Quadrant::One => 0,
        Quadrant::Two => 1,
        Quadrant::Three => 2,
        Quadrant::Four => 3,
    }
}

fn quadrant_rank_exec(q: Quadrant) -> (r: u8)
    ensures
        r as int == quadrant_rank(q),
{
    match q {
        Quadrant::One => 0,
        Quadrant::Two => 1,
        Quadrant::Three => 2,
        Quadrant::Four => 3,
    }
}

/// The exact angular order of two slopes: a vertical upward line is
/// the least angle, a vertical downward line the greatest, and finite
/// slopes compare as the rationals rise over run.
pub open spec fn angle_cmp_spec(a: (i64, i64), b: (i64, i64)) -> Ordering {
    if a.1 == 0 && b.1 == 0 {
        if (a.0 < 0) == (b.0 < 0) {
            Ordering::Equal
        } else if a.0 < 0 {
            Ordering::Less
        } else {
            Ordering::Greater
        }
    } else if a.1 == 0 {
        if a.0 < 0 {
            Ordering::Less
        } else {
            Ordering::Greater
        }
    } else if b.1 == 0 {
        if b.0 < 0 {
            Ordering::Greater
        } else {
            Ordering::Less
        }
    } else {
        let lhs = a.0 * b.1;
        let rhs = b.0 * a.1;
        let flip = (a.1 < 0) != (b.1 < 0);
        if lhs == rhs {
            Ordering::Equal
        } else if (lhs < rhs) != flip {
            Ordering::Less
        } else {
            Ordering::Greater
        }
    }
}

pub open spec fn slope_cmp_spec(a: Slope, b: Slope) -> Ordering {
    if quadrant_rank(a.quadrant) < quadrant_rank(b.quadrant) {
        Ordering::Less
    } else if quadrant_rank(a.quadrant) > quadrant_rank(b.quadrant) {
        Ordering::Greater
    } else {
        angle_cmp_spec(a.slope, b.slope)
    }
}

fn angle_cmp_exec(a: (i64, i64), b: (i64, i64)) -> (r: Ordering)
    requires
        slope_ok(a.0 as int),
        slope_ok(a.1 as int),
        slope_ok(b.0 as int),
        slope_ok(b.1 as int),
    ensures
        r == angle_cmp_spec(a, b),
{
    if a.1 == 0 && b.1 == 0 {
        if (a.0 < 0) == (b.0 < 0) {
            Ordering::Equal
        } else if a.0 < 0 {
            Ordering::Less
        } else {
            Ordering::Greater
        }
    } else if a.1 == 0 {
        if a.0 < 0 {
            Ordering::Less
        } else {
            Ordering::Greater
        }
    } else if b.1 == 0 {
        if b.0 < 0 {
            Ordering::Greater
        } else {
            Ordering::Less
        }
    } else {
        proof {
            assert(a.0 * b.1 <= 0x8000_0000i64 * 0x8000_0000i64 && a.0 * b.1 >= -(0x8000_0000i64
                * 0x8000_0000i64)) by (nonlinear_arith)
                requires
                    slope_ok(a.0 as int),
                    slope_ok(b.1 as int),
            ;
            assert(b.0 * a.1 <= 0x8000_0000i64 * 0x8000_0000i64 && b.0 * a.1 >= -(0x8000_0000i64
                * 0x8000_0000i64)) by (nonlinear_arith)
                requires
                    slope_ok(b.0 as int),
                    slope_ok(a.1 as int),
            ;
        }
        let lhs: i64 = a.0 * b.1;
        let rhs: i64 = b.0 * a.1;
        let flip: bool = (a.1 < 0) != (b.1 < 0);
        if lhs == rhs {
            Ordering::Equal
        } else if (lhs < rhs) != flip {
            Ordering::Less
        } else {
            Ordering::Greater
        }
    }
}

/// The largest row and column coordinate of the cell list, never
/// below zero.
pub open spec fn bounds_fold(s: Seq<Point>) -> (int, int)
    decreases s.len(),
{
    if s.len() == 0 {
        (0, 0)
    } else {
        let rest = bounds_fold(s.drop_last());
        (
            if s.last().0 > rest.0 {
                s.last().0 as int
            } else {
                rest.0
            },
            if s.last().1 > rest.1 {
                s.last().1 as int
            } else {
                rest.1
            },
        )
    }
}

/// The largest row and column coordinate of the map.
pub fn get_bounds(map: &Vec<Point>) -> (r: (i64, i64))
    ensures
        r.0 == bounds_fold(map@).0,
        r.1 == bounds_fold(map@).1,
{
    let mut row: i64 = 0;
    let mut col: i64 = 0;
    let mut i: usize = 0;
    while i < map.len()
        invariant
            i <= map@.len(),
            row == bounds_fold(map@.take(i as int)).0,
            col == bounds_fold(map@.take(i as int)).1,
        decreases map@.len() - i,
    {
        proof {
            assert(map@.take(i + 1).drop_last() =~= map@.take(i as int));
            assert(map@.take(i + 1).last() == map@[i as int]);
        }
        let p = map[i];
        if p.0 > row {
            row = p.0;
        }
        if p.1 > col {
            col = p.1;
        }
        i = i + 1;
    }
    proof {
        assert(map@.take(map@.len() as int) =~= map@);
    }
    (row, col)
}

/// The cells that hold asteroids, in map order.
pub open spec fn asteroids_of(s: Seq<Point>) -> Seq<Point>
    decreases s.len(),
{
    if s.len() == 0 {
        Seq::<Point>::empty()
    } else {
        let rest = asteroids_of(s.drop_last());
        if s.last().2 == Space::Asteroid {
            rest.push(s.last())
        } else {
            rest
        }
    }
}

/// The asteroids of the map, in map order.
pub fn get_asteroids(map: &Vec<Point>) -> (r: Vec<Point>)
    ensures
        r@ == asteroids_of(map@),
{
    let mut r: Vec<Point> = Vec::new();
    let mut i: usize = 0;
    while i < map.len()
        invariant
            i <= map@.len(),
            r@ == asteroids_of(map@.take(i as int)),
        decreases map@.len() - i,
    {
        proof {
            assert(map@.take(i + 1).drop_last() =~= map@.take(i as int));
            assert(map@.take(i + 1).last() == map@[i as int]);
        }
        let p = map[i];
        match p.2 {
            Space::Asteroid => {
                r.push(p);
            },
            Space::Empty => {},
        }
        i = i + 1;
    }
    proof {
        assert(map@.take(map@.len() as int) =~= map@);
    }
    r
}

/// The grid a cell list indexes into: every listed cell written at
/// its coordinates, later entries over earlier ones.
pub open spec fn grid_write(grid: Seq<Seq<Space>>, s: Seq<Point>) -> Seq<Seq<Space>>
    decreases s.len(),
{
    if s.len() == 0 {
        grid
    } else {
        let g = grid_write(grid, s.drop_last());
        let p = s.last();
        g.update(p.0 as int, g[p.0 as int].update(p.1 as int, p.2))
    }
}

/// An indexed grid of the map: a rectangle out to the bounds, empty
/// except where the list writes.
pub fn index_map(map: &Vec<Point>) -> (r: Vec<Vec<Space>>)
    requires
        forall|k: int|
            0 <= k < map@.len() ==> 0 <= (#[trigger] map@[k]).0 && 0 <= map@[k].1 && point_ok(
                map@[k],
            ),
    ensures
        r@.len() == bounds_fold(map@).0 + 1,
        forall|x: int| 0 <= x < r@.len() ==> (#[trigger] r@[x])@.len() == bounds_fold(map@).1 + 1,
        grid_views(r@) == grid_write(
            Seq::new(
                (bounds_fold(map@).0 + 1) as nat,
                |x: int| Seq::new((bounds_fold(map@).1 + 1) as nat, |y: int| Space::Empty),
            ),
            map@,
        ),
{
    let b = get_bounds(map);
    proof {
        lemma_bounds_nonneg(map@);
        lemma_bounds_small(map@);
        lemma_bounds_cover(map@, map@.len() as int);
    }
    let rows: usize = (b.0 + 1) as usize;
    let cols: usize = (b.1 + 1) as usize;
    proof {
        assert(rows == bounds_fold(map@).0 + 1);
        assert(cols == bounds_fold(map@).1 + 1);
    }
    let mut grid: Vec<Vec<Space>> = Vec::new();
    let mut x: usize = 0;
    while x < rows
        invariant
            x <= rows,
            grid@.len() == x,
            forall|k: int|
                0 <= k < x ==> (#[trigger] grid@[k])@ == Seq::new(
                    cols as nat,
                    |y: int| Space::Empty,
                ),
        decreases rows - x,
    {
        let mut rowv: Vec<Space> = Vec::new();
        let mut y: usize = 0;
        while y < cols
            invariant
                y <= cols,
                rowv@ == Seq::new(y as nat, |q: int| Space::Empty),
            decreases cols - y,
        {
            rowv.push(Space::Empty);
            proof {
                assert(rowv@ =~= Seq::new((y + 1) as nat, |q: int| Space::Empty));
            }
            y = y + 1;
        }
        grid.push(rowv);
        x = x + 1;
    }
    let ghost base = Seq::new(
        rows as nat,
        |x2: int| Seq::new(cols as nat, |y2: int| Space::Empty),
    );
    proof {
        assert(grid_views(grid@) =~~= base);
    }
    let mut i: usize = 0;
    while i < map.len()
        invariant
            i <= map@.len(),
            grid@.len() == rows,
            rows == bounds_fold(map@).0 + 1,
            cols == bounds_fold(map@).1 + 1,
            forall|k: int| 0 <= k < grid@.len() ==> (#[trigger] grid@[k])@.len() == cols,
            forall|k: int|
                0 <= k < map@.len() ==> 0 <= (#[trigger] map@[k]).0 && 0 <= map@[k].1 && point_ok(
                    map@[k],
                ),
            grid_views(grid@) == grid_write(base, map@.take(i as int)),
        decreases map@.len() - i,
    {
        let p = map[i];
        proof {
            lemma_bounds_cover(map@, map@.len() as int);
            assert(p.0 < rows && p.1 < cols);
            assert(map@.take(i + 1).drop_last() =~= map@.take(i as int));
            assert(map@.take(i + 1).last() == map@[i as int]);
        }
        let ghost gpre = grid_views(grid@);
        let mut rowv = grid.remove(p.0 as usize);
        rowv.set(p.1 as usize, p.2);
        grid.insert(p.0 as usize, rowv);
        proof {
            assert(grid_views(grid@) =~~= gpre.update(
                p.0 as int,
                gpre[p.0 as int].update(p.1 as int, p.2),
            ));
        }
        i = i + 1;
    }
    proof {
        assert(map@.take(map@.len() as int) =~= map@);
    }
    grid
}

/// The views of a grid's rows.
pub open spec fn grid_views(g: Seq<Vec<Space>>) -> Seq<Seq<Space>> {
    g.map_values(|row: Vec<Space>| row@)
}

/// Every cell's coordinates lie within the fold of the bounds.
proof fn lemma_bounds_cover(s: Seq<Point>, upto: int)
    requires
        0 <= upto <= s.len(),
    ensures
        forall|k: int|
            0 <= k < upto ==> (#[trigger] s[k]).0 <= bounds_fold(s).0 && s[k].1 <= bounds_fold(
                s,
            ).1,
    decreases s.len(),
{
    if s.len() > 0 {
        lemma_bounds_cover(s.drop_last(), if upto > s.len() - 1 {
            s.len() - 1
        } else {
            upto
        });
        assert forall|k: int|
            0 <= k < upto implies (#[trigger] s[k]).0 <= bounds_fold(s).0 && s[k].1 <= bounds_fold(
            s,
        ).1 by {
            if k < s.len() - 1 {
                assert(s.drop_last()[k] == s[k]);
                lemma_bounds_mono(s);
            }
        }
    }
}

/// Dropping the last cell never raises the bounds.
proof fn lemma_bounds_mono(s: Seq<Point>)
    requires
        s.len() > 0,
    ensures
        bounds_fold(s.drop_last()).0 <= bounds_fold(s).0,
        bounds_fold(s.drop_last()).1 <= bounds_fold(s).1,
{
}

proof fn lemma_bounds_nonneg(s: Seq<Point>)
    ensures
        bounds_fold(s).0 >= 0,
        bounds_fold(s).1 >= 0,
    decreases s.len(),
{
    if s.len() > 0 {
        lemma_bounds_nonneg(s.drop_last());
    }
}

/// With every cell's coordinates small, the bounds stay small.
proof fn lemma_bounds_small(s: Seq<Point>)
    requires
        forall|k: int| 0 <= k < s.len() ==> point_ok(#[trigger] s[k]),
    ensures
        bounds_fold(s).0 <= 0x4000_0000,
        bounds_fold(s).1 <= 0x4000_0000,
    decreases s.len(),
{
    if s.len() > 0 {
        assert(forall|k: int| 0 <= k < s.len() - 1 ==> s.drop_last()[k] == s[k]);
        lemma_bounds_small(s.drop_last());
    }
}

/// The walk from `a` toward `b` along the reduced slope hits an
/// asteroid strictly before reaching `b`'s distance from the origin.
pub open spec fn path_blocked(
    g: Seq<Seq<Space>>,
    a: Point,
    b: Point,
    rise: int,
    run: int,
    t: int,
    k: int,
) -> bool
    decreases k - t,
{
    if t >= k {
        false
    } else {
        let x = a.0 + t * run;
        let y = a.1 + t * rise;
        if x * x + y * y >= b.0 * b.0 + b.1 * b.1 {
            false
        } else if g[x][y] == Space::Asteroid {
            true
        } else {
            path_blocked(g, a, b, rise, run, t + 1, k)
        }
    }
}

/// The grid is rectangular.
pub open spec fn grid_ok(g: Seq<Seq<Space>>) -> bool {
    forall|x: int| 0 <= x < g.len() ==> (#[trigger] g[x]).len() == g[0].len()
}

/// The cell lies on the grid.
pub open spec fn on_grid(g: Seq<Seq<Space>>, x: int, y: int) -> bool {
    0 <= x < g.len() && 0 <= y < g[0].len()
}

/// Nothing stands on the walk from `aa` (the nearer cell) to `bb`.
pub open spec fn clear_from(g: Seq<Seq<Space>>, aa: Point, bb: Point) -> bool {
    exists|srl: (i64, i64), k: int|
        {
            &&& slope_spec_ok(aa, bb, srl)
            &&& k >= 1
            &&& bb.0 - aa.0 == k * srl.1
            &&& bb.1 - aa.1 == k * srl.0
            &&& !(#[trigger] path_blocked(g, aa, bb, srl.0 as int, srl.1 as int, 1, k))
        }
}

/// Nothing stands between the two cells: walking the reduced slope
/// from the nearer to the farther, every intermediate cell that is
/// still nearer than the goal is empty.
pub open spec fn clear_between(g: Seq<Seq<Space>>, a: Point, b: Point) -> bool {
    let swap = a.0 * a.0 + a.1 * a.1 > b.0 * b.0 + b.1 * b.1;
    clear_from(
        g,
        if swap {
            b
        } else {
            a
        },
        if swap {
            a
        } else {
            b
        },
    )
}

/// Walks the reduced slope from the nearer cell toward the farther
/// and reports whether no asteroid interrupts the line of sight.
pub fn has_clear_path(map: &Vec<Vec<Space>>, a: Point, b: Point) -> (r: bool)
    requires
        grid_ok(grid_views(map@)),
        point_ok(a),
        point_ok(b),
        on_grid(grid_views(map@), a.0 as int, a.1 as int),
        on_grid(grid_views(map@), b.0 as int, b.1 as int),
        !(a.0 == b.0 && a.1 == b.1),
    ensures
        r == clear_between(grid_views(map@), a, b),
{
    let ghost g = grid_views(map@);
    let na = a.norm_squared();
    let nb = b.norm_squared();
    let (aa, bb) = if na > nb {
        (b, a)
    } else {
        (a, b)
    };
    let s = get_slope(aa, bb);
    let rise: i64 = s.0;
    let run: i64 = s.1;
    let ghost k: int = if aa.0 == bb.0 {
        if aa.1 > bb.1 {
            aa.1 - bb.1
        } else {
            bb.1 - aa.1
        }
    } else if aa.1 == bb.1 {
        if aa.0 > bb.0 {
            aa.0 - bb.0
        } else {
            bb.0 - aa.0
        }
    } else {
        choose|gg: int|
            {
                &&& #[trigger] is_gcd(bb.1 - aa.1, bb.0 - aa.0, gg)
                &&& s.0 * gg == bb.1 - aa.1
                &&& s.1 * gg == bb.0 - aa.0
            }
    };
    proof {
        if aa.0 == bb.0 {
            assert(run == 0);
            assert(bb.0 - aa.0 == k * (run as int)) by (nonlinear_arith)
                requires
                    run == 0,
                    bb.0 == aa.0,
            ;
            if aa.1 > bb.1 {
                assert(rise == -1 && k == aa.1 - bb.1);
                assert(bb.1 - aa.1 == k * (rise as int)) by (nonlinear_arith)
                    requires
                        rise == -1,
                        k == aa.1 - bb.1,
                ;
            } else {
                assert(rise == 1 && k == bb.1 - aa.1);
                assert(bb.1 - aa.1 == k * (rise as int)) by (nonlinear_arith)
                    requires
                        rise == 1,
                        k == bb.1 - aa.1,
                ;
            }
            assert(k >= 1);
        } else if aa.1 == bb.1 {
            assert(rise == 0);
            assert(bb.1 - aa.1 == k * (rise as int)) by (nonlinear_arith)
                requires
                    rise == 0,
                    bb.1 == aa.1,
            ;
            if aa.0 > bb.0 {
                assert(run == -1 && k == aa.0 - bb.0);
                assert(bb.0 - aa.0 == k * (run as int)) by (nonlinear_arith)
                    requires
                        run == -1,
                        k == aa.0 - bb.0,
                ;
            } else {
                assert(run == 1 && k == bb.0 - aa.0);
                assert(bb.0 - aa.0 == k * (run as int)) by (nonlinear_arith)
                    requires
                        run == 1,
                        k == bb.0 - aa.0,
                ;
            }
            assert(k >= 1);
        } else {
            assert(exists|gg: int|
                {
                    &&& #[trigger] is_gcd(bb.1 - aa.1, bb.0 - aa.0, gg)
                    &&& s.0 * gg == bb.1 - aa.1
                    &&& s.1 * gg == bb.0 - aa.0
                });
            assert(is_gcd(bb.1 - aa.1, bb.0 - aa.0, k) && s.0 * k == bb.1 - aa.1 && s.1 * k == bb.0
                - aa.0);
        }
        assert(k >= 1 && bb.0 - aa.0 == k * (run as int) && bb.1 - aa.1 == k * (rise as int));
        assert(abs1(rise as int) <= abs1(bb.1 - aa.1) && abs1(run as int) <= abs1(bb.0 - aa.0))
            by (nonlinear_arith)
            requires
                k >= 1,
                bb.0 - aa.0 == k * (run as int),
                bb.1 - aa.1 == k * (rise as int),
        ;
        assert(slope_ok(rise as int) && slope_ok(run as int));
    }
    let nbb = bb.norm_squared();
    let mut x: i64 = aa.0 + run;
    let mut y: i64 = aa.1 + rise;
    let ghost mut t: int = 1;
    proof {
        lemma_walk_between(aa.0 as int, bb.0 as int, run as int, 1, k);
        lemma_walk_between(aa.1 as int, bb.1 as int, rise as int, 1, k);
    }
    let first = Point(x, y, Space::Empty);
    let mut cur_norm: i64 = first.norm_squared();
    while cur_norm < nbb
        invariant
            cur_norm == x * x + y * y,
            g == grid_views(map@),
            grid_ok(g),
            point_ok(aa),
            point_ok(bb),
            on_grid(g, aa.0 as int, aa.1 as int),
            on_grid(g, bb.0 as int, bb.1 as int),
            1 <= t <= k,
            k >= 1,
            slope_ok(rise as int),
            slope_ok(run as int),
            slope_spec_ok(aa, bb, (rise, run)),
            !(aa.0 == bb.0 && aa.1 == bb.1),
            ((a.0 * a.0 + a.1 * a.1 > b.0 * b.0 + b.1 * b.1) ==> (aa == b && bb == a)),
            (!(a.0 * a.0 + a.1 * a.1 > b.0 * b.0 + b.1 * b.1) ==> (aa == a && bb == b)),
            bb.0 - aa.0 == k * (run as int),
            bb.1 - aa.1 == k * (rise as int),
            x == aa.0 + t * run,
            y == aa.1 + t * rise,
            (aa.0 <= x <= bb.0) || (bb.0 <= x <= aa.0),
            (aa.1 <= y <= bb.1) || (bb.1 <= y <= aa.1),
            nbb == bb.0 * bb.0 + bb.1 * bb.1,
            path_blocked(g, aa, bb, rise as int, run as int, 1, k) == path_blocked(
                g,
                aa,
                bb,
                rise as int,
                run as int,
                t,
                k,
            ),
        decreases k - t,
    {
        proof {
            if t == k {
                assert(x == bb.0 && y == bb.1) by (nonlinear_arith)
                    requires
                        x == aa.0 + t * run,
                        y == aa.1 + t * rise,
                        t == k,
                        bb.0 - aa.0 == k * (run as int),
                        bb.1 - aa.1 == k * (rise as int),
                ;
                assert(false);
            }
        }
        if map[x as usize][y as usize] == Space::Asteroid {
            proof {
                assert(path_blocked(g, aa, bb, rise as int, run as int, t, k));
                assert(path_blocked(g, aa, bb, rise as int, run as int, 1, k));
                assert forall|s2: (i64, i64), k2: int|
                    slope_spec_ok(aa, bb, s2) && k2 >= 1 && bb.0 - aa.0 == k2 * s2.1 && bb.1 - aa.1
                        == k2 * s2.0 implies #[trigger] path_blocked(
                    g,
                    aa,
                    bb,
                    s2.0 as int,
                    s2.1 as int,
                    1,
                    k2,
                ) by {
                    lemma_slope_pinned(aa, bb, (rise, run), k, s2, k2);
                }
                assert(!clear_from(g, aa, bb));
                assert(!clear_between(g, a, b));
            }
            return false;
        }
        proof {
            assert(path_blocked(g, aa, bb, rise as int, run as int, t, k) == path_blocked(
                g,
                aa,
                bb,
                rise as int,
                run as int,
                t + 1,
                k,
            ));
            lemma_walk_between(aa.0 as int, bb.0 as int, run as int, t + 1, k);
            lemma_walk_between(aa.1 as int, bb.1 as int, rise as int, t + 1, k);
            assert(aa.0 + (t + 1) * run == x + run && aa.1 + (t + 1) * rise == y + rise)
                by (nonlinear_arith)
                requires
                    x == aa.0 + t * run,
                    y == aa.1 + t * rise,
            ;
        }
        y = y + rise;
        x = x + run;
        proof {
            t = t + 1;
            assert(point_ok(Point(x, y, Space::Empty)));
        }
        let cur = Point(x, y, Space::Empty);
        cur_norm = cur.norm_squared();
    }
    proof {
        assert(!path_blocked(g, aa, bb, rise as int, run as int, t, k));
        assert(!path_blocked(g, aa, bb, rise as int, run as int, 1, k));
        assert(clear_from(g, aa, bb)) by {
            assert(slope_spec_ok(aa, bb, (rise, run)) && k >= 1 && bb.0 - aa.0 == k * (run as int)
                && bb.1 - aa.1 == k * (rise as int) && !path_blocked(
                g,
                aa,
                bb,
                rise as int,
                run as int,
                1,
                k,
            ));
        }
        assert(clear_between(g, a, b));
    }
    true
}

/// Equal products with a non-zero factor share the other factor.
proof fn lemma_cancel(a: int, b: int, c: int)
    requires
        a * c == b * c,
        c != 0,
    ensures
        a == b,
{
    assert(a == b) by (nonlinear_arith)
        requires
            a * c == b * c,
            c != 0,
    ;
}

/// The reduced slope and its multiplier are pinned: any pair meeting
/// the sight-line relations is the one the walk used.
proof fn lemma_slope_pinned(aa: Point, bb: Point, s: (i64, i64), k: int, s2: (i64, i64), k2: int)
    requires
        !(aa.0 == bb.0 && aa.1 == bb.1),
        slope_spec_ok(aa, bb, s),
        k >= 1,
        bb.0 - aa.0 == k * s.1,
        bb.1 - aa.1 == k * s.0,
        slope_spec_ok(aa, bb, s2),
        k2 >= 1,
        bb.0 - aa.0 == k2 * s2.1,
        bb.1 - aa.1 == k2 * s2.0,
    ensures
        s2 == s,
        k2 == k,
{
    if aa.0 == bb.0 {
        assert(s2 == s);
        assert(k * s.0 == k2 * s.0);
        lemma_cancel(k, k2, s.0 as int);
    } else if aa.1 == bb.1 {
        assert(s2 == s);
        assert(k * s.1 == k2 * s.1);
        lemma_cancel(k, k2, s.1 as int);
    } else {
        let g1 = choose|g: int|
            {
                &&& #[trigger] is_gcd(bb.1 - aa.1, bb.0 - aa.0, g)
                &&& s.0 * g == bb.1 - aa.1
                &&& s.1 * g == bb.0 - aa.0
            };
        let g2 = choose|g: int|
            {
                &&& #[trigger] is_gcd(bb.1 - aa.1, bb.0 - aa.0, g)
                &&& s2.0 * g == bb.1 - aa.1
                &&& s2.1 * g == bb.0 - aa.0
            };
        lemma_gcd_unique(bb.1 - aa.1, bb.0 - aa.0, g1, g2);
        lemma_cancel(s.0 as int, s2.0 as int, g1);
        lemma_cancel(s.1 as int, s2.1 as int, g1);
        assert(s.1 != 0);
        assert(k * s.1 == k2 * s.1);
        lemma_cancel(k, k2, s.1 as int);
    }
}

/// A step along the line stays between its endpoints.
proof fn lemma_walk_between(a0: int, b0: int, step: int, t: int, k: int)
    requires
        b0 - a0 == k * step,
        1 <= t <= k,
    ensures
        a0 <= a0 + t * step <= b0 || b0 <= a0 + t * step <= a0,
{
    if step >= 0 {
        assert(0 <= t * step <= k * step) by (nonlinear_arith)
            requires
                0 <= t <= k,
                step >= 0,
        ;
    } else {
        assert(k * step <= t * step <= 0) by (nonlinear_arith)
            requires
                0 <= t <= k,
                step < 0,
        ;
    }
}

/// How many of the listed asteroids the one at `a` can see.
pub open spec fn seen_count(g: Seq<Seq<Space>>, asts: Seq<Point>, a: Point) -> int
    decreases asts.len(),
{
    if asts.len() == 0 {
        0
    } else {
        seen_count(g, asts.drop_last(), a) + (if !(asts.last().0 == a.0 && asts.last().1 == a.1)
            && clear_between(g, asts.last(), a) {
            1int
        } else {
            0int
        })
    }
}

/// Counts the other asteroids in clear sight of the one at
/// `asteroid`.
pub fn count_asteroids_in_sight(asteroids: &Vec<Point>, asteroid: &Point, map: &Vec<Vec<Space>>)
    -> (r: usize)
    requires
        grid_ok(grid_views(map@)),
        point_ok(*asteroid),
        on_grid(grid_views(map@), asteroid.0 as int, asteroid.1 as int),
        forall|q: int|
            0 <= q < asteroids@.len() ==> point_ok(#[trigger] asteroids@[q]) && on_grid(
                grid_views(map@),
                asteroids@[q].0 as int,
                asteroids@[q].1 as int,
            ),
    ensures
        r == seen_count(grid_views(map@), asteroids@, *asteroid),
{
    proof {
        lemma_seen_count_bound(grid_views(map@), asteroids@, *asteroid);
    }
    let mut r: usize = 0;
    let mut i: usize = 0;
    while i < asteroids.len()
        invariant
            i <= asteroids@.len(),
            r <= i,
            grid_ok(grid_views(map@)),
            point_ok(*asteroid),
            on_grid(grid_views(map@), asteroid.0 as int, asteroid.1 as int),
            forall|q: int|
                0 <= q < asteroids@.len() ==> point_ok(#[trigger] asteroids@[q]) && on_grid(
                    grid_views(map@),
                    asteroids@[q].0 as int,
                    asteroids@[q].1 as int,
                ),
            r == seen_count(grid_views(map@), asteroids@.take(i as int), *asteroid),
        decreases asteroids@.len() - i,
    {
        proof {
            assert(asteroids@.take(i + 1).drop_last() =~= asteroids@.take(i as int));
            assert(asteroids@.take(i + 1).last() == asteroids@[i as int]);
        }
        let p = asteroids[i];
        if !(p.0 == asteroid.0 && p.1 == asteroid.1) {
            if has_clear_path(map, p, *asteroid) {
                r = r + 1;
            }
        }
        i = i + 1;
    }
    proof {
        assert(asteroids@.take(asteroids@.len() as int) =~= asteroids@);
    }
    r
}

proof fn lemma_seen_count_bound(g: Seq<Seq<Space>>, asts: Seq<Point>, a: Point)
    ensures
        0 <= seen_count(g, asts, a) <= asts.len(),
    decreases asts.len(),
{
    if asts.len() > 0 {
        lemma_seen_count_bound(g, asts.drop_last(), a);
    }
}

/// The listed slopes with every later duplicate dropped: each kept
/// entry is the first of its value.
pub open spec fn dedup_upto(s: Seq<Slope>, i: int) -> Seq<Slope>
    decreases i,
{
    if i <= 0 {
        Seq::<Slope>::empty()
    } else {
        let prev = dedup_upto(s, i - 1);
        if exists|j: int| 0 <= j < i - 1 && #[trigger] s[j] == s[i - 1] {
            prev
        } else {
            prev.push(s[i - 1])
        }
    }
}

/// Drops every repeated slope, keeping first occurrences in order.
pub fn full_dedup(vec: Vec<Slope>) -> (r: Vec<Slope>)
    ensures
        r@ == dedup_upto(vec@, vec@.len() as int),
{
    let mut r: Vec<Slope> = Vec::new();
    let mut i: usize = 0;
    while i < vec.len()
        invariant
            i <= vec@.len(),
            r@ == dedup_upto(vec@, i as int),
        decreases vec@.len() - i,
    {
        let p = vec[i];
        let mut seen: bool = false;
        let mut j: usize = 0;
        while j < i
            invariant
                j <= i,
                i < vec@.len(),
                p == vec@[i as int],
                seen <==> exists|q: int| 0 <= q < j && #[trigger] vec@[q] == p,
            decreases i - j,
        {
            let q = vec[j];
            if q.slope.0 == p.slope.0 && q.slope.1 == p.slope.1 && quadrant_rank_exec(q.quadrant)
                == quadrant_rank_exec(p.quadrant) {
                proof {
                    assert(vec@[j as int] == p);
                }
                seen = true;
            }
            j = j + 1;
        }
        if !seen {
            r.push(p);
        }
        i = i + 1;
    }
    r
}

/// The cells of the ASCII map: within line `col`, the character at
/// `row` names the cell `(row, col)`.
pub open spec fn grid_cells(lines: Seq<Seq<char>>, upto: int) -> Seq<Point>
    decreases upto,
{
    if upto <= 0 {
        Seq::<Point>::empty()
    } else {
        grid_cells(lines, upto - 1) + Seq::new(
            lines[upto - 1].len(),
            |row: int|
                Point(
                    row as i64,
                    (upto - 1) as i64,
                    if lines[upto - 1][row] == '#' {
                        Space::Asteroid
                    } else {
                        Space::Empty
                    },
                ),
        )
    }
}

/// Reads the ASCII art into a cell list, line by line.
pub fn parse_input(input: &Vec<Vec<char>>) -> (r: Vec<Point>)
    requires
        forall|j: int| 0 <= j < input@.len() ==> (#[trigger] input@[j])@.len() <= 0x4000_0000,
        input@.len() <= 0x4000_0000,
    ensures
        r@ == grid_cells(input@.map_values(|l: Vec<char>| l@), input@.len() as int),
{
    let ghost lines = input@.map_values(|l: Vec<char>| l@);
    let mut r: Vec<Point> = Vec::new();
    let mut col: usize = 0;
    while col < input.len()
        invariant
            col <= input@.len(),
            lines == input@.map_values(|l: Vec<char>| l@),
            input@.len() <= 0x4000_0000,
            forall|j: int| 0 <= j < input@.len() ==> (#[trigger] input@[j])@.len() <= 0x4000_0000,
            r@ == grid_cells(lines, col as int),
        decreases input@.len() - col,
    {
        let line = &input[col];
        let mut row: usize = 0;
        while row < line.len()
            invariant
                row <= line@.len(),
                col < input@.len(),
                line@ == lines[col as int],
                line@.len() <= 0x4000_0000,
                col <= 0x4000_0000,
                r@ == grid_cells(lines, col as int) + Seq::new(
                    row as nat,
                    |q: int|
                        Point(
                            q as i64,
                            col as i64,
                            if lines[col as int][q] == '#' {
                                Space::Asteroid
                            } else {
                                Space::Empty
                            },
                        ),
                ),
            decreases line@.len() - row,
        {
            let c: char = line[row];
            r.push(Point(row as i64, col as i64, Space::parse(c)));
            proof {
                assert(r@ =~= grid_cells(lines, col as int) + Seq::new(
                    (row + 1) as nat,
                    |q: int|
                        Point(
                            q as i64,
                            col as i64,
                            if lines[col as int][q] == '#' {
                                Space::Asteroid
                            } else {
                                Space::Empty
                            },
                        ),
                ));
            }
            row = row + 1;
        }
        proof {
            assert(r@ =~= grid_cells(lines, col + 1));
        }
        col = col + 1;
    }
    r
}

/// The best monitoring spot's score: the largest number of asteroids
/// any one asteroid can see.
pub fn solve_1(map: &Vec<Point>) -> (r: usize)
    requires
        forall|k: int|
            0 <= k < map@.len() ==> 0 <= (#[trigger] map@[k]).0 && 0 <= map@[k].1 && point_ok(
                map@[k],
            ),
        asteroids_of(map@).len() > 0,
    ensures
        exists|j: int|
            {
                &&& 0 <= j < asteroids_of(map@).len()
                &&& r == seen_count(
                    grid_write(
                        Seq::new(
                            (bounds_fold(map@).0 + 1) as nat,
                            |x: int|
                                Seq::new((bounds_fold(map@).1 + 1) as nat, |y: int| Space::Empty),
                        ),
                        map@,
                    ),
                    asteroids_of(map@),
                    #[trigger] asteroids_of(map@)[j],
                )
            },
        forall|j: int|
            0 <= j < asteroids_of(map@).len() ==> seen_count(
                grid_write(
                    Seq::new(
                        (bounds_fold(map@).0 + 1) as nat,
                        |x: int| Seq::new((bounds_fold(map@).1 + 1) as nat, |y: int| Space::Empty),
                    ),
                    map@,
                ),
                asteroids_of(map@),
                #[trigger] asteroids_of(map@)[j],
            ) <= r,
{
    let asteroids = get_asteroids(map);
    let grid = index_map(map);
    let ghost g = grid_views(grid@);
    proof {
        lemma_grid_write_ok(map@, g);
        lemma_asteroids_within(map@, map@.len() as int);
        assert(map@.take(map@.len() as int) =~= map@);
        lemma_bounds_cover(map@, map@.len() as int);
        assert forall|q: int|
            0 <= q < asteroids@.len() implies point_ok(#[trigger] asteroids@[q]) && on_grid(
            g,
            asteroids@[q].0 as int,
            asteroids@[q].1 as int,
        ) by {
            assert(map@.contains(asteroids@[q]));
            let w = choose|w: int| 0 <= w < map@.len() && map@[w] == asteroids@[q];
            assert(point_ok(map@[w]) && 0 <= map@[w].0 && 0 <= map@[w].1);
            assert(map@[w].0 <= bounds_fold(map@).0 && map@[w].1 <= bounds_fold(map@).1);
        }
    }
    let mut best: usize = count_asteroids_in_sight(&asteroids, &asteroids[0], &grid);
    let mut bi: usize = 0;
    let mut i: usize = 1;
    while i < asteroids.len()
        invariant
            1 <= i <= asteroids@.len(),
            asteroids@ == asteroids_of(map@),
            asteroids@.len() > 0,
            bi < i,
            grid_ok(g),
            g == grid_views(grid@),
            g == grid_write(
                Seq::new(
                    (bounds_fold(map@).0 + 1) as nat,
                    |x: int| Seq::new((bounds_fold(map@).1 + 1) as nat, |y: int| Space::Empty),
                ),
                map@,
            ),
            forall|q: int|
                0 <= q < asteroids@.len() ==> point_ok(#[trigger] asteroids@[q]) && on_grid(
                    g,
                    asteroids@[q].0 as int,
                    asteroids@[q].1 as int,
                ),
            best == seen_count(g, asteroids@, asteroids@[bi as int]),
            forall|j: int|
                0 <= j < i ==> seen_count(g, asteroids@, #[trigger] asteroids@[j]) <= best,
        decreases asteroids@.len() - i,
    {
        let c = count_asteroids_in_sight(&asteroids, &asteroids[i], &grid);
        if c > best {
            best = c;
            bi = i;
        }
        i = i + 1;
    }
    best
}

/// The grid the map writes into is rectangular, and every listed cell
/// lies on it.
proof fn lemma_grid_write_ok(map: Seq<Point>, g: Seq<Seq<Space>>)
    requires
        forall|k: int|
            0 <= k < map.len() ==> 0 <= (#[trigger] map[k]).0 && 0 <= map[k].1 && point_ok(map[k]),
        g == grid_write(
            Seq::new(
                (bounds_fold(map).0 + 1) as nat,
                |x: int| Seq::new((bounds_fold(map).1 + 1) as nat, |y: int| Space::Empty),
            ),
            map,
        ),
    ensures
        grid_ok(g),
        g.len() == bounds_fold(map).0 + 1,
        g.len() > 0 ==> g[0].len() == bounds_fold(map).1 + 1,
        forall|k: int|
            0 <= k < map.len() ==> on_grid(g, (#[trigger] map[k]).0 as int, map[k].1 as int),
{
    lemma_bounds_nonneg(map);
    lemma_bounds_cover(map, map.len() as int);
    let base = Seq::new(
        (bounds_fold(map).0 + 1) as nat,
        |x: int| Seq::new((bounds_fold(map).1 + 1) as nat, |y: int| Space::Empty),
    );
    assert(forall|k: int|
        0 <= k < map.len() ==> 0 <= (#[trigger] map[k]).0 < base.len() && 0 <= map[k].1 < base[
            map[k].0 as int
        ].len());
    lemma_grid_write_shape(base, map, map.len() as int);
    assert(map.take(map.len() as int) =~= map);
}

/// Writing in-range cells never changes the grid's shape.
proof fn lemma_grid_write_shape(base: Seq<Seq<Space>>, s: Seq<Point>, upto: int)
    requires
        0 <= upto <= s.len(),
        forall|k: int|
            0 <= k < s.len() ==> 0 <= (#[trigger] s[k]).0 < base.len() && 0 <= s[k].1 < base[
                s[k].0 as int
            ].len(),
    ensures
        grid_write(base, s.take(upto)).len() == base.len(),
        forall|x: int|
            0 <= x < base.len() ==> (#[trigger] grid_write(base, s.take(upto))[x]).len()
                == base[x].len(),
    decreases upto,
{
    if upto == 0 {
        assert(s.take(0) =~= Seq::<Point>::empty());
    } else {
        lemma_grid_write_shape(base, s, upto - 1);
        assert(s.take(upto).drop_last() =~= s.take(upto - 1));
        let prev = grid_write(base, s.take(upto - 1));
        let p = s.take(upto).last();
        assert(p == s[upto - 1]);
        assert(0 <= p.0 < base.len());
        assert(grid_write(base, s.take(upto)) == prev.update(
            p.0 as int,
            prev[p.0 as int].update(p.1 as int, p.2),
        ));
        assert forall|x: int|
            0 <= x < base.len() implies (#[trigger] grid_write(base, s.take(upto))[x]).len()
            == base[x].len() by {
            if x == p.0 {
                assert(grid_write(base, s.take(upto))[x] == prev[p.0 as int].update(
                    p.1 as int,
                    p.2,
                ));
            } else {
                assert(grid_write(base, s.take(upto))[x] == prev[x]);
            }
        }
    }
}

/// Every asteroid of the list came from the map.
proof fn lemma_asteroids_within(map: Seq<Point>, upto: int)
    requires
        0 <= upto <= map.len(),
    ensures
        forall|q: int|
            0 <= q < asteroids_of(map.take(upto)).len() ==> map.contains(
                #[trigger] asteroids_of(map.take(upto))[q],
            ),
    decreases upto,
{
    if upto > 0 {
        lemma_asteroids_within(map, upto - 1);
        assert(map.take(upto).drop_last() =~= map.take(upto - 1));
        assert(map.take(upto).last() == map[upto - 1]);
        let prev = asteroids_of(map.take(upto - 1));
        let cur = asteroids_of(map.take(upto));
        assert forall|q: int|
            0 <= q < cur.len() implies map.contains(#[trigger] cur[q]) by {
            if q < prev.len() {
                assert(cur[q] == prev[q]);
            } else {
                assert(cur[q] == map[upto - 1]);
            }
        }
    }
}

/// What a laser shot along a reduced slope hits: the first asteroid
/// on the ray, walking cell by cell until the ray leaves the grid.
pub open spec fn ray_hit(g: Seq<Seq<Space>>, x: int, y: int, rise: int, run: int) -> Option<
    (int, int),
>
    decreases
            (if run > 0 {
                if x >= g.len() {
                    0int
                } else {
                    g.len() - x
                }
            } else if run < 0 {
                if x < 0 {
                    0int
                } else {
                    x + 1
                }
            } else if rise > 0 {
                if g.len() == 0 || y >= g[0].len() {
                    0int
                } else {
                    g[0].len() - y
                }
            } else {
                if y < 0 {
                    0int
                } else {
                    y + 1
                }
            }),
    when rise != 0 || run != 0
{
    if g.len() == 0 || !(0 <= x < g.len() && 0 <= y < g[0].len()) {
        None
    } else if g[x][y] == Space::Asteroid {
        Some((x, y))
    } else {
        ray_hit(g, x + run, y + rise, rise, run)
    }
}

/// Fires along the slope from just past the origin cell: the first
/// asteroid on the ray is cleared from the grid and reported; a ray
/// that leaves the grid reports nothing and changes nothing.
pub fn destroy_asteroid(map: &mut Vec<Vec<Space>>, origin: &Point, slope: &Slope) -> (r: Option<
    (i64, i64),
>)
    requires
        grid_ok(grid_views(old(map)@)),
        old(map)@.len() > 0,
        old(map)@.len() <= 0x4000_0001,
        grid_views(old(map)@)[0].len() <= 0x4000_0001,
        point_ok(*origin),
        !(slope.slope.0 == 0 && slope.slope.1 == 0),
        slope_ok(slope.slope.0 as int),
        slope_ok(slope.slope.1 as int),
    ensures
        grid_ok(grid_views(final(map)@)),
        final(map)@.len() == old(map)@.len(),
        match r {
            Some(p) => {
                &&& 0 <= p.0 < old(map)@.len()
                &&& 0 <= p.1 < grid_views(old(map)@)[0].len()
                &&& ray_hit(
                    grid_views(old(map)@),
                    origin.0 + slope.slope.1,
                    origin.1 + slope.slope.0,
                    slope.slope.0 as int,
                    slope.slope.1 as int,
                ) == Some((p.0 as int, p.1 as int))
                &&& grid_views(final(map)@) == grid_views(old(map)@).update(
                    p.0 as int,
                    grid_views(old(map)@)[p.0 as int].update(p.1 as int, Space::Empty),
                )
            },
            None => {
                &&& ray_hit(
                    grid_views(old(map)@),
                    origin.0 + slope.slope.1,
                    origin.1 + slope.slope.0,
                    slope.slope.0 as int,
                    slope.slope.1 as int,
                ) is None
                &&& final(map)@ == old(map)@
            },
        },
{
    let ghost g0 = grid_views(map@);
    let rise: i64 = slope.slope.0;
    let run: i64 = slope.slope.1;
    let rows: usize = map.len();
    let cols: usize = map[0].len();
    let mut x: i64 = origin.0 + run;
    let mut y: i64 = origin.1 + rise;
    loop
        invariant
            map@ == old(map)@,
            g0 == grid_views(old(map)@),
            grid_views(map@) == g0,
            grid_ok(g0),
            g0.len() == rows > 0,
            g0[0].len() == cols,
            rows <= 0x4000_0001,
            cols <= 0x4000_0001,
            rise == slope.slope.0,
            run == slope.slope.1,
            slope_ok(rise as int),
            slope_ok(run as int),
            !(rise == 0 && run == 0),
            -0x2_0000_0000 - 0x4000_0000 <= x <= 0x2_0000_0000 + 0x4000_0000,
            -0x2_0000_0000 - 0x4000_0000 <= y <= 0x2_0000_0000 + 0x4000_0000,
            ray_hit(
                g0,
                origin.0 + slope.slope.1,
                origin.1 + slope.slope.0,
                rise as int,
                run as int,
            ) == ray_hit(g0, x as int, y as int, rise as int, run as int),
        decreases
                (if run > 0 {
                    if x >= rows {
                        0int
                    } else {
                        rows - x
                    }
                } else if run < 0 {
                    if x < 0 {
                        0int
                    } else {
                        x + 1
                    }
                } else if rise > 0 {
                    if y >= cols {
                        0int
                    } else {
                        cols - y
                    }
                } else {
                    if y < 0 {
                        0int
                    } else {
                        y + 1
                    }
                }),
    {
        if x < 0 || y < 0 || x >= rows as i64 || y >= cols as i64 {
            return None;
        }
        let xu: usize = x as usize;
        let yu: usize = y as usize;
        let cell = map[xu][yu];
        if cell == Space::Asteroid {
            let ghost gpre = grid_views(map@);
            let mut row = map.remove(xu);
            row.set(yu, Space::Empty);
            map.insert(xu, row);
            proof {
                assert(grid_views(map@) =~~= gpre.update(
                    xu as int,
                    gpre[xu as int].update(yu as int, Space::Empty),
                ));
                assert(ray_hit(g0, x as int, y as int, rise as int, run as int) == Some(
                    (x as int, y as int),
                ));
            }
            return Some((x, y));
        }
        proof {
            assert(ray_hit(g0, x as int, y as int, rise as int, run as int) == ray_hit(
                g0,
                x + run,
                y + rise,
                rise as int,
                run as int,
            ));
        }
        x = x + run;
        y = y + rise;
    }
}

/// The empty rectangle the map writes into, with the map written.
pub open spec fn base_grid(map: Seq<Point>) -> Seq<Seq<Space>> {
    grid_write(
        Seq::new(
            (bounds_fold(map).0 + 1) as nat,
            |x: int| Seq::new((bounds_fold(map).1 + 1) as nat, |y: int| Space::Empty),
        ),
        map,
    )
}

/// Why the rotating sweep reported no cell.
#[derive(Clone, Copy, Debug, PartialEq, Eq, Structural)]
pub enum LaserError {
    /// The angular order never settled on a least sight line.
    NoOrder,
    /// No sight line points straight up, so the sweep cannot start.
    NoStart,
    /// The sweep ran out of asteroids before the sought count.
    Starved,
}

/// `ordered` arranges the sight lines for the sweep: ascending by the
/// angular order, no line twice, exactly the lines of `input`.
pub open spec fn sweep_ok(input: Seq<Slope>, ordered: Seq<Slope>) -> bool {
    &&& forall|i: int, j: int|
        0 <= i < j < ordered.len() ==> slope_cmp_spec(#[trigger] ordered[i], #[trigger] ordered[j])
            != Ordering::Greater && ordered[i] != ordered[j]
    &&& forall|q: Slope| #[trigger] ordered.contains(q) ==> input.contains(q)
    &&& forall|q: Slope| #[trigger] input.contains(q) ==> ordered.contains(q)
}

/// Two sight lines are the same value.
fn slope_same(a: &Slope, b: &Slope) -> (r: bool)
    ensures
        r == (a == b),
{
    a.slope.0 == b.slope.0 && a.slope.1 == b.slope.1 && quadrant_rank_exec(a.quadrant)
        == quadrant_rank_exec(b.quadrant)
}

/// Arranges the sight lines for the sweep by repeatedly taking a line
/// no later than every remaining one and dropping its duplicates.
fn sweep_order(slopes: &Vec<Slope>) -> (r: Result<Vec<Slope>, LaserError>)
    requires
        forall|k: int|
            0 <= k < slopes@.len() ==> slope_ok((#[trigger] slopes@[k]).slope.0 as int) && slope_ok(
                slopes@[k].slope.1 as int,
            ),
    ensures
        match r {
            Ok(ordered) => sweep_ok(slopes@, ordered@) && forall|k: int|
                0 <= k < ordered@.len() ==> slopes@.contains(#[trigger] ordered@[k]),
            Err(e) => e == LaserError::NoOrder,
        },
{
    let mut remaining: Vec<Slope> = slopes.clone();
    proof {
        assert(remaining@ =~= slopes@);
    }
    let mut ordered: Vec<Slope> = Vec::new();
    loop
        invariant
            forall|k: int|
                0 <= k < slopes@.len() ==> slope_ok((#[trigger] slopes@[k]).slope.0 as int)
                    && slope_ok(slopes@[k].slope.1 as int),
            forall|k: int|
                0 <= k < remaining@.len() ==> slope_ok((#[trigger] remaining@[k]).slope.0 as int)
                    && slope_ok(remaining@[k].slope.1 as int),
            forall|q: Slope| #[trigger] remaining@.contains(q) ==> slopes@.contains(q),
            forall|q: Slope| #[trigger] ordered@.contains(q) ==> slopes@.contains(q),
            forall|q: Slope|
                #[trigger] slopes@.contains(q) ==> ordered@.contains(q) || remaining@.contains(q),
            forall|a: int, b: int|
                0 <= a < ordered@.len() && 0 <= b < remaining@.len() ==> slope_cmp_spec(
                    #[trigger] ordered@[a],
                    #[trigger] remaining@[b],
                ) != Ordering::Greater && ordered@[a] != remaining@[b],
            forall|i: int, j: int|
                0 <= i < j < ordered@.len() ==> slope_cmp_spec(
                    #[trigger] ordered@[i],
                    #[trigger] ordered@[j],
                ) != Ordering::Greater && ordered@[i] != ordered@[j],
        decreases remaining@.len(),
    {
        if remaining.len() == 0 {
            proof {
                assert forall|k: int|
                    0 <= k < ordered@.len() implies slopes@.contains(#[trigger] ordered@[k]) by {
                    assert(ordered@.contains(ordered@[k]));
                }
            }
            return Ok(ordered);
        }
        // find a line no later than every remaining one
        let mut c: usize = 0;
        let mut found: bool = false;
        while c < remaining.len() && !found
            invariant
                c <= remaining@.len(),
                remaining@.len() > 0,
                forall|k: int|
                    0 <= k < remaining@.len() ==> slope_ok(
                        (#[trigger] remaining@[k]).slope.0 as int,
                    ) && slope_ok(remaining@[k].slope.1 as int),
                found ==> c >= 1 && c - 1 < remaining@.len() && forall|b: int|
                    0 <= b < remaining@.len() ==> slope_cmp_spec(
                        remaining@[c - 1],
                        #[trigger] remaining@[b],
                    ) != Ordering::Greater,
            decreases remaining@.len() - c + (if found {
                0int
            } else {
                1int
            }),
        {
            let cand = remaining[c];
            let mut ok: bool = true;
            let mut b: usize = 0;
            while b < remaining.len()
                invariant
                    b <= remaining@.len(),
                    c < remaining@.len(),
                    cand == remaining@[c as int],
                    forall|k: int|
                        0 <= k < remaining@.len() ==> slope_ok(
                            (#[trigger] remaining@[k]).slope.0 as int,
                        ) && slope_ok(remaining@[k].slope.1 as int),
                    ok ==> forall|k: int|
                        0 <= k < b ==> slope_cmp_spec(cand, #[trigger] remaining@[k])
                            != Ordering::Greater,
                    !ok ==> exists|k: int|
                        0 <= k < remaining@.len() && slope_cmp_spec(cand, #[trigger] remaining@[k])
                            == Ordering::Greater,
                decreases remaining@.len() - b,
            {
                let other = remaining[b];
                let cmp_res = cand.cmp(&other);
                if matches!(cmp_res, Ordering::Greater) {
                    ok = false;
                }
                b = b + 1;
            }
            if ok {
                found = true;
            }
            c = c + 1;
        }
        if !found {
            return Err(LaserError::NoOrder);
        }
        let chosen = remaining[c - 1];
        let ghost rem_pre = remaining@;
        // drop every copy of the chosen line
        let mut kept: Vec<Slope> = Vec::new();
        let mut q: usize = 0;
        while q < remaining.len()
            invariant
                q <= remaining@.len(),
                remaining@ == rem_pre,
                chosen == rem_pre[c as int - 1],
                c >= 1,
                c - 1 < rem_pre.len(),
                kept@.len() + (if rem_pre.take(q as int).contains(chosen) {
                    1int
                } else {
                    0int
                }) <= q,
                forall|k: int|
                    0 <= k < kept@.len() ==> rem_pre.contains(#[trigger] kept@[k]) && kept@[k]
                        != chosen && slope_ok(kept@[k].slope.0 as int) && slope_ok(
                        kept@[k].slope.1 as int,
                    ),
                forall|k: int|
                    0 <= k < remaining@.len() ==> slope_ok(
                        (#[trigger] remaining@[k]).slope.0 as int,
                    ) && slope_ok(remaining@[k].slope.1 as int),
                forall|p: Slope|
                    #[trigger] rem_pre.take(q as int).contains(p) && p != chosen
                        ==> kept@.contains(p),
            decreases remaining@.len() - q,
        {
            let cur = remaining[q];
            let ghost kept_pre = kept@;
            proof {
                assert(rem_pre.take(q + 1).drop_last() =~= rem_pre.take(q as int));
                assert(rem_pre.take(q + 1).last() == rem_pre[q as int]);
            }
            if !slope_same(&cur, &chosen) {
                kept.push(cur);
            }
            proof {
                if rem_pre.take(q as int).contains(chosen) {
                    let w = choose|w: int|
                        0 <= w < q && rem_pre.take(q as int)[w] == chosen;
                    assert(rem_pre.take(q + 1)[w] == chosen);
                    assert(rem_pre.take(q + 1).contains(chosen));
                }
                if cur == chosen {
                    assert(rem_pre.take(q + 1)[q as int] == chosen);
                    assert(rem_pre.take(q + 1).contains(chosen));
                }
                assert forall|p: Slope|
                    #[trigger] rem_pre.take(q + 1).contains(p) && p != chosen implies kept@.contains(
                    p,
                ) by {
                    if rem_pre.take(q as int).contains(p) {
                        let w2 = choose|w2: int|
                            0 <= w2 < kept_pre.len() && kept_pre[w2] == p;
                        assert(kept@[w2] == p);
                    } else {
                        assert(p == rem_pre[q as int]);
                        assert(kept@.last() == p);
                    }
                }
            }
            q = q + 1;
        }
        proof {
            assert(rem_pre.take(rem_pre.len() as int) =~= rem_pre);
            assert(rem_pre.contains(chosen)) by {
                assert(rem_pre[c as int - 1] == chosen);
            }
            assert(kept@.len() < rem_pre.len());
        }
        let ghost ordered_pre = ordered@;
        ordered.push(chosen);
        proof {
            assert(rem_pre.contains(chosen)) by {
                assert(rem_pre[c as int - 1] == chosen);
            }
            assert forall|p: Slope| #[trigger] ordered@.contains(p) implies slopes@.contains(p) by {
                if ordered_pre.contains(p) {
                } else {
                    assert(p == chosen);
                }
            }
            assert forall|p: Slope|
                #[trigger] slopes@.contains(p) implies ordered@.contains(p) || kept@.contains(
                p,
            ) by {
                if ordered_pre.contains(p) {
                    let w = choose|w: int| 0 <= w < ordered_pre.len() && ordered_pre[w] == p;
                    assert(ordered@[w] == p);
                } else if rem_pre.contains(p) {
                    if p == chosen {
                        assert(ordered@.last() == p);
                    } else {
                        assert(kept@.contains(p));
                    }
                }
            }
            assert forall|a: int, b: int|
                0 <= a < ordered@.len() && 0 <= b < kept@.len() implies slope_cmp_spec(
                #[trigger] ordered@[a],
                #[trigger] kept@[b],
            ) != Ordering::Greater && ordered@[a] != kept@[b] by {
                let w = choose|w: int| 0 <= w < rem_pre.len() && rem_pre[w] == kept@[b];
                if a < ordered_pre.len() {
                    assert(ordered@[a] == ordered_pre[a]);
                } else {
                    assert(ordered@[a] == chosen);
                }
            }
            assert forall|i: int, j: int|
                0 <= i < j < ordered@.len() implies slope_cmp_spec(
                #[trigger] ordered@[i],
                #[trigger] ordered@[j],
            ) != Ordering::Greater && ordered@[i] != ordered@[j] by {
                if j == ordered@.len() - 1 {
                    assert(ordered@[j] == chosen);
                    assert(ordered_pre[i] == ordered@[i]);
                    assert(rem_pre[c as int - 1] == chosen);
                }
            }
        }
        remaining = kept;
    }
}

/// One full rotation of the sweep: from slot `idx`, fire along each
/// sight line in order; each hit clears the asteroid and resets the
/// miss count, and a whole rotation of misses ends the sweep.  The
/// result is the cell of the hit that brings `count_left` to zero.
pub open spec fn laser_fire(
    g: Seq<Seq<Space>>,
    origin: Point,
    ordered: Seq<Slope>,
    idx: int,
    count_left: nat,
    misses: nat,
) -> Option<(int, int)>
    decreases count_left, ordered.len() - misses,
{
    if ordered.len() == 0 || count_left == 0 || misses >= ordered.len() || !(0 <= idx
        < ordered.len()) {
        None
    } else {
        let s = ordered[idx];
        if s.slope.0 == 0 && s.slope.1 == 0 {
            None
        } else {
            let nidx = if idx + 1 == ordered.len() {
                0int
            } else {
                idx + 1
            };
            match ray_hit(
                g,
                origin.0 + s.slope.1,
                origin.1 + s.slope.0,
                s.slope.0 as int,
                s.slope.1 as int,
            ) {
                Some(p) => {
                    if count_left == 1 {
                        Some(p)
                    } else {
                        laser_fire(
                            g.update(p.0, g[p.0].update(p.1, Space::Empty)),
                            origin,
                            ordered,
                            nidx,
                            (count_left - 1) as nat,
                            0,
                        )
                    }
                },
                None => laser_fire(g, origin, ordered, nidx, count_left, (misses + 1) as nat),
            }
        }
    }
}

/// The sweep's full arrangement: the monitoring asteroid is the one
/// that sees the most (ties to the earliest), `slopes` are the reduced
/// sight lines from it to every asteroid, `ordered` arranges them for
/// the sweep, and slot `idx0` points straight up.
pub open spec fn laser_setup(
    map: Seq<Point>,
    j: int,
    slopes: Seq<Slope>,
    ordered: Seq<Slope>,
    idx0: int,
) -> bool {
    let asts = asteroids_of(map);
    &&& 0 <= j < asts.len()
    &&& forall|k: int|
        0 <= k < asts.len() ==> seen_count(base_grid(map), asts, #[trigger] asts[k]) <= seen_count(
            base_grid(map),
            asts,
            asts[j],
        )
    &&& forall|k: int|
        0 <= k < j ==> seen_count(base_grid(map), asts, #[trigger] asts[k]) < seen_count(
            base_grid(map),
            asts,
            asts[j],
        )
    &&& slopes.len() == asts.len()
    &&& forall|q: int|
        0 <= q < slopes.len() ==> slope_spec_ok(asts[j], asts[q], (#[trigger] slopes[q]).slope)
            && slopes[q].quadrant == quadrant_of(slopes[q].slope)
    &&& sweep_ok(slopes, ordered)
    &&& 0 <= idx0 < ordered.len()
    &&& ordered[idx0].slope == (-1i64, 0i64)
}

/// The two-hundredth asteroid the rotating sweep destroys, read as
/// `100 * row + column`: the sweep starts straight up from the best
/// monitoring asteroid and turns clockwise, clearing the first
/// asteroid on each sight line.
pub fn solve_2(map: &Vec<Point>) -> (r: Result<i64, LaserError>)
    requires
        forall|k: int|
            0 <= k < map@.len() ==> 0 <= (#[trigger] map@[k]).0 && 0 <= map@[k].1 && point_ok(
                map@[k],
            ),
        asteroids_of(map@).len() > 0,
    ensures
        match r {
            Ok(v) => exists|j: int, slopes: Seq<Slope>, ordered: Seq<Slope>, idx0: int|
                {
                    &&& #[trigger] laser_setup(map@, j, slopes, ordered, idx0)
                    &&& match laser_fire(
                        base_grid(map@),
                        asteroids_of(map@)[j],
                        ordered,
                        idx0,
                        200,
                        0,
                    ) {
                        Some(p) => v == 100 * p.0 + p.1,
                        None => false,
                    }
                },
            Err(e) => true,
        },
{
    let asteroids = get_asteroids(map);
    let grid0 = index_map(map);
    let ghost g0 = grid_views(grid0@);
    proof {
        lemma_grid_write_ok(map@, g0);
        lemma_asteroids_within(map@, map@.len() as int);
        assert(map@.take(map@.len() as int) =~= map@);
        lemma_bounds_cover(map@, map@.len() as int);
        lemma_bounds_small(map@);
        assert forall|q: int|
            0 <= q < asteroids@.len() implies point_ok(#[trigger] asteroids@[q]) && on_grid(
            g0,
            asteroids@[q].0 as int,
            asteroids@[q].1 as int,
        ) by {
            assert(map@.contains(asteroids@[q]));
            let w = choose|w: int| 0 <= w < map@.len() && map@[w] == asteroids@[q];
            assert(point_ok(map@[w]) && 0 <= map@[w].0 && 0 <= map@[w].1);
            assert(map@[w].0 <= bounds_fold(map@).0 && map@[w].1 <= bounds_fold(map@).1);
        }
    }
    // the best monitoring asteroid, ties to the earliest
    let mut best: usize = count_asteroids_in_sight(&asteroids, &asteroids[0], &grid0);
    let mut bi: usize = 0;
    let mut i: usize = 1;
    while i < asteroids.len()
        invariant
            1 <= i <= asteroids@.len(),
            asteroids@ == asteroids_of(map@),
            asteroids@.len() > 0,
            bi < i,
            grid_ok(g0),
            g0 == grid_views(grid0@),
            g0 == base_grid(map@),
            forall|q: int|
                0 <= q < asteroids@.len() ==> point_ok(#[trigger] asteroids@[q]) && on_grid(
                    g0,
                    asteroids@[q].0 as int,
                    asteroids@[q].1 as int,
                ),
            best == seen_count(g0, asteroids@, asteroids@[bi as int]),
            forall|q: int|
                0 <= q < i ==> seen_count(g0, asteroids@, #[trigger] asteroids@[q]) <= best,
            forall|q: int|
                0 <= q < bi ==> seen_count(g0, asteroids@, #[trigger] asteroids@[q]) < best,
        decreases asteroids@.len() - i,
    {
        let c = count_asteroids_in_sight(&asteroids, &asteroids[i], &grid0);
        if c > best {
            best = c;
            bi = i;
        }
        i = i + 1;
    }
    let start: Point = asteroids[bi];
    // every sight line from the monitoring asteroid
    let mut slopes: Vec<Slope> = Vec::new();
    let mut q2: usize = 0;
    while q2 < asteroids.len()
        invariant
            q2 <= asteroids@.len(),
            asteroids@ == asteroids_of(map@),
            bi < asteroids@.len(),
            start == asteroids@[bi as int],
            forall|q: int| 0 <= q < asteroids@.len() ==> point_ok(#[trigger] asteroids@[q]),
            slopes@.len() == q2,
            forall|q: int|
                0 <= q < q2 ==> slope_spec_ok(
                    asteroids@[bi as int],
                    asteroids@[q],
                    (#[trigger] slopes@[q]).slope,
                ) && slopes@[q].quadrant == quadrant_of(slopes@[q].slope) && slope_ok(
                    slopes@[q].slope.0 as int,
                ) && slope_ok(slopes@[q].slope.1 as int) && !(slopes@[q].slope.0 == 0
                    && slopes@[q].slope.1 == 0),
        decreases asteroids@.len() - q2,
    {
        slopes.push(Slope::new(&start, &asteroids[q2]));
        q2 = q2 + 1;
    }
    let ordered = match sweep_order(&slopes) {
        Ok(o) => o,
        Err(e) => {
            return Err(e);
        },
    };
    // the sweep starts straight up
    let mut idx0: usize = 0;
    let mut found_up: bool = false;
    while idx0 < ordered.len() && !found_up
        invariant
            idx0 <= ordered@.len(),
            found_up ==> idx0 >= 1 && idx0 - 1 < ordered@.len() && ordered@[idx0 as int - 1].slope
                == (-1i64, 0i64),
        decreases ordered@.len() - idx0 + (if found_up {
            0int
        } else {
            1int
        }),
    {
        if ordered[idx0].slope.0 == -1 && ordered[idx0].slope.1 == 0 {
            found_up = true;
        }
        idx0 = idx0 + 1;
    }
    if !found_up {
        return Err(LaserError::NoStart);
    }
    let start_idx: usize = idx0 - 1;
    proof {
        assert(laser_setup(map@, bi as int, slopes@, ordered@, start_idx as int)) by {
            assert(asteroids_of(map@)[bi as int] == asteroids@[bi as int]);
        }
    }
    // the sweep itself
    let mut grid = grid0;
    let mut idx: usize = start_idx;
    let mut left: u32 = 200;
    let mut misses: usize = 0;
    let ghost target = laser_fire(g0, start, ordered@, start_idx as int, 200, 0);
    let olen: usize = ordered.len();
    loop
        invariant
            grid_ok(grid_views(grid@)),
            grid@.len() == g0.len() > 0,
            grid@.len() <= 0x4000_0001,
            grid_views(grid@).len() > 0 && grid_views(grid@)[0].len() <= 0x4000_0001,
            grid_views(grid@)[0].len() == g0[0].len(),
            olen == ordered@.len() > 0,
            idx < olen,
            misses <= olen,
            1 <= left <= 200,
            point_ok(start),
            forall|k: int|
                0 <= k < ordered@.len() ==> slope_ok((#[trigger] ordered@[k]).slope.0 as int)
                    && slope_ok(ordered@[k].slope.1 as int) && !(ordered@[k].slope.0 == 0
                    && ordered@[k].slope.1 == 0),
            laser_setup(map@, bi as int, slopes@, ordered@, start_idx as int),
            start == asteroids_of(map@)[bi as int],
            g0 == base_grid(map@),
            target == laser_fire(g0, asteroids_of(map@)[bi as int], ordered@, start_idx as int, 200, 0),
            target == laser_fire(
                grid_views(grid@),
                start,
                ordered@,
                idx as int,
                left as nat,
                misses as nat,
            ),
        decreases left, olen - misses,
    {
        if misses >= olen {
            return Err(LaserError::Starved);
        }
        let sl: Slope = ordered[idx];
        let shot = destroy_asteroid(&mut grid, &start, &sl);
        let nidx: usize = if idx + 1 == olen {
            0
        } else {
            idx + 1
        };
        match shot {
            Some(p) => {
                if left == 1 {
                    proof {
                        assert(target == Some((p.0 as int, p.1 as int)));
                        assert(laser_setup(map@, bi as int, slopes@, ordered@, start_idx as int));
                    }
                    let v: i64 = 100 * p.0 + p.1;
                    return Ok(v);
                }
                left = left - 1;
                misses = 0;
            },
            None => {
                misses = misses + 1;
            },
        }
        idx = nidx;
    }
}

} // verus!
