use vstd::prelude::*;

verus! {

/// Lengths are whole numbers of millionths of a unit of the plane.
pub const LENGTH_SCALE: u128 = 1_000_000;

/// A point of the integer plane, ordered by `x`, then by `y`.
#[derive(Clone, Copy, Debug, PartialEq, Eq, Structural, PartialOrd, Ord)]
pub struct Point {
    pub x: i32,
    pub y: i32,
}

/// The square of the Euclidean distance between two points.
pub open spec fn square_distance(a: Point, b: Point) -> nat {
    let dx = a.x - b.x;
    let dy = a.y - b.y;
    (dx * dx + dy * dy) as nat
}

pub open spec fn is_floor_sqrt(r: nat, n: nat) -> bool {
    r * r <= n && n < (r + 1) * (r + 1)
}

/// The largest natural number whose square is at most `n`.
pub open spec fn floor_sqrt(n: nat) -> nat {
    choose|r: nat| is_floor_sqrt(r, n)
}

/// The Euclidean distance between two points in millionths of a unit,
/// rounded down.
pub open spec fn distance(a: Point, b: Point) -> nat {
    floor_sqrt(square_distance(a, b) * (LENGTH_SCALE * LENGTH_SCALE) as nat)
}

/// Every step of a path is shorter than this bound.
pub open spec fn step_bound() -> nat {
    0x20_0000_0000_0000
}

proof fn lemma_floor_sqrt_unique(r: nat, n: nat)
    requires
        is_floor_sqrt(r, n),
    ensures
        floor_sqrt(n) == r,
{
    let s = floor_sqrt(n);
    assert(is_floor_sqrt(s, n));
    if s < r {
        assert((s + 1) * (s + 1) <= r * r) by (nonlinear_arith)
            requires
                s + 1 <= r,
        ;
    }
    if r < s {
        assert((r + 1) * (r + 1) <= s * s) by (nonlinear_arith)
            requires
                r + 1 <= s,
        ;
    }
}

/// The integer square root of `n`, rounded down, by bisection.
fn floor_sqrt_u128(n: u128) -> (r: u64)
    requires
        n < 0x20_0000_0000_0000 * 0x20_0000_0000_0000,
    ensures
        is_floor_sqrt(r as nat, n as nat),
        r < step_bound(),
{
    let mut lo: u128 = 0;
    let mut hi: u128 = 0x20_0000_0000_0000;
    while lo + 1 < hi
        invariant
            lo < hi <= 0x20_0000_0000_0000,
            lo * lo <= n,
            n < hi * hi,
        decreases hi - lo,
    {
        let mid: u128 = lo + (hi - lo) / 2;
        assert(mid * mid < 0x20_0000_0000_0000 * 0x20_0000_0000_0000) by (nonlinear_arith)
            requires
                mid < 0x20_0000_0000_0000,
        ;
        if mid * mid <= n {
            lo = mid;
        } else {
            hi = mid;
        }
    }
    lo as u64
}

/// The Euclidean distance between `a` and `b` in millionths of a unit,
/// rounded down.
pub fn scaled_distance(a: &Point, b: &Point) -> (r: u64)
    ensures
        r as nat == distance(*a, *b),
        (r as nat) < step_bound(),
{
    let dx: i64 = a.x as i64 - b.x as i64;
    let dy: i64 = a.y as i64 - b.y as i64;
    let ax: u128 = if dx < 0 { (-dx) as u128 } else { dx as u128 };
    let ay: u128 = if dy < 0 { (-dy) as u128 } else { dy as u128 };
    assert(ax * ax == dx * dx && ax * ax <= 0x1_0000_0000 * 0x1_0000_0000) by (nonlinear_arith)
        requires
            ax == dx || ax == -dx,
            0 <= ax <= 0x1_0000_0000,
    ;
    assert(ay * ay == dy * dy && ay * ay <= 0x1_0000_0000 * 0x1_0000_0000) by (nonlinear_arith)
        requires
            ay == dy || ay == -dy,
            0 <= ay <= 0x1_0000_0000,
    ;
    let sq: u128 = ax * ax + ay * ay;
    assert(LENGTH_SCALE * LENGTH_SCALE == 1_000_000_000_000);
    assert(sq * 1_000_000_000_000 < 0x20_0000_0000_0000 * 0x20_0000_0000_0000);
    let n: u128 = sq * (LENGTH_SCALE * LENGTH_SCALE);
    let r = floor_sqrt_u128(n);
    proof {
        lemma_floor_sqrt_unique(r as nat, n as nat);
    }
    r
}

impl Point {
    pub fn new(x: i32, y: i32) -> (r: Point)
        ensures
            r.x == x,
            r.y == y,
    {
        Point { x, y }
    }
}

} // verus!
