//! Points on the planar grid, integer square roots and straight-line distance.
use vstd::prelude::*;

verus! {

/// A point on the planar grid: easting `x` and northing `y`, in meters.
#[derive(Clone, Copy, Debug, PartialEq, Eq, Structural)]
pub struct GeoPoint {
    pub x: i32,
    pub y: i32,
}

/// Squared euclidean distance between two points.
pub open spec fn sq_dist(a: GeoPoint, b: GeoPoint) -> nat {
    let dx = a.x as int - b.x as int;
    let dy = a.y as int - b.y as int;
    (dx * dx + dy * dy) as nat
}

/// `r` is the integer square root of `n`, rounded down.
pub open spec fn is_floor_sqrt(r: int, n: int) -> bool {
    0 <= r && r * r <= n && n < (r + 1) * (r + 1)
}

/// The rounded-down square root of `n` (defined for `n >= 0`).
pub open spec fn floor_sqrt(n: int) -> int {
    choose|r: int| is_floor_sqrt(r, n)
}

/// Straight-line distance in whole meters, rounded down.
pub open spec fn straight_dist(a: GeoPoint, b: GeoPoint) -> nat {
    floor_sqrt(sq_dist(a, b) as int) as nat
}

/// Two roots of the same number agree.
pub proof fn lemma_floor_sqrt_unique(r1: int, r2: int, n: int)
    requires
        is_floor_sqrt(r1, n),
        is_floor_sqrt(r2, n),
    ensures
        r1 == r2,
{
    if r1 < r2 {
        assert((r1 + 1) * (r1 + 1) <= r2 * r2) by (nonlinear_arith)
            requires 0 <= r1 + 1 <= r2;
    } else if r2 < r1 {
        assert((r2 + 1) * (r2 + 1) <= r1 * r1) by (nonlinear_arith)
            requires 0 <= r2 + 1 <= r1;
    }
}

/// A root that has been found is the one that `floor_sqrt` names.
pub proof fn lemma_floor_sqrt_is(r: int, n: int)
    requires
        is_floor_sqrt(r, n),
    ensures
        floor_sqrt(n) == r,
{
    assert(is_floor_sqrt(floor_sqrt(n), n));
    lemma_floor_sqrt_unique(floor_sqrt(n), r, n);
}

/// Integer square root, rounded down, by bisection.
pub fn isqrt(n: u128) -> (r: u64)
    ensures
        is_floor_sqrt(r as int, n as int),
        r as int == floor_sqrt(n as int),
{
    // lo * lo <= n < hi * hi
    let mut lo: u128 = 0;
    let mut hi: u128 = 0x1_0000_0000_0000_0000;
    assert(n < hi * hi) by (nonlinear_arith)
        requires hi == 0x1_0000_0000_0000_0000u128, n <= u128::MAX;
    while hi - lo > 1
        invariant
            lo < hi <= 0x1_0000_0000_0000_0000,
            lo * lo <= n,
            n < hi * hi,
        decreases hi - lo,
    {
        let mid: u128 = lo + (hi - lo) / 2;
        assert(lo < mid < hi);
        assert(mid * mid < 0x1_0000_0000_0000_0000 * 0x1_0000_0000_0000_0000) by (nonlinear_arith)
            requires mid < 0x1_0000_0000_0000_0000int, 0 <= mid;
        let sq: u128 = if mid == 0x1_0000_0000_0000_0000 {
            0
        } else {
            assert(mid * mid <= u128::MAX) by (nonlinear_arith)
                requires mid < 0x1_0000_0000_0000_0000int, 0 <= mid;
            mid * mid
        };
        if sq <= n {
            lo = mid;
        } else {
            hi = mid;
        }
    }
    assert(hi == lo + 1);
    proof {
        lemma_floor_sqrt_is(lo as int, n as int);
    }
    lo as u64
}

/// Squared distance between two points, exactly.
pub fn squared_distance(a: GeoPoint, b: GeoPoint) -> (r: u128)
    ensures
        r as int == sq_dist(a, b),
{
    let dx: i64 = a.x as i64 - b.x as i64;
    let dy: i64 = a.y as i64 - b.y as i64;
    let ax: u128 = if dx < 0 { (-dx) as u128 } else { dx as u128 };
    let ay: u128 = if dy < 0 { (-dy) as u128 } else { dy as u128 };
    assert(ax * ax <= 0x1_0000_0000 * 0x1_0000_0000) by (nonlinear_arith)
        requires 0 <= ax <= 0x1_0000_0000int;
    assert(ay * ay <= 0x1_0000_0000 * 0x1_0000_0000) by (nonlinear_arith)
        requires 0 <= ay <= 0x1_0000_0000int;
    assert(ax * ax == dx * dx) by (nonlinear_arith)
        requires ax == dx || ax == -dx;
    assert(ay * ay == dy * dy) by (nonlinear_arith)
        requires ay == dy || ay == -dy;
    ax * ax + ay * ay
}

/// Straight-line distance between two points in whole meters, rounded down.
pub fn straight_distance(a: GeoPoint, b: GeoPoint) -> (r: u64)
    ensures
        r as nat == straight_dist(a, b),
{
    isqrt(squared_distance(a, b))
}

} // verus!
