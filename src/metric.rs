//! Distances between points: the Euclidean length, rounded down.

use crate::geom::Point;
use vstd::prelude::*;

verus! {

pub open spec fn is_floor_sqrt(n: int, r: int) -> bool {
    0 <= r && r * r <= n < (r + 1) * (r + 1)
}

/// The square root of `n`, rounded down.
pub open spec fn floor_sqrt(n: int) -> int {
    choose|r: int| is_floor_sqrt(n, r)
}

pub open spec fn sq_dist(a: Point, b: Point) -> int {
    (a.x - b.x) * (a.x - b.x) + (a.y - b.y) * (a.y - b.y)
}

/// The Euclidean distance, rounded down.
pub open spec fn dist(a: Point, b: Point) -> int {
    floor_sqrt(sq_dist(a, b))
}

proof fn lemma_floor_sqrt_exists(n: int)
    requires
        n >= 0,
    ensures
        exists|r: int| #[trigger] is_floor_sqrt(n, r),
    decreases n,
{
    if n == 0 {
        assert(is_floor_sqrt(0, 0));
    } else {
        lemma_floor_sqrt_exists(n - 1);
        let r = choose|r: int| #[trigger] is_floor_sqrt(n - 1, r);
        if (r + 1) * (r + 1) <= n {
            assert((r + 1) * (r + 1) == r * r + 2 * r + 1) by (nonlinear_arith);
            assert((r + 2) * (r + 2) == r * r + 4 * r + 4) by (nonlinear_arith);
            assert(is_floor_sqrt(n, r + 1));
        } else {
            assert(is_floor_sqrt(n, r));
        }
    }
}

/// The rounded distance is never negative.
pub broadcast proof fn lemma_dist_nonneg(a: Point, b: Point)
    ensures
        #[trigger] dist(a, b) >= 0,
{
    lemma_dist_is_floor_sqrt(a, b);
}

/// The rounded distance is a floor square root of the squared distance.
pub proof fn lemma_dist_is_floor_sqrt(a: Point, b: Point)
    ensures
        is_floor_sqrt(sq_dist(a, b), dist(a, b)),
{
    assert(sq_dist(a, b) >= 0) by (nonlinear_arith);
    lemma_floor_sqrt_exists(sq_dist(a, b));
}

proof fn lemma_floor_sqrt_unique(n: int, a: int, b: int)
    requires
        is_floor_sqrt(n, a),
        is_floor_sqrt(n, b),
    ensures
        a == b,
{
    if a < b {
        assert((a + 1) * (a + 1) <= b * b) by (nonlinear_arith)
            requires
                0 <= a,
                a + 1 <= b,
        ;
    } else if b < a {
        assert((b + 1) * (b + 1) <= a * a) by (nonlinear_arith)
            requires
                0 <= b,
                b + 1 <= a,
        ;
    }
}

/// The square root of `n`, rounded down, found by bisection.
fn isqrt(n: u128) -> (r: u64)
    requires
        n < 73786976294838206464,
    ensures
        is_floor_sqrt(n as int, r as int),
        r == floor_sqrt(n as int),
{
    let mut lo: u128 = 0;
    let mut hi: u128 = 8589934592;
    assert(hi * hi == 73786976294838206464);
    while hi - lo > 1
        invariant
            lo < hi <= 8589934592,
            lo * lo <= n,
            n < hi * hi,
        decreases hi - lo,
    {
        let mid = lo + (hi - lo) / 2;
        assert(mid * mid <= 8589934592 * 8589934592) by (nonlinear_arith)
            requires
                mid <= 8589934592,
        ;
        if mid * mid <= n {
            lo = mid;
        } else {
            hi = mid;
        }
    }
    assert(hi == lo + 1);
    proof {
        lemma_floor_sqrt_unique(n as int, lo as int, floor_sqrt(n as int));
    }
    lo as u64
}

/// The distance between two points, rounded down.
pub fn distance(a: &Point, b: &Point) -> (r: u64)
    ensures
        r == dist(*a, *b),
{
    let dx = a.x as i64 - b.x as i64;
    let dy = a.y as i64 - b.y as i64;
    proof {
        assert(dx * dx <= 4294967295 * 4294967295) by (nonlinear_arith)
            requires
                -4294967295 <= dx <= 4294967295,
        ;
        assert(dy * dy <= 4294967295 * 4294967295) by (nonlinear_arith)
            requires
                -4294967295 <= dy <= 4294967295,
        ;
        assert(0 <= dx * dx) by (nonlinear_arith);
        assert(0 <= dy * dy) by (nonlinear_arith);
    }
    let sx = (dx as i128 * dx as i128) as u128;
    let sy = (dy as i128 * dy as i128) as u128;
    isqrt(sx + sy)
}

} // verus!
