//! Distances between fixes on the plane.
//!
//! Coordinates are whole numbers of a length unit that the caller chooses, so
//! a distance is the square root of a whole number, rounded down.

use vstd::prelude::*;
use crate::point::Point;

verus! {

/// No two fixes are farther apart than this.
pub const MAX_DISTANCE: u64 = 0x1_7fff_ffff;

/// `r` is the square root of `n`, rounded down.
pub open spec fn is_floor_sqrt(r: int, n: int) -> bool {
    0 <= r && r * r <= n < (r + 1) * (r + 1)
}

/// The square root of `n`, rounded down.
pub open spec fn floor_sqrt(n: int) -> int {
    choose|r: int| is_floor_sqrt(r, n)
}

/// The square of the Euclidean distance between two fixes.
pub open spec fn squared_distance(a: Point, b: Point) -> int {
    (a.x - b.x) * (a.x - b.x) + (a.y - b.y) * (a.y - b.y)
}

/// The Euclidean distance between two fixes, rounded down to a whole unit.
pub open spec fn planar_distance(a: Point, b: Point) -> int {
    floor_sqrt(squared_distance(a, b))
}

/// A number has at most one rounded-down square root.
pub proof fn lemma_floor_sqrt_unique(r: int, s: int, n: int)
    requires
        is_floor_sqrt(r, n),
        is_floor_sqrt(s, n),
    ensures
        r == s,
{
    if r < s {
        assert((r + 1) * (r + 1) <= s * s) by (nonlinear_arith)
            requires
                0 <= r,
                r + 1 <= s,
        ;
    }
    if s < r {
        assert((s + 1) * (s + 1) <= r * r) by (nonlinear_arith)
            requires
                0 <= s,
                s + 1 <= r,
        ;
    }
}

/// Whatever squares to at most `n` and whose successor squares to more is
/// the rounded-down square root of `n`.
pub proof fn lemma_floor_sqrt_is(r: int, n: int)
    requires
        is_floor_sqrt(r, n),
    ensures
        floor_sqrt(n) == r,
{
    lemma_floor_sqrt_unique(r, floor_sqrt(n), n);
}

/// The planar distance does not depend on the direction of travel.
pub proof fn lemma_planar_distance_symmetric(a: Point, b: Point)
    ensures
        planar_distance(a, b) == planar_distance(b, a),
{
    assert(squared_distance(a, b) == squared_distance(b, a)) by (nonlinear_arith)
        requires
            squared_distance(a, b) == (a.x - b.x) * (a.x - b.x) + (a.y - b.y) * (a.y - b.y),
            squared_distance(b, a) == (b.x - a.x) * (b.x - a.x) + (b.y - a.y) * (b.y - a.y),
    ;
}

/// A fix is at distance zero from a fix at the same position.
pub proof fn lemma_planar_distance_zero(a: Point, b: Point)
    requires
        a.x == b.x,
        a.y == b.y,
    ensures
        planar_distance(a, b) == 0,
{
    assert(squared_distance(a, b) == 0) by (nonlinear_arith)
        requires
            a.x == b.x,
            a.y == b.y,
            squared_distance(a, b) == (a.x - b.x) * (a.x - b.x) + (a.y - b.y) * (a.y - b.y),
    ;
    assert(is_floor_sqrt(0, 0));
    lemma_floor_sqrt_is(0, squared_distance(a, b));
}

/// A planar distance is never negative and never above `MAX_DISTANCE`.
pub proof fn lemma_planar_distance_range(a: Point, b: Point)
    ensures
        0 <= planar_distance(a, b) <= MAX_DISTANCE,
{
    let n = squared_distance(a, b);
    let dx = a.x - b.x;
    let dy = a.y - b.y;
    assert(0 <= n <= 2 * (0xffff_ffff * 0xffff_ffff)) by (nonlinear_arith)
        requires
            n == dx * dx + dy * dy,
            -0xffff_ffff <= dx <= 0xffff_ffff,
            -0xffff_ffff <= dy <= 0xffff_ffff,
    ;
    lemma_floor_sqrt_exists(n);
    let d = floor_sqrt(n);
    if d > MAX_DISTANCE {
        assert(d * d > 2 * (0xffff_ffff * 0xffff_ffff)) by (nonlinear_arith)
            requires
                d >= 0x1_8000_0000,
        ;
    }
}

/// Every number from zero on has a rounded-down square root.
pub proof fn lemma_floor_sqrt_exists(n: int)
    requires
        0 <= n,
    ensures
        is_floor_sqrt(floor_sqrt(n), n),
    decreases n,
{
    if n == 0 {
        assert(is_floor_sqrt(0, 0));
    } else {
        lemma_floor_sqrt_exists(n - 1);
        let r = floor_sqrt(n - 1);
        if (r + 1) * (r + 1) <= n {
            assert((r + 2) * (r + 2) > n) by (nonlinear_arith)
                requires
                    0 <= r,
                    n - 1 < (r + 1) * (r + 1),
            ;
            assert(is_floor_sqrt(r + 1, n));
        } else {
            assert(is_floor_sqrt(r, n));
        }
    }
}

/// The absolute difference of two coordinates.
fn span(p: i32, q: i32) -> (d: u64)
    ensures
        d == if p >= q { p - q } else { q - p },
        d <= 0xffff_ffff,
{
    let wide_p: i64 = p as i64;
    let wide_q: i64 = q as i64;
    if wide_p >= wide_q {
        (wide_p - wide_q) as u64
    } else {
        (wide_q - wide_p) as u64
    }
}

/// Finds the rounded-down square root of `n` between two bounds that
/// enclose it, by bisection.
fn sqrt_between(n: u128, low: u64, high: u64) -> (r: u64)
    requires
        low * low <= n < high * high,
    ensures
        is_floor_sqrt(r as int, n as int),
{
    let mut lo: u64 = low;
    let mut hi: u64 = high;
    assert(lo < hi) by (nonlinear_arith)
        requires
            lo * lo < hi * hi,
    ;
    while hi - lo > 1
        invariant
            lo < hi,
            lo * lo <= n < hi * hi,
        decreases hi - lo,
    {
        let mid: u64 = lo + (hi - lo) / 2;
        assert(mid * mid <= 0xffff_ffff_ffff_ffff * 0xffff_ffff_ffff_ffff) by (nonlinear_arith)
            requires
                0 <= mid <= 0xffff_ffff_ffff_ffff,
        ;
        let square: u128 = (mid as u128) * (mid as u128);
        if square <= n {
            lo = mid;
        } else {
            hi = mid;
        }
    }
    lo
}

/// The distance between two fixes on the plane, in the unit of their
/// coordinates, rounded down.
pub fn distance(a: &Point, b: &Point) -> (d: u64)
    ensures
        d == planar_distance(*a, *b),
        d <= MAX_DISTANCE,
{
    let dx: u64 = span(a.x, b.x);
    let dy: u64 = span(a.y, b.y);
    let (short, long) = if dx <= dy { (dx, dy) } else { (dy, dx) };
    proof {
        assert(dx * dx == (a.x - b.x) * (a.x - b.x)) by (nonlinear_arith)
            requires
                dx == a.x - b.x || dx == b.x - a.x,
        ;
        assert(dy * dy == (a.y - b.y) * (a.y - b.y)) by (nonlinear_arith)
            requires
                dy == a.y - b.y || dy == b.y - a.y,
        ;
        assert(long * long <= 0xffff_ffff * 0xffff_ffff && short * short <= long * long
            && 0 <= short * short) by (nonlinear_arith)
            requires
                0 <= short <= long <= 0xffff_ffff,
        ;
        assert((long + short + 1) * (long + short + 1) > long * long + short * short)
            by (nonlinear_arith)
            requires
                0 <= short,
                0 <= long,
        ;
    }
    let n: u128 = (dx as u128) * (dx as u128) + (dy as u128) * (dy as u128);
    let d = sqrt_between(n, long, long + short + 1);
    proof {
        lemma_floor_sqrt_is(d as int, squared_distance(*a, *b));
        if d > MAX_DISTANCE {
            assert(d * d > 2 * (0xffff_ffff * 0xffff_ffff)) by (nonlinear_arith)
                requires
                    d >= 0x1_8000_0000,
            ;
        }
    }
    d
}

} // verus!
