//! Points in space and the Euclidean distance between them.

use vstd::prelude::*;
use crate::fixed::{is_number, spec_is_number};

verus! {

/// A point: three coordinates in fixed-point units.
pub type Point = [i64; 3];

/// A point is numeric when each of its coordinates is a number.
pub open spec fn is_numeric(p: Point) -> bool {
    forall|axis: int| 0 <= axis < 3 ==> spec_is_number(#[trigger] p[axis])
}

/// Tells whether every coordinate of `p` is a number.
pub fn check_numeric(p: &Point) -> (r: bool)
    ensures
        r == is_numeric(*p),
{
    is_number(p[0]) && is_number(p[1]) && is_number(p[2])
}

/// The square of the Euclidean distance between `a` and `b`, in squared units.
pub open spec fn dist_sq(a: Point, b: Point) -> int {
    (a[0] - b[0]) * (a[0] - b[0]) + (a[1] - b[1]) * (a[1] - b[1]) + (a[2] - b[2]) * (a[2] - b[2])
}

/// A distance between two points exists when both are numeric.
pub open spec fn comparable(a: Point, b: Point) -> bool {
    is_numeric(a) && is_numeric(b)
}

/// `r` is the integer square root of `n`: the largest integer whose square
/// does not exceed `n`.
pub open spec fn is_floor_sqrt(n: int, r: int) -> bool {
    0 <= r && r * r <= n < (r + 1) * (r + 1)
}

/// The integer square root is unique.
pub proof fn lemma_floor_sqrt_unique(n: int, r1: int, r2: int)
    requires
        is_floor_sqrt(n, r1),
        is_floor_sqrt(n, r2),
    ensures
        r1 == r2,
{
    if r1 < r2 {
        assert((r1 + 1) * (r1 + 1) <= r2 * r2) by (nonlinear_arith)
            requires
                0 <= r1,
                r1 + 1 <= r2,
        ;
    } else if r2 < r1 {
        assert((r2 + 1) * (r2 + 1) <= r1 * r1) by (nonlinear_arith)
            requires
                0 <= r2,
                r2 + 1 <= r1,
        ;
    }
}

/// A larger number has no smaller integer square root, so centroids are
/// ordered by squared distance as they are by distance.
pub proof fn lemma_floor_sqrt_monotone(n1: int, r1: int, n2: int, r2: int)
    requires
        is_floor_sqrt(n1, r1),
        is_floor_sqrt(n2, r2),
        n1 <= n2,
    ensures
        r1 <= r2,
{
    if r2 < r1 {
        assert((r2 + 1) * (r2 + 1) <= r1 * r1) by (nonlinear_arith)
            requires
                0 <= r2,
                r2 + 1 <= r1,
        ;
    }
}

/// The square of one coordinate difference.
fn axis_gap_sq(a: i64, b: i64) -> (r: u128)
    requires
        spec_is_number(a),
        spec_is_number(b),
    ensures
        r == (a - b) * (a - b),
        r <= 4_000_000_000_000_000_000_000_000_000_000_000_000,
{
    let d: i128 = a as i128 - b as i128;
    let m: u128 = if d < 0 {
        (-d) as u128
    } else {
        d as u128
    };
    assert(m * m == (a - b) * (a - b)) by (nonlinear_arith)
        requires
            m == a - b || m == -(a - b),
    ;
    assert(m * m <= 4_000_000_000_000_000_000_000_000_000_000_000_000) by (nonlinear_arith)
        requires
            0 <= m <= 2_000_000_000_000_000_000,
    ;
    m * m
}

/// The squared Euclidean distance between two points, or `None` when either
/// has a coordinate that is not a number.
pub fn squared_distance(a: &Point, b: &Point) -> (r: Option<u128>)
    ensures
        match r {
            Some(d) => comparable(*a, *b) && d == dist_sq(*a, *b),
            None => !comparable(*a, *b),
        },
{
    if !check_numeric(a) || !check_numeric(b) {
        return None;
    }
    let dx: u128 = axis_gap_sq(a[0], b[0]);
    let dy: u128 = axis_gap_sq(a[1], b[1]);
    let dz: u128 = axis_gap_sq(a[2], b[2]);
    Some(dx + dy + dz)
}

/// The integer square root of `n`.
pub fn floor_sqrt(n: u128) -> (r: u64)
    ensures
        is_floor_sqrt(n as int, r as int),
{
    let mut lo: u128 = 0;
    let mut hi: u128 = 0x1_0000_0000_0000_0000;
    assert(hi * hi > n) by (nonlinear_arith)
        requires
            hi == 0x1_0000_0000_0000_0000,
            n <= u128::MAX,
    ;
    while hi - lo > 1
        invariant
            lo < hi <= 0x1_0000_0000_0000_0000,
            lo * lo <= n < hi * hi,
        decreases hi - lo,
    {
        let mid: u128 = lo + (hi - lo) / 2;
        assert(mid * mid <= 0xffff_ffff_ffff_ffff * 0xffff_ffff_ffff_ffff) by (nonlinear_arith)
            requires
                0 <= mid <= 0xffff_ffff_ffff_ffff,
        ;
        if mid * mid <= n {
            lo = mid;
        } else {
            hi = mid;
        }
    }
    lo as u64
}

} // verus!
