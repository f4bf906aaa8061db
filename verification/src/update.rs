//! The update step: the mean of every cluster, and how far centroids moved.

use vstd::prelude::*;
use crate::fixed::{is_number, magnitude, quotient_toward_zero, spec_is_number, LIMIT, NOT_A_NUMBER, THRESHOLD};
use crate::geometry::{check_numeric, is_numeric, Point};

verus! {

/// How many of the `labels` are `c`.
pub open spec fn cluster_size(labels: Seq<usize>, c: usize) -> nat
    decreases labels.len(),
{
    if labels.len() == 0 {
        0
    } else {
        cluster_size(labels.drop_last(), c) + if labels.last() == c {
            1nat
        } else {
            0nat
        }
    }
}

/// The sum, along one axis, of the points labelled `c`.
pub open spec fn cluster_sum(points: Seq<Point>, labels: Seq<usize>, c: usize, axis: int) -> int
    decreases labels.len(),
{
    if labels.len() == 0 {
        0
    } else {
        cluster_sum(points, labels.drop_last(), c, axis) + if labels.last() == c {
            points[labels.len() - 1][axis] as int
        } else {
            0
        }
    }
}

/// Every point labelled `c` has a number along the axis.
pub open spec fn cluster_is_numeric(points: Seq<Point>, labels: Seq<usize>, c: usize, axis: int) -> bool {
    forall|i: int| 0 <= i < labels.len() && labels[i] == c ==> spec_is_number(#[trigger] points[i][axis])
}

/// One coordinate of the mean of cluster `c`: the sum over its points divided
/// by their count, rounded toward zero; not a number as soon as one of the
/// points has no number there.
pub open spec fn mean_coord(points: Seq<Point>, labels: Seq<usize>, c: usize, axis: int) -> i64 {
    if cluster_is_numeric(points, labels, c, axis) {
        quotient_toward_zero(cluster_sum(points, labels, c, axis), cluster_size(labels, c) as int) as i64
    } else {
        NOT_A_NUMBER
    }
}

/// The mean of the points labelled `c`.
pub open spec fn cluster_mean(points: Seq<Point>, labels: Seq<usize>, c: usize) -> Point {
    [mean_coord(points, labels, c, 0), mean_coord(points, labels, c, 1), mean_coord(points, labels, c, 2)]
}

/// A cluster has at most as many points as there are labels, and the sum of
/// a numeric cluster is bounded by its size.
pub proof fn lemma_cluster_bounds(points: Seq<Point>, labels: Seq<usize>, c: usize, axis: int)
    requires
        cluster_is_numeric(points, labels, c, axis),
    ensures
        cluster_size(labels, c) <= labels.len(),
        magnitude(cluster_sum(points, labels, c, axis)) <= cluster_size(labels, c) * LIMIT,
    decreases labels.len(),
{
    if labels.len() > 0 {
        let front = labels.drop_last();
        assert forall|i: int| 0 <= i < front.len() && front[i] == c implies spec_is_number(
            #[trigger] points[i][axis],
        ) by {
            assert(labels[i] == front[i]);
        }
        lemma_cluster_bounds(points, front, c, axis);
        if labels.last() == c {
            assert(spec_is_number(points[labels.len() - 1][axis]));
        }
    }
}

/// A quotient rounded toward zero is no larger in magnitude than the bound
/// on the average of its terms.
pub proof fn lemma_quotient_bounds(n: int, d: int, bound: int)
    requires
        d > 0,
        bound >= 0,
        magnitude(n) <= d * bound,
    ensures
        magnitude(quotient_toward_zero(n, d)) <= bound,
        magnitude(quotient_toward_zero(n, d)) == magnitude(n) / d,
        magnitude(n) - d < magnitude(quotient_toward_zero(n, d)) * d <= magnitude(n),
{
    let m = magnitude(n);
    assert(m / d <= bound && (m / d) * d <= m && m - d < (m / d) * d && m / d >= 0)
        by (nonlinear_arith)
        requires
            d > 0,
            bound >= 0,
            0 <= m <= d * bound,
    ;
}

/// The mean of a cluster that is numeric along an axis is a number there,
/// and lies within one unit of the exact average.
pub proof fn lemma_mean_is_number(points: Seq<Point>, labels: Seq<usize>, c: usize, axis: int)
    requires
        cluster_size(labels, c) > 0,
        cluster_is_numeric(points, labels, c, axis),
    ensures
        spec_is_number(mean_coord(points, labels, c, axis)),
        magnitude(
            mean_coord(points, labels, c, axis) * cluster_size(labels, c) - cluster_sum(
                points,
                labels,
                c,
                axis,
            ),
        ) < cluster_size(labels, c),
{
    let n = cluster_sum(points, labels, c, axis);
    let d = cluster_size(labels, c) as int;
    lemma_cluster_bounds(points, labels, c, axis);
    lemma_quotient_bounds(n, d, LIMIT as int);
    let q = quotient_toward_zero(n, d);
    assert(q * d == if n >= 0 {
        magnitude(q) * d
    } else {
        -(magnitude(q) * d)
    }) by (nonlinear_arith)
        requires
            q == if n >= 0 {
                magnitude(q)
            } else {
                -magnitude(q)
            },
    ;
}

/// One coordinate of the mean of cluster `c`, or `None` when the cluster is
/// empty.
pub fn axis_mean(points: &Vec<Point>, labels: &Vec<usize>, c: usize, axis: usize) -> (r: Option<i64>)
    requires
        labels.len() == points.len(),
        axis < 3,
    ensures
        match r {
            Some(m) => cluster_size(labels@, c) > 0 && m == mean_coord(points@, labels@, c, axis as int),
            None => cluster_size(labels@, c) == 0,
        },
{
    let mut sum: i128 = 0;
    let mut count: usize = 0;
    let mut numeric: bool = true;
    let mut i: usize = 0;
    while i < labels.len()
        invariant
            i <= labels.len(),
            labels.len() == points.len(),
            axis < 3,
            count == cluster_size(labels@.take(i as int), c),
            count <= i,
            numeric == cluster_is_numeric(points@, labels@.take(i as int), c, axis as int),
            numeric ==> sum == cluster_sum(points@, labels@.take(i as int), c, axis as int),
            magnitude(sum as int) <= count * LIMIT,
        decreases labels.len() - i,
    {
        proof {
            assert(labels@.take(i + 1).drop_last() =~= labels@.take(i as int));
            assert(labels@.take(i + 1).last() == labels@[i as int]);
            assert forall|m: int| 0 <= m < i implies labels@.take(i + 1)[m] == labels@.take(
                i as int,
            )[m] by {}
        }
        if labels[i] == c {
            let v: i64 = points[i][axis];
            count += 1;
            if numeric && is_number(v) {
                sum += v as i128;
            } else {
                proof {
                    if numeric {
                        assert(labels@.take(i + 1)[i as int] == c);
                        assert(!spec_is_number(points@[i as int][axis as int]));
                    } else {
                        let w = choose|w: int|
                            0 <= w < i && labels@.take(i as int)[w] == c && !spec_is_number(
                                #[trigger] points@[w][axis as int],
                            );
                        assert(labels@.take(i + 1)[w] == c);
                    }
                }
                numeric = false;
            }
        } else {
            proof {
                if !numeric {
                    let w = choose|w: int|
                        0 <= w < i && labels@.take(i as int)[w] == c && !spec_is_number(
                            #[trigger] points@[w][axis as int],
                        );
                    assert(labels@.take(i + 1)[w] == c);
                }
            }
        }
        i += 1;
    }
    proof {
        assert(labels@.take(i as int) =~= labels@);
    }
    if count == 0 {
        return None;
    }
    if !numeric {
        return Some(NOT_A_NUMBER);
    }
    proof {
        lemma_quotient_bounds(sum as int, count as int, LIMIT as int);
    }
    let m: u128 = if sum < 0 {
        (-sum) as u128
    } else {
        sum as u128
    };
    let q: u128 = m / (count as u128);
    if sum < 0 {
        Some(-(q as i64))
    } else {
        Some(q as i64)
    }
}

/// The mean of the points labelled `c`, or `None` when there is none.
pub fn mean_of_cluster(points: &Vec<Point>, labels: &Vec<usize>, c: usize) -> (r: Option<Point>)
    requires
        labels.len() == points.len(),
    ensures
        match r {
            Some(m) => cluster_size(labels@, c) > 0 && m == cluster_mean(points@, labels@, c),
            None => cluster_size(labels@, c) == 0,
        },
{
    let x: i64 = match axis_mean(points, labels, c, 0) {
        Some(v) => v,
        None => {
            return None;
        },
    };
    let y: i64 = match axis_mean(points, labels, c, 1) {
        Some(v) => v,
        None => {
            return None;
        },
    };
    let z: i64 = match axis_mean(points, labels, c, 2) {
        Some(v) => v,
        None => {
            return None;
        },
    };
    let m: Point = [x, y, z];
    assert(m =~= cluster_mean(points@, labels@, c));
    Some(m)
}

/// How far apart two points are, coordinate by coordinate.
pub open spec fn shift(a: Point, b: Point) -> int {
    magnitude(a[0] - b[0]) + magnitude(a[1] - b[1]) + magnitude(a[2] - b[2])
}

/// The sum of the shifts between centroids at the same place in two lists.
pub open spec fn total_shift(before: Seq<Point>, after: Seq<Point>) -> int
    decreases before.len(),
{
    if before.len() == 0 {
        0
    } else {
        total_shift(before.drop_last(), after.drop_last()) + shift(before.last(), after.last())
    }
}

/// Every centroid of the list is numeric.
pub open spec fn all_numeric(cs: Seq<Point>) -> bool {
    forall|c: int| 0 <= c < cs.len() ==> is_numeric(#[trigger] cs[c])
}

/// The centroids have settled: all of them are numeric before and after, and
/// together they moved by less than [`THRESHOLD`].
pub open spec fn converged(before: Seq<Point>, after: Seq<Point>) -> bool {
    &&& before.len() == after.len()
    &&& all_numeric(before)
    &&& all_numeric(after)
    &&& total_shift(before, after) < THRESHOLD
}

/// The magnitude of the difference of two numbers.
fn axis_shift(a: i64, b: i64) -> (r: u128)
    requires
        spec_is_number(a),
        spec_is_number(b),
    ensures
        r == magnitude(a - b),
        r <= 2_000_000_000_000_000_000,
{
    let d: i128 = a as i128 - b as i128;
    if d < 0 {
        (-d) as u128
    } else {
        d as u128
    }
}

/// Tells whether the centroids have settled.
pub fn has_converged(before: &Vec<Point>, after: &Vec<Point>) -> (r: bool)
    ensures
        r == converged(before@, after@),
{
    if before.len() != after.len() {
        return false;
    }
    let mut total: u128 = 0;
    let mut c: usize = 0;
    while c < before.len()
        invariant
            c <= before.len(),
            before.len() == after.len(),
            all_numeric(before@.take(c as int)),
            all_numeric(after@.take(c as int)),
            total == total_shift(before@.take(c as int), after@.take(c as int)),
            total <= c * 6_000_000_000_000_000_000,
        decreases before.len() - c,
    {
        if !check_numeric(&before[c]) || !check_numeric(&after[c]) {
            return false;
        }
        let a: &Point = &before[c];
        let b: &Point = &after[c];
        let s: u128 = axis_shift(a[0], b[0]) + axis_shift(a[1], b[1]) + axis_shift(a[2], b[2]);
        proof {
            assert(before@.take(c + 1).drop_last() =~= before@.take(c as int));
            assert(after@.take(c + 1).drop_last() =~= after@.take(c as int));
        }
        total += s;
        c += 1;
    }
    proof {
        assert(before@.take(c as int) =~= before@);
        assert(after@.take(c as int) =~= after@);
    }
    total < THRESHOLD
}

} // verus!
