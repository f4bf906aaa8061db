//! What holds of every clustering, proved from the definitions.

use vstd::prelude::*;
use crate::assign::{assignment, is_nearest, nearest};
use crate::cluster::{is_new_centroid, is_outcome, is_round, is_seeding, is_update, reachable, stops_at};
use crate::geometry::{comparable, dist_sq, Point};
use crate::update::{all_numeric, cluster_mean, cluster_size, converged, shift, total_shift};

verus! {

/// Centroids that do not move have a total shift of 0.
pub proof fn lemma_no_shift(cs: Seq<Point>)
    ensures
        total_shift(cs, cs) == 0,
    decreases cs.len(),
{
    if cs.len() > 0 {
        lemma_no_shift(cs.drop_last());
        assert(shift(cs.last(), cs.last()) == 0);
    }
}

/// The label of `p` among the first `n` centroids, found by going through
/// them in order.
pub open spec fn least_place(p: Point, cs: Seq<Point>, n: int) -> int
    decreases n,
{
    if n <= 0 {
        0
    } else {
        let before = least_place(p, cs, n - 1);
        let j = n - 1;
        if comparable(p, cs[j]) && (!comparable(p, cs[before])
            || dist_sq(p, cs[j]) < dist_sq(p, cs[before])) {
            j
        } else {
            before
        }
    }
}

/// Going through the centroids in order finds the label.
pub proof fn lemma_least_place(p: Point, cs: Seq<Point>, n: int)
    requires
        0 <= n <= cs.len(),
    ensures
        is_nearest(p, cs.take(n), least_place(p, cs, n)),
        0 <= least_place(p, cs, n),
        n > 0 ==> least_place(p, cs, n) < n,
    decreases n,
{
    if n > 0 {
        lemma_least_place(p, cs, n - 1);
        let before = least_place(p, cs, n - 1);
        let front = cs.take(n - 1);
        let now = cs.take(n);
        assert forall|j: int| 0 <= j < n - 1 implies front[j] == now[j] by {}
        assert(now[n - 1] == cs[n - 1]);
        if n - 1 > 0 {
            assert(front[before] == cs[before]);
        }
        if exists|j: int| 0 <= j < front.len() && comparable(p, #[trigger] front[j]) {
            let w = choose|j: int| 0 <= j < front.len() && comparable(p, #[trigger] front[j]);
            assert(comparable(p, now[w]));
        } else {
            assert forall|j: int| 0 <= j < n - 1 implies !comparable(p, #[trigger] now[j]) by {
                assert(front[j] == now[j]);
            }
        }
    } else {
        assert(cs.take(0).len() == 0);
    }
}

/// Every point has a label, and with at least one centroid the label names
/// a centroid.
pub proof fn lemma_nearest_exists(p: Point, cs: Seq<Point>)
    requires
        cs.len() <= usize::MAX,
    ensures
        is_nearest(p, cs, nearest(p, cs) as int),
        cs.len() > 0 ==> nearest(p, cs) < cs.len(),
{
    let l = least_place(p, cs, cs.len() as int);
    lemma_least_place(p, cs, cs.len() as int);
    assert(cs.take(cs.len() as int) =~= cs);
    assert(0 <= l <= usize::MAX);
    assert(is_nearest(p, cs, (l as usize) as int));
}

/// The labels of a clustering into at least one cluster are as many as the
/// points, and each names a cluster.
pub proof fn lemma_labels_in_range(points: Seq<Point>, k: nat, max_iterations: nat, labels: Seq<usize>)
    requires
        1 <= k <= usize::MAX,
        is_outcome(points, k, max_iterations, labels),
    ensures
        labels.len() == points.len(),
        forall|i: int| 0 <= i < labels.len() ==> #[trigger] labels[i] < k,
{
    let (cs, rounds) = choose|cs: Seq<Point>, rounds: nat| #[trigger]
        stops_at(points, k, max_iterations, labels, cs, rounds);
    lemma_reached_count(points, k, rounds, cs);
    assert forall|i: int| 0 <= i < labels.len() implies #[trigger] labels[i] < k by {
        lemma_nearest_exists(points[i], cs);
    }
}

/// Centroids that the algorithm reaches are as many as the clusters.
pub proof fn lemma_reached_count(points: Seq<Point>, k: nat, rounds: nat, cs: Seq<Point>)
    requires
        reachable(points, k, rounds, cs),
    ensures
        cs.len() == k,
{
    if rounds > 0 {
        let before = choose|before: Seq<Point>|
            reachable(points, k, (rounds - 1) as nat, before) && #[trigger] is_round(points, k, before, cs);
    }
}

/// With no assignment step allowed beyond the first, the labels are those
/// under a seeding: every point goes to the nearest of `k` of the points.
pub proof fn lemma_single_step(points: Seq<Point>, k: nat, max_iterations: nat, labels: Seq<usize>)
    requires
        max_iterations <= 1,
        is_outcome(points, k, max_iterations, labels),
    ensures
        exists|cs: Seq<Point>| #[trigger] is_seeding(points, k, cs) && labels == assignment(points, cs),
{
    let (cs, rounds) = choose|cs: Seq<Point>, rounds: nat| #[trigger]
        stops_at(points, k, max_iterations, labels, cs, rounds);
    assert(rounds == 0);
    assert(is_seeding(points, k, cs));
}

/// At an equilibrium the update step changes nothing and the algorithm
/// stops: where every cluster has a point, every centroid is numeric and is
/// the mean of its cluster, the centroids that follow are the same, the
/// total shift is 0, and the centroids have settled.
pub proof fn lemma_equilibrium_converges(points: Seq<Point>, cs: Seq<Point>, next: Seq<Point>)
    requires
        all_numeric(cs),
        forall|c: int|
            0 <= c < cs.len() ==> cluster_size(assignment(points, cs), c as usize) > 0 && #[trigger] cs[c]
                == cluster_mean(points, assignment(points, cs), c as usize),
        is_update(points, assignment(points, cs), cs.len(), next),
    ensures
        next == cs,
        total_shift(cs, next) == 0,
        converged(cs, next),
{
    assert forall|c: int| 0 <= c < cs.len() implies next[c] == cs[c] by {
        assert(is_new_centroid(points, assignment(points, cs), c as usize, next[c]));
    }
    assert(next =~= cs);
    lemma_no_shift(cs);
}

} // verus!
