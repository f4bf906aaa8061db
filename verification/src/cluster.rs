//! Lloyd's algorithm: seeding, the alternation of assignment and update, and
//! the two ways in which it stops.

use vstd::prelude::*;
use rand::rngs::ThreadRng;
use crate::assign::{assign_points, assignment};
use crate::geometry::Point;
use crate::random::{random_below, shuffle, thread_rng};
use crate::update::{cluster_mean, cluster_size, converged, has_converged, mean_of_cluster};

verus! {

/// Fewer points than clusters, or no cluster at all.
#[derive(Clone, Copy, Debug, PartialEq, Eq, Structural)]
pub struct InsufficientDataError {
    /// How many points there were.
    pub points: usize,
    /// How many clusters were asked for.
    pub clusters: usize,
}

/// The centroids `cs` are the points at the places `picks`, and no place is
/// picked twice.
pub open spec fn is_seeding_by(points: Seq<Point>, cs: Seq<Point>, picks: Seq<usize>) -> bool {
    &&& picks.len() == cs.len()
    &&& picks.no_duplicates()
    &&& forall|c: int|
        0 <= c < cs.len() ==> (#[trigger] picks[c]) < points.len() && cs[c] == points[picks[c] as int]
}

/// The centroids `cs` are `k` of the points, taken at `k` different places.
pub open spec fn is_seeding(points: Seq<Point>, k: nat, cs: Seq<Point>) -> bool {
    cs.len() == k && exists|picks: Seq<usize>| #[trigger] is_seeding_by(points, cs, picks)
}

/// The centroid `p` may follow from the labels for cluster `c`: it is the
/// mean of the cluster, or, for a cluster without points, any one of the
/// points.
pub open spec fn is_new_centroid(points: Seq<Point>, labels: Seq<usize>, c: usize, p: Point) -> bool {
    if cluster_size(labels, c) > 0 {
        p == cluster_mean(points, labels, c)
    } else {
        exists|j: int| 0 <= j < points.len() && p == #[trigger] points[j]
    }
}

/// The `k` centroids `next` may follow from the labels.
pub open spec fn is_update(points: Seq<Point>, labels: Seq<usize>, k: nat, next: Seq<Point>) -> bool {
    &&& next.len() == k
    &&& forall|c: int| 0 <= c < k ==> is_new_centroid(points, labels, c as usize, #[trigger] next[c])
}

/// One round of the algorithm leads from the centroids `before` to `after`:
/// `after` follows from the labels under `before`, and the move was too
/// large to stop at.
pub open spec fn is_round(points: Seq<Point>, k: nat, before: Seq<Point>, after: Seq<Point>) -> bool {
    is_update(points, assignment(points, before), k, after) && !converged(before, after)
}

/// The centroids `cs` can be reached in exactly `rounds` rounds from a
/// seeding.
pub open spec fn reachable(points: Seq<Point>, k: nat, rounds: nat, cs: Seq<Point>) -> bool
    decreases rounds,
{
    if rounds == 0 {
        is_seeding(points, k, cs)
    } else {
        exists|before: Seq<Point>|
            reachable(points, k, (rounds - 1) as nat, before) && #[trigger] is_round(
                points,
                k,
                before,
                cs,
            )
    }
}

/// The labels are those under centroids that the algorithm has reached
/// after `rounds` rounds, and the algorithm stops there: either no further
/// assignment step is allowed, or an update of these centroids moved them by
/// less than the threshold.
pub open spec fn stops_at(
    points: Seq<Point>,
    k: nat,
    max_iterations: nat,
    labels: Seq<usize>,
    cs: Seq<Point>,
    rounds: nat,
) -> bool {
    &&& reachable(points, k, rounds, cs)
    &&& labels == assignment(points, cs)
    &&& rounds == 0 || rounds < max_iterations
    &&& rounds + 1 < max_iterations ==> exists|next: Seq<Point>|
        is_update(points, labels, k, next) && #[trigger] converged(cs, next)
}

/// The labels are a result of clustering the points into `k` clusters with
/// at most `max_iterations` assignment steps (one, where none is allowed).
pub open spec fn is_outcome(points: Seq<Point>, k: nat, max_iterations: nat, labels: Seq<usize>) -> bool {
    exists|cs: Seq<Point>, rounds: nat| #[trigger] stops_at(points, k, max_iterations, labels, cs, rounds)
}

/// The places 0, 1, ... up to `n`, in order.
pub open spec fn identity_order(n: nat) -> Seq<usize> {
    Seq::new(n, |i: int| i as usize)
}

/// A rearrangement of the places below `n` holds each place once.
pub proof fn lemma_rearranged_places(order: Seq<usize>, n: nat)
    requires
        n <= usize::MAX,
        order.to_multiset() == identity_order(n).to_multiset(),
    ensures
        order.len() == n,
        order.no_duplicates(),
        forall|i: int| 0 <= i < order.len() ==> #[trigger] order[i] < n,
{
    let id = identity_order(n);
    order.to_multiset_ensures();
    id.to_multiset_ensures();
    assert(id.no_duplicates());
    id.lemma_multiset_has_no_duplicates();
    order.lemma_multiset_has_no_duplicates_conv();
    assert forall|i: int| 0 <= i < order.len() implies #[trigger] order[i] < n by {
        assert(order.contains(order[i]));
        assert(order.to_multiset().count(order[i]) > 0);
        assert(id.to_multiset().count(order[i]) > 0);
        assert(id.contains(order[i]));
        let j = choose|j: int| 0 <= j < id.len() && id[j] == order[i];
        assert(id[j] == j);
    }
}

/// The places below `n`, in order.
pub fn places(n: usize) -> (order: Vec<usize>)
    ensures
        order@ == identity_order(n as nat),
{
    let mut order: Vec<usize> = Vec::new();
    let mut i: usize = 0;
    while i < n
        invariant
            i <= n,
            order.len() == i,
            forall|j: int| 0 <= j < i ==> #[trigger] order[j] == j,
        decreases n - i,
    {
        order.push(i);
        i += 1;
    }
    assert(order@ =~= identity_order(n as nat));
    order
}

/// Takes as centroids the points at the first `k` places of `order`.
pub fn seed_centroids(points: &Vec<Point>, order: &Vec<usize>, k: usize) -> (cs: Vec<Point>)
    requires
        k <= order.len(),
        order@.no_duplicates(),
        forall|i: int| 0 <= i < order.len() ==> #[trigger] order[i] < points.len(),
    ensures
        cs.len() == k,
        is_seeding_by(points@, cs@, order@.take(k as int)),
        is_seeding(points@, k as nat, cs@),
{
    let mut cs: Vec<Point> = Vec::new();
    let mut c: usize = 0;
    while c < k
        invariant
            c <= k <= order.len(),
            cs.len() == c,
            forall|i: int| 0 <= i < order.len() ==> #[trigger] order[i] < points.len(),
            forall|j: int| 0 <= j < c ==> #[trigger] cs[j] == points[order[j] as int],
        decreases k - c,
    {
        cs.push(points[order[c]]);
        c += 1;
    }
    assert(is_seeding_by(points@, cs@, order@.take(k as int)));
    cs
}

/// Computes the centroids that follow from the labels: the mean of each
/// cluster, and for a cluster without points one of the points, drawn at
/// random.
fn update_centroids(points: &Vec<Point>, labels: &Vec<usize>, k: usize, rng: &mut ThreadRng) -> (next: Vec<Point>)
    requires
        labels.len() == points.len(),
        points.len() > 0,
    ensures
        is_update(points@, labels@, k as nat, next@),
{
    let mut next: Vec<Point> = Vec::new();
    let mut c: usize = 0;
    while c < k
        invariant
            c <= k,
            next.len() == c,
            labels.len() == points.len(),
            points.len() > 0,
            forall|j: int| 0 <= j < c ==> is_new_centroid(points@, labels@, j as usize, #[trigger] next[j]),
        decreases k - c,
    {
        let p: Point = match mean_of_cluster(points, labels, c) {
            Some(m) => m,
            None => {
                let j: usize = random_below(rng, points.len());
                points[j]
            },
        };
        next.push(p);
        c += 1;
    }
    next
}

/// Partitions the points into `k` clusters and returns the label of every
/// point.
///
/// Fails when there are fewer points than clusters or when `k` is 0.
/// Otherwise `k` of the points, at places drawn at random without
/// repetition, serve as the first centroids. The points are labelled, and as
/// long as fewer than `max_iterations` assignment steps were made, the
/// centroids are updated from the labels and the points labelled anew,
/// unless an update moves the centroids by less than the threshold. Nearest
/// means nearest by squared distance, which orders centroids as the distance
/// itself does.
pub fn cluster(points: &Vec<Point>, k: usize, max_iterations: usize) -> (r: Result<
    Vec<usize>,
    InsufficientDataError,
>)
    ensures
        match r {
            Ok(labels) => {
                &&& 1 <= k <= points.len()
                &&& labels.len() == points.len()
                &&& forall|i: int| 0 <= i < labels.len() ==> #[trigger] labels[i] < k
                &&& is_outcome(points@, k as nat, max_iterations as nat, labels@)
                &&& max_iterations == 0 ==> exists|cs: Seq<Point>|
                    #[trigger] is_seeding(points@, k as nat, cs) && labels@ == assignment(points@, cs)
            },
            Err(e) => {
                &&& k == 0 || points.len() < k
                &&& e == (InsufficientDataError { points: points.len(), clusters: k })
            },
        },
{
    let n: usize = points.len();
    if k == 0 || n < k {
        return Err(InsufficientDataError { points: n, clusters: k });
    }
    let mut rng: ThreadRng = thread_rng();
    let mut order: Vec<usize> = places(n);
    shuffle(&mut order, &mut rng);
    proof {
        lemma_rearranged_places(order@, n as nat);
    }
    let mut centroids: Vec<Point> = seed_centroids(points, &order, k);
    let mut labels: Vec<usize> = assign_points(points, &centroids);
    let mut rounds: usize = 0;
    let mut settled: bool = false;
    while !settled && rounds + 1 < max_iterations
        invariant
            points.len() > 0,
            1 <= k,
            centroids.len() == k,
            reachable(points@, k as nat, rounds as nat, centroids@),
            labels@ == assignment(points@, centroids@),
            labels.len() == points.len(),
            forall|i: int| 0 <= i < labels.len() ==> #[trigger] labels[i] < k,
            rounds == 0 || rounds < max_iterations,
            settled ==> exists|next: Seq<Point>|
                is_update(points@, labels@, k as nat, next) && #[trigger] converged(centroids@, next),
        decreases
                if settled {
                    0
                } else {
                    max_iterations - rounds
                },
    {
        let next: Vec<Point> = update_centroids(points, &labels, k, &mut rng);
        if has_converged(&centroids, &next) {
            settled = true;
        } else {
            proof {
                assert(is_round(points@, k as nat, centroids@, next@));
            }
            centroids = next;
            labels = assign_points(points, &centroids);
            rounds += 1;
        }
    }
    proof {
        assert(stops_at(points@, k as nat, max_iterations as nat, labels@, centroids@, rounds as nat));
    }
    Ok(labels)
}

} // verus!
