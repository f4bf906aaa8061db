//! The assignment step: every point goes to its nearest centroid.

use vstd::prelude::*;
use crate::geometry::{comparable, dist_sq, squared_distance, Point};

verus! {

/// `l` is the label of `p` among the centroids `cs`: the first centroid at
/// the least distance from `p`, taken over the centroids to which `p` has a
/// distance. Where there is no such centroid the label is 0.
pub open spec fn is_nearest(p: Point, cs: Seq<Point>, l: int) -> bool {
    if exists|j: int| 0 <= j < cs.len() && comparable(p, #[trigger] cs[j]) {
        &&& 0 <= l < cs.len()
        &&& comparable(p, cs[l])
        &&& forall|j: int|
            0 <= j < cs.len() && comparable(p, #[trigger] cs[j]) ==> dist_sq(p, cs[l]) <= dist_sq(
                p,
                cs[j],
            )
        &&& forall|j: int|
            0 <= j < l && comparable(p, #[trigger] cs[j]) ==> dist_sq(p, cs[l]) < dist_sq(p, cs[j])
    } else {
        l == 0
    }
}

/// The label of `p` among the centroids `cs`.
pub open spec fn nearest(p: Point, cs: Seq<Point>) -> usize {
    choose|l: usize| is_nearest(p, cs, l as int)
}

/// The labels of all `points` among the centroids `cs`.
pub open spec fn assignment(points: Seq<Point>, cs: Seq<Point>) -> Seq<usize> {
    Seq::new(points.len(), |i: int| nearest(points[i], cs))
}

/// A point has exactly one label.
pub proof fn lemma_nearest_unique(p: Point, cs: Seq<Point>, l1: int, l2: int)
    requires
        is_nearest(p, cs, l1),
        is_nearest(p, cs, l2),
    ensures
        l1 == l2,
{
}

/// A label found for `p` is the label of `p`.
pub proof fn lemma_nearest_is(p: Point, cs: Seq<Point>, l: usize)
    requires
        is_nearest(p, cs, l as int),
    ensures
        nearest(p, cs) == l,
{
    lemma_nearest_unique(p, cs, l as int, nearest(p, cs) as int);
}

/// With at least one centroid, every label names a centroid.
pub proof fn lemma_nearest_in_range(p: Point, cs: Seq<Point>, l: int)
    requires
        is_nearest(p, cs, l),
        cs.len() > 0,
    ensures
        0 <= l < cs.len(),
{
}

/// Finds the label of `p` among the centroids `cs`.
pub fn nearest_centroid(p: &Point, cs: &Vec<Point>) -> (l: usize)
    ensures
        is_nearest(*p, cs@, l as int),
        l == nearest(*p, cs@),
        cs.len() > 0 ==> l < cs.len(),
{
    let mut best: usize = 0;
    let mut best_d: Option<u128> = None;
    let mut j: usize = 0;
    while j < cs.len()
        invariant
            j <= cs.len(),
            match best_d {
                Some(d) => {
                    &&& best < j
                    &&& comparable(*p, cs@[best as int])
                    &&& d == dist_sq(*p, cs@[best as int])
                    &&& forall|i: int|
                        0 <= i < j && comparable(*p, #[trigger] cs@[i]) ==> d <= dist_sq(
                            *p,
                            cs@[i],
                        )
                    &&& forall|i: int|
                        0 <= i < best && comparable(*p, #[trigger] cs@[i]) ==> d < dist_sq(
                            *p,
                            cs@[i],
                        )
                },
                None => {
                    &&& best == 0
                    &&& forall|i: int| 0 <= i < j ==> !comparable(*p, #[trigger] cs@[i])
                },
            },
        decreases cs.len() - j,
    {
        match squared_distance(p, &cs[j]) {
            Some(d) => {
                let closer: bool = match best_d {
                    Some(b) => d < b,
                    None => true,
                };
                if closer {
                    best = j;
                    best_d = Some(d);
                }
            },
            None => {},
        }
        j += 1;
    }
    proof {
        lemma_nearest_is(*p, cs@, best);
    }
    best
}

/// Labels every point with its nearest centroid.
pub fn assign_points(points: &Vec<Point>, cs: &Vec<Point>) -> (labels: Vec<usize>)
    ensures
        labels@ == assignment(points@, cs@),
        labels.len() == points.len(),
        cs.len() > 0 ==> forall|i: int| 0 <= i < labels.len() ==> #[trigger] labels[i] < cs.len(),
{
    let mut labels: Vec<usize> = Vec::new();
    let mut i: usize = 0;
    while i < points.len()
        invariant
            i <= points.len(),
            labels.len() == i,
            forall|m: int| 0 <= m < i ==> #[trigger] labels[m] == nearest(points@[m], cs@),
            cs.len() > 0 ==> forall|m: int| 0 <= m < i ==> #[trigger] labels[m] < cs.len(),
        decreases points.len() - i,
    {
        let l: usize = nearest_centroid(&points[i], cs);
        labels.push(l);
        i += 1;
    }
    labels
}

} // verus!
