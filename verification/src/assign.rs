//! Assignment step of Lloyd's algorithm: each point goes to the nearest
//! centroid, ties broken toward the lowest centroid index.

use vstd::prelude::*;
use crate::geometry::{
    dist_sq, dist_sq_exec, point_ok, points_ok, uniform_dims,
};

verus! {

/// Index of the nearest centroid among the first `n`, scanning from the
/// front and keeping the earlier index on ties.
pub open spec fn nearest_upto(cents: Seq<Seq<i64>>, p: Seq<i64>, n: int) -> int
    decreases n,
{
    if n <= 1 {
        0
    } else {
        let prev = nearest_upto(cents, p, n - 1);
        if dist_sq(cents[n - 1], p) < dist_sq(cents[prev], p) {
            n - 1
        } else {
            prev
        }
    }
}

/// Index of the nearest centroid; the lowest index wins a distance tie.
pub open spec fn nearest(cents: Seq<Seq<i64>>, p: Seq<i64>) -> int {
    nearest_upto(cents, p, cents.len() as int)
}

/// The assignment vector the assignment step produces for `ps`.
pub open spec fn lloyd_assigns(cents: Seq<Seq<i64>>, ps: Seq<Seq<i64>>) -> Seq<usize> {
    Seq::new(ps.len(), |i: int| nearest(cents, ps[i]) as usize)
}

pub proof fn lemma_nearest_upto_props(cents: Seq<Seq<i64>>, p: Seq<i64>, n: int)
    requires
        1 <= n <= cents.len(),
    ensures
        0 <= nearest_upto(cents, p, n) < n,
        forall|j: int|
            0 <= j < n ==> dist_sq(cents[nearest_upto(cents, p, n)], p)
                <= dist_sq(#[trigger] cents[j], p),
        forall|j: int|
            0 <= j < nearest_upto(cents, p, n) ==> dist_sq(#[trigger] cents[j], p)
                > dist_sq(cents[nearest_upto(cents, p, n)], p),
    decreases n,
{
    if n > 1 {
        lemma_nearest_upto_props(cents, p, n - 1);
    }
}

/// No point is ever assigned to a strictly farther centroid: the chosen
/// index minimizes the squared distance, and among the minimizers it is
/// the lowest.
pub proof fn lemma_nearest_is_minimal(cents: Seq<Seq<i64>>, p: Seq<i64>)
    requires
        cents.len() >= 1,
    ensures
        0 <= nearest(cents, p) < cents.len(),
        forall|j: int|
            0 <= j < cents.len() ==> dist_sq(cents[nearest(cents, p)], p)
                <= dist_sq(#[trigger] cents[j], p),
        forall|j: int|
            0 <= j < nearest(cents, p) ==> dist_sq(#[trigger] cents[j], p)
                > dist_sq(cents[nearest(cents, p)], p),
{
    lemma_nearest_upto_props(cents, p, cents.len() as int);
}

/// Index of the nearest centroid to `p`, executable.
pub fn nearest_centroid(cents: &Vec<Vec<i64>>, p: &Vec<i64>) -> (r: usize)
    requires
        cents@.len() >= 1,
        points_ok(cents.deep_view()),
        point_ok(p@),
        uniform_dims(cents.deep_view(), p@.len() as int),
    ensures
        r == nearest(cents.deep_view(), p@),
        r < cents@.len(),
{
    let ghost cv = cents.deep_view();
    proof {
        assert(cv[0] == cents@[0]@);
    }
    let mut best: usize = 0;
    let mut best_d: u128 = dist_sq_exec(&cents[0], p);
    let mut j: usize = 1;
    while j < cents.len()
        invariant
            1 <= j <= cents@.len(),
            cv == cents.deep_view(),
            cv.len() == cents@.len(),
            points_ok(cv),
            point_ok(p@),
            uniform_dims(cv, p@.len() as int),
            best == nearest_upto(cv, p@, j as int),
            0 <= best < j,
            best_d == dist_sq(cv[best as int], p@),
        decreases cents@.len() - j,
    {
        proof {
            assert(cv[j as int] == cents@[j as int]@);
        }
        let d: u128 = dist_sq_exec(&cents[j], p);
        if d < best_d {
            best = j;
            best_d = d;
        }
        j = j + 1;
    }
    best
}

/// Assignment step over a whole dataset whose points share the centroids'
/// dimensionality.
pub fn assign_points(cents: &Vec<Vec<i64>>, ps: &Vec<Vec<i64>>) -> (r: Vec<usize>)
    requires
        cents@.len() >= 1,
        points_ok(cents.deep_view()),
        points_ok(ps.deep_view()),
        uniform_dims(cents.deep_view(), cents.deep_view()[0].len() as int),
        uniform_dims(ps.deep_view(), cents.deep_view()[0].len() as int),
    ensures
        r@ == lloyd_assigns(cents.deep_view(), ps.deep_view()),
        r@.len() == ps@.len(),
        forall|i: int| 0 <= i < r@.len() ==> #[trigger] r@[i] < cents@.len(),
{
    let ghost cv = cents.deep_view();
    let ghost pv = ps.deep_view();
    let mut r: Vec<usize> = Vec::new();
    let mut i: usize = 0;
    while i < ps.len()
        invariant
            i <= ps@.len(),
            cv == cents.deep_view(),
            pv == ps.deep_view(),
            pv.len() == ps@.len(),
            cv.len() == cents@.len() >= 1,
            points_ok(cv),
            points_ok(pv),
            uniform_dims(cv, cv[0].len() as int),
            uniform_dims(pv, cv[0].len() as int),
            r@.len() == i,
            forall|t: int| 0 <= t < i ==> #[trigger] r@[t] == nearest(cv, pv[t]) as usize,
            forall|t: int| 0 <= t < i ==> #[trigger] r@[t] < cv.len(),
        decreases ps@.len() - i,
    {
        proof {
            assert(pv[i as int] == ps@[i as int]@);
            lemma_nearest_is_minimal(cv, pv[i as int]);
        }
        let a: usize = nearest_centroid(cents, &ps[i]);
        r.push(a);
        i = i + 1;
    }
    proof {
        assert(r@ =~= lloyd_assigns(cv, pv));
    }
    r
}

} // verus!
