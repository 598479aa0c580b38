//! Inertia (sum of squared distances of each point to its assigned
//! centroid) and the total centroid displacement used by the convergence
//! check.

use vstd::prelude::*;
use crate::geometry::{
    MAX_DIMS, MAX_POINTS, COORD_LIMIT, dist_sq, dist_sq_exec, isqrt,
    lemma_dist_sq_bound, points_ok, sqrt_floor, uniform_dims,
};

verus! {

/// Sum over all points of the squared distance to the assigned centroid.
pub open spec fn inertia_of(ps: Seq<Seq<i64>>, assigns: Seq<usize>, cents: Seq<Seq<i64>>) -> int
    decreases ps.len(),
{
    if ps.len() == 0 {
        0
    } else {
        inertia_of(ps.drop_last(), assigns.drop_last(), cents)
            + dist_sq(ps.last(), cents[assigns.last() as int])
    }
}

/// Sum over all centroids of the Euclidean displacement (floor of the
/// root) between the old and the new position.
pub open spec fn shift_of(old_c: Seq<Seq<i64>>, new_c: Seq<Seq<i64>>) -> int
    decreases old_c.len(),
{
    if old_c.len() == 0 {
        0
    } else {
        shift_of(old_c.drop_last(), new_c.drop_last())
            + sqrt_floor(dist_sq(old_c.last(), new_c.last()))
    }
}

/// Executable inertia, proved equal to `inertia_of`.
pub fn compute_inertia(ps: &Vec<Vec<i64>>, assigns: &Vec<usize>, cents: &Vec<Vec<i64>>)
    -> (r: u128)
    requires
        ps@.len() == assigns@.len(),
        cents@.len() >= 1,
        points_ok(ps.deep_view()),
        points_ok(cents.deep_view()),
        uniform_dims(cents.deep_view(), cents.deep_view()[0].len() as int),
        uniform_dims(ps.deep_view(), cents.deep_view()[0].len() as int),
        forall|i: int| 0 <= i < assigns@.len() ==> #[trigger] assigns@[i] < cents@.len(),
    ensures
        r == inertia_of(ps.deep_view(), assigns@, cents.deep_view()),
{
    let ghost pv = ps.deep_view();
    let ghost cv = cents.deep_view();
    let ghost per_point: int = (MAX_DIMS as int) * (4 * (COORD_LIMIT as int) * (COORD_LIMIT as int));
    let mut r: u128 = 0;
    let mut i: usize = 0;
    while i < ps.len()
        invariant
            i <= ps@.len(),
            pv == ps.deep_view(),
            cv == cents.deep_view(),
            pv.len() == ps@.len() == assigns@.len(),
            cv.len() == cents@.len() >= 1,
            points_ok(pv),
            points_ok(cv),
            uniform_dims(cv, cv[0].len() as int),
            uniform_dims(pv, cv[0].len() as int),
            forall|t: int| 0 <= t < assigns@.len() ==> #[trigger] assigns@[t] < cv.len(),
            r == inertia_of(pv.take(i as int), assigns@.take(i as int), cv),
            r as int <= (i as int) * per_point,
            per_point == (MAX_DIMS as int) * (4 * (COORD_LIMIT as int) * (COORD_LIMIT as int)),
        decreases ps@.len() - i,
    {
        let j: usize = assigns[i];
        proof {
            assert(pv[i as int] == ps@[i as int]@);
            assert(cv[j as int] == cents@[j as int]@);
            lemma_dist_sq_bound(pv[i as int], cv[j as int], COORD_LIMIT as int);
            assert((pv[i as int].len() as int)
                * (4 * (COORD_LIMIT as int) * (COORD_LIMIT as int)) <= per_point)
                by (nonlinear_arith)
                requires
                    0 <= pv[i as int].len() as int <= MAX_DIMS as int,
                    per_point == (MAX_DIMS as int)
                        * (4 * (COORD_LIMIT as int) * (COORD_LIMIT as int)),
            ;
            assert((i as int + 1) * per_point == (i as int) * per_point + per_point)
                by (nonlinear_arith);
            assert((i as int + 1) * per_point <= (MAX_POINTS as int) * per_point)
                by (nonlinear_arith)
                requires 0 <= i as int + 1 <= MAX_POINTS as int, per_point >= 0,
            ;
        }
        let d: u128 = dist_sq_exec(&ps[i], &cents[j]);
        r = r + d;
        proof {
            assert(pv.take(i + 1 as int).drop_last() =~= pv.take(i as int));
            assert(assigns@.take(i + 1 as int).drop_last() =~= assigns@.take(i as int));
        }
        i = i + 1;
    }
    proof {
        assert(pv.take(pv.len() as int) =~= pv);
        assert(assigns@.take(assigns@.len() as int) =~= assigns@);
    }
    r
}

/// Executable total displacement, proved equal to `shift_of`.
pub fn centroid_shift(old_c: &Vec<Vec<i64>>, new_c: &Vec<Vec<i64>>) -> (r: u128)
    requires
        old_c@.len() == new_c@.len(),
        old_c@.len() >= 1,
        points_ok(old_c.deep_view()),
        points_ok(new_c.deep_view()),
        uniform_dims(old_c.deep_view(), old_c.deep_view()[0].len() as int),
        uniform_dims(new_c.deep_view(), old_c.deep_view()[0].len() as int),
    ensures
        r == shift_of(old_c.deep_view(), new_c.deep_view()),
{
    let ghost ov = old_c.deep_view();
    let ghost nv = new_c.deep_view();
    let ghost per_cent: int = 0x1_0000_0000_0000_0000int;
    let mut r: u128 = 0;
    let mut j: usize = 0;
    while j < old_c.len()
        invariant
            j <= old_c@.len(),
            ov == old_c.deep_view(),
            nv == new_c.deep_view(),
            ov.len() == old_c@.len() == new_c@.len(),
            ov.len() >= 1,
            nv.len() == ov.len(),
            points_ok(ov),
            points_ok(nv),
            uniform_dims(ov, ov[0].len() as int),
            uniform_dims(nv, ov[0].len() as int),
            r == shift_of(ov.take(j as int), nv.take(j as int)),
            r as int <= (j as int) * per_cent,
            per_cent == 0x1_0000_0000_0000_0000int,
        decreases old_c@.len() - j,
    {
        proof {
            assert(ov[j as int] == old_c@[j as int]@);
            assert(nv[j as int] == new_c@[j as int]@);
            assert((j as int + 1) * per_cent == (j as int) * per_cent + per_cent)
                by (nonlinear_arith);
            assert((j as int + 1) * per_cent <= (MAX_POINTS as int) * per_cent)
                by (nonlinear_arith)
                requires 0 <= j as int + 1 <= MAX_POINTS as int, per_cent >= 0,
            ;
        }
        let d: u128 = dist_sq_exec(&old_c[j], &new_c[j]);
        let s: u128 = isqrt(d);
        r = r + s;
        proof {
            assert(ov.take(j + 1 as int).drop_last() =~= ov.take(j as int));
            assert(nv.take(j + 1 as int).drop_last() =~= nv.take(j as int));
        }
        j = j + 1;
    }
    proof {
        assert(ov.take(ov.len() as int) =~= ov);
        assert(nv.take(nv.len() as int) =~= nv);
    }
    r
}

} // verus!
