//! Update step of Lloyd's algorithm: each centroid moves to the
//! coordinate-wise mean of its assigned points, rounded to the nearest
//! fixed-point coordinate; a centroid with no assigned points keeps its
//! previous position.

use vstd::prelude::*;
use vstd::arithmetic::div_mod::{
    lemma_fundamental_div_mod, lemma_mod_division_less_than_divisor,
};
use crate::geometry::{COORD_LIMIT, MAX_POINTS, coord_ok, point_ok, points_ok, sq, uniform_dims};

verus! {

/// How many points the assignment vector sends to cluster `j`.
pub open spec fn cluster_count(assigns: Seq<usize>, j: int) -> int
    decreases assigns.len(),
{
    if assigns.len() == 0 {
        0
    } else {
        cluster_count(assigns.drop_last(), j) + if assigns.last() == j {
            1int
        } else {
            0int
        }
    }
}

/// Sum of coordinate `a` over the points assigned to cluster `j`.
pub open spec fn cluster_axis_sum(ps: Seq<Seq<i64>>, assigns: Seq<usize>, j: int, a: int) -> int
    decreases ps.len(),
{
    if ps.len() == 0 {
        0
    } else {
        cluster_axis_sum(ps.drop_last(), assigns.drop_last(), j, a) + if assigns.last() == j {
            ps.last()[a] as int
        } else {
            0int
        }
    }
}

/// Division rounded to the nearest integer, halves away from zero.
/// For a positive divisor `c`, `c * round_div(s, c)` is as close to `s`
/// as any multiple of `c` can be.
pub open spec fn round_div(s: int, c: int) -> int {
    let mag = if s >= 0 { s } else { -s };
    let m = mag / c + if 2 * (mag % c) >= c {
        1int
    } else {
        0int
    };
    if s >= 0 {
        m
    } else {
        -m
    }
}

/// The centroids after one update step.
pub open spec fn updated_cents(ps: Seq<Seq<i64>>, assigns: Seq<usize>, cents: Seq<Seq<i64>>)
    -> Seq<Seq<i64>> {
    Seq::new(cents.len(), |j: int| Seq::new(cents[j].len(), |a: int|
        if cluster_count(assigns, j) == 0 {
            cents[j][a]
        } else {
            round_div(cluster_axis_sum(ps, assigns, j, a), cluster_count(assigns, j)) as i64
        }))
}

pub proof fn lemma_cluster_count_bounds(assigns: Seq<usize>, j: int)
    ensures
        0 <= cluster_count(assigns, j) <= assigns.len(),
    decreases assigns.len(),
{
    if assigns.len() > 0 {
        lemma_cluster_count_bounds(assigns.drop_last(), j);
    }
}

/// With coordinate `a` bounded by `b` on every point, the cluster's axis
/// sum is bounded by `b` per assigned point.
pub proof fn lemma_axis_sum_bound(ps: Seq<Seq<i64>>, assigns: Seq<usize>, j: int, a: int, b: int)
    requires
        ps.len() == assigns.len(),
        b >= 0,
        forall|i: int| 0 <= i < ps.len() ==> -b <= (#[trigger] ps[i])[a] <= b,
    ensures
        -(cluster_count(assigns, j) * b) <= cluster_axis_sum(ps, assigns, j, a)
            <= cluster_count(assigns, j) * b,
    decreases ps.len(),
{
    if ps.len() == 0 {
    } else {
        assert forall|i: int| 0 <= i < ps.drop_last().len()
            implies -b <= (#[trigger] ps.drop_last()[i])[a] <= b by {
            assert(ps.drop_last()[i] == ps[i]);
        }
        lemma_axis_sum_bound(ps.drop_last(), assigns.drop_last(), j, a, b);
        let c0 = cluster_count(assigns.drop_last(), j);
        let s0 = cluster_axis_sum(ps.drop_last(), assigns.drop_last(), j, a);
        lemma_cluster_count_bounds(assigns.drop_last(), j);
        assert((c0 + 1) * b == c0 * b + b) by (nonlinear_arith);
        assert(ps.last() == ps[ps.len() - 1]);
        assert(-b <= ps.last()[a] <= b);
        if assigns.last() == j {
            assert(cluster_count(assigns, j) == c0 + 1);
            assert(cluster_axis_sum(ps, assigns, j, a) == s0 + ps.last()[a]);
        } else {
            assert(cluster_count(assigns, j) == c0);
            assert(cluster_axis_sum(ps, assigns, j, a) == s0);
        }
    }
}

pub proof fn lemma_round_div_bound(s: int, c: int, b: int)
    requires
        c >= 1,
        b >= 0,
        -(c * b) <= s <= c * b,
    ensures
        -b <= round_div(s, c) <= b,
{
    let mag = if s >= 0 { s } else { -s };
    lemma_fundamental_div_mod(mag, c);
    lemma_mod_division_less_than_divisor(mag, c);
    let q = mag / c;
    let r = mag % c;
    assert(q >= 0) by (nonlinear_arith)
        requires mag == c * q + r, 0 <= r < c, mag >= 0, c >= 1,
    ;
    assert(mag <= c * b) by (nonlinear_arith)
        requires -(c * b) <= s <= c * b, mag == if s >= 0 { s } else { -s },
    ;
    if q + 1 > b {
        // then mag is at the boundary c * b, so r == 0 and no rounding up
        assert(q >= b);
        assert(q == b && r == 0) by (nonlinear_arith)
            requires mag == c * q + r, 0 <= r < c, mag <= c * b, q >= b, c >= 1, b >= 0,
        ;
    }
}

/// `round_div(s, c)` names the multiple of `c` nearest to `s`: against any
/// other integer `z`, the squared residual can only grow.
pub proof fn lemma_round_div_nearest(s: int, c: int, z: int)
    requires
        c >= 1,
    ensures
        sq(c * round_div(s, c) - s) <= sq(c * z - s),
{
    let m = round_div(s, c);
    let mag = if s >= 0 { s } else { -s };
    lemma_fundamental_div_mod(mag, c);
    lemma_mod_division_less_than_divisor(mag, c);
    let q = mag / c;
    let r = mag % c;
    // the chosen multiple is within half a divisor of s
    assert(2 * (c * m - s) <= c && 2 * (c * m - s) >= -c) by (nonlinear_arith)
        requires
            mag == c * q + r,
            0 <= r < c,
            c >= 1,
            mag == if s >= 0 { s } else { -s },
            m == round_div(s, c),
            m == if s >= 0 { q + if 2 * r >= c { 1int } else { 0int } }
                else { -(q + if 2 * r >= c { 1int } else { 0int }) },
    ;
    if z != m {
        assert(sq(c * m - s) <= sq(c * z - s)) by (nonlinear_arith)
            requires
                c >= 1,
                z != m,
                2 * (c * m - s) <= c,
                2 * (c * m - s) >= -c,
                sq(c * m - s) == (c * m - s) * (c * m - s),
                sq(c * z - s) == (c * z - s) * (c * z - s),
        ;
    }
}

/// Count of points assigned to cluster `j`, executable.
pub fn cluster_count_exec(assigns: &Vec<usize>, j: usize) -> (r: usize)
    ensures
        r == cluster_count(assigns@, j as int),
{
    let mut r: usize = 0;
    let mut i: usize = 0;
    while i < assigns.len()
        invariant
            i <= assigns@.len(),
            r == cluster_count(assigns@.take(i as int), j as int),
            r <= i,
        decreases assigns@.len() - i,
    {
        proof {
            lemma_cluster_count_bounds(assigns@.take(i as int), j as int);
            assert(assigns@.take(i + 1 as int).drop_last() =~= assigns@.take(i as int));
        }
        if assigns[i] == j {
            r = r + 1;
        }
        i = i + 1;
    }
    proof {
        assert(assigns@.take(assigns@.len() as int) =~= assigns@);
    }
    r
}

/// Sum of coordinate `a` over cluster `j`, executable.
pub fn cluster_axis_sum_exec(ps: &Vec<Vec<i64>>, assigns: &Vec<usize>, j: usize, a: usize)
    -> (r: i128)
    requires
        ps@.len() == assigns@.len(),
        points_ok(ps.deep_view()),
        forall|i: int| 0 <= i < ps.deep_view().len() ==> a < (#[trigger] ps.deep_view()[i]).len(),
    ensures
        r == cluster_axis_sum(ps.deep_view(), assigns@, j as int, a as int),
{
    let ghost pv = ps.deep_view();
    let mut r: i128 = 0;
    let mut i: usize = 0;
    while i < ps.len()
        invariant
            i <= ps@.len(),
            pv == ps.deep_view(),
            pv.len() == ps@.len() == assigns@.len(),
            points_ok(pv),
            forall|t: int| 0 <= t < pv.len() ==> a < (#[trigger] pv[t]).len(),
            r == cluster_axis_sum(pv.take(i as int), assigns@.take(i as int), j as int, a as int),
            -((i as int) * (COORD_LIMIT as int)) <= r as int <= (i as int) * (COORD_LIMIT as int),
        decreases ps@.len() - i,
    {
        proof {
            assert(pv[i as int] == ps@[i as int]@);
            assert(pv.take(i + 1 as int).drop_last() =~= pv.take(i as int));
            assert(assigns@.take(i + 1 as int).drop_last() =~= assigns@.take(i as int));
            assert((i as int + 1) * (COORD_LIMIT as int)
                == (i as int) * (COORD_LIMIT as int) + COORD_LIMIT) by (nonlinear_arith);
            assert((i as int) * (COORD_LIMIT as int)
                <= (MAX_POINTS as int) * (COORD_LIMIT as int)) by (nonlinear_arith)
                requires 0 <= i as int <= MAX_POINTS as int,
            ;
        }
        if assigns[i] == j {
            r = r + (ps[i][a] as i128);
        }
        i = i + 1;
    }
    proof {
        assert(pv.take(pv.len() as int) =~= pv);
        assert(assigns@.take(assigns@.len() as int) =~= assigns@);
    }
    r
}

/// One update step, executable: every centroid becomes the rounded mean
/// of its cluster; a cluster with no points keeps its centroid.
pub fn update_centroids(ps: &Vec<Vec<i64>>, assigns: &Vec<usize>, cents: &Vec<Vec<i64>>)
    -> (r: Vec<Vec<i64>>)
    requires
        ps@.len() == assigns@.len(),
        cents@.len() >= 1,
        points_ok(ps.deep_view()),
        points_ok(cents.deep_view()),
        uniform_dims(cents.deep_view(), cents.deep_view()[0].len() as int),
        uniform_dims(ps.deep_view(), cents.deep_view()[0].len() as int),
    ensures
        r.deep_view() == updated_cents(ps.deep_view(), assigns@, cents.deep_view()),
        r@.len() == cents@.len(),
        points_ok(r.deep_view()),
        uniform_dims(r.deep_view(), cents.deep_view()[0].len() as int),
{
    let ghost pv = ps.deep_view();
    let ghost cv = cents.deep_view();
    let ghost goal = updated_cents(pv, assigns@, cv);
    let d: usize = cents[0].len();
    let mut r: Vec<Vec<i64>> = Vec::new();
    let mut j: usize = 0;
    while j < cents.len()
        invariant
            j <= cents@.len(),
            pv == ps.deep_view(),
            cv == cents.deep_view(),
            goal == updated_cents(pv, assigns@, cv),
            pv.len() == ps@.len() == assigns@.len(),
            cv.len() == cents@.len() >= 1,
            points_ok(pv),
            points_ok(cv),
            uniform_dims(cv, d as int),
            uniform_dims(pv, d as int),
            d == cv[0].len(),
            r.deep_view().len() == j,
            forall|t: int| 0 <= t < j ==> #[trigger] r.deep_view()[t] == goal[t],
            forall|t: int| 0 <= t < j ==> point_ok(#[trigger] r.deep_view()[t]),
            forall|t: int| 0 <= t < j ==> (#[trigger] r.deep_view()[t]).len() == d,
        decreases cents@.len() - j,
    {
        let count: usize = cluster_count_exec(assigns, j);
        proof {
            lemma_cluster_count_bounds(assigns@, j as int);
        }
        let mut row: Vec<i64> = Vec::new();
        let mut a: usize = 0;
        while a < d
            invariant
                a <= d,
                j < cv.len(),
                pv == ps.deep_view(),
                cv == cents.deep_view(),
                goal == updated_cents(pv, assigns@, cv),
                pv.len() == ps@.len() == assigns@.len(),
                cv.len() == cents@.len() >= 1,
                points_ok(pv),
                points_ok(cv),
                uniform_dims(cv, d as int),
                uniform_dims(pv, d as int),
                d == cv[0].len(),
                count == cluster_count(assigns@, j as int),
                0 <= count <= assigns@.len(),
                row@.len() == a,
                forall|t: int| 0 <= t < a ==> #[trigger] row@[t] == goal[j as int][t],
                forall|t: int| 0 <= t < a ==> coord_ok(#[trigger] row@[t]),
            decreases d - a,
        {
            proof {
                assert(cv[j as int] == cents@[j as int]@);
                assert(point_ok(cv[j as int]));
            }
            if count == 0 {
                row.push(cents[j][a]);
            } else {
                proof {
                    assert forall|i: int| 0 <= i < pv.len()
                        implies -(COORD_LIMIT as int) <= (#[trigger] pv[i])[a as int]
                            <= COORD_LIMIT as int by {
                        assert(point_ok(pv[i]));
                    }
                    lemma_axis_sum_bound(pv, assigns@, j as int, a as int, COORD_LIMIT as int);
                }
                let s: i128 = cluster_axis_sum_exec(ps, assigns, j, a);
                let m: i64 = round_div_exec(s, count);
                row.push(m);
            }
            a = a + 1;
        }
        proof {
            assert(point_ok(cv[0]));
            assert(goal[j as int].len() == cv[j as int].len());
            assert(cv[j as int].len() == d);
            assert(row@ =~= goal[j as int]);
            assert(point_ok(row@));
        }
        let ghost prevv: Seq<Vec<i64>> = r@;
        let ghost prevdv: Seq<Seq<i64>> = r.deep_view();
        r.push(row);
        proof {
            assert(r@ == prevv.push(row));
            assert forall|t: int| 0 <= t < j + 1 implies #[trigger] r.deep_view()[t] == goal[t] by {
                assert(r.deep_view()[t] == r@[t]@);
                if t < j {
                    assert(r@[t] == prevv[t]);
                    assert(prevdv[t] == prevv[t]@);
                } else {
                    assert(r@[t] == row);
                }
            }
            assert forall|t: int| 0 <= t < j + 1 implies point_ok(#[trigger] r.deep_view()[t])
                && (r.deep_view()[t]).len() == d by {
                assert(r.deep_view()[t] == goal[t]);
                if t < j {
                    assert(prevdv[t] == goal[t]);
                    assert(point_ok(prevdv[t]));
                    assert(prevdv[t].len() == d);
                } else {
                    assert(goal[t] == row@);
                }
            }
        }
        j = j + 1;
    }
    proof {
        assert(r.deep_view() =~= goal);
    }
    r
}

/// Division rounded to nearest, executable.
pub fn round_div_exec(s: i128, c: usize) -> (r: i64)
    requires
        c >= 1,
        -((c as int) * (COORD_LIMIT as int)) <= s as int <= (c as int) * (COORD_LIMIT as int),
    ensures
        r as int == round_div(s as int, c as int),
        -COORD_LIMIT <= r <= COORD_LIMIT,
{
    proof {
        lemma_round_div_bound(s as int, c as int, COORD_LIMIT as int);
    }
    let mag: u128 = if s >= 0 {
        s as u128
    } else {
        (-s) as u128
    };
    let q: u128 = mag / (c as u128);
    let rem: u128 = mag % (c as u128);
    proof {
        lemma_fundamental_div_mod(mag as int, c as int);
        lemma_mod_division_less_than_divisor(mag as int, c as int);
        assert(q as int == (mag as int) / (c as int));
        assert(rem as int == (mag as int) % (c as int));
    }
    let m: u128 = if 2 * rem >= (c as u128) {
        q + 1
    } else {
        q
    };
    if s >= 0 {
        m as i64
    } else {
        -(m as i64)
    }
}

} // verus!
