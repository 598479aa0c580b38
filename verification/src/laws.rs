//! The two halves of the monotone-descent property of Lloyd's algorithm:
//! re-assigning points to their nearest centroid never increases inertia,
//! and moving each centroid to the rounded mean of its cluster never
//! increases inertia. Together they show that the inertia recorded per
//! iteration is non-increasing.

use vstd::prelude::*;
use crate::geometry::{dist_sq, lemma_dist_sq_sym, point_ok, points_ok, sq, uniform_dims};
use crate::assign::{lemma_nearest_is_minimal, lloyd_assigns, nearest};
use crate::inertia::inertia_of;
use crate::update::{
    cluster_axis_sum, cluster_count, lemma_axis_sum_bound, lemma_cluster_count_bounds,
    lemma_round_div_bound, lemma_round_div_nearest, round_div, updated_cents,
};
use crate::geometry::COORD_LIMIT;

verus! {

/// Re-assigning every point to its nearest centroid can only lower the
/// inertia, whatever valid assignment it replaces.
pub proof fn lemma_reassign_non_increasing(
    ps: Seq<Seq<i64>>,
    assigns: Seq<usize>,
    cents: Seq<Seq<i64>>,
    d: int,
)
    requires
        1 <= cents.len() <= usize::MAX,
        assigns.len() == ps.len(),
        uniform_dims(ps, d),
        uniform_dims(cents, d),
        forall|i: int| 0 <= i < assigns.len() ==> #[trigger] assigns[i] < cents.len(),
    ensures
        inertia_of(ps, lloyd_assigns(cents, ps), cents) <= inertia_of(ps, assigns, cents),
    decreases ps.len(),
{
    if ps.len() == 0 {
    } else {
        let la = lloyd_assigns(cents, ps);
        let lap = lloyd_assigns(cents, ps.drop_last());
        assert(la.drop_last() =~= lap);
        assert(forall|i: int|
            0 <= i < ps.drop_last().len() ==> (#[trigger] ps.drop_last()[i]).len() == d);
        lemma_reassign_non_increasing(ps.drop_last(), assigns.drop_last(), cents, d);
        let p = ps.last();
        lemma_nearest_is_minimal(cents, p);
        assert(la.len() == ps.len());
        assert(p == ps[ps.len() - 1]);
        assert(la.last() == la[ps.len() - 1]);
        assert(la.last() == nearest(cents, p) as usize);
        assert(assigns.last() == assigns[assigns.len() - 1]);
        assert(assigns.last() < cents.len());
        let jn = la.last() as int;
        let jo = assigns.last() as int;
        assert(jn == nearest(cents, p));
        assert(p.len() == d);
        lemma_dist_sq_sym(p, cents[jn]);
        lemma_dist_sq_sym(p, cents[jo]);
        assert(dist_sq(p, cents[jn]) <= dist_sq(p, cents[jo]));
    }
}

/// Squared deviation of cluster `j`'s coordinate `a` around the value `z`.
pub open spec fn cluster_sq_dev(
    ps: Seq<Seq<i64>>,
    assigns: Seq<usize>,
    j: int,
    a: int,
    z: int,
) -> int
    decreases ps.len(),
{
    if ps.len() == 0 {
        0
    } else {
        cluster_sq_dev(ps.drop_last(), assigns.drop_last(), j, a, z) + if assigns.last() == j {
            sq(ps.last()[a] - z)
        } else {
            0int
        }
    }
}

/// Sum of squared coordinates of cluster `j` on axis `a`.
pub open spec fn cluster_sq_sum(ps: Seq<Seq<i64>>, assigns: Seq<usize>, j: int, a: int) -> int
    decreases ps.len(),
{
    if ps.len() == 0 {
        0
    } else {
        cluster_sq_sum(ps.drop_last(), assigns.drop_last(), j, a) + if assigns.last() == j {
            sq(ps.last()[a] as int)
        } else {
            0int
        }
    }
}

/// Deviation of cluster `j` summed over the first `d` axes of `cent`.
pub open spec fn cluster_dev_upto(
    ps: Seq<Seq<i64>>,
    assigns: Seq<usize>,
    j: int,
    cent: Seq<i64>,
    d: int,
) -> int
    decreases d,
{
    if d <= 0 {
        0
    } else {
        cluster_dev_upto(ps, assigns, j, cent, d - 1)
            + cluster_sq_dev(ps, assigns, j, d - 1, cent[d - 1] as int)
    }
}

/// Deviation summed over the first `m` clusters.
pub open spec fn total_dev_upto(
    ps: Seq<Seq<i64>>,
    assigns: Seq<usize>,
    cents: Seq<Seq<i64>>,
    d: int,
    m: int,
) -> int
    decreases m,
{
    if m <= 0 {
        0
    } else {
        total_dev_upto(ps, assigns, cents, d, m - 1)
            + cluster_dev_upto(ps, assigns, m - 1, cents[m - 1], d)
    }
}

proof fn lemma_cluster_dev_empty(assigns: Seq<usize>, j: int, cent: Seq<i64>, d: int)
    requires
        assigns.len() == 0,
    ensures
        cluster_dev_upto(Seq::<Seq<i64>>::empty(), assigns, j, cent, d) == 0,
    decreases d,
{
    if d > 0 {
        lemma_cluster_dev_empty(assigns, j, cent, d - 1);
    }
}

proof fn lemma_total_dev_empty(
    assigns: Seq<usize>,
    cents: Seq<Seq<i64>>,
    d: int,
    m: int,
)
    requires
        assigns.len() == 0,
    ensures
        total_dev_upto(Seq::<Seq<i64>>::empty(), assigns, cents, d, m) == 0,
    decreases m,
{
    if m > 0 {
        lemma_total_dev_empty(assigns, cents, d, m - 1);
        lemma_cluster_dev_empty(assigns, m - 1, cents[m - 1], d);
    }
}

/// Adding one point with label `j0` adds its truncated squared distance to
/// cluster `j0`'s deviation and leaves the other clusters unchanged.
proof fn lemma_cluster_dev_push(
    ps: Seq<Seq<i64>>,
    assigns: Seq<usize>,
    j: int,
    cent: Seq<i64>,
    d: int,
)
    requires
        ps.len() >= 1,
        assigns.len() == ps.len(),
        0 <= d <= cent.len(),
        d <= ps.last().len(),
    ensures
        cluster_dev_upto(ps, assigns, j, cent, d)
            == cluster_dev_upto(ps.drop_last(), assigns.drop_last(), j, cent, d)
                + if assigns.last() == j {
                    dist_sq(ps.last().take(d), cent.take(d))
                } else {
                    0int
                },
    decreases d,
{
    if d > 0 {
        lemma_cluster_dev_push(ps, assigns, j, cent, d - 1);
        assert(ps.last().take(d).drop_last() =~= ps.last().take(d - 1));
        assert(cent.take(d).drop_last() =~= cent.take(d - 1));
        assert(ps.last().take(d).last() == ps.last()[d - 1]);
        assert(cent.take(d).last() == cent[d - 1]);
    }
}

proof fn lemma_total_dev_push(
    ps: Seq<Seq<i64>>,
    assigns: Seq<usize>,
    cents: Seq<Seq<i64>>,
    d: int,
    m: int,
)
    requires
        ps.len() >= 1,
        assigns.len() == ps.len(),
        forall|j: int| 0 <= j < cents.len() ==> d <= (#[trigger] cents[j]).len(),
        d <= ps.last().len(),
        d >= 0,
        0 <= m <= cents.len(),
    ensures
        total_dev_upto(ps, assigns, cents, d, m)
            == total_dev_upto(ps.drop_last(), assigns.drop_last(), cents, d, m)
                + if (assigns.last() as int) < m {
                    dist_sq(ps.last().take(d), cents[assigns.last() as int].take(d))
                } else {
                    0int
                },
    decreases m,
{
    if m > 0 {
        lemma_total_dev_push(ps, assigns, cents, d, m - 1);
        lemma_cluster_dev_push(ps, assigns, m - 1, cents[m - 1], d);
    }
}

/// Inertia decomposes into the per-cluster, per-axis squared deviations.
proof fn lemma_inertia_decomposition(
    ps: Seq<Seq<i64>>,
    assigns: Seq<usize>,
    cents: Seq<Seq<i64>>,
    d: int,
)
    requires
        assigns.len() == ps.len(),
        cents.len() >= 1,
        uniform_dims(ps, d),
        uniform_dims(cents, d),
        d >= 0,
        forall|i: int| 0 <= i < assigns.len() ==> #[trigger] assigns[i] < cents.len(),
    ensures
        inertia_of(ps, assigns, cents)
            == total_dev_upto(ps, assigns, cents, d, cents.len() as int),
    decreases ps.len(),
{
    if ps.len() == 0 {
        lemma_total_dev_empty(assigns, cents, d, cents.len() as int);
        assert(ps =~= Seq::<Seq<i64>>::empty());
    } else {
        assert(forall|i: int|
            0 <= i < ps.drop_last().len() ==> (#[trigger] ps.drop_last()[i]).len() == d);
        lemma_inertia_decomposition(ps.drop_last(), assigns.drop_last(), cents, d);
        lemma_total_dev_push(ps, assigns, cents, d, cents.len() as int);
        let j0 = assigns.last() as int;
        assert(ps.last().take(d) =~= ps.last());
        assert(cents[j0].take(d) =~= cents[j0]);
    }
}

/// On one axis, the rounded cluster mean beats any other centroid value.
proof fn lemma_dev_expand(ps: Seq<Seq<i64>>, assigns: Seq<usize>, j: int, a: int, z: int)
    requires
        ps.len() == assigns.len(),
    ensures
        cluster_sq_dev(ps, assigns, j, a, z)
            == cluster_sq_sum(ps, assigns, j, a) - 2 * z * cluster_axis_sum(ps, assigns, j, a)
                + sq(z) * cluster_count(assigns, j),
    decreases ps.len(),
{
    if ps.len() == 0 {
    } else {
        lemma_dev_expand(ps.drop_last(), assigns.drop_last(), j, a, z);
        if assigns.last() == j {
            let x = ps.last()[a] as int;
            assert(sq(x - z) == sq(x) - 2 * z * x + sq(z)) by (nonlinear_arith)
                requires sq(x - z) == (x - z) * (x - z), sq(x) == x * x, sq(z) == z * z,
            ;
            let c0 = cluster_count(assigns.drop_last(), j);
            assert(sq(z) * (c0 + 1) == sq(z) * c0 + sq(z)) by (nonlinear_arith);
            let s0 = cluster_axis_sum(ps.drop_last(), assigns.drop_last(), j, a);
            assert(2 * z * (s0 + x) == 2 * z * s0 + 2 * z * x) by (nonlinear_arith);
        }
    }
}

/// The rounded mean minimizes the axis deviation over all integer values.
proof fn lemma_axis_mean_optimal(
    ps: Seq<Seq<i64>>,
    assigns: Seq<usize>,
    j: int,
    a: int,
    z: int,
)
    requires
        ps.len() == assigns.len(),
        cluster_count(assigns, j) >= 1,
    ensures
        cluster_sq_dev(ps, assigns, j, a,
            round_div(cluster_axis_sum(ps, assigns, j, a), cluster_count(assigns, j)))
            <= cluster_sq_dev(ps, assigns, j, a, z),
{
    let c = cluster_count(assigns, j);
    let s = cluster_axis_sum(ps, assigns, j, a);
    let m = round_div(s, c);
    lemma_dev_expand(ps, assigns, j, a, m);
    lemma_dev_expand(ps, assigns, j, a, z);
    lemma_round_div_nearest(s, c, z);
    assert(sq(m) * c - 2 * m * s <= sq(z) * c - 2 * z * s) by (nonlinear_arith)
        requires
            c >= 1,
            sq(c * m - s) <= sq(c * z - s),
            sq(c * m - s) == (c * m - s) * (c * m - s),
            sq(c * z - s) == (c * z - s) * (c * z - s),
            sq(m) == m * m,
            sq(z) == z * z,
    ;
}

/// One update step never increases the deviation of any cluster.
proof fn lemma_cluster_update_optimal(
    ps: Seq<Seq<i64>>,
    assigns: Seq<usize>,
    j: int,
    old_cent: Seq<i64>,
    new_cent: Seq<i64>,
    d: int,
)
    requires
        ps.len() == assigns.len(),
        0 <= d <= old_cent.len(),
        d <= new_cent.len(),
        forall|a: int|
            0 <= a < d ==> #[trigger] new_cent[a] as int == if cluster_count(assigns, j) == 0 {
                old_cent[a] as int
            } else {
                round_div(cluster_axis_sum(ps, assigns, j, a), cluster_count(assigns, j))
            },
    ensures
        cluster_dev_upto(ps, assigns, j, new_cent, d)
            <= cluster_dev_upto(ps, assigns, j, old_cent, d),
    decreases d,
{
    if d > 0 {
        lemma_cluster_update_optimal(ps, assigns, j, old_cent, new_cent, d - 1);
        let c = cluster_count(assigns, j);
        if c == 0 {
            assert(new_cent[d - 1] as int == old_cent[d - 1] as int);
        } else {
            lemma_cluster_count_bounds(assigns, j);
            lemma_axis_mean_optimal(ps, assigns, j, d - 1, old_cent[d - 1] as int);
        }
    }
}

/// Moving every centroid to the rounded mean of its cluster (degenerate
/// clusters keep their position) never increases inertia.
pub proof fn lemma_update_non_increasing(
    ps: Seq<Seq<i64>>,
    assigns: Seq<usize>,
    cents: Seq<Seq<i64>>,
    d: int,
)
    requires
        assigns.len() == ps.len(),
        cents.len() >= 1,
        points_ok(ps),
        d >= 0,
        uniform_dims(ps, d),
        uniform_dims(cents, d),
        forall|i: int| 0 <= i < assigns.len() ==> #[trigger] assigns[i] < cents.len(),
    ensures
        inertia_of(ps, assigns, updated_cents(ps, assigns, cents))
            <= inertia_of(ps, assigns, cents),
{
    let nc = updated_cents(ps, assigns, cents);
    assert(nc.len() == cents.len());
    assert(forall|j: int| 0 <= j < nc.len() ==> (#[trigger] nc[j]).len() == d);
    lemma_inertia_decomposition(ps, assigns, cents, d);
    lemma_inertia_decomposition(ps, assigns, nc, d);
    lemma_total_dev_compare(ps, assigns, cents, nc, d, cents.len() as int);
}

/// One full Lloyd iteration, update then re-assignment, never increases
/// inertia: the monotone-descent property of the algorithm.
pub proof fn lemma_lloyd_step_non_increasing(
    ps: Seq<Seq<i64>>,
    assigns: Seq<usize>,
    cents: Seq<Seq<i64>>,
    d: int,
)
    requires
        assigns.len() == ps.len(),
        1 <= cents.len() <= usize::MAX,
        points_ok(ps),
        d >= 0,
        uniform_dims(ps, d),
        uniform_dims(cents, d),
        forall|i: int| 0 <= i < assigns.len() ==> #[trigger] assigns[i] < cents.len(),
    ensures
        inertia_of(
            ps,
            lloyd_assigns(updated_cents(ps, assigns, cents), ps),
            updated_cents(ps, assigns, cents),
        ) <= inertia_of(ps, assigns, cents),
{
    let nc = updated_cents(ps, assigns, cents);
    assert(forall|j: int| 0 <= j < nc.len() ==> (#[trigger] nc[j]).len() == cents[j].len());
    lemma_update_non_increasing(ps, assigns, cents, d);
    lemma_reassign_non_increasing(ps, assigns, nc, d);
}

proof fn lemma_total_dev_compare(
    ps: Seq<Seq<i64>>,
    assigns: Seq<usize>,
    cents: Seq<Seq<i64>>,
    nc: Seq<Seq<i64>>,
    d: int,
    m: int,
)
    requires
        assigns.len() == ps.len(),
        points_ok(ps),
        d >= 0,
        uniform_dims(ps, d),
        uniform_dims(cents, d),
        nc == updated_cents(ps, assigns, cents),
        0 <= m <= cents.len(),
    ensures
        total_dev_upto(ps, assigns, nc, d, m) <= total_dev_upto(ps, assigns, cents, d, m),
    decreases m,
{
    if m > 0 {
        lemma_total_dev_compare(ps, assigns, cents, nc, d, m - 1);
        let j = m - 1;
        assert(nc[j].len() == cents[j].len());
        assert forall|a: int| 0 <= a < d implies #[trigger] nc[j][a] as int
            == if cluster_count(assigns, j) == 0 {
                cents[j][a] as int
            } else {
                round_div(cluster_axis_sum(ps, assigns, j, a), cluster_count(assigns, j))
            } by {
            if cluster_count(assigns, j) != 0 {
                lemma_cluster_count_bounds(assigns, j);
                assert forall|i: int| 0 <= i < ps.len()
                    implies -(COORD_LIMIT as int) <= (#[trigger] ps[i])[a] <= COORD_LIMIT as int
                    by {
                    assert(point_ok(ps[i]));
                }
                lemma_axis_sum_bound(ps, assigns, j, a, COORD_LIMIT as int);
                lemma_round_div_bound(
                    cluster_axis_sum(ps, assigns, j, a),
                    cluster_count(assigns, j),
                    COORD_LIMIT as int,
                );
            }
        }
        lemma_cluster_update_optimal(ps, assigns, j, cents[j], nc[j], d);
    }
}

} // verus!
