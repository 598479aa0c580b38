//! The K-means clustering engine: centroid seeding by sampling distinct
//! points, then Lloyd's assignment/update loop with a displacement-based
//! convergence check and a recorded, provably non-increasing inertia
//! trace.

use vstd::prelude::*;
use crate::ConfigError;
use crate::geometry::{
    dist_sq, lemma_dist_sq_self, lemma_dist_sq_sym, point_ok, points_ok, sqrt_floor,
    uniform_dims,
};
use crate::assign::{assign_points, lemma_nearest_is_minimal, lloyd_assigns, nearest};
use crate::update::{
    cluster_axis_sum, cluster_count, round_div, update_centroids, updated_cents,
};
use crate::inertia::{centroid_shift, compute_inertia, inertia_of, shift_of};
use crate::laws::{lemma_reassign_non_increasing, lemma_update_non_increasing};
use crate::rng::{rng_below, rng_from_seed};
use vstd::string::StringExecFns;
use vstd::arithmetic::div_mod::lemma_div_is_strictly_smaller;

verus! {

pub const DEFAULT_MAX_ITER: usize = 300;

/// Default convergence threshold: stop as soon as the summed centroid
/// displacement is below one fixed-point coordinate step.
pub const DEFAULT_TOLERANCE: u64 = 1;

/// The character a decimal digit prints as.
pub open spec fn digit_char(d: nat) -> char {
    if d == 0 {
        '0'
    } else if d == 1 {
        '1'
    } else if d == 2 {
        '2'
    } else if d == 3 {
        '3'
    } else if d == 4 {
        '4'
    } else if d == 5 {
        '5'
    } else if d == 6 {
        '6'
    } else if d == 7 {
        '7'
    } else if d == 8 {
        '8'
    } else {
        '9'
    }
}

/// The decimal rendering of a number, most significant digit first.
pub open spec fn dec_digits(n: nat) -> Seq<char>
    decreases n,
{
    if n < 10 {
        seq![digit_char(n)]
    } else {
        dec_digits(n / 10).push(digit_char(n % 10))
    }
}

/// The one-line summary `to_string` prints for a configuration.
pub open spec fn summary_of(k: nat, max_iter: nat, tolerance: nat) -> Seq<char> {
    "KMeans{ k: "@ + dec_digits(k) + ", max_iter: "@ + dec_digits(max_iter)
        + ", tolerance: "@ + dec_digits(tolerance) + " }"@
}

/// A configuration the engine can fit: at least one cluster, no more
/// clusters than points, and one common dimensionality.
pub open spec fn config_ok(k: int, ps: Seq<Seq<i64>>) -> bool {
    &&& 1 <= k <= ps.len()
    &&& uniform_dims(ps, ps[0].len() as int)
}

/// Sum of coordinate `a` over all points.
pub open spec fn axis_sum_all(ps: Seq<Seq<i64>>, a: int) -> int
    decreases ps.len(),
{
    if ps.len() == 0 {
        0
    } else {
        axis_sum_all(ps.drop_last(), a) + ps.last()[a] as int
    }
}

/// The coordinate-wise mean of all points, rounded to the nearest
/// fixed-point coordinate.
pub open spec fn mean_point(ps: Seq<Seq<i64>>, d: int) -> Seq<i64> {
    Seq::new(d as nat, |a: int| round_div(axis_sum_all(ps, a), ps.len() as int) as i64)
}

proof fn lemma_single_cluster_sums(ps: Seq<Seq<i64>>, assigns: Seq<usize>, a: int)
    requires
        assigns.len() == ps.len(),
        forall|i: int| 0 <= i < assigns.len() ==> #[trigger] assigns[i] == 0,
    ensures
        cluster_count(assigns, 0) == ps.len(),
        cluster_axis_sum(ps, assigns, 0, a) == axis_sum_all(ps, a),
    decreases ps.len(),
{
    if ps.len() > 0 {
        lemma_single_cluster_sums(ps.drop_last(), assigns.drop_last(), a);
        assert(assigns.last() == assigns[assigns.len() - 1]);
    }
}

#[derive(Clone, Debug)]
pub struct KMeans {
    pub k: usize,
    pub max_iter: usize,
    /// Convergence threshold on the summed centroid displacement, in
    /// fixed-point coordinate steps.
    pub tolerance: u64,
    /// One centroid per cluster after a successful fit.
    pub centroids: Vec<Vec<i64>>,
    /// Cluster index of each input point, parallel to the input.
    pub assignments: Vec<usize>,
    /// Sum of squared distances of each point to its assigned centroid.
    pub inertia: u128,
    /// Inertia after seeding and after each iteration; non-increasing.
    pub inertia_trace: Vec<u128>,
    pub n_iter: usize,
    pub converged: bool,
}

fn digit_str(d: u64) -> (r: &'static str)
    requires
        d < 10,
    ensures
        r@ == seq![digit_char(d as nat)],
{
    if d == 0 {
        proof { reveal_strlit("0"); }
        "0"
    } else if d == 1 {
        proof { reveal_strlit("1"); }
        "1"
    } else if d == 2 {
        proof { reveal_strlit("2"); }
        "2"
    } else if d == 3 {
        proof { reveal_strlit("3"); }
        "3"
    } else if d == 4 {
        proof { reveal_strlit("4"); }
        "4"
    } else if d == 5 {
        proof { reveal_strlit("5"); }
        "5"
    } else if d == 6 {
        proof { reveal_strlit("6"); }
        "6"
    } else if d == 7 {
        proof { reveal_strlit("7"); }
        "7"
    } else if d == 8 {
        proof { reveal_strlit("8"); }
        "8"
    } else {
        proof { reveal_strlit("9"); }
        "9"
    }
}

/// Appends the decimal rendering of `n`.
fn push_dec(s: &mut String, n: u64)
    ensures
        final(s)@ == old(s)@ + dec_digits(n as nat),
    decreases n,
{
    if n < 10 {
        let d: &'static str = digit_str(n);
        s.append(d);
        proof {
            assert(s@ =~= old(s)@ + dec_digits(n as nat));
        }
    } else {
        proof {
            lemma_div_is_strictly_smaller(n as int, 10);
        }
        push_dec(s, n / 10);
        let d: &'static str = digit_str(n % 10);
        s.append(d);
        proof {
            assert(s@ =~= old(s)@ + dec_digits(n as nat));
        }
    }
}

/// An element-wise copy of a point.
fn copy_point(p: &Vec<i64>) -> (r: Vec<i64>)
    ensures
        r@ == p@,
{
    let mut r: Vec<i64> = Vec::new();
    let mut a: usize = 0;
    while a < p.len()
        invariant
            a <= p@.len(),
            r@.len() == a,
            forall|t: int| 0 <= t < a ==> #[trigger] r@[t] == p@[t],
        decreases p@.len() - a,
    {
        r.push(p[a]);
        a = a + 1;
    }
    proof {
        assert(r@ =~= p@);
    }
    r
}

/// Draws `k` pairwise-distinct indices below `n`, uniformly, by a partial
/// shuffle of the index pool.
fn pick_init_indices(n: usize, k: usize, rng: &mut rand::rngs::StdRng) -> (r: Vec<usize>)
    requires
        1 <= k <= n,
    ensures
        r@.len() == k,
        forall|t: int| 0 <= t < k ==> #[trigger] r@[t] < n,
        forall|a: int, b: int| 0 <= a < b < k ==> r@[a] != r@[b],
{
    let mut pool: Vec<usize> = Vec::new();
    let mut t: usize = 0;
    while t < n
        invariant
            t <= n,
            pool@.len() == t,
            forall|s: int| 0 <= s < t ==> #[trigger] pool@[s] == s,
        decreases n - t,
    {
        pool.push(t);
        t = t + 1;
    }
    let mut i: usize = 0;
    while i < k
        invariant
            i <= k <= n,
            pool@.len() == n,
            forall|a: int| 0 <= a < n ==> #[trigger] pool@[a] < n,
            forall|a: int, b: int| #![trigger pool@[a], pool@[b]]
                0 <= a < n && 0 <= b < n && a != b ==> pool@[a] != pool@[b],
        decreases k - i,
    {
        let off: usize = rng_below(rng, n - i);
        let j: usize = i + off;
        let vi: usize = pool[i];
        let vj: usize = pool[j];
        let ghost before = pool@;
        pool.set(i, vj);
        pool.set(j, vi);
        proof {
            assert(forall|s: int|
                0 <= s < n ==> pool@[s] == if s == j as int {
                    before[i as int]
                } else if s == i as int {
                    before[j as int]
                } else {
                    #[trigger] before[s]
                });
            assert forall|a: int, b: int| #![trigger pool@[a], pool@[b]]
                0 <= a < n && 0 <= b < n && a != b implies pool@[a] != pool@[b] by {
                assert(before[i as int] < n && before[j as int] < n);
            }
        }
        i = i + 1;
    }
    let mut r: Vec<usize> = Vec::new();
    let mut s: usize = 0;
    while s < k
        invariant
            s <= k <= n,
            pool@.len() == n,
            r@.len() == s,
            forall|a: int| 0 <= a < n ==> #[trigger] pool@[a] < n,
            forall|a: int, b: int| #![trigger pool@[a], pool@[b]]
                0 <= a < n && 0 <= b < n && a != b ==> pool@[a] != pool@[b],
            forall|t2: int| 0 <= t2 < s ==> #[trigger] r@[t2] == pool@[t2],
        decreases k - s,
    {
        r.push(pool[s]);
        s = s + 1;
    }
    r
}

impl KMeans {
    /// An engine with the default iteration cap and tolerance and no fit
    /// state yet.
    pub fn new(k: usize) -> (r: KMeans)
        ensures
            r.k == k,
            r.max_iter == DEFAULT_MAX_ITER,
            r.tolerance == DEFAULT_TOLERANCE,
            r.centroids@.len() == 0,
            r.assignments@.len() == 0,
            r.inertia == 0,
            r.inertia_trace@.len() == 0,
            r.n_iter == 0,
            !r.converged,
    {
        KMeans {
            k,
            max_iter: DEFAULT_MAX_ITER,
            tolerance: DEFAULT_TOLERANCE,
            centroids: Vec::new(),
            assignments: Vec::new(),
            inertia: 0,
            inertia_trace: Vec::new(),
            n_iter: 0,
            converged: false,
        }
    }

    /// The configuration, printed: cluster count, iteration cap, and the
    /// displacement tolerance in fixed-point coordinate steps.
    pub fn to_string(&self) -> (r: String)
        ensures
            r@ == summary_of(self.k as nat, self.max_iter as nat, self.tolerance as nat),
    {
        let mut s: String = String::new();
        s.append("KMeans{ k: ");
        push_dec(&mut s, self.k as u64);
        s.append(", max_iter: ");
        push_dec(&mut s, self.max_iter as u64);
        s.append(", tolerance: ");
        push_dec(&mut s, self.tolerance);
        s.append(" }");
        proof {
            assert(s@ =~= summary_of(
                self.k as nat,
                self.max_iter as nat,
                self.tolerance as nat,
            ));
        }
        s
    }

    /// Partitions `points` into `self.k` clusters. Rebuilds the whole fit
    /// state; on a bad configuration it fails fast and changes nothing.
    pub fn fit(&mut self, points: &Vec<Vec<i64>>, seed: u64) -> (r: Result<(), ConfigError>)
        requires
            points_ok(points.deep_view()),
        ensures
            final(self).k == old(self).k,
            final(self).max_iter == old(self).max_iter,
            final(self).tolerance == old(self).tolerance,
            r.is_err() <==> !config_ok(old(self).k as int, points.deep_view()),
            r.is_err() ==> *final(self) == *old(self),
            r.is_ok() ==> final(self).centroids.deep_view().len() == old(self).k,
            r.is_ok() ==> points_ok(final(self).centroids.deep_view()),
            r.is_ok() ==> uniform_dims(
                final(self).centroids.deep_view(),
                points.deep_view()[0].len() as int,
            ),
            r.is_ok() ==> final(self).assignments@ == lloyd_assigns(
                final(self).centroids.deep_view(),
                points.deep_view(),
            ),
            r.is_ok() ==> final(self).assignments@.len() == points@.len(),
            r.is_ok() ==> forall|i: int|
                0 <= i < final(self).assignments@.len() ==> #[trigger] final(self).assignments@[i]
                    < old(self).k,
            // no point sits with a strictly farther centroid
            r.is_ok() ==> forall|i: int, j: int|
                #![trigger points.deep_view()[i], final(self).centroids.deep_view()[j]]
                0 <= i < points.deep_view().len()
                    && 0 <= j < final(self).centroids.deep_view().len()
                    ==> dist_sq(
                        points.deep_view()[i],
                        final(self).centroids.deep_view()[final(self).assignments@[i] as int],
                    ) <= dist_sq(
                        points.deep_view()[i],
                        final(self).centroids.deep_view()[j],
                    ),
            r.is_ok() ==> final(self).inertia == inertia_of(
                points.deep_view(),
                final(self).assignments@,
                final(self).centroids.deep_view(),
            ),
            r.is_ok() ==> final(self).n_iter <= old(self).max_iter,
            r.is_ok() && old(self).max_iter >= 1 ==> 1 <= final(self).n_iter,
            r.is_ok() && !final(self).converged ==> final(self).n_iter == old(self).max_iter,
            r.is_ok() ==> final(self).inertia_trace@.len() == final(self).n_iter + 1,
            r.is_ok() ==> final(self).inertia_trace@[final(self).n_iter as int] == final(self).inertia,
            // the recorded inertia never increases from one iteration to the next
            r.is_ok() ==> forall|t: int|
                0 <= t < final(self).n_iter ==> #[trigger] final(self).inertia_trace@[t + 1]
                    <= final(self).inertia_trace@[t],
            // one cluster: the centroid is the rounded mean of all points
            r.is_ok() && old(self).k == 1 && old(self).max_iter >= 1
                ==> final(self).centroids.deep_view()[0]
                    == mean_point(points.deep_view(), points.deep_view()[0].len() as int),
            r.is_ok() && old(self).k == 1 && old(self).max_iter >= 2 && old(self).tolerance >= 1
                ==> final(self).converged,
    {
        let ghost pv = points.deep_view();
        let n: usize = points.len();
        let k: usize = self.k;
        let max_iter: usize = self.max_iter;
        let tolerance: u64 = self.tolerance;
        if k == 0 || k > n {
            return Err(ConfigError::InvalidConfiguration);
        }
        let d: usize = points[0].len();
        proof {
            assert(pv[0] == points@[0]@);
        }
        let mut i: usize = 0;
        while i < n
            invariant
                i <= n,
                pv == points.deep_view(),
                pv.len() == points@.len() == n,
                d == pv[0].len(),
                forall|t: int| 0 <= t < i ==> (#[trigger] pv[t]).len() == d,
            decreases n - i,
        {
            proof {
                assert(pv[i as int] == points@[i as int]@);
            }
            if points[i].len() != d {
                return Err(ConfigError::InvalidConfiguration);
            }
            i = i + 1;
        }
        assert(config_ok(k as int, pv));
        let mut rng = rng_from_seed(seed);
        let idx: Vec<usize> = pick_init_indices(n, k, &mut rng);
        let mut cents: Vec<Vec<i64>> = Vec::new();
        let mut t: usize = 0;
        while t < k
            invariant
                t <= k,
                1 <= k <= n,
                pv == points.deep_view(),
                pv.len() == points@.len() == n,
                points_ok(pv),
                uniform_dims(pv, d as int),
                d == pv[0].len(),
                idx@.len() == k,
                forall|s: int| 0 <= s < k ==> #[trigger] idx@[s] < n,
                cents.deep_view().len() == t,
                forall|s: int| 0 <= s < t ==> #[trigger] cents.deep_view()[s] == pv[idx@[s] as int],
                forall|s: int| 0 <= s < t ==> point_ok(#[trigger] cents.deep_view()[s]),
                forall|s: int| 0 <= s < t ==> (#[trigger] cents.deep_view()[s]).len() == d,
            decreases k - t,
        {
            let row: Vec<i64> = copy_point(&points[idx[t]]);
            proof {
                assert(pv[idx@[t as int] as int] == points@[idx@[t as int] as int]@);
            }
            let ghost prevv: Seq<Vec<i64>> = cents@;
            let ghost prevdv: Seq<Seq<i64>> = cents.deep_view();
            cents.push(row);
            proof {
                assert(cents@ == prevv.push(row));
                assert forall|s: int| 0 <= s < t + 1
                    implies #[trigger] cents.deep_view()[s] == pv[idx@[s] as int] by {
                    assert(cents.deep_view()[s] == cents@[s]@);
                    if s < t {
                        assert(cents@[s] == prevv[s]);
                        assert(prevdv[s] == prevv[s]@);
                    }
                }
            }
            t = t + 1;
        }
        let mut assigns: Vec<usize> = assign_points(&cents, points);
        let mut trace: Vec<u128> = Vec::new();
        let inert0: u128 = compute_inertia(points, &assigns, &cents);
        trace.push(inert0);
        let mut n_iter: usize = 0;
        let mut converged: bool = false;
        while n_iter < max_iter && !converged
            invariant
                pv == points.deep_view(),
                pv.len() == points@.len() == n,
                points_ok(pv),
                uniform_dims(pv, d as int),
                d == pv[0].len(),
                1 <= k <= n,
                cents.deep_view().len() == k,
                cents@.len() == k,
                points_ok(cents.deep_view()),
                uniform_dims(cents.deep_view(), d as int),
                assigns@ == lloyd_assigns(cents.deep_view(), pv),
                assigns@.len() == n,
                forall|s: int| 0 <= s < n ==> #[trigger] assigns@[s] < k,
                n_iter <= max_iter,
                converged ==> n_iter >= 1,
                k == 1 && n_iter >= 1 ==> cents.deep_view()[0] == mean_point(pv, d as int),
                k == 1 && tolerance >= 1 && n_iter >= 2 ==> converged,
                trace@.len() == n_iter + 1,
                trace@[n_iter as int] == inertia_of(pv, assigns@, cents.deep_view()),
                forall|s: int| 0 <= s < n_iter ==> #[trigger] trace@[s + 1] <= trace@[s],
            decreases max_iter - n_iter,
        {
            let new_cents: Vec<Vec<i64>> = update_centroids(points, &assigns, &cents);
            let shift: u128 = centroid_shift(&cents, &new_cents);
            proof {
                lemma_update_non_increasing(pv, assigns@, cents.deep_view(), d as int);
                lemma_reassign_non_increasing(pv, assigns@, new_cents.deep_view(), d as int);
                if k == 1 {
                    let cv = cents.deep_view();
                    let nv = new_cents.deep_view();
                    assert forall|s: int| 0 <= s < n implies #[trigger] assigns@[s] == 0 by {
                        assert(assigns@[s] == nearest(cv, pv[s]) as usize);
                    }
                    assert forall|a: int| 0 <= a < d
                        implies #[trigger] nv[0][a] == mean_point(pv, d as int)[a] by {
                        lemma_single_cluster_sums(pv, assigns@, a);
                        assert(nv[0][a] == updated_cents(pv, assigns@, cv)[0][a]);
                    }
                    assert(nv[0] =~= mean_point(pv, d as int));
                    if n_iter >= 1 {
                        // the centroid is already the mean, so it does not move
                        assert(cv[0] == nv[0]);
                        assert(cv.drop_last().len() == 0);
                        lemma_dist_sq_self(cv[0]);
                        assert(cv.last() == cv[0] && nv.last() == nv[0]);
                        assert(dist_sq(cv.last(), nv.last()) == 0);
                        assert(shift_of(cv.drop_last(), nv.drop_last()) == 0);
                        assert(shift_of(cv, nv) == sqrt_floor(0));
                        assert(shift == 0);
                    }
                }
            }
            cents = new_cents;
            assigns = assign_points(&cents, points);
            let inert: u128 = compute_inertia(points, &assigns, &cents);
            let ghost prevt = trace@;
            trace.push(inert);
            proof {
                assert(trace@ == prevt.push(inert));
                assert(trace@[n_iter as int + 1] == inert);
                assert forall|s: int| 0 <= s < n_iter + 1
                    implies #[trigger] trace@[s + 1] <= trace@[s] by {
                    if s < n_iter {
                        assert(trace@[s + 1] == prevt[s + 1]);
                        assert(trace@[s] == prevt[s]);
                    } else {
                        assert(trace@[s] == prevt[s]);
                    }
                }
            }
            n_iter = n_iter + 1;
            if shift < tolerance as u128 {
                converged = true;
            }
        }
        proof {
            assert forall|i2: int, j2: int|
                #![trigger pv[i2], cents.deep_view()[j2]]
                0 <= i2 < pv.len() && 0 <= j2 < cents.deep_view().len()
                implies dist_sq(pv[i2], cents.deep_view()[assigns@[i2] as int])
                    <= dist_sq(pv[i2], cents.deep_view()[j2]) by {
                let cv = cents.deep_view();
                lemma_nearest_is_minimal(cv, pv[i2]);
                assert(assigns@[i2] == nearest(cv, pv[i2]) as usize);
                lemma_dist_sq_sym(pv[i2], cv[assigns@[i2] as int]);
                lemma_dist_sq_sym(pv[i2], cv[j2]);
            }
        }
        let last: u128 = trace[trace.len() - 1];
        self.centroids = cents;
        self.assignments = assigns;
        self.inertia = last;
        self.inertia_trace = trace;
        self.n_iter = n_iter;
        self.converged = converged;
        Ok(())
    }
}

} // verus!
