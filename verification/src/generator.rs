//! Synthetic dataset planning and assembly: `plan_clusters` draws each
//! cluster's center, per-axis standard deviation and size (with the
//! jittered share allocation and the sanity ceiling), and
//! `assemble_dataset` lays the per-cluster draws out as one labeled,
//! generation-ordered dataset with clamped coordinates. The normal draws
//! themselves happen between the two calls, outside this crate's verified
//! code, since they are floating-point work.

use vstd::prelude::*;
use crate::ConfigError;
use crate::geometry::{coord_ok, point_ok, points_ok, COORD_LIMIT, MAX_DIMS, MAX_POINTS};
use crate::rng::rng_range_i64;

verus! {

/// Smallest per-axis standard deviation a cluster is drawn with (0.3 in
/// fixed-point thousandths).
pub const STD_DEV_MIN: i64 = 300;

/// Largest per-axis standard deviation a cluster is drawn with (2.0 in
/// fixed-point thousandths).
pub const STD_DEV_MAX: i64 = 2000;

/// A per-cluster extra allocation beyond this many points is treated as a
/// pathological jitter draw: the cluster is generated with zero points.
pub const EXTRA_CEILING: i64 = 1000;

/// Most clusters one request may ask for; keeps the whole dataset within
/// `MAX_POINTS` even when every cluster hits the ceiling.
pub const MAX_CLUSTERS: usize = 999;

/// One planned cluster: where it sits, how wide it is, how many points
/// it receives.
pub struct ClusterSpec {
    pub center: Vec<i64>,
    pub std_dev: Vec<i64>,
    pub size: usize,
}

/// A labeled synthetic dataset in generation order, with the diagnostic
/// record of non-fatal anomalies.
pub struct Dataset {
    pub points: Vec<Vec<i64>>,
    /// Originating cluster of each point, parallel to `points`.
    pub ground_truth_label: Vec<usize>,
    /// One flag per requested cluster: true where the size draw broke the
    /// sanity ceiling and the cluster was generated empty.
    pub sanity_flags: Vec<bool>,
}

/// Floor share of the leftover points each cluster receives.
pub open spec fn gen_base(total_points: int, n_clusters: int) -> int {
    if total_points > n_clusters {
        (total_points - n_clusters) / n_clusters
    } else {
        0
    }
}

/// Half-width of the size jitter: a quarter of the share, at least one.
pub open spec fn gen_variation(total_points: int, n_clusters: int) -> int {
    let q = gen_base(total_points, n_clusters) / 4;
    if q > 1 {
        q
    } else {
        1
    }
}

/// Draws the cluster layout: centers uniform per axis in
/// `[-spread_range, spread_range]`, standard deviations uniform in
/// `[STD_DEV_MIN, STD_DEV_MAX]`, and sizes of one point plus a jittered
/// share of the remainder, zeroed past the sanity ceiling.
pub fn plan_clusters(
    n_clusters: usize,
    total_points: usize,
    spread_range: i64,
    rng: &mut rand::rngs::StdRng,
) -> (r: Result<(Vec<ClusterSpec>, Vec<bool>), ConfigError>)
    requires
        n_clusters <= MAX_CLUSTERS,
        total_points <= MAX_POINTS,
        spread_range <= COORD_LIMIT,
    ensures
        r.is_err() <==> (n_clusters == 0 || spread_range <= 0),
        r.is_ok() ==> (r->Ok_0).0@.len() == n_clusters,
        r.is_ok() ==> (r->Ok_0).1@.len() == n_clusters,
        r.is_ok() ==> forall|j: int|
            0 <= j < n_clusters ==> (#[trigger] (r->Ok_0).0@[j]).center@.len() == 2,
        r.is_ok() ==> forall|j: int|
            0 <= j < n_clusters ==> (#[trigger] (r->Ok_0).0@[j]).std_dev@.len() == 2,
        r.is_ok() ==> forall|j: int, a: int|
            #![trigger (r->Ok_0).0@[j].center@[a]]
            0 <= j < n_clusters && 0 <= a < 2
                ==> -spread_range <= (r->Ok_0).0@[j].center@[a] <= spread_range,
        r.is_ok() ==> forall|j: int, a: int|
            #![trigger (r->Ok_0).0@[j].std_dev@[a]]
            0 <= j < n_clusters && 0 <= a < 2
                ==> STD_DEV_MIN <= (r->Ok_0).0@[j].std_dev@[a] <= STD_DEV_MAX,
        // every size stays within one point plus the jittered share
        r.is_ok() ==> forall|j: int|
            0 <= j < n_clusters ==> (#[trigger] (r->Ok_0).0@[j]).size
                <= 1 + gen_base(total_points as int, n_clusters as int)
                    + gen_variation(total_points as int, n_clusters as int),
        // no leftover points: exactly one point per cluster
        r.is_ok() && total_points <= n_clusters ==> forall|j: int|
            0 <= j < n_clusters ==> (#[trigger] (r->Ok_0).0@[j]).size == 1,
        // when the jitter can neither go negative nor break the ceiling,
        // every cluster receives its share within the jitter band
        r.is_ok()
            && gen_base(total_points as int, n_clusters as int)
                >= gen_variation(total_points as int, n_clusters as int)
            && gen_base(total_points as int, n_clusters as int)
                + gen_variation(total_points as int, n_clusters as int) <= EXTRA_CEILING
            ==> forall|j: int|
                0 <= j < n_clusters
                    ==> 1 + gen_base(total_points as int, n_clusters as int)
                        - gen_variation(total_points as int, n_clusters as int)
                        <= (#[trigger] (r->Ok_0).0@[j]).size,
        // a cluster is empty exactly when its draw broke the ceiling
        r.is_ok() ==> forall|j: int|
            0 <= j < n_clusters ==> ((#[trigger] (r->Ok_0).0@[j]).size == 0
                <==> (r->Ok_0).1@[j]),
{
    if n_clusters == 0 || spread_range <= 0 {
        return Err(ConfigError::InvalidConfiguration);
    }
    let remaining: usize = if total_points > n_clusters {
        total_points - n_clusters
    } else {
        0
    };
    let base: usize = remaining / n_clusters;
    let quarter: usize = base / 4;
    let variation: usize = if quarter > 1 {
        quarter
    } else {
        1
    };
    proof {
        assert(base == gen_base(total_points as int, n_clusters as int));
        assert(variation == gen_variation(total_points as int, n_clusters as int));
    }
    let mut specs: Vec<ClusterSpec> = Vec::new();
    let mut flags: Vec<bool> = Vec::new();
    let mut j: usize = 0;
    while j < n_clusters
        invariant
            j <= n_clusters <= MAX_CLUSTERS,
            1 <= n_clusters,
            0 < spread_range <= COORD_LIMIT,
            total_points <= MAX_POINTS,
            base == gen_base(total_points as int, n_clusters as int),
            variation == gen_variation(total_points as int, n_clusters as int),
            base <= MAX_POINTS,
            1 <= variation <= MAX_POINTS,
            remaining == if total_points > n_clusters {
                total_points - n_clusters
            } else {
                0int
            },
            specs@.len() == j,
            flags@.len() == j,
            forall|t: int| 0 <= t < j ==> (#[trigger] specs@[t]).center@.len() == 2,
            forall|t: int| 0 <= t < j ==> (#[trigger] specs@[t]).std_dev@.len() == 2,
            forall|t: int, a: int|
                #![trigger specs@[t].center@[a]]
                0 <= t < j && 0 <= a < 2
                    ==> -spread_range <= specs@[t].center@[a] <= spread_range,
            forall|t: int, a: int|
                #![trigger specs@[t].std_dev@[a]]
                0 <= t < j && 0 <= a < 2
                    ==> STD_DEV_MIN <= specs@[t].std_dev@[a] <= STD_DEV_MAX,
            forall|t: int|
                0 <= t < j ==> (#[trigger] specs@[t]).size <= 1 + base + variation,
            remaining == 0 ==> forall|t: int| 0 <= t < j ==> (#[trigger] specs@[t]).size == 1,
            base >= variation && base + variation <= EXTRA_CEILING ==> forall|t: int|
                0 <= t < j ==> 1 + base - variation <= (#[trigger] specs@[t]).size,
            forall|t: int|
                0 <= t < j ==> ((#[trigger] specs@[t]).size == 0 <==> flags@[t]),
        decreases n_clusters - j,
    {
        let cx: i64 = rng_range_i64(rng, -spread_range, spread_range);
        let cy: i64 = rng_range_i64(rng, -spread_range, spread_range);
        let sx: i64 = rng_range_i64(rng, STD_DEV_MIN, STD_DEV_MAX);
        let sy: i64 = rng_range_i64(rng, STD_DEV_MIN, STD_DEV_MAX);
        let mut center: Vec<i64> = Vec::new();
        center.push(cx);
        center.push(cy);
        let mut std_dev: Vec<i64> = Vec::new();
        std_dev.push(sx);
        std_dev.push(sy);
        let mut size: usize = 1;
        let mut broke_ceiling: bool = false;
        if remaining > 0 {
            let jitter: i64 = rng_range_i64(rng, -(variation as i64), variation as i64);
            let extra: i64 = base as i64 + jitter;
            if extra < 0 || extra > EXTRA_CEILING {
                size = 0;
                broke_ceiling = true;
            } else {
                size = 1 + extra as usize;
            }
        }
        flags.push(broke_ceiling);
        let ghost prev_specs = specs@;
        specs.push(ClusterSpec { center, std_dev, size });
        proof {
            assert(forall|t: int| 0 <= t < j ==> #[trigger] specs@[t] == prev_specs[t]);
        }
        j = j + 1;
    }
    Ok((specs, flags))
}

/// Clamp one raw coordinate into the representable range.
pub open spec fn clamp_spec(x: i64) -> i64 {
    if x < -COORD_LIMIT {
        ((-COORD_LIMIT) as i64)
    } else if x > COORD_LIMIT {
        COORD_LIMIT
    } else {
        x
    }
}

/// A raw point with every coordinate clamped.
pub open spec fn clamp_point(p: Seq<i64>) -> Seq<i64> {
    Seq::new(p.len(), |a: int| clamp_spec(p[a]))
}

/// Points of the clusters before `j`, summed.
pub open spec fn sizes_before(specs: Seq<ClusterSpec>, j: int) -> int
    decreases j,
{
    if j <= 0 {
        0
    } else {
        sizes_before(specs, j - 1) + specs[j - 1].size
    }
}

fn clamp_coord(x: i64) -> (r: i64)
    ensures
        r == clamp_spec(x),
        coord_ok(r),
{
    if x < -COORD_LIMIT {
        -COORD_LIMIT
    } else if x > COORD_LIMIT {
        COORD_LIMIT
    } else {
        x
    }
}

fn clamp_point_exec(p: &Vec<i64>) -> (r: Vec<i64>)
    requires
        p@.len() <= MAX_DIMS,
    ensures
        r@ == clamp_point(p@),
        point_ok(r@),
        r@.len() == p@.len(),
{
    let mut r: Vec<i64> = Vec::new();
    let mut a: usize = 0;
    while a < p.len()
        invariant
            a <= p@.len(),
            r@.len() == a,
            forall|t: int| 0 <= t < a ==> #[trigger] r@[t] == clamp_spec(p@[t]),
            forall|t: int| 0 <= t < a ==> coord_ok(#[trigger] r@[t]),
        decreases p@.len() - a,
    {
        let c: i64 = clamp_coord(p[a]);
        r.push(c);
        a = a + 1;
    }
    proof {
        assert(r@ =~= clamp_point(p@));
    }
    r
}

proof fn lemma_sizes_before_mono(specs: Seq<ClusterSpec>, t: int, j: int)
    requires
        0 <= t < j <= specs.len(),
    ensures
        sizes_before(specs, t) + specs[t].size <= sizes_before(specs, j),
    decreases j,
{
    if j > t + 1 {
        lemma_sizes_before_mono(specs, t, j - 1);
    }
}

proof fn lemma_sizes_before_bound(specs: Seq<ClusterSpec>, j: int, cap: int)
    requires
        0 <= j <= specs.len(),
        cap >= 0,
        forall|t: int| 0 <= t < specs.len() ==> (#[trigger] specs[t]).size <= cap,
    ensures
        0 <= sizes_before(specs, j) <= j * cap,
    decreases j,
{
    if j > 0 {
        lemma_sizes_before_bound(specs, j - 1, cap);
        assert((j - 1) * cap + cap == j * cap) by (nonlinear_arith);
    }
}

/// Lays the per-cluster samples out as one dataset: cluster 0's points
/// first, then cluster 1's, and so on; every coordinate clamped into the
/// representable range; `ground_truth_label` records the origin of every
/// point.
pub fn assemble_dataset(
    specs: &Vec<ClusterSpec>,
    raw: &Vec<Vec<Vec<i64>>>,
    sanity_flags: Vec<bool>,
) -> (r: Dataset)
    requires
        specs@.len() <= MAX_CLUSTERS,
        raw@.len() == specs@.len(),
        forall|j: int| 0 <= j < specs@.len() ==> (#[trigger] specs@[j]).size <= 1 + EXTRA_CEILING,
        forall|j: int| 0 <= j < raw@.len() ==> (#[trigger] raw@[j])@.len() == specs@[j].size,
        forall|j: int, s: int|
            #![trigger raw@[j]@[s]]
            0 <= j < raw@.len() && 0 <= s < raw@[j]@.len()
                ==> raw@[j]@[s]@.len() == specs@[j].center@.len(),
        forall|j: int| 0 <= j < specs@.len() ==> (#[trigger] specs@[j]).center@.len() <= MAX_DIMS,
    ensures
        r.points@.len() == sizes_before(specs@, specs@.len() as int),
        r.ground_truth_label@.len() == r.points@.len(),
        points_ok(r.points.deep_view()),
        r.sanity_flags@ == sanity_flags@,
        // generation order: every point of cluster j sits at its offset,
        // clamped, and labeled j
        forall|j: int, s: int|
            #![trigger raw@[j]@[s]]
            0 <= j < specs@.len() && 0 <= s < specs@[j].size
                ==> r.points.deep_view()[sizes_before(specs@, j) + s]
                    == clamp_point(raw@[j]@[s]@),
        forall|j: int, s: int|
            #![trigger specs@[j].size, r.ground_truth_label@[sizes_before(specs@, j) + s]]
            0 <= j < specs@.len() && 0 <= s < specs@[j].size
                ==> r.ground_truth_label@[sizes_before(specs@, j) + s] == j,
        forall|i: int| 0 <= i < r.ground_truth_label@.len()
            ==> #[trigger] r.ground_truth_label@[i] < specs@.len(),
        // labels never decrease along the dataset
        forall|i1: int, i2: int|
            #![trigger r.ground_truth_label@[i1], r.ground_truth_label@[i2]]
            0 <= i1 < i2 < r.ground_truth_label@.len()
                ==> r.ground_truth_label@[i1] <= r.ground_truth_label@[i2],
{
    let k: usize = specs.len();
    let mut points: Vec<Vec<i64>> = Vec::new();
    let mut labels: Vec<usize> = Vec::new();
    let mut j: usize = 0;
    while j < k
        invariant
            j <= k == specs@.len() <= MAX_CLUSTERS,
            raw@.len() == k,
            forall|t: int| 0 <= t < k ==> (#[trigger] specs@[t]).size <= 1 + EXTRA_CEILING,
            forall|t: int| 0 <= t < k ==> (#[trigger] raw@[t])@.len() == specs@[t].size,
            forall|t: int, s: int|
                #![trigger raw@[t]@[s]]
                0 <= t < k && 0 <= s < raw@[t]@.len()
                    ==> raw@[t]@[s]@.len() == specs@[t].center@.len(),
            forall|t: int| 0 <= t < k ==> (#[trigger] specs@[t]).center@.len() <= MAX_DIMS,
            points.deep_view().len() == sizes_before(specs@, j as int),
            labels@.len() == points@.len(),
            points@.len() == points.deep_view().len(),
            forall|t: int, s: int|
                #![trigger raw@[t]@[s]]
                0 <= t < j && 0 <= s < specs@[t].size
                    ==> points.deep_view()[sizes_before(specs@, t) + s]
                        == clamp_point(raw@[t]@[s]@),
            forall|t: int, s: int|
                #![trigger specs@[t].size, labels@[sizes_before(specs@, t) + s]]
                0 <= t < j && 0 <= s < specs@[t].size
                    ==> labels@[sizes_before(specs@, t) + s] == t,
            forall|i: int| 0 <= i < labels@.len() ==> #[trigger] labels@[i] < j,
            forall|i1: int, i2: int|
                #![trigger labels@[i1], labels@[i2]]
                0 <= i1 < i2 < labels@.len() ==> labels@[i1] <= labels@[i2],
            forall|i: int| 0 <= i < points.deep_view().len()
                ==> point_ok(#[trigger] points.deep_view()[i]),
        decreases k - j,
    {
        proof {
            lemma_sizes_before_bound(specs@, j as int, 1 + EXTRA_CEILING as int);
            assert((j as int) * (1 + EXTRA_CEILING as int)
                <= (MAX_CLUSTERS as int) * (1 + EXTRA_CEILING as int)) by (nonlinear_arith)
                requires 0 <= j as int <= MAX_CLUSTERS as int,
            ;
        }
        let size: usize = specs[j].size;
        let ghost start = points.deep_view().len() as int;
        let mut s: usize = 0;
        while s < size
            invariant
                s <= size,
                j < k == specs@.len() <= MAX_CLUSTERS,
                raw@.len() == k,
                size == specs@[j as int].size <= 1 + EXTRA_CEILING,
                forall|t: int| 0 <= t < k ==> (#[trigger] specs@[t]).size <= 1 + EXTRA_CEILING,
                forall|t: int| 0 <= t < k ==> (#[trigger] raw@[t])@.len() == specs@[t].size,
                forall|t: int, s2: int|
                    #![trigger raw@[t]@[s2]]
                    0 <= t < k && 0 <= s2 < raw@[t]@.len()
                        ==> raw@[t]@[s2]@.len() == specs@[t].center@.len(),
                forall|t: int| 0 <= t < k ==> (#[trigger] specs@[t]).center@.len() <= MAX_DIMS,
                start == sizes_before(specs@, j as int),
                0 <= start <= (MAX_CLUSTERS as int) * (1 + EXTRA_CEILING as int),
                points.deep_view().len() == start + s,
                labels@.len() == points@.len(),
                points@.len() == points.deep_view().len(),
                forall|t: int, s2: int|
                    #![trigger raw@[t]@[s2]]
                    0 <= t < j && 0 <= s2 < specs@[t].size
                        ==> points.deep_view()[sizes_before(specs@, t) + s2]
                            == clamp_point(raw@[t]@[s2]@),
                forall|t: int, s2: int|
                    #![trigger specs@[t].size, labels@[sizes_before(specs@, t) + s2]]
                    0 <= t < j && 0 <= s2 < specs@[t].size
                        ==> labels@[sizes_before(specs@, t) + s2] == t,
                forall|s2: int| 0 <= s2 < s
                    ==> #[trigger] points.deep_view()[start + s2]
                        == clamp_point(raw@[j as int]@[s2]@),
                forall|s2: int| 0 <= s2 < s ==> #[trigger] labels@[start + s2] == j,
                forall|i: int| 0 <= i < labels@.len() ==> #[trigger] labels@[i] <= j,
                forall|i1: int, i2: int|
                    #![trigger labels@[i1], labels@[i2]]
                    0 <= i1 < i2 < labels@.len() ==> labels@[i1] <= labels@[i2],
                forall|i: int| 0 <= i < points.deep_view().len()
                    ==> point_ok(#[trigger] points.deep_view()[i]),
            decreases size - s,
        {
            proof {
                assert(raw@[j as int]@[s as int]@.len() == specs@[j as int].center@.len());
            }
            let row: Vec<i64> = clamp_point_exec(&raw[j][s]);
            let ghost prevv: Seq<Vec<i64>> = points@;
            let ghost prevdv: Seq<Seq<i64>> = points.deep_view();
            let ghost prevl: Seq<usize> = labels@;
            points.push(row);
            labels.push(j);
            proof {
                assert(points@ == prevv.push(row));
                assert(labels@ == prevl.push(j));
                assert forall|i: int| 0 <= i < points.deep_view().len()
                    implies #[trigger] points.deep_view()[i] == if i < prevdv.len() {
                        prevdv[i]
                    } else {
                        row@
                    } by {
                    assert(points.deep_view()[i] == points@[i]@);
                    if i < prevdv.len() {
                        assert(points@[i] == prevv[i]);
                        assert(prevdv[i] == prevv[i]@);
                    }
                }
                assert forall|t: int, s2: int|
                    #![trigger raw@[t]@[s2]]
                    0 <= t < j && 0 <= s2 < specs@[t].size
                    implies points.deep_view()[sizes_before(specs@, t) + s2]
                        == clamp_point(raw@[t]@[s2]@) by {
                    lemma_sizes_before_mono(specs@, t, j as int);
                    lemma_sizes_before_bound(specs@, t, 1 + EXTRA_CEILING as int);
                    assert(sizes_before(specs@, t) + s2 < start);
                    assert(points.deep_view()[sizes_before(specs@, t) + s2]
                        == prevdv[sizes_before(specs@, t) + s2]);
                }
                assert forall|t: int, s2: int|
                    #![trigger specs@[t].size, labels@[sizes_before(specs@, t) + s2]]
                    0 <= t < j && 0 <= s2 < specs@[t].size
                    implies labels@[sizes_before(specs@, t) + s2] == t by {
                    lemma_sizes_before_mono(specs@, t, j as int);
                    lemma_sizes_before_bound(specs@, t, 1 + EXTRA_CEILING as int);
                    assert(sizes_before(specs@, t) + s2 < start);
                    assert(labels@[sizes_before(specs@, t) + s2]
                        == prevl[sizes_before(specs@, t) + s2]);
                }
            }
            s = s + 1;
        }
        proof {
            assert(sizes_before(specs@, j as int + 1)
                == sizes_before(specs@, j as int) + specs@[j as int].size);
        }
        j = j + 1;
    }
    proof {
        lemma_sizes_before_bound(specs@, specs@.len() as int, 1 + EXTRA_CEILING as int);
        assert((MAX_CLUSTERS as int) * (1 + EXTRA_CEILING as int) < MAX_POINTS as int)
            by (nonlinear_arith);
        assert((specs@.len() as int) * (1 + EXTRA_CEILING as int)
            <= (MAX_CLUSTERS as int) * (1 + EXTRA_CEILING as int)) by (nonlinear_arith)
            requires 0 <= specs@.len() as int <= MAX_CLUSTERS as int,
        ;
    }
    Dataset { points, ground_truth_label: labels, sanity_flags }
}

} // verus!
