//! Tests of the dataset generator and of the full generate-then-cluster
//! scenario, with the normal draws done here at the boundary, in floating
//! point, exactly as a caller of the library would.

use moonlight::generator::{assemble_dataset, plan_clusters, ClusterSpec, Dataset};
use moonlight::ml::clustering::kmeans::KMeans;
use moonlight::ConfigError;
use rand::rngs::StdRng;
use rand::SeedableRng;
use rand_distr::{Distribution, Normal};

/// Draws `size` points around `center` with per-axis deviation `std_dev`,
/// both in fixed-point thousandths.
fn sample_cluster(spec: &ClusterSpec, rng: &mut StdRng) -> Vec<Vec<i64>> {
    let d = spec.center.len();
    let normals: Vec<Normal<f64>> = (0..d)
        .map(|a| {
            Normal::new(
                spec.center[a] as f64 / 1000.0,
                spec.std_dev[a] as f64 / 1000.0,
            )
            .unwrap()
        })
        .collect();
    (0..spec.size)
        .map(|_| {
            (0..d)
                .map(|a| (normals[a].sample(rng) * 1000.0).round() as i64)
                .collect()
        })
        .collect()
}

/// The full generation pipeline: plan, sample, assemble.
fn generate(n_clusters: usize, total_points: usize, spread_range: i64, seed: u64)
    -> Result<Dataset, ConfigError> {
    let mut rng = StdRng::seed_from_u64(seed);
    let (specs, flags) = plan_clusters(n_clusters, total_points, spread_range, &mut rng)?;
    let raw: Vec<Vec<Vec<i64>>> = specs.iter().map(|s| sample_cluster(s, &mut rng)).collect();
    Ok(assemble_dataset(&specs, &raw, flags))
}

#[test]
fn thirty_points_in_three_clusters_cover_every_label() {
    for seed in [0u64, 1, 2, 99, 4096] {
        let data = generate(3, 30, 10_000, seed).unwrap();
        let n = data.points.len();
        assert_eq!(n, data.ground_truth_label.len());
        // share 9 with jitter band 2: sizes in [8, 12], totals in [24, 36]
        assert!(n >= 24 && n <= 36, "total {} out of the jitter band", n);
        assert!(n >= 3);
        let mut counts = [0usize; 3];
        for &label in &data.ground_truth_label {
            assert!(label < 3);
            counts[label] += 1;
        }
        for (j, c) in counts.iter().enumerate() {
            assert!((8..=12).contains(c), "cluster {} holds {} points", j, c);
        }
        assert_eq!(data.sanity_flags, vec![false, false, false]);
    }
}

#[test]
fn labels_come_in_generation_order() {
    let data = generate(4, 40, 5_000, 7).unwrap();
    for w in data.ground_truth_label.windows(2) {
        assert!(w[0] <= w[1]);
    }
}

#[test]
fn fewer_points_than_clusters_still_yields_one_point_each() {
    let data = generate(5, 2, 1_000, 3).unwrap();
    assert_eq!(data.points.len(), 5);
    assert_eq!(data.ground_truth_label, vec![0, 1, 2, 3, 4]);
}

#[test]
fn planned_centers_and_spreads_stay_in_their_ranges() {
    let mut rng = StdRng::seed_from_u64(123);
    let (specs, flags) = plan_clusters(6, 200, 10_000, &mut rng).unwrap();
    assert_eq!(specs.len(), 6);
    assert_eq!(flags.len(), 6);
    for spec in &specs {
        assert_eq!(spec.center.len(), 2);
        assert_eq!(spec.std_dev.len(), 2);
        for a in 0..2 {
            assert!(spec.center[a].abs() <= 10_000);
            assert!((300..=2000).contains(&spec.std_dev[a]));
        }
        assert!(spec.size >= 1);
    }
}

#[test]
fn zero_clusters_is_rejected() {
    let mut rng = StdRng::seed_from_u64(0);
    assert!(matches!(
        plan_clusters(0, 10, 1_000, &mut rng),
        Err(ConfigError::InvalidConfiguration)
    ));
}

#[test]
fn non_positive_spread_is_rejected() {
    let mut rng = StdRng::seed_from_u64(0);
    assert!(matches!(
        plan_clusters(3, 10, 0, &mut rng),
        Err(ConfigError::InvalidConfiguration)
    ));
    assert!(matches!(
        plan_clusters(3, 10, -5, &mut rng),
        Err(ConfigError::InvalidConfiguration)
    ));
}

#[test]
fn out_of_range_raw_coordinates_are_clamped() {
    let specs = vec![ClusterSpec {
        center: vec![0, 0],
        std_dev: vec![300, 300],
        size: 1,
    }];
    let raw = vec![vec![vec![i64::MAX, i64::MIN]]];
    let data = assemble_dataset(&specs, &raw, vec![false]);
    assert_eq!(
        data.points,
        vec![vec![1_000_000_000_000, -1_000_000_000_000]]
    );
}

#[test]
fn three_separated_blobs_are_recovered_end_to_end() {
    // centers (-10,-10), (0,0), (10,10); deviation 0.1; all in thousandths
    let true_centers: [[i64; 2]; 3] = [[-10_000, -10_000], [0, 0], [10_000, 10_000]];
    let mut rng = StdRng::seed_from_u64(2024);
    let specs: Vec<ClusterSpec> = true_centers
        .iter()
        .map(|c| ClusterSpec {
            center: vec![c[0], c[1]],
            std_dev: vec![100, 100],
            size: 40,
        })
        .collect();
    let raw: Vec<Vec<Vec<i64>>> = specs.iter().map(|s| sample_cluster(s, &mut rng)).collect();
    let data = assemble_dataset(&specs, &raw, vec![false, false, false]);
    assert_eq!(data.points.len(), 120);

    // restart over a handful of seeds and keep the best converged run,
    // as a caller would: a single unlucky seeding can land Lloyd's
    // algorithm in a local optimum that splits one blob
    let mut best: Option<KMeans> = None;
    for seed in 0..20u64 {
        let mut model = KMeans::new(3);
        model.max_iter = 100;
        model.tolerance = 1;
        model.fit(&data.points, seed).unwrap();
        if model.converged && best.as_ref().map_or(true, |b| model.inertia < b.inertia) {
            best = Some(model);
        }
    }
    let model = best.unwrap();
    assert!(model.converged);

    // each recovered centroid lies within 0.5 of one true center...
    let mut matched = [false; 3];
    for cent in &model.centroids {
        let mut found = false;
        for (t, c) in true_centers.iter().enumerate() {
            let dx = (cent[0] - c[0]) as f64 / 1000.0;
            let dy = (cent[1] - c[1]) as f64 / 1000.0;
            if (dx * dx + dy * dy).sqrt() < 0.5 {
                assert!(!matched[t], "two centroids claim one blob");
                matched[t] = true;
                found = true;
            }
        }
        assert!(found, "a centroid sits away from every blob");
    }
    assert!(matched.iter().all(|m| *m));

    // ...and the assignment recovers the three original groups exactly
    for j in 0..3 {
        let first = model.assignments[j * 40];
        for s in 0..40 {
            assert_eq!(model.assignments[j * 40 + s], first);
            assert_eq!(data.ground_truth_label[j * 40 + s], j);
        }
    }
    assert_ne!(model.assignments[0], model.assignments[40]);
    assert_ne!(model.assignments[40], model.assignments[80]);
    assert_ne!(model.assignments[0], model.assignments[80]);
}
