//! Behavioral tests of the K-means engine on concrete data.
//!
//! Coordinates are fixed-point thousandths: 2500 stands for 2.5.

use moonlight::ml::clustering::kmeans::{KMeans, DEFAULT_MAX_ITER, DEFAULT_TOLERANCE};
use moonlight::ConfigError;

fn two_far_pairs() -> Vec<Vec<i64>> {
    vec![
        vec![0, 0],
        vec![1000, 0],
        vec![100_000, 100_000],
        vec![101_000, 100_000],
    ]
}

#[test]
fn new_uses_documented_defaults() {
    let model = KMeans::new(5);
    assert_eq!(model.k, 5);
    assert_eq!(model.max_iter, DEFAULT_MAX_ITER);
    assert_eq!(model.tolerance, DEFAULT_TOLERANCE);
    assert_eq!(model.n_iter, 0);
    assert!(!model.converged);
    assert!(model.centroids.is_empty());
    assert!(model.assignments.is_empty());
}

#[test]
fn to_string_prints_the_configuration() {
    let model = KMeans::new(5);
    assert_eq!(model.to_string(), "KMeans{ k: 5, max_iter: 300, tolerance: 1 }");
    let mut other = KMeans::new(12);
    other.max_iter = 40;
    other.tolerance = 250;
    assert_eq!(other.to_string(), "KMeans{ k: 12, max_iter: 40, tolerance: 250 }");
}

#[test]
fn fit_is_deterministic_under_a_fixed_seed() {
    let points = two_far_pairs();
    let mut first = KMeans::new(2);
    let mut second = KMeans::new(2);
    first.fit(&points, 42).unwrap();
    second.fit(&points, 42).unwrap();
    assert_eq!(first.centroids, second.centroids);
    assert_eq!(first.assignments, second.assignments);
    assert_eq!(first.inertia, second.inertia);
    assert_eq!(first.inertia_trace, second.inertia_trace);
    assert_eq!(first.n_iter, second.n_iter);
    assert_eq!(first.converged, second.converged);
}

#[test]
fn inertia_trace_is_non_increasing() {
    let mut points: Vec<Vec<i64>> = Vec::new();
    let mut v: i64 = 1;
    for i in 0..60i64 {
        // a scattered but deterministic cloud
        v = (v * 48_271) % 1_000_003;
        points.push(vec![v % 20_000 - 10_000, (v / 7) % 20_000 - 10_000, i * 13]);
    }
    for seed in [0u64, 1, 7, 1234] {
        let mut model = KMeans::new(4);
        model.fit(&points, seed).unwrap();
        let trace = &model.inertia_trace;
        assert_eq!(trace.len(), model.n_iter + 1);
        for t in 1..trace.len() {
            assert!(trace[t] <= trace[t - 1], "inertia rose at step {}", t);
        }
        assert_eq!(*trace.last().unwrap(), model.inertia);
    }
}

fn sq_dist(p: &[i64], q: &[i64]) -> u128 {
    p.iter()
        .zip(q.iter())
        .map(|(a, b)| {
            let d = (*a as i128) - (*b as i128);
            (d * d) as u128
        })
        .sum()
}

#[test]
fn every_point_sits_with_its_nearest_centroid() {
    let mut points: Vec<Vec<i64>> = Vec::new();
    let mut v: i64 = 9;
    for _ in 0..50 {
        v = (v * 16_807) % 2_147_483_647;
        points.push(vec![v % 30_000 - 15_000, (v / 11) % 30_000 - 15_000]);
    }
    let mut model = KMeans::new(5);
    model.fit(&points, 3).unwrap();
    for (i, p) in points.iter().enumerate() {
        let own = sq_dist(p, &model.centroids[model.assignments[i]]);
        for c in &model.centroids {
            assert!(own <= sq_dist(p, c), "point {} is assigned a farther centroid", i);
        }
    }
}

#[test]
fn one_iteration_cap_is_respected() {
    let points = two_far_pairs();
    for tolerance in [0u64, 1, 1_000_000] {
        let mut model = KMeans::new(2);
        model.max_iter = 1;
        model.tolerance = tolerance;
        model.fit(&points, 11).unwrap();
        assert_eq!(model.n_iter, 1);
        assert_eq!(model.inertia_trace.len(), 2);
    }
}

#[test]
fn single_cluster_recovers_the_rounded_mean() {
    // means: x = (0 + 1000 + 5000) / 3 = 2000, y = (0 + 200 + 100) / 3 = 100
    let points = vec![vec![0, 0], vec![1000, 200], vec![5000, 100]];
    let mut model = KMeans::new(1);
    model.fit(&points, 99).unwrap();
    assert!(model.converged);
    assert_eq!(model.centroids, vec![vec![2000, 100]]);
    assert_eq!(model.assignments, vec![0, 0, 0]);
    // inertia is the summed squared deviation around that mean
    let expected: u128 = points.iter().map(|p| sq_dist(p, &[2000, 100])).sum();
    assert_eq!(model.inertia, expected);
}

#[test]
fn single_cluster_rounds_half_away_from_zero() {
    // x mean: (1 + 2) / 2 = 1.5 -> 2; y mean: (-1 - 2) / 2 = -1.5 -> -2
    let points = vec![vec![1, -1], vec![2, -2]];
    let mut model = KMeans::new(1);
    model.fit(&points, 0).unwrap();
    assert_eq!(model.centroids, vec![vec![2, -2]]);
}

#[test]
fn zero_clusters_is_an_invalid_configuration() {
    let points = two_far_pairs();
    let mut model = KMeans::new(0);
    assert_eq!(model.fit(&points, 1), Err(ConfigError::InvalidConfiguration));
    assert!(model.centroids.is_empty());
}

#[test]
fn more_clusters_than_points_is_an_invalid_configuration() {
    let points = vec![vec![0, 0], vec![1000, 1000]];
    let mut model = KMeans::new(3);
    assert_eq!(model.fit(&points, 1), Err(ConfigError::InvalidConfiguration));
}

#[test]
fn mismatched_dimensionality_is_an_invalid_configuration() {
    let points = vec![vec![0, 0], vec![1000, 1000, 7]];
    let mut model = KMeans::new(2);
    assert_eq!(model.fit(&points, 1), Err(ConfigError::InvalidConfiguration));
}

#[test]
fn well_separated_pairs_are_split_exactly() {
    let points = two_far_pairs();
    let mut model = KMeans::new(2);
    model.fit(&points, 5).unwrap();
    assert!(model.converged);
    assert_eq!(model.assignments[0], model.assignments[1]);
    assert_eq!(model.assignments[2], model.assignments[3]);
    assert_ne!(model.assignments[0], model.assignments[2]);
    let mut cents = model.centroids.clone();
    cents.sort();
    assert_eq!(cents, vec![vec![500, 0], vec![100_500, 100_000]]);
}

#[test]
fn distance_and_isqrt_compute_exact_values() {
    assert_eq!(
        moonlight::geometry::dist_sq_exec(&vec![3, 0], &vec![0, 4]),
        25u128
    );
    assert_eq!(moonlight::geometry::isqrt(0), 0);
    assert_eq!(moonlight::geometry::isqrt(1), 1);
    assert_eq!(moonlight::geometry::isqrt(24), 4);
    assert_eq!(moonlight::geometry::isqrt(25), 5);
    assert_eq!(moonlight::geometry::isqrt(u128::MAX), (1u128 << 64) - 1);
}

#[test]
fn rounded_division_is_nearest_half_away_from_zero() {
    assert_eq!(moonlight::update::round_div_exec(7, 2), 4);
    assert_eq!(moonlight::update::round_div_exec(-7, 2), -4);
    assert_eq!(moonlight::update::round_div_exec(7, 3), 2);
    assert_eq!(moonlight::update::round_div_exec(8, 3), 3);
    assert_eq!(moonlight::update::round_div_exec(-8, 3), -3);
    assert_eq!(moonlight::update::round_div_exec(0, 5), 0);
}
