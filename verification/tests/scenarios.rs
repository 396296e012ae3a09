use fuzzy_cluster::bounds::farthest;
use fuzzy_cluster::convergence::fit;
use fuzzy_cluster::error::{check_finite, check_sizes, check_weight_sum, ClusterError};
use fuzzy_cluster::ieee::is_zero;
use fuzzy_cluster::membership::{shares, Share};
use fuzzy_cluster::select::above_pivot;
use fuzzy_cluster::vector::Vector2;

type Point = (f64, f64);

fn pattern(p: Point) -> Vector2 {
    Vector2::new(p.0.to_bits(), p.1.to_bits())
}

fn value(p: Vector2) -> Point {
    (f64::from_bits(p.x), f64::from_bits(p.y))
}

fn distance(a: Point, b: Point) -> f64 {
    ((a.0 - b.0).powf(2.0) + (a.1 - b.1).powf(2.0)).sqrt()
}

fn low(data: &[Point]) -> Point {
    value(Vector2::min(data.len(), |n| pattern(data[n])))
}

fn high(data: &[Point]) -> Point {
    value(Vector2::max(data.len(), |n| pattern(data[n])))
}

fn normalize(data: &mut Vec<Point>) {
    let min = low(data);
    let max = high(data);
    let span = (max.0 - min.0, max.1 - min.1);
    for p in data.iter_mut() {
        p.0 = if is_zero(span.0.to_bits()) { 0.0 } else { (p.0 - min.0) / span.0 };
        p.1 = if is_zero(span.1.to_bits()) { 0.0 } else { (p.1 - min.1) / span.1 };
    }
}

fn ring(k: usize) -> Vec<Point> {
    (0..k)
        .map(|n| {
            let theta = n as f64 * 2.0 * std::f64::consts::PI / k as f64;
            (theta.sin() * 0.5 + 0.5, theta.cos() * 0.5 + 0.5)
        })
        .collect()
}

fn memberships(distances: &[f64]) -> Result<Vec<f64>, ClusterError> {
    let patterns: Vec<u64> = distances.iter().map(|d| d.to_bits()).collect();
    let plan = shares(&patterns)?;
    let mut weights = Vec::new();
    for (c, share) in plan.iter().enumerate() {
        let weight = match share {
            Share::Formula => {
                let mut sum = 0.0;
                for other in distances {
                    sum += (distances[c] / other).powf(2.0);
                }
                sum.powf(-1.0)
            }
            Share::Coincident { among } => 1.0 / *among as f64,
            Share::Excluded => 0.0,
        };
        check_finite(weight.to_bits())?;
        weights.push(weight);
    }
    Ok(weights)
}

fn mean_move(now: &[Point], before: &[Point]) -> Result<f64, ClusterError> {
    let mut total = 0.0;
    for (a, b) in now.iter().zip(before.iter()) {
        total += distance(*a, *b);
    }
    let mean = total / now.len() as f64;
    check_finite(mean.to_bits())?;
    Ok(mean)
}

fn fuzzy_step(data: &[Point], centroids: &[Point]) -> Result<(Vec<Point>, f64), ClusterError> {
    check_sizes(data.len(), centroids.len())?;
    let mut weights = vec![vec![0.0; data.len()]; centroids.len()];
    for (v, point) in data.iter().enumerate() {
        let distances: Vec<f64> = centroids.iter().map(|c| distance(*point, *c)).collect();
        let row = memberships(&distances)?;
        for c in 0..centroids.len() {
            weights[c][v] = row[c];
        }
    }
    let mut moved = Vec::new();
    for c in 0..centroids.len() {
        let mut at = (0.0, 0.0);
        let mut sum = 0.0;
        for (v, point) in data.iter().enumerate() {
            let weight = weights[c][v].powf(2.0);
            at.0 += weight * point.0;
            at.1 += weight * point.1;
            sum += weight;
        }
        check_weight_sum(f64::to_bits(sum))?;
        moved.push((at.0 / sum, at.1 / sum));
    }
    let by = mean_move(&moved, centroids)?;
    Ok((moved, by))
}

fn pivot_step(
    data: &[Point],
    centroids: &[Point],
    pivot_rate: f64,
) -> Result<(Vec<Point>, f64), ClusterError> {
    check_sizes(data.len(), centroids.len())?;
    let pivot_index = (data.len() as f64 * pivot_rate) as usize;
    let mut moved = centroids.to_vec();
    for n in 0..centroids.len() {
        let mut influence: Vec<f64> = data.iter().map(|p| distance(centroids[n], *p)).collect();
        let reach: Vec<u64> = influence.iter().map(|d| d.to_bits()).collect();
        let distance_max = f64::from_bits(farthest(&reach));
        let mut sum = 0.0;
        for i in influence.iter_mut() {
            *i = distance_max - *i;
            sum += *i;
        }
        check_weight_sum(f64::to_bits(sum))?;
        let weights: Vec<f64> = influence.iter().map(|i| i / sum).collect();
        let patterns: Vec<u64> = weights.iter().map(|w| w.to_bits()).collect();
        let drawn = above_pivot(&patterns, pivot_index)?;
        for m in 0..data.len() {
            if drawn[m] {
                moved[n].0 += (data[m].0 - moved[n].0) * weights[m];
                moved[n].1 += (data[m].1 - moved[n].1) * weights[m];
            }
        }
    }
    let by = mean_move(&moved, centroids)?;
    Ok((moved, by))
}

/// The pivot step written with floating-point comparisons only.
fn plain_pivot_step(data: &[Point], centroids: &[Point], pivot_rate: f64) -> (Vec<Point>, f64) {
    let data_len = data.len();
    let centroid_len = centroids.len();
    let mut distances = vec![vec![0.0; data_len]; centroid_len];
    let mut distance_sum = vec![0.0; centroid_len];
    let mut distance_max = vec![0.0; centroid_len];
    for n in 0..centroid_len {
        for m in 0..data_len {
            distances[n][m] = distance(centroids[n], data[m]);
            if distances[n][m] > distance_max[n] {
                distance_max[n] = distances[n][m];
            }
        }
        for m in 0..data_len {
            distances[n][m] = distance_max[n] - distances[n][m];
        }
        distance_sum[n] = distances[n].iter().sum();
    }
    let mut moved = centroids.to_vec();
    for n in 0..centroid_len {
        let weights: Vec<f64> = distances[n].iter().map(|d| d / distance_sum[n]).collect();
        let mut sorted = weights.clone();
        sorted.sort_by(|a, b| a.partial_cmp(b).unwrap());
        let pivot = sorted[(data_len as f64 * pivot_rate) as usize];
        for m in 0..data_len {
            if weights[m] > pivot {
                moved[n].0 += (data[m].0 - moved[n].0) * weights[m];
                moved[n].1 += (data[m].1 - moved[n].1) * weights[m];
            }
        }
    }
    let mut diff = 0.0;
    for n in 0..centroid_len {
        diff += distance(moved[n], centroids[n]);
    }
    (moved, diff / centroid_len as f64)
}

fn cloud(count: usize) -> Vec<Point> {
    (0..count)
        .map(|i| {
            let t = i as f64;
            ((t * 0.731).sin() * 40.0 + t * 0.2, (t * 1.37).cos() * 7.0 - 3.0)
        })
        .collect()
}

#[test]
fn normalized_data_spans_the_unit_square() {
    let mut data = cloud(60);
    normalize(&mut data);
    assert_eq!(low(&data), (0.0, 0.0));
    assert_eq!(high(&data), (1.0, 1.0));
    for p in &data {
        assert!(0.0 <= p.0 && p.0 <= 1.0 && 0.0 <= p.1 && p.1 <= 1.0);
    }
}

#[test]
fn normalizing_the_unit_square_changes_nothing() {
    let corners = vec![(0.0, 0.0), (1.0, 0.0), (0.0, 1.0), (1.0, 1.0)];
    let mut data = corners.clone();
    normalize(&mut data);
    assert_eq!(data, corners);
}

#[test]
fn a_flat_axis_is_set_to_zero() {
    let mut data = vec![(2.0, 5.0), (4.0, 5.0), (3.0, 5.0)];
    normalize(&mut data);
    assert_eq!(data, vec![(0.0, 0.0), (1.0, 0.0), (0.5, 0.0)]);
}

#[test]
fn memberships_of_a_point_add_up_to_one() {
    let centroids = ring(5);
    for point in cloud(40) {
        let point = (point.0 / 50.0, point.1 / 10.0);
        let distances: Vec<f64> = centroids.iter().map(|c| distance(point, *c)).collect();
        let weights = memberships(&distances).unwrap();
        let total: f64 = weights.iter().sum();
        assert!((total - 1.0).abs() < 1.0e-12, "{total}");
        assert!(weights.iter().all(|w| 0.0 <= *w && *w <= 1.0));
    }
}

#[test]
fn membership_exact_values() {
    // Distances 1 and 2: the ratios squared are 1 and 1/4, then 4 and 1.
    assert_eq!(memberships(&[1.0, 2.0]), Ok(vec![0.8, 0.2]));
    assert_eq!(memberships(&[3.0, 3.0]), Ok(vec![0.5, 0.5]));
}

#[test]
fn two_ring_centroids_on_the_unit_square_move_symmetrically() {
    let data = vec![(0.0, 0.0), (1.0, 0.0), (0.0, 1.0), (1.0, 1.0)];
    let centroids = ring(2);
    let apart = distance(centroids[0], centroids[1]);
    let (moved, by) = fuzzy_step(&data, &centroids).unwrap();

    assert!(by.is_finite());
    assert!(by > 0.0);
    assert!(by < apart);
    // The upper centroid comes down and the lower one comes up by as much.
    assert!(moved[0].1 < centroids[0].1 && moved[0].1 > 0.5);
    assert!(moved[1].1 > centroids[1].1 && moved[1].1 < 0.5);
    assert!((moved[0].1 + moved[1].1 - 1.0).abs() < 1.0e-12);
    assert!((moved[0].0 - 0.5).abs() < 1.0e-12);
    assert!((moved[1].0 - 0.5).abs() < 1.0e-12);
}

#[test]
fn a_point_on_a_centroid_belongs_to_it_alone() {
    let centroids = ring(3);
    let point = centroids[1];
    let distances: Vec<f64> = centroids.iter().map(|c| distance(point, *c)).collect();
    assert_eq!(distances[1], 0.0);
    let weights = memberships(&distances).unwrap();
    assert_eq!(weights, vec![0.0, 1.0, 0.0]);
    assert!(weights.iter().all(|w| !w.is_nan()));
}

#[test]
fn a_single_point_on_a_centroid_leaves_the_others_without_weight() {
    let centroids = ring(2);
    let data = vec![centroids[0]];
    assert_eq!(fuzzy_step(&data, &centroids), Err(ClusterError::ZeroWeight));
    // Alone, the centroid stays on the point.
    let (moved, by) = fuzzy_step(&data, &centroids[..1]).unwrap();
    assert_eq!(moved, vec![centroids[0]]);
    assert_eq!(by, 0.0);
}

#[test]
fn a_step_needs_points_and_centroids() {
    assert_eq!(fuzzy_step(&[], &ring(2)), Err(ClusterError::EmptyDataset));
    assert_eq!(fuzzy_step(&[(0.5, 0.5)], &[]), Err(ClusterError::EmptyCentroids));
    assert_eq!(pivot_step(&[], &ring(2), 0.8), Err(ClusterError::EmptyDataset));
}

#[test]
fn the_pivot_step_agrees_with_floating_point_comparisons() {
    let mut data = cloud(80);
    normalize(&mut data);
    for k in 1..6 {
        for rate in [0.01, 0.3, 0.5, 0.8, 0.99] {
            let centroids = ring(k);
            let (moved, by) = pivot_step(&data, &centroids, rate).unwrap();
            let (expect_moved, expect_by) = plain_pivot_step(&data, &centroids, rate);
            assert_eq!(moved, expect_moved, "k = {k}, rate = {rate}");
            assert_eq!(by, expect_by, "k = {k}, rate = {rate}");
        }
    }
}

#[test]
fn the_pivot_step_refuses_a_rate_of_one() {
    let mut data = cloud(10);
    normalize(&mut data);
    assert_eq!(pivot_step(&data, &ring(2), 1.0), Err(ClusterError::PivotOutOfRange));
}

#[test]
fn the_pivot_step_refuses_weights_that_add_up_to_zero() {
    assert_eq!(pivot_step(&[(0.25, 0.25)], &ring(2), 0.5), Err(ClusterError::ZeroWeight));
}

#[test]
fn fitting_with_no_iteration_leaves_the_centroids() {
    let mut data = cloud(30);
    normalize(&mut data);
    let centroids = ring(3);
    let result = fit(centroids.clone(), 0, 0.0f64.to_bits(), |current: Vec<Point>| {
        fuzzy_step(&data, &current).map(|(moved, by)| (moved, by.to_bits()))
    });
    assert_eq!(result, Ok((centroids, 0)));
}

#[test]
fn fitting_stops_at_the_first_step_within_the_goal() {
    let mut data = cloud(30);
    normalize(&mut data);
    let goal = 1.0e-3;
    let cap = 200;

    let mut expect = ring(3);
    let mut steps = 0;
    while steps < cap {
        let (moved, by) = fuzzy_step(&data, &expect).unwrap();
        expect = moved;
        steps += 1;
        if by <= goal {
            break;
        }
    }
    assert!(0 < steps && steps < cap);

    let result = fit(ring(3), cap, f64::to_bits(goal), |current: Vec<Point>| {
        fuzzy_step(&data, &current).map(|(moved, by)| (moved, by.to_bits()))
    });
    assert_eq!(result, Ok((expect, steps)));
}

#[test]
fn fitting_never_runs_more_than_the_cap() {
    let mut data = cloud(30);
    normalize(&mut data);
    for cap in 0..6usize {
        let (_, count) = fit(ring(4), cap, 0.0f64.to_bits(), |current: Vec<Point>| {
            fuzzy_step(&data, &current).map(|(moved, by)| (moved, by.to_bits()))
        })
        .unwrap();
        assert_eq!(count, cap);
    }
}

#[test]
fn fitting_hands_a_failing_step_on() {
    let centroids = ring(2);
    let data = vec![centroids[0]];
    let result = fit(centroids, 10, 0.0f64.to_bits(), |current: Vec<Point>| {
        fuzzy_step(&data, &current).map(|(moved, by)| (moved, by.to_bits()))
    });
    assert_eq!(result, Err(ClusterError::ZeroWeight));
}
