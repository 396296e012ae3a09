use fuzzy_cluster::error::ClusterError;
use fuzzy_cluster::select::above_pivot;

fn bits(values: &[f64]) -> Vec<u64> {
    values.iter().map(|v| v.to_bits()).collect()
}

fn plain_above_pivot(weights: &[f64], pivot_index: usize) -> Vec<bool> {
    let mut sorted = weights.to_vec();
    sorted.sort_by(|a, b| a.partial_cmp(b).unwrap());
    let pivot = sorted[pivot_index];
    weights.iter().map(|w| *w > pivot).collect()
}

#[test]
fn marks_the_weights_above_the_pivot() {
    let weights = [0.1, 0.4, 0.2, 0.3];
    assert_eq!(above_pivot(&bits(&weights), 2), Ok(vec![false, true, false, false]));
    assert_eq!(above_pivot(&bits(&weights), 0), Ok(vec![false, true, true, true]));
    assert_eq!(above_pivot(&bits(&weights), 3), Ok(vec![false, false, false, false]));
}

#[test]
fn weights_equal_to_the_pivot_are_not_marked() {
    let weights = [0.25, 0.25, 0.5, 0.25, 0.5];
    assert_eq!(above_pivot(&bits(&weights), 1), Ok(vec![false, false, true, false, true]));
    assert_eq!(above_pivot(&bits(&weights), 3), Ok(vec![false, false, false, false, false]));
}

#[test]
fn the_two_zeros_count_as_equal() {
    let weights = [-0.0, 0.0, 1.0];
    assert_eq!(above_pivot(&bits(&weights), 0), Ok(vec![false, false, true]));
    assert_eq!(above_pivot(&bits(&weights), 1), Ok(vec![false, false, true]));
}

#[test]
fn a_single_weight_is_its_own_pivot() {
    assert_eq!(above_pivot(&bits(&[0.7]), 0), Ok(vec![false]));
}

#[test]
fn a_nan_weight_is_refused() {
    assert_eq!(above_pivot(&bits(&[0.1, f64::NAN, 0.3]), 1), Err(ClusterError::NotANumber));
    assert_eq!(above_pivot(&bits(&[f64::NAN]), 5), Err(ClusterError::NotANumber));
}

#[test]
fn a_pivot_beyond_the_row_is_refused() {
    assert_eq!(above_pivot(&bits(&[0.1, 0.2]), 2), Err(ClusterError::PivotOutOfRange));
    assert_eq!(above_pivot(&bits(&[]), 0), Err(ClusterError::PivotOutOfRange));
}

#[test]
fn agrees_with_sorting_the_values() {
    let weights: Vec<f64> = (0..97)
        .map(|i| {
            let t = i as f64;
            ((t * 7.3).sin() * 5.0).round() / 4.0 - 0.3 * (t * 0.11).cos()
        })
        .collect();
    for pivot_index in 0..weights.len() {
        assert_eq!(
            above_pivot(&bits(&weights), pivot_index),
            Ok(plain_above_pivot(&weights, pivot_index)),
            "pivot index {pivot_index}"
        );
    }
}

#[test]
fn agrees_with_sorting_negative_and_infinite_values() {
    let weights = [3.0, -1.5, f64::INFINITY, 0.0, -0.0, f64::NEG_INFINITY, 2.0, -1.5, 1.0e-310];
    for pivot_index in 0..weights.len() {
        assert_eq!(
            above_pivot(&bits(&weights), pivot_index),
            Ok(plain_above_pivot(&weights, pivot_index)),
            "pivot index {pivot_index}"
        );
    }
}
