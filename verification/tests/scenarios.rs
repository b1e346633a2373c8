//! End-to-end scenarios over IEEE 754 single-precision payloads: metric
//! values are computed here the way a caller would, mapped to total-order
//! score keys, and fed to the verified selection core.
use latus::error::Error;
use latus::metric::{validate_half_plane, MetricKind};
use latus::table::VectorTable;

/// Total-order score key of a metric value: key order agrees with the
/// adapter order (NaN above everything).
fn key_of(x: f32) -> u32 {
    if x.is_nan() {
        u32::MAX
    } else {
        let b = x.to_bits();
        if b & 0x8000_0000 != 0 {
            !b
        } else {
            b | 0x8000_0000
        }
    }
}

fn bits_vec(xs: &[f32]) -> Vec<u32> {
    xs.iter().map(|x| x.to_bits()).collect()
}

fn floats_of(v: &[u32]) -> Vec<f32> {
    v.iter().map(|b| f32::from_bits(*b)).collect()
}

fn l2_distance(a: &[f32], b: &[f32]) -> f32 {
    let mut sum = 0.0f32;
    for i in 0..a.len() {
        let d = b[i] - a[i];
        sum += d * d;
    }
    sum.sqrt()
}

fn score_all(table: &VectorTable, query: &[f32]) -> Vec<u32> {
    let mut scores = Vec::new();
    for i in 0..table.len() {
        let row = floats_of(&table.get(i));
        scores.push(key_of(l2_distance(query, &row)));
    }
    scores
}

#[test]
fn euclidean_tie_break_scenario() {
    // dim 3, Euclidean, unchunked: three unit vectors, all at distance 1
    // from the origin; k = 2 must return exactly two of them, by the
    // documented tie-break (ascending id on equal scores).
    let mut table = VectorTable::new(3, false);
    table.insert(&bits_vec(&[1.0, 0.0, 0.0])).unwrap();
    table.insert(&bits_vec(&[0.0, 1.0, 0.0])).unwrap();
    table.insert(&bits_vec(&[0.0, 0.0, 1.0])).unwrap();

    let query = [0.0f32, 0.0, 0.0];
    let scores = score_all(&table, &query);
    let result = table.bottom_k(&scores, 2);

    assert_eq!(result.len(), 2);
    let one = key_of(1.0);
    assert_eq!(result[0], (one, 0));
    assert_eq!(result[1], (one, 1));
}

#[test]
fn euclidean_nearest_neighbours() {
    let mut table = VectorTable::new(2, false);
    table.insert(&bits_vec(&[0.0, 0.0])).unwrap();
    table.insert(&bits_vec(&[3.0, 4.0])).unwrap();
    table.insert(&bits_vec(&[1.0, 0.0])).unwrap();
    table.insert(&bits_vec(&[6.0, 8.0])).unwrap();

    let scores = score_all(&table, &[0.0, 0.0]);
    let result = table.bottom_k(&scores, 3);
    // distances: 0, 5, 1, 10 -> nearest are ids 0, 2, 1
    assert_eq!(result[0], (key_of(0.0), 0));
    assert_eq!(result[1], (key_of(1.0), 2));
    assert_eq!(result[2], (key_of(5.0), 1));
}

#[test]
fn inner_product_top_k_scenario() {
    let mut table = VectorTable::new(2, false);
    table.insert(&bits_vec(&[1.0, 0.0])).unwrap();
    table.insert(&bits_vec(&[2.0, 2.0])).unwrap();
    table.insert(&bits_vec(&[-1.0, 3.0])).unwrap();

    let query = [1.0f32, 1.0];
    let mut scores = Vec::new();
    for i in 0..table.len() {
        let row = floats_of(&table.get(i));
        let mut dot = 0.0f32;
        for d in 0..row.len() {
            dot += row[d] * query[d];
        }
        scores.push(key_of(dot));
    }
    // inner products: 1, 4, 2 -> top-2 are ids 1 then 2
    assert!(MetricKind::InnerProduct.is_distance() == false);
    let result = table.top_k(&scores, 2);
    assert_eq!(result, vec![(key_of(4.0), 1), (key_of(2.0), 2)]);
}

#[test]
fn score_keys_respect_float_order() {
    let mut values = [2.0f32, -1.5, 0.0, f32::NAN, 7.25, f32::INFINITY, f32::NEG_INFINITY];
    values.sort_by(|a, b| ordered_float::OrderedFloat(*a).cmp(&ordered_float::OrderedFloat(*b)));
    for w in values.windows(2) {
        assert!(key_of(w[0]) <= key_of(w[1]));
    }
    assert_eq!(key_of(f32::NAN), u32::MAX);
}

#[test]
fn half_plane_precondition_failure() {
    // a stored vector whose height (last coordinate) is zero must make the
    // query fail fast, not produce a result
    let mut table = VectorTable::new(3, false);
    table.insert(&bits_vec(&[1.0, 2.0, 1.0])).unwrap();
    table.insert(&bits_vec(&[1.0, 2.0, 0.0])).unwrap();

    let query = bits_vec(&[0.0, 0.0, 1.0]);
    assert!(MetricKind::HalfPlane.needs_positive_height());
    assert_eq!(validate_half_plane(&table, &query), Err(Error::InvalidMetricPrecondition));
}

#[test]
fn half_plane_negative_height_rejected() {
    let mut table = VectorTable::new(2, false);
    table.insert(&bits_vec(&[1.0, 1.0])).unwrap();

    let bad_query = bits_vec(&[0.0, -0.5]);
    assert_eq!(validate_half_plane(&table, &bad_query), Err(Error::InvalidMetricPrecondition));

    let zero_query = bits_vec(&[0.0, -0.0]);
    assert_eq!(validate_half_plane(&table, &zero_query), Err(Error::InvalidMetricPrecondition));

    let nan_query = bits_vec(&[0.0, f32::NAN]);
    assert_eq!(validate_half_plane(&table, &nan_query), Err(Error::InvalidMetricPrecondition));
}

#[test]
fn half_plane_valid_operands_accepted() {
    let mut table = VectorTable::new(2, false);
    table.insert(&bits_vec(&[1.0, 1.0])).unwrap();
    table.insert(&bits_vec(&[-2.0, 0.25])).unwrap();

    let query = bits_vec(&[0.5, 2.0]);
    assert_eq!(validate_half_plane(&table, &query), Ok(()));
}

#[test]
fn metric_kind_orientation() {
    assert!(MetricKind::Euclidean.is_distance());
    assert!(MetricKind::HalfPlane.is_distance());
    assert!(!MetricKind::InnerProduct.is_distance());
    assert!(!MetricKind::Euclidean.needs_positive_height());
    assert!(!MetricKind::InnerProduct.needs_positive_height());
}
