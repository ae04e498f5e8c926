//! Scenarios on values: each value is turned into what the counts record (a zero, or the
//! OTel index of its magnitude on the side of its sign) and recorded.
use exponential_histogram::{otel_index_from_bits, ExponentialHistogram};

/// Helper function to calculate the expected OTel bucket index
fn calculate_otel_index(value: f64, scale: i32) -> i32 {
    let base = 2.0_f64.powf(2.0_f64.powi(-scale));
    ((value.ln() / base.ln()).ceil() as i32) - 1
}

/// The OTel index of a positive finite value.
fn index_for(value: f64, scale: i32) -> i32 {
    if scale <= 0 {
        otel_index_from_bits(value.to_bits(), scale)
    } else {
        calculate_otel_index(value, scale)
    }
}

/// Records a finite value with a zero threshold of 0.
fn observe(hist: &mut ExponentialHistogram, value: f64) {
    if value == 0.0 {
        hist.record_zero();
    } else {
        let scale = hist.scale();
        hist.record_index(value < 0.0, index_for(value.abs(), scale));
    }
}

#[test]
fn exponential_histogram_test_exponential_histogram_with_max_buckets() {
    let mut hist = ExponentialHistogram::new_with_max_buckets(2, 100);
    observe(&mut hist, 10.0);
    assert_eq!(hist.count(), 1);
    assert_eq!(hist.scale(), 2);
}

#[test]
fn lib_test_exponential_histogram_with_max_buckets() {
    let mut hist = ExponentialHistogram::new_with_max_buckets(2, 100);
    observe(&mut hist, 10.0);
    assert_eq!(hist.count(), 1);
    assert_eq!(hist.scale(), 2);
}

#[test]
fn exponential_histogram_test_exponential_histogram_reset() {
    let mut hist = ExponentialHistogram::new(0);
    observe(&mut hist, 5.0);
    observe(&mut hist, 10.0);

    assert_eq!(hist.count(), 2);

    hist.reset();

    assert!(hist.is_empty());
    assert_eq!(hist.count(), 0);
}

#[test]
fn lib_test_exponential_histogram_reset() {
    let mut hist = ExponentialHistogram::new(0);
    observe(&mut hist, 5.0);
    observe(&mut hist, 10.0);

    assert_eq!(hist.count(), 2);

    hist.reset();

    assert!(hist.is_empty());
    assert_eq!(hist.count(), 0);
}

#[test]
fn test_take_counts() {
    let mut hist = ExponentialHistogram::new(0);
    observe(&mut hist, 1.0);
    observe(&mut hist, 5.0);
    observe(&mut hist, 10.0);

    let (positive, _negative) = hist.take_counts();
    assert!(!positive.is_empty());
}

#[test]
fn test_otel_index_conversion() {
    let scale = 7;
    let mut hist = ExponentialHistogram::new(scale);

    let test_values: Vec<u64> = vec![
        1_000, 5_000, 10_000, 50_000, 100_000, 500_000, 1_000_000, 5_000_000, 10_000_000,
    ];

    for &v in &test_values {
        observe(&mut hist, v as f64);
    }

    let (positive_counts, negative_counts) = hist.take_counts();

    let total_count: usize = positive_counts.iter().sum();
    assert_eq!(total_count, test_values.len());
    assert!(negative_counts.is_empty());
}

#[test]
fn test_span_exactly_256_buckets() {
    let scale = 4;
    let mut hist = ExponentialHistogram::new(scale);

    let min_value = 0.1;
    observe(&mut hist, min_value);

    let offset = hist.bucket_start_offset();

    // The maximum index we can store is offset + 255
    let max_storable_index = offset + 255;

    let base = 2.0_f64.powf(2.0_f64.powi(-scale));
    let max_value = base.powf((max_storable_index + 1) as f64);

    observe(&mut hist, max_value * 0.9);

    let actual_index = calculate_otel_index(max_value * 0.9, scale);

    assert!(actual_index - offset < 256, "Should fit within 256 buckets");
    assert_eq!(hist.count(), 2, "Both values should be stored");
}

#[test]
fn test_offset_shift_behavior() {
    let scale = 4;
    let mut hist = ExponentialHistogram::new(scale);

    observe(&mut hist, 1.0);
    let offset1 = hist.bucket_start_offset();
    observe(&mut hist, 0.1);
    let offset2 = hist.bucket_start_offset();
    observe(&mut hist, 100.0);
    let offset3 = hist.bucket_start_offset();
    observe(&mut hist, 0.0001);
    let offset4 = hist.bucket_start_offset();

    assert_eq!(offset1, calculate_otel_index(1.0, scale));
    assert_eq!(offset2, calculate_otel_index(0.1, scale));
    assert_eq!(offset3, offset2);
    assert_eq!(offset4, calculate_otel_index(0.0001, scale));
    assert_eq!(hist.count(), 4);
}

#[test]
fn test_bucket_counts_with_overflow() {
    let scale = 4;
    let mut hist = ExponentialHistogram::new(scale);

    observe(&mut hist, 0.01);
    observe(&mut hist, 1000.0);

    let idx_small = calculate_otel_index(0.01, scale);
    let idx_large = calculate_otel_index(1000.0, scale);
    let span = idx_large - idx_small + 1;

    let offset = hist.bucket_start_offset();
    let (counts, _) = hist.clone().take_counts();

    if span > 256 && counts[0] > 0 {
        let expected_pos = idx_small - offset;
        assert_eq!(expected_pos, 0);
    }

    assert_eq!(hist.count(), 2, "Both values should be counted");
}

#[test]
fn test_no_capping_at_boundaries() {
    let scale = 4;
    let mut hist = ExponentialHistogram::new(scale);

    observe(&mut hist, 0.1);
    let offset1 = hist.bucket_start_offset();

    observe(&mut hist, 10000.0);

    let small_index = calculate_otel_index(0.1, scale);
    let large_index = calculate_otel_index(10000.0, scale);
    let span = large_index - small_index + 1;

    let (counts, _) = hist.clone().take_counts();

    assert!(counts.len() >= span as usize, "Array should grow to fit span");

    let non_zero: Vec<_> = counts.iter().enumerate().filter(|&(_, &c)| c > 0).collect();

    assert_eq!(non_zero.len(), 2, "Should have exactly 2 non-zero buckets");
    assert_eq!(counts[0], 1, "Bucket[0] should have small value");

    let expected_large_pos = (large_index - offset1) as usize;
    if expected_large_pos < counts.len() {
        assert_eq!(counts[expected_large_pos], 1, "Large value should be at correct position, not capped");
    }
}

#[test]
fn test_growth_increments() {
    let scale = 4;
    let mut hist = ExponentialHistogram::new(scale);

    observe(&mut hist, 1.0);
    let (counts1, _) = hist.clone().take_counts();
    observe(&mut hist, 0.001);
    let (counts2, _) = hist.clone().take_counts();
    assert!(counts2.len() >= counts1.len());

    assert_eq!(hist.count(), 2);
}

#[test]
fn test_memory_efficiency() {
    let scale = 4;
    let mut hist = ExponentialHistogram::new(scale);

    let values = vec![1.0, 2.0, 4.0, 8.0, 16.0];
    for &v in &values {
        observe(&mut hist, v);
    }

    let (counts, _) = hist.take_counts();

    let min_idx = calculate_otel_index(1.0, scale);
    let max_idx = calculate_otel_index(16.0, scale);
    let required_span = max_idx - min_idx + 1;

    let overhead = counts.len() as f64 / required_span as f64;
    assert!(overhead < 10.0, "Array should not be more than 10x the required span");
}

#[test]
fn test_offset_is_i32_not_usize() {
    let scale = 4;
    let mut hist = ExponentialHistogram::new(scale);

    observe(&mut hist, 0.5);

    let offset = hist.bucket_start_offset();
    let expected_index = calculate_otel_index(0.5, scale);

    assert_eq!(offset, expected_index, "Offset should match the expected negative OTel index");
    assert!(expected_index < 0, "Index for 0.5 should be negative");
    assert!(offset < 0, "Offset should be negative (proves i32 return type works)");
}

#[test]
fn test_offset_mapping_arithmetic() {
    let scale = 4;
    let mut hist = ExponentialHistogram::new(scale);

    let value = 0.5;
    observe(&mut hist, value);

    let offset = hist.bucket_start_offset();
    let otel_index = calculate_otel_index(value, scale);
    let array_position = otel_index - offset;
    assert_eq!(array_position, 0, "First value should be at array position 0");

    let value2 = 2.0;
    observe(&mut hist, value2);

    let otel_index2 = calculate_otel_index(value2, scale);
    let array_position2 = otel_index2 - offset;

    assert!(array_position2 > 0, "Second value (2.0) should be at higher array position");
    assert!(array_position2 < 256, "Array position should fit in the 256-bucket array");

    let (counts, _) = hist.take_counts();

    assert_eq!(counts[0], 1, "First bucket should have count 1");
    assert_eq!(counts[array_position2 as usize], 1, "Second bucket should have count 1");
}

#[test]
fn test_zero_threshold_with_negative_indices() {
    let scale = 4;
    let mut hist = ExponentialHistogram::new(scale);

    observe(&mut hist, 0.1);
    observe(&mut hist, 0.0);
    observe(&mut hist, 1e-100);
    observe(&mut hist, 1.0);

    assert!(hist.zero_count() >= 1, "Should count exact zero");
    let total = hist.count();
    assert_eq!(total, 4, "Total count should include all values");
    let offset = hist.bucket_start_offset();
    assert!(offset < 0, "Offset should be negative from value 0.1");
}

#[test]
fn test_values_less_than_one_produce_negative_indices() {
    let scale = 4_i32;
    let test_values = vec![0.1_f64, 0.25_f64, 0.5_f64, 0.75_f64, 1.0_f64, 2.0_f64, 4.0_f64];

    let mut hist = ExponentialHistogram::new(scale);
    for &v in &test_values {
        observe(&mut hist, v);
    }

    assert_eq!(hist.count(), test_values.len());
}

#[test]
fn test_negative_index_storage_with_inner_histogram() {
    let scale = 8_i32;
    let small_values = vec![0.001_f64, 0.01_f64, 0.1_f64, 0.5_f64];

    let mut hist = ExponentialHistogram::new(scale);
    for &v in &small_values {
        observe(&mut hist, v);
    }
    observe(&mut hist, 1.0);
    observe(&mut hist, 10.0);

    assert_eq!(hist.count(), small_values.len() + 2);
}

#[test]
fn test_bucket_start_offset_type_issue() {
    let scale = 10_i32;
    let mut hist = ExponentialHistogram::new(scale);

    observe(&mut hist, 0.0001);

    let (positive_counts, _) = hist.take_counts();
    if !positive_counts.is_empty() {
        assert_eq!(positive_counts.iter().sum::<usize>(), 1, "Should have exactly 1 value");
    }
}

#[test]
fn test_negative_index_with_offset_mapping() {
    let scale = 4_i32;
    let mut hist = ExponentialHistogram::new(scale);

    let values = vec![0.5_f64, 1.0_f64, 2.0_f64, 4.0_f64];
    for &v in &values {
        observe(&mut hist, v);
    }

    let offset = hist.bucket_start_offset();
    let base = 2.0_f64.powf(2.0_f64.powi(-scale));
    let min_expected_index = ((0.5_f64.ln() / base.ln()).ceil() as i32) - 1;

    if min_expected_index < 0 && offset > 1_000_000 {
        assert!(false, "Negative i32 wrapped to huge usize - type mismatch bug!");
    }
}

#[test]
fn test_negative_bucket_start_offset_method() {
    let scale = 4_i32;
    let mut hist = ExponentialHistogram::new(scale);

    observe(&mut hist, -0.5);
    observe(&mut hist, -2.0);

    let neg_offset = hist.negative_bucket_start_offset();
    let base = 2.0_f64.powf(2.0_f64.powi(-scale));
    let index_for_0_5 = ((0.5_f64.ln() / base.ln()).ceil() as i32) - 1;
    assert_eq!(neg_offset, index_for_0_5);
}
