use exponential_histogram::ExponentialHistogram;

#[test]
fn new_clamps_scale_to_twenty() {
    assert_eq!(ExponentialHistogram::new(25).scale(), 20);
    assert_eq!(ExponentialHistogram::new(20).scale(), 20);
    assert_eq!(ExponentialHistogram::new(-3).scale(), -3);
    assert_eq!(ExponentialHistogram::new_with_max_buckets(2, 100).scale(), 2);
}

#[test]
fn default_histogram_is_empty_at_scale_zero() {
    let hist = ExponentialHistogram::default();
    assert_eq!(hist.scale(), 0);
    assert_eq!(hist.count(), 0);
    assert!(hist.is_empty());
    assert!(!hist.has_negatives());
    assert_eq!(hist.bucket_start_offset(), 0);
    let (pos, neg) = hist.take_counts();
    assert!(pos.is_empty());
    assert!(neg.is_empty());
}

#[test]
fn zeros_and_buckets_add_up_to_the_count() {
    let mut hist = ExponentialHistogram::new(0);
    hist.record_zero();
    hist.record_zero();
    hist.record_index(false, 0);
    assert_eq!(hist.count(), 3);
    assert_eq!(hist.zero_count(), 2);
    assert!(!hist.is_empty());
    assert!(!hist.has_negatives());
}

#[test]
fn negative_side_is_separate() {
    let mut hist = ExponentialHistogram::new(4);
    hist.record_index(true, -17);
    hist.record_index(true, 16);
    hist.record_index(false, 32);
    assert!(hist.has_negatives());
    assert_eq!(hist.negative_bucket_start_offset(), -17);
    assert_eq!(hist.bucket_start_offset(), 32);
    assert_eq!(hist.count(), 3);
    assert_eq!(hist.negative_buckets().nonzero_buckets(), vec![(-17, 1), (16, 1)]);
    assert_eq!(hist.positive_buckets().nonzero_buckets(), vec![(32, 1)]);
    let (pos, neg) = hist.take_counts();
    assert_eq!(pos, vec![1usize]);
    assert_eq!(neg.len(), 34);
    assert_eq!(neg[0], 1);
    assert_eq!(neg[33], 1);
}

#[test]
fn offset_is_the_lowest_index_recorded() {
    let mut hist = ExponentialHistogram::new(4);
    for &i in &[-33, -17, -1, 16, 32, -54] {
        hist.record_index(false, i);
    }
    assert_eq!(hist.bucket_start_offset(), -54);
    let (pos, _) = hist.take_counts();
    assert_eq!(pos.len(), 87);
    assert_eq!(pos.iter().sum::<usize>(), 6);
    assert_eq!(pos[(16 - (-54)) as usize], 1);
}

#[test]
fn reset_empties_and_keeps_scale() {
    let mut hist = ExponentialHistogram::new(3);
    hist.record_index(false, 5);
    hist.record_index(true, 5);
    hist.record_zero();
    hist.reset();
    assert_eq!(hist.count(), 0);
    assert!(hist.is_empty());
    assert_eq!(hist.zero_count(), 0);
    assert!(!hist.has_negatives());
    assert_eq!(hist.scale(), 3);
}

#[test]
fn clone_matches_its_source() {
    let mut hist = ExponentialHistogram::new(2);
    hist.record_index(false, 9);
    hist.record_index(true, 6);
    hist.record_zero();
    let copy = hist.clone();
    assert_eq!(copy.count(), hist.count());
    assert_eq!(copy.scale(), hist.scale());
    assert_eq!(copy.zero_count(), 1);
    assert_eq!(copy.has_negatives(), hist.has_negatives());
    assert_eq!(copy.take_counts(), hist.take_counts());
}
