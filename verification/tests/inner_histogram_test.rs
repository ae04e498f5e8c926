use exponential_histogram::InnerHistogram;

fn nonzero_positions(hist: &InnerHistogram) -> Vec<(usize, usize)> {
    let mut out = Vec::new();
    for p in 0..hist.len() {
        let c = hist.load(p);
        if c > 0 {
            out.push((p, c));
        }
    }
    out
}

#[test]
fn test_bucket_array_indexing() {
    let mut array = InnerHistogram::new();

    // Test forward indexing
    array.increment(5);
    array.increment(10);
    array.increment(7);

    assert_eq!(array.offset(), 5);
    assert_eq!(array.min_boundary(), 5);
    assert_eq!(array.max_boundary(), 10);

    // Test backward indexing (shift)
    array.increment(2);
    assert_eq!(array.offset(), 2);
    assert_eq!(array.min_boundary(), 2);
    assert_eq!(array.max_boundary(), 10);
}

#[test]
fn fresh_array_is_empty_with_initial_capacity() {
    let hist = InnerHistogram::new();
    assert!(hist.is_empty());
    assert_eq!(hist.len(), 256);
    assert_eq!(hist.capacity(), 256);
    assert_eq!(hist.total_count(), 0);
    assert_eq!(hist.min_index(), None);
    assert!(hist.to_vec_deque().is_empty());
    assert!(hist.nonzero_buckets().is_empty());
    assert!(hist.as_vec_deque().iter().all(|&c| c == 0));
    let d = InnerHistogram::default();
    assert_eq!(d.len(), 256);
    assert!(d.is_empty());
}

#[test]
fn first_value_sets_offset_and_lands_in_bucket_zero() {
    let mut hist = InnerHistogram::new();
    hist.increment(-17);
    assert!(!hist.is_empty());
    assert_eq!(hist.offset(), -17);
    assert_eq!(hist.min_index(), Some(-17));
    assert_eq!(hist.load(0), 1);
    assert_eq!(hist.total_count(), 1);
    assert_eq!(hist.to_vec_deque(), vec![1usize]);
}

#[test]
fn index_inside_the_array_bumps_its_bucket() {
    let mut hist = InnerHistogram::new();
    hist.increment(-17);
    hist.increment(16);
    hist.increment(16);
    assert_eq!(hist.load(33), 2);
    assert_eq!(hist.total_count(), 3);
    let window = hist.to_vec_deque();
    assert_eq!(window.len(), 34);
    assert_eq!(window[0], 1);
    assert_eq!(window[33], 2);
    assert_eq!(hist.nonzero_buckets(), vec![(-17, 1), (16, 2)]);
}

#[test]
fn lower_index_within_capacity_moves_data_up() {
    // ten values at index -1, then one at -213 (0.0001 at scale 4)
    let mut hist = InnerHistogram::new();
    for _ in 0..10 {
        hist.increment(-1);
    }
    hist.increment(-213);
    assert_eq!(hist.offset(), -213);
    assert_eq!(hist.capacity(), 256);
    assert_eq!(hist.total_count(), 11);
    assert_eq!(nonzero_positions(&hist), vec![(0, 1), (212, 10)]);
    assert_eq!(hist.nonzero_buckets(), vec![(-213, 1), (-1, 10)]);
}

#[test]
fn wide_span_grows_the_array() {
    // OTel indices at scale 4 of 0.001, 0.01, ..., 10000
    let indices = [-160, -107, -54, -1, 53, 106, 159, 212];
    let mut hist = InnerHistogram::new();
    for &i in &indices {
        hist.increment(i);
    }
    assert_eq!(hist.capacity(), 512);
    assert_eq!(hist.len(), 512);
    assert_eq!(hist.offset(), -160);
    assert_eq!(hist.max_boundary(), 212);
    assert_eq!(hist.total_count(), 8);
    let window = hist.to_vec_deque();
    assert_eq!(window.len(), 373);
    assert_eq!(window[0], 1);
    assert_eq!(window[372], 1);
    let expected: Vec<(i32, u64)> = indices.iter().map(|&i| (i, 1u64)).collect();
    assert_eq!(hist.nonzero_buckets(), expected);
}

#[test]
fn lower_index_beyond_capacity_grows_and_shifts() {
    // 1000.0 then 0.001 at scale 4
    let mut hist = InnerHistogram::new();
    hist.increment(159);
    hist.increment(-160);
    assert_eq!(hist.offset(), -160);
    assert_eq!(hist.min_boundary(), -160);
    assert_eq!(hist.max_boundary(), 159);
    assert_eq!(hist.capacity(), 512);
    assert_eq!(nonzero_positions(&hist), vec![(0, 1), (319, 1)]);
    assert_eq!(hist.total_count(), 2);
}

#[test]
fn index_past_max_capacity_is_capped_at_last_bucket() {
    let mut hist = InnerHistogram::new();
    hist.increment(0);
    hist.increment(20000);
    assert_eq!(hist.capacity(), 16384);
    assert_eq!(hist.max_boundary(), 20000);
    assert_eq!(hist.load(16383), 1);
    assert_eq!(hist.total_count(), 2);
    assert_eq!(hist.to_vec_deque().len(), 16384);
    assert_eq!(hist.nonzero_buckets(), vec![(0, 1), (16383, 1)]);
}

#[test]
fn lower_index_at_max_capacity_is_capped_at_bucket_zero() {
    let mut hist = InnerHistogram::new();
    hist.increment(0);
    hist.increment(20000);
    hist.increment(-5);
    assert_eq!(hist.offset(), 0);
    assert_eq!(hist.min_boundary(), -5);
    assert_eq!(hist.load(0), 2);
    assert_eq!(hist.total_count(), 3);
}

#[test]
fn growth_to_max_capacity_caps_what_no_longer_fits_into_the_last_bucket() {
    let mut hist = InnerHistogram::new();
    hist.increment(0);
    hist.increment(-20000);
    assert_eq!(hist.offset(), -20000);
    assert_eq!(hist.capacity(), 16384);
    assert_eq!(hist.len(), 16384);
    assert_eq!(hist.load(0), 1);
    assert_eq!(hist.load(16383), 1);
    assert_eq!(hist.total_count(), 2);
}

#[test]
fn growth_to_max_capacity_keeps_what_fits_and_folds_the_rest() {
    // a span of 20001 indices; the data above the new capacity folds into the last bucket
    let mut hist = InnerHistogram::new();
    hist.increment(0);
    hist.increment(100);
    hist.increment(200);
    hist.increment(-16300);
    assert_eq!(hist.capacity(), 16384);
    assert_eq!(hist.len(), 16384);
    assert_eq!(hist.load(0), 1);
    assert_eq!(hist.load(16300), 1);
    assert_eq!(hist.load(16383), 2);
    assert_eq!(hist.total_count(), 4);
    assert_eq!(hist.max_boundary(), 200);
}

#[test]
fn close_values_at_the_finest_scale_are_both_counted() {
    // 1.02 and 1.0 at scale 20
    let mut hist = InnerHistogram::new();
    hist.increment(29957);
    hist.increment(-1);
    assert_eq!(hist.total_count(), 2);
    assert_eq!(hist.offset(), -1);
    assert_eq!(hist.capacity(), 16384);
}

#[test]
fn capacity_doubles_only_as_far_as_needed() {
    let mut hist = InnerHistogram::new();
    hist.increment(0);
    hist.increment(600);
    assert_eq!(hist.capacity(), 1024);
    hist.increment(1500);
    assert_eq!(hist.capacity(), 2048);
}

#[test]
fn clone_keeps_every_counter() {
    let mut hist = InnerHistogram::new();
    hist.increment(0);
    hist.increment(-20000);
    let copy = hist.clone();
    assert_eq!(copy.len(), hist.len());
    assert_eq!(copy.as_vec_deque(), hist.as_vec_deque());
    assert_eq!(copy.offset(), hist.offset());
    assert_eq!(copy.total_count(), hist.total_count());
    assert_eq!(copy.nonzero_buckets(), hist.nonzero_buckets());

    let mut other = InnerHistogram::new();
    other.increment(3);
    other.increment(9);
    let c = other.clone();
    assert_eq!(c.as_vec_deque(), other.as_vec_deque());
    assert_eq!(c.max_boundary(), 9);
}
