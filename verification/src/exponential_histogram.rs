//! The integer part of an exponential histogram: bucket counts for positive and negative
//! values, the zero count and the scale.
use vstd::prelude::*;
use std::collections::VecDeque;
use crate::inner_histogram::InnerHistogram;
use crate::inner_state::{
    InnerState, MAX_CAPACITY, lemma_incremented_wf, lemma_increment_adds_one,
    lemma_increment_exact, lemma_empty_state, lemma_total_of_state_nonneg, recorded_all, seq_min,
    seq_max, occurrences, lemma_recorded_all_counted, lemma_recorded_all_exact, lemma_window_counts, lemma_increment_in_window,
};
use crate::bucket_sums::seq_total;
use crate::otel_index::MAX_SCALE;

verus! {

/// The abstract state of an `ExponentialHistogram`.
pub struct HistogramState {
    pub positive: InnerState,
    pub negative: InnerState,
    pub zero_count: nat,
    pub scale: int,
}

/// The scale a histogram uses when `desired_scale` is asked for: at most `MAX_SCALE`.
pub open spec fn effective_scale(desired_scale: int) -> int {
    if desired_scale < MAX_SCALE {
        desired_scale
    } else {
        MAX_SCALE as int
    }
}

impl HistogramState {
    /// A histogram at `scale` that has seen nothing.
    pub open spec fn fresh(scale: int) -> HistogramState {
        HistogramState {
            positive: InnerState::empty(),
            negative: InnerState::empty(),
            zero_count: 0,
            scale,
        }
    }

    /// The number of values counted: in the positive and negative buckets and as zeros.
    pub open spec fn count_total(self) -> int {
        self.positive.total() + self.negative.total() + self.zero_count
    }

    /// The invariant of the state.
    pub open spec fn wf(self) -> bool {
        &&& self.positive.wf()
        &&& self.negative.wf()
        &&& self.count_total() <= u64::MAX
        &&& i32::MIN <= self.scale <= i32::MAX
    }

    /// The buckets that a value of the given sign goes to.
    pub open spec fn side(self, negative: bool) -> InnerState {
        if negative {
            self.negative
        } else {
            self.positive
        }
    }

    /// The state after counting one more zero.
    pub open spec fn with_zero(self) -> HistogramState {
        HistogramState { zero_count: self.zero_count + 1, ..self }
    }

    /// The state after recording OTel index `index` on the side given by `negative`.
    pub open spec fn with_index(self, negative: bool, index: int) -> HistogramState {
        if negative {
            HistogramState { negative: self.negative.incremented(index), ..self }
        } else {
            HistogramState { positive: self.positive.incremented(index), ..self }
        }
    }
}

/// An exponential histogram's buckets: values above zero and below zero are counted by
/// OTel bucket index at the histogram's scale, on their own sides; zeros are counted apart.
pub struct ExponentialHistogram {
    positive_buckets: InnerHistogram,
    negative_buckets: InnerHistogram,
    // Count of values that are zero or within the zero threshold
    zero_count: u64,
    // Resolution of the buckets
    scale: i32,
}

impl View for ExponentialHistogram {
    type V = HistogramState;

    closed spec fn view(&self) -> HistogramState {
        HistogramState {
            positive: self.positive_buckets@,
            negative: self.negative_buckets@,
            zero_count: self.zero_count as nat,
            scale: self.scale as int,
        }
    }
}

impl ExponentialHistogram {
    /// An empty histogram at scale `desired_scale`, or `MAX_SCALE` if that is lower.
    pub fn new(desired_scale: i32) -> (hist: Self)
        ensures
            hist@ == HistogramState::fresh(effective_scale(desired_scale as int)),
            hist@.wf(),
            hist@.count_total() == 0,
            hist@.scale <= desired_scale,
            hist@.scale <= MAX_SCALE,
            desired_scale <= MAX_SCALE ==> hist@.scale == desired_scale,
    {
        Self::new_with_max_buckets(desired_scale, 160)
    }

    /// As `new`; the bucket limit is not used.
    pub fn new_with_max_buckets(desired_scale: i32, _ignored: u16) -> (hist: Self)
        ensures
            hist@ == HistogramState::fresh(effective_scale(desired_scale as int)),
            hist@.wf(),
            hist@.count_total() == 0,
            hist@.scale <= desired_scale,
            hist@.scale <= MAX_SCALE,
            desired_scale <= MAX_SCALE ==> hist@.scale == desired_scale,
    {
        proof {
            lemma_empty_state();
        }
        let scale = if desired_scale < MAX_SCALE {
            desired_scale
        } else {
            MAX_SCALE
        };
        ExponentialHistogram {
            positive_buckets: InnerHistogram::new(),
            negative_buckets: InnerHistogram::new(),
            zero_count: 0,
            scale,
        }
    }

    /// Empties the histogram; the scale stays.
    pub fn reset(&mut self)
        ensures
            final(self)@ == HistogramState::fresh(old(self)@.scale),
            final(self)@.wf(),
            final(self)@.count_total() == 0,
    {
        proof {
            lemma_empty_state();
        }
        self.positive_buckets = InnerHistogram::new();
        self.negative_buckets = InnerHistogram::new();
        self.zero_count = 0;
    }

    /// Counts one value as zero.
    pub fn record_zero(&mut self)
        requires
            old(self)@.wf(),
            old(self)@.count_total() < u64::MAX,
        ensures
            final(self)@ == old(self)@.with_zero(),
            final(self)@.wf(),
            final(self)@.count_total() == old(self)@.count_total() + 1,
    {
        proof {
            lemma_total_of_state_nonneg(self@.positive);
            lemma_total_of_state_nonneg(self@.negative);
        }
        self.zero_count = self.zero_count + 1;
    }

    /// Records a value with OTel index `otel_index` on the negative side when `negative`,
    /// else on the positive side.
    pub fn record_index(&mut self, negative: bool, otel_index: i32)
        requires
            old(self)@.wf(),
            old(self)@.count_total() < u64::MAX,
            old(self)@.side(negative).accepts(otel_index as int),
        ensures
            final(self)@ == old(self)@.with_index(negative, otel_index as int),
            final(self)@.wf(),
            final(self)@.count_total() == old(self)@.count_total() + 1,
    {
        proof {
            lemma_with_index_wf(self@, negative, otel_index as int);
            lemma_increment_adds_one(self@.side(negative), otel_index as int);
        }
        if negative {
            self.negative_buckets.increment(otel_index);
        } else {
            self.positive_buckets.increment(otel_index);
        }
    }

    /// Whether the histogram counts no value.
    pub fn is_empty(&self) -> (empty: bool)
        requires
            self@.wf(),
        ensures
            empty == (self@.count_total() as usize == 0),
    {
        self.count() == 0
    }

    /// The number of values counted, in the buckets and as zeros.
    pub fn count(&self) -> (count: usize)
        requires
            self@.wf(),
        ensures
            count == self@.count_total() as usize,
    {
        let positive = self.positive_buckets.total_count();
        let negative = self.negative_buckets.total_count();
        (positive + negative + self.zero_count) as usize
    }

    /// The scale of the buckets.
    pub fn scale(&self) -> (scale: i32)
        ensures
            scale == self@.scale,
    {
        self.scale
    }

    /// The number of values counted as zero.
    pub fn zero_count(&self) -> (zero_count: u64)
        ensures
            zero_count == self@.zero_count,
    {
        self.zero_count
    }

    /// The OTel index of the first positive bucket.
    pub fn bucket_start_offset(&self) -> (offset: i32)
        ensures
            offset == self@.positive.offset,
    {
        self.positive_buckets.offset()
    }

    /// The OTel index of the first negative bucket.
    pub fn negative_bucket_start_offset(&self) -> (offset: i32)
        ensures
            offset == self@.negative.offset,
    {
        self.negative_buckets.offset()
    }

    /// Whether any value below zero has been bucketed.
    pub fn has_negatives(&self) -> (has: bool)
        ensures
            has == self@.negative.initialized,
    {
        !self.negative_buckets.is_empty()
    }

    /// The bucket counts of both sides, positive first, each from its first bucket up to the
    /// bucket of its highest index; a side that has seen nothing gives no counts.
    pub fn take_counts(self) -> (counts: (VecDeque<usize>, VecDeque<usize>))
        requires
            self@.wf(),
        ensures
            counts.0@ == self@.positive.window().map_values(|c: u64| c as usize),
            counts.1@ == self@.negative.window().map_values(|c: u64| c as usize),
    {
        let positive_counts = self.positive_buckets.to_vec_deque();
        let negative_counts = self.negative_buckets.to_vec_deque();
        (positive_counts, negative_counts)
    }

    /// The buckets of values above zero.
    pub fn positive_buckets(&self) -> (buckets: &InnerHistogram)
        ensures
            buckets@ == self@.positive,
    {
        &self.positive_buckets
    }

    /// The buckets of values below zero.
    pub fn negative_buckets(&self) -> (buckets: &InnerHistogram)
        ensures
            buckets@ == self@.negative,
    {
        &self.negative_buckets
    }
}

impl Clone for ExponentialHistogram {
    /// A copy with the same scale, zero count and bucket counts.
    fn clone(&self) -> (copy: Self)
        ensures
            copy@ == self@,
    {
        ExponentialHistogram {
            positive_buckets: self.positive_buckets.clone(),
            negative_buckets: self.negative_buckets.clone(),
            zero_count: self.zero_count,
            scale: self.scale,
        }
    }
}

impl Default for ExponentialHistogram {
    fn default() -> (hist: Self)
        ensures
            hist@ == HistogramState::fresh(0),
            hist@.wf(),
            hist@.count_total() == 0,
    {
        ExponentialHistogram::new(0)
    }
}

/// Recording an index keeps the invariant, and the count grows by at most one.
proof fn lemma_with_index_wf(h: HistogramState, negative: bool, index: int)
    requires
        h.wf(),
        h.count_total() < u64::MAX,
        h.side(negative).accepts(index),
        i32::MIN <= index <= i32::MAX,
    ensures
        h.with_index(negative, index).wf(),
        h.with_index(negative, index).count_total() <= h.count_total() + 1,
        h.side(negative).total() < u64::MAX,
        0 <= h.positive.total(),
        0 <= h.negative.total(),
{
    lemma_total_of_state_nonneg(h.positive);
    lemma_total_of_state_nonneg(h.negative);
    lemma_incremented_wf(h.side(negative), index);
}

/// A fresh histogram keeps the invariant and counts nothing.
pub proof fn lemma_fresh_empty(scale: int)
    requires
        i32::MIN <= scale <= i32::MAX,
    ensures
        HistogramState::fresh(scale).wf(),
        HistogramState::fresh(scale).count_total() == 0,
        !HistogramState::fresh(scale).negative.initialized,
{
    lemma_empty_state();
}

/// Counting a zero adds exactly one to the count and leaves the buckets as they are.
pub proof fn lemma_zero_counted(h: HistogramState)
    requires
        h.wf(),
        h.count_total() < u64::MAX,
    ensures
        h.with_zero().wf(),
        h.with_zero().count_total() == h.count_total() + 1,
        h.with_zero().positive == h.positive,
        h.with_zero().negative == h.negative,
{
    lemma_total_of_state_nonneg(h.positive);
    lemma_total_of_state_nonneg(h.negative);
}

/// Recording an index adds exactly one to the count and leaves the other side and the zero
/// count as they are.
pub proof fn lemma_record_counted(h: HistogramState, negative: bool, index: int)
    requires
        h.wf(),
        h.count_total() < u64::MAX,
        h.side(negative).accepts(index),
        i32::MIN <= index <= i32::MAX,
    ensures
        h.with_index(negative, index).count_total() == h.count_total() + 1,
        h.with_index(negative, index).side(!negative) == h.side(!negative),
        h.with_index(negative, index).zero_count == h.zero_count,
        h.with_index(negative, index).scale == h.scale,
{
    lemma_with_index_wf(h, negative, index);
    lemma_increment_adds_one(h.side(negative), index);
}

/// On a side where nothing has been capped, and while the span of indices there stays
/// within `MAX_CAPACITY`, recording `index` adds one to the count of `index` on that side
/// and changes no other count on either side; the side's offset becomes the lowest index
/// it has seen.
pub proof fn lemma_record_exact(h: HistogramState, negative: bool, index: int)
    requires
        h.wf(),
        h.count_total() < u64::MAX,
        h.side(negative).accepts(index),
        i32::MIN <= index <= i32::MAX,
        h.side(negative).exact(),
        h.side(negative).span_with(index) <= MAX_CAPACITY,
    ensures
        h.with_index(negative, index).side(negative).exact(),
        forall|j: int|
            #[trigger] h.with_index(negative, index).side(negative).count_at(j) == h.side(
                negative,
            ).count_at(j) + if j == index {
                1int
            } else {
                0int
            },
        h.with_index(negative, index).side(!negative) == h.side(!negative),
        h.with_index(negative, index).side(negative).offset == if h.side(negative).initialized
            && h.side(negative).offset < index {
            h.side(negative).offset
        } else {
            index
        },
        h.with_index(negative, index).count_total() == h.count_total() + 1,
{
    lemma_with_index_wf(h, negative, index);
    lemma_increment_exact(h.side(negative), index);
}

/// One value as the counts see it: a zero, or an OTel index above or below zero.
pub enum Observation {
    Zero,
    Positive(int),
    Negative(int),
}

impl HistogramState {
    /// The state after one observation.
    pub open spec fn observed(self, observation: Observation) -> HistogramState {
        match observation {
            Observation::Zero => self.with_zero(),
            Observation::Positive(index) => self.with_index(false, index),
            Observation::Negative(index) => self.with_index(true, index),
        }
    }
}

/// The state after the observations `events`, in order, starting from `h`.
pub open spec fn observed_all(h: HistogramState, events: Seq<Observation>) -> HistogramState
    decreases events.len(),
{
    if events.len() == 0 {
        h
    } else {
        observed_all(h, events.drop_last()).observed(events.last())
    }
}

/// The indices of the observations on one side, in order.
pub open spec fn side_indices(events: Seq<Observation>, negative: bool) -> Seq<int>
    decreases events.len(),
{
    if events.len() == 0 {
        Seq::empty()
    } else {
        let earlier = side_indices(events.drop_last(), negative);
        match events.last() {
            Observation::Positive(index) => if negative {
                earlier
            } else {
                earlier.push(index)
            },
            Observation::Negative(index) => if negative {
                earlier.push(index)
            } else {
                earlier
            },
            Observation::Zero => earlier,
        }
    }
}

/// The number of zeros among the observations.
pub open spec fn zero_observations(events: Seq<Observation>) -> nat
    decreases events.len(),
{
    if events.len() == 0 {
        0
    } else {
        zero_observations(events.drop_last()) + if events.last() is Zero {
            1nat
        } else {
            0nat
        }
    }
}

/// Each side of the histogram only sees its own indices: after any observations, each side
/// is what recording that side's indices alone gives, and the zero count grows by the number
/// of zeros. The observations split into the two sides and the zeros.
pub proof fn lemma_observed_all_split(h: HistogramState, events: Seq<Observation>)
    ensures
        observed_all(h, events) == (HistogramState {
            positive: recorded_all(h.positive, side_indices(events, false)),
            negative: recorded_all(h.negative, side_indices(events, true)),
            zero_count: h.zero_count + zero_observations(events),
            scale: h.scale,
        }),
        side_indices(events, false).len() + side_indices(events, true).len() + zero_observations(
            events,
        ) == events.len(),
    decreases events.len(),
{
    if events.len() > 0 {
        let earlier = events.drop_last();
        lemma_observed_all_split(h, earlier);
        let pos = side_indices(earlier, false);
        let neg = side_indices(earlier, true);
        match events.last() {
            Observation::Positive(index) => {
                assert(pos.push(index).drop_last() =~= pos);
            },
            Observation::Negative(index) => {
                assert(neg.push(index).drop_last() =~= neg);
            },
            Observation::Zero => {},
        }
    }
}

/// Every observation is counted: from a fresh histogram, after any observations whose
/// indices on each side lie less than `i32::MAX` apart, the count is the number of
/// observations and the zero count the number of zeros.
pub proof fn lemma_observed_all_counted(scale: int, events: Seq<Observation>)
    requires
        i32::MIN <= scale <= i32::MAX,
        events.len() <= u64::MAX,
        forall|negative: bool, k: int|
            0 <= k < side_indices(events, negative).len() ==> i32::MIN <= #[trigger] side_indices(
                events,
                negative,
            )[k] <= i32::MAX,
        forall|negative: bool|
            #![trigger side_indices(events, negative)]
            side_indices(events, negative).len() >= 1 ==> seq_max(side_indices(events, negative))
                - seq_min(side_indices(events, negative)) < i32::MAX,
    ensures
        observed_all(HistogramState::fresh(scale), events).wf(),
        observed_all(HistogramState::fresh(scale), events).count_total() == events.len(),
        observed_all(HistogramState::fresh(scale), events).zero_count == zero_observations(events),
{
    lemma_observed_all_split(HistogramState::fresh(scale), events);
    let pos = side_indices(events, false);
    let neg = side_indices(events, true);
    assert forall|k: int| 0 <= k < pos.len() implies i32::MIN <= #[trigger] pos[k] <= i32::MAX by {
        assert(i32::MIN <= side_indices(events, false)[k] <= i32::MAX);
    }
    assert forall|k: int| 0 <= k < neg.len() implies i32::MIN <= #[trigger] neg[k] <= i32::MAX by {
        assert(i32::MIN <= side_indices(events, true)[k] <= i32::MAX);
    }
    lemma_recorded_all_counted(pos);
    lemma_recorded_all_counted(neg);
}

/// From a fresh histogram, when each side's indices span at most `MAX_CAPACITY` buckets,
/// nothing is capped: each side's offset is its lowest index, and every index holds, on each
/// side, the number of times it was observed there.
pub proof fn lemma_observed_all_exact(scale: int, events: Seq<Observation>)
    requires
        i32::MIN <= scale <= i32::MAX,
        events.len() <= u64::MAX,
        forall|negative: bool, k: int|
            0 <= k < side_indices(events, negative).len() ==> i32::MIN <= #[trigger] side_indices(
                events,
                negative,
            )[k] <= i32::MAX,
        forall|negative: bool|
            #![trigger side_indices(events, negative)]
            side_indices(events, negative).len() >= 1 ==> seq_max(side_indices(events, negative))
                - seq_min(side_indices(events, negative)) + 1 <= MAX_CAPACITY,
    ensures
        forall|negative: bool|
            #![trigger observed_all(HistogramState::fresh(scale), events).side(negative)]
            observed_all(HistogramState::fresh(scale), events).side(negative).exact(),
        forall|negative: bool|
            #![trigger observed_all(HistogramState::fresh(scale), events).side(negative)]
            side_indices(events, negative).len() >= 1 ==> observed_all(
                HistogramState::fresh(scale),
                events,
            ).side(negative).offset == seq_min(side_indices(events, negative)),
        forall|negative: bool, j: int|
            #[trigger] observed_all(HistogramState::fresh(scale), events).side(negative).count_at(j)
                == occurrences(side_indices(events, negative), j),
{
    lemma_observed_all_split(HistogramState::fresh(scale), events);
    let pos = side_indices(events, false);
    let neg = side_indices(events, true);
    assert forall|k: int| 0 <= k < pos.len() implies i32::MIN <= #[trigger] pos[k] <= i32::MAX by {
        assert(i32::MIN <= side_indices(events, false)[k] <= i32::MAX);
    }
    assert forall|k: int| 0 <= k < neg.len() implies i32::MIN <= #[trigger] neg[k] <= i32::MAX by {
        assert(i32::MIN <= side_indices(events, true)[k] <= i32::MAX);
    }
    assert(pos.len() >= 1 ==> seq_max(pos) - seq_min(pos) + 1 <= MAX_CAPACITY);
    assert(neg.len() >= 1 ==> seq_max(neg) - seq_min(neg) + 1 <= MAX_CAPACITY);
    lemma_recorded_all_exact(pos);
    lemma_recorded_all_exact(neg);
}

/// What `take_counts` gives after observations from a fresh histogram, each side spanning at
/// most `MAX_CAPACITY` buckets: position `p` of a side's counts holds the number of times
/// that side observed index `offset + p`, and the counts of both sides plus the zero count
/// add up to the number of observations.
pub proof fn lemma_take_counts_observed(scale: int, events: Seq<Observation>)
    requires
        i32::MIN <= scale <= i32::MAX,
        events.len() <= u64::MAX,
        forall|negative: bool, k: int|
            0 <= k < side_indices(events, negative).len() ==> i32::MIN <= #[trigger] side_indices(
                events,
                negative,
            )[k] <= i32::MAX,
        forall|negative: bool|
            #![trigger side_indices(events, negative)]
            side_indices(events, negative).len() >= 1 ==> seq_max(side_indices(events, negative))
                - seq_min(side_indices(events, negative)) + 1 <= MAX_CAPACITY,
    ensures
        forall|negative: bool, p: int|
            0 <= p < observed_all(HistogramState::fresh(scale), events).side(negative).window().len()
                ==> #[trigger] observed_all(HistogramState::fresh(scale), events).side(
                negative,
            ).window()[p] == occurrences(
                side_indices(events, negative),
                observed_all(HistogramState::fresh(scale), events).side(negative).offset + p,
            ),
        seq_total(observed_all(HistogramState::fresh(scale), events).positive.window())
            + seq_total(observed_all(HistogramState::fresh(scale), events).negative.window())
            + observed_all(HistogramState::fresh(scale), events).zero_count == events.len(),
{
    let h = observed_all(HistogramState::fresh(scale), events);
    assert forall|negative: bool|
        #![trigger side_indices(events, negative)]
        side_indices(events, negative).len() >= 1 implies seq_max(side_indices(events, negative))
        - seq_min(side_indices(events, negative)) < i32::MAX by {}
    lemma_observed_all_counted(scale, events);
    lemma_observed_all_exact(scale, events);
    lemma_window_counts(h.positive);
    lemma_window_counts(h.negative);
    assert forall|negative: bool, p: int|
        0 <= p < h.side(negative).window().len() implies #[trigger] h.side(negative).window()[p]
        == occurrences(side_indices(events, negative), h.side(negative).offset + p) by {
        assert(h.side(negative).count_at(h.side(negative).offset + p) == occurrences(
            side_indices(events, negative),
            h.side(negative).offset + p,
        ));
    }
}

/// The scale a histogram gets is the desired scale wherever that is at most `MAX_SCALE`, and
/// `MAX_SCALE` above it: never more than what was asked for, never more than `MAX_SCALE`.
pub proof fn lemma_effective_scale(desired_scale: int)
    ensures
        effective_scale(desired_scale) <= desired_scale,
        effective_scale(desired_scale) <= MAX_SCALE,
        desired_scale <= MAX_SCALE ==> effective_scale(desired_scale) == desired_scale,
        desired_scale >= MAX_SCALE ==> effective_scale(desired_scale) == MAX_SCALE,
{
}

/// An index inside a side's array goes to its own bucket on that side, whatever was capped
/// before: its count there rises by one, no other count on either side changes.
pub proof fn lemma_record_in_window(h: HistogramState, negative: bool, index: int)
    requires
        h.wf(),
        h.count_total() < u64::MAX,
        h.side(negative).initialized,
        h.side(negative).offset <= index < h.side(negative).offset + h.side(negative).capacity,
    ensures
        h.with_index(negative, index).side(negative).count_at(index) == h.side(negative).count_at(
            index,
        ) + 1,
        forall|j: int|
            j != index ==> #[trigger] h.with_index(negative, index).side(negative).count_at(j)
                == h.side(negative).count_at(j),
        h.with_index(negative, index).side(!negative) == h.side(!negative),
        h.with_index(negative, index).zero_count == h.zero_count,
{
    lemma_total_of_state_nonneg(h.positive);
    lemma_total_of_state_nonneg(h.negative);
    lemma_increment_in_window(h.side(negative), index);
}

} // verus!
