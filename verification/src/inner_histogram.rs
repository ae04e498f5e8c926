//! A growable array of bucket counters addressed by (possibly negative) OTel bucket index.
use vstd::prelude::*;
use std::collections::VecDeque;
use crate::bucket_array::{
    BucketArray, bucket_values, bucket_array_from, bucket_get, bucket_add_one, bucket_replace,
    bucket_snapshot, bucket_len,
};
use crate::bucket_sums::{
    seq_total, lemma_total_nonneg, lemma_total_take_step, lemma_total_zeros,
    lemma_total_prefix_le, lemma_elem_le_total,
};
use crate::inner_state::{
    InnerState, INITIAL_CAPACITY, MAX_CAPACITY, GROWTH_FACTOR, grown_capacity, zero_counts,
    shift_within, fold_start, shift_into_grown, extend_grown, nonzero_entries_upto,
    lemma_grown_capacity, lemma_incremented_wf, lemma_increment_adds_one, lemma_increment_in_window, lemma_total_zero_tail, lemma_shift_within_total,
    lemma_shift_into_grown_total,
};

verus! {

/// Counters for OTel bucket indices, stored from `offset` upward in an array that grows (up to
/// `MAX_CAPACITY` buckets) to take in indices outside it.
pub struct InnerHistogram {
    bucket_counts: BucketArray,
    // Current capacity of the bucket array
    capacity: usize,
    // The OTel index counted by bucket 0
    offset: i32,
    // Lowest and highest OTel index seen
    min_boundary: i32,
    max_boundary: i32,
    // Whether any value has been recorded
    initialized: bool,
}

impl View for InnerHistogram {
    type V = InnerState;

    closed spec fn view(&self) -> InnerState {
        InnerState {
            initialized: self.initialized,
            offset: self.offset as int,
            min_boundary: self.min_boundary as int,
            max_boundary: self.max_boundary as int,
            capacity: self.capacity as nat,
            buckets: bucket_values(self.bucket_counts),
        }
    }
}

/// `len` zero counters in a vector.
fn zero_vec(len: usize) -> (zeros: Vec<u64>)
    ensures
        zeros@ == zero_counts(len as nat),
{
    let mut zeros: Vec<u64> = Vec::with_capacity(len);
    let mut i: usize = 0;
    while i < len
        invariant
            i <= len,
            zeros@ == zero_counts(i as nat),
        decreases len - i,
    {
        zeros.push(0);
        i += 1;
    }
    zeros
}

/// The capacity to grow to from `current` so that `required` buckets fit: doubling, and
/// stopping at `MAX_CAPACITY`.
fn grow_target(current: usize, required: usize) -> (new_capacity: usize)
    requires
        1 <= current <= MAX_CAPACITY,
    ensures
        new_capacity == grown_capacity(current as nat, required as nat),
{
    let mut new_capacity = current;
    while new_capacity < required
        invariant
            1 <= new_capacity <= MAX_CAPACITY,
            grown_capacity(new_capacity as nat, required as nat) == grown_capacity(
                current as nat,
                required as nat,
            ),
        ensures
            1 <= new_capacity <= MAX_CAPACITY,
            grown_capacity(new_capacity as nat, required as nat) == grown_capacity(
                current as nat,
                required as nat,
            ),
            grown_capacity(new_capacity as nat, required as nat) == new_capacity,
        decreases MAX_CAPACITY - new_capacity,
    {
        let doubled = new_capacity * GROWTH_FACTOR;
        new_capacity = if doubled < MAX_CAPACITY {
            doubled
        } else {
            MAX_CAPACITY
        };
        if new_capacity >= MAX_CAPACITY {
            break ;
        }
    }
    if new_capacity < MAX_CAPACITY {
        new_capacity
    } else {
        MAX_CAPACITY
    }
}

impl InnerHistogram {
    /// An empty histogram with `INITIAL_CAPACITY` zeroed buckets.
    pub fn new() -> (hist: Self)
        ensures
            hist@ == InnerState::empty(),
            hist@.wf(),
            hist@.total() == 0,
    {
        let hist = InnerHistogram {
            bucket_counts: bucket_array_from(zero_vec(INITIAL_CAPACITY)),
            capacity: INITIAL_CAPACITY,
            offset: 0,
            min_boundary: 0,
            max_boundary: 0,
            initialized: false,
        };
        proof {
            lemma_total_zeros(hist@.buckets.take(INITIAL_CAPACITY as int));
        }
        hist
    }

    /// Grows the array in place so that `required_capacity` buckets fit, if it can grow.
    /// Returns whether it grew.
    fn grow_if_needed(&mut self, required_capacity: usize) -> (grew: bool)
        requires
            1 <= old(self)@.capacity <= MAX_CAPACITY,
            old(self)@.capacity <= old(self)@.buckets.len(),
        ensures
            ({
                let new_capacity = grown_capacity(old(self)@.capacity, required_capacity as nat);
                if new_capacity > old(self)@.capacity {
                    &&& grew
                    &&& final(self)@ == (InnerState {
                        capacity: new_capacity,
                        buckets: extend_grown(
                            old(self)@.buckets,
                            old(self)@.capacity as int,
                            new_capacity as int,
                        ),
                        ..old(self)@
                    })
                } else {
                    !grew && final(self)@ == old(self)@
                }
            }),
    {
        let current_capacity = self.capacity;
        if required_capacity <= current_capacity {
            return false;
        }
        let new_capacity = grow_target(current_capacity, required_capacity);
        if new_capacity <= current_capacity {
            return false;
        }
        let old_buckets = bucket_snapshot(&self.bucket_counts);
        let mut new_buckets: Vec<u64> = Vec::with_capacity(new_capacity);
        let mut i: usize = 0;
        while i < current_capacity
            invariant
                i <= current_capacity <= old_buckets@.len(),
                new_buckets@ == old_buckets@.take(i as int),
            decreases current_capacity - i,
        {
            new_buckets.push(old_buckets[i]);
            i += 1;
        }
        while new_buckets.len() < new_capacity
            invariant
                current_capacity <= new_buckets@.len() <= new_capacity,
                forall|p: int|
                    0 <= p < new_buckets@.len() ==> new_buckets@[p] == if p < current_capacity {
                        old_buckets@[p]
                    } else {
                        0u64
                    },
            decreases new_capacity - new_buckets.len(),
        {
            new_buckets.push(0);
        }
        proof {
            assert(new_buckets@ =~= extend_grown(
                old_buckets@,
                current_capacity as int,
                new_capacity as int,
            ));
        }
        self.capacity = new_capacity;
        bucket_replace(&mut self.bucket_counts, new_buckets);
        true
    }

    /// Grows the array toward `required_capacity` buckets and moves its data up by `shift`,
    /// making `new_offset` the index of bucket 0, if it can grow. Counters that the grown
    /// array cannot hold in their own buckets are added into its last bucket. Returns whether
    /// it grew.
    fn grow_and_shift(&mut self, new_offset: i32, shift: usize, required_capacity: usize) -> (grew:
        bool)
        requires
            1 <= old(self)@.capacity <= MAX_CAPACITY,
            old(self)@.capacity == old(self)@.buckets.len(),
            seq_total(old(self)@.buckets.take(old(self)@.capacity as int)) <= u64::MAX,
            1 <= shift,
        ensures
            ({
                let new_capacity = grown_capacity(old(self)@.capacity, required_capacity as nat);
                if new_capacity > old(self)@.capacity {
                    &&& grew
                    &&& final(self)@ == (InnerState {
                        offset: new_offset as int,
                        capacity: new_capacity,
                        buckets: shift_into_grown(
                            old(self)@.buckets,
                            old(self)@.capacity as int,
                            shift as int,
                            new_capacity as int,
                        ),
                        ..old(self)@
                    })
                } else {
                    !grew && final(self)@ == old(self)@
                }
            }),
    {
        let current_capacity = self.capacity;
        let new_capacity = grow_target(current_capacity, required_capacity);
        if new_capacity <= current_capacity {
            return false;
        }
        let ghost target = shift_into_grown(
            self@.buckets,
            current_capacity as int,
            shift as int,
            new_capacity as int,
        );
        let old_buckets = bucket_snapshot(&self.bucket_counts);
        let last = new_capacity - 1;
        let mut new_buckets: Vec<u64> = Vec::with_capacity(new_capacity);
        let mut p: usize = 0;
        while p < last
            invariant
                p <= last,
                last == new_capacity - 1,
                current_capacity == old_buckets@.len(),
                target == shift_into_grown(
                    old_buckets@,
                    current_capacity as int,
                    shift as int,
                    new_capacity as int,
                ),
                new_buckets@.len() == p,
                forall|q: int| 0 <= q < p ==> new_buckets@[q] == target[q],
            decreases last - p,
        {
            let value = if p < shift {
                0
            } else if p - shift < current_capacity {
                old_buckets[p - shift]
            } else {
                0
            };
            new_buckets.push(value);
            p += 1;
        }
        let first_folded: usize = if last < shift {
            0
        } else if last - shift > current_capacity {
            current_capacity
        } else {
            last - shift
        };
        let ghost tail = old_buckets@.subrange(first_folded as int, current_capacity as int);
        proof {
            lemma_shift_into_grown_total(
                old_buckets@,
                current_capacity as int,
                shift as int,
                new_capacity as int,
            );
            assert(first_folded == fold_start(
                current_capacity as int,
                shift as int,
                new_capacity as int,
            ));
        }
        let mut folded: u64 = 0;
        let mut q: usize = first_folded;
        while q < current_capacity
            invariant
                first_folded <= q <= current_capacity == old_buckets@.len(),
                tail == old_buckets@.subrange(first_folded as int, current_capacity as int),
                folded == seq_total(tail.take(q - first_folded)),
                seq_total(tail) <= u64::MAX,
            decreases current_capacity - q,
        {
            proof {
                lemma_total_take_step(tail, q - first_folded);
                lemma_total_prefix_le(tail, q - first_folded + 1);
                lemma_total_nonneg(tail.take(q - first_folded));
            }
            folded = folded + old_buckets[q];
            q += 1;
        }
        proof {
            assert(tail.take(current_capacity - first_folded) =~= tail);
        }
        new_buckets.push(folded);
        proof {
            assert(new_buckets@ =~= target);
        }
        self.offset = new_offset;
        self.capacity = new_capacity;
        bucket_replace(&mut self.bucket_counts, new_buckets);
        true
    }

    /// Moves the data up by `shift` buckets within the current capacity, making `new_offset`
    /// the index of bucket 0.
    fn shift_within_capacity(&mut self, new_offset: i32, shift: usize)
        requires
            1 <= shift < old(self)@.capacity,
            old(self)@.capacity <= old(self)@.buckets.len(),
        ensures
            final(self)@ == (InnerState {
                offset: new_offset as int,
                buckets: shift_within(old(self)@.buckets, old(self)@.capacity as int, shift as int),
                ..old(self)@
            }),
    {
        let capacity = self.capacity;
        let old_buckets = bucket_snapshot(&self.bucket_counts);
        let len = old_buckets.len();
        let mut new_buckets: Vec<u64> = Vec::with_capacity(len);
        let mut p: usize = 0;
        while p < len
            invariant
                p <= len == old_buckets@.len(),
                shift < capacity <= len,
                forall|q: int|
                    0 <= q < p ==> new_buckets@[q] == shift_within(
                        old_buckets@,
                        capacity as int,
                        shift as int,
                    )[q],
                new_buckets@.len() == p,
            decreases len - p,
        {
            let value = if p >= capacity {
                old_buckets[p]
            } else if p < shift {
                0
            } else {
                old_buckets[p - shift]
            };
            new_buckets.push(value);
            p += 1;
        }
        proof {
            assert(new_buckets@ =~= shift_within(old_buckets@, capacity as int, shift as int));
        }
        self.offset = new_offset;
        bucket_replace(&mut self.bucket_counts, new_buckets);
    }

    /// Lowers `min_boundary` to `otel_index` if it is lower.
    fn update_min_boundary(&mut self, otel_index: i32)
        ensures
            final(self)@ == (InnerState {
                min_boundary: if (otel_index as int) < old(self)@.min_boundary {
                    otel_index as int
                } else {
                    old(self)@.min_boundary
                },
                ..old(self)@
            }),
    {
        if otel_index < self.min_boundary {
            self.min_boundary = otel_index;
        }
    }

    /// Raises `max_boundary` to `otel_index` if it is higher.
    fn update_max_boundary(&mut self, otel_index: i32)
        ensures
            final(self)@ == (InnerState {
                max_boundary: if (otel_index as int) > old(self)@.max_boundary {
                    otel_index as int
                } else {
                    old(self)@.max_boundary
                },
                ..old(self)@
            }),
    {
        if otel_index > self.max_boundary {
            self.max_boundary = otel_index;
        }
    }

    /// Records one value with OTel index `otel_index`.
    ///
    /// The first value sets the offset. An index inside the array bumps its bucket. An index
    /// below the offset moves the data up so that the index lands in bucket 0, growing the
    /// array when the span from it to `max_boundary` exceeds the capacity; counters that the
    /// grown array cannot hold are counted in its last bucket, and where the array cannot grow
    /// at all, the value is counted in bucket 0. An index past the array grows it; where it
    /// cannot grow far enough, the value is counted in the last bucket. No value is lost.
    pub fn increment(&mut self, otel_index: i32)
        requires
            old(self)@.wf(),
            old(self)@.total() < u64::MAX,
            old(self)@.accepts(otel_index as int),
        ensures
            final(self)@ == old(self)@.incremented(otel_index as int),
            final(self)@.wf(),
            final(self)@.total() == old(self)@.total() + 1,
            final(self)@.capacity >= old(self)@.capacity,
            old(self)@.initialized && old(self)@.offset <= otel_index < old(self)@.offset + old(
                self,
            )@.capacity ==> {
                &&& final(self)@.count_at(otel_index as int) == old(self)@.count_at(
                    otel_index as int,
                ) + 1
                &&& forall|j: int|
                    j != otel_index ==> #[trigger] final(self)@.count_at(j) == old(self)@.count_at(j)
            },
    {
        proof {
            if self@.initialized && self@.offset <= otel_index < self@.offset + self@.capacity {
                lemma_increment_in_window(self@, otel_index as int);
            }
            lemma_incremented_wf(self@, otel_index as int);
            lemma_increment_adds_one(self@, otel_index as int);
            lemma_elem_le_total(self@.buckets.take(self@.capacity as int), 0);
        }
        if !self.initialized {
            self.offset = otel_index;
            self.min_boundary = otel_index;
            self.max_boundary = otel_index;
            self.initialized = true;
            bucket_add_one(&mut self.bucket_counts, 0);
            return ;
        }
        let index = otel_index - self.offset;
        if index >= 0 {
            let idx = index as usize;
            if idx < self.capacity {
                proof {
                    lemma_elem_le_total(self@.buckets.take(self@.capacity as int), idx as int);
                }
                bucket_add_one(&mut self.bucket_counts, idx);
                self.update_min_boundary(otel_index);
                self.update_max_boundary(otel_index);
                return ;
            }
        }
        self.increment_slow(otel_index);
    }

    /// `increment` for an index outside the array.
    fn increment_slow(&mut self, otel_index: i32)
        requires
            old(self)@.wf(),
            old(self)@.total() < u64::MAX,
            old(self)@.accepts(otel_index as int),
            old(self)@.initialized,
            !(0 <= otel_index - old(self)@.offset < old(self)@.capacity),
        ensures
            final(self)@ == old(self)@.incremented(otel_index as int),
    {
        let ghost s = self@;
        proof {
            lemma_total_nonneg(s.buckets.take(s.capacity as int));
            lemma_elem_le_total(s.buckets.take(s.capacity as int), 0);
            lemma_elem_le_total(s.buckets.take(s.capacity as int), s.capacity - 1);
        }
        let index = otel_index - self.offset;
        if index < 0 {
            let shift = (-index) as usize;
            let current_capacity = self.capacity;
            let required_span = (self.max_boundary - otel_index + 1) as usize;
            if required_span > current_capacity {
                let ghost nc = grown_capacity(s.capacity, required_span as nat);
                proof {
                    lemma_grown_capacity(s.capacity, required_span as nat);
                    if nc > s.capacity {
                        lemma_shift_into_grown_total(
                            s.buckets,
                            s.capacity as int,
                            shift as int,
                            nc as int,
                        );
                    }
                }
                self.grow_and_shift(otel_index, shift, required_span);
                bucket_add_one(&mut self.bucket_counts, 0);
                self.update_min_boundary(otel_index);
                return ;
            }
            proof {
                lemma_shift_within_total(s.buckets, s.capacity as int, shift as int);
            }
            self.shift_within_capacity(otel_index, shift);
            bucket_add_one(&mut self.bucket_counts, 0);
            self.update_min_boundary(otel_index);
            return ;
        }
        let index = index as usize;
        let ghost nc = grown_capacity(s.capacity, (index + 1) as nat);
        proof {
            lemma_grown_capacity(s.capacity, (index + 1) as nat);
        }
        self.grow_if_needed(index + 1);
        let new_capacity = self.capacity;
        if index < new_capacity {
            bucket_add_one(&mut self.bucket_counts, index);
            self.update_min_boundary(otel_index);
            self.update_max_boundary(otel_index);
        } else {
            bucket_add_one(&mut self.bucket_counts, new_capacity - 1);
            self.update_max_boundary(otel_index);
        }
    }

    /// Whether no value has been recorded.
    pub fn is_empty(&self) -> (empty: bool)
        ensures
            empty == !self@.initialized,
    {
        !self.initialized
    }

    /// The OTel index counted by bucket 0.
    pub fn offset(&self) -> (offset: i32)
        ensures
            offset == self@.offset,
    {
        self.offset
    }

    /// The lowest OTel index recorded.
    pub fn min_boundary(&self) -> (min: i32)
        ensures
            min == self@.min_boundary,
    {
        self.min_boundary
    }

    /// The highest OTel index recorded.
    pub fn max_boundary(&self) -> (max: i32)
        ensures
            max == self@.max_boundary,
    {
        self.max_boundary
    }

    /// The number of buckets in use.
    pub fn capacity(&self) -> (capacity: usize)
        ensures
            capacity == self@.capacity,
    {
        self.capacity
    }

    /// The lowest OTel index recorded, if any.
    pub fn min_index(&self) -> (min: Option<i32>)
        ensures
            min == if self@.initialized {
                Some(self@.min_boundary as i32)
            } else {
                None
            },
    {
        if !self.initialized {
            None
        } else {
            Some(self.min_boundary)
        }
    }

    /// One past the last bucket that can hold data.
    fn window_end(&self) -> (end: usize)
        requires
            self@.wf(),
            self@.initialized,
        ensures
            end == self@.window_end(),
            1 <= end <= self@.capacity,
    {
        let span = (self.max_boundary - self.offset + 1) as usize;
        if span < self.capacity {
            span
        } else {
            self.capacity
        }
    }

    /// The number of values counted in the buckets.
    pub fn total_count(&self) -> (total: u64)
        requires
            self@.wf(),
        ensures
            total == seq_total(self@.window()),
            total == self@.total(),
    {
        if !self.initialized {
            proof {
                lemma_total_zeros(self@.buckets.take(self@.capacity as int));
                assert(self@.window() =~= Seq::<u64>::empty());
            }
            return 0;
        }
        let end = self.window_end();
        let buckets = bucket_snapshot(&self.bucket_counts);
        proof {
            lemma_total_zero_tail(self@.buckets, end as int, self@.capacity as int);
        }
        let mut sum: u64 = 0;
        let mut i: usize = 0;
        while i < end
            invariant
                i <= end <= self@.capacity <= buckets@.len(),
                buckets@ == self@.buckets,
                sum == seq_total(buckets@.take(i as int)),
                seq_total(buckets@.take(end as int)) <= u64::MAX,
            decreases end - i,
        {
            proof {
                lemma_total_take_step(buckets@, i as int);
                assert(buckets@.take(end as int).take(i + 1) =~= buckets@.take(i + 1));
                lemma_total_prefix_le(buckets@.take(end as int), i + 1);
                lemma_total_nonneg(buckets@.take(i as int));
            }
            sum = sum + buckets[i];
            i += 1;
        }
        sum
    }

    /// The counters of the window, from bucket 0 to the bucket of `max_boundary`; empty
    /// before the first value.
    pub fn to_vec_deque(&self) -> (counts: VecDeque<usize>)
        requires
            self@.wf(),
        ensures
            counts@ == self@.window().map_values(|c: u64| c as usize),
    {
        let mut counts: VecDeque<usize> = VecDeque::new();
        if !self.initialized {
            proof {
                assert(counts@ =~= self@.window().map_values(|c: u64| c as usize));
            }
            return counts;
        }
        let end = self.window_end();
        let buckets = bucket_snapshot(&self.bucket_counts);
        let mut i: usize = 0;
        while i < end
            invariant
                i <= end <= buckets@.len(),
                buckets@ == self@.buckets,
                end == self@.window_end(),
                counts@ =~= buckets@.take(i as int).map_values(|c: u64| c as usize),
            decreases end - i,
        {
            counts.push_back(buckets[i] as usize);
            proof {
                assert(buckets@.take(i + 1).map_values(|c: u64| c as usize) =~= buckets@.take(
                    i as int,
                ).map_values(|c: u64| c as usize).push(buckets@[i as int] as usize));
            }
            i += 1;
        }
        counts
    }

    /// Every counter of the array, in order.
    pub fn as_vec_deque(&self) -> (counts: VecDeque<usize>)
        ensures
            counts@ == self@.buckets.map_values(|c: u64| c as usize),
    {
        let buckets = bucket_snapshot(&self.bucket_counts);
        let mut counts: VecDeque<usize> = VecDeque::new();
        let mut i: usize = 0;
        while i < buckets.len()
            invariant
                i <= buckets@.len(),
                buckets@ == self@.buckets,
                counts@ =~= buckets@.take(i as int).map_values(|c: u64| c as usize),
            decreases buckets.len() - i,
        {
            counts.push_back(buckets[i] as usize);
            proof {
                assert(buckets@.take(i + 1).map_values(|c: u64| c as usize) =~= buckets@.take(
                    i as int,
                ).map_values(|c: u64| c as usize).push(buckets@[i as int] as usize));
            }
            i += 1;
        }
        proof {
            assert(buckets@.take(buckets@.len() as int) =~= buckets@);
        }
        counts
    }

    /// The number of counters in the array.
    pub fn len(&self) -> (len: usize)
        ensures
            len == self@.buckets.len(),
    {
        bucket_len(&self.bucket_counts)
    }

    /// Counter `index` of the array.
    pub fn load(&self, index: usize) -> (count: usize)
        requires
            index < self@.buckets.len(),
        ensures
            count == self@.buckets[index as int] as usize,
    {
        bucket_get(&self.bucket_counts, index) as usize
    }

    /// The nonzero buckets of the window, in order, each as (OTel index, count).
    pub fn nonzero_buckets(&self) -> (entries: Vec<(i32, u64)>)
        requires
            self@.wf(),
        ensures
            entries@ == self@.nonzero_entries(),
    {
        let mut entries: Vec<(i32, u64)> = Vec::new();
        if !self.initialized {
            return entries;
        }
        let end = self.window_end();
        let buckets = bucket_snapshot(&self.bucket_counts);
        let mut i: usize = 0;
        while i < end
            invariant
                i <= end <= buckets@.len(),
                end == self@.window_end(),
                buckets@ == self@.buckets,
                self@.wf(),
                self@.initialized,
                entries@ == nonzero_entries_upto(buckets@, self@.offset, i as int),
            decreases end - i,
        {
            let count = buckets[i];
            if count > 0 {
                entries.push((self.offset + i as i32, count));
            }
            i += 1;
        }
        entries
    }
}

impl Clone for InnerHistogram {
    /// A copy with the same counters, offset, boundaries and capacity.
    fn clone(&self) -> (copy: Self)
        ensures
            copy@ == self@,
    {
        InnerHistogram {
            bucket_counts: bucket_array_from(bucket_snapshot(&self.bucket_counts)),
            capacity: self.capacity,
            offset: self.offset,
            min_boundary: self.min_boundary,
            max_boundary: self.max_boundary,
            initialized: self.initialized,
        }
    }
}

impl Default for InnerHistogram {
    fn default() -> (hist: Self)
        ensures
            hist@ == InnerState::empty(),
            hist@.wf(),
            hist@.total() == 0,
    {
        InnerHistogram::new()
    }
}

} // verus!
