//! The abstract state of a growable bucket array, what recording an index does to it, and
//! the laws that hold of it.
use vstd::prelude::*;
use crate::bucket_sums::{
    seq_total, lemma_total_nonneg, lemma_total_take_step, lemma_total_append, lemma_total_update,
    lemma_total_zeros, lemma_total_prefix_le, lemma_elem_le_total,
};

verus! {

/// Number of buckets a fresh histogram holds.
pub const INITIAL_CAPACITY: usize = 256;

/// Largest number of buckets the array grows to.
pub const MAX_CAPACITY: usize = 16384;

/// Factor by which the capacity grows.
pub const GROWTH_FACTOR: usize = 2;

/// The capacity reached from `current` when at least `required` buckets are wanted: the
/// capacity doubles until it covers `required`, and stops at `MAX_CAPACITY`.
pub open spec fn grown_capacity(current: nat, required: nat) -> nat
    decreases MAX_CAPACITY - current,
{
    if current >= required || current == 0 {
        current
    } else if current * 2 >= MAX_CAPACITY {
        MAX_CAPACITY as nat
    } else {
        grown_capacity(current * 2, required)
    }
}

/// The capacities the array takes: 256 times a power of two, up to `MAX_CAPACITY`.
pub open spec fn capacity_step(capacity: nat) -> bool {
    ||| capacity == 256
    ||| capacity == 512
    ||| capacity == 1024
    ||| capacity == 2048
    ||| capacity == 4096
    ||| capacity == 8192
    ||| capacity == 16384
}

/// Counters with counter `position` one higher.
pub open spec fn bump(buckets: Seq<u64>, position: int) -> Seq<u64> {
    buckets.update(position, (buckets[position] + 1) as u64)
}

/// `len` zero counters.
pub open spec fn zero_counts(len: nat) -> Seq<u64> {
    Seq::new(len, |p: int| 0u64)
}

/// The first `capacity` counters moved up by `shift` positions, the vacated low positions
/// zeroed; counters from `capacity` on stay where they are.
pub open spec fn shift_within(buckets: Seq<u64>, capacity: int, shift: int) -> Seq<u64> {
    Seq::new(
        buckets.len(),
        |p: int|
            if p >= capacity {
                buckets[p]
            } else if p < shift {
                0u64
            } else {
                buckets[p - shift]
            },
    )
}

/// The first old counter that a shift by `shift` into `new_capacity` buckets places in the
/// last bucket or beyond; from there on, the old counters are folded into the last bucket.
pub open spec fn fold_start(capacity: int, shift: int, new_capacity: int) -> int {
    let start = new_capacity - 1 - shift;
    if start < 0 {
        0
    } else if start > capacity {
        capacity
    } else {
        start
    }
}

/// The array built when the histogram grows to `new_capacity` buckets and moves its data up
/// by `shift`: `shift` zeros, then the old counters, each `shift` places higher, then zeros;
/// the last bucket holds the sum of the old counters from `fold_start` on, so that the
/// counters that no longer fit are capped into it.
pub open spec fn shift_into_grown(
    buckets: Seq<u64>,
    capacity: int,
    shift: int,
    new_capacity: int,
) -> Seq<u64> {
    let start = fold_start(capacity, shift, new_capacity);
    Seq::new(
        new_capacity as nat,
        |p: int|
            if p == new_capacity - 1 {
                seq_total(buckets.subrange(start, capacity)) as u64
            } else if p < shift {
                0u64
            } else if p - shift < capacity {
                buckets[p - shift]
            } else {
                0u64
            },
    )
}

/// The array built when the histogram grows to `new_capacity` buckets in place: the first
/// `capacity` old counters, then zeros.
pub open spec fn extend_grown(buckets: Seq<u64>, capacity: int, new_capacity: int) -> Seq<u64> {
    Seq::new(new_capacity as nat, |p: int| if p < capacity { buckets[p] } else { 0u64 })
}

/// The abstract state of an `InnerHistogram`. Bucket `p` (for `p < capacity`) counts the
/// values with OTel index `offset + p`.
pub struct InnerState {
    pub initialized: bool,
    pub offset: int,
    pub min_boundary: int,
    pub max_boundary: int,
    pub capacity: nat,
    pub buckets: Seq<u64>,
}

impl InnerState {
    /// A histogram that has seen nothing.
    pub open spec fn empty() -> InnerState {
        InnerState {
            initialized: false,
            offset: 0,
            min_boundary: 0,
            max_boundary: 0,
            capacity: INITIAL_CAPACITY as nat,
            buckets: zero_counts(INITIAL_CAPACITY as nat),
        }
    }

    /// Sum of the counters within the capacity.
    pub open spec fn total(self) -> int {
        seq_total(self.buckets.take(self.capacity as int))
    }

    /// One past the last bucket that can hold data: the bucket of `max_boundary`, or the
    /// capacity when that lies beyond it.
    pub open spec fn window_end(self) -> int {
        let span = self.max_boundary - self.offset + 1;
        if span < self.capacity {
            span
        } else {
            self.capacity as int
        }
    }

    /// The counters from bucket 0 up to `window_end`; nothing before the first value.
    pub open spec fn window(self) -> Seq<u64> {
        if self.initialized {
            self.buckets.take(self.window_end())
        } else {
            Seq::empty()
        }
    }

    /// The count held for OTel index `index`.
    pub open spec fn count_at(self, index: int) -> int {
        if self.initialized && self.offset <= index < self.offset + self.capacity {
            self.buckets[index - self.offset] as int
        } else {
            0
        }
    }

    /// No value has been capped into a boundary bucket: the window starts at the lowest index
    /// seen and reaches the highest.
    pub open spec fn exact(self) -> bool {
        self.initialized ==> (self.min_boundary == self.offset && self.max_boundary < self.offset
            + self.capacity)
    }

    /// The number of buckets from the lowest to the highest index once `index` is added.
    pub open spec fn span_with(self, index: int) -> int {
        if self.initialized {
            let hi = if index > self.max_boundary { index } else { self.max_boundary };
            let lo = if index < self.offset { index } else { self.offset };
            hi - lo + 1
        } else {
            1
        }
    }

    /// Recording `index` keeps every difference computed in `i32` within range: the distance
    /// from the offset, and the length of the window from the offset to the highest index.
    pub open spec fn accepts(self, index: int) -> bool {
        self.initialized ==> {
            &&& i32::MIN <= index - self.offset < i32::MAX
            &&& index < self.offset ==> self.max_boundary - index + 1 <= i32::MAX
        }
    }

    /// The nonzero buckets of the window, in order, each as (OTel index, count).
    pub open spec fn nonzero_entries(self) -> Seq<(i32, u64)> {
        if self.initialized {
            nonzero_entries_upto(self.buckets, self.offset, self.window_end())
        } else {
            Seq::empty()
        }
    }

    /// The invariant of the state.
    pub open spec fn wf(self) -> bool {
        &&& capacity_step(self.capacity)
        &&& self.buckets.len() == self.capacity
        &&& i32::MIN <= self.min_boundary <= self.offset <= self.max_boundary <= i32::MAX
        &&& self.max_boundary - self.offset < i32::MAX
        &&& !self.initialized ==> {
            &&& self.offset == 0
            &&& self.min_boundary == 0
            &&& self.max_boundary == 0
            &&& forall|p: int| 0 <= p < self.buckets.len() ==> self.buckets[p] == 0
        }
        &&& forall|p: int|
            0 <= p < self.capacity && self.offset + p > self.max_boundary ==> self.buckets[p] == 0
        &&& self.total() <= u64::MAX
    }

    /// The state after recording a value with OTel index `index`.
    pub open spec fn incremented(self, index: int) -> InnerState {
        if !self.initialized {
            InnerState {
                initialized: true,
                offset: index,
                min_boundary: index,
                max_boundary: index,
                buckets: bump(self.buckets, 0),
                ..self
            }
        } else {
            let position = index - self.offset;
            let lowest = if index < self.min_boundary { index } else { self.min_boundary };
            let highest = if index > self.max_boundary { index } else { self.max_boundary };
            if 0 <= position < self.capacity {
                InnerState {
                    buckets: bump(self.buckets, position),
                    min_boundary: lowest,
                    max_boundary: highest,
                    ..self
                }
            } else if position < 0 {
                let shift = -position;
                let required = self.max_boundary - index + 1;
                if required > self.capacity {
                    let new_capacity = grown_capacity(self.capacity, required as nat);
                    if new_capacity > self.capacity {
                        InnerState {
                            offset: index,
                            min_boundary: lowest,
                            capacity: new_capacity,
                            buckets: bump(
                                shift_into_grown(
                                    self.buckets,
                                    self.capacity as int,
                                    shift,
                                    new_capacity as int,
                                ),
                                0,
                            ),
                            ..self
                        }
                    } else {
                        InnerState { min_boundary: lowest, buckets: bump(self.buckets, 0), ..self }
                    }
                } else {
                    InnerState {
                        offset: index,
                        min_boundary: lowest,
                        buckets: bump(shift_within(self.buckets, self.capacity as int, shift), 0),
                        ..self
                    }
                }
            } else {
                let new_capacity = grown_capacity(self.capacity, (position + 1) as nat);
                let grown = if new_capacity > self.capacity {
                    extend_grown(self.buckets, self.capacity as int, new_capacity as int)
                } else {
                    self.buckets
                };
                if position < new_capacity {
                    InnerState {
                        capacity: new_capacity,
                        buckets: bump(grown, position),
                        min_boundary: lowest,
                        max_boundary: highest,
                        ..self
                    }
                } else {
                    InnerState {
                        capacity: new_capacity,
                        buckets: bump(grown, new_capacity - 1),
                        max_boundary: highest,
                        ..self
                    }
                }
            }
        }
    }
}

/// The nonzero counters among the first `k`, each paired with the OTel index it counts.
pub open spec fn nonzero_entries_upto(buckets: Seq<u64>, offset: int, k: int) -> Seq<(i32, u64)>
    decreases k,
{
    if k <= 0 {
        Seq::empty()
    } else {
        let earlier = nonzero_entries_upto(buckets, offset, k - 1);
        if buckets[k - 1] > 0 {
            earlier.push(((offset + k - 1) as i32, buckets[k - 1]))
        } else {
            earlier
        }
    }
}

/// `grown_capacity` never shrinks, never passes `MAX_CAPACITY` from below it, reaches
/// `required` when `required` is within `MAX_CAPACITY`, and grows exactly when `current`
/// is short of `required` and below `MAX_CAPACITY`.
pub proof fn lemma_grown_capacity(current: nat, required: nat)
    requires
        1 <= current <= MAX_CAPACITY,
    ensures
        current <= grown_capacity(current, required) <= MAX_CAPACITY,
        required <= MAX_CAPACITY ==> required <= grown_capacity(current, required),
        current >= required ==> grown_capacity(current, required) == current,
        (grown_capacity(current, required) > current) == (current < required && current
            < MAX_CAPACITY),
        current < required ==> grown_capacity(current, required) < 2 * required,
        capacity_step(current) ==> capacity_step(grown_capacity(current, required)),
    decreases MAX_CAPACITY - current,
{
    if current >= required {
    } else if current * 2 >= MAX_CAPACITY {
    } else {
        lemma_grown_capacity(current * 2, required);
    }
}

/// Bumping one counter inside a prefix adds one to the sum of that prefix.
pub(crate) proof fn lemma_bump_total(b: Seq<u64>, position: int, len: int)
    requires
        0 <= position < len <= b.len(),
        b[position] < u64::MAX,
    ensures
        bump(b, position).take(len) =~= bump(b.take(len), position),
        seq_total(bump(b, position).take(len)) == seq_total(b.take(len)) + 1,
{
    assert(bump(b, position).take(len) =~= bump(b.take(len), position));
    lemma_total_update(b.take(len), position, (b[position] + 1) as u64);
}

/// A prefix followed only by zeros sums to the same as the longer prefix.
pub(crate) proof fn lemma_total_zero_tail(b: Seq<u64>, k: int, c: int)
    requires
        0 <= k <= c <= b.len(),
        forall|p: int| k <= p < c ==> b[p] == 0,
    ensures
        seq_total(b.take(k)) == seq_total(b.take(c)),
{
    assert(b.take(c) =~= b.take(k) + b.subrange(k, c));
    lemma_total_append(b.take(k), b.subrange(k, c));
    lemma_total_zeros(b.subrange(k, c));
}

/// What moving data up within the capacity does to the sum of the window.
pub(crate) proof fn lemma_shift_within_total(b: Seq<u64>, capacity: int, shift: int)
    requires
        1 <= shift < capacity <= b.len(),
    ensures
        shift_within(b, capacity, shift).len() == b.len(),
        shift_within(b, capacity, shift)[0] == 0,
        seq_total(shift_within(b, capacity, shift).take(capacity)) == seq_total(
            b.take(capacity - shift),
        ),
{
    let w = shift_within(b, capacity, shift);
    assert(w.take(capacity) =~= zero_counts(shift as nat) + b.take(capacity - shift));
    lemma_total_append(zero_counts(shift as nat), b.take(capacity - shift));
    lemma_total_zeros(zero_counts(shift as nat));
}

/// The sum of a one-element sequence is its element.
pub(crate) proof fn lemma_total_single(x: u64)
    ensures
        seq_total(seq![x]) == x,
{
    assert(seq![x].drop_last() =~= Seq::<u64>::empty());
    assert(seq_total(Seq::<u64>::empty()) == 0);
    assert(seq![x].last() == x);
}

/// A counter followed only by zeros sums to that counter.
pub(crate) proof fn lemma_total_head_then_zeros(b: Seq<u64>, k: int, c: int)
    requires
        0 <= k < c <= b.len(),
        forall|p: int| k < p < c ==> b[p] == 0,
    ensures
        seq_total(b.subrange(k, c)) == b[k],
{
    assert(b.subrange(k, c) =~= seq![b[k]] + b.subrange(k + 1, c));
    lemma_total_append(seq![b[k]], b.subrange(k + 1, c));
    lemma_total_single(b[k]);
    lemma_total_zeros(b.subrange(k + 1, c));
}

/// Growing with a shift keeps the sum of the window: what no longer fits is folded into the
/// last bucket.
pub(crate) proof fn lemma_shift_into_grown_total(b: Seq<u64>, capacity: int, shift: int, new_capacity: int)
    requires
        1 <= capacity <= b.len(),
        1 <= shift,
        2 <= new_capacity,
        seq_total(b.take(capacity)) <= u64::MAX,
    ensures
        shift_into_grown(b, capacity, shift, new_capacity).len() == new_capacity,
        shift_into_grown(b, capacity, shift, new_capacity)[0] == 0,
        seq_total(shift_into_grown(b, capacity, shift, new_capacity).take(new_capacity))
            == seq_total(b.take(capacity)),
        seq_total(b.subrange(fold_start(capacity, shift, new_capacity), capacity))
            <= seq_total(b.take(capacity)),
{
    let g = shift_into_grown(b, capacity, shift, new_capacity);
    let start = fold_start(capacity, shift, new_capacity);
    let lead = if shift < new_capacity - 1 { shift } else { new_capacity - 1 };
    let gap = (new_capacity - 1 - lead - start) as nat;
    let folded = seq_total(b.subrange(start, capacity));
    assert(b.take(capacity) =~= b.take(start) + b.subrange(start, capacity));
    lemma_total_append(b.take(start), b.subrange(start, capacity));
    lemma_total_nonneg(b.take(start));
    lemma_total_nonneg(b.subrange(start, capacity));
    assert(g.take(new_capacity) =~= zero_counts(lead as nat) + b.take(start) + zero_counts(gap)
        + seq![folded as u64]);
    lemma_total_append(zero_counts(lead as nat) + b.take(start) + zero_counts(gap), seq![folded as u64]);
    lemma_total_append(zero_counts(lead as nat) + b.take(start), zero_counts(gap));
    lemma_total_append(zero_counts(lead as nat), b.take(start));
    lemma_total_zeros(zero_counts(lead as nat));
    lemma_total_zeros(zero_counts(gap));
    lemma_total_single(folded as u64);
}

/// Growing in place keeps the sum of the window.
pub(crate) proof fn lemma_extend_total(b: Seq<u64>, capacity: int, new_capacity: int)
    requires
        0 <= capacity <= new_capacity,
        capacity <= b.len(),
    ensures
        seq_total(extend_grown(b, capacity, new_capacity).take(new_capacity)) == seq_total(
            b.take(capacity),
        ),
{
    let e = extend_grown(b, capacity, new_capacity);
    let rest = (new_capacity - capacity) as nat;
    assert(e.take(new_capacity) =~= b.take(capacity) + zero_counts(rest));
    lemma_total_append(b.take(capacity), zero_counts(rest));
    lemma_total_zeros(zero_counts(rest));
}

/// Recording an index keeps the invariant, never shrinks the capacity, and raises the total
/// by at most one.
pub proof fn lemma_incremented_wf(s: InnerState, index: int)
    requires
        s.wf(),
        s.total() < u64::MAX,
        s.accepts(index),
        i32::MIN <= index <= i32::MAX,
    ensures
        s.incremented(index).wf(),
        s.incremented(index).capacity >= s.capacity,
        s.incremented(index).total() <= s.total() + 1,
{
    let t = s.incremented(index);
    let b = s.buckets;
    let cap = s.capacity as int;
    lemma_total_nonneg(b.take(cap));
    if !s.initialized {
        lemma_elem_le_total(b.take(cap), 0);
        lemma_bump_total(b, 0, cap);
    } else {
        let position = index - s.offset;
        if 0 <= position < cap {
            lemma_elem_le_total(b.take(cap), position);
            lemma_bump_total(b, position, cap);
        } else if position < 0 {
            let shift = -position;
            let required = s.max_boundary - index + 1;
            if required > cap {
                let nc = grown_capacity(s.capacity, required as nat);
                lemma_grown_capacity(s.capacity, required as nat);
                if nc > s.capacity {
                    let g = shift_into_grown(b, cap, shift, nc as int);
                    let start = fold_start(cap, shift, nc as int);
                    lemma_shift_into_grown_total(b, cap, shift, nc as int);
                    lemma_bump_total(g, 0, nc as int);
                    if index + nc - 1 > s.max_boundary {
                        assert forall|q: int| start <= q < cap implies b[q] == 0 by {
                            assert(s.offset + q > s.max_boundary);
                        }
                        lemma_total_zeros(b.subrange(start, cap));
                    }
                    assert forall|p: int|
                        0 <= p < t.capacity && t.offset + p > t.max_boundary implies t.buckets[p]
                        == 0 by {
                        if p < nc - 1 && p >= shift && p - shift < cap {
                            assert(s.offset + (p - shift) > s.max_boundary);
                        }
                    }
                } else {
                    lemma_elem_le_total(b.take(cap), 0);
                    lemma_bump_total(b, 0, cap);
                }
            } else {
                let w = shift_within(b, cap, shift);
                lemma_shift_within_total(b, cap, shift);
                assert(b.take(cap).take(cap - shift) =~= b.take(cap - shift));
                lemma_total_prefix_le(b.take(cap), cap - shift);
                lemma_bump_total(w, 0, cap);
                assert forall|p: int|
                    0 <= p < t.capacity && t.offset + p > t.max_boundary implies t.buckets[p]
                    == 0 by {
                    if p >= shift {
                        assert(s.offset + (p - shift) > s.max_boundary);
                    }
                }
            }
        } else {
            let nc = grown_capacity(s.capacity, (position + 1) as nat);
            lemma_grown_capacity(s.capacity, (position + 1) as nat);
            if nc > s.capacity {
                let e = extend_grown(b, cap, nc as int);
                lemma_extend_total(b, cap, nc as int);
                if position < nc {
                    lemma_bump_total(e, position, nc as int);
                } else {
                    lemma_bump_total(e, nc - 1, nc as int);
                }
            } else {
                lemma_elem_le_total(b.take(cap), cap - 1);
                lemma_bump_total(b, cap - 1, cap);
            }
        }
    }
}

/// Every recorded index adds exactly one to the total: a value that does not fit is capped
/// into a boundary bucket, never lost.
pub proof fn lemma_increment_adds_one(s: InnerState, index: int)
    requires
        s.wf(),
        s.total() < u64::MAX,
        s.accepts(index),
        i32::MIN <= index <= i32::MAX,
    ensures
        s.incremented(index).total() == s.total() + 1,
{
    let t = s.incremented(index);
    let b = s.buckets;
    let cap = s.capacity as int;
    lemma_incremented_wf(s, index);
    if s.initialized {
        let position = index - s.offset;
        if position < 0 {
            let shift = -position;
            let required = s.max_boundary - index + 1;
            if required > cap {
                let nc = grown_capacity(s.capacity, required as nat);
                lemma_grown_capacity(s.capacity, required as nat);
                if nc > s.capacity {
                    let g = shift_into_grown(b, cap, shift, nc as int);
                    lemma_shift_into_grown_total(b, cap, shift, nc as int);
                    lemma_bump_total(g, 0, nc as int);
                } else {
                    lemma_elem_le_total(b.take(cap), 0);
                    lemma_bump_total(b, 0, cap);
                }
            } else {
                let w = shift_within(b, cap, shift);
                lemma_shift_within_total(b, cap, shift);
                lemma_total_zero_tail(b, cap - shift, cap);
                lemma_bump_total(w, 0, cap);
            }
        } else if position >= cap {
            let nc = grown_capacity(s.capacity, (position + 1) as nat);
            lemma_grown_capacity(s.capacity, (position + 1) as nat);
            if nc > s.capacity {
                let e = extend_grown(b, cap, nc as int);
                lemma_extend_total(b, cap, nc as int);
                if position < nc {
                    lemma_bump_total(e, position, nc as int);
                } else {
                    lemma_bump_total(e, nc - 1, nc as int);
                }
            } else {
                lemma_elem_le_total(b.take(cap), cap - 1);
                lemma_bump_total(b, cap - 1, cap);
            }
        } else {
            lemma_elem_le_total(b.take(cap), position);
            lemma_bump_total(b, position, cap);
        }
    } else {
        lemma_elem_le_total(b.take(cap), 0);
        lemma_bump_total(b, 0, cap);
    }
}

/// While no value has been capped and the span of indices stays within `MAX_CAPACITY`,
/// recording `index` adds one to the count of `index` and changes no other count; the
/// offset is the lowest index seen, `max_boundary` the highest, and nothing is capped.
pub proof fn lemma_increment_exact(s: InnerState, index: int)
    requires
        s.wf(),
        s.exact(),
        s.total() < u64::MAX,
        s.accepts(index),
        i32::MIN <= index <= i32::MAX,
        s.span_with(index) <= MAX_CAPACITY,
    ensures
        s.incremented(index).exact(),
        forall|j: int|
            #[trigger] s.incremented(index).count_at(j) == s.count_at(j) + if j == index {
                1int
            } else {
                0int
            },
        s.incremented(index).offset == if s.initialized && s.offset < index {
            s.offset
        } else {
            index
        },
        s.incremented(index).max_boundary == if s.initialized && s.max_boundary > index {
            s.max_boundary
        } else {
            index
        },
        s.incremented(index).total() == s.total() + 1,
{
    let t = s.incremented(index);
    let b = s.buckets;
    let cap = s.capacity as int;
    lemma_incremented_wf(s, index);
    lemma_increment_adds_one(s, index);
    if s.initialized {
        let position = index - s.offset;
        if position < 0 {
            let shift = -position;
            let required = s.max_boundary - index + 1;
            if required > cap {
                let nc = grown_capacity(s.capacity, required as nat);
                lemma_grown_capacity(s.capacity, required as nat);
                let start = fold_start(cap, shift, nc as int);
                if start < cap {
                    assert forall|q: int| start < q < cap implies b[q] == 0 by {
                        assert(s.offset + q > s.max_boundary);
                    }
                    lemma_total_head_then_zeros(b, start, cap);
                } else {
                    assert(b.subrange(start, cap) =~= Seq::<u64>::empty());
                }
                assert forall|j: int|
                    #[trigger] t.count_at(j) == s.count_at(j) + if j == index {
                        1int
                    } else {
                        0int
                    } by {
                    if s.offset <= j < s.offset + cap && j >= index + nc {
                        assert(j > s.max_boundary);
                    }
                }
            } else {
                assert forall|j: int|
                    #[trigger] t.count_at(j) == s.count_at(j) + if j == index {
                        1int
                    } else {
                        0int
                    } by {
                    if s.offset <= j < s.offset + cap && j >= index + cap {
                        assert(j > s.max_boundary);
                    }
                }
            }
        } else if position >= cap {
            let nc = grown_capacity(s.capacity, (position + 1) as nat);
            lemma_grown_capacity(s.capacity, (position + 1) as nat);
            assert forall|j: int|
                #[trigger] t.count_at(j) == s.count_at(j) + if j == index {
                    1int
                } else {
                    0int
                } by {}
        } else {
            lemma_elem_le_total(b.take(cap), position);
            assert(t.buckets == bump(b, position) && t.offset == s.offset && t.capacity
                == s.capacity && t.initialized);
            assert forall|j: int|
                #[trigger] t.count_at(j) == s.count_at(j) + if j == index {
                    1int
                } else {
                    0int
                } by {
                if s.offset <= j < s.offset + cap {
                    assert(t.buckets[j - s.offset] == if j == index {
                        (b[j - s.offset] + 1) as u64
                    } else {
                        b[j - s.offset]
                    });
                }
            }
        }
    } else {
        assert forall|j: int|
            #[trigger] t.count_at(j) == s.count_at(j) + if j == index {
                1int
            } else {
                0int
            } by {
            if index <= j < index + cap {
                assert(b[j - index] == 0);
            }
        }
    }
}

/// The empty state keeps the invariant and counts nothing.
pub proof fn lemma_empty_state()
    ensures
        InnerState::empty().wf(),
        InnerState::empty().total() == 0,
        InnerState::empty().exact(),
        forall|j: int| #[trigger] InnerState::empty().count_at(j) == 0,
{
    lemma_total_zeros(InnerState::empty().buckets.take(INITIAL_CAPACITY as int));
}

/// The total of a state is never negative.
pub proof fn lemma_total_of_state_nonneg(s: InnerState)
    ensures
        0 <= s.total(),
{
    lemma_total_nonneg(s.buckets.take(s.capacity as int));
}

/// The sum of the counts in a list of (index, count) entries.
pub open spec fn entries_total(entries: Seq<(i32, u64)>) -> int
    decreases entries.len(),
{
    if entries.len() == 0 {
        0
    } else {
        entries_total(entries.drop_last()) + entries.last().1
    }
}

/// The entries of the first `k` counters come in strictly increasing index order, each with
/// a positive count equal to the counter of its index, and their counts sum to the counters.
pub(crate) proof fn lemma_entries_upto(b: Seq<u64>, offset: int, k: int)
    requires
        0 <= k <= b.len(),
        i32::MIN <= offset,
        offset + k - 1 <= i32::MAX,
    ensures
        forall|e: int|
            0 <= e < nonzero_entries_upto(b, offset, k).len() ==> {
                let (index, count) = #[trigger] nonzero_entries_upto(b, offset, k)[e];
                &&& offset <= index < offset + k
                &&& count > 0
                &&& count == b[index - offset]
            },
        forall|e1: int, e2: int|
            0 <= e1 < e2 < nonzero_entries_upto(b, offset, k).len() ==> (#[trigger] nonzero_entries_upto(
                b,
                offset,
                k,
            )[e1]).0 < (#[trigger] nonzero_entries_upto(b, offset, k)[e2]).0,
        entries_total(nonzero_entries_upto(b, offset, k)) == seq_total(b.take(k)),
    decreases k,
{
    if k > 0 {
        lemma_entries_upto(b, offset, k - 1);
        lemma_total_take_step(b, k - 1);
        let earlier = nonzero_entries_upto(b, offset, k - 1);
        if b[k - 1] > 0 {
            assert(nonzero_entries_upto(b, offset, k).drop_last() =~= earlier);
        }
    }
}

/// What the nonzero buckets list holds: every bucket of the window with a positive count,
/// by strictly increasing OTel index, each with the count held for its index; their counts
/// add up to the total.
pub proof fn lemma_nonzero_entries(s: InnerState)
    requires
        s.wf(),
    ensures
        forall|e: int|
            0 <= e < s.nonzero_entries().len() ==> {
                let (index, count) = #[trigger] s.nonzero_entries()[e];
                &&& count > 0
                &&& count == s.count_at(index as int)
            },
        forall|e1: int, e2: int|
            0 <= e1 < e2 < s.nonzero_entries().len() ==> (#[trigger] s.nonzero_entries()[e1]).0
                < (#[trigger] s.nonzero_entries()[e2]).0,
        entries_total(s.nonzero_entries()) == s.total(),
{
    if s.initialized {
        lemma_entries_upto(s.buckets, s.offset, s.window_end());
        lemma_total_zero_tail(s.buckets, s.window_end(), s.capacity as int);
    } else {
        lemma_total_zeros(s.buckets.take(s.capacity as int));
    }
}

/// Bucket `p` of the window holds the count of OTel index `offset + p`, and the window sums
/// to the total.
pub proof fn lemma_window_counts(s: InnerState)
    requires
        s.wf(),
    ensures
        forall|p: int|
            0 <= p < s.window().len() ==> #[trigger] s.window()[p] == s.count_at(s.offset + p),
        seq_total(s.window()) == s.total(),
        s.initialized ==> s.window().len() == s.window_end(),
        s.initialized && s.exact() ==> s.window().len() == s.max_boundary - s.offset + 1,
{
    if s.initialized {
        lemma_total_zero_tail(s.buckets, s.window_end(), s.capacity as int);
    } else {
        lemma_total_zeros(s.buckets.take(s.capacity as int));
    }
}

/// The state after recording `indices` in order, starting from `s`.
pub open spec fn recorded_all(s: InnerState, indices: Seq<int>) -> InnerState
    decreases indices.len(),
{
    if indices.len() == 0 {
        s
    } else {
        recorded_all(s, indices.drop_last()).incremented(indices.last())
    }
}

/// How many times `index` occurs in `indices`.
pub open spec fn occurrences(indices: Seq<int>, index: int) -> int
    decreases indices.len(),
{
    if indices.len() == 0 {
        0
    } else {
        occurrences(indices.drop_last(), index) + if indices.last() == index {
            1int
        } else {
            0int
        }
    }
}

/// The smallest of a nonempty sequence of indices.
pub open spec fn seq_min(indices: Seq<int>) -> int
    decreases indices.len(),
{
    if indices.len() <= 1 {
        indices[0]
    } else if indices.last() < seq_min(indices.drop_last()) {
        indices.last()
    } else {
        seq_min(indices.drop_last())
    }
}

/// The largest of a nonempty sequence of indices.
pub open spec fn seq_max(indices: Seq<int>) -> int
    decreases indices.len(),
{
    if indices.len() <= 1 {
        indices[0]
    } else if indices.last() > seq_max(indices.drop_last()) {
        indices.last()
    } else {
        seq_max(indices.drop_last())
    }
}

/// Every index lies between the smallest and the largest.
pub proof fn lemma_seq_min_max(indices: Seq<int>)
    requires
        indices.len() >= 1,
    ensures
        forall|k: int|
            0 <= k < indices.len() ==> seq_min(indices) <= #[trigger] indices[k] <= seq_max(
                indices,
            ),
    decreases indices.len(),
{
    if indices.len() > 1 {
        lemma_seq_min_max(indices.drop_last());
        assert forall|k: int| 0 <= k < indices.len() - 1 implies indices[k]
            == indices.drop_last()[k] by {}
    }
}

/// Recording keeps `min_boundary` and `max_boundary` at the lowest and highest index seen.
pub proof fn lemma_increment_boundaries(s: InnerState, index: int)
    requires
        s.wf(),
    ensures
        s.incremented(index).initialized,
        s.incremented(index).min_boundary == if s.initialized && s.min_boundary < index {
            s.min_boundary
        } else {
            index
        },
        s.incremented(index).max_boundary == if s.initialized && s.max_boundary > index {
            s.max_boundary
        } else {
            index
        },
{
}

/// Recording any sequence of indices from an empty array counts every one of them: the total
/// is the number of indices, and the boundaries are the lowest and highest index. The
/// indices must lie less than `i32::MAX` apart, as each record requires.
pub proof fn lemma_recorded_all_counted(indices: Seq<int>)
    requires
        indices.len() <= u64::MAX,
        forall|k: int| 0 <= k < indices.len() ==> i32::MIN <= #[trigger] indices[k] <= i32::MAX,
        indices.len() >= 1 ==> seq_max(indices) - seq_min(indices) < i32::MAX,
    ensures
        recorded_all(InnerState::empty(), indices).wf(),
        recorded_all(InnerState::empty(), indices).total() == indices.len(),
        recorded_all(InnerState::empty(), indices).initialized == (indices.len() >= 1),
        indices.len() >= 1 ==> recorded_all(InnerState::empty(), indices).min_boundary == seq_min(
            indices,
        ),
        indices.len() >= 1 ==> recorded_all(InnerState::empty(), indices).max_boundary == seq_max(
            indices,
        ),
    decreases indices.len(),
{
    lemma_empty_state();
    if indices.len() >= 1 {
        let earlier = indices.drop_last();
        let index = indices.last();
        lemma_seq_min_max(indices);
        if earlier.len() >= 1 {
            lemma_seq_min_max(earlier);
        }
        assert forall|k: int| 0 <= k < earlier.len() implies i32::MIN <= #[trigger] earlier[k]
            <= i32::MAX by {
            assert(earlier[k] == indices[k]);
        }
        lemma_recorded_all_counted(earlier);
        let s = recorded_all(InnerState::empty(), earlier);
        lemma_incremented_wf(s, index);
        lemma_increment_adds_one(s, index);
        lemma_increment_boundaries(s, index);
    }
}

/// Recording a sequence of indices spanning at most `MAX_CAPACITY` buckets from an empty
/// array caps nothing: the offset is the lowest index, and every index holds the number of
/// times it was recorded.
pub proof fn lemma_recorded_all_exact(indices: Seq<int>)
    requires
        indices.len() <= u64::MAX,
        forall|k: int| 0 <= k < indices.len() ==> i32::MIN <= #[trigger] indices[k] <= i32::MAX,
        indices.len() >= 1 ==> seq_max(indices) - seq_min(indices) + 1 <= MAX_CAPACITY,
    ensures
        recorded_all(InnerState::empty(), indices).exact(),
        indices.len() >= 1 ==> recorded_all(InnerState::empty(), indices).offset == seq_min(
            indices,
        ),
        forall|j: int|
            #[trigger] recorded_all(InnerState::empty(), indices).count_at(j) == occurrences(
                indices,
                j,
            ),
    decreases indices.len(),
{
    lemma_empty_state();
    lemma_recorded_all_counted(indices);
    if indices.len() >= 1 {
        let earlier = indices.drop_last();
        let index = indices.last();
        lemma_seq_min_max(indices);
        if earlier.len() >= 1 {
            lemma_seq_min_max(earlier);
        }
        assert forall|k: int| 0 <= k < earlier.len() implies i32::MIN <= #[trigger] earlier[k]
            <= i32::MAX by {
            assert(earlier[k] == indices[k]);
        }
        lemma_recorded_all_counted(earlier);
        lemma_recorded_all_exact(earlier);
        let s = recorded_all(InnerState::empty(), earlier);
        lemma_increment_exact(s, index);
    }
}

/// An index inside the array goes to its own bucket, whatever was capped before: its count
/// rises by one, no other index's count changes, and the offset and capacity stay.
pub proof fn lemma_increment_in_window(s: InnerState, index: int)
    requires
        s.wf(),
        s.total() < u64::MAX,
        s.initialized,
        s.offset <= index < s.offset + s.capacity,
    ensures
        s.incremented(index).count_at(index) == s.count_at(index) + 1,
        forall|j: int| j != index ==> #[trigger] s.incremented(index).count_at(j) == s.count_at(j),
        s.incremented(index).offset == s.offset,
        s.incremented(index).capacity == s.capacity,
        s.incremented(index).min_boundary == if s.min_boundary < index {
            s.min_boundary
        } else {
            index
        },
        s.incremented(index).max_boundary == if s.max_boundary > index {
            s.max_boundary
        } else {
            index
        },
{
    let t = s.incremented(index);
    let b = s.buckets;
    let cap = s.capacity as int;
    let position = index - s.offset;
    lemma_elem_le_total(b.take(cap), position);
    assert(t.buckets == bump(b, position) && t.offset == s.offset && t.capacity == s.capacity
        && t.initialized);
    assert(t.buckets[position] == b[position] + 1);
    assert forall|j: int| j != index implies #[trigger] t.count_at(j) == s.count_at(j) by {
        if s.offset <= j < s.offset + cap {
            assert(t.buckets[j - s.offset] == b[j - s.offset]);
        }
    }
}

} // verus!
