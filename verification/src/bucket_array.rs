use vstd::prelude::*;
use std::sync::Arc;
use std::sync::atomic::AtomicU64;
use std::sync::atomic::Ordering;
use arc_swap::ArcSwap;
use itertools::Itertools;

verus! {

/// The bucket counters: an `arc_swap::ArcSwap` pointing at a boxed slice of `AtomicU64`.
/// Verus sees this struct as opaque; what it holds is named by `bucket_values`.
#[verifier::external_body]
pub struct BucketArray {
    counts: ArcSwap<Box<[AtomicU64]>>,
}

/// The counters in the slice that the `ArcSwap` of a `BucketArray` currently points to.
pub uninterp spec fn bucket_values(buckets: BucketArray) -> Seq<u64>;

/// The number of counters in a `BucketArray`.
pub open spec fn counter_count(buckets: BucketArray) -> nat {
    bucket_values(buckets).len()
}

/// Counter `index` of a `BucketArray`.
pub open spec fn counter_at(buckets: BucketArray, index: usize) -> u64 {
    bucket_values(buckets)[index as int]
}

/// The counters of a `BucketArray` with counter `index` one higher.
pub open spec fn counters_bumped(buckets: BucketArray, index: usize) -> Seq<u64> {
    bucket_values(buckets).update(index as int, (bucket_values(buckets)[index as int] + 1) as u64)
}

/// Calls `ArcSwap::from_pointee` on a fresh boxed slice holding one `AtomicU64` per value.
/// Claimed: the new array holds exactly `values`, in order.
#[verifier::external_body]
pub(crate) fn bucket_array_from(values: Vec<u64>) -> (buckets: BucketArray)
    ensures
        bucket_values(buckets) == values@,
{
    BucketArray { counts: ArcSwap::from_pointee(values.into_iter().map(AtomicU64::new).collect()) }
}

/// Calls `ArcSwap::load` and `AtomicU64::load` on counter `index` of the current slice.
/// Claimed: the result is that counter's value.
#[verifier::external_body]
pub(crate) fn bucket_get(buckets: &BucketArray, index: usize) -> (value: u64)
    requires
        index < counter_count(*buckets),
    ensures
        value == counter_at(*buckets, index),
{
    buckets.counts.load()[index].load(Ordering::Acquire)
}

/// Calls `ArcSwap::load` and `AtomicU64::fetch_add(1)` on counter `index` of the current slice.
/// Claimed: that counter goes up by one and no other counter changes. The caller rules out
/// the wrap-around that `fetch_add` would do at `u64::MAX`.
#[verifier::external_body]
pub(crate) fn bucket_add_one(buckets: &mut BucketArray, index: usize)
    requires
        index < counter_count(*old(buckets)),
        counter_at(*old(buckets), index) < u64::MAX,
    ensures
        bucket_values(*final(buckets)) == counters_bumped(*old(buckets), index),
{
    buckets.counts.load()[index].fetch_add(1, Ordering::Relaxed);
}

/// Calls `ArcSwap::store` with a fresh slice holding one `AtomicU64` per value.
/// Claimed: afterwards the array holds exactly `values`, in order.
#[verifier::external_body]
pub(crate) fn bucket_replace(buckets: &mut BucketArray, values: Vec<u64>)
    ensures
        bucket_values(*final(buckets)) == values@,
{
    buckets.counts.store(Arc::new(values.into_iter().map(AtomicU64::new).collect()));
}

/// Calls `ArcSwap::load`, reads every counter with `AtomicU64::load`, and gathers the values
/// with `Itertools::collect_vec`. Claimed: the result lists the counters in order.
#[verifier::external_body]
pub(crate) fn bucket_snapshot(buckets: &BucketArray) -> (values: Vec<u64>)
    ensures
        values@ == bucket_values(*buckets),
{
    buckets.counts.load().iter().map(|count| count.load(Ordering::Acquire)).collect_vec()
}

/// Calls `ArcSwap::load` and takes the length of the current slice.
/// Claimed: the result is the number of counters.
#[verifier::external_body]
pub(crate) fn bucket_len(buckets: &BucketArray) -> (len: usize)
    ensures
        len == counter_count(*buckets),
{
    buckets.counts.load().len()
}

} // verus!
