# exponential_histogram

Bucket storage for OpenTelemetry-style exponential histograms, verified with Verus.

- `src/inner_state.rs` — the abstract state of a bucket array (offset, boundaries, capacity,
  counters), what recording an OTel index does to it, and the laws about it: the invariant is
  kept, every record adds exactly one to the total (values that do not fit are capped into a
  boundary bucket), the count of the recorded index grows by one while nothing else changes
  as long as the span fits, the same over any sequence of records, growth stays below twice
  the span needed, and the nonzero buckets list is ordered and sums to the total.
- `src/inner_histogram.rs` — `InnerHistogram`, the growable array itself, proved against
  that state.
- `src/exponential_histogram.rs` — `ExponentialHistogram`: positive and negative buckets,
  the zero count and the scale, with laws on counting over any sequence of observations.
- `src/otel_index.rs` — the OTel index of a double at scales from -31 to 0, computed from its
  bits, with the downscaling and monotonicity laws.
- `src/bucket_array.rs` — the counters live in an `arc_swap::ArcSwap` of `AtomicU64`s; this
  file holds the trusted wrappers around it.
- `src/bucket_sums.rs` — sums of counters.
- `app/` — the floating-point side: accumulating `f64` values (sum, min, max, zero
  threshold, index at positive scales), bucket bounds, formatting, and the mutex-shared
  histogram.
