//! Exponential histogram storage with OpenTelemetry-style bucket indices.
mod bucket_array;
pub mod bucket_sums;
pub mod exponential_histogram;
pub mod inner_histogram;
pub mod inner_state;
pub mod otel_index;

pub use exponential_histogram::ExponentialHistogram;
pub use inner_histogram::InnerHistogram;
pub use otel_index::otel_index_from_bits;
