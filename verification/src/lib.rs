//! A watermarking set: a compact membership tracker for integer identifiers
//! that arrive in a near-monotonic stream.
//!
//! The set keeps a *watermark* (every value strictly below it is known to have
//! been inserted) together with a window of 64-bit buckets that record the
//! values sitting at or above the watermark. Whenever the front bucket of the
//! window fills up completely, it is absorbed into the watermark, so memory
//! stays proportional to the disorder of the stream rather than to the number
//! of values seen.

pub mod bits;
pub mod counting;
pub mod set;

pub use set::WatermarkError;
pub use set::WatermarkSet;
