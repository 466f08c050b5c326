//! Eventing primitives for embedded targets.
//!
//! # Highlights
//! - Lock-free sequence ring for one producer and one consumer, for
//!   high-throughput telemetry.
//! - No allocation, no dynamic dispatch.
//! - Designed for fast producers and potentially slower consumers.
//!
//! # Semantics
//! - Sequence numbers are monotonically increasing `u32` values; `0` is reserved for "empty".
//! - `poll_one`/`poll_up_to` drain in-order and return `PollStats`.
//! - `latest` reads the newest value without advancing the consumer cursor.
//! - If the consumer lags by more than `N`, it skips ahead and reports drops via `PollStats`.
//! - `producer()`/`consumer()` return `None` while another handle of the same
//!   kind is live; `release()` gives a handle back.

pub mod model;
pub mod seq_ring;
pub mod sequence;
pub mod trusted;

pub use seq_ring::Consumer;
pub use seq_ring::PollStats;
pub use seq_ring::Producer;
pub use seq_ring::SeqRing;
