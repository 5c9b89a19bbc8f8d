//! Streams: sequences of messages within an association.

pub mod delivery;
pub mod handle;
pub mod laws;
pub mod state;

pub use handle::Stream;
pub use state::{ReliabilityType, StreamEvent, StreamState};
