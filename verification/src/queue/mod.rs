//! Queues of chunks.

pub mod laws;
pub mod payload_queue;
pub mod reassembly_queue;
pub mod total;
