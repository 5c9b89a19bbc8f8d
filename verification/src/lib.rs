//! Protocol logic of the Stream Control Transmission Protocol.
//!
//! The library performs no I/O and never reads a clock: callers hand it datagrams, timer
//! expirations and the current time, and take from it the packets to send and the events to act on.

mod buf;
pub mod association;
pub mod chunk;
pub mod config;
pub mod connection;
pub mod endpoint;
pub mod endpoint_laws;
mod error;
pub mod packet;
pub mod param;
pub mod queue;
pub mod shared;
pub mod simulation;
pub mod simulation_laws;
pub mod stream;
mod table;
pub mod time;
pub mod util;

pub use error::Error;
pub use time::Instant;
pub use util::{sna16gt, sna16lt, sna16lte, sna32gt, sna32lt, sna32lte};
