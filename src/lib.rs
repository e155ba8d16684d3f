//! Packetization, pacing and reassembly core for streaming timestamped media
//! units over a datagram transport.
//!
//! - [`codec`]: the `length:u32be || payload` wire format, split into
//!   transport-sized chunks, and its incremental decoder.
//! - [`pacing`]: maps media timestamps onto release deadlines.
//! - [`packetizer`]: send side, pacing plus encoding.
//! - [`reassembler`]: receive side, frames out of an arbitrarily split stream.
//! - [`bridge`]: a bounded FIFO between producer and consumer.
pub mod bridge;
pub mod codec;
pub mod pacing;
pub mod packetizer;
pub mod reassembler;
