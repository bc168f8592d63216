//! A verified core for a LAN screen-streaming pipeline: adaptive frame
//! pacing, chunked datagram framing for oversized encoded frames, and
//! receiver-side reassembly of out-of-order, possibly incomplete chunk
//! deliveries.

pub mod capture;
pub mod codec;
pub mod encoder;
pub mod pacer;
pub mod receiver;
pub mod sender;
pub mod wire;
