//! Data plane of a peer-to-peer live audio conferencing node.
//!
//! The crate verifies the three layers that make the conference correct in
//! the face of unordered, lossy datagram delivery and independent audio
//! clocks: a per-source jitter ring buffer, a multi-source mixer, and the
//! advertise / request / payload gossip layer with its retransmission cache,
//! together with the binary wire codec. Device and socket I/O live outside
//! the library and drive it with plain values.

pub mod audio;
pub mod mixer;
pub mod packet_layer;
pub mod wire;
pub mod worker;
