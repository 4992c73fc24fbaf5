//! Session core of a userspace WireGuard tunnel: the Noise IKpsk2 handshake,
//! the mac1/mac2 cookie layer, fixed-layout message codecs, the transport
//! data layer with its replay window, and timer-driven maintenance.
pub mod bytes;
pub mod primitives;
pub mod noise;
pub mod messages;
pub mod mac;
pub mod handshake;
pub mod replay;
pub mod transport;
pub mod timestamp;
pub mod sessions;
