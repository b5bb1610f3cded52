//! An Open Sound Control (OSC) 1.0 packet codec.
//!
//! The library models OSC packets (messages and recursively nested,
//! timestamped bundles) and proves that the encoder and the decoder agree:
//! encoding a well-formed packet and decoding the result gives the packet
//! back, and a truncated encoding is rejected rather than misread.
//!
//! Strings travel as byte sequences that must be valid UTF-8; a 32-bit float
//! argument is carried as its IEEE-754 bit pattern, so the codec itself works
//! purely on integers and bytes.
//!
//! Alongside the codec, `broadcaster` holds the subscriber bookkeeping of a
//! small channel fan-out utility; the sockets and channels themselves belong
//! to the application shell around this crate.

pub mod broadcaster;
pub mod bytes;
pub mod data;
pub mod laws;
pub mod receiver;
pub mod sender;
pub mod utf8;
pub mod util;
