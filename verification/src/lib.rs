//! Typed messages for the serial link between a host (computer, phone) and an
//! oRouter node, the wire codecs of the serial hardware, and the overline and
//! point-to-point radio layers.
//!
//! Frames on the serial line are COBS encoded (with the `cobs` crate) and
//! terminated by a zero byte. Every executable function carries a contract
//! proved with Verus.
use vstd::prelude::*;

mod buffers;
pub mod encoding;
pub mod host;
pub mod message;
pub mod overline;
pub mod overline_host;
pub mod p2p;
pub mod random;
mod text;

verus! {

/// Longest payload that one LoRa packet can carry.
pub const MAX_LORA_PAYLOAD_LENGTH: usize = 255;

/// Number of raw IQ bytes a node reports.
pub const RAWIQ_DATA_LENGTH: usize = 2048;

} // verus!
