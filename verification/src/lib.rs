//! BiWi: a self-describing binary wire format with a companion reliable-UDP
//! packet layer.
//!
//! The codec encodes dynamic, schema-less values (integers, floats, strings,
//! binary blobs, arrays, objects) into a compact byte stream, and decodes
//! such streams back.  The packet layer frames payloads into sequenced
//! datagrams with acknowledgments, duplicate suppression, retransmission
//! bookkeeping and fragment reassembly.

pub mod types;
pub mod value;
pub mod keyed;
pub mod wire;
pub mod encoder;
pub mod decoder;
pub mod message;
pub mod network;
pub mod laws;

pub use types::BiWiType;
pub use value::{BiWiValue, SmallString};
pub use encoder::BiWiEncoder;
pub use decoder::{BiWiDecoder, DecodeError, DecodeResult, DecodedField, ChunkStart, ChunkData};
pub use message::BiWiMessage;
pub use network::{PacketManager, UdpPacket, PacketType, FragmentReassembler, RecvAction};

use vstd::prelude::*;

verus! {

/// The protocol version this crate implements.
pub const VERSION: &'static str = "0.1.0";

} // verus!
