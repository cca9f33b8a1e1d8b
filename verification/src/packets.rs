//! Wire constants, parse errors, and the packet dispatcher that maps a
//! frame's class, id and payload to a decoded message.

use vstd::prelude::*;

verus! {

/// First byte of the two-byte marker that opens every frame.
pub const SYNC_CHAR_1: u8 = 0xb5;

/// Second byte of the two-byte marker that opens every frame.
pub const SYNC_CHAR_2: u8 = 0x62;

/// Protocol ceiling on a frame's payload length; a header declaring more is
/// treated as a false marker match.
pub const MAX_PAYLOAD_LEN: u16 = 1240;

/// Class byte of acknowledgement messages.
pub const CLASS_ACK: u8 = 5;

/// Message id of the positive acknowledgement.
pub const ID_ACK_ACK: u8 = 1;

/// A per-frame error; never fatal to the parser.
#[derive(Clone, Copy, Debug, PartialEq, Eq, Structural)]
#[allow(inconsistent_fields)]
pub enum ParserError {
    /// The frame's trailing checksum pair did not match the computed one.
    /// Both pairs are reported as little-endian 16-bit values.
    InvalidChecksum { expect: u16, got: u16 },
    /// A known message arrived with a payload of the wrong size.
    InvalidPacketLen { expect: usize, got: usize },
}

/// A decoded message, as handed out by the dispatcher.
#[derive(Debug)]
pub enum PacketRef {
    /// Positive acknowledgement of the message with class `cls` and id `msg`.
    AckAck { cls: u8, msg: u8 },
    /// A message whose class and id are not in the dispatch table; its
    /// payload is handed through uninterpreted.
    Unknown { class: u8, msg_id: u8, payload: Vec<u8> },
}

/// Mathematical image of a decoded message.
pub enum PacketData {
    AckAck { cls: u8, msg: u8 },
    Unknown { class: u8, msg_id: u8, payload: Seq<u8> },
}

impl View for PacketRef {
    type V = PacketData;

    open spec fn view(&self) -> PacketData {
        match self {
            PacketRef::AckAck { cls, msg } => PacketData::AckAck { cls: *cls, msg: *msg },
            PacketRef::Unknown { class, msg_id, payload } => PacketData::Unknown {
                class: *class,
                msg_id: *msg_id,
                payload: payload@,
            },
        }
    }
}

/// What the dispatcher returns for a frame's class, id and payload.
pub open spec fn dispatch_spec(class: u8, msg_id: u8, payload: Seq<u8>) -> Result<
    PacketData,
    ParserError,
> {
    if class == CLASS_ACK && msg_id == ID_ACK_ACK {
        if payload.len() == 2 {
            Ok(PacketData::AckAck { cls: payload[0], msg: payload[1] })
        } else {
            Err(ParserError::InvalidPacketLen { expect: 2, got: payload.len() as usize })
        }
    } else {
        Ok(PacketData::Unknown { class, msg_id, payload })
    }
}

/// Maps a dispatch result to its mathematical image.
pub open spec fn packet_result_view(r: Result<PacketRef, ParserError>) -> Result<
    PacketData,
    ParserError,
> {
    match r {
        Ok(p) => Ok(p@),
        Err(e) => Err(e),
    }
}

/// Dispatches one checksum-validated frame to its decoder: known class/id
/// pairs are decoded, every other pair is reported as an unknown message
/// rather than an error.
pub fn match_packet(class: u8, msg_id: u8, payload: Vec<u8>) -> (r: Result<PacketRef, ParserError>)
    ensures
        packet_result_view(r) == dispatch_spec(class, msg_id, payload@),
{
    if class == CLASS_ACK && msg_id == ID_ACK_ACK {
        if payload.len() == 2 {
            Ok(PacketRef::AckAck { cls: payload[0], msg: payload[1] })
        } else {
            Err(ParserError::InvalidPacketLen { expect: 2, got: payload.len() })
        }
    } else {
        Ok(PacketRef::Unknown { class, msg_id, payload })
    }
}

} // verus!
