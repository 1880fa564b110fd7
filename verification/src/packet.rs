//! Decoded trace packets and their mathematical model.

use vstd::prelude::*;

verus! {

/// A fully decoded unit of the trace stream.  Every packet the decoder
/// emits is complete and self-consistent: a payload is never handed out
/// half-filled.
#[derive(Debug, PartialEq)]
pub enum TracePacket {
    /// Stream synchronization marker (no payload).
    Sync,
    /// The trace source dropped data (no payload).
    Overflow,
    /// Relative timestamp.  `tc` is a 0-3 encoding of clock-tick delay
    /// context; `ts` is the value reassembled from 7-bit continuation
    /// groups, least-significant group first on the wire.
    TimeStamp { tc: usize, ts: usize },
    /// Software instrumentation data from stimulus port `id`; the payload
    /// is 1, 2 or 4 bytes, in wire order.
    ItmData { id: usize, payload: Vec<u8> },
    /// Hardware event data; `id` discriminates the comparator or event
    /// source, and the payload follows the same size rule as `ItmData`.
    DwtData { id: usize, payload: Vec<u8> },
    /// Vendor-defined extension packet, 1 to 5 bytes including the header.
    Extension { data: Vec<u8> },
    /// Reserved packet, with the same size rule as `Extension`.
    Reserved { data: Vec<u8> },
}

/// The model of a packet: payloads as mathematical byte sequences.
pub enum SpecPacket {
    Sync,
    Overflow,
    TimeStamp { tc: usize, ts: usize },
    ItmData { id: usize, payload: Seq<u8> },
    DwtData { id: usize, payload: Seq<u8> },
    Extension { data: Seq<u8> },
    Reserved { data: Seq<u8> },
}

impl View for TracePacket {
    type V = SpecPacket;

    open spec fn view(&self) -> SpecPacket {
        match self {
            TracePacket::Sync => SpecPacket::Sync,
            TracePacket::Overflow => SpecPacket::Overflow,
            TracePacket::TimeStamp { tc, ts } => (SpecPacket::TimeStamp { tc: *tc, ts: *ts }),
            TracePacket::ItmData { id, payload } => (SpecPacket::ItmData {
                id: *id,
                payload: payload@,
            }),
            TracePacket::DwtData { id, payload } => (SpecPacket::DwtData {
                id: *id,
                payload: payload@,
            }),
            TracePacket::Extension { data } => (SpecPacket::Extension { data: data@ }),
            TracePacket::Reserved { data } => (SpecPacket::Reserved { data: data@ }),
        }
    }
}

/// The size rule implied by the packet's header encoding: data payloads
/// are exactly 1, 2 or 4 bytes; extension and reserved packets are 1 to 5
/// bytes including their header byte; a timestamp's delay context fits in
/// two bits.
pub open spec fn packet_wf(p: SpecPacket) -> bool {
    match p {
        SpecPacket::Sync => true,
        SpecPacket::Overflow => true,
        SpecPacket::TimeStamp { tc, ts: _ } => tc <= 3,
        SpecPacket::ItmData { id: _, payload } => payload.len() == 1 || payload.len() == 2
            || payload.len() == 4,
        SpecPacket::DwtData { id: _, payload } => payload.len() == 1 || payload.len() == 2
            || payload.len() == 4,
        SpecPacket::Extension { data } => 1 <= data.len() <= 5,
        SpecPacket::Reserved { data } => 1 <= data.len() <= 5,
    }
}

} // verus!
