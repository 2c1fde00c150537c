use vstd::prelude::*;

use crate::constants::{marker_seq, UDP_MARKER};
use crate::packet_types::{
    wire_bytes, Packet, RawPacket, SequencedAckedPacket, SequencedPacket,
};

verus! {

/// Attaches a freshly allocated sequence number to an outbound payload.
pub fn add_sequence_number(payload: Packet, sequence_num: u16) -> (r: SequencedPacket)
    ensures
        r.addr == payload.addr,
        r.seq_num == sequence_num,
        r.bytes@ == payload.bytes@,
{
    SequencedPacket { addr: payload.addr, seq_num: sequence_num, bytes: payload.bytes }
}

/// Attaches the acknowledgement data owed to the destination peer.
pub fn add_acks(payload: SequencedPacket, ack_num: u16, ack_field: u32) -> (r:
    SequencedAckedPacket)
    ensures
        r.addr == payload.addr,
        r.seq_num == payload.seq_num,
        r.ack_num == ack_num,
        r.ack_field == ack_field,
        r.bytes@ == payload.bytes@,
{
    SequencedAckedPacket {
        addr: payload.addr,
        seq_num: payload.seq_num,
        ack_num,
        ack_field,
        bytes: payload.bytes,
    }
}

/// Frames a full packet for the wire behind this protocol's own marker.
pub fn serialize(payload: SequencedAckedPacket) -> (r: RawPacket)
    ensures
        r.addr == payload.addr,
        r.bytes@ == wire_bytes(marker_seq(), payload@),
{
    proof {
        assert(UDP_MARKER@ =~= marker_seq());
    }
    payload.serialize(UDP_MARKER.as_slice())
}

} // verus!
