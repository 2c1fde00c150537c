use vstd::prelude::*;

use crate::constants::{marker_seq, UDP_MARKER};
use crate::endian::{be16, be32, lemma_be16_roundtrip, lemma_be32_roundtrip, read_u16_at, read_u32_at};
use crate::packet_types::{
    copy_range, parse_full, wire_bytes, FullPacket, Packet, PeerAddr, RawPacket, SequencedAckedPacket,
    SequencedPacket,
};

verus! {

/// Strips the three marker bytes off a full receive buffer. The buffer is
/// the fixed-size block the socket read into, so it is at least 256 bytes;
/// everything past the marker window is carried along as payload bytes.
pub fn strip_marker(payload: RawPacket) -> (r: Packet)
    requires
        payload.bytes@.len() >= 256,
    ensures
        r.addr == payload.addr,
        r.bytes@ == payload.bytes@.subrange(3, 256),
{
    Packet { addr: payload.addr, bytes: copy_range(&payload.bytes, 3, 256) }
}

/// Reads the big-endian sequence number off the front of a marker-stripped
/// fixed buffer.
pub fn strip_sequence(payload: Packet) -> (r: SequencedPacket)
    requires
        payload.bytes@.len() >= 253,
    ensures
        r.addr == payload.addr,
        r.seq_num as int == be16(payload.bytes@[0], payload.bytes@[1]),
        r.bytes@ == payload.bytes@.subrange(2, 253),
{
    let seq_num = read_u16_at(&payload.bytes, 0);
    SequencedPacket {
        addr: payload.addr,
        seq_num,
        bytes: copy_range(&payload.bytes, 2, 253),
    }
}

/// Reads the big-endian acknowledgement number and field off the front of a
/// sequenced fixed buffer.
pub fn strip_acks(payload: SequencedPacket) -> (r: SequencedAckedPacket)
    requires
        payload.bytes@.len() >= 251,
    ensures
        r.addr == payload.addr,
        r.seq_num == payload.seq_num,
        r.ack_num as int == be16(payload.bytes@[0], payload.bytes@[1]),
        r.ack_field as int == be32(
            payload.bytes@[2],
            payload.bytes@[3],
            payload.bytes@[4],
            payload.bytes@[5],
        ),
        r.bytes@ == payload.bytes@.subrange(6, 251),
{
    let ack_num = read_u16_at(&payload.bytes, 0);
    let ack_field = read_u32_at(&payload.bytes, 2);
    SequencedAckedPacket {
        addr: payload.addr,
        seq_num: payload.seq_num,
        ack_num,
        ack_field,
        bytes: copy_range(&payload.bytes, 6, 251),
    }
}

/// Decodes one received datagram: rejects anything that does not open with
/// this protocol's marker or is too short to hold the 11-byte header, and
/// otherwise peels marker, sequence number and acknowledgement data in turn.
pub fn decode(packet: RawPacket) -> (r: Option<SequencedAckedPacket>)
    ensures
        match r {
            Some(full) => parse_full(packet.addr, packet.bytes@) == Some(full@),
            None => parse_full(packet.addr, packet.bytes@) is None,
        },
{
    let ghost addr = packet.addr;
    let ghost bytes = packet.bytes@;
    if packet.bytes.len() < 11 {
        return None;
    }
    proof {
        assert(UDP_MARKER@ =~= marker_seq());
    }
    match packet.strip_marker(UDP_MARKER.as_slice()) {
        None => {
            proof {
                assert(bytes.take(3) != marker_seq());
            }
            None
        },
        Some(p) => {
            let s = p.strip_sequence();
            let full = s.strip_acks();
            proof {
                let rest = bytes.skip(3);
                assert(rest.skip(2) =~= bytes.skip(5));
                assert(bytes.skip(5).skip(6) =~= bytes.skip(11));
                assert(full@ == parse_full(addr, bytes).unwrap());
            }
            Some(full)
        },
    }
}

/// Framing then decoding gives back the packet: for every full packet whose
/// payload fits the 245-byte ceiling, parsing its wire form under this
/// protocol's marker returns exactly the packet.
pub proof fn lemma_round_trip(p: FullPacket)
    requires
        p.payload.len() <= 245,
    ensures
        parse_full(p.addr, wire_bytes(marker_seq(), p)) == Some(p),
{
    let w = wire_bytes(marker_seq(), p);
    assert(w.take(3) =~= marker_seq());
    lemma_be16_roundtrip(p.seq_num);
    lemma_be16_roundtrip(p.ack_num);
    lemma_be32_roundtrip(p.ack_field);
    assert(w.skip(11) =~= p.payload);
    let parsed = parse_full(p.addr, w).unwrap();
    assert(parsed == p);
}

/// Marker gating: a buffer that does not open with the protocol's
/// three-byte marker never decodes.
pub proof fn lemma_marker_gating(addr: PeerAddr, bytes: Seq<u8>)
    requires
        !(bytes.len() >= 3 && bytes.take(3) == marker_seq()),
    ensures
        parse_full(addr, bytes) is None,
{
}

} // verus!
