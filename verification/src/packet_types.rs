use vstd::prelude::*;

use crate::constants::marker_seq;
use crate::endian::{be16, be16_bytes, be32, be32_bytes, read_u16_at, read_u32_at, u16_to_be, u32_to_be};

verus! {

/// Opaque identifier of a remote endpoint; equality defines a peer. The
/// unverified shell around the library maps real socket addresses to these
/// identifiers and back.
pub type PeerAddr = u64;

/// Ghost model of a fully decoded packet: the four header fields plus the
/// opaque payload.
pub ghost struct FullPacket {
    pub addr: PeerAddr,
    pub seq_num: u16,
    pub ack_num: u16,
    pub ack_field: u32,
    pub payload: Seq<u8>,
}

/// The on-wire form of a full packet behind a given marker:
/// `marker || seq_num || ack_num || ack_field || payload`, all header fields
/// big-endian.
pub open spec fn wire_bytes(marker: Seq<u8>, p: FullPacket) -> Seq<u8> {
    marker + be16_bytes(p.seq_num) + be16_bytes(p.ack_num) + be32_bytes(p.ack_field) + p.payload
}

/// What a received buffer decodes to under this protocol's own marker:
/// rejected unless it opens with the marker and is long enough to hold the
/// 11-byte header; otherwise the three header fields read big-endian and the
/// rest of the buffer is the payload.
pub open spec fn parse_full(addr: PeerAddr, bytes: Seq<u8>) -> Option<FullPacket> {
    if bytes.len() >= 11 && bytes.take(3) == marker_seq() {
        Some(
            FullPacket {
                addr,
                seq_num: be16(bytes[3], bytes[4]) as u16,
                ack_num: be16(bytes[5], bytes[6]) as u16,
                ack_field: be32(bytes[7], bytes[8], bytes[9], bytes[10]) as u32,
                payload: bytes.skip(11),
            },
        )
    } else {
        None
    }
}

/// A datagram as it came off the socket: a peer and its raw bytes.
#[derive(Clone, Debug)]
pub struct RawPacket {
    pub addr: PeerAddr,
    pub bytes: Vec<u8>,
}

/// A datagram whose marker has been checked and stripped.
#[derive(Clone)]
pub struct Packet {
    pub addr: PeerAddr,
    pub bytes: Vec<u8>,
}

/// A packet carrying its sequence number.
#[derive(Clone)]
pub struct SequencedPacket {
    pub addr: PeerAddr,
    pub seq_num: u16,
    pub bytes: Vec<u8>,
}

/// A packet carrying sequence number and acknowledgement data: the full
/// logical packet of the protocol.
#[derive(Clone)]
pub struct SequencedAckedPacket {
    pub addr: PeerAddr,
    pub seq_num: u16,
    pub ack_num: u16,
    pub ack_field: u32,
    pub bytes: Vec<u8>,
}

impl View for SequencedAckedPacket {
    type V = FullPacket;

    open spec fn view(&self) -> FullPacket {
        FullPacket {
            addr: self.addr,
            seq_num: self.seq_num,
            ack_num: self.ack_num,
            ack_field: self.ack_field,
            payload: self.bytes@,
        }
    }
}

/// A full packet bundled with the number of times it has been sent.
pub struct PacketWithTries {
    pub packet: SequencedAckedPacket,
    pub tries: i32,
}

impl RawPacket {
    /// Whether the raw bytes open with the given marker.
    pub fn starts_with_marker(&self, marker: &[u8]) -> (r: bool)
        ensures
            r == (self.bytes@.len() >= marker@.len() && self.bytes@.take(marker@.len() as int)
                == marker@),
    {
        if self.bytes.len() < marker.len() {
            return false;
        }
        let mut i: usize = 0;
        while i < marker.len()
            invariant
                i <= marker@.len() <= self.bytes@.len(),
                forall|j: int| 0 <= j < i ==> self.bytes@[j] == marker@[j],
            decreases marker@.len() - i,
        {
            if self.bytes[i] != marker[i] {
                return false;
            }
            i += 1;
        }
        proof {
            assert(self.bytes@.take(marker@.len() as int) =~= marker@);
        }
        true
    }

    /// Strips the marker off the raw bytes, or rejects bytes that do not
    /// open with it.
    pub fn strip_marker(self, marker: &[u8]) -> (r: Option<Packet>)
        ensures
            r is Some <==> (self.bytes@.len() >= marker@.len() && self.bytes@.take(
                marker@.len() as int,
            ) == marker@),
            r matches Some(p) ==> p.addr == self.addr && p.bytes@ == self.bytes@.skip(
                marker@.len() as int,
            ),
    {
        if self.starts_with_marker(marker) {
            let mut rest: Vec<u8> = Vec::new();
            let mut i: usize = marker.len();
            while i < self.bytes.len()
                invariant
                    marker@.len() <= i <= self.bytes@.len(),
                    rest@ == self.bytes@.subrange(marker@.len() as int, i as int),
                decreases self.bytes@.len() - i,
            {
                rest.push(self.bytes[i]);
                i += 1;
            }
            proof {
                assert(rest@ =~= self.bytes@.skip(marker@.len() as int));
            }
            Some(Packet { addr: self.addr, bytes: rest })
        } else {
            None
        }
    }
}

impl Packet {
    /// Attaches a freshly allocated sequence number.
    pub fn add_sequence_number(self, sequence_num: u16) -> (r: SequencedPacket)
        ensures
            r.addr == self.addr,
            r.seq_num == sequence_num,
            r.bytes@ == self.bytes@,
    {
        SequencedPacket { addr: self.addr, seq_num: sequence_num, bytes: self.bytes }
    }

    /// Reads the big-endian sequence number off the front of the bytes.
    pub fn strip_sequence(self) -> (r: SequencedPacket)
        requires
            self.bytes@.len() >= 2,
        ensures
            r.addr == self.addr,
            r.seq_num as int == be16(self.bytes@[0], self.bytes@[1]),
            r.bytes@ == self.bytes@.skip(2),
    {
        let seq_num = read_u16_at(&self.bytes, 0);
        let rest = copy_range(&self.bytes, 2, self.bytes.len());
        SequencedPacket { addr: self.addr, seq_num, bytes: rest }
    }
}

impl SequencedPacket {
    /// Attaches the acknowledgement data of the destination peer.
    pub fn add_acks(self, ack_num: u16, ack_field: u32) -> (r: SequencedAckedPacket)
        ensures
            r.addr == self.addr,
            r.seq_num == self.seq_num,
            r.ack_num == ack_num,
            r.ack_field == ack_field,
            r.bytes@ == self.bytes@,
    {
        SequencedAckedPacket {
            addr: self.addr,
            seq_num: self.seq_num,
            ack_num,
            ack_field,
            bytes: self.bytes,
        }
    }

    /// Reads the big-endian acknowledgement number and field off the front of
    /// the bytes.
    pub fn strip_acks(self) -> (r: SequencedAckedPacket)
        requires
            self.bytes@.len() >= 6,
        ensures
            r.addr == self.addr,
            r.seq_num == self.seq_num,
            r.ack_num as int == be16(self.bytes@[0], self.bytes@[1]),
            r.ack_field as int == be32(self.bytes@[2], self.bytes@[3], self.bytes@[4], self.bytes@[5]),
            r.bytes@ == self.bytes@.skip(6),
    {
        let ack_num = read_u16_at(&self.bytes, 0);
        let ack_field = read_u32_at(&self.bytes, 2);
        let rest = copy_range(&self.bytes, 6, self.bytes.len());
        SequencedAckedPacket {
            addr: self.addr,
            seq_num: self.seq_num,
            ack_num,
            ack_field,
            bytes: rest,
        }
    }
}

impl SequencedAckedPacket {
    /// Frames the packet for the wire: marker, then the three header fields
    /// big-endian, then the payload.
    pub fn serialize(self, marker: &[u8]) -> (r: RawPacket)
        ensures
            r.addr == self.addr,
            r.bytes@ == wire_bytes(marker@, self@),
    {
        let mut out: Vec<u8> = Vec::new();
        let mut i: usize = 0;
        while i < marker.len()
            invariant
                i <= marker@.len(),
                out@ == marker@.take(i as int),
            decreases marker@.len() - i,
        {
            out.push(marker[i]);
            i += 1;
        }
        proof {
            assert(out@ =~= marker@);
        }
        let seq_bytes = u16_to_be(self.seq_num);
        out.push(seq_bytes[0]);
        out.push(seq_bytes[1]);
        let ack_bytes = u16_to_be(self.ack_num);
        out.push(ack_bytes[0]);
        out.push(ack_bytes[1]);
        let field_bytes = u32_to_be(self.ack_field);
        out.push(field_bytes[0]);
        out.push(field_bytes[1]);
        out.push(field_bytes[2]);
        out.push(field_bytes[3]);
        let mut i: usize = 0;
        while i < self.bytes.len()
            invariant
                i <= self.bytes@.len(),
                out@ == marker@ + be16_bytes(self.seq_num) + be16_bytes(self.ack_num)
                    + be32_bytes(self.ack_field) + self.bytes@.take(i as int),
            decreases self.bytes@.len() - i,
        {
            out.push(self.bytes[i]);
            i += 1;
        }
        proof {
            assert(out@ =~= wire_bytes(marker@, self@));
        }
        RawPacket { addr: self.addr, bytes: out }
    }
}

/// Copies the byte range `[from, to)` of `bytes` into a fresh vector.
pub(crate) fn copy_range(bytes: &Vec<u8>, from: usize, to: usize) -> (r: Vec<u8>)
    requires
        from <= to <= bytes@.len(),
    ensures
        r@ == bytes@.subrange(from as int, to as int),
{
    let mut out: Vec<u8> = Vec::new();
    let mut i: usize = from;
    while i < to
        invariant
            from <= i <= to <= bytes@.len(),
            out@ == bytes@.subrange(from as int, i as int),
        decreases to - i,
    {
        out.push(bytes[i]);
        i += 1;
    }
    out
}

} // verus!
