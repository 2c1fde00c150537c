//! A reliability layer for an unreliable datagram transport.
//!
//! The crate holds the protocol core: a per-peer sliding acknowledgement
//! window ([`ack::PeerAcks`]), a packet codec that frames and splits the
//! wire format ([`packet_types`], [`packet_building`], [`packet_splitting`]),
//! a table of sent packets awaiting acknowledgement ([`pending`]), and the
//! director state machine that ties them together ([`director`]).
//! The socket threads that move datagrams in and out live outside the
//! library; they hand decoded packets in and take framed packets out.

pub mod ack;
pub mod constants;
pub mod director;
pub mod endian;
pub mod helpers;
pub mod packet_building;
pub mod packet_splitting;
pub mod packet_types;
pub mod pending;
