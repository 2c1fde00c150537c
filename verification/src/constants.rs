use vstd::prelude::*;

verus! {

/// Fixed three-byte tag ("012") that opens every datagram of this protocol;
/// anything not starting with it is foreign traffic and is discarded.
pub const UDP_MARKER: [u8; 3] = [0x30, 0x31, 0x32];

/// The marker as a sequence, for contracts.
pub open spec fn marker_seq() -> Seq<u8> {
    seq![0x30u8, 0x31u8, 0x32u8]
}

/// Seconds an unacknowledged packet may sit in the pending table before it
/// counts as dropped.
pub const PACKET_DROP_TIME: u64 = 5;

/// A pending packet whose try count has reached this bound is discarded when
/// it times out, rather than retransmitted.
pub const MAX_RESEND_ATTEMPTS: i32 = 5;

} // verus!
