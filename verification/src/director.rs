use vstd::prelude::*;
use vstd::slice::slice_index_get;

use std::collections::HashMap;

use crate::ack::{seq_back, PeerAcks};
use crate::constants::MAX_RESEND_ATTEMPTS;
use crate::packet_types::{copy_range, Packet, PacketWithTries, PeerAddr, SequencedAckedPacket};
use crate::pending::{
    expired_of, is_expired, key_matches, seq_has_key, seq_index_of, seq_wf, surviving,
    PendingEntry, PendingTable,
};

verus! {

broadcast use vstd::std_specs::hash::group_hash_axioms;

/// The acknowledgement window on record for a peer, or the empty window for
/// a peer not yet heard from.
pub open spec fn acks_for(m: Map<PeerAddr, PeerAcks>, addr: PeerAddr) -> PeerAcks {
    if m.contains_key(addr) {
        m[addr]
    } else {
        PeerAcks { ack_num: 0, ack_field: 0 }
    }
}

/// The send counter on record for a peer, or zero for a peer not yet
/// written to.
pub open spec fn counter_for(m: Map<PeerAddr, u16>, addr: PeerAddr) -> u16 {
    if m.contains_key(addr) {
        m[addr]
    } else {
        0
    }
}

/// The wrapping successor of a send counter value.
pub open spec fn next_seq(prev: u16) -> u16 {
    if prev == 0xffff {
        0u16
    } else {
        (prev + 1) as u16
    }
}

/// Whether a received full packet acknowledges the pending key
/// `(addr, seq)` through a field bit below `bound`: bit `i` of the ack field
/// acknowledges `ack_num - (i + 1)` (mod 2^16).
pub open spec fn acked_below(
    packet: SequencedAckedPacket,
    addr: PeerAddr,
    seq: u16,
    bound: u32,
) -> bool {
    addr == packet.addr && exists|i: u32|
        i < bound && (packet.ack_field >> i) & 1 == 1 && seq == seq_back(
            packet.ack_num,
            (i + 1) as u16,
        )
}

/// Whether a received full packet acknowledges the pending key
/// `(addr, seq)`: directly through its `ack_num`, or through a set bit of
/// its 32-bit ack field.
pub open spec fn is_acked_by(packet: SequencedAckedPacket, addr: PeerAddr, seq: u16) -> bool {
    (addr == packet.addr && seq == packet.ack_num) || acked_below(packet, addr, seq, 32)
}

/// Whether any packet of `inbound` acknowledges the pending key
/// `(addr, seq)`.
pub open spec fn acked_by_any(
    inbound: Seq<SequencedAckedPacket>,
    addr: PeerAddr,
    seq: u16,
) -> bool {
    exists|j: int| 0 <= j < inbound.len() && is_acked_by(#[trigger] inbound[j], addr, seq)
}

/// The acknowledgement windows after folding in each received packet's
/// sequence number, in arrival order.
pub open spec fn ack_map_folded(
    m: Map<PeerAddr, PeerAcks>,
    ins: Seq<SequencedAckedPacket>,
) -> Map<PeerAddr, PeerAcks>
    decreases ins.len(),
{
    if ins.len() == 0 {
        m
    } else {
        ack_map_folded(
            m.insert(ins[0].addr, acks_for(m, ins[0].addr).with_seq_num(ins[0].seq_num)),
            ins.drop_first(),
        )
    }
}

/// Whether some framed packet of `wire` carries the pending key
/// `(addr, seq)`.
pub open spec fn wire_has_key(wire: Seq<SequencedAckedPacket>, addr: PeerAddr, seq: u16) -> bool {
    exists|k: int| 0 <= k < wire.len() && (#[trigger] wire[k]).addr == addr && wire[k].seq_num == seq
}

/// Whether a pending entry is due for retransmission in an iteration that
/// received `inbound` and runs at `now`: it has timed out, has tries left,
/// and no inbound packet acknowledged it.
pub open spec fn is_retry_due(
    e: PendingEntry,
    inbound: Seq<SequencedAckedPacket>,
    now: u64,
) -> bool {
    is_expired(e, now) && e.tries < MAX_RESEND_ATTEMPTS && !acked_by_any(
        inbound,
        e.packet.addr,
        e.packet.seq_num,
    )
}

/// The dropped units that still have tries left and so go back to the
/// wire, in order.
pub open spec fn resendable(dropped: Seq<PacketWithTries>) -> Seq<PacketWithTries>
    decreases dropped.len(),
{
    if dropped.len() == 0 {
        Seq::empty()
    } else {
        let rest = resendable(dropped.drop_last());
        if dropped.last().tries < MAX_RESEND_ATTEMPTS {
            rest.push(dropped.last())
        } else {
            rest
        }
    }
}

/// Whether the framed packet `u` restates some pending entry that was due
/// for retransmission: timed out, tries left, not acknowledged this
/// iteration. Kept opaque so that reasoning about it is explicit.
#[verifier::opaque]
pub open spec fn restates_due_entry(
    pending: Seq<PendingEntry>,
    inbound: Seq<SequencedAckedPacket>,
    now: u64,
    u: SequencedAckedPacket,
) -> bool {
    exists|i0: int|
        0 <= i0 < pending.len() && is_retry_due(#[trigger] pending[i0], inbound, now) && u.addr
            == pending[i0].packet.addr && u.bytes@ == pending[i0].packet.bytes@
}

/// The send counters after a run of sends: each framed packet leaves its
/// sequence number as its peer's counter.
pub open spec fn counters_after(
    m: Map<PeerAddr, u16>,
    sent: Seq<SequencedAckedPacket>,
) -> Map<PeerAddr, u16>
    decreases sent.len(),
{
    if sent.len() == 0 {
        m
    } else {
        counters_after(m.insert(sent[0].addr, sent[0].seq_num), sent.drop_first())
    }
}

/// Whether a run of sends allocated its sequence numbers correctly: each
/// framed packet carries the wrapping successor of its peer's counter as it
/// stood just before that send.
pub open spec fn seqs_allocated(m: Map<PeerAddr, u16>, sent: Seq<SequencedAckedPacket>) -> bool
    decreases sent.len(),
{
    if sent.len() == 0 {
        true
    } else {
        sent[0].seq_num == next_seq(counter_for(m, sent[0].addr)) && seqs_allocated(
            m.insert(sent[0].addr, sent[0].seq_num),
            sent.drop_first(),
        )
    }
}

/// Appending one send to a run steps the counter fold by one.
pub proof fn lemma_send_fold_push(
    m: Map<PeerAddr, u16>,
    sent: Seq<SequencedAckedPacket>,
    x: SequencedAckedPacket,
)
    ensures
        counters_after(m, sent.push(x)) == counters_after(m, sent).insert(x.addr, x.seq_num),
        seqs_allocated(m, sent.push(x)) == (seqs_allocated(m, sent) && x.seq_num == next_seq(
            counter_for(counters_after(m, sent), x.addr),
        )),
    decreases sent.len(),
{
    let snoc = sent.push(x);
    assert(snoc.len() == sent.len() + 1);
    if sent.len() == 0 {
        assert(snoc[0] == x);
        assert(snoc.drop_first() =~= sent);
        assert(counters_after(m, snoc) == counters_after(m.insert(x.addr, x.seq_num), sent));
        assert(seqs_allocated(m, snoc) == (x.seq_num == next_seq(counter_for(m, x.addr))
            && seqs_allocated(m.insert(x.addr, x.seq_num), sent)));
    } else {
        assert(snoc[0] == sent[0]);
        assert(snoc.drop_first() =~= sent.drop_first().push(x));
        let m1 = m.insert(sent[0].addr, sent[0].seq_num);
        assert(counters_after(m, snoc) == counters_after(m1, sent.drop_first().push(x)));
        assert(seqs_allocated(m, snoc) == (sent[0].seq_num == next_seq(counter_for(m, sent[0].addr))
            && seqs_allocated(m1, sent.drop_first().push(x))));
        lemma_send_fold_push(m1, sent.drop_first(), x);
        assert(counters_after(m, sent) == counters_after(m1, sent.drop_first()));
        assert(seqs_allocated(m, sent) == (sent[0].seq_num == next_seq(counter_for(m, sent[0].addr))
            && seqs_allocated(m1, sent.drop_first())));
    }
}

/// Everything one director iteration promises, with the send time `now`
/// explicit. `pre`/`post` are the director state before and after, `inbound`
/// the decoded packets drained from the socket, `to_send` the application
/// payloads drained from the write channel, `to_app` what is delivered to
/// the application and `wire` what is emitted for the wire, retransmissions
/// first.
pub open spec fn iteration_post(
    pre: DirectorModel,
    post: DirectorModel,
    inbound: Seq<SequencedAckedPacket>,
    to_send: Seq<Packet>,
    to_app: Seq<Packet>,
    wire: Seq<SequencedAckedPacket>,
    now: u64,
) -> bool {
    let am1 = ack_map_folded(pre.ack_windows, inbound);
    let cut = wire.len() - to_send.len();
    // the pending table stays well-formed: unique keys, try counts in [1, MAX_RESEND_ATTEMPTS]
    &&& seq_wf(post.pending)
    // every inbound payload is delivered to the application, in arrival order
    &&& to_app.len() == inbound.len()
    &&& forall|j: int|
        0 <= j < inbound.len() ==> (#[trigger] to_app[j]).addr == inbound[j].addr
            && to_app[j].bytes@ == inbound[j].bytes@
    // the acknowledgement windows fold in every inbound sequence number
    &&& post.ack_windows == am1
    // each emitted packet takes the wrapping successor of its peer's counter
    &&& seqs_allocated(pre.seq_counters, wire)
    &&& post.seq_counters == counters_after(pre.seq_counters, wire)
    // each emitted packet carries the acknowledgement data owed after phase 1
    &&& forall|k: int|
        0 <= k < wire.len() ==> (#[trigger] wire[k]).ack_num == acks_for(am1, wire[k].addr).ack_num
            && wire[k].ack_field == acks_for(am1, wire[k].addr).ack_field
    // each emitted packet is on record as pending, stamped with the send time
    &&& forall|k: int|
        0 <= k < wire.len() ==> seq_has_key(post.pending, (#[trigger] wire[k]).addr, wire[k].seq_num)
            && post.pending[seq_index_of(post.pending, wire[k].addr, wire[k].seq_num)].enqueue_time
            == now
    // the pending table holds exactly: the old entries that were neither
    // acknowledged nor expired, plus one entry per emitted packet
    &&& forall|a: PeerAddr, s: u16|
        seq_has_key(post.pending, a, s) <==> ((seq_has_key(pre.pending, a, s) && !acked_by_any(
            inbound,
            a,
            s,
        ) && !is_expired(pre.pending[seq_index_of(pre.pending, a, s)], now)) || wire_has_key(
            wire,
            a,
            s,
        ))
    &&& forall|a: PeerAddr, s: u16|
        seq_has_key(post.pending, a, s) && !wire_has_key(wire, a, s)
            ==> post.pending[seq_index_of(post.pending, a, s)] == pre.pending[seq_index_of(
            pre.pending,
            a,
            s,
        )]
    // the wire carries the retransmissions first, then every application send
    &&& wire.len() >= to_send.len()
    &&& forall|i: int|
        0 <= i < to_send.len() ==> (#[trigger] wire[cut + i]).addr == to_send[i].addr && wire[cut
            + i].bytes@ == to_send[i].bytes@
    // each retransmission restates an old entry that timed out with tries
    // left and was not acknowledged this iteration
    &&& forall|k: int| 0 <= k < cut ==> restates_due_entry(pre.pending, inbound, now, #[trigger] wire[k])
    // and every such entry is retransmitted
    &&& forall|i: int|
        0 <= i < pre.pending.len() && is_retry_due(#[trigger] pre.pending[i], inbound, now)
            ==> exists|k: int|
            0 <= k < cut && (#[trigger] wire[k]).addr == pre.pending[i].packet.addr && wire[k].bytes@
                == pre.pending[i].packet.bytes@
}

/// Bounded retransmission: after any iteration, every pending record counts
/// between 1 and `MAX_RESEND_ATTEMPTS` transmissions of its packet; every
/// retransmitted unit restates an entry that still had tries left; and an
/// entry that timed out with no tries left leaves the table without being
/// re-sent under its key.
pub proof fn lemma_at_most_n_attempts(
    pre: DirectorModel,
    post: DirectorModel,
    inbound: Seq<SequencedAckedPacket>,
    to_send: Seq<Packet>,
    to_app: Seq<Packet>,
    wire: Seq<SequencedAckedPacket>,
    now: u64,
)
    requires
        iteration_post(pre, post, inbound, to_send, to_app, wire, now),
    ensures
        forall|i: int|
            0 <= i < post.pending.len() ==> 1 <= (#[trigger] post.pending[i]).tries
                <= MAX_RESEND_ATTEMPTS,
        forall|k: int|
            0 <= k < wire.len() - to_send.len() ==> restates_due_entry(
                pre.pending,
                inbound,
                now,
                #[trigger] wire[k],
            ),
        forall|a: PeerAddr, s: u16|
            seq_has_key(pre.pending, a, s) && is_expired(
                pre.pending[seq_index_of(pre.pending, a, s)],
                now,
            ) && !wire_has_key(wire, a, s) ==> !seq_has_key(post.pending, a, s),
{
}

/// Increments the peer's send counter, wrapping, and hands back the new
/// value: the sequence number of the packet about to go out. The first
/// packet to a peer therefore carries sequence number 1.
pub fn increment_seq_number(seq_num_map: &mut HashMap<PeerAddr, u16>, addr: PeerAddr) -> (r: u16)
    ensures
        r == next_seq(counter_for(old(seq_num_map)@, addr)),
        final(seq_num_map)@ == old(seq_num_map)@.insert(addr, r),
{
    let prev: u16 = match seq_num_map.get(&addr) {
        Some(v) => *v,
        None => 0,
    };
    let next = prev.wrapping_add(1);
    seq_num_map.insert(addr, next);
    next
}

/// Folds a received sequence number into the peer's acknowledgement window,
/// starting a fresh window for a peer not yet heard from.
pub fn add_packet_to_ack_map(
    addr: PeerAddr,
    seq_num: u16,
    ack_map: &mut HashMap<PeerAddr, PeerAcks>,
)
    ensures
        final(ack_map)@ == old(ack_map)@.insert(
            addr,
            acks_for(old(ack_map)@, addr).with_seq_num(seq_num),
        ),
{
    let mut acks: PeerAcks = match ack_map.get(&addr) {
        Some(a) => *a,
        None => PeerAcks { ack_num: 0, ack_field: 0 },
    };
    acks.add_seq_num(seq_num);
    ack_map.insert(addr, acks);
}

/// Clears from the pending table every key the received packet
/// acknowledges: `(addr, ack_num)` itself and `(addr, ack_num - (i + 1))`
/// for each set bit `i` of its ack field. Every other entry stays untouched.
pub fn delete_acked_packets(
    packet: &SequencedAckedPacket,
    packets_awaiting_ack: &mut PendingTable,
)
    requires
        old(packets_awaiting_ack).wf(),
    ensures
        final(packets_awaiting_ack).wf(),
        forall|a: PeerAddr, s: u16|
            #![trigger final(packets_awaiting_ack).has_key(a, s)]
            #![trigger old(packets_awaiting_ack).has_key(a, s)]
            final(packets_awaiting_ack).has_key(a, s) <==> (old(packets_awaiting_ack).has_key(a, s)
                && !is_acked_by(*packet, a, s)),
        forall|a: PeerAddr, s: u16| #[trigger]
            final(packets_awaiting_ack).has_key(a, s) ==> final(packets_awaiting_ack).entry_for(
                a,
                s,
            ) == old(packets_awaiting_ack).entry_for(a, s),
{
    let ghost pre = *packets_awaiting_ack;
    let mut idx: u32 = 0;
    while idx < 32
        invariant
            idx <= 32,
            packets_awaiting_ack.wf(),
            forall|a: PeerAddr, s: u16|
                packets_awaiting_ack.has_key(a, s) <==> (pre.has_key(a, s) && !acked_below(
                    *packet,
                    a,
                    s,
                    idx,
                )),
            forall|a: PeerAddr, s: u16| #[trigger]
                packets_awaiting_ack.has_key(a, s) ==> packets_awaiting_ack.entry_for(a, s)
                    == pre.entry_for(a, s),
        decreases 32 - idx,
    {
        let ghost before = *packets_awaiting_ack;
        let bit_set = (packet.ack_field >> idx) & 1 == 1;
        let ghost target_seq = seq_back(packet.ack_num, (idx + 1) as u16);
        if bit_set {
            let target = packet.ack_num.wrapping_sub((idx as u16) + 1);
            proof {
                assert(target == target_seq);
            }
            packets_awaiting_ack.remove_key(packet.addr, target);
        }
        proof {
            assert forall|a: PeerAddr, s: u16|
                packets_awaiting_ack.has_key(a, s) <==> (before.has_key(a, s) && !(bit_set && a
                    == packet.addr && s == target_seq)) by {
                if bit_set {
                    assert(packets_awaiting_ack.has_key(a, s) <==> (before.has_key(a, s) && !(a
                        == packet.addr && s == target_seq)));
                }
            }
            assert forall|a: PeerAddr, s: u16|
                acked_below(*packet, a, s, (idx + 1) as u32) == (acked_below(*packet, a, s, idx) || (
                bit_set && a == packet.addr && s == seq_back(packet.ack_num, (idx + 1) as u16)
                )) by {
                if acked_below(*packet, a, s, (idx + 1) as u32) {
                    let i = choose|i: u32|
                        i < idx + 1 && (packet.ack_field >> i) & 1 == 1 && s == seq_back(
                            packet.ack_num,
                            (i + 1) as u16,
                        ) && a == packet.addr;
                    if i < idx {
                        assert(acked_below(*packet, a, s, idx));
                    }
                }
                if acked_below(*packet, a, s, idx) {
                    let i = choose|i: u32|
                        i < idx && (packet.ack_field >> i) & 1 == 1 && s == seq_back(
                            packet.ack_num,
                            (i + 1) as u16,
                        ) && a == packet.addr;
                    assert(i < idx + 1);
                    assert(acked_below(*packet, a, s, (idx + 1) as u32));
                }
                if bit_set && a == packet.addr && s == seq_back(packet.ack_num, (idx + 1) as u16) {
                    assert((packet.ack_field >> idx) & 1 == 1 && idx < idx + 1);
                    assert(acked_below(*packet, a, s, (idx + 1) as u32));
                }
            }
            assert forall|a: PeerAddr, s: u16|
                packets_awaiting_ack.has_key(a, s) <==> (pre.has_key(a, s) && !acked_below(
                    *packet,
                    a,
                    s,
                    (idx + 1) as u32,
                )) by {
                assert(before.has_key(a, s) <==> (pre.has_key(a, s) && !acked_below(
                    *packet,
                    a,
                    s,
                    idx,
                )));
            }
            assert forall|a: PeerAddr, s: u16| #[trigger]
                packets_awaiting_ack.has_key(a, s) implies packets_awaiting_ack.entry_for(a, s)
                == pre.entry_for(a, s) by {
                assert(before.has_key(a, s));
                if bit_set {
                    assert(packets_awaiting_ack.entry_for(a, s) == before.entry_for(a, s));
                }
                assert(before.entry_for(a, s) == pre.entry_for(a, s));
            }
        }
        idx += 1;
    }
    packets_awaiting_ack.remove_key(packet.addr, packet.ack_num);
}

/// Inserts a fresh pending entry for a packet that is about to be sent for
/// the `tries + 1`-th time, stamped with the send time.
pub fn add_packet_to_waiting(
    packet: &SequencedAckedPacket,
    tries: i32,
    packets_awaiting_ack: &mut PendingTable,
    now: u64,
)
    requires
        old(packets_awaiting_ack).wf(),
        0 <= tries < MAX_RESEND_ATTEMPTS,
    ensures
        final(packets_awaiting_ack).wf(),
        forall|a: PeerAddr, s: u16|
            final(packets_awaiting_ack).has_key(a, s) <==> (old(packets_awaiting_ack).has_key(a, s)
                || (a == packet.addr && s == packet.seq_num)),
        final(packets_awaiting_ack).entry_for(packet.addr, packet.seq_num).packet@ == packet@,
        final(packets_awaiting_ack).entry_for(packet.addr, packet.seq_num).enqueue_time == now,
        final(packets_awaiting_ack).entry_for(packet.addr, packet.seq_num).tries == tries + 1,
        forall|a: PeerAddr, s: u16|
            old(packets_awaiting_ack).has_key(a, s) && !(a == packet.addr && s == packet.seq_num)
                ==> final(packets_awaiting_ack).entry_for(a, s) == old(
                packets_awaiting_ack,
            ).entry_for(a, s),
{
    packets_awaiting_ack.insert(packet, now, tries + 1);
}

/// Takes every expired entry out of the pending table, handing each back
/// with its packet and its current try count.
pub fn extract_dropped_packets(packets_awaiting_ack: &mut PendingTable, now: u64) -> (r: Vec<
    PacketWithTries,
>)
    requires
        old(packets_awaiting_ack).wf(),
    ensures
        final(packets_awaiting_ack)@ == surviving(old(packets_awaiting_ack)@, now),
        final(packets_awaiting_ack).wf(),
        r@.len() == expired_of(old(packets_awaiting_ack)@, now).len(),
        forall|k: int|
            0 <= k < r@.len() ==> (#[trigger] r@[k]).packet == expired_of(
                old(packets_awaiting_ack)@,
                now,
            )[k].packet && r@[k].tries == expired_of(old(packets_awaiting_ack)@, now)[k].tries,
{
    packets_awaiting_ack.extract_expired(now)
}

/// Chains the three phases' views of the pending table: afterwards it holds
/// exactly the old entries that were neither acknowledged nor expired, plus
/// whatever the send phase inserted, and the survivors are untouched.
proof fn lemma_iteration_pending(
    pre_table: PendingTable,
    ph1_table: PendingTable,
    ph2_table: PendingTable,
    final_table: PendingTable,
    inbound: Seq<SequencedAckedPacket>,
    wire: Seq<SequencedAckedPacket>,
    now: u64,
)
    requires
        pre_table.wf(),
        ph1_table.wf(),
        ph2_table@ == surviving(ph1_table@, now),
        forall|a: PeerAddr, s: u16|
            ph1_table.has_key(a, s) <==> (pre_table.has_key(a, s) && !acked_by_any(inbound, a, s)),
        forall|a: PeerAddr, s: u16| #[trigger]
            ph1_table.has_key(a, s) ==> ph1_table.entry_for(a, s) == pre_table.entry_for(a, s),
        forall|a: PeerAddr, s: u16|
            final_table.has_key(a, s) <==> (ph2_table.has_key(a, s) || wire_has_key(wire, a, s)),
        forall|a: PeerAddr, s: u16|
            final_table.has_key(a, s) && !wire_has_key(wire, a, s) ==> final_table.entry_for(a, s)
                == ph2_table.entry_for(a, s),
    ensures
        forall|a: PeerAddr, s: u16|
            seq_has_key(final_table@, a, s) <==> ((seq_has_key(pre_table@, a, s) && !acked_by_any(
                inbound,
                a,
                s,
            ) && !is_expired(pre_table@[seq_index_of(pre_table@, a, s)], now)) || wire_has_key(
                wire,
                a,
                s,
            )),
        forall|a: PeerAddr, s: u16|
            seq_has_key(final_table@, a, s) && !wire_has_key(wire, a, s)
                ==> final_table@[seq_index_of(final_table@, a, s)] == pre_table@[seq_index_of(
                pre_table@,
                a,
                s,
            )],
{
    crate::pending::lemma_expiry_partition(ph1_table@, now);
    assert forall|a: PeerAddr, s: u16|
        seq_has_key(final_table@, a, s) <==> ((seq_has_key(pre_table@, a, s) && !acked_by_any(
            inbound,
            a,
            s,
        ) && !is_expired(pre_table@[seq_index_of(pre_table@, a, s)], now)) || wire_has_key(
            wire,
            a,
            s,
        )) by {
        assert(final_table.has_key(a, s) <==> (ph2_table.has_key(a, s) || wire_has_key(
            wire,
            a,
            s,
        )));
        assert(seq_has_key(surviving(ph1_table@, now), a, s) <==> (seq_has_key(ph1_table@, a, s)
            && !is_expired(ph1_table@[seq_index_of(ph1_table@, a, s)], now)));
        assert(ph1_table.has_key(a, s) <==> (pre_table.has_key(a, s) && !acked_by_any(
            inbound,
            a,
            s,
        )));
        if seq_has_key(ph1_table@, a, s) {
            assert(ph1_table.entry_for(a, s) == pre_table.entry_for(a, s));
        }
    }
    assert forall|a: PeerAddr, s: u16|
        seq_has_key(final_table@, a, s) && !wire_has_key(wire, a, s)
            implies final_table@[seq_index_of(final_table@, a, s)] == pre_table@[seq_index_of(
            pre_table@,
            a,
            s,
        )] by {
        assert(final_table.entry_for(a, s) == ph2_table.entry_for(a, s));
        assert(seq_has_key(surviving(ph1_table@, now), a, s));
        assert(ph2_table.entry_for(a, s) == ph1_table@[seq_index_of(ph1_table@, a, s)]);
        assert(ph1_table.has_key(a, s));
        assert(ph1_table.entry_for(a, s) == pre_table.entry_for(a, s));
    }
}

/// Each resendable unit is one of the dropped units, with tries left.
proof fn lemma_resendable_sound(dropped: Seq<PacketWithTries>)
    ensures
        forall|kk: int|
            0 <= kk < resendable(dropped).len() ==> exists|dk: int|
                0 <= dk < dropped.len() && #[trigger] resendable(dropped)[kk] == dropped[dk]
                    && dropped[dk].tries < MAX_RESEND_ATTEMPTS,
    decreases dropped.len(),
{
    if dropped.len() > 0 {
        let d0 = dropped.drop_last();
        lemma_resendable_sound(d0);
        let rest = resendable(d0);
        assert forall|kk: int| 0 <= kk < resendable(dropped).len() implies exists|dk: int|
            0 <= dk < dropped.len() && #[trigger] resendable(dropped)[kk] == dropped[dk]
                && dropped[dk].tries < MAX_RESEND_ATTEMPTS by {
            if kk < rest.len() {
                let dk = choose|dk: int|
                    0 <= dk < d0.len() && rest[kk] == d0[dk] && d0[dk].tries < MAX_RESEND_ATTEMPTS;
                assert(resendable(dropped)[kk] == dropped[dk]);
                assert(dropped[dk].tries < MAX_RESEND_ATTEMPTS);
            } else {
                assert(resendable(dropped)[kk] == dropped[dropped.len() - 1]);
            }
        }
    }
}

/// Every dropped unit with tries left is among the resendable units.
proof fn lemma_resendable_complete(dropped: Seq<PacketWithTries>)
    ensures
        forall|dk: int|
            0 <= dk < dropped.len() && (#[trigger] dropped[dk]).tries < MAX_RESEND_ATTEMPTS
                ==> exists|kk: int|
                0 <= kk < resendable(dropped).len() && resendable(dropped)[kk] == dropped[dk],
    decreases dropped.len(),
{
    if dropped.len() > 0 {
        let d0 = dropped.drop_last();
        lemma_resendable_complete(d0);
        let rest = resendable(d0);
        assert forall|dk: int|
            0 <= dk < dropped.len() && (#[trigger] dropped[dk]).tries < MAX_RESEND_ATTEMPTS
            implies exists|kk: int|
            0 <= kk < resendable(dropped).len() && resendable(dropped)[kk] == dropped[dk] by {
            if dk < d0.len() {
                assert(d0[dk] == dropped[dk]);
                let kk = choose|kk: int| 0 <= kk < rest.len() && rest[kk] == d0[dk];
                assert(resendable(dropped)[kk] == dropped[dk]);
            } else {
                assert(resendable(dropped)[rest.len() as int] == dropped[dk]);
            }
        }
    }
}

/// Each retransmitted unit restates an old entry that timed out with
/// tries left and was not acknowledged this iteration.
#[verifier::rlimit(100)]
proof fn lemma_retransmissions_sound(
    pre_table: PendingTable,
    ph1_table: PendingTable,
    dropped: Seq<PacketWithTries>,
    inbound: Seq<SequencedAckedPacket>,
    wire1: Seq<SequencedAckedPacket>,
    now: u64,
)
    requires
        pre_table.wf(),
        ph1_table.wf(),
        forall|a: PeerAddr, s: u16|
            ph1_table.has_key(a, s) <==> (pre_table.has_key(a, s) && !acked_by_any(inbound, a, s)),
        forall|a: PeerAddr, s: u16| #[trigger]
            ph1_table.has_key(a, s) ==> ph1_table.entry_for(a, s) == pre_table.entry_for(a, s),
        dropped.len() == expired_of(ph1_table@, now).len(),
        forall|dk: int|
            0 <= dk < dropped.len() ==> (#[trigger] dropped[dk]).packet == expired_of(
                ph1_table@,
                now,
            )[dk].packet && dropped[dk].tries == expired_of(ph1_table@, now)[dk].tries,
        wire1.len() == resendable(dropped).len(),
        forall|kk: int|
            0 <= kk < wire1.len() ==> (#[trigger] wire1[kk]).addr == resendable(
                dropped,
            )[kk].packet.addr && wire1[kk].bytes@ == resendable(dropped)[kk].packet.bytes@,
    ensures
        forall|kk: int|
            0 <= kk < wire1.len() ==> restates_due_entry(
                pre_table@,
                inbound,
                now,
                #[trigger] wire1[kk],
            ),
{
    let ph1 = ph1_table@;
    crate::pending::lemma_expired_sound(ph1, now);
    lemma_resendable_sound(dropped);
    assert forall|kk: int| 0 <= kk < wire1.len() implies restates_due_entry(
        pre_table@,
        inbound,
        now,
        #[trigger] wire1[kk],
    ) by {
        reveal(restates_due_entry);
        let dk = choose|dk: int|
            0 <= dk < dropped.len() && #[trigger] resendable(dropped)[kk] == dropped[dk]
                && dropped[dk].tries < MAX_RESEND_ATTEMPTS;
        let i1 = choose|i1: int|
            0 <= i1 < ph1.len() && #[trigger] expired_of(ph1, now)[dk] == ph1[i1] && is_expired(
                ph1[i1],
                now,
            );
        let e = ph1[i1];
        assert(key_matches(e, e.packet.addr, e.packet.seq_num));
        assert(seq_has_key(ph1, e.packet.addr, e.packet.seq_num));
        assert(pre_table.has_key(e.packet.addr, e.packet.seq_num));
        assert(!acked_by_any(inbound, e.packet.addr, e.packet.seq_num));
        assert(ph1_table.entry_for(e.packet.addr, e.packet.seq_num) == pre_table.entry_for(
            e.packet.addr,
            e.packet.seq_num,
        ));
        let m1 = seq_index_of(ph1, e.packet.addr, e.packet.seq_num);
        assert(key_matches(ph1[m1], e.packet.addr, e.packet.seq_num));
        assert(m1 == i1);
        let i0 = seq_index_of(pre_table@, e.packet.addr, e.packet.seq_num);
        assert(pre_table@[i0] == e);
        assert(is_retry_due(pre_table@[i0], inbound, now));
        assert(wire1[kk].addr == pre_table@[i0].packet.addr);
        assert(wire1[kk].bytes@ == pre_table@[i0].packet.bytes@);
    }
}

/// Every old entry that timed out with tries left and was not acknowledged
/// this iteration is retransmitted.
#[verifier::rlimit(100)]
proof fn lemma_retransmissions_complete(
    pre_table: PendingTable,
    ph1_table: PendingTable,
    dropped: Seq<PacketWithTries>,
    inbound: Seq<SequencedAckedPacket>,
    wire1: Seq<SequencedAckedPacket>,
    now: u64,
)
    requires
        pre_table.wf(),
        ph1_table.wf(),
        forall|a: PeerAddr, s: u16|
            ph1_table.has_key(a, s) <==> (pre_table.has_key(a, s) && !acked_by_any(inbound, a, s)),
        forall|a: PeerAddr, s: u16| #[trigger]
            ph1_table.has_key(a, s) ==> ph1_table.entry_for(a, s) == pre_table.entry_for(a, s),
        dropped.len() == expired_of(ph1_table@, now).len(),
        forall|dk: int|
            0 <= dk < dropped.len() ==> (#[trigger] dropped[dk]).packet == expired_of(
                ph1_table@,
                now,
            )[dk].packet && dropped[dk].tries == expired_of(ph1_table@, now)[dk].tries,
        wire1.len() == resendable(dropped).len(),
        forall|kk: int|
            0 <= kk < wire1.len() ==> (#[trigger] wire1[kk]).addr == resendable(
                dropped,
            )[kk].packet.addr && wire1[kk].bytes@ == resendable(dropped)[kk].packet.bytes@,
    ensures
        forall|i0: int|
            0 <= i0 < pre_table@.len() && is_retry_due(#[trigger] pre_table@[i0], inbound, now)
                ==> exists|kk: int|
                0 <= kk < wire1.len() && (#[trigger] wire1[kk]).addr == pre_table@[i0].packet.addr
                    && wire1[kk].bytes@ == pre_table@[i0].packet.bytes@,
{
    let ph1 = ph1_table@;
    crate::pending::lemma_expired_complete(ph1, now);
    lemma_resendable_complete(dropped);
    assert forall|i0: int|
        0 <= i0 < pre_table@.len() && is_retry_due(#[trigger] pre_table@[i0], inbound, now)
        implies exists|kk: int|
        0 <= kk < wire1.len() && (#[trigger] wire1[kk]).addr == pre_table@[i0].packet.addr
            && wire1[kk].bytes@ == pre_table@[i0].packet.bytes@ by {
        let e = pre_table@[i0];
        assert(key_matches(e, e.packet.addr, e.packet.seq_num));
        assert(seq_has_key(pre_table@, e.packet.addr, e.packet.seq_num));
        assert(ph1_table.has_key(e.packet.addr, e.packet.seq_num));
        assert(ph1_table.entry_for(e.packet.addr, e.packet.seq_num) == pre_table.entry_for(
            e.packet.addr,
            e.packet.seq_num,
        ));
        let i0b = seq_index_of(pre_table@, e.packet.addr, e.packet.seq_num);
        assert(key_matches(pre_table@[i0b], e.packet.addr, e.packet.seq_num));
        assert(i0b == i0);
        let i1 = seq_index_of(ph1, e.packet.addr, e.packet.seq_num);
        assert(ph1[i1] == e);
        assert(is_expired(ph1[i1], now));
        let dk = choose|dk: int|
            0 <= dk < expired_of(ph1, now).len() && #[trigger] expired_of(ph1, now)[dk] == ph1[i1];
        assert(dropped[dk].packet == e.packet);
        assert(dropped[dk].tries == e.tries);
        assert(dropped[dk].tries < MAX_RESEND_ATTEMPTS);
        let kk = choose|kk: int|
            0 <= kk < resendable(dropped).len() && resendable(dropped)[kk] == dropped[dk];
        assert(wire1[kk].addr == dropped[dk].packet.addr);
        assert(wire1[kk].bytes@ == dropped[dk].packet.bytes@);
    }
}

/// Assembles the facts the four phases leave behind into the full iteration
/// contract.
#[verifier::rlimit(100)]
proof fn lemma_iteration_assemble(
    pre: DirectorModel,
    post: DirectorModel,
    pre_table: PendingTable,
    ph1_table: PendingTable,
    ph2_table: PendingTable,
    final_table: PendingTable,
    inbound: Seq<SequencedAckedPacket>,
    to_send: Seq<Packet>,
    to_app: Seq<Packet>,
    dropped: Seq<PacketWithTries>,
    wire1: Seq<SequencedAckedPacket>,
    wire: Seq<SequencedAckedPacket>,
    now: u64,
)
    requires
        pre.pending == pre_table@,
        post.pending == final_table@,
        pre_table.wf(),
        ph1_table.wf(),
        final_table.wf(),
        // phase 1
        forall|a: PeerAddr, s: u16|
            ph1_table.has_key(a, s) <==> (pre_table.has_key(a, s) && !acked_by_any(inbound, a, s)),
        forall|a: PeerAddr, s: u16| #[trigger]
            ph1_table.has_key(a, s) ==> ph1_table.entry_for(a, s) == pre_table.entry_for(a, s),
        post.ack_windows == ack_map_folded(pre.ack_windows, inbound),
        to_app.len() == inbound.len(),
        forall|j: int|
            0 <= j < inbound.len() ==> (#[trigger] to_app[j]).addr == inbound[j].addr
                && to_app[j].bytes@ == inbound[j].bytes@,
        // phase 3
        ph2_table@ == surviving(ph1_table@, now),
        dropped.len() == expired_of(ph1_table@, now).len(),
        forall|dk: int|
            0 <= dk < dropped.len() ==> (#[trigger] dropped[dk]).packet == expired_of(
                ph1_table@,
                now,
            )[dk].packet && dropped[dk].tries == expired_of(ph1_table@, now)[dk].tries,
        // phase 4, retransmissions
        wire1.len() == resendable(dropped).len(),
        forall|kk: int|
            0 <= kk < wire1.len() ==> (#[trigger] wire1[kk]).addr == resendable(
                dropped,
            )[kk].packet.addr && wire1[kk].bytes@ == resendable(dropped)[kk].packet.bytes@,
        // phase 4, application sends appended after the retransmissions
        wire.len() == wire1.len() + to_send.len(),
        wire.take(wire1.len() as int) == wire1,
        forall|ii: int|
            0 <= ii < to_send.len() ==> (#[trigger] wire[wire1.len() + ii]).addr == to_send[ii].addr
                && wire[wire1.len() + ii].bytes@ == to_send[ii].bytes@,
        seqs_allocated(pre.seq_counters, wire),
        post.seq_counters == counters_after(pre.seq_counters, wire),
        forall|kk: int|
            0 <= kk < wire.len() ==> (#[trigger] wire[kk]).ack_num == acks_for(
                post.ack_windows,
                wire[kk].addr,
            ).ack_num && wire[kk].ack_field == acks_for(post.ack_windows, wire[kk].addr).ack_field,
        forall|kk: int|
            0 <= kk < wire.len() ==> final_table.has_key((#[trigger] wire[kk]).addr, wire[kk].seq_num)
                && final_table.entry_for(wire[kk].addr, wire[kk].seq_num).enqueue_time == now,
        forall|a: PeerAddr, s: u16|
            final_table.has_key(a, s) <==> (ph2_table.has_key(a, s) || wire_has_key(wire, a, s)),
        forall|a: PeerAddr, s: u16|
            final_table.has_key(a, s) && !wire_has_key(wire, a, s) ==> final_table.entry_for(a, s)
                == ph2_table.entry_for(a, s),
    ensures
        iteration_post(pre, post, inbound, to_send, to_app, wire, now),
{
    let cut = wire.len() - to_send.len();
    assert(cut == wire1.len());
    lemma_iteration_pending(pre_table, ph1_table, ph2_table, final_table, inbound, wire, now);
    lemma_retransmissions_sound(pre_table, ph1_table, dropped, inbound, wire1, now);
    lemma_retransmissions_complete(pre_table, ph1_table, dropped, inbound, wire1, now);
    assert forall|kk: int| 0 <= kk < cut implies restates_due_entry(
        pre.pending,
        inbound,
        now,
        #[trigger] wire[kk],
    ) by {
        assert(wire[kk] == wire.take(cut as int)[kk]);
        assert(wire[kk] == wire1[kk]);
        assert(restates_due_entry(pre_table@, inbound, now, wire1[kk]));
    }
    assert forall|i0: int|
        0 <= i0 < pre.pending.len() && is_retry_due(#[trigger] pre.pending[i0], inbound, now)
        implies exists|kk: int|
        0 <= kk < cut && (#[trigger] wire[kk]).addr == pre.pending[i0].packet.addr && wire[kk].bytes@
        == pre.pending[i0].packet.bytes@ by {
        let kk = choose|kk: int|
            0 <= kk < wire1.len() && (#[trigger] wire1[kk]).addr == pre.pending[i0].packet.addr
                && wire1[kk].bytes@ == pre.pending[i0].packet.bytes@;
        assert(wire[kk] == wire.take(cut as int)[kk]);
        assert(wire[kk] == wire1[kk]);
    }
    assert forall|kk: int|
        0 <= kk < wire.len() implies seq_has_key(post.pending, (#[trigger] wire[kk]).addr, wire[kk].seq_num)
        && post.pending[seq_index_of(post.pending, wire[kk].addr, wire[kk].seq_num)].enqueue_time
        == now by {
        assert(final_table.has_key(wire[kk].addr, wire[kk].seq_num));
        assert(final_table.entry_for(wire[kk].addr, wire[kk].seq_num).enqueue_time == now);
    }
}

/// The per-process protocol state: one send counter and one acknowledgement
/// window per peer, and the table of sent packets awaiting acknowledgement.
pub struct Director {
    pub seq_num_map: HashMap<PeerAddr, u16>,
    pub ack_map: HashMap<PeerAddr, PeerAcks>,
    pub packets_awaiting_ack: PendingTable,
}

/// Ghost model of the director state.
pub ghost struct DirectorModel {
    pub seq_counters: Map<PeerAddr, u16>,
    pub ack_windows: Map<PeerAddr, PeerAcks>,
    pub pending: Seq<PendingEntry>,
}

impl View for Director {
    type V = DirectorModel;

    open spec fn view(&self) -> DirectorModel {
        DirectorModel {
            seq_counters: self.seq_num_map@,
            ack_windows: self.ack_map@,
            pending: self.packets_awaiting_ack@,
        }
    }
}

impl Director {
    pub open spec fn wf(self) -> bool {
        seq_wf(self@.pending)
    }

    /// A director with no peers on record and nothing pending.
    pub fn new() -> (d: Director)
        ensures
            d.wf(),
            d@.seq_counters == Map::<PeerAddr, u16>::empty(),
            d@.ack_windows == Map::<PeerAddr, PeerAcks>::empty(),
            d@.pending.len() == 0,
    {
        Director {
            seq_num_map: HashMap::new(),
            ack_map: HashMap::new(),
            packets_awaiting_ack: PendingTable::new(),
        }
    }

    /// Phase 1 of an iteration: for each decoded inbound packet, in arrival
    /// order, clear the pending entries it acknowledges, fold its sequence
    /// number into the sender's acknowledgement window, and queue its payload
    /// for the application. Afterwards the pending table holds exactly the
    /// old entries that no inbound packet acknowledged, untouched, so an
    /// acknowledged packet is never retransmitted.
    pub fn handle_incoming(&mut self, inbound: &Vec<SequencedAckedPacket>) -> (to_app: Vec<Packet>)
        requires
            old(self).wf(),
        ensures
            final(self).wf(),
            final(self)@.seq_counters == old(self)@.seq_counters,
            final(self)@.ack_windows == ack_map_folded(old(self)@.ack_windows, inbound@),
            forall|a: PeerAddr, s: u16|
                #![trigger final(self).packets_awaiting_ack.has_key(a, s)]
                #![trigger old(self).packets_awaiting_ack.has_key(a, s)]
                final(self).packets_awaiting_ack.has_key(a, s) <==> (old(
                    self,
                ).packets_awaiting_ack.has_key(a, s) && !acked_by_any(inbound@, a, s)),
            forall|a: PeerAddr, s: u16| #[trigger]
                final(self).packets_awaiting_ack.has_key(a, s) ==> final(self).packets_awaiting_ack
                    .entry_for(a, s) == old(self).packets_awaiting_ack.entry_for(a, s),
            to_app@.len() == inbound@.len(),
            forall|j: int|
                0 <= j < inbound@.len() ==> (#[trigger] to_app@[j]).addr == inbound@[j].addr
                    && to_app@[j].bytes@ == inbound@[j].bytes@,
    {
        let ghost pre_table = self.packets_awaiting_ack;
        let ghost pre = self@;
        let ghost whole = ack_map_folded(pre.ack_windows, inbound@);
        proof {
            assert(inbound@.skip(0) =~= inbound@);
            assert(inbound@.take(0) =~= Seq::<SequencedAckedPacket>::empty());
        }
        let mut to_app: Vec<Packet> = Vec::new();
        let mut j: usize = 0;
        while j < inbound.len()
            invariant
                j <= inbound@.len(),
                self.wf(),
                self@.seq_counters == pre.seq_counters,
                ack_map_folded(self@.ack_windows, inbound@.skip(j as int)) == whole,
                forall|a: PeerAddr, s: u16|
                    self.packets_awaiting_ack.has_key(a, s) <==> (pre_table.has_key(a, s)
                        && !acked_by_any(inbound@.take(j as int), a, s)),
                forall|a: PeerAddr, s: u16| #[trigger]
                    self.packets_awaiting_ack.has_key(a, s) ==> self.packets_awaiting_ack
                        .entry_for(a, s) == pre_table.entry_for(a, s),
                to_app@.len() == j,
                forall|k: int|
                    0 <= k < j ==> (#[trigger] to_app@[k]).addr == inbound@[k].addr
                        && to_app@[k].bytes@ == inbound@[k].bytes@,
            decreases inbound@.len() - j,
        {
            let ghost mid_table = self.packets_awaiting_ack;
            let ghost mid_acks = self.ack_map@;
            let p = slice_index_get(inbound.as_slice(), j);
            proof {
                assert(*p == inbound@[j as int]);
                // the loop-start table in the invariant's own terms
                assert(forall|a: PeerAddr, s: u16|
                    mid_table.has_key(a, s) <==> (pre_table.has_key(a, s) && !acked_by_any(
                        inbound@.take(j as int),
                        a,
                        s,
                    )));
            }
            delete_acked_packets(p, &mut self.packets_awaiting_ack);
            proof {
                // what the deletion left is the loop-start table minus the
                // keys this packet acknowledges
                assert(forall|a: PeerAddr, s: u16|
                    self.packets_awaiting_ack.has_key(a, s) <==> (mid_table.has_key(a, s)
                        && !is_acked_by(*p, a, s)));
            }
            add_packet_to_ack_map(p.addr, p.seq_num, &mut self.ack_map);
            to_app.push(Packet { addr: p.addr, bytes: copy_range(&p.bytes, 0, p.bytes.len()) });
            proof {
                assert(inbound@.skip(j as int)[0] == inbound@[j as int]);
                assert(inbound@.skip(j as int).drop_first() =~= inbound@.skip(j + 1));
                assert(ack_map_folded(mid_acks, inbound@.skip(j as int)) == ack_map_folded(
                    self.ack_map@,
                    inbound@.skip(j + 1),
                ));
                assert forall|a: PeerAddr, s: u16|
                    acked_by_any(inbound@.take(j + 1), a, s) == (acked_by_any(
                    inbound@.take(j as int),
                    a,
                    s,
                ) || is_acked_by(inbound@[j as int], a, s)) by {
                    if acked_by_any(inbound@.take(j + 1), a, s) {
                        let jj = choose|jj: int|
                            0 <= jj < j + 1 && is_acked_by(
                                #[trigger] inbound@.take(j + 1)[jj],
                                a,
                                s,
                            );
                        if jj < j {
                            assert(inbound@.take(j as int)[jj] == inbound@.take(j + 1)[jj]);
                            assert(acked_by_any(inbound@.take(j as int), a, s));
                        } else {
                            assert(inbound@.take(j + 1)[jj] == inbound@[j as int]);
                        }
                    }
                    if acked_by_any(inbound@.take(j as int), a, s) {
                        let jj = choose|jj: int|
                            0 <= jj < j && is_acked_by(#[trigger] inbound@.take(j as int)[jj], a, s);
                        assert(inbound@.take(j + 1)[jj] == inbound@.take(j as int)[jj]);
                        assert(acked_by_any(inbound@.take(j + 1), a, s));
                    }
                    if is_acked_by(inbound@[j as int], a, s) {
                        assert(inbound@.take(j + 1)[j as int] == inbound@[j as int]);
                        assert(acked_by_any(inbound@.take(j + 1), a, s));
                    }
                }
                assert forall|a: PeerAddr, s: u16|
                    self.packets_awaiting_ack.has_key(a, s) <==> (pre_table.has_key(a, s)
                        && !acked_by_any(inbound@.take(j + 1), a, s)) by {
                    assert(self.packets_awaiting_ack.has_key(a, s) <==> (mid_table.has_key(a, s)
                        && !is_acked_by(*p, a, s)));
                    assert(mid_table.has_key(a, s) <==> (pre_table.has_key(a, s) && !acked_by_any(
                        inbound@.take(j as int),
                        a,
                        s,
                    )));
                }
                assert forall|a: PeerAddr, s: u16| #[trigger]
                    self.packets_awaiting_ack.has_key(a, s) implies self.packets_awaiting_ack
                    .entry_for(a, s) == pre_table.entry_for(a, s) by {
                    assert(mid_table.has_key(a, s));
                    assert(self.packets_awaiting_ack.entry_for(a, s) == mid_table.entry_for(a, s));
                    assert(mid_table.entry_for(a, s) == pre_table.entry_for(a, s));
                }
            }
            j += 1;
        }
        proof {
            assert(inbound@.skip(j as int) =~= Seq::<SequencedAckedPacket>::empty());
            assert(inbound@.take(j as int) =~= inbound@);
        }
        to_app
    }

    /// Phase 4 for one outbound unit, sent for the `tries + 1`-th time:
    /// allocate the next sequence number for the destination, attach the
    /// acknowledgement data on record for it (0/0 for a peer not yet heard
    /// from), record the framed packet as pending with the send time, and
    /// hand it back for the wire.
    pub fn prepare_send(&mut self, packet: Packet, tries: i32, now: u64) -> (full:
        SequencedAckedPacket)
        requires
            old(self).wf(),
            0 <= tries < MAX_RESEND_ATTEMPTS,
        ensures
            final(self).wf(),
            full.addr == packet.addr,
            full.bytes@ == packet.bytes@,
            full.seq_num == next_seq(counter_for(old(self)@.seq_counters, packet.addr)),
            full.ack_num == acks_for(old(self)@.ack_windows, packet.addr).ack_num,
            full.ack_field == acks_for(old(self)@.ack_windows, packet.addr).ack_field,
            final(self)@.seq_counters == old(self)@.seq_counters.insert(packet.addr, full.seq_num),
            final(self)@.ack_windows == old(self)@.ack_windows,
            forall|a: PeerAddr, s: u16|
                #![trigger final(self).packets_awaiting_ack.has_key(a, s)]
                #![trigger old(self).packets_awaiting_ack.has_key(a, s)]
                final(self).packets_awaiting_ack.has_key(a, s) <==> (old(
                    self,
                ).packets_awaiting_ack.has_key(a, s) || (a == full.addr && s == full.seq_num)),
            final(self).packets_awaiting_ack.entry_for(full.addr, full.seq_num).packet@ == full@,
            final(self).packets_awaiting_ack.entry_for(full.addr, full.seq_num).enqueue_time
                == now,
            final(self).packets_awaiting_ack.entry_for(full.addr, full.seq_num).tries == tries
                + 1,
            forall|a: PeerAddr, s: u16|
                old(self).packets_awaiting_ack.has_key(a, s) && !(a == full.addr && s
                    == full.seq_num) ==> final(self).packets_awaiting_ack.entry_for(a, s) == old(
                    self,
                ).packets_awaiting_ack.entry_for(a, s),
    {
        let new_seq_num = increment_seq_number(&mut self.seq_num_map, packet.addr);
        let sequenced = packet.add_sequence_number(new_seq_num);
        let ack_data: PeerAcks = match self.ack_map.get(&sequenced.addr) {
            Some(a) => *a,
            None => PeerAcks { ack_num: 0, ack_field: 0 },
        };
        let full = sequenced.add_acks(ack_data.ack_num, ack_data.ack_field);
        add_packet_to_waiting(&full, tries, &mut self.packets_awaiting_ack, now);
        full
    }

    /// One director iteration at time `now`: drain the decoded inbound
    /// packets (phase 1), take the application's outbound payloads (phase 2),
    /// pull the timed-out pendings and discard the exhausted ones (phase 3),
    /// then send retransmissions first and fresh application packets after
    /// (phase 4). Hands back what goes to the application and what goes to
    /// the wire.
    #[verifier::loop_isolation(false)]
    #[verifier::rlimit(100)]
    pub fn run_iteration(
        &mut self,
        inbound: &Vec<SequencedAckedPacket>,
        to_send: &Vec<Packet>,
        now: u64,
    ) -> (r: (Vec<Packet>, Vec<SequencedAckedPacket>))
        requires
            old(self).wf(),
        ensures
            final(self).wf(),
            iteration_post(old(self)@, final(self)@, inbound@, to_send@, r.0@, r.1@, now),
    {
        let ghost pre = self@;
        let ghost pre_table = self.packets_awaiting_ack;
        // phase 1: drain inbound
        let to_app = self.handle_incoming(inbound);
        let ghost am1 = self@.ack_windows;
        let ghost ph1 = self@.pending;
        let ghost ph1_table = self.packets_awaiting_ack;
        // phase 3: pull the timed-out pendings
        let dropped = extract_dropped_packets(&mut self.packets_awaiting_ack, now);
        let ghost ph2_table = self.packets_awaiting_ack;
        proof {
            crate::pending::lemma_expired_sound(ph1, now);
        }
        // phase 4: retransmissions first, then the application's packets
        let mut to_wire: Vec<SequencedAckedPacket> = Vec::new();
        let mut k: usize = 0;
        while k < dropped.len()
            invariant
                k <= dropped@.len(),
                self.wf(),
                self@.ack_windows == am1,
                seqs_allocated(pre.seq_counters, to_wire@),
                self@.seq_counters == counters_after(pre.seq_counters, to_wire@),
                forall|kk: int|
                    0 <= kk < to_wire@.len() ==> (#[trigger] to_wire@[kk]).ack_num == acks_for(
                        am1,
                        to_wire@[kk].addr,
                    ).ack_num && to_wire@[kk].ack_field == acks_for(am1, to_wire@[kk].addr).ack_field,
                forall|kk: int|
                    0 <= kk < to_wire@.len() ==> self.packets_awaiting_ack.has_key(
                        (#[trigger] to_wire@[kk]).addr,
                        to_wire@[kk].seq_num,
                    ) && self.packets_awaiting_ack.entry_for(
                        to_wire@[kk].addr,
                        to_wire@[kk].seq_num,
                    ).enqueue_time == now,
                forall|a: PeerAddr, s: u16|
                    self.packets_awaiting_ack.has_key(a, s) <==> (ph2_table.has_key(a, s)
                        || wire_has_key(to_wire@, a, s)),
                forall|a: PeerAddr, s: u16|
                    self.packets_awaiting_ack.has_key(a, s) && !wire_has_key(to_wire@, a, s)
                        ==> self.packets_awaiting_ack.entry_for(a, s) == ph2_table.entry_for(a, s),
                to_wire@.len() == resendable(dropped@.take(k as int)).len(),
                forall|kk: int|
                    0 <= kk < to_wire@.len() ==> (#[trigger] to_wire@[kk]).addr == resendable(
                        dropped@.take(k as int),
                    )[kk].packet.addr && to_wire@[kk].bytes@ == resendable(
                        dropped@.take(k as int),
                    )[kk].packet.bytes@,
            decreases dropped@.len() - k,
        {
            let d = slice_index_get(dropped.as_slice(), k);
            proof {
                let i1 = choose|i1: int|
                    0 <= i1 < ph1.len() && #[trigger] expired_of(ph1, now)[k as int] == ph1[i1]
                        && is_expired(ph1[i1], now);
                assert(1 <= ph1[i1].tries);
                assert(dropped@[k as int].tries == expired_of(ph1, now)[k as int].tries);
                assert(dropped@.take(k + 1).drop_last() =~= dropped@.take(k as int));
                assert(dropped@.take(k + 1).last() == dropped@[k as int]);
            }
            if d.tries < MAX_RESEND_ATTEMPTS {
                let ghost w0 = to_wire@;
                let ghost st0 = self.packets_awaiting_ack;
                let unit = Packet {
                    addr: d.packet.addr,
                    bytes: copy_range(&d.packet.bytes, 0, d.packet.bytes.len()),
                };
                proof {
                    assert(unit.bytes@ =~= d.packet.bytes@);
                }
                let full = self.prepare_send(unit, d.tries, now);
                to_wire.push(full);
                proof {
                    lemma_send_fold_push(pre.seq_counters, w0, full);
                    assert forall|a: PeerAddr, s: u16|
                        #![trigger wire_has_key(to_wire@, a, s)]
                        #![trigger wire_has_key(w0, a, s)]
                        wire_has_key(to_wire@, a, s) == (wire_has_key(w0, a, s) || (a == full.addr
                            && s == full.seq_num)) by {
                        if wire_has_key(to_wire@, a, s) {
                            let kk = choose|kk: int|
                                0 <= kk < to_wire@.len() && (#[trigger] to_wire@[kk]).addr == a
                                    && to_wire@[kk].seq_num == s;
                            if kk < w0.len() {
                                assert(w0[kk] == to_wire@[kk]);
                                assert(wire_has_key(w0, a, s));
                            }
                        }
                        if wire_has_key(w0, a, s) {
                            let kk = choose|kk: int|
                                0 <= kk < w0.len() && (#[trigger] w0[kk]).addr == a && w0[kk].seq_num
                                    == s;
                            assert(to_wire@[kk] == w0[kk]);
                            assert(wire_has_key(to_wire@, a, s));
                        }
                        if a == full.addr && s == full.seq_num {
                            assert(to_wire@[w0.len() as int] == full);
                            assert(wire_has_key(to_wire@, a, s));
                        }
                    }
                    assert forall|a: PeerAddr, s: u16|
                        self.packets_awaiting_ack.has_key(a, s) <==> (ph2_table.has_key(a, s)
                            || wire_has_key(to_wire@, a, s)) by {
                        assert(self.packets_awaiting_ack.has_key(a, s) <==> (st0.has_key(a, s) || (
                        a == full.addr && s == full.seq_num)));
                        assert(st0.has_key(a, s) <==> (ph2_table.has_key(a, s) || wire_has_key(
                            w0,
                            a,
                            s,
                        )));
                    }
                    assert forall|a: PeerAddr, s: u16|
                        self.packets_awaiting_ack.has_key(a, s) && !wire_has_key(to_wire@, a, s)
                        implies self.packets_awaiting_ack.entry_for(a, s) == ph2_table.entry_for(
                        a,
                        s,
                    ) by {
                        assert(wire_has_key(to_wire@, a, s) == (wire_has_key(w0, a, s) || (a
                            == full.addr && s == full.seq_num)));
                        assert(!(a == full.addr && s == full.seq_num));
                        assert(st0.has_key(a, s));
                        assert(!wire_has_key(w0, a, s));
                        assert(self.packets_awaiting_ack.entry_for(a, s) == st0.entry_for(a, s));
                        assert(st0.entry_for(a, s) == ph2_table.entry_for(a, s));
                    }
                    assert forall|kk: int| 0 <= kk < to_wire@.len() implies self.packets_awaiting_ack
                        .has_key((#[trigger] to_wire@[kk]).addr, to_wire@[kk].seq_num)
                        && self.packets_awaiting_ack.entry_for(
                        to_wire@[kk].addr,
                        to_wire@[kk].seq_num,
                    ).enqueue_time == now by {
                        if kk < w0.len() {
                            assert(to_wire@[kk] == w0[kk]);
                            assert(st0.has_key(w0[kk].addr, w0[kk].seq_num));
                            assert(self.packets_awaiting_ack.has_key(
                                w0[kk].addr,
                                w0[kk].seq_num,
                            ));
                            if !(w0[kk].addr == full.addr && w0[kk].seq_num == full.seq_num) {
                                assert(self.packets_awaiting_ack.entry_for(
                                    w0[kk].addr,
                                    w0[kk].seq_num,
                                ) == st0.entry_for(w0[kk].addr, w0[kk].seq_num));
                            }
                        } else {
                            assert(to_wire@[kk] == full);
                        }
                    }
                }
            }
            k += 1;
        }
        proof {
            assert(dropped@.take(dropped@.len() as int) =~= dropped@);
        }
        let ghost cut = to_wire@.len() as int;
        let ghost wire1 = to_wire@;
        // phase 2 pairs each application payload with a zero try count;
        // phase 4 sends them after the retransmissions
        let mut i: usize = 0;
        while i < to_send.len()
            invariant
                i <= to_send@.len(),
                self.wf(),
                self@.ack_windows == am1,
                seqs_allocated(pre.seq_counters, to_wire@),
                self@.seq_counters == counters_after(pre.seq_counters, to_wire@),
                to_wire@.len() == cut + i,
                to_wire@.take(cut) == wire1,
                forall|kk: int|
                    0 <= kk < to_wire@.len() ==> (#[trigger] to_wire@[kk]).ack_num == acks_for(
                        am1,
                        to_wire@[kk].addr,
                    ).ack_num && to_wire@[kk].ack_field == acks_for(am1, to_wire@[kk].addr).ack_field,
                forall|kk: int|
                    0 <= kk < to_wire@.len() ==> self.packets_awaiting_ack.has_key(
                        (#[trigger] to_wire@[kk]).addr,
                        to_wire@[kk].seq_num,
                    ) && self.packets_awaiting_ack.entry_for(
                        to_wire@[kk].addr,
                        to_wire@[kk].seq_num,
                    ).enqueue_time == now,
                forall|a: PeerAddr, s: u16|
                    self.packets_awaiting_ack.has_key(a, s) <==> (ph2_table.has_key(a, s)
                        || wire_has_key(to_wire@, a, s)),
                forall|a: PeerAddr, s: u16|
                    self.packets_awaiting_ack.has_key(a, s) && !wire_has_key(to_wire@, a, s)
                        ==> self.packets_awaiting_ack.entry_for(a, s) == ph2_table.entry_for(a, s),
                forall|ii: int|
                    0 <= ii < i ==> (#[trigger] to_wire@[cut + ii]).addr == to_send@[ii].addr
                        && to_wire@[cut + ii].bytes@ == to_send@[ii].bytes@,
            decreases to_send@.len() - i,
        {
            let p = slice_index_get(to_send.as_slice(), i);
            let ghost w0 = to_wire@;
            let ghost st0 = self.packets_awaiting_ack;
            let unit = Packet { addr: p.addr, bytes: copy_range(&p.bytes, 0, p.bytes.len()) };
            proof {
                assert(unit.bytes@ =~= p.bytes@);
            }
            let full = self.prepare_send(unit, 0, now);
            to_wire.push(full);
            proof {
                lemma_send_fold_push(pre.seq_counters, w0, full);
                assert(to_wire@.take(cut) =~= w0.take(cut));
                assert(to_wire@[cut + i as int] == full);
                assert(full.addr == to_send@[i as int].addr);
                assert(full.bytes@ == to_send@[i as int].bytes@);
                assert forall|a: PeerAddr, s: u16|
                    #![trigger wire_has_key(to_wire@, a, s)]
                    #![trigger wire_has_key(w0, a, s)]
                    wire_has_key(to_wire@, a, s) == (wire_has_key(w0, a, s) || (a == full.addr && s
                        == full.seq_num)) by {
                    if wire_has_key(to_wire@, a, s) {
                        let kk = choose|kk: int|
                            0 <= kk < to_wire@.len() && (#[trigger] to_wire@[kk]).addr == a
                                && to_wire@[kk].seq_num == s;
                        if kk < w0.len() {
                            assert(w0[kk] == to_wire@[kk]);
                            assert(wire_has_key(w0, a, s));
                        }
                    }
                    if wire_has_key(w0, a, s) {
                        let kk = choose|kk: int|
                            0 <= kk < w0.len() && (#[trigger] w0[kk]).addr == a && w0[kk].seq_num
                                == s;
                        assert(to_wire@[kk] == w0[kk]);
                        assert(wire_has_key(to_wire@, a, s));
                    }
                    if a == full.addr && s == full.seq_num {
                        assert(to_wire@[w0.len() as int] == full);
                        assert(wire_has_key(to_wire@, a, s));
                    }
                }
                assert forall|a: PeerAddr, s: u16|
                    self.packets_awaiting_ack.has_key(a, s) <==> (ph2_table.has_key(a, s)
                        || wire_has_key(to_wire@, a, s)) by {
                    assert(self.packets_awaiting_ack.has_key(a, s) <==> (st0.has_key(a, s) || (
                    a == full.addr && s == full.seq_num)));
                    assert(st0.has_key(a, s) <==> (ph2_table.has_key(a, s) || wire_has_key(
                        w0,
                        a,
                        s,
                    )));
                }
                assert forall|a: PeerAddr, s: u16|
                    self.packets_awaiting_ack.has_key(a, s) && !wire_has_key(to_wire@, a, s)
                    implies self.packets_awaiting_ack.entry_for(a, s) == ph2_table.entry_for(
                    a,
                    s,
                ) by {
                    assert(wire_has_key(to_wire@, a, s) == (wire_has_key(w0, a, s) || (a
                        == full.addr && s == full.seq_num)));
                    assert(!(a == full.addr && s == full.seq_num));
                    assert(st0.has_key(a, s));
                    assert(!wire_has_key(w0, a, s));
                    assert(self.packets_awaiting_ack.entry_for(a, s) == st0.entry_for(a, s));
                    assert(st0.entry_for(a, s) == ph2_table.entry_for(a, s));
                }
                assert forall|kk: int| 0 <= kk < to_wire@.len() implies self.packets_awaiting_ack
                    .has_key((#[trigger] to_wire@[kk]).addr, to_wire@[kk].seq_num)
                    && self.packets_awaiting_ack.entry_for(
                    to_wire@[kk].addr,
                    to_wire@[kk].seq_num,
                ).enqueue_time == now by {
                    if kk < w0.len() {
                        assert(to_wire@[kk] == w0[kk]);
                        assert(st0.has_key(w0[kk].addr, w0[kk].seq_num));
                        assert(self.packets_awaiting_ack.has_key(
                            w0[kk].addr,
                            w0[kk].seq_num,
                        ));
                        if !(w0[kk].addr == full.addr && w0[kk].seq_num == full.seq_num) {
                            assert(self.packets_awaiting_ack.entry_for(
                                w0[kk].addr,
                                w0[kk].seq_num,
                            ) == st0.entry_for(w0[kk].addr, w0[kk].seq_num));
                        }
                    } else {
                        assert(to_wire@[kk] == full);
                    }
                }
            }
            i += 1;
        }
        proof {
            assert(to_wire@.take(cut) =~= wire1);
            lemma_iteration_assemble(
                pre,
                self@,
                pre_table,
                ph1_table,
                ph2_table,
                self.packets_awaiting_ack,
                inbound@,
                to_send@,
                to_app@,
                dropped@,
                wire1,
                to_wire@,
                now,
            );
        }
        (to_app, to_wire)
    }

    /// One director iteration stamped with the wall clock. What the clock
    /// returns is not promised, so the contract holds for some send time.
    pub fn tick(&mut self, inbound: &Vec<SequencedAckedPacket>, to_send: &Vec<Packet>) -> (r: (
        Vec<Packet>,
        Vec<SequencedAckedPacket>,
    ))
        requires
            old(self).wf(),
        ensures
            final(self).wf(),
            exists|now: u64|
                iteration_post(old(self)@, final(self)@, inbound@, to_send@, r.0@, r.1@, now),
    {
        let t = current_unix_seconds();
        let now: u64 = if t < 0 {
            0
        } else {
            t as u64
        };
        let r = self.run_iteration(inbound, to_send, now);
        proof {
            assert(iteration_post(old(self)@, self@, inbound@, to_send@, r.0@, r.1@, now));
        }
        r
    }
}

/// Relies on the time crate: `OffsetDateTime::now_utc` read as whole seconds
/// since the Unix epoch through `unix_timestamp`. Nothing is promised of the
/// reading; callers hold for every value.
#[verifier::external_body]
fn current_unix_seconds() -> i64 {
    time::OffsetDateTime::now_utc().unix_timestamp()
}

} // verus!
