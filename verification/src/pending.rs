use vstd::prelude::*;

use crate::constants::{MAX_RESEND_ATTEMPTS, PACKET_DROP_TIME};
use crate::packet_types::{copy_range, PacketWithTries, PeerAddr, SequencedAckedPacket};

verus! {

/// One sent packet awaiting acknowledgement: the packet itself, the time it
/// was queued (in seconds), and the number of times it has been sent.
pub struct PendingEntry {
    pub packet: SequencedAckedPacket,
    pub enqueue_time: u64,
    pub tries: i32,
}

/// An entry is expired at `now` when it has waited strictly longer than
/// `PACKET_DROP_TIME` seconds since it was queued.
pub open spec fn is_expired(e: PendingEntry, now: u64) -> bool {
    now - e.enqueue_time > PACKET_DROP_TIME
}

/// Whether an entry is indexed under `(addr, seq_num)`; the key of an entry
/// is carried by the packet it holds.
pub open spec fn key_matches(e: PendingEntry, addr: PeerAddr, seq_num: u16) -> bool {
    e.packet.addr == addr && e.packet.seq_num == seq_num
}

/// Whether some entry of `s` is indexed under `(addr, seq_num)`.
pub open spec fn seq_has_key(s: Seq<PendingEntry>, addr: PeerAddr, seq_num: u16) -> bool {
    exists|i: int| 0 <= i < s.len() && key_matches(#[trigger] s[i], addr, seq_num)
}

/// The index of the entry under `(addr, seq_num)`, where there is one.
pub open spec fn seq_index_of(s: Seq<PendingEntry>, addr: PeerAddr, seq_num: u16) -> int {
    choose|i: int| 0 <= i < s.len() && key_matches(#[trigger] s[i], addr, seq_num)
}

/// No two entries share a key, and every try count lies in
/// `[1, MAX_RESEND_ATTEMPTS]`.
pub open spec fn seq_wf(s: Seq<PendingEntry>) -> bool {
    &&& forall|i: int, j: int|
        0 <= i < s.len() && 0 <= j < s.len() && i != j ==> !key_matches(
            #[trigger] s[i],
            #[trigger] s[j].packet.addr,
            s[j].packet.seq_num,
        )
    &&& forall|i: int| 0 <= i < s.len() ==> 1 <= (#[trigger] s[i]).tries <= MAX_RESEND_ATTEMPTS
}

/// The entries of `s` that have not yet expired at `now`, in order.
pub open spec fn surviving(s: Seq<PendingEntry>, now: u64) -> Seq<PendingEntry>
    decreases s.len(),
{
    if s.len() == 0 {
        Seq::empty()
    } else {
        let rest = surviving(s.drop_last(), now);
        if is_expired(s.last(), now) {
            rest
        } else {
            rest.push(s.last())
        }
    }
}

/// The entries of `s` that have expired at `now`, in order.
pub open spec fn expired_of(s: Seq<PendingEntry>, now: u64) -> Seq<PendingEntry>
    decreases s.len(),
{
    if s.len() == 0 {
        Seq::empty()
    } else {
        let rest = expired_of(s.drop_last(), now);
        if is_expired(s.last(), now) {
            rest.push(s.last())
        } else {
            rest
        }
    }
}

/// In-memory index of sent packets awaiting acknowledgement, keyed by
/// `(peer, sequence number)`.
pub struct PendingTable {
    entries: Vec<PendingEntry>,
}

impl View for PendingTable {
    type V = Seq<PendingEntry>;

    closed spec fn view(&self) -> Seq<PendingEntry> {
        self.entries@
    }
}

impl PendingTable {
    /// Whether the table holds an entry under `(addr, seq_num)`.
    pub open spec fn has_key(self, addr: PeerAddr, seq_num: u16) -> bool {
        seq_has_key(self@, addr, seq_num)
    }

    /// The entry under `(addr, seq_num)`, where there is one.
    pub open spec fn entry_for(self, addr: PeerAddr, seq_num: u16) -> PendingEntry {
        self@[seq_index_of(self@, addr, seq_num)]
    }

    pub open spec fn wf(self) -> bool {
        seq_wf(self@)
    }

    /// An empty table.
    pub fn new() -> (t: PendingTable)
        ensures
            t.wf(),
            t@.len() == 0,
            forall|a: PeerAddr, s: u16| !t.has_key(a, s),
    {
        PendingTable { entries: Vec::new() }
    }

    /// How many packets are waiting.
    pub fn len(&self) -> (n: usize)
        ensures
            n == self@.len(),
    {
        self.entries.len()
    }

    /// The index of the entry under `(addr, seq_num)`, if any.
    fn find(&self, addr: PeerAddr, seq_num: u16) -> (r: Option<usize>)
        ensures
            match r {
                Some(i) => i < self@.len() && key_matches(self@[i as int], addr, seq_num),
                None => !self.has_key(addr, seq_num),
            },
    {
        let mut i: usize = 0;
        while i < self.entries.len()
            invariant
                i <= self@.len(),
                forall|j: int| 0 <= j < i ==> !key_matches(#[trigger] self@[j], addr, seq_num),
            decreases self@.len() - i,
        {
            if self.entries[i].packet.addr == addr && self.entries[i].packet.seq_num == seq_num {
                return Some(i);
            }
            i += 1;
        }
        None
    }

    /// Removes the entry under `(addr, seq_num)`, if any; every other entry
    /// stays.
    pub fn remove_key(&mut self, addr: PeerAddr, seq_num: u16)
        requires
            old(self).wf(),
        ensures
            final(self).wf(),
            forall|a: PeerAddr, s: u16|
                final(self).has_key(a, s) <==> (old(self).has_key(a, s) && !(a == addr && s
                    == seq_num)),
            forall|a: PeerAddr, s: u16| #[trigger]
                final(self).has_key(a, s) ==> final(self).entry_for(a, s) == old(self).entry_for(
                    a,
                    s,
                ),
            final(self)@.len() == old(self)@.len() - (if old(self).has_key(addr, seq_num) {
                1int
            } else {
                0int
            }),
    {
        let ghost pre = self@;
        match self.find(addr, seq_num) {
            None => {},
            Some(i) => {
                self.entries.remove(i);
                proof {
                    let post = self@;
                    assert forall|a: PeerAddr, s: u16| #[trigger]
                        seq_has_key(post, a, s) implies seq_has_key(pre, a, s) && !(a == addr && s
                        == seq_num) && post[seq_index_of(post, a, s)] == pre[seq_index_of(
                        pre,
                        a,
                        s,
                    )] by {
                        let k = seq_index_of(post, a, s);
                        let k0 = if k < i {
                            k
                        } else {
                            k + 1
                        };
                        assert(post[k] == pre[k0]);
                        assert(key_matches(pre[k0], a, s));
                        assert(seq_has_key(pre, a, s));
                        let m = seq_index_of(pre, a, s);
                        assert(key_matches(pre[m], a, s));
                        assert(m == k0);
                    }
                    assert forall|a: PeerAddr, s: u16|
                        seq_has_key(pre, a, s) && !(a == addr && s == seq_num) implies #[trigger]
                        seq_has_key(post, a, s) by {
                        let m = seq_index_of(pre, a, s);
                        assert(key_matches(pre[m], a, s));
                        assert(m != i);
                        if m < i {
                            assert(post[m] == pre[m]);
                        } else {
                            assert(post[m - 1] == pre[m]);
                        }
                    }
                    assert(!seq_has_key(post, addr, seq_num));
                }
            },
        }
    }

    /// Inserts an entry for the packet under the packet's own key, replacing
    /// any entry already there; every other entry stays.
    pub fn insert(&mut self, packet: &SequencedAckedPacket, enqueue_time: u64, tries: i32)
        requires
            old(self).wf(),
            1 <= tries <= MAX_RESEND_ATTEMPTS,
        ensures
            final(self).wf(),
            forall|a: PeerAddr, s: u16|
                final(self).has_key(a, s) <==> (old(self).has_key(a, s) || (a == packet.addr && s
                    == packet.seq_num)),
            final(self).entry_for(packet.addr, packet.seq_num).packet@ == packet@,
            final(self).entry_for(packet.addr, packet.seq_num).enqueue_time == enqueue_time,
            final(self).entry_for(packet.addr, packet.seq_num).tries == tries,
            forall|a: PeerAddr, s: u16|
                old(self).has_key(a, s) && !(a == packet.addr && s == packet.seq_num)
                    ==> final(self).entry_for(a, s) == old(self).entry_for(a, s),
    {
        self.remove_key(packet.addr, packet.seq_num);
        let ghost mid = self@;
        let stored = SequencedAckedPacket {
            addr: packet.addr,
            seq_num: packet.seq_num,
            ack_num: packet.ack_num,
            ack_field: packet.ack_field,
            bytes: copy_range(&packet.bytes, 0, packet.bytes.len()),
        };
        proof {
            assert(stored@.payload =~= packet@.payload);
        }
        self.entries.push(PendingEntry { packet: stored, enqueue_time, tries });
        proof {
            let post = self@;
            let n = mid.len();
            assert(post.drop_last() =~= mid);
            assert forall|a: PeerAddr, s: u16| #[trigger]
                seq_has_key(post, a, s) implies (seq_has_key(mid, a, s) || (a == packet.addr && s
                == packet.seq_num)) by {
                let k = seq_index_of(post, a, s);
                if k < n {
                    assert(key_matches(mid[k], a, s));
                }
            }
            assert(key_matches(post[n as int], packet.addr, packet.seq_num));
            assert forall|a: PeerAddr, s: u16|
                seq_has_key(mid, a, s) implies #[trigger] seq_has_key(post, a, s) by {
                let m = seq_index_of(mid, a, s);
                assert(key_matches(post[m], a, s));
            }
            // the new entry is the unique holder of its key
            assert(seq_wf(post));
            let kk = seq_index_of(post, packet.addr, packet.seq_num);
            assert(key_matches(post[kk], packet.addr, packet.seq_num));
            assert(kk == n);
            assert forall|a: PeerAddr, s: u16|
                seq_has_key(mid, a, s) && !(a == packet.addr && s == packet.seq_num) implies post[
                seq_index_of(post, a, s)] == mid[seq_index_of(mid, a, s)] by {
                let m = seq_index_of(mid, a, s);
                assert(key_matches(post[m], a, s));
                let k = seq_index_of(post, a, s);
                assert(key_matches(post[k], a, s));
                assert(k == m);
            }
        }
    }

    /// Removes every expired entry and hands them back with their packets
    /// and try counts; the rest of the table stays exactly as it was.
    pub fn extract_expired(&mut self, now: u64) -> (r: Vec<PacketWithTries>)
        requires
            old(self).wf(),
        ensures
            final(self)@ == surviving(old(self)@, now),
            final(self).wf(),
            r@.len() == expired_of(old(self)@, now).len(),
            forall|k: int|
                0 <= k < r@.len() ==> (#[trigger] r@[k]).packet == expired_of(old(self)@, now)[k].packet
                    && r@[k].tries == expired_of(old(self)@, now)[k].tries,
    {
        let ghost pre = self@;
        let mut dropped: Vec<PacketWithTries> = Vec::new();
        let mut i: usize = 0;
        let ghost mut g: int = 0;
        while i < self.entries.len()
            invariant
                0 <= g <= pre.len(),
                i == surviving(pre.take(g), now).len(),
                self@ == surviving(pre.take(g), now) + pre.skip(g),
                dropped@.len() == expired_of(pre.take(g), now).len(),
                forall|k: int|
                    0 <= k < dropped@.len() ==> (#[trigger] dropped@[k]).packet == expired_of(
                        pre.take(g),
                        now,
                    )[k].packet && dropped@[k].tries == expired_of(pre.take(g), now)[k].tries,
            decreases pre.len() - g,
        {
            proof {
                assert(g < pre.len());
                assert(pre.take(g + 1).drop_last() =~= pre.take(g));
                assert(pre.take(g + 1).last() == pre[g]);
                assert(self@[i as int] == pre.skip(g)[0]);
            }
            let expired = {
                let t0 = self.entries[i].enqueue_time;
                now > PACKET_DROP_TIME && now - PACKET_DROP_TIME > t0
            };
            if expired {
                let e = self.entries.remove(i);
                proof {
                    assert(e == pre[g]);
                    assert(self@ =~= surviving(pre.take(g + 1), now) + pre.skip(g + 1));
                }
                dropped.push(PacketWithTries { packet: e.packet, tries: e.tries });
            } else {
                proof {
                    assert(surviving(pre.take(g + 1), now) =~= surviving(pre.take(g), now).push(
                        pre[g],
                    ));
                    assert(self@ =~= surviving(pre.take(g + 1), now) + pre.skip(g + 1));
                }
                i += 1;
            }
            proof {
                g = g + 1;
            }
        }
        proof {
            assert(g == pre.len());
            assert(pre.take(g) =~= pre);
            assert(pre.skip(g) =~= Seq::<PendingEntry>::empty());
            assert(self@ =~= surviving(pre, now));
            lemma_surviving_wf(pre, now);
        }
        dropped
    }
}

/// The surviving entries of a well-formed table again form a well-formed
/// table: each is one of the original entries, so keys stay unique and try
/// counts stay in range; and every unexpired entry survives.
proof fn lemma_surviving_wf(s: Seq<PendingEntry>, now: u64)
    requires
        seq_wf(s),
    ensures
        seq_wf(surviving(s, now)),
        forall|k: int|
            0 <= k < surviving(s, now).len() ==> exists|i: int|
                0 <= i < s.len() && #[trigger] surviving(s, now)[k] == s[i] && !is_expired(
                    s[i],
                    now,
                ),
    decreases s.len(),
{
    if s.len() > 0 {
        let s0 = s.drop_last();
        assert(seq_wf(s0));
        lemma_surviving_wf(s0, now);
        let rest = surviving(s0, now);
        if !is_expired(s.last(), now) {
            let w = rest.push(s.last());
            assert forall|k: int| 0 <= k < w.len() implies exists|i: int|
                0 <= i < s.len() && #[trigger] w[k] == s[i] && !is_expired(s[i], now) by {
                if k < rest.len() {
                    let i = choose|i: int| 0 <= i < s0.len() && rest[k] == s0[i] && !is_expired(s0[i], now);
                    assert(w[k] == s[i] && !is_expired(s[i], now));
                } else {
                    assert(w[k] == s[s.len() - 1]);
                }
            }
            assert forall|p: int, q: int|
                0 <= p < w.len() && 0 <= q < w.len() && p != q implies !key_matches(
                w[p],
                w[q].packet.addr,
                w[q].packet.seq_num,
            ) by {
                let ip = choose|i: int| 0 <= i < s.len() && w[p] == s[i] && !is_expired(s[i], now);
                let iq = choose|i: int| 0 <= i < s.len() && w[q] == s[i] && !is_expired(s[i], now);
                if ip != iq {
                    assert(!key_matches(s[ip], s[iq].packet.addr, s[iq].packet.seq_num));
                } else {
                    // two positions holding the same original entry: one of them
                    // is the pushed last element, the other sits inside `rest`,
                    // yet `rest` only holds entries of `s0`, whose keys differ
                    // from the last entry's key
                    let pp = if p < q { p } else { q };
                    let i0 = choose|i: int| 0 <= i < s0.len() && rest[pp] == s0[i] && !is_expired(s0[i], now);
                    assert(!key_matches(s[i0], s.last().packet.addr, s.last().packet.seq_num));
                    assert(false);
                }
            }
        }
    }
}

/// Every entry that has not expired survives extraction.
proof fn lemma_surviving_complete(s: Seq<PendingEntry>, now: u64)
    ensures
        forall|i: int|
            0 <= i < s.len() && !is_expired(#[trigger] s[i], now) ==> exists|k: int|
                0 <= k < surviving(s, now).len() && surviving(s, now)[k] == s[i],
    decreases s.len(),
{
    if s.len() > 0 {
        let s0 = s.drop_last();
        lemma_surviving_complete(s0, now);
        let rest = surviving(s0, now);
        assert forall|i: int|
            0 <= i < s.len() && !is_expired(#[trigger] s[i], now) implies exists|k: int|
            0 <= k < surviving(s, now).len() && surviving(s, now)[k] == s[i] by {
            if i < s0.len() {
                assert(s0[i] == s[i]);
                let k = choose|k: int| 0 <= k < rest.len() && rest[k] == s0[i];
                assert(surviving(s, now)[k] == s[i]);
            } else {
                assert(surviving(s, now)[rest.len() as int] == s[i]);
            }
        }
    }
}

/// Each extracted entry is an expired entry of the table.
pub proof fn lemma_expired_sound(s: Seq<PendingEntry>, now: u64)
    ensures
        forall|k: int|
            0 <= k < expired_of(s, now).len() ==> exists|i: int|
                0 <= i < s.len() && #[trigger] expired_of(s, now)[k] == s[i] && is_expired(
                    s[i],
                    now,
                ),
    decreases s.len(),
{
    if s.len() > 0 {
        let s0 = s.drop_last();
        lemma_expired_sound(s0, now);
        let rest = expired_of(s0, now);
        assert forall|k: int| 0 <= k < expired_of(s, now).len() implies exists|i: int|
            0 <= i < s.len() && #[trigger] expired_of(s, now)[k] == s[i] && is_expired(
            s[i],
            now,
        ) by {
            if k < rest.len() {
                let i = choose|i: int| 0 <= i < s0.len() && rest[k] == s0[i] && is_expired(s0[i], now);
                assert(expired_of(s, now)[k] == s[i] && is_expired(s[i], now));
            } else {
                assert(expired_of(s, now)[k] == s[s.len() - 1]);
            }
        }
    }
}

/// Every expired entry of the table is extracted.
pub proof fn lemma_expired_complete(s: Seq<PendingEntry>, now: u64)
    ensures
        forall|i: int|
            0 <= i < s.len() && is_expired(#[trigger] s[i], now) ==> exists|k: int|
                0 <= k < expired_of(s, now).len() && expired_of(s, now)[k] == s[i],
    decreases s.len(),
{
    if s.len() > 0 {
        let s0 = s.drop_last();
        lemma_expired_complete(s0, now);
        let rest = expired_of(s0, now);
        assert forall|i: int|
            0 <= i < s.len() && is_expired(#[trigger] s[i], now) implies exists|k: int|
            0 <= k < expired_of(s, now).len() && expired_of(s, now)[k] == s[i] by {
            if i < s0.len() {
                assert(s0[i] == s[i]);
                let k = choose|k: int| 0 <= k < rest.len() && rest[k] == s0[i];
                assert(expired_of(s, now)[k] == s[i]);
            } else {
                assert(expired_of(s, now)[rest.len() as int] == s[i]);
            }
        }
    }
}

/// Timeout expiry hits exactly the old entries: an entry inserted at time
/// `t0` is extracted at time `now` iff `now - t0 > PACKET_DROP_TIME`, keeps
/// its try count, and stays in the table untouched otherwise.
pub proof fn lemma_expiry_partition(s: Seq<PendingEntry>, now: u64)
    requires
        seq_wf(s),
    ensures
        forall|a: PeerAddr, q: u16| #[trigger]
            seq_has_key(surviving(s, now), a, q) <==> (seq_has_key(s, a, q) && !is_expired(
                s[seq_index_of(s, a, q)],
                now,
            )),
        forall|a: PeerAddr, q: u16| #[trigger]
            seq_has_key(surviving(s, now), a, q) ==> surviving(s, now)[seq_index_of(
                surviving(s, now),
                a,
                q,
            )] == s[seq_index_of(s, a, q)],
{
    lemma_surviving_wf(s, now);
    lemma_surviving_complete(s, now);
    let w = surviving(s, now);
    assert forall|a: PeerAddr, q: u16| #[trigger]
        seq_has_key(w, a, q) implies (seq_has_key(s, a, q) && !is_expired(
        s[seq_index_of(s, a, q)],
        now,
    ) && w[seq_index_of(w, a, q)] == s[seq_index_of(s, a, q)]) by {
        let k = seq_index_of(w, a, q);
        assert(key_matches(w[k], a, q));
        let i = choose|i: int| 0 <= i < s.len() && w[k] == s[i] && !is_expired(s[i], now);
        assert(key_matches(s[i], a, q));
        let m = seq_index_of(s, a, q);
        assert(key_matches(s[m], a, q));
        assert(m == i);
    }
    assert forall|a: PeerAddr, q: u16|
        seq_has_key(s, a, q) && !is_expired(s[seq_index_of(s, a, q)], now) implies #[trigger]
        seq_has_key(w, a, q) by {
        let m = seq_index_of(s, a, q);
        assert(key_matches(s[m], a, q));
        let k = choose|k: int| 0 <= k < w.len() && w[k] == s[m];
        assert(key_matches(w[k], a, q));
    }
}

} // verus!
