use vstd::prelude::*;

verus! {

/// Sliding acknowledgement window kept for one remote peer.
///
/// `ack_num` is the highest sequence number received from the peer under
/// wrap-aware ordering, and bit `i` (0-indexed) of `ack_field` is set iff
/// sequence number `ack_num - (i + 1)` (mod 2^16) has also been received.
/// Only the 32 most recent predecessors are representable.
#[derive(Clone, Copy, PartialEq, Eq, Structural, Debug)]
pub struct PeerAcks {
    pub ack_num: u16,
    pub ack_field: u32,
}

/// Distance walked forward from `ack_num` to reach `seq_num` in the wrapping
/// 16-bit sequence space; always in `[0, 0xffff]`.
pub open spec fn seq_distance(seq_num: u16, ack_num: u16) -> int {
    if seq_num >= ack_num {
        seq_num - ack_num
    } else {
        seq_num - ack_num + 0x10000
    }
}

/// Wrap-aware comparison: `seq_num` is newer than `ack_num` when it lies in
/// the forward half of the sequence space, i.e. the wrapping difference read
/// as a signed 16-bit value is positive.
pub open spec fn is_newer(seq_num: u16, ack_num: u16) -> bool {
    1 <= seq_distance(seq_num, ack_num) <= 0x8000
}

/// The sequence number `back` steps before `ack_num`, wrapping.
pub open spec fn seq_back(ack_num: u16, back: u16) -> u16 {
    if back <= ack_num {
        (ack_num - back) as u16
    } else {
        (ack_num - back + 0x10000) as u16
    }
}

impl PeerAcks {
    /// The window after folding in one received sequence number, by the
    /// wrap-aware case split:
    /// - duplicate of `ack_num`: no change;
    /// - newer by `d < 32`: the field shifts left `d` places, the bit that now
    ///   stands for the prior `ack_num` is set, and `ack_num` becomes `seq_num`;
    /// - newer by `d >= 32`: the field resets to 0 and `ack_num` becomes `seq_num`;
    /// - older by `back <= 32`: bit `back - 1` is set;
    /// - older by more: too old to represent, no change.
    pub open spec fn with_seq_num(self, seq_num: u16) -> PeerAcks {
        let d = seq_distance(seq_num, self.ack_num);
        if d == 0 {
            self
        } else if d <= 0x8000 {
            if d < 32 {
                PeerAcks {
                    ack_num: seq_num,
                    ack_field: ((self.ack_field << 1) | 1) << ((d - 1) as u32),
                }
            } else {
                PeerAcks { ack_num: seq_num, ack_field: 0 }
            }
        } else {
            let back = 0x10000 - d;
            if back <= 32 {
                PeerAcks {
                    ack_num: self.ack_num,
                    ack_field: self.ack_field | (1u32 << ((back - 1) as u32)),
                }
            } else {
                self
            }
        }
    }

    /// Whether the window records sequence number `m` as received: either as
    /// the newest number itself or through a set bit of the field.
    pub open spec fn records(self, m: u16) -> bool {
        m == self.ack_num || exists|i: u32|
            i < 32 && (self.ack_field >> i) & 1 == 1 && m == seq_back(self.ack_num, (i + 1) as u16)
    }

    /// The window after folding in a whole sequence of received numbers,
    /// oldest call first.
    pub open spec fn with_seq_nums(self, ns: Seq<u16>) -> PeerAcks
        decreases ns.len(),
    {
        if ns.len() == 0 {
            self
        } else {
            self.with_seq_num(ns[0]).with_seq_nums(ns.drop_first())
        }
    }

    /// Folds a newly received sequence number into the window.
    pub fn add_seq_num(&mut self, seq_num: u16)
        ensures
            *final(self) == old(self).with_seq_num(seq_num),
    {
        let d: u16 = seq_num.wrapping_sub(self.ack_num);
        if d == 0 {
            // duplicate: nothing new to record
        } else if d <= 0x8000 {
            if d < 32 {
                self.ack_field = ((self.ack_field << 1) | 1) << ((d - 1) as u32);
                self.ack_num = seq_num;
            } else {
                self.ack_field = 0;
                self.ack_num = seq_num;
            }
        } else {
            let back: u16 = self.ack_num.wrapping_sub(seq_num);
            if back <= 32 {
                self.ack_field = self.ack_field | (1u32 << ((back - 1) as u32));
            }
        }
    }
}

/// Folding in the same sequence number twice leaves the window exactly as
/// folding it in once: duplicates are never recorded twice.
pub proof fn lemma_add_seq_num_idempotent(s: PeerAcks, n: u16)
    ensures
        s.with_seq_num(n).with_seq_num(n) == s.with_seq_num(n),
{
    let s1 = s.with_seq_num(n);
    let d = seq_distance(n, s.ack_num);
    if d == 0 || (d > 0x8000 && 0x10000 - d > 32) {
        // no change the first time, so the second run starts from the same state
        assert(s1 == s);
    } else if d <= 0x8000 {
        // newer: the window now tops out at n, so n is a duplicate
        assert(seq_distance(n, s1.ack_num) == 0);
    } else {
        // older within the window: setting an already-set bit changes nothing
        let sh = ((0x10000 - d - 1) as u32);
        let fld = s.ack_field;
        assert(seq_distance(n, s1.ack_num) == d);
        assert((fld | (1u32 << sh)) | (1u32 << sh) == fld | (1u32 << sh)) by (bit_vector);
    }
}

/// After a newer-by-32-or-more sequence number, the whole window is
/// truncated: the field is clear and the only recorded number is the new one.
pub proof fn lemma_window_truncation(s: PeerAcks, n: u16)
    requires
        32 <= seq_distance(n, s.ack_num) <= 0x8000,
    ensures
        s.with_seq_num(n) == (PeerAcks { ack_num: n, ack_field: 0 }),
        forall|m: u16| s.with_seq_num(n).records(m) <==> m == n,
{
    let s1 = s.with_seq_num(n);
    assert(s1 == (PeerAcks { ack_num: n, ack_field: 0 }));
    assert(forall|i: u32| (0u32 >> i) & 1 == 0) by (bit_vector);
    assert forall|m: u16| s1.records(m) implies m == n by {
        if m != s1.ack_num {
            assert(forall|i: u32| (s1.ack_field >> i) & 1 != 1);
        }
    }
}

/// One fold moves `ack_num` to the newer of the old `ack_num` and the input.
pub proof fn lemma_ack_num_after_one(s: PeerAcks, n: u16)
    ensures
        s.with_seq_num(n).ack_num == if is_newer(n, s.ack_num) {
            n
        } else {
            s.ack_num
        },
{
}

/// Within one half-window of a common base, the wrap-aware "newer" relation
/// agrees with comparing plain distances from that base.
pub proof fn lemma_newer_iff_closer_to_base(x: u16, y: u16, base: u16)
    requires
        seq_distance(x, base) < 0x8000,
        seq_distance(y, base) < 0x8000,
    ensures
        is_newer(x, y) <==> seq_distance(x, base) > seq_distance(y, base),
{
}

/// After any run of folds whose inputs all sit in one half-window around
/// `base` (as does the starting `ack_num`), the final `ack_num` is farthest
/// from `base`: at least as far as the start and as every input, and it is
/// the start or one of the inputs.
proof fn lemma_fold_ack_num(s: PeerAcks, ns: Seq<u16>, base: u16)
    requires
        seq_distance(s.ack_num, base) < 0x8000,
        forall|j: int| 0 <= j < ns.len() ==> seq_distance(#[trigger] ns[j], base) < 0x8000,
    ensures
        seq_distance(s.with_seq_nums(ns).ack_num, base) < 0x8000,
        seq_distance(s.with_seq_nums(ns).ack_num, base) >= seq_distance(s.ack_num, base),
        forall|j: int|
            0 <= j < ns.len() ==> seq_distance(s.with_seq_nums(ns).ack_num, base) >= seq_distance(
                #[trigger] ns[j],
                base,
            ),
        s.with_seq_nums(ns).ack_num == s.ack_num || exists|j: int|
            0 <= j < ns.len() && s.with_seq_nums(ns).ack_num == ns[j],
    decreases ns.len(),
{
    if ns.len() > 0 {
        let n0 = ns[0];
        let s1 = s.with_seq_num(n0);
        lemma_ack_num_after_one(s, n0);
        lemma_newer_iff_closer_to_base(n0, s.ack_num, base);
        assert(forall|j: int|
            0 <= j < ns.drop_first().len() ==> seq_distance(#[trigger] ns.drop_first()[j], base)
                < 0x8000);
        lemma_fold_ack_num(s1, ns.drop_first(), base);
        let f = s.with_seq_nums(ns);
        assert(f == s1.with_seq_nums(ns.drop_first()));
        assert forall|j: int| 0 <= j < ns.len() implies seq_distance(f.ack_num, base)
            >= seq_distance(#[trigger] ns[j], base) by {
            if j > 0 {
                assert(ns.drop_first()[j - 1] == ns[j]);
            }
        }
        if f.ack_num != s1.ack_num {
            let j = choose|j: int|
                0 <= j < ns.drop_first().len() && f.ack_num == ns.drop_first()[j];
            assert(f.ack_num == ns[j + 1]);
        }
    }
}

/// When a run of folds contains at least one input strictly newer than the
/// starting `ack_num`, and the starting `ack_num` and all inputs sit in one
/// half-window around `base`, the final `ack_num` is the wrap-aware maximum
/// of the inputs: it is one of them, and none is newer than it.
pub proof fn lemma_ack_num_monotonic(s: PeerAcks, ns: Seq<u16>, base: u16)
    requires
        seq_distance(s.ack_num, base) < 0x8000,
        forall|j: int| 0 <= j < ns.len() ==> seq_distance(#[trigger] ns[j], base) < 0x8000,
        exists|j: int| 0 <= j < ns.len() && is_newer(#[trigger] ns[j], s.ack_num),
    ensures
        exists|j: int| 0 <= j < ns.len() && s.with_seq_nums(ns).ack_num == ns[j],
        forall|j: int| 0 <= j < ns.len() ==> !is_newer(#[trigger] ns[j], s.with_seq_nums(ns).ack_num),
{
    let f = s.with_seq_nums(ns);
    lemma_fold_ack_num(s, ns, base);
    let j0 = choose|j: int| 0 <= j < ns.len() && is_newer(#[trigger] ns[j], s.ack_num);
    lemma_newer_iff_closer_to_base(ns[j0], s.ack_num, base);
    assert(seq_distance(f.ack_num, base) > seq_distance(s.ack_num, base));
    assert(f.ack_num != s.ack_num);
    assert forall|j: int| 0 <= j < ns.len() implies !is_newer(#[trigger] ns[j], f.ack_num) by {
        lemma_newer_iff_closer_to_base(ns[j], f.ack_num, base);
    }
}

} // verus!
