//! The write-side state machine of one connection. Frames submitted by
//! the upper layer go to the front of a buffer; each drain cycle absorbs
//! received ACKs into the resend map, puts NACKed and timed-out frames
//! back at the front of the buffer, then emits pending NACKs, ACKs, one
//! unconnected packet, and frame sets packed greedily from the back of
//! the buffer under the peer's MTU. Sending the produced packets, and the
//! backpressure of the downstream socket, belong to the caller: every
//! function here is one sequential step of the original polling cycle.
use vstd::prelude::*;

use std::collections::VecDeque;

use crate::link::TransferLink;
use crate::packet::{spec_is_reliable, Frame, FrameSet, FrameView, Packet};
use crate::resend::{
    contains_seq, entries_after_acks, entries_after_nacks, lemma_covered_frames_from_entries,
    lemma_covered_split, lemma_entries_after_acks_push, lemma_entries_after_nacks_push,
    lemma_remove_covered_sorted, lemma_remove_stale_sorted, lemma_requeued_by_nacks_push,
    lemma_stale_frames_from_entries, lemma_stale_split, remove_stale, requeued_by_nacks,
    stale_frames, total_entry_frames, ResendMap, RESEND_TIMEOUT_MILLIS,
};
use crate::wire::U24_MAX_PLUS_ONE;
use crate::{Peer, Role};

verus! {

/// Fixed wire overhead of a frame set: the pack-id byte and the 3-byte
/// sequence number; what remains of the MTU is the frame budget.
pub const FRAME_SET_HEADER_SIZE: usize = 4;

/// Which classes one drain cycle may flush, and counters of how much the
/// cycle flushed, for observers.
#[derive(Debug, Clone, Copy)]
pub struct FlushStrategy {
    pub flush_ack: bool,
    pub flush_nack: bool,
    pub flush_pack: bool,
    pub flushed_ack: u64,
    pub flushed_nack: u64,
    pub flushed_pack: u64,
}

impl FlushStrategy {
    /// A strategy flushing only the named classes, counters reset.
    pub fn new(flush_ack: bool, flush_nack: bool, flush_pack: bool) -> (s: FlushStrategy)
        ensures
            s.flush_ack == flush_ack,
            s.flush_nack == flush_nack,
            s.flush_pack == flush_pack,
            s.flushed_ack == 0 && s.flushed_nack == 0 && s.flushed_pack == 0,
    {
        FlushStrategy {
            flush_ack,
            flush_nack,
            flush_pack,
            flushed_ack: 0,
            flushed_nack: 0,
            flushed_pack: 0,
        }
    }

    /// Whether every selected class has been drained.
    pub open spec fn spec_check_flushed(self, link: TransferLink, buf_len: int) -> bool {
        &&& (self.flush_nack ==> link.outgoing_nack@.len() == 0)
        &&& (self.flush_ack ==> link.outgoing_ack@.len() == 0)
        &&& (self.flush_pack ==> link.unconnected@.len() == 0 && buf_len == 0)
    }

    /// Whether every selected class has been drained: the drain loop's
    /// termination test.
    pub fn check_flushed(&self, link: &TransferLink, buf_len: usize) -> (b: bool)
        ensures
            b == self.spec_check_flushed(*link, buf_len as int),
    {
        (!self.flush_nack || link.outgoing_nack_empty()) && (!self.flush_ack
            || link.outgoing_ack_empty()) && (!self.flush_pack || (link.unconnected_empty()
            && buf_len == 0))
    }

    pub fn mark_flushed_ack(&mut self, cnt: u64)
        ensures
            final(self).flushed_ack as int == (if old(self).flushed_ack + cnt <= u64::MAX {
                old(self).flushed_ack + cnt
            } else {
                u64::MAX as int
            }),
            final(self).flush_ack == old(self).flush_ack && final(self).flush_nack == old(self).flush_nack && final(self).flush_pack == old(self).flush_pack,
            final(self).flushed_nack == old(self).flushed_nack,
            final(self).flushed_pack == old(self).flushed_pack,
    {
        self.flushed_ack = sat_add(self.flushed_ack, cnt);
    }

    pub fn mark_flushed_nack(&mut self, cnt: u64)
        ensures
            final(self).flushed_nack as int == (if old(self).flushed_nack + cnt <= u64::MAX {
                old(self).flushed_nack + cnt
            } else {
                u64::MAX as int
            }),
            final(self).flush_ack == old(self).flush_ack && final(self).flush_nack == old(self).flush_nack && final(self).flush_pack == old(self).flush_pack,
            final(self).flushed_ack == old(self).flushed_ack,
            final(self).flushed_pack == old(self).flushed_pack,
    {
        self.flushed_nack = sat_add(self.flushed_nack, cnt);
    }

    pub fn mark_flushed_pack(&mut self, cnt: u64)
        ensures
            final(self).flushed_pack as int == (if old(self).flushed_pack + cnt <= u64::MAX {
                old(self).flushed_pack + cnt
            } else {
                u64::MAX as int
            }),
            final(self).flush_ack == old(self).flush_ack && final(self).flush_nack == old(self).flush_nack && final(self).flush_pack == old(self).flush_pack,
            final(self).flushed_ack == old(self).flushed_ack,
            final(self).flushed_nack == old(self).flushed_nack,
    {
        self.flushed_pack = sat_add(self.flushed_pack, cnt);
    }
}

impl Default for FlushStrategy {
    /// The default drain cycle flushes all three classes.
    fn default() -> (s: FlushStrategy)
        ensures
            s.flush_ack && s.flush_nack && s.flush_pack,
            s.flushed_ack == 0 && s.flushed_nack == 0 && s.flushed_pack == 0,
    {
        FlushStrategy::new(true, true, true)
    }
}

/// Addition that stops at the top of the counter's range.
fn sat_add(a: u64, b: u64) -> (r: u64)
    ensures
        r as int == (if a + b <= u64::MAX {
            a + b
        } else {
            u64::MAX as int
        }),
{
    if a > u64::MAX - b {
        u64::MAX
    } else {
        a + b
    }
}

/// One packet produced by a drain cycle, to hand to the framed socket.
#[derive(Debug)]
pub enum OutPacket {
    /// A connected packet: frame set, ACK or NACK.
    Connected(Packet),
    /// A queued unconnected control packet, already serialized.
    Unconnected(Vec<u8>),
}

/// The sequence number of an emitted frame set, if the packet is one.
pub open spec fn out_seq(p: OutPacket) -> Option<u32> {
    match p {
        OutPacket::Connected(Packet::FrameSet(fs)) => Some(fs.seq_num),
        _ => None,
    }
}

/// Summed wire size of frame models.
pub open spec fn views_size(s: Seq<FrameView>) -> int
    decreases s.len(),
{
    if s.len() == 0 {
        0
    } else {
        views_size(s.drop_last()) + s.last().spec_size()
    }
}

/// Whether any frame of the list is of a reliable class.
pub open spec fn any_reliable(s: Seq<FrameView>) -> bool {
    exists|k: int| 0 <= k < s.len() && spec_is_reliable((#[trigger] s[k]).flags.spec_reliability())
}

/// A frame that is well formed and fits a frame set under this MTU.
pub open spec fn frame_ok(f: FrameView, mtu: u16) -> bool {
    f.wf() && f.spec_size() + FRAME_SET_HEADER_SIZE <= mtu
}

pub open spec fn frames_ok(s: Seq<Frame>, mtu: u16) -> bool {
    forall|k: int| 0 <= k < s.len() ==> frame_ok((#[trigger] s[k])@, mtu)
}

pub open spec fn entries_ok(es: Seq<crate::resend::ResendEntry>, mtu: u16) -> bool {
    forall|k: int| 0 <= k < es.len() ==> frames_ok((#[trigger] es[k]).frames@, mtu)
}

/// How many frames a greedy pass takes from the back of the buffer under
/// the given byte budget.
pub open spec fn pack_count(s: Seq<Frame>, budget: int) -> int
    decreases s.len(),
{
    if s.len() == 0 {
        0
    } else if s.last()@.spec_size() <= budget {
        1 + pack_count(s.drop_last(), budget - s.last()@.spec_size())
    } else {
        0
    }
}

pub proof fn lemma_total_frames_nonneg(es: Seq<crate::resend::ResendEntry>)
    ensures
        total_entry_frames(es) >= 0,
    decreases es.len(),
{
    if es.len() > 0 {
        lemma_total_frames_nonneg(es.drop_last());
    }
}

pub proof fn lemma_pack_count_nonneg(s: Seq<Frame>, budget: int)
    ensures
        pack_count(s, budget) >= 0,
    decreases s.len(),
{
    if s.len() > 0 && s.last()@.spec_size() <= budget {
        lemma_pack_count_nonneg(s.drop_last(), budget - s.last()@.spec_size());
    }
}

/// The models of a list of frames.
pub open spec fn views_of(s: Seq<Frame>) -> Seq<FrameView> {
    s.map(|i: int, f: Frame| f@)
}

/// The same frame models, back to front: the order a greedy pass from
/// the back of the buffer emits them in.
pub open spec fn reversed(s: Seq<FrameView>) -> Seq<FrameView> {
    Seq::new(s.len(), |i: int| s[s.len() - 1 - i])
}

/// How many of the packets are frame sets.
#[verifier::opaque]
pub open spec fn count_frame_sets(s: Seq<OutPacket>) -> int
    decreases s.len(),
{
    if s.len() == 0 {
        0
    } else {
        count_frame_sets(s.drop_last()) + (match s.last() {
            OutPacket::Connected(Packet::FrameSet(_)) => 1int,
            _ => 0,
        })
    }
}

/// How many of the packets are frame sets carrying a reliable frame.
#[verifier::opaque]
pub open spec fn count_reliable_sets(s: Seq<OutPacket>) -> int
    decreases s.len(),
{
    if s.len() == 0 {
        0
    } else {
        count_reliable_sets(s.drop_last()) + (match s.last() {
            OutPacket::Connected(Packet::FrameSet(fs)) => if any_reliable(fs@.frames) {
                1int
            } else {
                0
            },
            _ => 0,
        })
    }
}

/// The frames of the frame sets among the packets, concatenated in
/// emission order.
#[verifier::opaque]
pub open spec fn emitted_frames(s: Seq<OutPacket>) -> Seq<FrameView>
    decreases s.len(),
{
    if s.len() == 0 {
        seq![]
    } else {
        emitted_frames(s.drop_last()) + (match s.last() {
            OutPacket::Connected(Packet::FrameSet(fs)) => fs@.frames,
            _ => seq![],
        })
    }
}

/// The sequence numbers covered by the ACK packets among these, in
/// emission order.
#[verifier::opaque]
pub open spec fn emitted_ack_values(s: Seq<OutPacket>) -> Seq<u32>
    decreases s.len(),
{
    if s.len() == 0 {
        seq![]
    } else {
        emitted_ack_values(s.drop_last()) + (match s.last() {
            OutPacket::Connected(Packet::Ack(a)) => crate::ack::recs_values(a@),
            _ => seq![],
        })
    }
}

/// The sequence numbers covered by the NACK packets among these, in
/// emission order.
#[verifier::opaque]
pub open spec fn emitted_nack_values(s: Seq<OutPacket>) -> Seq<u32>
    decreases s.len(),
{
    if s.len() == 0 {
        seq![]
    } else {
        emitted_nack_values(s.drop_last()) + (match s.last() {
            OutPacket::Connected(Packet::Nack(a)) => crate::ack::recs_values(a@),
            _ => seq![],
        })
    }
}

/// The unconnected payloads among the packets, in emission order.
#[verifier::opaque]
pub open spec fn emitted_unconnected(s: Seq<OutPacket>) -> Seq<Vec<u8>>
    decreases s.len(),
{
    if s.len() == 0 {
        seq![]
    } else {
        emitted_unconnected(s.drop_last()) + (match s.last() {
            OutPacket::Unconnected(p) => seq![p],
            _ => seq![],
        })
    }
}

pub proof fn lemma_counts_nonneg(s: Seq<OutPacket>)
    ensures
        count_frame_sets(s) >= 0,
        count_reliable_sets(s) >= 0,
    decreases s.len(),
{
    reveal(count_frame_sets);
    reveal(count_reliable_sets);
    if s.len() > 0 {
        lemma_counts_nonneg(s.drop_last());
    }
}

/// One emitted packet extends each emission account by exactly its own
/// contribution.
pub proof fn lemma_emitted_push(s: Seq<OutPacket>, p: OutPacket)
    ensures
        count_frame_sets(s.push(p)) == count_frame_sets(s) + (match p {
            OutPacket::Connected(Packet::FrameSet(_)) => 1int,
            _ => 0,
        }),
        count_reliable_sets(s.push(p)) == count_reliable_sets(s) + (match p {
            OutPacket::Connected(Packet::FrameSet(fs)) => if any_reliable(fs@.frames) {
                1int
            } else {
                0
            },
            _ => 0,
        }),
        emitted_frames(s.push(p)) == emitted_frames(s) + (match p {
            OutPacket::Connected(Packet::FrameSet(fs)) => fs@.frames,
            _ => seq![],
        }),
        emitted_ack_values(s.push(p)) == emitted_ack_values(s) + (match p {
            OutPacket::Connected(Packet::Ack(a)) => crate::ack::recs_values(a@),
            _ => seq![],
        }),
        emitted_nack_values(s.push(p)) == emitted_nack_values(s) + (match p {
            OutPacket::Connected(Packet::Nack(a)) => crate::ack::recs_values(a@),
            _ => seq![],
        }),
        emitted_unconnected(s.push(p)) == emitted_unconnected(s) + (match p {
            OutPacket::Unconnected(q) => seq![q],
            _ => seq![],
        }),
{
    reveal(count_frame_sets);
    reveal(count_reliable_sets);
    reveal(emitted_frames);
    reveal(emitted_ack_values);
    reveal(emitted_nack_values);
    reveal(emitted_unconnected);
    assert(s.push(p).drop_last() =~= s);
}

/// With no packets emitted yet, every emission account is empty.
pub proof fn lemma_emitted_empty(s: Seq<OutPacket>)
    requires
        s.len() == 0,
    ensures
        count_frame_sets(s) == 0,
        count_reliable_sets(s) == 0,
        emitted_frames(s) == Seq::<FrameView>::empty(),
        emitted_ack_values(s) == Seq::<u32>::empty(),
        emitted_nack_values(s) == Seq::<u32>::empty(),
        emitted_unconnected(s) == Seq::<Vec<u8>>::empty(),
{
    reveal(count_frame_sets);
    reveal(count_reliable_sets);
    reveal(emitted_frames);
    reveal(emitted_ack_values);
    reveal(emitted_nack_values);
    reveal(emitted_unconnected);
    assert(emitted_frames(s) =~= Seq::<FrameView>::empty());
    assert(emitted_ack_values(s) =~= Seq::<u32>::empty());
    assert(emitted_nack_values(s) =~= Seq::<u32>::empty());
    assert(emitted_unconnected(s) =~= Seq::<Vec<u8>>::empty());
}

/// Emitting one more frame set packed from the back of the buffer
/// extends the back-to-front frame account by exactly its frames.
pub proof fn lemma_frame_account_step(
    app1: Seq<OutPacket>,
    pkt: OutPacket,
    pbuf: Seq<Frame>,
    cur: int,
    k: int,
)
    requires
        (match pkt {
            OutPacket::Connected(Packet::FrameSet(fs)) => {
                &&& k == fs@.frames.len()
                &&& 0 < k <= cur <= pbuf.len()
                &&& forall|i: int| 0 <= i < k ==> #[trigger] fs@.frames[i] == pbuf[cur - 1 - i]@
            },
            _ => false,
        }),
        emitted_frames(app1) == reversed(views_of(pbuf.skip(cur))),
    ensures
        emitted_frames(app1.push(pkt)) == reversed(views_of(pbuf.skip(cur - k))),
{
    lemma_emitted_push(app1, pkt);
    let fsv = (match pkt {
        OutPacket::Connected(Packet::FrameSet(fs)) => fs@.frames,
        _ => seq![],
    });
    let app2 = app1.push(pkt);
    let ll = pbuf.len() as int;
    assert(emitted_frames(app1).len() == ll - cur);
    assert(emitted_frames(app2).len() == ll - (cur - k));
    assert forall|q: int| 0 <= q < ll - (cur - k) implies #[trigger] emitted_frames(app2)[q]
        == views_of(pbuf.skip(cur - k))[ll - (cur - k) - 1 - q] by {
        if q < ll - cur {
            assert(emitted_frames(app2)[q] == emitted_frames(app1)[q]);
            assert(emitted_frames(app1)[q] == reversed(views_of(pbuf.skip(cur)))[q]);
            assert(reversed(views_of(pbuf.skip(cur)))[q] == views_of(pbuf.skip(cur))[ll - cur - 1
                - q]);
            assert(views_of(pbuf.skip(cur))[ll - cur - 1 - q] == pbuf[ll - 1 - q]@);
            assert(views_of(pbuf.skip(cur - k))[ll - (cur - k) - 1 - q] == pbuf[ll - 1 - q]@);
        } else {
            let j = q - (ll - cur);
            assert(emitted_frames(app2)[q] == fsv[j]);
            assert(fsv[j] == pbuf[cur - 1 - j]@);
            assert(views_of(pbuf.skip(cur - k))[ll - (cur - k) - 1 - q] == pbuf[cur - 1 - j]@);
        }
    }
    assert(emitted_frames(app2) =~= reversed(views_of(pbuf.skip(cur - k))));
}

/// Whether some drained ACK (with its receive timestamp) covers `s`.
pub open spec fn any_ack_covers(q: Seq<(crate::ack::Ack, u64)>, s: u32) -> bool {
    exists|k: int| 0 <= k < q.len() && crate::ack::recs_cover((#[trigger] q[k]).0@, s)
}

/// Whether some drained NACK covers `s`.
pub open spec fn any_nack_covers(q: Seq<crate::ack::Ack>, s: u32) -> bool {
    exists|k: int| 0 <= k < q.len() && crate::ack::recs_cover((#[trigger] q[k])@, s)
}

/// What an emitted packet must look like: a frame set bears a sequence
/// number from this drain cycle's block, is well formed, fits the MTU,
/// and, if any of its frames is reliable, is recorded for resending.
pub open spec fn emitted_ok(
    p: OutPacket,
    idx0: int,
    idx: int,
    es: Seq<crate::resend::ResendEntry>,
    mtu: u16,
) -> bool {
    match p {
        OutPacket::Connected(Packet::FrameSet(fs)) => {
            &&& idx0 <= fs.seq_num < idx
            &&& fs@.wf()
            &&& views_size(fs@.frames) + FRAME_SET_HEADER_SIZE <= mtu
            &&& (any_reliable(fs@.frames) ==> exists|k: int|
                0 <= k < es.len() && (#[trigger] es[k]).seq == fs.seq_num && views_of(
                    es[k].frames@,
                ) == fs@.frames)
        },
        _ => true,
    }
}

/// Reliable-retransmit law, sequencing half: a sequence number still
/// awaiting acknowledgement is older than the write index, and a drain
/// cycle assigns emitted frame sets the write index onward, so a
/// retransmission always leaves under a fresh, strictly larger sequence
/// number.
pub proof fn lemma_retransmit_fresh_seq(
    es: Seq<crate::resend::ResendEntry>,
    idx: u32,
    s: u32,
)
    requires
        contains_seq(es, s),
        forall|k: int| 0 <= k < es.len() ==> (#[trigger] es[k]).seq < idx,
    ensures
        s < idx,
{
    let k = choose|k: int| 0 <= k < es.len() && es[k].seq == s;
    assert(es[k].seq < idx);
}


/// Pack and emit one NACK packet if any gap is pending, bumping the
/// covered-count accumulator; the packed values leave the pending set.
fn flush_one_nack(link: &mut TransferLink, mtu: u16, out: &mut Vec<OutPacket>, cnt: &mut u64)
    requires
        old(link).wf(),
        mtu >= 7,
    ensures
        final(link).wf(),
        old(link).ack_nack_disjoint() ==> final(link).ack_nack_disjoint(),
        TransferLink::same_incoming(*old(link), *final(link)),
        TransferLink::same_mail(*old(link), *final(link)),
        TransferLink::same_id(*old(link), *final(link)),
        final(link).outgoing_ack@ == old(link).outgoing_ack@,
        final(out)@.len() >= old(out)@.len(),
        final(out)@.subrange(0, old(out)@.len() as int) == old(out)@,
        old(link).outgoing_nack@.len() == 0 ==> final(out)@ == old(out)@ && final(link).outgoing_nack@ == old(link).outgoing_nack@ && *final(cnt) == *old(cnt),
        old(link).outgoing_nack@.len() > 0 ==> final(out)@.len() == old(out)@.len() + 1 && (
        match final(out)@.last() {
            OutPacket::Connected(Packet::Nack(nack)) => {
                &&& crate::ack::recs_values(nack@) + final(link).outgoing_nack@ == old(link).outgoing_nack@
                &&& crate::ack::recs_values(nack@).len() >= 1
                &&& final(link).outgoing_nack@.len() < old(link).outgoing_nack@.len()
                &&& *final(cnt) as int == (if *old(cnt) + crate::ack::recs_values(nack@).len()
                    <= u64::MAX {
                    *old(cnt) + crate::ack::recs_values(nack@).len()
                } else {
                    u64::MAX as int
                })
            },
            _ => false,
        }),
{
    let ghost before = link.outgoing_nack@;
    match link.process_outgoing_nack(mtu) {
        Some(nack) => {
            *cnt = sat_add(*cnt, nack.total_cnt());
            proof {
                let next = choose|next: int|
                    0 < next <= before.len() && nack@ == crate::ack::rle(
                        #[trigger] before.subrange(0, next),
                    ) && link.outgoing_nack@ == before.skip(next);
                assert(crate::ack::sorted_strict(before.subrange(0, next))
                    && crate::ack::all_u24(before.subrange(0, next))) by {
                    assert(forall|q: int|
                        0 <= q < next ==> before.subrange(0, next)[q] == before[q]);
                }
                crate::ack::lemma_rle_shape(before.subrange(0, next));
                assert(crate::ack::recs_values(nack@) == before.subrange(0, next));
                assert(before.subrange(0, next) + before.skip(next) =~= before);
                crate::ack::lemma_recs_cnt_is_values_len(nack@);
            }
            out.push(OutPacket::Connected(Packet::Nack(nack)));
            proof {
                assert(out@.subrange(0, old(out)@.len() as int) =~= old(out)@);
                assert(out@.last() == out@[out@.len() - 1]);
            }
        },
        None => {},
    }
}

/// Pack and emit one ACK packet if any acknowledgement is pending,
/// bumping the covered-count accumulator.
fn flush_one_ack(link: &mut TransferLink, mtu: u16, out: &mut Vec<OutPacket>, cnt: &mut u64)
    requires
        old(link).wf(),
        mtu >= 7,
    ensures
        final(link).wf(),
        old(link).ack_nack_disjoint() ==> final(link).ack_nack_disjoint(),
        TransferLink::same_incoming(*old(link), *final(link)),
        TransferLink::same_mail(*old(link), *final(link)),
        TransferLink::same_id(*old(link), *final(link)),
        final(link).outgoing_nack@ == old(link).outgoing_nack@,
        final(out)@.len() >= old(out)@.len(),
        final(out)@.subrange(0, old(out)@.len() as int) == old(out)@,
        old(link).outgoing_ack@.len() == 0 ==> final(out)@ == old(out)@ && final(link).outgoing_ack@ == old(link).outgoing_ack@ && *final(cnt) == *old(cnt),
        old(link).outgoing_ack@.len() > 0 ==> final(out)@.len() == old(out)@.len() + 1 && (
        match final(out)@.last() {
            OutPacket::Connected(Packet::Ack(ack)) => {
                &&& crate::ack::recs_values(ack@) + final(link).outgoing_ack@ == old(link).outgoing_ack@
                &&& crate::ack::recs_values(ack@).len() >= 1
                &&& final(link).outgoing_ack@.len() < old(link).outgoing_ack@.len()
                &&& *final(cnt) as int == (if *old(cnt) + crate::ack::recs_values(ack@).len()
                    <= u64::MAX {
                    *old(cnt) + crate::ack::recs_values(ack@).len()
                } else {
                    u64::MAX as int
                })
            },
            _ => false,
        }),
{
    let ghost before = link.outgoing_ack@;
    match link.process_outgoing_ack(mtu) {
        Some(ack) => {
            *cnt = sat_add(*cnt, ack.total_cnt());
            proof {
                let next = choose|next: int|
                    0 < next <= before.len() && ack@ == crate::ack::rle(
                        #[trigger] before.subrange(0, next),
                    ) && link.outgoing_ack@ == before.skip(next);
                assert(crate::ack::sorted_strict(before.subrange(0, next))
                    && crate::ack::all_u24(before.subrange(0, next))) by {
                    assert(forall|q: int|
                        0 <= q < next ==> before.subrange(0, next)[q] == before[q]);
                }
                crate::ack::lemma_rle_shape(before.subrange(0, next));
                assert(crate::ack::recs_values(ack@) == before.subrange(0, next));
                assert(before.subrange(0, next) + before.skip(next) =~= before);
                crate::ack::lemma_recs_cnt_is_values_len(ack@);
            }
            out.push(OutPacket::Connected(Packet::Ack(ack)));
            proof {
                assert(out@.subrange(0, old(out)@.len() as int) =~= old(out)@);
                assert(out@.last() == out@[out@.len() - 1]);
            }
        },
        None => {},
    }
}

/// Emit the oldest queued unconnected packet, if any, bumping the
/// sent-packet accumulator.
fn flush_one_unconnected(link: &mut TransferLink, out: &mut Vec<OutPacket>, cnt: &mut u64)
    ensures
        TransferLink::same_incoming(*old(link), *final(link)),
        TransferLink::same_outgoing(*old(link), *final(link)),
        TransferLink::same_id(*old(link), *final(link)),
        final(link).frame_body@ == old(link).frame_body@,
        final(out)@.len() >= old(out)@.len(),
        final(out)@.subrange(0, old(out)@.len() as int) == old(out)@,
        old(link).unconnected@.len() == 0 ==> final(out)@ == old(out)@ && final(link).unconnected@
            == old(link).unconnected@ && *final(cnt) == *old(cnt),
        old(link).unconnected@.len() > 0 ==> final(out)@.len() == old(out)@.len() + 1 && (
        match final(out)@.last() {
            OutPacket::Unconnected(p) => {
                &&& seq![p] + final(link).unconnected@ == old(link).unconnected@
                &&& final(link).unconnected@.len() < old(link).unconnected@.len()
                &&& *final(cnt) as int == (if *old(cnt) + 1 <= u64::MAX {
                    *old(cnt) + 1
                } else {
                    u64::MAX as int
                })
            },
            _ => false,
        }),
{
    match link.process_unconnected() {
        Some(p) => {
            *cnt = sat_add(*cnt, 1);
            let ghost pv = p;
            out.push(OutPacket::Unconnected(p));
            proof {
                assert(out@.subrange(0, old(out)@.len() as int) =~= old(out)@);
                assert(seq![pv] + link.unconnected@ =~= old(link).unconnected@);
            }
        },
        None => {},
    }
}

/// How much work the selected classes still hold; the drain loop's
/// termination measure.
pub open spec fn drain_measure(s: FlushStrategy, link: TransferLink, buf_len: int) -> int {
    (if s.flush_nack {
        link.outgoing_nack@.len() as int
    } else {
        0
    }) + (if s.flush_ack {
        link.outgoing_ack@.len() as int
    } else {
        0
    }) + (if s.flush_pack {
        link.unconnected@.len() + buf_len
    } else {
        0
    })
}

/// Everything one drain cycle guarantees, relating the guard, the link
/// and the strategy before (`g0`, `l0`, `st0`) and after (`g1`, `l1`,
/// `st1`) the cycle, and the packets it appended (`o1` extends `o0`).
pub open spec fn drain_post(
    g0: OutgoingGuard,
    g1: OutgoingGuard,
    l0: TransferLink,
    l1: TransferLink,
    st0: FlushStrategy,
    st1: FlushStrategy,
    o0: Seq<OutPacket>,
    o1: Seq<OutPacket>,
    now: u64,
) -> bool {
    &&& g1.wf()
    &&& l1.wf()
    &&& (l0.ack_nack_disjoint() ==> l1.ack_nack_disjoint())
    &&& (st1.flush_ack == st0.flush_ack && st1.flush_nack
                == st0.flush_nack && st1.flush_pack == st0.flush_pack)
    &&& st0.spec_check_flushed(l1, g1.buf@.len() as int)
    &&& g1.seq_num_write_index >= g0.seq_num_write_index
    &&& (g1.cap == g0.cap && g1.peer == g0.peer && g1.role == g0.role)
    &&& l1.forward_waking == l0.forward_waking
    &&& o1.len() >= o0.len()
    &&& o1.subrange(0, o0.len() as int) == o0
    &&& (forall|k: int| o0.len() <= k < o1.len() ==> emitted_ok(
                #[trigger] o1[k],
                g0.seq_num_write_index as int,
                g1.seq_num_write_index as int,
                g1.resend.entries@,
                g0.peer.mtu,
            ))
    &&& (forall|k1: int, k2: int|
                o0.len() <= k1 < k2 < o1.len() && #[trigger] out_seq(
                    o1[k1],
                ) is Some && #[trigger] out_seq(o1[k2]) is Some ==> out_seq(
                    o1[k1],
                )->Some_0 < out_seq(o1[k2])->Some_0)
    &&& (forall|s: u32|
                s < g0.seq_num_write_index && (any_ack_covers(
                    l0.incoming_ack@,
                    s,
                ) || any_nack_covers(l0.incoming_nack@, s)) ==> !contains_seq(
                    g1.resend.entries@,
                    s,
                ))
    &&& // the write index advances by exactly the number of emitted
            // frame sets, and at most one per frame that was buffered or
            // recorded, which lets a caller budget the sequence space
            g1.seq_num_write_index as int == g0.seq_num_write_index
                + count_frame_sets(o1.skip(o0.len() as int))
    &&& count_frame_sets(o1.skip(o0.len() as int)) <= g0.buf@.len() + total_entry_frames(
        g0.resend.entries@,
    )
    &&& // the resend entries that survive are exactly those neither
            // acknowledged, negatively acknowledged nor timed out ...
            g1.resend.entries@.take(
                remove_stale(
                    entries_after_nacks(
                        entries_after_acks(g0.resend.entries@, l0.incoming_ack@),
                        l0.incoming_nack@,
                    ),
                    now,
                ).len() as int,
            ) == remove_stale(
                entries_after_nacks(
                    entries_after_acks(g0.resend.entries@, l0.incoming_ack@),
                    l0.incoming_nack@,
                ),
                now,
            )
    &&& // ... plus one per emitted reliable frame set and nothing else
            g1.resend.entries@.len() == remove_stale(
                entries_after_nacks(
                    entries_after_acks(g0.resend.entries@, l0.incoming_ack@),
                    l0.incoming_nack@,
                ),
                now,
            ).len() + count_reliable_sets(o1.skip(o0.len() as int))
    &&& // the unsent buffer is a prefix of the requeued-then-buffered
            // frames, and the emitted frame sets carry exactly the rest
            // of them, taken from the back
            g1.buf@ == (stale_frames(
                entries_after_nacks(
                    entries_after_acks(g0.resend.entries@, l0.incoming_ack@),
                    l0.incoming_nack@,
                ),
                now,
            ) + requeued_by_nacks(
                entries_after_acks(g0.resend.entries@, l0.incoming_ack@),
                l0.incoming_nack@,
            ) + g0.buf@).take(g1.buf@.len() as int)
    &&& emitted_frames(o1.skip(o0.len() as int)) == reversed(
                views_of(
                    (stale_frames(
                        entries_after_nacks(
                            entries_after_acks(
                                g0.resend.entries@,
                                l0.incoming_ack@,
                            ),
                            l0.incoming_nack@,
                        ),
                        now,
                    ) + requeued_by_nacks(
                        entries_after_acks(g0.resend.entries@, l0.incoming_ack@),
                        l0.incoming_nack@,
                    ) + g0.buf@).skip(g1.buf@.len() as int),
                ),
            )
    &&& // emitted ACK packets cover, in order, exactly what leaves
            // the pending-acknowledgement set; likewise NACK packets and
            // the unconnected mailbox
            (st0.flush_ack ==> emitted_ack_values(
                o1.skip(o0.len() as int),
            ) + l1.outgoing_ack@ == l0.outgoing_ack@)
    &&& (!st0.flush_ack ==> emitted_ack_values(
                o1.skip(o0.len() as int),
            ) == Seq::<u32>::empty() && l1.outgoing_ack@ == l0.outgoing_ack@)
    &&& (st0.flush_nack ==> emitted_nack_values(
                o1.skip(o0.len() as int),
            ) + l1.outgoing_nack@ == l0.outgoing_nack@)
    &&& (!st0.flush_nack ==> emitted_nack_values(
                o1.skip(o0.len() as int),
            ) == Seq::<u32>::empty() && l1.outgoing_nack@ == l0.outgoing_nack@)
    &&& (st0.flush_pack ==> emitted_unconnected(
                o1.skip(o0.len() as int),
            ) + l1.unconnected@ == l0.unconnected@)
    &&& (!st0.flush_pack ==> emitted_unconnected(
                o1.skip(o0.len() as int),
            ) == Seq::<Vec<u8>>::empty() && l1.unconnected@ == l0.unconnected@)
    &&& // the received-packet queues are fully absorbed
            l1.incoming_ack@.len() == 0
    &&& l1.incoming_nack@.len() == 0
    &&& // the flushed counters are bumped once, by the sequence
            // numbers covered and the packets sent, stopping at the top
            st1.flushed_ack as int == (if st0.flushed_ack
                + emitted_ack_values(o1.skip(o0.len() as int)).len()
                <= u64::MAX {
                st0.flushed_ack + emitted_ack_values(
                    o1.skip(o0.len() as int),
                ).len()
            } else {
                u64::MAX as int
            })
    &&& st1.flushed_nack as int == (if st0.flushed_nack
                + emitted_nack_values(o1.skip(o0.len() as int)).len()
                <= u64::MAX {
                st0.flushed_nack + emitted_nack_values(
                    o1.skip(o0.len() as int),
                ).len()
            } else {
                u64::MAX as int
            })
    &&& st1.flushed_pack as int == (if st0.flushed_pack
                + emitted_unconnected(o1.skip(o0.len() as int)).len()
                + count_frame_sets(o1.skip(o0.len() as int)) <= u64::MAX {
                st0.flushed_pack + emitted_unconnected(
                    o1.skip(o0.len() as int),
                ).len() + count_frame_sets(o1.skip(o0.len() as int))
            } else {
                u64::MAX as int
            })
    &&& // frames never multiply: what is buffered or recorded
            // afterwards is bounded by what was buffered or recorded
            g1.buf@.len() + total_entry_frames(g1.resend.entries@) <= g0.buf@.len() + total_entry_frames(g0.resend.entries@)
}

/// The write-side state machine: the outgoing frame buffer (front at
/// index zero), the next sequence number to assign, the buffer capacity
/// that backpressure enforces, and the resend map.
#[derive(Debug)]
pub struct OutgoingGuard {
    pub buf: VecDeque<Frame>,
    pub seq_num_write_index: u32,
    pub cap: usize,
    pub peer: Peer,
    pub role: Role,
    pub resend: ResendMap,
}

impl OutgoingGuard {
    /// Buffered and recorded frames all fit the MTU, the resend map is
    /// ordered below the write index, and the write index has not left
    /// the sequence-number space.
    pub open spec fn wf(self) -> bool {
        &&& self.cap > 0
        &&& self.peer.mtu >= 7
        &&& frames_ok(self.buf@, self.peer.mtu)
        &&& self.resend.wf()
        &&& entries_ok(self.resend.entries@, self.peer.mtu)
        &&& self.seq_num_write_index <= U24_MAX_PLUS_ONE
        &&& forall|k: int| 0 <= k < self.resend.entries@.len() ==> (
        #[trigger] self.resend.entries@[k]).seq < self.seq_num_write_index
    }

    /// A guard for one peer, with an empty buffer and an empty resend
    /// map. The capacity must be positive and the MTU must leave room
    /// for at least the smallest packets.
    pub fn new(cap: usize, peer: Peer, role: Role) -> (g: OutgoingGuard)
        requires
            cap > 0,
            peer.mtu >= 7,
        ensures
            g.wf(),
            g.buf@.len() == 0,
            g.seq_num_write_index == 0,
            g.cap == cap,
            g.peer == peer,
            g.role == role,
            g.resend.entries@.len() == 0,
    {
        OutgoingGuard {
            buf: VecDeque::new(),
            seq_num_write_index: 0,
            cap,
            peer,
            role,
            resend: ResendMap::new(),
        }
    }

    /// Accept one frame from the upper layer: it goes to the front of the
    /// buffer, so on the next cycle it is sent after any retransmissions
    /// already queued there but before older buffered frames are packed
    /// again. Frames wider than the MTU budget must be fragmented by the
    /// caller and are not accepted.
    pub fn start_send(&mut self, frame: Frame)
        requires
            old(self).wf(),
            frame_ok(frame@, old(self).peer.mtu),
        ensures
            final(self).wf(),
            final(self).buf@ == seq![frame] + old(self).buf@,
            final(self).seq_num_write_index == old(self).seq_num_write_index,
            final(self).resend == old(self).resend,
            final(self).cap == old(self).cap && final(self).peer == old(self).peer && final(self).role == old(self).role,
    {
        self.buf.push_front(frame);
        proof {
            assert(self.buf@ =~= seq![frame] + old(self).buf@);
        }
    }

    /// Pack one frame set greedily from the back of the buffer: frames
    /// are taken while they fit the MTU budget, the set gets the next
    /// sequence number, and a set carrying any reliable frame is recorded
    /// for resending. An empty buffer packs nothing.
    pub fn pack_frame_set(&mut self, now: u64) -> (r: Option<FrameSet>)
        requires
            old(self).wf(),
            old(self).seq_num_write_index < U24_MAX_PLUS_ONE,
            now + RESEND_TIMEOUT_MILLIS <= u64::MAX,
        ensures
            final(self).wf(),
            final(self).cap == old(self).cap && final(self).peer == old(self).peer && final(self).role == old(self).role,
            old(self).buf@.len() == 0 ==> r is None && final(self).buf@ == old(self).buf@ && final(self).seq_num_write_index == old(self).seq_num_write_index && final(self).resend.entries@
                == old(self).resend.entries@,
            old(self).buf@.len() > 0 ==> (match r {
                Some(fs) => {
                    let k = pack_count(
                        old(self).buf@,
                        old(self).peer.mtu - FRAME_SET_HEADER_SIZE,
                    );
                    &&& 1 <= k <= old(self).buf@.len()
                    &&& fs.seq_num == old(self).seq_num_write_index
                    &&& final(self).seq_num_write_index == old(self).seq_num_write_index + 1
                    &&& fs@.frames.len() == k
                    &&& (forall|i: int| 0 <= i < k ==> #[trigger] fs@.frames[i] == old(self).buf@[old(self).buf@.len() - 1 - i]@)
                    &&& final(self).buf@ == old(self).buf@.take(old(self).buf@.len() - k)
                    &&& fs.wf()
                    &&& views_size(fs@.frames) + FRAME_SET_HEADER_SIZE <= old(self).peer.mtu
                    &&& (any_reliable(fs@.frames) ==> {
                        &&& final(self).resend.entries@.len() == old(self).resend.entries@.len() + 1
                        &&& final(self).resend.entries@.last().seq == fs.seq_num
                        &&& final(self).resend.entries@.last().sent_at == now
                        &&& final(self).resend.entries@.last().frames@.map(
                            |i: int, f: Frame| f@,
                        ) == fs@.frames
                        &&& final(self).resend.entries@.take(old(self).resend.entries@.len() as int)
                            == old(self).resend.entries@
                    })
                    &&& (!any_reliable(fs@.frames) ==> final(self).resend.entries@ == old(self).resend.entries@)
                },
                None => false,
            }),
    {
        let budget: usize = self.peer.mtu as usize - FRAME_SET_HEADER_SIZE;
        let ghost buf0 = self.buf@;
        let mut frames: Vec<Frame> = Vec::new();
        let mut reliable = false;
        let mut remain: usize = budget;
        let mut done = false;
        while !done
            invariant
                self.cap == old(self).cap && self.peer == old(self).peer && self.role == old(self).role,
                self.seq_num_write_index == old(self).seq_num_write_index,
                self.resend == old(self).resend,
                old(self).wf(),
                buf0 == old(self).buf@,
                budget == self.peer.mtu - FRAME_SET_HEADER_SIZE,
                frames@.len() <= buf0.len(),
                self.buf@ == buf0.take(buf0.len() - frames@.len()),
                forall|i: int| 0 <= i < frames@.len() ==> #[trigger] frames@[i]@ == buf0[buf0.len()
                    - 1 - i]@,
                remain as int == budget - views_size(frames@.map(|i: int, f: Frame| f@)),
                reliable == any_reliable(frames@.map(|i: int, f: Frame| f@)),
                !done ==> pack_count(buf0, budget as int) == frames@.len() + pack_count(
                    self.buf@,
                    remain as int,
                ),
                done ==> pack_count(buf0, budget as int) == frames@.len(),
            decreases self.buf@.len() + (if done { 0int } else { 1int }),
        {
            let ghost views = frames@.map(|i: int, f: Frame| f@);
            if self.buf.len() == 0 {
                done = true;
            } else {
                proof {
                    assert(self.buf@.last() == buf0[buf0.len() - 1 - frames@.len()]);
                    assert(frame_ok(self.buf@.last()@, self.peer.mtu));
                }
                let fsize = self.buf[self.buf.len() - 1].size();
                if fsize <= remain {
                    match self.buf.pop_back() {
                        Some(f) => {
                            let rel = match f.flags.reliability() {
                                Ok(rel) => rel.is_reliable(),
                                Err(_) => false,
                            };
                            if rel {
                                reliable = true;
                            }
                            frames.push(f);
                            remain = remain - fsize;
                            proof {
                                let nviews = frames@.map(|i: int, f: Frame| f@);
                                assert(nviews =~= views.push(f@));
                                assert(views.push(f@).drop_last() =~= views);
                                assert(views_size(nviews) == views_size(views) + f@.spec_size());
                                assert(any_reliable(nviews) == (any_reliable(views)
                                    || spec_is_reliable(f@.flags.spec_reliability()))) by {
                                    if any_reliable(views) {
                                        let q = choose|q: int|
                                            0 <= q < views.len() && spec_is_reliable(
                                                (#[trigger] views[q]).flags.spec_reliability(),
                                            );
                                        assert(spec_is_reliable(
                                            nviews[q].flags.spec_reliability(),
                                        ));
                                    }
                                    if spec_is_reliable(f@.flags.spec_reliability()) {
                                        assert(spec_is_reliable(
                                            nviews[nviews.len() - 1].flags.spec_reliability(),
                                        ));
                                    }
                                    if any_reliable(nviews) && !any_reliable(views)
                                        && !spec_is_reliable(f@.flags.spec_reliability()) {
                                        let q = choose|q: int|
                                            0 <= q < nviews.len() && spec_is_reliable(
                                                (#[trigger] nviews[q]).flags.spec_reliability(),
                                            );
                                        if q < views.len() {
                                            assert(spec_is_reliable(
                                                views[q].flags.spec_reliability(),
                                            ));
                                        }
                                    }
                                }
                                assert(self.buf@ =~= buf0.take(buf0.len() - frames@.len()));
                            }
                        },
                        None => {
                            proof {
                                assert(false);
                            }
                        },
                    }
                } else {
                    done = true;
                }
            }
        }
        if frames.len() == 0 {
            proof {
                assert(buf0.len() == 0) by {
                    if buf0.len() > 0 {
                        assert(frame_ok(buf0[buf0.len() - 1]@, self.peer.mtu));
                        lemma_pack_count_nonneg(
                            buf0.drop_last(),
                            budget - buf0.last()@.spec_size(),
                        );
                        assert(pack_count(buf0, budget as int) >= 1);
                    }
                }
                assert(self.buf@ =~= buf0);
            }
            return None;
        }
        let seq = self.seq_num_write_index;
        if reliable {
            let mut dups: Vec<Frame> = Vec::new();
            let mut i: usize = 0;
            while i < frames.len()
                invariant
                    i <= frames@.len(),
                    dups@.len() == i,
                    forall|j: int| 0 <= j < i ==> #[trigger] dups@[j]@ == frames@[j]@,
                decreases frames@.len() - i,
            {
                let d = frames[i].duplicate();
                dups.push(d);
                i = i + 1;
            }
            proof {
                assert(dups@.map(|i: int, f: Frame| f@) =~= frames@.map(|i: int, f: Frame| f@));
            }
            self.resend.record(seq, dups, now);
        }
        self.seq_num_write_index = seq + 1;
        let fs = FrameSet { seq_num: seq, frames };
        proof {
            assert(fs@.frames =~= fs.frames@.map(|i: int, f: Frame| f@));
            if any_reliable(fs@.frames) {
                assert(self.resend.entries@.take(old(self).resend.entries@.len() as int)
                    =~= old(self).resend.entries@);
            }
        }
        Some(fs)
    }


    /// Pack one frame set from the back of the buffer, emit it, and bump
    /// the sent-packet accumulator; a set carrying a reliable frame is
    /// recorded for resending with exactly its frames.
    fn flush_one_frame_set(&mut self, now: u64, out: &mut Vec<OutPacket>, cnt: &mut u64)
        requires
            old(self).wf(),
            old(self).buf@.len() > 0,
            old(self).seq_num_write_index < U24_MAX_PLUS_ONE,
            now + RESEND_TIMEOUT_MILLIS <= u64::MAX,
        ensures
            final(self).wf(),
            final(self).cap == old(self).cap && final(self).peer == old(self).peer && final(self).role == old(self).role,
            final(out)@.len() == old(out)@.len() + 1,
            final(out)@.subrange(0, old(out)@.len() as int) == old(out)@,
            (match final(out)@.last() {
                OutPacket::Connected(Packet::FrameSet(fs)) => {
                    let k = fs@.frames.len() as int;
                    &&& fs.seq_num == old(self).seq_num_write_index
                    &&& final(self).seq_num_write_index == old(self).seq_num_write_index + 1
                    &&& fs@.wf()
                    &&& views_size(fs@.frames) + FRAME_SET_HEADER_SIZE <= old(self).peer.mtu
                    &&& 1 <= k <= old(self).buf@.len()
                    &&& (forall|i: int| 0 <= i < k ==> #[trigger] fs@.frames[i] == old(self).buf@[
                        old(self).buf@.len() - 1 - i]@)
                    &&& final(self).buf@ == old(self).buf@.take(old(self).buf@.len() - k)
                    &&& (any_reliable(fs@.frames) ==> {
                        &&& final(self).resend.entries@.len() == old(self).resend.entries@.len()
                            + 1
                        &&& final(self).resend.entries@.last().seq == fs.seq_num
                        &&& views_of(final(self).resend.entries@.last().frames@) == fs@.frames
                        &&& final(self).resend.entries@.take(old(self).resend.entries@.len() as int)
                            == old(self).resend.entries@
                        &&& total_entry_frames(final(self).resend.entries@) == total_entry_frames(
                            old(self).resend.entries@,
                        ) + k
                    })
                    &&& (!any_reliable(fs@.frames) ==> final(self).resend.entries@ == old(self).resend.entries@)
                    &&& *final(cnt) as int == (if *old(cnt) + 1 <= u64::MAX {
                        *old(cnt) + 1
                    } else {
                        u64::MAX as int
                    })
                },
                _ => false,
            }),
    {
        match self.pack_frame_set(now) {
            Some(fs) => {
                *cnt = sat_add(*cnt, 1);
                proof {
                    if any_reliable(fs@.frames) {
                        crate::resend::lemma_total_entry_frames_push(
                            old(self).resend.entries@,
                            self.resend.entries@.last(),
                        );
                        assert(self.resend.entries@ =~= old(self).resend.entries@.push(
                            self.resend.entries@.last(),
                        ));
                        assert(self.resend.entries@.last().frames@.len() == fs@.frames.len());
                    }
                }
                out.push(OutPacket::Connected(Packet::FrameSet(fs)));
                proof {
                    assert(out@.subrange(0, old(out)@.len() as int) =~= old(out)@);
                    assert(out@.last() == out@[out@.len() - 1]);
                }
            },
            None => {
                proof {
                    assert(false);
                }
            },
        }
    }

    /// One full drain cycle: absorb received ACKs into the resend map,
    /// put NACKed and timed-out frames back at the front of the buffer,
    /// then emit pending NACKs, ACKs, queued unconnected packets and
    /// greedily packed frame sets until every selected class is drained.
    /// The produced packets are appended to `out` in send order. The
    /// contract accounts for everything: the frames of the emitted frame
    /// sets are exactly the requeued and buffered frames, taken from the
    /// back; the emitted ACK/NACK packets cover exactly the pending sets;
    /// the queued unconnected packets leave in order; surviving resend
    /// entries are exactly those neither acknowledged, negatively
    /// acknowledged nor timed out, plus one per emitted reliable set; the
    /// write index advances by exactly the number of emitted sets; and
    /// the flushed counters are bumped once by the amounts sent.
    #[verifier::rlimit(100)]
    #[verifier::spinoff_prover]
    pub fn try_empty(
        &mut self,
        link: &mut TransferLink,
        strategy: &mut FlushStrategy,
        now: u64,
        out: &mut Vec<OutPacket>,
    )
        requires
            old(self).wf(),
            old(link).wf(),
            now + RESEND_TIMEOUT_MILLIS <= u64::MAX,
            old(self).seq_num_write_index + old(self).buf@.len() + total_entry_frames(
                old(self).resend.entries@,
            ) <= U24_MAX_PLUS_ONE,
        ensures
            drain_post(
                *old(self),
                *final(self),
                *old(link),
                *final(link),
                *old(strategy),
                *final(strategy),
                old(out)@,
                final(out)@,
                now,
            ),
    {
        let ghost out0 = out@;
        let ghost s0 = old(self).seq_num_write_index + old(self).buf@.len() + total_entry_frames(
            old(self).resend.entries@,
        );
        // absorb received acknowledgements into the resend map
        let acks = link.process_ack();
        proof {
            assert(acks@.take(0) =~= Seq::<(crate::ack::Ack, u64)>::empty());
        }
        let mut i: usize = 0;
        while i < acks.len()
            invariant
                i <= acks@.len(),
                self.resend.wf(),
                entries_ok(self.resend.entries@, self.peer.mtu),
                forall|k: int| 0 <= k < self.resend.entries@.len() ==> (
                #[trigger] self.resend.entries@[k]).seq < self.seq_num_write_index,
                self.buf == old(self).buf,
                self.seq_num_write_index == old(self).seq_num_write_index,
                self.cap == old(self).cap && self.peer == old(self).peer && self.role == old(self).role,
                old(self).wf(),
                self.seq_num_write_index + self.buf@.len() + total_entry_frames(
                    self.resend.entries@,
                ) <= s0,
                self.resend.entries@ == entries_after_acks(
                    old(self).resend.entries@,
                    acks@.take(i as int),
                ),
                forall|s: u32| any_ack_covers(acks@.take(i as int), s) ==> !contains_seq(
                    self.resend.entries@,
                    s,
                ),
            decreases acks@.len() - i,
        {
            let ghost prev = self.resend.entries@;
            self.resend.on_ack(&acks[i].0);
            proof {
                lemma_remove_covered_sorted(prev, acks@[i as int].0@);
                lemma_covered_split(prev, acks@[i as int].0@);
                lemma_entries_after_acks_push(
                    old(self).resend.entries@,
                    acks@.take(i as int),
                    acks@[i as int],
                );
                assert(acks@.take(i as int).push(acks@[i as int]) =~= acks@.take(i as int + 1));
                assert forall|s: u32| any_ack_covers(acks@.take(i as int + 1), s)
                    implies !contains_seq(self.resend.entries@, s) by {
                    let k = choose|k: int|
                        0 <= k < i + 1 && crate::ack::recs_cover(
                            (#[trigger] acks@.take(i as int + 1)[k]).0@,
                            s,
                        );
                    if k < i {
                        assert(acks@.take(i as int)[k] == acks@[k]);
                        assert(any_ack_covers(acks@.take(i as int), s));
                        assert(!contains_seq(prev, s));
                    } else {
                        assert(crate::ack::recs_cover(acks@[i as int].0@, s));
                    }
                }
                assert forall|k: int| 0 <= k < self.resend.entries@.len() implies frames_ok(
                    (#[trigger] self.resend.entries@[k]).frames@,
                    self.peer.mtu,
                ) && self.resend.entries@[k].seq < self.seq_num_write_index by {
                    let q = choose|q: int|
                        0 <= q < prev.len() && self.resend.entries@[k] == prev[q];
                    assert(frames_ok(prev[q].frames@, self.peer.mtu));
                }
            }
            i = i + 1;
        }
        // put negatively acknowledged frames back at the front
        let nacks = link.process_nack();
        let ghost e1x = entries_after_acks(old(self).resend.entries@, acks@);
        proof {
            assert(acks@.take(acks@.len() as int) =~= acks@);
            assert(forall|s: u32| !any_nack_covers(nacks@.take(0), s)) by {
                assert(nacks@.take(0).len() == 0);
            }
            assert(nacks@.take(0) =~= Seq::<crate::ack::Ack>::empty());
            assert(requeued_by_nacks(e1x, nacks@.take(0)) + old(self).buf@ =~= old(self).buf@);
        }
        let mut i: usize = 0;
        while i < nacks.len()
            invariant
                i <= nacks@.len(),
                e1x == entries_after_acks(old(self).resend.entries@, acks@),
                self.resend.wf(),
                entries_ok(self.resend.entries@, self.peer.mtu),
                frames_ok(self.buf@, self.peer.mtu),
                forall|k: int| 0 <= k < self.resend.entries@.len() ==> (
                #[trigger] self.resend.entries@[k]).seq < self.seq_num_write_index,
                self.seq_num_write_index == old(self).seq_num_write_index,
                self.cap == old(self).cap && self.peer == old(self).peer && self.role == old(self).role,
                self.seq_num_write_index + self.buf@.len() + total_entry_frames(
                    self.resend.entries@,
                ) <= s0,
                self.resend.entries@ == entries_after_nacks(e1x, nacks@.take(i as int)),
                self.buf@ == requeued_by_nacks(e1x, nacks@.take(i as int)) + old(self).buf@,
                forall|s: u32| any_ack_covers(acks@, s) ==> !contains_seq(
                    self.resend.entries@,
                    s,
                ),
                forall|s: u32| any_nack_covers(nacks@.take(i as int), s) ==> !contains_seq(
                    self.resend.entries@,
                    s,
                ),
            decreases nacks@.len() - i,
        {
            let ghost prev = self.resend.entries@;
            let ghost prev_buf = self.buf@;
            self.resend.on_nack_into(&nacks[i], &mut self.buf);
            proof {
                lemma_remove_covered_sorted(prev, nacks@[i as int]@);
                lemma_entries_after_nacks_push(e1x, nacks@.take(i as int), nacks@[i as int]);
                lemma_requeued_by_nacks_push(e1x, nacks@.take(i as int), nacks@[i as int]);
                assert(nacks@.take(i as int).push(nacks@[i as int]) =~= nacks@.take(
                    i as int + 1,
                ));
                assert(self.buf@ =~= requeued_by_nacks(e1x, nacks@.take(i as int + 1)) + old(self).buf@);
                assert forall|s: u32| any_nack_covers(nacks@.take(i as int + 1), s)
                    implies !contains_seq(self.resend.entries@, s) by {
                    let k = choose|k: int|
                        0 <= k < i + 1 && crate::ack::recs_cover(
                            (#[trigger] nacks@.take(i as int + 1)[k])@,
                            s,
                        );
                    if k < i {
                        assert(nacks@.take(i as int)[k] == nacks@[k]);
                        assert(any_nack_covers(nacks@.take(i as int), s));
                        assert(!contains_seq(prev, s));
                    } else {
                        assert(crate::ack::recs_cover(nacks@[i as int]@, s));
                    }
                }
                lemma_covered_frames_from_entries(prev, nacks@[i as int]@);
                lemma_covered_split(prev, nacks@[i as int]@);
                let moved = crate::resend::covered_frames(prev, nacks@[i as int]@);
                assert forall|k: int| 0 <= k < self.buf@.len() implies frame_ok(
                    (#[trigger] self.buf@[k])@,
                    self.peer.mtu,
                ) by {
                    if k < moved.len() {
                        assert(self.buf@[k] == moved[k]);
                        assert(crate::resend::frame_from_entries(prev, moved[k]));
                        let (q, l) = choose|q: int, l: int|
                            0 <= q < prev.len() && 0 <= l < prev[q].frames@.len() && moved[k]
                                == #[trigger] prev[q].frames@[l];
                        assert(frames_ok(prev[q].frames@, self.peer.mtu));
                        assert(frame_ok(prev[q].frames@[l]@, self.peer.mtu));
                    } else {
                        assert(self.buf@[k] == prev_buf[k - moved.len()]);
                    }
                }
                assert forall|k: int| 0 <= k < self.resend.entries@.len() implies frames_ok(
                    (#[trigger] self.resend.entries@[k]).frames@,
                    self.peer.mtu,
                ) && self.resend.entries@[k].seq < self.seq_num_write_index by {
                    let q = choose|q: int|
                        0 <= q < prev.len() && self.resend.entries@[k] == prev[q];
                    assert(frames_ok(prev[q].frames@, self.peer.mtu));
                }
            }
            i = i + 1;
        }
        // re-queue frame sets that have waited past the timeout
        let ghost e2x = entries_after_nacks(e1x, nacks@);
        let ghost prev = self.resend.entries@;
        let ghost prev_buf = self.buf@;
        proof {
            assert(nacks@.take(nacks@.len() as int) =~= nacks@);
            assert(prev == e2x);
        }
        self.resend.process_stales(now, &mut self.buf);
        proof {
            lemma_remove_stale_sorted(prev, now);
            lemma_stale_frames_from_entries(prev, now);
            lemma_stale_split(prev, now);
            let moved = crate::resend::stale_frames(prev, now);
            assert forall|k: int| 0 <= k < self.buf@.len() implies frame_ok(
                (#[trigger] self.buf@[k])@,
                self.peer.mtu,
            ) by {
                if k < moved.len() {
                    assert(self.buf@[k] == moved[k]);
                    assert(crate::resend::frame_from_entries(prev, moved[k]));
                    let (q, l) = choose|q: int, l: int|
                        0 <= q < prev.len() && 0 <= l < prev[q].frames@.len() && moved[k]
                            == #[trigger] prev[q].frames@[l];
                    assert(frames_ok(prev[q].frames@, self.peer.mtu));
                    assert(frame_ok(prev[q].frames@[l]@, self.peer.mtu));
                } else {
                    assert(self.buf@[k] == prev_buf[k - moved.len()]);
                }
            }
            assert forall|k: int| 0 <= k < self.resend.entries@.len() implies frames_ok(
                (#[trigger] self.resend.entries@[k]).frames@,
                self.peer.mtu,
            ) && self.resend.entries@[k].seq < self.seq_num_write_index by {
                let q = choose|q: int| 0 <= q < prev.len() && self.resend.entries@[k] == prev[q];
                assert(frames_ok(prev[q].frames@, self.peer.mtu));
            }
            lemma_total_frames_nonneg(self.resend.entries@);
        }
        proof {
            crate::resend::lemma_remove_stale_contains(prev, now);
            assert forall|s: u32| (any_ack_covers(acks@, s) || any_nack_covers(nacks@, s))
                implies !contains_seq(self.resend.entries@, s) by {
                assert(acks@.take(acks@.len() as int) =~= acks@);
                assert(nacks@.take(nacks@.len() as int) =~= nacks@);
                assert(!contains_seq(prev, s));
            }
        }
        let ghost idx0 = self.seq_num_write_index;
        let ghost bound1 = self.seq_num_write_index + self.buf@.len();
        let ghost base = remove_stale(e2x, now);
        let ghost pbuf = self.buf@;
        let ghost ft0 = self.buf@.len() + total_entry_frames(self.resend.entries@);
        let ghost a0 = link.outgoing_ack@;
        let ghost n0 = link.outgoing_nack@;
        let ghost u0 = link.unconnected@;
        proof {
            assert(bound1 <= U24_MAX_PLUS_ONE);
            assert(pbuf =~= stale_frames(e2x, now) + requeued_by_nacks(e1x, nacks@) + old(self).buf@);
            assert(a0 == old(link).outgoing_ack@);
            assert(n0 == old(link).outgoing_nack@);
            assert(u0 == old(link).unconnected@);
            assert(ft0 <= old(self).buf@.len() + total_entry_frames(old(self).resend.entries@));
            assert(pbuf.len() <= old(self).buf@.len() + total_entry_frames(
                old(self).resend.entries@,
            ));
            assert(out@.skip(out0.len() as int) =~= Seq::<OutPacket>::empty());
            lemma_emitted_empty(out@.skip(out0.len() as int));
            assert(pbuf.take(pbuf.len() as int) =~= pbuf);
            assert(reversed(views_of(pbuf.skip(pbuf.len() as int))) =~= Seq::<
                FrameView,
            >::empty());
            assert(self.resend.entries@.take(base.len() as int) =~= base);
        }
        // drain the selected classes
        let fa = strategy.flush_ack;
        let fnk = strategy.flush_nack;
        let fp = strategy.flush_pack;
        let mut ack_cnt: u64 = 0;
        let mut nack_cnt: u64 = 0;
        let mut pack_cnt: u64 = 0;
        let mut flushed = strategy.check_flushed(link, self.buf.len());
        while !flushed
            invariant
                fa == strategy.flush_ack && fnk == strategy.flush_nack && fp
                    == strategy.flush_pack,
                *strategy == *old(strategy),
                self.wf(),
                link.wf(),
                old(link).ack_nack_disjoint() ==> link.ack_nack_disjoint(),
                link.forward_waking == old(link).forward_waking,
                link.incoming_ack@.len() == 0 && link.incoming_nack@.len() == 0,
                self.cap == old(self).cap && self.peer == old(self).peer && self.role == old(self).role,
                idx0 == old(self).seq_num_write_index,
                self.seq_num_write_index >= idx0,
                self.seq_num_write_index + self.buf@.len() <= bound1,
                bound1 <= U24_MAX_PLUS_ONE,
                bound1 == idx0 + pbuf.len(),
                pbuf.len() <= old(self).buf@.len() + total_entry_frames(
                    old(self).resend.entries@,
                ),
                now + RESEND_TIMEOUT_MILLIS <= u64::MAX,
                out@.len() >= out0.len(),
                out@.subrange(0, out0.len() as int) == out0,
                forall|k: int| out0.len() <= k < out@.len() ==> emitted_ok(
                    #[trigger] out@[k],
                    idx0 as int,
                    self.seq_num_write_index as int,
                    self.resend.entries@,
                    self.peer.mtu,
                ),
                forall|k1: int, k2: int|
                    out0.len() <= k1 < k2 < out@.len() && #[trigger] out_seq(out@[k1]) is Some
                        && #[trigger] out_seq(out@[k2]) is Some ==> out_seq(out@[k1])->Some_0
                        < out_seq(out@[k2])->Some_0,
                forall|s: u32| s < idx0 && (any_ack_covers(acks@, s) || any_nack_covers(
                    nacks@,
                    s,
                )) ==> !contains_seq(self.resend.entries@, s),
                acks@ == old(link).incoming_ack@,
                nacks@ == old(link).incoming_nack@,
                base == remove_stale(e2x, now),
                e1x == entries_after_acks(old(self).resend.entries@, acks@),
                e2x == entries_after_nacks(e1x, nacks@),
                pbuf == stale_frames(e2x, now) + requeued_by_nacks(e1x, nacks@) + old(self).buf@,
                self.resend.entries@.take(base.len() as int) == base,
                self.resend.entries@.len() == base.len() + count_reliable_sets(
                    out@.skip(out0.len() as int),
                ),
                self.seq_num_write_index as int == idx0 + count_frame_sets(
                    out@.skip(out0.len() as int),
                ),
                self.buf@.len() <= pbuf.len(),
                self.buf@ == pbuf.take(self.buf@.len() as int),
                emitted_frames(out@.skip(out0.len() as int)) == reversed(
                    views_of(pbuf.skip(self.buf@.len() as int)),
                ),
                fa ==> emitted_ack_values(out@.skip(out0.len() as int)) + link.outgoing_ack@
                    == a0,
                !fa ==> emitted_ack_values(out@.skip(out0.len() as int)) == Seq::<u32>::empty()
                    && link.outgoing_ack@ == a0,
                fnk ==> emitted_nack_values(out@.skip(out0.len() as int)) + link.outgoing_nack@
                    == n0,
                !fnk ==> emitted_nack_values(out@.skip(out0.len() as int)) == Seq::<
                    u32,
                >::empty() && link.outgoing_nack@ == n0,
                fp ==> emitted_unconnected(out@.skip(out0.len() as int)) + link.unconnected@
                    == u0,
                !fp ==> emitted_unconnected(out@.skip(out0.len() as int)) == Seq::<
                    Vec<u8>,
                >::empty() && link.unconnected@ == u0,
                a0 == old(link).outgoing_ack@,
                n0 == old(link).outgoing_nack@,
                u0 == old(link).unconnected@,
                ack_cnt as int == (if emitted_ack_values(out@.skip(out0.len() as int)).len()
                    <= u64::MAX {
                    emitted_ack_values(out@.skip(out0.len() as int)).len() as int
                } else {
                    u64::MAX as int
                }),
                nack_cnt as int == (if emitted_nack_values(out@.skip(out0.len() as int)).len()
                    <= u64::MAX {
                    emitted_nack_values(out@.skip(out0.len() as int)).len() as int
                } else {
                    u64::MAX as int
                }),
                pack_cnt as int == (if emitted_unconnected(out@.skip(out0.len() as int)).len()
                    + count_frame_sets(out@.skip(out0.len() as int)) <= u64::MAX {
                    emitted_unconnected(out@.skip(out0.len() as int)).len()
                        + count_frame_sets(out@.skip(out0.len() as int))
                } else {
                    u64::MAX as int
                }),
                self.buf@.len() + total_entry_frames(self.resend.entries@) <= ft0,
                ft0 <= old(self).buf@.len() + total_entry_frames(old(self).resend.entries@),
                flushed == strategy.spec_check_flushed(*link, self.buf@.len() as int),
            decreases drain_measure(*strategy, *link, self.buf@.len() as int),
        {
            let ghost measure0 = drain_measure(*strategy, *link, self.buf@.len() as int);
            if fnk {
                let ghost nk_before = link.outgoing_nack@;
                let ghost app1 = out@.skip(out0.len() as int);
                flush_one_nack(link, self.peer.mtu, out, &mut nack_cnt);
                proof {
                    if nk_before.len() > 0 {
                        let pkt = out@.last();
                        assert(out@.skip(out0.len() as int) =~= app1.push(pkt));
                        lemma_emitted_push(app1, pkt);
                        let app2 = out@.skip(out0.len() as int);
                        assert(out@.subrange(0, out0.len() as int) =~= out0);
                        assert(out_seq(pkt) is None);
                        assert(emitted_nack_values(app2) + link.outgoing_nack@ =~= n0);
                        assert(emitted_ack_values(app2) =~= emitted_ack_values(app1));
                        assert(emitted_unconnected(app2) =~= emitted_unconnected(app1));
                        assert(emitted_frames(app2) =~= emitted_frames(app1));
                        assert forall|k: int|
                            out0.len() <= k < out@.len() implies emitted_ok(
                            #[trigger] out@[k],
                            idx0 as int,
                            self.seq_num_write_index as int,
                            self.resend.entries@,
                            self.peer.mtu,
                        ) by {
                            if k < out@.len() - 1 {
                                assert(out@[k] == app1[k - out0.len()]);
                            } else {
                                assert(out_seq(out@[k]) is None);
                            }
                        }
                        assert forall|k1: int, k2: int|
                            out0.len() <= k1 < k2 < out@.len() && #[trigger] out_seq(out@[k1])
                                is Some && #[trigger] out_seq(out@[k2]) is Some implies out_seq(
                            out@[k1],
                        )->Some_0 < out_seq(out@[k2])->Some_0 by {
                            if k2 < out@.len() - 1 {
                                assert(out@[k1] == app1[k1 - out0.len()]);
                                assert(out@[k2] == app1[k2 - out0.len()]);
                            }
                        }
                    }
                }
            }
            if fa {
                let ghost ak_before = link.outgoing_ack@;
                let ghost app1 = out@.skip(out0.len() as int);
                flush_one_ack(link, self.peer.mtu, out, &mut ack_cnt);
                proof {
                    if ak_before.len() > 0 {
                        let pkt = out@.last();
                        assert(out@.skip(out0.len() as int) =~= app1.push(pkt));
                        lemma_emitted_push(app1, pkt);
                        let app2 = out@.skip(out0.len() as int);
                        assert(out@.subrange(0, out0.len() as int) =~= out0);
                        assert(out_seq(pkt) is None);
                        assert(emitted_ack_values(app2) + link.outgoing_ack@ =~= a0);
                        assert(emitted_nack_values(app2) =~= emitted_nack_values(app1));
                        assert(emitted_unconnected(app2) =~= emitted_unconnected(app1));
                        assert(emitted_frames(app2) =~= emitted_frames(app1));
                        assert forall|k: int|
                            out0.len() <= k < out@.len() implies emitted_ok(
                            #[trigger] out@[k],
                            idx0 as int,
                            self.seq_num_write_index as int,
                            self.resend.entries@,
                            self.peer.mtu,
                        ) by {
                            if k < out@.len() - 1 {
                                assert(out@[k] == app1[k - out0.len()]);
                            } else {
                                assert(out_seq(out@[k]) is None);
                            }
                        }
                        assert forall|k1: int, k2: int|
                            out0.len() <= k1 < k2 < out@.len() && #[trigger] out_seq(out@[k1])
                                is Some && #[trigger] out_seq(out@[k2]) is Some implies out_seq(
                            out@[k1],
                        )->Some_0 < out_seq(out@[k2])->Some_0 by {
                            if k2 < out@.len() - 1 {
                                assert(out@[k1] == app1[k1 - out0.len()]);
                                assert(out@[k2] == app1[k2 - out0.len()]);
                            }
                        }
                    }
                }
            }
            if fp {
                let ghost uc_before = link.unconnected@;
                let ghost app1u = out@.skip(out0.len() as int);
                flush_one_unconnected(link, out, &mut pack_cnt);
                proof {
                    if uc_before.len() > 0 {
                        let pkt = out@.last();
                        assert(out@.skip(out0.len() as int) =~= app1u.push(pkt));
                        lemma_emitted_push(app1u, pkt);
                        let app2 = out@.skip(out0.len() as int);
                        assert(out@.subrange(0, out0.len() as int) =~= out0);
                        assert(out_seq(pkt) is None);
                        assert((emitted_unconnected(app1u) + seq![pkt->Unconnected_0])
                            + link.unconnected@ =~= emitted_unconnected(app1u) + uc_before);
                        assert(emitted_unconnected(app2) + link.unconnected@ =~= u0);
                        assert(emitted_ack_values(app2) =~= emitted_ack_values(app1u));
                        assert(emitted_nack_values(app2) =~= emitted_nack_values(app1u));
                        assert(emitted_frames(app2) =~= emitted_frames(app1u));
                        assert forall|k: int|
                            out0.len() <= k < out@.len() implies emitted_ok(
                            #[trigger] out@[k],
                            idx0 as int,
                            self.seq_num_write_index as int,
                            self.resend.entries@,
                            self.peer.mtu,
                        ) by {
                            if k < out@.len() - 1 {
                                assert(out@[k] == app1u[k - out0.len()]);
                            } else {
                                assert(out_seq(out@[k]) is None);
                            }
                        }
                        assert forall|k1: int, k2: int|
                            out0.len() <= k1 < k2 < out@.len() && #[trigger] out_seq(out@[k1])
                                is Some && #[trigger] out_seq(out@[k2]) is Some implies out_seq(
                            out@[k1],
                        )->Some_0 < out_seq(out@[k2])->Some_0 by {
                            if k2 < out@.len() - 1 {
                                assert(out@[k1] == app1u[k1 - out0.len()]);
                                assert(out@[k2] == app1u[k2 - out0.len()]);
                            }
                        }
                    }
                }
                if self.buf.len() > 0 {
                    let ghost entries_before = self.resend.entries@;
                    let ghost idx_before = self.seq_num_write_index;
                    let ghost buf_before = self.buf@;
                    let ghost app1 = out@.skip(out0.len() as int);
                    proof {
                        assert(self.seq_num_write_index < U24_MAX_PLUS_ONE);
                    }
                    self.flush_one_frame_set(now, out, &mut pack_cnt);
                    proof {
                        let pkt = out@.last();
                        assert(out@.skip(out0.len() as int) =~= app1.push(pkt));
                        lemma_emitted_push(app1, pkt);
                        let app2 = out@.skip(out0.len() as int);
                        assert(out@.subrange(0, out0.len() as int) =~= out0);
                        assert(emitted_ack_values(app2) =~= emitted_ack_values(app1));
                        assert(emitted_nack_values(app2) =~= emitted_nack_values(app1));
                        assert(emitted_unconnected(app2) =~= emitted_unconnected(app1));
                        let fsv = (pkt->Connected_0->FrameSet_0)@;
                        let cur = buf_before.len() as int;
                        let k = fsv.frames.len() as int;
                        // the recorded entries keep their absorbed prefix
                        if any_reliable(fsv.frames) {
                            assert(self.resend.entries@.take(entries_before.len() as int)
                                =~= entries_before);
                        } else {
                            assert(self.resend.entries@.take(entries_before.len() as int)
                                =~= entries_before);
                        }
                        assert(self.resend.entries@.take(base.len() as int)
                            =~= entries_before.take(base.len() as int)) by {
                            lemma_counts_nonneg(app1);
                            assert(base.len() <= entries_before.len());
                        }
                        // the new set continues the back-to-front account
                        assert(cur <= pbuf.len());
                        assert forall|i: int| 0 <= i < k implies #[trigger] (pkt
                            ->Connected_0->FrameSet_0)@.frames[i] == pbuf[cur - 1 - i]@ by {
                            assert(fsv.frames[i] == buf_before[cur - 1 - i]@);
                            assert(buf_before[cur - 1 - i] == pbuf.take(cur)[cur - 1 - i]);
                        }
                        lemma_frame_account_step(app1, pkt, pbuf, cur, k);
                        assert forall|q: int| 0 <= q < cur - k implies self.buf@[q]
                            == #[trigger] pbuf.take(cur - k)[q] by {
                            assert(self.buf@[q] == buf_before[q]);
                            assert(buf_before[q] == pbuf.take(cur)[q]);
                        }
                        assert(self.buf@ =~= pbuf.take(cur - k));
                        // gone sequence numbers stay gone
                        assert forall|s: u32|
                            s < idx0 && (any_ack_covers(acks@, s) || any_nack_covers(
                                nacks@,
                                s,
                            )) implies !contains_seq(self.resend.entries@, s) by {
                            if contains_seq(self.resend.entries@, s) {
                                let kk = choose|kk: int|
                                    0 <= kk < self.resend.entries@.len()
                                        && self.resend.entries@[kk].seq == s;
                                if kk < entries_before.len() {
                                    assert(self.resend.entries@.take(
                                        entries_before.len() as int,
                                    )[kk] == self.resend.entries@[kk]);
                                    assert(contains_seq(entries_before, s));
                                } else {
                                    assert(self.resend.entries@[kk].seq
                                        == pkt->Connected_0->FrameSet_0.seq_num);
                                }
                            }
                        }
                        // every emitted packet still accounted for
                        assert forall|kk: int|
                            out0.len() <= kk < out@.len() implies emitted_ok(
                            #[trigger] out@[kk],
                            idx0 as int,
                            self.seq_num_write_index as int,
                            self.resend.entries@,
                            self.peer.mtu,
                        ) by {
                            if kk < out@.len() - 1 {
                                assert(out@[kk] == app1[kk - out0.len()]);
                                match out@[kk] {
                                    OutPacket::Connected(Packet::FrameSet(pfs)) => {
                                        if any_reliable(pfs@.frames) {
                                            let q = choose|q: int|
                                                0 <= q < entries_before.len() && (
                                                #[trigger] entries_before[q]).seq == pfs.seq_num
                                                    && views_of(entries_before[q].frames@)
                                                    == pfs@.frames;
                                            assert(self.resend.entries@.take(
                                                entries_before.len() as int,
                                            )[q] == self.resend.entries@[q]);
                                            assert(self.resend.entries@[q] == entries_before[q]);
                                        }
                                    },
                                    _ => {},
                                }
                            } else {
                                if any_reliable(fsv.frames) {
                                    let q = self.resend.entries@.len() - 1;
                                    assert(self.resend.entries@[q].seq
                                        == pkt->Connected_0->FrameSet_0.seq_num);
                                    assert(views_of(self.resend.entries@[q].frames@)
                                        == fsv.frames);
                                }
                            }
                        }
                        // emitted sequence numbers stay strictly increasing
                        assert forall|k1: int, k2: int|
                            out0.len() <= k1 < k2 < out@.len() && #[trigger] out_seq(out@[k1])
                                is Some && #[trigger] out_seq(out@[k2]) is Some implies out_seq(
                            out@[k1],
                        )->Some_0 < out_seq(out@[k2])->Some_0 by {
                            if k2 < out@.len() - 1 {
                                assert(out@[k1] == app1[k1 - out0.len()]);
                                assert(out@[k2] == app1[k2 - out0.len()]);
                            } else {
                                assert(out@[k1] == app1[k1 - out0.len()]);
                                assert(emitted_ok(
                                    out@[k1],
                                    idx0 as int,
                                    idx_before as int,
                                    entries_before,
                                    self.peer.mtu,
                                ));
                                assert(out_seq(out@[k2]) == Some(
                                    pkt->Connected_0->FrameSet_0.seq_num,
                                ));
                            }
                        }
                    }
                }
            }
            flushed = strategy.check_flushed(link, self.buf.len());
            proof {
                assert(drain_measure(*strategy, *link, self.buf@.len() as int) < measure0);
            }
        }
        strategy.mark_flushed_ack(ack_cnt);
        strategy.mark_flushed_nack(nack_cnt);
        strategy.mark_flushed_pack(pack_cnt);
    }
    /// One poll of write readiness: run a drain cycle, then report ready
    /// exactly when the buffer is below its capacity. The caller treats
    /// not-ready as backpressure on the upper layer.
    pub fn poll_ready(
        &mut self,
        link: &mut TransferLink,
        strategy: &mut FlushStrategy,
        now: u64,
        out: &mut Vec<OutPacket>,
    ) -> (ready: bool)
        requires
            old(self).wf(),
            old(link).wf(),
            now + RESEND_TIMEOUT_MILLIS <= u64::MAX,
            old(self).seq_num_write_index + old(self).buf@.len() + total_entry_frames(
                old(self).resend.entries@,
            ) <= U24_MAX_PLUS_ONE,
        ensures
            drain_post(
                *old(self),
                *final(self),
                *old(link),
                *final(link),
                *old(strategy),
                *final(strategy),
                old(out)@,
                final(out)@,
                now,
            ),
            ready == (final(self).buf@.len() < final(self).cap),
    {
        self.try_empty(link, strategy, now, out);
        self.buf.len() < self.cap
    }

    /// One poll of the flush path: a full drain cycle. Flushing the
    /// downstream sink afterwards belongs to the caller.
    pub fn poll_flush(
        &mut self,
        link: &mut TransferLink,
        strategy: &mut FlushStrategy,
        now: u64,
        out: &mut Vec<OutPacket>,
    )
        requires
            old(self).wf(),
            old(link).wf(),
            now + RESEND_TIMEOUT_MILLIS <= u64::MAX,
            old(self).seq_num_write_index + old(self).buf@.len() + total_entry_frames(
                old(self).resend.entries@,
            ) <= U24_MAX_PLUS_ONE,
        ensures
            drain_post(
                *old(self),
                *final(self),
                *old(link),
                *final(link),
                *old(strategy),
                *final(strategy),
                old(out)@,
                final(out)@,
                now,
            ),
    {
        self.try_empty(link, strategy, now, out);
    }

    /// One poll of the close path: arm ACK-driven waking, drain every
    /// class, and report ready exactly when no reliable frame set still
    /// awaits acknowledgement. When not ready the caller sleeps until the
    /// map's next deadline or an arriving ACK wakes it, then polls again;
    /// when ready every queue has been drained, waking is off, and the
    /// downstream sink may be closed.
    pub fn poll_close(&mut self, link: &mut TransferLink, now: u64, out: &mut Vec<OutPacket>) -> (ready:
        bool)
        requires
            old(self).wf(),
            old(link).wf(),
            now + RESEND_TIMEOUT_MILLIS <= u64::MAX,
            old(self).seq_num_write_index + old(self).buf@.len() + total_entry_frames(
                old(self).resend.entries@,
            ) <= U24_MAX_PLUS_ONE,
        ensures
            final(self).wf(),
            final(link).wf(),
            ready == (final(self).resend.entries@.len() == 0),
            final(self).buf@.len() == 0,
            final(link).outgoing_ack@.len() == 0,
            final(link).outgoing_nack@.len() == 0,
            final(link).unconnected@.len() == 0,
            final(link).incoming_ack@.len() == 0,
            final(link).incoming_nack@.len() == 0,
            ready ==> !final(link).forward_waking,
            !ready ==> final(link).forward_waking,
            final(self).cap == old(self).cap && final(self).peer == old(self).peer,
            final(out)@.len() >= old(out)@.len(),
            final(out)@.subrange(0, old(out)@.len() as int) == old(out)@,
            forall|k: int| old(out)@.len() <= k < final(out)@.len() ==> emitted_ok(
                #[trigger] final(out)@[k],
                old(self).seq_num_write_index as int,
                final(self).seq_num_write_index as int,
                final(self).resend.entries@,
                old(self).peer.mtu,
            ),
            // the write index advances by exactly the number of emitted
            // frame sets
            final(self).seq_num_write_index as int == old(self).seq_num_write_index
                + count_frame_sets(final(out)@.skip(old(out)@.len() as int)),
            count_frame_sets(final(out)@.skip(old(out)@.len() as int)) <= old(self).buf@.len()
                + total_entry_frames(old(self).resend.entries@),
            // an entry survives into the map exactly when it was neither
            // acknowledged, negatively acknowledged nor timed out, plus
            // one entry per emitted reliable frame set: close stays
            // pending while an unacknowledged reliable set exists
            final(self).resend.entries@.take(
                remove_stale(
                    entries_after_nacks(
                        entries_after_acks(old(self).resend.entries@, old(link).incoming_ack@),
                        old(link).incoming_nack@,
                    ),
                    now,
                ).len() as int,
            ) == remove_stale(
                entries_after_nacks(
                    entries_after_acks(old(self).resend.entries@, old(link).incoming_ack@),
                    old(link).incoming_nack@,
                ),
                now,
            ),
            final(self).resend.entries@.len() == remove_stale(
                entries_after_nacks(
                    entries_after_acks(old(self).resend.entries@, old(link).incoming_ack@),
                    old(link).incoming_nack@,
                ),
                now,
            ).len() + count_reliable_sets(final(out)@.skip(old(out)@.len() as int)),
            // every requeued and buffered frame leaves in the emitted
            // frame sets, taken from the back
            emitted_frames(final(out)@.skip(old(out)@.len() as int)) == reversed(
                views_of(
                    stale_frames(
                        entries_after_nacks(
                            entries_after_acks(
                                old(self).resend.entries@,
                                old(link).incoming_ack@,
                            ),
                            old(link).incoming_nack@,
                        ),
                        now,
                    ) + requeued_by_nacks(
                        entries_after_acks(old(self).resend.entries@, old(link).incoming_ack@),
                        old(link).incoming_nack@,
                    ) + old(self).buf@,
                ),
            ),
            // the pending acknowledgement sets and the unconnected
            // mailbox leave in full, in order
            emitted_ack_values(final(out)@.skip(old(out)@.len() as int)) == old(
                link,
            ).outgoing_ack@,
            emitted_nack_values(final(out)@.skip(old(out)@.len() as int)) == old(
                link,
            ).outgoing_nack@,
            emitted_unconnected(final(out)@.skip(old(out)@.len() as int)) == old(
                link,
            ).unconnected@,
            forall|s: u32|
                s < old(self).seq_num_write_index && (any_ack_covers(
                    old(link).incoming_ack@,
                    s,
                ) || any_nack_covers(old(link).incoming_nack@, s)) ==> !contains_seq(
                    final(self).resend.entries@,
                    s,
                ),
            final(self).buf@.len() + total_entry_frames(final(self).resend.entries@) <= old(
                self,
            ).buf@.len() + total_entry_frames(old(self).resend.entries@),
    {
        link.turn_on_waking();
        let mut strategy = FlushStrategy::new(true, true, true);
        self.try_empty(link, &mut strategy, now, out);
        proof {
            let app = out@.skip(old(out)@.len() as int);
            assert(emitted_ack_values(app) + link.outgoing_ack@ == old(link).outgoing_ack@);
            assert(emitted_ack_values(app) =~= old(link).outgoing_ack@);
            assert(emitted_nack_values(app) =~= old(link).outgoing_nack@);
            assert(emitted_unconnected(app) =~= old(link).unconnected@);
            let pb = stale_frames(
                entries_after_nacks(
                    entries_after_acks(old(self).resend.entries@, old(link).incoming_ack@),
                    old(link).incoming_nack@,
                ),
                now,
            ) + requeued_by_nacks(
                entries_after_acks(old(self).resend.entries@, old(link).incoming_ack@),
                old(link).incoming_nack@,
            ) + old(self).buf@;
            assert(pb.skip(self.buf@.len() as int) =~= pb);
        }
        if self.resend.is_empty() {
            link.turn_off_waking();
            true
        } else {
            false
        }
    }
}

} // verus!
