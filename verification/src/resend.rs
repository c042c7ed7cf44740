//! The resend map: every reliable frame set that has been emitted and not
//! yet acknowledged, keyed by its sequence number, with the time it was
//! sent. An ACK removes entries; a NACK or a timeout removes them and
//! hands their frames back so the caller can put them at the front of the
//! outgoing buffer. Timestamps are plain milliseconds supplied by the
//! caller. The retransmission timeout is a fixed floor of one typical
//! round trip; the spec admits any monotone backoff with such a floor.
use vstd::prelude::*;

use std::collections::VecDeque;

use crate::ack::{recs_cover, Ack};
use crate::packet::Frame;
use crate::wire::U24_MAX_PLUS_ONE;

verus! {

/// Fixed retransmission timeout in milliseconds.
pub const RESEND_TIMEOUT_MILLIS: u64 = 100;

/// One recorded reliable frame set: its sequence number, when it was
/// sent, and the frames to retransmit.
#[derive(Debug)]
pub struct ResendEntry {
    pub seq: u32,
    pub sent_at: u64,
    pub frames: Vec<Frame>,
}

/// Whether some entry carries sequence number `s`.
pub open spec fn contains_seq(es: Seq<ResendEntry>, s: u32) -> bool {
    exists|k: int| 0 <= k < es.len() && es[k].seq == s
}

/// Whether the entry has waited at least the retransmission timeout.
pub open spec fn is_stale(e: ResendEntry, now: u64) -> bool {
    e.sent_at + RESEND_TIMEOUT_MILLIS <= now
}

/// The entries left after removing those whose sequence number the
/// records cover.
pub open spec fn remove_covered(es: Seq<ResendEntry>, rs: Seq<crate::ack::Record>) -> Seq<
    ResendEntry,
>
    decreases es.len(),
{
    if es.len() == 0 {
        seq![]
    } else {
        let rest = remove_covered(es.drop_last(), rs);
        if recs_cover(rs, es.last().seq) {
            rest
        } else {
            rest.push(es.last())
        }
    }
}

/// The frames of the removed entries, in map order.
pub open spec fn covered_frames(es: Seq<ResendEntry>, rs: Seq<crate::ack::Record>) -> Seq<Frame>
    decreases es.len(),
{
    if es.len() == 0 {
        seq![]
    } else {
        let rest = covered_frames(es.drop_last(), rs);
        if recs_cover(rs, es.last().seq) {
            rest + es.last().frames@
        } else {
            rest
        }
    }
}

/// The entries left after removing the stale ones.
pub open spec fn remove_stale(es: Seq<ResendEntry>, now: u64) -> Seq<ResendEntry>
    decreases es.len(),
{
    if es.len() == 0 {
        seq![]
    } else {
        let rest = remove_stale(es.drop_last(), now);
        if is_stale(es.last(), now) {
            rest
        } else {
            rest.push(es.last())
        }
    }
}

/// The frames of the stale entries, in map order.
pub open spec fn stale_frames(es: Seq<ResendEntry>, now: u64) -> Seq<Frame>
    decreases es.len(),
{
    if es.len() == 0 {
        seq![]
    } else {
        let rest = stale_frames(es.drop_last(), now);
        if is_stale(es.last(), now) {
            rest + es.last().frames@
        } else {
            rest
        }
    }
}

/// After removal by coverage, an entry remains exactly when it was there
/// and is not covered: the ACK-clears-resend law at the map level.
pub proof fn lemma_remove_covered_contains(es: Seq<ResendEntry>, rs: Seq<crate::ack::Record>)
    ensures
        forall|s: u32| contains_seq(remove_covered(es, rs), s) <==> (contains_seq(es, s)
            && !recs_cover(rs, s)),
    decreases es.len(),
{
    if es.len() == 0 {
        assert(forall|s: u32| !contains_seq(seq![], s));
    } else {
        lemma_remove_covered_contains(es.drop_last(), rs);
        let rest = remove_covered(es.drop_last(), rs);
        let last = es.last();
        let kept = remove_covered(es, rs);
        assert forall|s: u32| contains_seq(kept, s) implies (contains_seq(es, s) && !recs_cover(
            rs,
            s,
        )) by {
            let k = choose|k: int| 0 <= k < kept.len() && kept[k].seq == s;
            if !recs_cover(rs, last.seq) && k == rest.len() {
                assert(kept[k] == last);
                assert(es[es.len() - 1].seq == s);
            } else {
                assert(kept[k] == rest[k]);
                assert(contains_seq(rest, s));
                assert(contains_seq(es.drop_last(), s));
                let j = choose|j: int| 0 <= j < es.drop_last().len() && es.drop_last()[j].seq == s;
                assert(es[j].seq == s);
            }
        }
        assert forall|s: u32| (contains_seq(es, s) && !recs_cover(rs, s)) implies contains_seq(
            kept,
            s,
        ) by {
            let k = choose|k: int| 0 <= k < es.len() && es[k].seq == s;
            if k < es.len() - 1 {
                assert(es.drop_last()[k].seq == s);
                assert(contains_seq(es.drop_last(), s));
                let j = choose|j: int| 0 <= j < rest.len() && rest[j].seq == s;
                assert(kept[j].seq == s);
            } else {
                assert(es[k] == last);
                assert(!recs_cover(rs, last.seq));
                assert(kept.last().seq == s);
            }
        }
    }
}

/// The same containment law for removal by staleness.
pub proof fn lemma_remove_stale_contains(es: Seq<ResendEntry>, now: u64)
    ensures
        forall|s: u32| contains_seq(remove_stale(es, now), s) <==> (exists|k: int|
            0 <= k < es.len() && es[k].seq == s && !is_stale(es[k], now)),
    decreases es.len(),
{
    if es.len() == 0 {
        assert(forall|s: u32| !contains_seq(seq![], s));
    } else {
        lemma_remove_stale_contains(es.drop_last(), now);
        let rest = remove_stale(es.drop_last(), now);
        let last = es.last();
        let kept = remove_stale(es, now);
        assert forall|s: u32| contains_seq(kept, s) implies (exists|k: int|
            0 <= k < es.len() && es[k].seq == s && !is_stale(es[k], now)) by {
            let k = choose|k: int| 0 <= k < kept.len() && kept[k].seq == s;
            if !is_stale(last, now) && k == rest.len() {
                assert(kept[k] == last);
                assert(es[es.len() - 1].seq == s && !is_stale(es[es.len() - 1], now));
            } else {
                assert(kept[k] == rest[k]);
                assert(contains_seq(rest, s));
                let j = choose|j: int|
                    0 <= j < es.drop_last().len() && es.drop_last()[j].seq == s && !is_stale(
                        es.drop_last()[j],
                        now,
                    );
                assert(es[j].seq == s && !is_stale(es[j], now));
            }
        }
        assert forall|s: u32| (exists|k: int|
            0 <= k < es.len() && es[k].seq == s && !is_stale(es[k], now)) implies contains_seq(
            kept,
            s,
        ) by {
            let k = choose|k: int| 0 <= k < es.len() && es[k].seq == s && !is_stale(es[k], now);
            if k < es.len() - 1 {
                assert(es.drop_last()[k].seq == s && !is_stale(es.drop_last()[k], now));
                assert(contains_seq(rest, s));
                let j = choose|j: int| 0 <= j < rest.len() && rest[j].seq == s;
                assert(kept[j].seq == s);
            } else {
                assert(es[k] == last);
                assert(kept.last().seq == s);
            }
        }
    }
}

/// Whether `f` is one of the frames stored in some entry.
pub open spec fn frame_from_entries(es: Seq<ResendEntry>, f: Frame) -> bool {
    exists|k: int, l: int| 0 <= k < es.len() && 0 <= l < es[k].frames@.len() && f == #[trigger] es[
        k
    ].frames@[l]
}

/// Every frame handed back by coverage removal is a frame of one of the
/// removed entries.
pub proof fn lemma_covered_frames_from_entries(es: Seq<ResendEntry>, rs: Seq<crate::ack::Record>)
    ensures
        forall|j: int| 0 <= j < covered_frames(es, rs).len() ==> frame_from_entries(
            es,
            #[trigger] covered_frames(es, rs)[j],
        ),
    decreases es.len(),
{
    if es.len() > 0 {
        lemma_covered_frames_from_entries(es.drop_last(), rs);
        let rest = covered_frames(es.drop_last(), rs);
        assert forall|j: int| 0 <= j < covered_frames(es, rs).len() implies frame_from_entries(
            es,
            #[trigger] covered_frames(es, rs)[j],
        ) by {
            if j < rest.len() {
                assert(covered_frames(es, rs)[j] == rest[j]);
                assert(frame_from_entries(es.drop_last(), rest[j]));
                let (k, l) = choose|k: int, l: int|
                    0 <= k < es.drop_last().len() && 0 <= l < es.drop_last()[k].frames@.len()
                        && rest[j] == es.drop_last()[k].frames@[l];
                assert(es[k] == es.drop_last()[k]);
                assert(es[k].frames@[l] == covered_frames(es, rs)[j]);
            } else {
                assert(recs_cover(rs, es.last().seq));
                let l = j - rest.len();
                assert(covered_frames(es, rs)[j] == es[es.len() - 1].frames@[l]);
            }
        }
    }
}

/// Every frame handed back by staleness removal is a frame of one of the
/// removed entries.
pub proof fn lemma_stale_frames_from_entries(es: Seq<ResendEntry>, now: u64)
    ensures
        forall|j: int| 0 <= j < stale_frames(es, now).len() ==> frame_from_entries(
            es,
            #[trigger] stale_frames(es, now)[j],
        ),
    decreases es.len(),
{
    if es.len() > 0 {
        lemma_stale_frames_from_entries(es.drop_last(), now);
        let rest = stale_frames(es.drop_last(), now);
        assert forall|j: int| 0 <= j < stale_frames(es, now).len() implies frame_from_entries(
            es,
            #[trigger] stale_frames(es, now)[j],
        ) by {
            if j < rest.len() {
                assert(stale_frames(es, now)[j] == rest[j]);
                assert(frame_from_entries(es.drop_last(), rest[j]));
                let (k, l) = choose|k: int, l: int|
                    0 <= k < es.drop_last().len() && 0 <= l < es.drop_last()[k].frames@.len()
                        && rest[j] == es.drop_last()[k].frames@[l];
                assert(es[k] == es.drop_last()[k]);
                assert(es[k].frames@[l] == stale_frames(es, now)[j]);
            } else {
                assert(is_stale(es.last(), now));
                let l = j - rest.len();
                assert(stale_frames(es, now)[j] == es[es.len() - 1].frames@[l]);
            }
        }
    }
}

/// Total number of frames stored across all entries.
pub open spec fn total_entry_frames(es: Seq<ResendEntry>) -> int
    decreases es.len(),
{
    if es.len() == 0 {
        0
    } else {
        total_entry_frames(es.drop_last()) + es.last().frames@.len()
    }
}

/// Removal by coverage conserves frames: the kept entries' frames plus
/// the handed-back frames account for every stored frame.
pub proof fn lemma_covered_split(es: Seq<ResendEntry>, rs: Seq<crate::ack::Record>)
    ensures
        total_entry_frames(remove_covered(es, rs)) + covered_frames(es, rs).len()
            == total_entry_frames(es),
    decreases es.len(),
{
    if es.len() > 0 {
        lemma_covered_split(es.drop_last(), rs);
        if !recs_cover(rs, es.last().seq) {
            assert(remove_covered(es.drop_last(), rs).push(es.last()).drop_last()
                =~= remove_covered(es.drop_last(), rs));
        }
    }
}

/// Removal by staleness conserves frames the same way.
pub proof fn lemma_stale_split(es: Seq<ResendEntry>, now: u64)
    ensures
        total_entry_frames(remove_stale(es, now)) + stale_frames(es, now).len()
            == total_entry_frames(es),
    decreases es.len(),
{
    if es.len() > 0 {
        lemma_stale_split(es.drop_last(), now);
        if !is_stale(es.last(), now) {
            assert(remove_stale(es.drop_last(), now).push(es.last()).drop_last()
                =~= remove_stale(es.drop_last(), now));
        }
    }
}

/// The entries left after absorbing a queue of received ACK packets,
/// oldest packet first.
pub open spec fn entries_after_acks(es: Seq<ResendEntry>, acks: Seq<(Ack, u64)>) -> Seq<
    ResendEntry,
>
    decreases acks.len(),
{
    if acks.len() == 0 {
        es
    } else {
        entries_after_acks(remove_covered(es, acks.first().0@), acks.drop_first())
    }
}

pub proof fn lemma_entries_after_acks_push(es: Seq<ResendEntry>, acks: Seq<(Ack, u64)>, a: (Ack, u64))
    ensures
        entries_after_acks(es, acks.push(a)) == remove_covered(entries_after_acks(es, acks), a.0@),
    decreases acks.len(),
{
    reveal_with_fuel(entries_after_acks, 3);
    if acks.len() == 0 {
        assert(acks.push(a).first() == a);
        assert(acks.push(a).drop_first() =~= Seq::<(Ack, u64)>::empty());
    } else {
        assert(acks.push(a).first() == acks.first());
        assert(acks.push(a).drop_first() =~= acks.drop_first().push(a));
        lemma_entries_after_acks_push(remove_covered(es, acks.first().0@), acks.drop_first(), a);
    }
}

/// The entries left after absorbing a queue of received NACK packets,
/// oldest packet first.
pub open spec fn entries_after_nacks(es: Seq<ResendEntry>, nacks: Seq<Ack>) -> Seq<ResendEntry>
    decreases nacks.len(),
{
    if nacks.len() == 0 {
        es
    } else {
        entries_after_nacks(remove_covered(es, nacks.first()@), nacks.drop_first())
    }
}

pub proof fn lemma_entries_after_nacks_push(es: Seq<ResendEntry>, nacks: Seq<Ack>, a: Ack)
    ensures
        entries_after_nacks(es, nacks.push(a)) == remove_covered(
            entries_after_nacks(es, nacks),
            a@,
        ),
    decreases nacks.len(),
{
    reveal_with_fuel(entries_after_nacks, 3);
    if nacks.len() == 0 {
        assert(nacks.push(a).first() == a);
        assert(nacks.push(a).drop_first() =~= Seq::<Ack>::empty());
    } else {
        assert(nacks.push(a).first() == nacks.first());
        assert(nacks.push(a).drop_first() =~= nacks.drop_first().push(a));
        lemma_entries_after_nacks_push(remove_covered(es, nacks.first()@), nacks.drop_first(), a);
    }
}

/// The frames a queue of NACK packets puts back at the front of the
/// buffer: each packet prepends its covered frames, so a later packet's
/// frames stand further to the front.
pub open spec fn requeued_by_nacks(es: Seq<ResendEntry>, nacks: Seq<Ack>) -> Seq<Frame>
    decreases nacks.len(),
{
    if nacks.len() == 0 {
        seq![]
    } else {
        requeued_by_nacks(remove_covered(es, nacks.first()@), nacks.drop_first())
            + covered_frames(es, nacks.first()@)
    }
}

pub proof fn lemma_requeued_by_nacks_push(es: Seq<ResendEntry>, nacks: Seq<Ack>, a: Ack)
    ensures
        requeued_by_nacks(es, nacks.push(a)) == covered_frames(entries_after_nacks(es, nacks), a@)
            + requeued_by_nacks(es, nacks),
    decreases nacks.len(),
{
    reveal_with_fuel(entries_after_nacks, 3);
    reveal_with_fuel(requeued_by_nacks, 3);
    if nacks.len() == 0 {
        assert(nacks.push(a).first() == a);
        assert(nacks.push(a).drop_first() =~= Seq::<Ack>::empty());
        assert(requeued_by_nacks(es, nacks.push(a)) =~= covered_frames(
            entries_after_nacks(es, nacks),
            a@,
        ) + requeued_by_nacks(es, nacks));
    } else {
        assert(nacks.push(a).first() == nacks.first());
        assert(nacks.push(a).drop_first() =~= nacks.drop_first().push(a));
        lemma_requeued_by_nacks_push(remove_covered(es, nacks.first()@), nacks.drop_first(), a);
        let es1 = remove_covered(es, nacks.first()@);
        assert(requeued_by_nacks(es, nacks.push(a)) == (covered_frames(
            entries_after_nacks(es1, nacks.drop_first()),
            a@,
        ) + requeued_by_nacks(es1, nacks.drop_first())) + covered_frames(es, nacks.first()@));
        assert((covered_frames(entries_after_nacks(es1, nacks.drop_first()), a@)
            + requeued_by_nacks(es1, nacks.drop_first())) + covered_frames(es, nacks.first()@)
            =~= covered_frames(entries_after_nacks(es1, nacks.drop_first()), a@) + (
        requeued_by_nacks(es1, nacks.drop_first()) + covered_frames(es, nacks.first()@)));
    }
}

/// Appending an entry adds exactly its frames to the stored total.
pub proof fn lemma_total_entry_frames_push(es: Seq<ResendEntry>, e: ResendEntry)
    ensures
        total_entry_frames(es.push(e)) == total_entry_frames(es) + e.frames@.len(),
{
    assert(es.push(e).drop_last() =~= es);
}

/// Reliable-retransmit law, map half: a NACK covering a recorded
/// sequence number takes it out of the map, and every frame of every
/// covered entry is among the frames handed back for retransmission.
pub proof fn lemma_reliable_retransmit(es: Seq<ResendEntry>, rs: Seq<crate::ack::Record>, s: u32)
    requires
        contains_seq(es, s),
        recs_cover(rs, s),
    ensures
        !contains_seq(remove_covered(es, rs), s),
        forall|k: int, l: int|
            0 <= k < es.len() && recs_cover(rs, (#[trigger] es[k]).seq) && 0 <= l
                < es[k].frames@.len() ==> covered_frames(es, rs).contains(#[trigger] es[k].frames@[l]),
{
    lemma_remove_covered_contains(es, rs);
    lemma_covered_frames_in(es, rs);
}

/// Each covered entry's frames all appear among the handed-back frames.
pub proof fn lemma_covered_frames_in(es: Seq<ResendEntry>, rs: Seq<crate::ack::Record>)
    ensures
        forall|k: int, l: int|
            0 <= k < es.len() && recs_cover(rs, (#[trigger] es[k]).seq) && 0 <= l
                < es[k].frames@.len() ==> covered_frames(es, rs).contains(#[trigger] es[k].frames@[l]),
    decreases es.len(),
{
    if es.len() > 0 {
        lemma_covered_frames_in(es.drop_last(), rs);
        let rest = covered_frames(es.drop_last(), rs);
        assert forall|k: int, l: int|
            0 <= k < es.len() && recs_cover(rs, (#[trigger] es[k]).seq) && 0 <= l
                < es[k].frames@.len() implies covered_frames(es, rs).contains(
            #[trigger] es[k].frames@[l],
        ) by {
            if k < es.len() - 1 {
                assert(es.drop_last()[k] == es[k]);
                assert(rest.contains(es[k].frames@[l]));
                let j = choose|j: int| 0 <= j < rest.len() && rest[j] == es[k].frames@[l];
                assert(covered_frames(es, rs)[j] == es[k].frames@[l]);
            } else {
                assert(recs_cover(rs, es.last().seq));
                assert(covered_frames(es, rs)[rest.len() + l] == es[k].frames@[l]);
            }
        }
    }
}

/// The map of reliable frame sets awaiting acknowledgement.
#[derive(Debug)]
pub struct ResendMap {
    pub entries: Vec<ResendEntry>,
}

impl ResendMap {
    /// Entries are strictly ordered by sequence number, every number fits
    /// in 24 bits, and timestamps leave room for the timeout.
    pub open spec fn wf(self) -> bool {
        &&& forall|a: int, b: int|
            0 <= a < b < self.entries@.len() ==> (#[trigger] self.entries@[a]).seq < (
            #[trigger] self.entries@[b]).seq
        &&& forall|k: int| 0 <= k < self.entries@.len() ==> (#[trigger] self.entries@[k]).seq
            < U24_MAX_PLUS_ONE
        &&& forall|k: int| 0 <= k < self.entries@.len() ==> (#[trigger] self.entries@[k]).sent_at
            + RESEND_TIMEOUT_MILLIS <= u64::MAX
    }

    pub fn new() -> (m: ResendMap)
        ensures
            m.wf(),
            m.entries@.len() == 0,
    {
        ResendMap { entries: Vec::new() }
    }

    /// Whether no reliable frame set awaits acknowledgement.
    pub fn is_empty(&self) -> (b: bool)
        ensures
            b == (self.entries@.len() == 0),
    {
        self.entries.len() == 0
    }

    /// Record an emitted reliable frame set. Sequence numbers only ever
    /// grow, so the new entry goes at the end.
    pub fn record(&mut self, seq: u32, frames: Vec<Frame>, now: u64)
        requires
            old(self).wf(),
            seq < U24_MAX_PLUS_ONE,
            now + RESEND_TIMEOUT_MILLIS <= u64::MAX,
            forall|k: int| 0 <= k < old(self).entries@.len() ==> (#[trigger] old(
                self,
            ).entries@[k]).seq < seq,
        ensures
            final(self).wf(),
            final(self).entries@ == old(self).entries@.push(
                ResendEntry { seq, sent_at: now, frames },
            ),
    {
        self.entries.push(ResendEntry { seq, sent_at: now, frames });
    }

    /// Drop every entry the acknowledgement covers; duplicate ACKs for a
    /// sequence number no longer present are no-ops.
    pub fn on_ack(&mut self, ack: &Ack)
        requires
            old(self).wf(),
        ensures
            final(self).wf(),
            final(self).entries@ == remove_covered(old(self).entries@, ack@),
            forall|s: u32| contains_seq(final(self).entries@, s) <==> (contains_seq(
                old(self).entries@,
                s,
            ) && !recs_cover(ack@, s)),
    {
        let ghost olde = self.entries@;
        let total: usize = self.entries.len();
        let mut idx: usize = 0;
        let mut jj: usize = 0;
        while jj < total
            invariant
                olde == old(self).entries@,
                total == olde.len(),
                jj <= olde.len(),
                idx <= jj,
                self.entries@ == remove_covered(olde.take(jj as int), ack@) + olde.skip(jj as int),
                idx as int == remove_covered(olde.take(jj as int), ack@).len(),
            decreases olde.len() - jj,
        {
            proof {
                assert(olde.take(jj as int).push(olde[jj as int]) =~= olde.take(jj as int + 1));
                assert(olde.take(jj as int + 1).drop_last() =~= olde.take(jj as int));
                assert(self.entries@[idx as int] == olde[jj as int]);
            }
            let covered = ack.covers(self.entries[idx].seq);
            if covered {
                self.entries.remove(idx);
                proof {
                    assert(self.entries@ =~= remove_covered(olde.take(jj as int + 1), ack@)
                        + olde.skip(jj as int + 1));
                }
            } else {
                idx = idx + 1;
                proof {
                    assert(self.entries@ =~= remove_covered(olde.take(jj as int + 1), ack@)
                        + olde.skip(jj as int + 1));
                }
            }
            jj = jj + 1;
        }
        proof {
            assert(olde.take(olde.len() as int) =~= olde);
            assert(olde.skip(olde.len() as int) =~= Seq::<ResendEntry>::empty());
            assert(self.entries@ =~= remove_covered(olde, ack@));
            lemma_remove_covered_contains(olde, ack@);
            lemma_remove_covered_sorted(olde, ack@);
        }
    }

    /// Drop every entry the negative acknowledgement covers and put their
    /// frames, oldest first, at the front of `buf` so they overtake newer
    /// data.
    pub fn on_nack_into(&mut self, nack: &Ack, buf: &mut VecDeque<Frame>)
        requires
            old(self).wf(),
        ensures
            final(self).wf(),
            final(self).entries@ == remove_covered(old(self).entries@, nack@),
            final(buf)@ == covered_frames(old(self).entries@, nack@) + old(buf)@,
            forall|s: u32| contains_seq(final(self).entries@, s) <==> (contains_seq(
                old(self).entries@,
                s,
            ) && !recs_cover(nack@, s)),
    {
        let ghost olde = self.entries@;
        let total: usize = self.entries.len();
        let mut collected: Vec<Frame> = Vec::new();
        let mut idx: usize = 0;
        let mut jj: usize = 0;
        while jj < total
            invariant
                olde == old(self).entries@,
                total == olde.len(),
                jj <= olde.len(),
                idx <= jj,
                self.entries@ == remove_covered(olde.take(jj as int), nack@) + olde.skip(
                    jj as int,
                ),
                idx as int == remove_covered(olde.take(jj as int), nack@).len(),
                collected@ == covered_frames(olde.take(jj as int), nack@),
            decreases olde.len() - jj,
        {
            proof {
                assert(olde.take(jj as int).push(olde[jj as int]) =~= olde.take(jj as int + 1));
                assert(olde.take(jj as int + 1).drop_last() =~= olde.take(jj as int));
                assert(self.entries@[idx as int] == olde[jj as int]);
            }
            let covered = ack_covers_entry(nack, &self.entries, idx);
            if covered {
                let mut e = self.entries.remove(idx);
                collected.append(&mut e.frames);
                proof {
                    assert(self.entries@ =~= remove_covered(olde.take(jj as int + 1), nack@)
                        + olde.skip(jj as int + 1));
                    assert(collected@ =~= covered_frames(olde.take(jj as int + 1), nack@));
                }
            } else {
                idx = idx + 1;
                proof {
                    assert(self.entries@ =~= remove_covered(olde.take(jj as int + 1), nack@)
                        + olde.skip(jj as int + 1));
                    assert(collected@ =~= covered_frames(olde.take(jj as int + 1), nack@));
                }
            }
            jj = jj + 1;
        }
        proof {
            assert(olde.take(olde.len() as int) =~= olde);
            assert(olde.skip(olde.len() as int) =~= Seq::<ResendEntry>::empty());
            assert(self.entries@ =~= remove_covered(olde, nack@));
            assert(collected@ =~= covered_frames(olde, nack@));
            lemma_remove_covered_contains(olde, nack@);
            lemma_remove_covered_sorted(olde, nack@);
        }
        prepend_frames(collected, buf);
    }

    /// Drop every entry older than the retransmission timeout and put
    /// their frames at the front of `buf` for retransmission.
    pub fn process_stales(&mut self, now: u64, buf: &mut VecDeque<Frame>)
        requires
            old(self).wf(),
        ensures
            final(self).wf(),
            final(self).entries@ == remove_stale(old(self).entries@, now),
            final(buf)@ == stale_frames(old(self).entries@, now) + old(buf)@,
    {
        let ghost olde = self.entries@;
        let total: usize = self.entries.len();
        let mut collected: Vec<Frame> = Vec::new();
        let mut idx: usize = 0;
        let mut jj: usize = 0;
        while jj < total
            invariant
                olde == old(self).entries@,
                total == olde.len(),
                jj <= olde.len(),
                idx <= jj,
                old(self).wf(),
                self.entries@ == remove_stale(olde.take(jj as int), now) + olde.skip(jj as int),
                idx as int == remove_stale(olde.take(jj as int), now).len(),
                collected@ == stale_frames(olde.take(jj as int), now),
            decreases olde.len() - jj,
        {
            proof {
                assert(olde.take(jj as int).push(olde[jj as int]) =~= olde.take(jj as int + 1));
                assert(olde.take(jj as int + 1).drop_last() =~= olde.take(jj as int));
                assert(self.entries@[idx as int] == olde[jj as int]);
                assert(olde[jj as int].sent_at + RESEND_TIMEOUT_MILLIS <= u64::MAX);
            }
            let stale = self.entries[idx].sent_at + RESEND_TIMEOUT_MILLIS <= now;
            if stale {
                let mut e = self.entries.remove(idx);
                collected.append(&mut e.frames);
                proof {
                    assert(self.entries@ =~= remove_stale(olde.take(jj as int + 1), now)
                        + olde.skip(jj as int + 1));
                    assert(collected@ =~= stale_frames(olde.take(jj as int + 1), now));
                }
            } else {
                idx = idx + 1;
                proof {
                    assert(self.entries@ =~= remove_stale(olde.take(jj as int + 1), now)
                        + olde.skip(jj as int + 1));
                    assert(collected@ =~= stale_frames(olde.take(jj as int + 1), now));
                }
            }
            jj = jj + 1;
        }
        proof {
            assert(olde.take(olde.len() as int) =~= olde);
            assert(olde.skip(olde.len() as int) =~= Seq::<ResendEntry>::empty());
            assert(self.entries@ =~= remove_stale(olde, now));
            assert(collected@ =~= stale_frames(olde, now));
            lemma_remove_stale_sorted(olde, now);
        }
        prepend_frames(collected, buf);
    }

    /// When the earliest recorded entry times out; what the close path
    /// sleeps until.
    pub fn next_deadline(&self) -> (r: Option<u64>)
        requires
            self.wf(),
        ensures
            (r is None) <==> self.entries@.len() == 0,
            (match r {
                Some(d) => (exists|k: int|
                    0 <= k < self.entries@.len() && d == (#[trigger] self.entries@[k]).sent_at
                        + RESEND_TIMEOUT_MILLIS) && (forall|k: int|
                    0 <= k < self.entries@.len() ==> d <= (#[trigger] self.entries@[k]).sent_at
                        + RESEND_TIMEOUT_MILLIS),
                None => true,
            }),
    {
        if self.entries.len() == 0 {
            return None;
        }
        let mut best: u64 = self.entries[0].sent_at + RESEND_TIMEOUT_MILLIS;
        let mut k: usize = 1;
        while k < self.entries.len()
            invariant
                self.wf(),
                1 <= k <= self.entries@.len(),
                exists|q: int| 0 <= q < k && best == (#[trigger] self.entries@[q]).sent_at
                    + RESEND_TIMEOUT_MILLIS,
                forall|q: int| 0 <= q < k ==> best <= (#[trigger] self.entries@[q]).sent_at
                    + RESEND_TIMEOUT_MILLIS,
            decreases self.entries@.len() - k,
        {
            let d = self.entries[k].sent_at + RESEND_TIMEOUT_MILLIS;
            if d < best {
                best = d;
            }
            k = k + 1;
        }
        Some(best)
    }
}

/// Whether the acknowledgement covers the sequence number of the entry at
/// `idx`.
fn ack_covers_entry(ack: &Ack, entries: &Vec<ResendEntry>, idx: usize) -> (b: bool)
    requires
        idx < entries@.len(),
    ensures
        b == recs_cover(ack@, entries@[idx as int].seq),
{
    ack.covers(entries[idx].seq)
}

/// Push `collected` onto the front of `buf`, keeping its order.
fn prepend_frames(collected: Vec<Frame>, buf: &mut VecDeque<Frame>)
    ensures
        final(buf)@ == collected@ + old(buf)@,
{
    let mut collected = collected;
    let ghost coll0 = collected@;
    while collected.len() > 0
        invariant
            collected@ + buf@ == coll0 + old(buf)@,
        decreases collected@.len(),
    {
        let ghost before = collected@;
        match collected.pop() {
            Some(f) => {
                buf.push_front(f);
                proof {
                    assert(before.drop_last() + seq![f] + buf@.drop_first() =~= before
                        + buf@.drop_first());
                    assert(collected@ + buf@ =~= coll0 + old(buf)@);
                }
            },
            None => (),
        }
    }
    proof {
        assert(collected@ + buf@ =~= buf@);
    }
}

/// Filtering by coverage keeps the strict ordering by sequence number.
pub proof fn lemma_remove_covered_sorted(es: Seq<ResendEntry>, rs: Seq<crate::ack::Record>)
    requires
        forall|a: int, b: int| 0 <= a < b < es.len() ==> (#[trigger] es[a]).seq < (
        #[trigger] es[b]).seq,
    ensures
        forall|a: int, b: int|
            0 <= a < b < remove_covered(es, rs).len() ==> (#[trigger] remove_covered(es, rs)[a]).seq
                < (#[trigger] remove_covered(es, rs)[b]).seq,
        forall|k: int| 0 <= k < remove_covered(es, rs).len() ==> (exists|q: int|
            0 <= q < es.len() && #[trigger] remove_covered(es, rs)[k] == es[q]),
    decreases es.len(),
{
    if es.len() > 0 {
        assert(forall|a: int, b: int|
            0 <= a < b < es.drop_last().len() ==> (#[trigger] es.drop_last()[a]).seq < (
            #[trigger] es.drop_last()[b]).seq);
        lemma_remove_covered_sorted(es.drop_last(), rs);
        let rest = remove_covered(es.drop_last(), rs);
        if !recs_cover(rs, es.last().seq) {
            assert(forall|k: int| 0 <= k < rest.len() ==> remove_covered(es, rs)[k] == rest[k]);
            assert(remove_covered(es, rs).last() == es.last());
            assert forall|k: int| 0 <= k < rest.len() implies rest[k].seq < es.last().seq by {
                let q = choose|q: int| 0 <= q < es.drop_last().len() && rest[k] == es.drop_last()[q];
                assert(es[q].seq < es.last().seq);
            }
        }
    }
}

/// Filtering by staleness keeps the strict ordering by sequence number.
pub proof fn lemma_remove_stale_sorted(es: Seq<ResendEntry>, now: u64)
    requires
        forall|a: int, b: int| 0 <= a < b < es.len() ==> (#[trigger] es[a]).seq < (
        #[trigger] es[b]).seq,
    ensures
        forall|a: int, b: int|
            0 <= a < b < remove_stale(es, now).len() ==> (#[trigger] remove_stale(es, now)[a]).seq
                < (#[trigger] remove_stale(es, now)[b]).seq,
        forall|k: int| 0 <= k < remove_stale(es, now).len() ==> (exists|q: int|
            0 <= q < es.len() && #[trigger] remove_stale(es, now)[k] == es[q]),
    decreases es.len(),
{
    if es.len() > 0 {
        assert(forall|a: int, b: int|
            0 <= a < b < es.drop_last().len() ==> (#[trigger] es.drop_last()[a]).seq < (
            #[trigger] es.drop_last()[b]).seq);
        lemma_remove_stale_sorted(es.drop_last(), now);
        let rest = remove_stale(es.drop_last(), now);
        if !is_stale(es.last(), now) {
            assert(forall|k: int| 0 <= k < rest.len() ==> remove_stale(es, now)[k] == rest[k]);
            assert(remove_stale(es, now).last() == es.last());
            assert forall|k: int| 0 <= k < rest.len() implies rest[k].seq < es.last().seq by {
                let q = choose|q: int| 0 <= q < es.drop_last().len() && rest[k] == es.drop_last()[q];
                assert(es[q].seq < es.last().seq);
            }
        }
    }
}

} // verus!
