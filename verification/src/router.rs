//! The receive-side router of one connection: every decoded connected
//! packet passes through `deliver`, which acknowledges frame sets,
//! detects gaps in the sequence numbers and turns them into pending
//! NACKs, never lets the read index regress, and hands ACK/NACK packets
//! to the shared link. Forwarding the frame set on the per-peer channel,
//! and evicting the peer when that channel is gone, belong to the caller.
use vstd::prelude::*;

use crate::ack::all_u24;
use crate::link::{sorted_insert, sorted_remove, TransferLink, MAX_ACK_BUFFER};
use crate::packet::{FrameSet, Packet};
use crate::wire::U24_MAX_PLUS_ONE;

verus! {

/// What `deliver` decided about one packet.
#[derive(Debug)]
pub enum Delivery {
    /// A new frame set: acknowledged, gaps recorded, to be forwarded.
    Forward(FrameSet),
    /// An already-seen frame set: acknowledged again, not forwarded.
    Duplicate,
    /// An ACK was queued for the writer; when the flag is set the caller
    /// must cancel the timers parked under this connection.
    AckReceived(bool),
    /// A NACK was queued for the writer.
    NackReceived,
}

/// Receive-side state of one connection: the next expected sequence
/// number.
#[derive(Debug)]
pub struct Router {
    pub seq_read: u32,
}

/// Every pending acknowledgement or gap in the link lies below the read
/// index, which itself fits the sequence-number space.
pub open spec fn router_link_wf(r: Router, link: TransferLink) -> bool {
    &&& r.seq_read <= U24_MAX_PLUS_ONE
    &&& forall|y: u32| link.outgoing_ack@.contains(y) ==> y < r.seq_read
    &&& forall|y: u32| link.outgoing_nack@.contains(y) ==> y < r.seq_read
}

impl Router {
    pub fn new() -> (r: Router)
        ensures
            r.seq_read == 0,
    {
        Router { seq_read: 0 }
    }

    /// Process one decoded connected packet. A frame set is acknowledged;
    /// if it is new, every sequence number skipped over becomes a pending
    /// NACK, the read index moves past it, and the set is handed back for
    /// forwarding; an already-seen set is acknowledged only. ACK and NACK
    /// packets go to the link's ingress queues, timestamped `now`.
    pub fn deliver(&mut self, link: &mut TransferLink, pack: Packet, now: u64) -> (d: Delivery)
        requires
            old(link).wf(),
            old(link).ack_nack_disjoint(),
            router_link_wf(*old(self), *old(link)),
            pack.wf(),
        ensures
            final(link).wf(),
            final(link).ack_nack_disjoint(),
            router_link_wf(*final(self), *final(link)),
            final(self).seq_read >= old(self).seq_read,
            (match pack {
                Packet::FrameSet(fs) => {
                    let s = fs.seq_num;
                    &&& (forall|y: u32| final(link).outgoing_ack@.contains(y) <==> (old(link).outgoing_ack@.contains(y) || y == s))
                    &&& (s >= old(self).seq_read ==> {
                        &&& final(self).seq_read == s + 1
                        &&& (forall|y: u32|
                            final(link).outgoing_nack@.contains(y) <==> ((old(link).outgoing_nack@.contains(y) || (old(self).seq_read <= y < s)) && y
                                != s))
                        &&& d == Delivery::Forward(fs)
                    })
                    &&& (s < old(self).seq_read ==> {
                        &&& final(self).seq_read == old(self).seq_read
                        &&& (forall|y: u32|
                            final(link).outgoing_nack@.contains(y) <==> (old(link).outgoing_nack@.contains(y) && y != s))
                        &&& d == Delivery::Duplicate
                    })
                    &&& TransferLink::same_incoming(*old(link), *final(link))
                    &&& TransferLink::same_mail(*old(link), *final(link))
                    &&& TransferLink::same_id(*old(link), *final(link))
                },
                Packet::Ack(a) => {
                    &&& d == Delivery::AckReceived(old(link).forward_waking)
                    &&& (old(link).incoming_ack@.len() < MAX_ACK_BUFFER ==> final(link).incoming_ack@ == old(link).incoming_ack@.push((a, now)))
                    &&& (old(link).incoming_ack@.len() == MAX_ACK_BUFFER ==> final(link).incoming_ack@ == old(link).incoming_ack@.drop_first().push((a, now)))
                    &&& final(link).incoming_nack@ == old(link).incoming_nack@
                    &&& TransferLink::same_outgoing(*old(link), *final(link))
                    &&& TransferLink::same_mail(*old(link), *final(link))
                    &&& TransferLink::same_id(*old(link), *final(link))
                    &&& *final(self) == *old(self)
                },
                Packet::Nack(a) => {
                    &&& d == Delivery::NackReceived
                    &&& (old(link).incoming_nack@.len() < MAX_ACK_BUFFER ==> final(link).incoming_nack@ == old(link).incoming_nack@.push(a))
                    &&& (old(link).incoming_nack@.len() == MAX_ACK_BUFFER ==> final(link).incoming_nack@ == old(link).incoming_nack@.drop_first().push(a))
                    &&& final(link).incoming_ack@ == old(link).incoming_ack@
                    &&& TransferLink::same_outgoing(*old(link), *final(link))
                    &&& TransferLink::same_mail(*old(link), *final(link))
                    &&& TransferLink::same_id(*old(link), *final(link))
                    &&& *final(self) == *old(self)
                },
            }),
    {
        match pack {
            Packet::FrameSet(fs) => {
                let s = fs.seq_num;
                sorted_insert(&mut link.outgoing_ack, s);
                sorted_remove(&mut link.outgoing_nack, s);
                let ghost nack1 = link.outgoing_nack@;
                if s >= self.seq_read {
                    let g0 = self.seq_read;
                    let mut g = g0;
                    while g < s
                        invariant
                            g0 <= g <= s,
                            s < U24_MAX_PLUS_ONE,
                            crate::ack::sorted_strict(link.outgoing_nack@),
                            all_u24(link.outgoing_nack@),
                            forall|y: u32| link.outgoing_nack@.contains(y) <==> (nack1.contains(y)
                                || (g0 <= y < g)),
                            TransferLink::same_incoming(*link, *old(link)),
                            TransferLink::same_mail(*link, *old(link)),
                            TransferLink::same_id(*link, *old(link)),
                            link.incoming_ack@.len() <= MAX_ACK_BUFFER,
                            link.incoming_nack@.len() <= MAX_ACK_BUFFER,
                            crate::ack::sorted_strict(link.outgoing_ack@),
                            all_u24(link.outgoing_ack@),
                            forall|y: u32| link.outgoing_ack@.contains(y) <==> (old(link).outgoing_ack@.contains(y) || y == s),
                        decreases s - g,
                    {
                        sorted_insert(&mut link.outgoing_nack, g);
                        g = g + 1;
                    }
                    self.seq_read = s + 1;
                    proof {
                        assert forall|y: u32| link.outgoing_ack@.contains(y) implies y < s
                            + 1 by {
                            if old(link).outgoing_ack@.contains(y) {
                                assert(y < old(self).seq_read);
                            }
                        }
                        assert forall|y: u32| link.outgoing_nack@.contains(y) implies y < s
                            + 1 by {
                            if nack1.contains(y) {
                                assert(old(link).outgoing_nack@.contains(y));
                                assert(y < old(self).seq_read);
                            }
                        }
                        assert forall|y: u32| link.outgoing_ack@.contains(y)
                            implies !link.outgoing_nack@.contains(y) by {
                            if old(link).outgoing_ack@.contains(y) {
                                assert(y < old(self).seq_read);
                                assert(!old(link).outgoing_nack@.contains(y));
                                assert(!nack1.contains(y));
                            } else {
                                assert(y == s);
                                assert(!nack1.contains(y));
                            }
                        }
                    }
                    Delivery::Forward(fs)
                } else {
                    proof {
                        assert forall|y: u32| link.outgoing_ack@.contains(y)
                            implies !link.outgoing_nack@.contains(y) by {
                            if old(link).outgoing_ack@.contains(y) {
                                assert(!old(link).outgoing_nack@.contains(y));
                            }
                        }
                    }
                    Delivery::Duplicate
                }
            },
            Packet::Ack(a) => {
                let (_dropped, wake) = link.incoming_ack(a, now);
                Delivery::AckReceived(wake)
            },
            Packet::Nack(a) => {
                link.incoming_nack(a);
                Delivery::NackReceived
            },
        }
    }
}

/// The read index after delivering `seqs`, one new frame set at a time.
pub open spec fn route_read(seqs: Seq<u32>) -> int
    decreases seqs.len(),
{
    if seqs.len() == 0 {
        0
    } else {
        let prev = route_read(seqs.drop_last());
        if seqs.last() >= prev {
            seqs.last() + 1
        } else {
            prev
        }
    }
}

/// The pending-NACK set after delivering `seqs` from a fresh router:
/// each delivery first drops its own number, then adds every number
/// skipped over.
pub open spec fn route_nack(seqs: Seq<u32>) -> Set<u32>
    decreases seqs.len(),
{
    if seqs.len() == 0 {
        Set::empty()
    } else {
        let prev = route_nack(seqs.drop_last());
        let prev_read = route_read(seqs.drop_last());
        let s = seqs.last();
        if s >= prev_read {
            prev.remove(s).union(Set::new(|y: u32| prev_read <= y < s))
        } else {
            prev.remove(s)
        }
    }
}

/// One call of `deliver` with a frame set performs exactly one step of
/// the spec-level routing fold: if the read index and the pending-NACK
/// membership match `route_read`/`route_nack` of the packets seen so
/// far, then after one more delivery — whose effect is what `deliver`'s
/// contract states — they match the fold over the extended run. Chained
/// over a run of calls from a fresh router, this ties the executable
/// router to `lemma_router_gap_detection`.
pub proof fn lemma_deliver_is_route_step(
    seqs: Seq<u32>,
    s: u32,
    read0: u32,
    read1: u32,
    in_nack0: spec_fn(u32) -> bool,
    in_nack1: spec_fn(u32) -> bool,
)
    requires
        read0 as int == route_read(seqs),
        forall|y: u32| #[trigger] in_nack0(y) <==> route_nack(seqs).contains(y),
        s >= read0 ==> read1 == s + 1 && (forall|y: u32| #[trigger] in_nack1(y) <==> ((in_nack0(
            y,
        ) || (read0 <= y < s)) && y != s)),
        s < read0 ==> read1 == read0 && (forall|y: u32| #[trigger] in_nack1(y) <==> (in_nack0(y)
            && y != s)),
    ensures
        read1 as int == route_read(seqs.push(s)),
        forall|y: u32| #[trigger] in_nack1(y) <==> route_nack(seqs.push(s)).contains(y),
{
    assert(seqs.push(s).drop_last() =~= seqs);
    assert(seqs.push(s).last() == s);
    if s >= read0 {
        assert forall|y: u32| #[trigger] in_nack1(y) <==> route_nack(seqs.push(s)).contains(
            y,
        ) by {
            assert(route_nack(seqs.push(s)) == route_nack(seqs).remove(s).union(
                Set::new(|y: u32| route_read(seqs) <= y < s),
            ));
        }
    } else {
        assert forall|y: u32| #[trigger] in_nack1(y) <==> route_nack(seqs.push(s)).contains(
            y,
        ) by {
            assert(route_nack(seqs.push(s)) == route_nack(seqs).remove(s));
        }
    }
}

/// Router gap-detection law: after delivering strictly increasing
/// sequence numbers to a fresh router, the pending-NACK set holds exactly
/// the numbers up to the last one that were never delivered, and the
/// read index sits just past the last one.
pub proof fn lemma_router_gap_detection(seqs: Seq<u32>)
    requires
        crate::ack::sorted_strict(seqs),
        all_u24(seqs),
        seqs.len() > 0,
    ensures
        route_read(seqs) == seqs.last() + 1,
        forall|y: u32| #[trigger] route_nack(seqs).contains(y) <==> (y <= seqs.last() && !seqs.contains(y)),
    decreases seqs.len(),
{
    reveal_with_fuel(route_read, 3);
    reveal_with_fuel(route_nack, 3);
    let s = seqs.last();
    let prefix = seqs.drop_last();
    if seqs.len() == 1 {
        assert(route_read(prefix) == 0);
        assert forall|y: u32| route_nack(seqs).contains(y) implies (y <= s && !seqs.contains(
            y,
        )) by {
            if seqs.contains(y) {
                let k = choose|k: int| 0 <= k < seqs.len() && seqs[k] == y;
                assert(y == s);
            }
        }
        assert forall|y: u32| (y <= s && !seqs.contains(y)) implies route_nack(seqs).contains(
            y,
        ) by {
            assert(seqs[0] == s);
            assert(y != s);
        }
    } else {
        assert(crate::ack::sorted_strict(prefix) && all_u24(prefix)) by {
            assert(forall|k: int| 0 <= k < prefix.len() ==> prefix[k] == seqs[k]);
        }
        lemma_router_gap_detection(prefix);
        assert(prefix.last() == seqs[seqs.len() - 2]);
        assert(prefix.last() < s);
        assert(route_read(prefix) == prefix.last() + 1);
        assert(s >= route_read(prefix));
        assert(route_read(seqs) == s + 1);
        let prev = route_nack(prefix);
        let prev_read = prefix.last() + 1;
        assert forall|y: u32| route_nack(seqs).contains(y) implies (y <= s && !seqs.contains(
            y,
        )) by {
            assert(prev.remove(s).contains(y) || (prev_read <= y < s));
            if prev.remove(s).contains(y) {
                assert(prev.contains(y) && y != s);
                assert(prev.contains(y) ==> (y <= prefix.last() && !prefix.contains(y)));
                assert(y <= prefix.last());
            }
            assert(y <= s);
            if seqs.contains(y) {
                let k = choose|k: int| 0 <= k < seqs.len() && seqs[k] == y;
                if k < seqs.len() - 1 {
                    assert(prefix[k] == y);
                    assert(prefix.contains(y));
                    assert(!prev.contains(y));
                    assert(prev_read <= y);
                    assert(prefix[k] <= prefix.last()) by {
                        if k < prefix.len() - 1 {
                            assert(prefix[k] < prefix[prefix.len() - 1]);
                        }
                    }
                    assert(false);
                } else {
                    assert(y == s);
                    assert(!(prev_read <= y < s));
                    assert(prev.remove(s).contains(y));
                    assert(false);
                }
            }
        }
        assert forall|y: u32| (y <= s && !seqs.contains(y)) implies route_nack(seqs).contains(
            y,
        ) by {
            assert(seqs[seqs.len() - 1] == s);
            assert(y != s);
            assert(forall|k: int| 0 <= k < prefix.len() ==> prefix[k] == seqs[k]);
            if y <= prefix.last() {
                assert(!prefix.contains(y)) by {
                    if prefix.contains(y) {
                        let k = choose|k: int| 0 <= k < prefix.len() && prefix[k] == y;
                        assert(seqs[k] == y);
                    }
                }
                assert(prev.contains(y));
            } else {
                assert(prev_read <= y < s);
            }
        }
    }
}

} // verus!
