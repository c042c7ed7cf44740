//! The shared link between the read and write halves of one connection:
//! bounded ingress queues for received ACK/NACK packets (oldest dropped on
//! overflow), ordered sets of sequence numbers to acknowledge or to
//! negative-acknowledge, mailboxes for unconnected packets and decoded
//! frame bodies, and the waking flag that lets an incoming ACK pull a
//! parked writer out of its resend timer. The surrounding tasks own this
//! structure through whatever sharing discipline they need; every
//! operation here is a plain sequential step.
use vstd::prelude::*;

use std::collections::VecDeque;

use crate::ack::{all_u24, recs_size, rle, sorted_strict, Ack};
use crate::wire::U24_MAX_PLUS_ONE;
use crate::{Peer, Role};

verus! {

/// Capacity of each bounded ingress queue; a flood of ACK or NACK packets
/// displaces the oldest entries instead of stalling the pipeline.
pub const MAX_ACK_BUFFER: usize = 1024;

/// Insert `x` into a strictly sorted vector, keeping it sorted; a value
/// already present is left alone.
pub fn sorted_insert(v: &mut Vec<u32>, x: u32)
    requires
        sorted_strict(old(v)@),
        all_u24(old(v)@),
        x < U24_MAX_PLUS_ONE,
    ensures
        sorted_strict(final(v)@),
        all_u24(final(v)@),
        forall|y: u32| final(v)@.contains(y) <==> (old(v)@.contains(y) || y == x),
        old(v)@.contains(x) ==> final(v)@ == old(v)@,
        !old(v)@.contains(x) ==> final(v)@.len() == old(v)@.len() + 1,
{
    let n = v.len();
    let mut idx: usize = 0;
    while idx < n && v[idx] < x
        invariant
            idx <= n,
            n == v@.len(),
            v@ == old(v)@,
            forall|k: int| 0 <= k < idx ==> v@[k] < x,
        decreases n - idx,
    {
        idx = idx + 1;
    }
    if idx < n && v[idx] == x {
        proof {
            assert(old(v)@.contains(x));
        }
        return ;
    }
    proof {
        assert(forall|k: int| idx <= k < v@.len() ==> v@[k] > x) by {
            if idx < v@.len() {
                assert(v@[idx as int] > x);
                assert(forall|k: int| idx < k < v@.len() ==> v@[k] > v@[idx as int]);
            }
        }
        assert(!old(v)@.contains(x));
    }
    v.insert(idx, x);
    proof {
        let newv = v@;
        let oldv = old(v)@;
        assert(forall|k: int| 0 <= k < idx ==> newv[k] == oldv[k]);
        assert(newv[idx as int] == x);
        assert(forall|k: int| idx < k < newv.len() ==> newv[k] == oldv[k - 1]);
        assert(sorted_strict(newv)) by {
            assert(forall|a: int, b: int|
                0 <= a < b < newv.len() ==> newv[a] < newv[b]) by {
                assert(forall|k: int| 0 <= k < idx ==> newv[k] < x);
                assert(forall|k: int| idx < k < newv.len() ==> newv[k] > x);
            }
        }
        assert(forall|y: u32| newv.contains(y) <==> (oldv.contains(y) || y == x)) by {
            assert forall|y: u32| newv.contains(y) implies (oldv.contains(y) || y == x) by {
                let k = choose|k: int| 0 <= k < newv.len() && newv[k] == y;
                if k < idx {
                    assert(oldv[k] == y);
                } else if k > idx {
                    assert(oldv[k - 1] == y);
                }
            }
            assert forall|y: u32| (oldv.contains(y) || y == x) implies newv.contains(y) by {
                if y == x {
                    assert(newv[idx as int] == y);
                } else if oldv.contains(y) {
                    let k = choose|k: int| 0 <= k < oldv.len() && oldv[k] == y;
                    if k < idx {
                        assert(newv[k] == y);
                    } else {
                        assert(newv[k + 1] == y);
                    }
                }
            }
        }
    }
}

/// Remove `x` from a strictly sorted vector; a value not present leaves
/// the vector unchanged.
pub fn sorted_remove(v: &mut Vec<u32>, x: u32)
    requires
        sorted_strict(old(v)@),
        all_u24(old(v)@),
    ensures
        sorted_strict(final(v)@),
        all_u24(final(v)@),
        forall|y: u32| final(v)@.contains(y) <==> (old(v)@.contains(y) && y != x),
        !old(v)@.contains(x) ==> final(v)@ == old(v)@,
        old(v)@.contains(x) ==> final(v)@.len() + 1 == old(v)@.len(),
{
    let n = v.len();
    let mut idx: usize = 0;
    while idx < n && v[idx] < x
        invariant
            idx <= n,
            n == v@.len(),
            v@ == old(v)@,
            forall|k: int| 0 <= k < idx ==> v@[k] < x,
        decreases n - idx,
    {
        idx = idx + 1;
    }
    proof {
        assert(forall|k: int| idx <= k < v@.len() ==> v@[k] >= x) by {
            if idx < v@.len() {
                assert(v@[idx as int] >= x);
                assert(forall|k: int| idx < k < v@.len() ==> v@[k] > v@[idx as int]);
            }
        }
    }
    if idx < n && v[idx] == x {
        v.remove(idx);
        proof {
            let newv = v@;
            let oldv = old(v)@;
            assert(forall|k: int| 0 <= k < idx ==> newv[k] == oldv[k]);
            assert(forall|k: int| idx <= k < newv.len() ==> newv[k] == oldv[k + 1]);
            assert(sorted_strict(newv));
            assert(forall|y: u32| newv.contains(y) <==> (oldv.contains(y) && y != x)) by {
                assert forall|y: u32| newv.contains(y) implies (oldv.contains(y) && y != x) by {
                    let k = choose|k: int| 0 <= k < newv.len() && newv[k] == y;
                    if k < idx {
                        assert(oldv[k] == y);
                        assert(oldv[k] < x);
                    } else {
                        assert(oldv[k + 1] == y);
                        assert(oldv[k + 1] > oldv[idx as int]);
                    }
                }
                assert forall|y: u32| (oldv.contains(y) && y != x) implies newv.contains(y) by {
                    let k = choose|k: int| 0 <= k < oldv.len() && oldv[k] == y;
                    if k < idx {
                        assert(newv[k] == y);
                    } else {
                        assert(k != idx);
                        assert(newv[k - 1] == y);
                    }
                }
            }
        }
    } else {
        proof {
            assert(!old(v)@.contains(x)) by {
                if idx < v@.len() {
                    assert(v@[idx as int] > x);
                }
            }
        }
    }
}

/// Transfers data between the stream and sink halves of one connection.
pub struct TransferLink {
    /// Received ACK packets, each with its receive timestamp, waiting to
    /// be absorbed into the resend map; bounded, oldest dropped.
    pub incoming_ack: VecDeque<(Ack, u64)>,
    /// Received NACK packets waiting to trigger retransmission; bounded,
    /// oldest dropped.
    pub incoming_nack: VecDeque<Ack>,
    /// While set, an arriving ACK should wake the writer parked on the
    /// resend timer.
    pub forward_waking: bool,
    /// Sequence numbers this side still has to acknowledge, strictly
    /// sorted.
    pub outgoing_ack: Vec<u32>,
    /// Sequence numbers this side believes are missing, strictly sorted.
    pub outgoing_nack: Vec<u32>,
    /// Unconnected control packets awaiting send, oldest first.
    pub unconnected: VecDeque<Vec<u8>>,
    /// Decoded application bodies awaiting delivery upward, oldest first.
    pub frame_body: VecDeque<Vec<u8>>,
    pub role: Role,
    pub peer: Peer,
}

impl TransferLink {
    /// Bounded queues within capacity, ordered sets sorted, all sequence
    /// numbers within 24 bits.
    pub open spec fn wf(self) -> bool {
        &&& self.incoming_ack@.len() <= MAX_ACK_BUFFER
        &&& self.incoming_nack@.len() <= MAX_ACK_BUFFER
        &&& sorted_strict(self.outgoing_ack@)
        &&& all_u24(self.outgoing_ack@)
        &&& sorted_strict(self.outgoing_nack@)
        &&& all_u24(self.outgoing_nack@)
    }

    /// The pending-ACK and pending-NACK sets never name the same value.
    pub open spec fn ack_nack_disjoint(self) -> bool {
        forall|y: u32| self.outgoing_ack@.contains(y) ==> !self.outgoing_nack@.contains(y)
    }

    pub open spec fn same_incoming(a: TransferLink, b: TransferLink) -> bool {
        a.incoming_ack@ == b.incoming_ack@ && a.incoming_nack@ == b.incoming_nack@
    }

    pub open spec fn same_outgoing(a: TransferLink, b: TransferLink) -> bool {
        a.outgoing_ack@ == b.outgoing_ack@ && a.outgoing_nack@ == b.outgoing_nack@
    }

    pub open spec fn same_mail(a: TransferLink, b: TransferLink) -> bool {
        a.unconnected@ == b.unconnected@ && a.frame_body@ == b.frame_body@
    }

    pub open spec fn same_id(a: TransferLink, b: TransferLink) -> bool {
        a.role == b.role && a.peer == b.peer && a.forward_waking == b.forward_waking
    }

    /// A fresh link with every queue empty and waking off.
    pub fn new(role: Role, peer: Peer) -> (l: TransferLink)
        ensures
            l.wf(),
            l.ack_nack_disjoint(),
            l.incoming_ack@.len() == 0,
            l.incoming_nack@.len() == 0,
            !l.forward_waking,
            l.outgoing_ack@.len() == 0,
            l.outgoing_nack@.len() == 0,
            l.unconnected@.len() == 0,
            l.frame_body@.len() == 0,
            l.role == role,
            l.peer == peer,
    {
        TransferLink {
            incoming_ack: VecDeque::new(),
            incoming_nack: VecDeque::new(),
            forward_waking: false,
            outgoing_ack: Vec::new(),
            outgoing_nack: Vec::new(),
            unconnected: VecDeque::new(),
            frame_body: VecDeque::new(),
            role,
            peer,
        }
    }

    /// Arm ACK-driven waking of the parked writer.
    pub fn turn_on_waking(&mut self)
        ensures
            final(self).forward_waking,
            TransferLink::same_incoming(*old(self), *final(self)),
            TransferLink::same_outgoing(*old(self), *final(self)),
            TransferLink::same_mail(*old(self), *final(self)),
            final(self).role == old(self).role && final(self).peer == old(self).peer,
    {
        self.forward_waking = true;
    }

    /// Disarm ACK-driven waking.
    pub fn turn_off_waking(&mut self)
        ensures
            !final(self).forward_waking,
            TransferLink::same_incoming(*old(self), *final(self)),
            TransferLink::same_outgoing(*old(self), *final(self)),
            TransferLink::same_mail(*old(self), *final(self)),
            final(self).role == old(self).role && final(self).peer == old(self).peer,
    {
        self.forward_waking = false;
    }

    /// Whether an arriving ACK should wake the parked writer.
    pub fn should_waking(&self) -> (b: bool)
        ensures
            b == self.forward_waking,
    {
        self.forward_waking
    }

    /// Take delivery of a received ACK packet, timestamped `now`. On
    /// overflow the oldest pending packet is dropped and handed back for
    /// logging. The second result says whether the caller must wake the
    /// timers parked under this connection.
    pub fn incoming_ack(&mut self, records: Ack, now: u64) -> (r: (Option<Ack>, bool))
        requires
            old(self).wf(),
        ensures
            final(self).wf(),
            old(self).incoming_ack@.len() < MAX_ACK_BUFFER ==> {
                &&& final(self).incoming_ack@ == old(self).incoming_ack@.push((records, now))
                &&& r.0 is None
            },
            old(self).incoming_ack@.len() == MAX_ACK_BUFFER ==> {
                &&& final(self).incoming_ack@ == old(self).incoming_ack@.drop_first().push(
                    (records, now),
                )
                &&& (match r.0 {
                    Some(dropped) => dropped == old(self).incoming_ack@[0].0,
                    None => false,
                })
            },
            r.1 == old(self).forward_waking,
            final(self).incoming_nack@ == old(self).incoming_nack@,
            TransferLink::same_outgoing(*old(self), *final(self)),
            TransferLink::same_mail(*old(self), *final(self)),
            TransferLink::same_id(*old(self), *final(self)),
    {
        let mut dropped: Option<Ack> = None;
        if self.incoming_ack.len() == MAX_ACK_BUFFER {
            match self.incoming_ack.pop_front() {
                Some((a, _)) => {
                    dropped = Some(a);
                },
                None => (),
            }
        }
        self.incoming_ack.push_back((records, now));
        (dropped, self.forward_waking)
    }

    /// Take delivery of a received NACK packet; on overflow the oldest is
    /// dropped and handed back for logging.
    pub fn incoming_nack(&mut self, records: Ack) -> (r: Option<Ack>)
        requires
            old(self).wf(),
        ensures
            final(self).wf(),
            old(self).incoming_nack@.len() < MAX_ACK_BUFFER ==> {
                &&& final(self).incoming_nack@ == old(self).incoming_nack@.push(records)
                &&& r is None
            },
            old(self).incoming_nack@.len() == MAX_ACK_BUFFER ==> {
                &&& final(self).incoming_nack@ == old(self).incoming_nack@.drop_first().push(
                    records,
                )
                &&& (match r {
                    Some(dropped) => dropped == old(self).incoming_nack@[0],
                    None => false,
                })
            },
            final(self).incoming_ack@ == old(self).incoming_ack@,
            TransferLink::same_outgoing(*old(self), *final(self)),
            TransferLink::same_mail(*old(self), *final(self)),
            TransferLink::same_id(*old(self), *final(self)),
    {
        let mut dropped: Option<Ack> = None;
        if self.incoming_nack.len() == MAX_ACK_BUFFER {
            dropped = self.incoming_nack.pop_front();
        }
        self.incoming_nack.push_back(records);
        dropped
    }

    /// Queue an unconnected control packet for sending.
    pub fn send_unconnected(&mut self, packet: Vec<u8>)
        ensures
            final(self).unconnected@ == old(self).unconnected@.push(packet),
            final(self).frame_body@ == old(self).frame_body@,
            TransferLink::same_incoming(*old(self), *final(self)),
            TransferLink::same_outgoing(*old(self), *final(self)),
            TransferLink::same_id(*old(self), *final(self)),
    {
        self.unconnected.push_back(packet);
    }

    /// Queue a decoded application body for delivery upward.
    pub fn send_frame_body(&mut self, body: Vec<u8>)
        ensures
            final(self).frame_body@ == old(self).frame_body@.push(body),
            final(self).unconnected@ == old(self).unconnected@,
            TransferLink::same_incoming(*old(self), *final(self)),
            TransferLink::same_outgoing(*old(self), *final(self)),
            TransferLink::same_id(*old(self), *final(self)),
    {
        self.frame_body.push_back(body);
    }

    /// Drain every pending received ACK, oldest first.
    pub fn process_ack(&mut self) -> (r: Vec<(Ack, u64)>)
        ensures
            r@ == old(self).incoming_ack@,
            final(self).incoming_ack@.len() == 0,
            final(self).incoming_nack@ == old(self).incoming_nack@,
            TransferLink::same_outgoing(*old(self), *final(self)),
            TransferLink::same_mail(*old(self), *final(self)),
            TransferLink::same_id(*old(self), *final(self)),
            old(self).wf() ==> final(self).wf(),
    {
        let mut r: Vec<(Ack, u64)> = Vec::new();
        while self.incoming_ack.len() > 0
            invariant
                r@ + self.incoming_ack@ == old(self).incoming_ack@,
                self.incoming_nack@ == old(self).incoming_nack@,
                TransferLink::same_outgoing(*old(self), *self),
                TransferLink::same_mail(*old(self), *self),
                TransferLink::same_id(*old(self), *self),
            decreases self.incoming_ack@.len(),
        {
            match self.incoming_ack.pop_front() {
                Some(entry) => {
                    r.push(entry);
                    proof {
                        assert(r@ + self.incoming_ack@ =~= old(self).incoming_ack@);
                    }
                },
                None => (),
            }
        }
        proof {
            assert(r@ + self.incoming_ack@ =~= r@);
        }
        r
    }

    /// Drain every pending received NACK, oldest first.
    pub fn process_nack(&mut self) -> (r: Vec<Ack>)
        ensures
            r@ == old(self).incoming_nack@,
            final(self).incoming_nack@.len() == 0,
            final(self).incoming_ack@ == old(self).incoming_ack@,
            TransferLink::same_outgoing(*old(self), *final(self)),
            TransferLink::same_mail(*old(self), *final(self)),
            TransferLink::same_id(*old(self), *final(self)),
            old(self).wf() ==> final(self).wf(),
    {
        let mut r: Vec<Ack> = Vec::new();
        while self.incoming_nack.len() > 0
            invariant
                r@ + self.incoming_nack@ == old(self).incoming_nack@,
                self.incoming_ack@ == old(self).incoming_ack@,
                TransferLink::same_outgoing(*old(self), *self),
                TransferLink::same_mail(*old(self), *self),
                TransferLink::same_id(*old(self), *self),
            decreases self.incoming_nack@.len(),
        {
            match self.incoming_nack.pop_front() {
                Some(entry) => {
                    r.push(entry);
                    proof {
                        assert(r@ + self.incoming_nack@ =~= old(self).incoming_nack@);
                    }
                },
                None => (),
            }
        }
        proof {
            assert(r@ + self.incoming_nack@ =~= r@);
        }
        r
    }

    /// Pack pending acknowledgements into one packet that fits `mtu`; the
    /// packed values leave the set, the rest stay for the next pass.
    pub fn process_outgoing_ack(&mut self, mtu: u16) -> (r: Option<Ack>)
        requires
            old(self).wf(),
            mtu >= 7,
        ensures
            final(self).wf(),
            old(self).ack_nack_disjoint() ==> final(self).ack_nack_disjoint(),
            (r is None) <==> old(self).outgoing_ack@.len() == 0,
            r is None ==> *final(self) == *old(self),
            (match r {
                Some(ack) => exists|next: int|
                    {
                        &&& 0 < next <= old(self).outgoing_ack@.len()
                        &&& ack@ == rle(#[trigger] old(self).outgoing_ack@.subrange(0, next))
                        &&& ack.wf()
                        &&& 3 + recs_size(ack@) <= mtu
                        &&& (next == old(self).outgoing_ack@.len() || 3 + recs_size(
                            rle(old(self).outgoing_ack@.subrange(0, next + 1)),
                        ) > mtu)
                        &&& final(self).outgoing_ack@ == old(self).outgoing_ack@.skip(next)
                    },
                None => true,
            }),
            final(self).outgoing_nack@ == old(self).outgoing_nack@,
            TransferLink::same_incoming(*old(self), *final(self)),
            TransferLink::same_mail(*old(self), *final(self)),
            TransferLink::same_id(*old(self), *final(self)),
    {
        match Ack::extend_from(&self.outgoing_ack, 0, mtu) {
            None => None,
            Some((ack, next)) => {
                let rest = self.outgoing_ack.split_off(next);
                self.outgoing_ack = rest;
                proof {
                    assert(final(self).outgoing_ack@ =~= old(self).outgoing_ack@.skip(
                        next as int,
                    ));
                    let fin = self.outgoing_ack@;
                    assert forall|y: u32| fin.contains(y)
                        implies old(self).outgoing_ack@.contains(y) by {
                        let k = choose|k: int| 0 <= k < fin.len() && fin[k] == y;
                        assert(old(self).outgoing_ack@[k + next] == y);
                    }
                }
                Some(ack)
            },
        }
    }

    /// Pack pending negative acknowledgements into one packet that fits
    /// `mtu`; the packed values leave the set.
    pub fn process_outgoing_nack(&mut self, mtu: u16) -> (r: Option<Ack>)
        requires
            old(self).wf(),
            mtu >= 7,
        ensures
            final(self).wf(),
            old(self).ack_nack_disjoint() ==> final(self).ack_nack_disjoint(),
            (r is None) <==> old(self).outgoing_nack@.len() == 0,
            r is None ==> *final(self) == *old(self),
            (match r {
                Some(nack) => exists|next: int|
                    {
                        &&& 0 < next <= old(self).outgoing_nack@.len()
                        &&& nack@ == rle(#[trigger] old(self).outgoing_nack@.subrange(0, next))
                        &&& nack.wf()
                        &&& 3 + recs_size(nack@) <= mtu
                        &&& (next == old(self).outgoing_nack@.len() || 3 + recs_size(
                            rle(old(self).outgoing_nack@.subrange(0, next + 1)),
                        ) > mtu)
                        &&& final(self).outgoing_nack@ == old(self).outgoing_nack@.skip(next)
                    },
                None => true,
            }),
            final(self).outgoing_ack@ == old(self).outgoing_ack@,
            TransferLink::same_incoming(*old(self), *final(self)),
            TransferLink::same_mail(*old(self), *final(self)),
            TransferLink::same_id(*old(self), *final(self)),
    {
        match Ack::extend_from(&self.outgoing_nack, 0, mtu) {
            None => None,
            Some((nack, next)) => {
                let rest = self.outgoing_nack.split_off(next);
                self.outgoing_nack = rest;
                proof {
                    assert(final(self).outgoing_nack@ =~= old(self).outgoing_nack@.skip(
                        next as int,
                    ));
                    let fin = self.outgoing_nack@;
                    assert forall|y: u32| fin.contains(y)
                        implies old(self).outgoing_nack@.contains(y) by {
                        let k = choose|k: int| 0 <= k < fin.len() && fin[k] == y;
                        assert(old(self).outgoing_nack@[k + next] == y);
                    }
                }
                Some(nack)
            },
        }
    }

    /// Take the oldest queued unconnected packet, if any.
    pub fn process_unconnected(&mut self) -> (r: Option<Vec<u8>>)
        ensures
            old(self).unconnected@.len() == 0 ==> r is None && final(self).unconnected@ == old(
                self,
            ).unconnected@,
            old(self).unconnected@.len() > 0 ==> (match r {
                Some(p) => p == old(self).unconnected@[0] && final(self).unconnected@ == old(
                    self,
                ).unconnected@.drop_first(),
                None => false,
            }),
            final(self).frame_body@ == old(self).frame_body@,
            TransferLink::same_incoming(*old(self), *final(self)),
            TransferLink::same_outgoing(*old(self), *final(self)),
            TransferLink::same_id(*old(self), *final(self)),
    {
        self.unconnected.pop_front()
    }

    /// Take the oldest decoded application body, if any.
    pub fn process_frame_body(&mut self) -> (r: Option<Vec<u8>>)
        ensures
            old(self).frame_body@.len() == 0 ==> r is None && final(self).frame_body@ == old(
                self,
            ).frame_body@,
            old(self).frame_body@.len() > 0 ==> (match r {
                Some(p) => p == old(self).frame_body@[0] && final(self).frame_body@ == old(
                    self,
                ).frame_body@.drop_first(),
                None => false,
            }),
            final(self).unconnected@ == old(self).unconnected@,
            TransferLink::same_incoming(*old(self), *final(self)),
            TransferLink::same_outgoing(*old(self), *final(self)),
            TransferLink::same_id(*old(self), *final(self)),
    {
        self.frame_body.pop_front()
    }

    /// Whether no acknowledgements are pending.
    pub fn outgoing_ack_empty(&self) -> (b: bool)
        ensures
            b == (self.outgoing_ack@.len() == 0),
    {
        self.outgoing_ack.len() == 0
    }

    /// Whether no negative acknowledgements are pending.
    pub fn outgoing_nack_empty(&self) -> (b: bool)
        ensures
            b == (self.outgoing_nack@.len() == 0),
    {
        self.outgoing_nack.len() == 0
    }

    /// Whether no unconnected packets are queued.
    pub fn unconnected_empty(&self) -> (b: bool)
        ensures
            b == (self.unconnected@.len() == 0),
    {
        self.unconnected.len() == 0
    }

    /// Whether no decoded application bodies are queued.
    pub fn frame_body_empty(&self) -> (b: bool)
        ensures
            b == (self.frame_body@.len() == 0),
    {
        self.frame_body.len() == 0
    }
}

} // verus!
