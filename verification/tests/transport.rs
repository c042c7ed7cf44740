use raknet_core::ack::{Ack, Record};
use raknet_core::guard::{FlushStrategy, OutPacket, OutgoingGuard};
use raknet_core::incoming::Incoming;
use raknet_core::link::TransferLink;
use raknet_core::packet::{Flags, Frame, FrameSet, Packet, Reliability};
use raknet_core::router::{Delivery, Router};
use raknet_core::{Peer, Role};

fn test_peer() -> Peer {
    Peer { guid: 7, mtu: 100 }
}

fn test_role() -> Role {
    Role::Server { guid: 1 }
}

fn unreliable_frame(body: Vec<u8>) -> Frame {
    Frame {
        flags: Flags::new(Reliability::Unreliable, false),
        reliable_frame_index: None,
        seq_frame_index: None,
        ordered_frame_index: None,
        fragment: None,
        body,
    }
}

fn reliable_frame(index: u32, body: Vec<u8>) -> Frame {
    Frame {
        flags: Flags::new(Reliability::Reliable, false),
        reliable_frame_index: Some(index),
        seq_frame_index: None,
        ordered_frame_index: None,
        fragment: None,
        body,
    }
}

fn frame_set_packet(seq_num: u32) -> Packet {
    Packet::FrameSet(FrameSet {
        seq_num,
        frames: vec![unreliable_frame(vec![seq_num as u8])],
    })
}

fn emitted_frame_sets(out: &[OutPacket]) -> Vec<(u32, usize)> {
    let mut sets = Vec::new();
    for p in out {
        if let OutPacket::Connected(Packet::FrameSet(fs)) = p {
            sets.push((fs.seq_num, fs.frames.len()));
        }
    }
    sets
}

#[test]
fn router_gap_detection() {
    let mut link = TransferLink::new(test_role(), test_peer());
    let mut router = Router::new();
    for seq in [0u32, 1, 4] {
        let d = router.deliver(&mut link, frame_set_packet(seq), 0);
        assert!(matches!(d, Delivery::Forward(_)));
    }
    assert!(link.outgoing_ack.contains(&0));
    assert!(link.outgoing_ack.contains(&1));
    assert!(link.outgoing_ack.contains(&4));
    assert_eq!(link.outgoing_nack, vec![2, 3]);
    assert_eq!(router.seq_read, 5);
    // the missing frame set arrives late: its gap entry goes away, the
    // read index holds, and it is acknowledged but not forwarded again
    let d = router.deliver(&mut link, frame_set_packet(3), 0);
    assert!(matches!(d, Delivery::Duplicate));
    assert_eq!(link.outgoing_nack, vec![2]);
    assert_eq!(router.seq_read, 5);
    assert!(link.outgoing_ack.contains(&3));
}

#[test]
fn router_hands_acks_and_nacks_to_link() {
    let mut link = TransferLink::new(test_role(), test_peer());
    let mut router = Router::new();
    let ack = Ack {
        records: vec![Record::Single(0)],
    };
    let d = router.deliver(&mut link, Packet::Ack(ack), 5);
    assert!(matches!(d, Delivery::AckReceived(false)));
    assert_eq!(link.incoming_ack.len(), 1);
    let nack = Ack {
        records: vec![Record::Single(1)],
    };
    let d = router.deliver(&mut link, Packet::Nack(nack), 5);
    assert!(matches!(d, Delivery::NackReceived));
    assert_eq!(link.incoming_nack.len(), 1);
}

#[test]
fn retransmit_after_nack() {
    let mut link = TransferLink::new(test_role(), test_peer());
    let mut guard = OutgoingGuard::new(8, test_peer(), test_role());
    let mut strategy = FlushStrategy::new(true, true, true);
    let mut out: Vec<OutPacket> = Vec::new();
    guard.start_send(reliable_frame(0, vec![1, 2, 3]));
    guard.start_send(reliable_frame(1, vec![4, 5]));
    guard.try_empty(&mut link, &mut strategy, 0, &mut out);
    // both frames fit one frame set at the first sequence number
    assert_eq!(emitted_frame_sets(&out), vec![(0, 2)]);
    assert_eq!(guard.resend.entries.len(), 1);
    assert_eq!(guard.resend.entries[0].seq, 0);
    // the peer reports that set missing
    link.incoming_nack(Ack {
        records: vec![Record::Single(0)],
    });
    let mut out2: Vec<OutPacket> = Vec::new();
    guard.try_empty(&mut link, &mut strategy, 1, &mut out2);
    // the same two frames leave again under a fresh sequence number
    assert_eq!(emitted_frame_sets(&out2), vec![(1, 2)]);
    assert_eq!(guard.resend.entries.len(), 1);
    assert_eq!(guard.resend.entries[0].seq, 1);
    let mut bodies: Vec<Vec<u8>> = Vec::new();
    if let OutPacket::Connected(Packet::FrameSet(fs)) = &out2[0] {
        for f in &fs.frames {
            bodies.push(f.body.clone());
        }
    }
    bodies.sort();
    assert_eq!(bodies, vec![vec![1, 2, 3], vec![4, 5]]);
}

#[test]
fn ack_clears_resend() {
    let mut link = TransferLink::new(test_role(), test_peer());
    let mut guard = OutgoingGuard::new(8, test_peer(), test_role());
    let mut strategy = FlushStrategy::new(true, true, true);
    let mut out: Vec<OutPacket> = Vec::new();
    guard.start_send(reliable_frame(0, vec![1]));
    guard.try_empty(&mut link, &mut strategy, 0, &mut out);
    assert_eq!(guard.resend.entries.len(), 1);
    link.incoming_ack(
        Ack {
            records: vec![Record::Single(0)],
        },
        1,
    );
    let mut out2: Vec<OutPacket> = Vec::new();
    guard.try_empty(&mut link, &mut strategy, 1, &mut out2);
    assert!(guard.resend.entries.is_empty());
    assert!(emitted_frame_sets(&out2).is_empty());
}

#[test]
fn duplicate_ack_is_benign() {
    let mut link = TransferLink::new(test_role(), test_peer());
    let mut guard = OutgoingGuard::new(8, test_peer(), test_role());
    let mut strategy = FlushStrategy::new(true, true, true);
    let mut out: Vec<OutPacket> = Vec::new();
    guard.start_send(reliable_frame(0, vec![1]));
    guard.try_empty(&mut link, &mut strategy, 0, &mut out);
    for _ in 0..2 {
        link.incoming_ack(
            Ack {
                records: vec![Record::Single(0)],
            },
            1,
        );
    }
    let mut out2: Vec<OutPacket> = Vec::new();
    guard.try_empty(&mut link, &mut strategy, 1, &mut out2);
    assert!(guard.resend.entries.is_empty());
}

#[test]
fn close_waits_for_ack() {
    let mut link = TransferLink::new(test_role(), test_peer());
    let mut guard = OutgoingGuard::new(8, test_peer(), test_role());
    let mut out: Vec<OutPacket> = Vec::new();
    guard.start_send(reliable_frame(0, vec![1, 2]));
    // the frame leaves, but no acknowledgement has arrived: close waits
    assert!(!guard.poll_close(&mut link, 0, &mut out));
    assert!(link.should_waking());
    let sets = emitted_frame_sets(&out);
    assert_eq!(sets.len(), 1);
    let seq = sets[0].0;
    // the acknowledgement arrives; its receipt must wake the writer
    let (_, wake) = link.incoming_ack(
        Ack {
            records: vec![Record::Single(seq)],
        },
        1,
    );
    assert!(wake);
    let mut out2: Vec<OutPacket> = Vec::new();
    assert!(guard.poll_close(&mut link, 1, &mut out2));
    assert!(!link.should_waking());
    assert!(guard.resend.entries.is_empty());
}

#[test]
fn poll_ready_reports_capacity() {
    let mut link = TransferLink::new(test_role(), test_peer());
    let mut guard = OutgoingGuard::new(2, test_peer(), test_role());
    // a strategy that may not flush payload leaves the buffer full
    let mut strategy = FlushStrategy::new(true, true, false);
    let mut out: Vec<OutPacket> = Vec::new();
    guard.start_send(unreliable_frame(vec![1]));
    guard.start_send(unreliable_frame(vec![2]));
    assert!(!guard.poll_ready(&mut link, &mut strategy, 0, &mut out));
    // once payload may flush, the buffer drains and the guard is ready
    let mut full = FlushStrategy::new(true, true, true);
    assert!(guard.poll_ready(&mut link, &mut full, 0, &mut out));
    assert!(guard.buf.is_empty());
}

#[test]
fn seq_numbers_strictly_increase() {
    let mut link = TransferLink::new(test_role(), test_peer());
    let mut guard = OutgoingGuard::new(8, test_peer(), test_role());
    let mut strategy = FlushStrategy::new(true, true, true);
    let mut all_sets: Vec<(u32, usize)> = Vec::new();
    for round in 0..3u8 {
        let mut out: Vec<OutPacket> = Vec::new();
        // a wide frame forces more than one set per cycle
        guard.start_send(unreliable_frame(vec![round; 90]));
        guard.start_send(unreliable_frame(vec![round; 90]));
        guard.try_empty(&mut link, &mut strategy, round as u64, &mut out);
        all_sets.extend(emitted_frame_sets(&out));
    }
    let seqs: Vec<u32> = all_sets.iter().map(|s| s.0).collect();
    assert_eq!(seqs, vec![0, 1, 2, 3, 4, 5]);
}

#[test]
fn stale_entries_are_requeued() {
    let mut link = TransferLink::new(test_role(), test_peer());
    let mut guard = OutgoingGuard::new(8, test_peer(), test_role());
    let mut strategy = FlushStrategy::new(true, true, true);
    let mut out: Vec<OutPacket> = Vec::new();
    guard.start_send(reliable_frame(0, vec![1]));
    guard.try_empty(&mut link, &mut strategy, 0, &mut out);
    assert_eq!(guard.resend.entries[0].seq, 0);
    // long past the retransmission timeout, the same frame leaves again
    let mut out2: Vec<OutPacket> = Vec::new();
    guard.try_empty(&mut link, &mut strategy, 1_000, &mut out2);
    assert_eq!(emitted_frame_sets(&out2), vec![(1, 1)]);
    assert_eq!(guard.resend.entries.len(), 1);
    assert_eq!(guard.resend.entries[0].seq, 1);
}

#[test]
fn guard_flushes_pending_acks_and_nacks() {
    let mut link = TransferLink::new(test_role(), test_peer());
    let mut router = Router::new();
    // receiving seq 1 first leaves a gap at 0
    router.deliver(&mut link, frame_set_packet(1), 0);
    assert_eq!(link.outgoing_nack, vec![0]);
    let mut guard = OutgoingGuard::new(8, test_peer(), test_role());
    let mut strategy = FlushStrategy::new(true, true, true);
    let mut out: Vec<OutPacket> = Vec::new();
    guard.try_empty(&mut link, &mut strategy, 0, &mut out);
    let mut saw_ack = false;
    let mut saw_nack = false;
    for p in &out {
        match p {
            OutPacket::Connected(Packet::Ack(a)) => {
                saw_ack = true;
                assert_eq!(a.records, vec![Record::Single(1)]);
            }
            OutPacket::Connected(Packet::Nack(n)) => {
                saw_nack = true;
                assert_eq!(n.records, vec![Record::Single(0)]);
            }
            _ => {}
        }
    }
    assert!(saw_ack && saw_nack);
    assert!(link.outgoing_ack.is_empty());
    assert!(link.outgoing_nack.is_empty());
    assert_eq!(strategy.flushed_ack, 1);
    assert_eq!(strategy.flushed_nack, 1);
}

#[test]
fn unconnected_packets_flush_with_payload() {
    let mut link = TransferLink::new(test_role(), test_peer());
    let mut guard = OutgoingGuard::new(8, test_peer(), test_role());
    let mut strategy = FlushStrategy::new(true, true, true);
    link.send_unconnected(vec![0xAB, 1]);
    let mut out: Vec<OutPacket> = Vec::new();
    guard.try_empty(&mut link, &mut strategy, 0, &mut out);
    assert!(matches!(&out[0], OutPacket::Unconnected(p) if p == &vec![0xAB, 1]));
    assert!(link.unconnected.is_empty());
}

#[test]
fn ingress_queue_drops_oldest_on_overflow() {
    let mut link = TransferLink::new(test_role(), test_peer());
    for i in 0..1024u32 {
        let (dropped, _) = link.incoming_ack(
            Ack {
                records: vec![Record::Single(i)],
            },
            0,
        );
        assert!(dropped.is_none());
    }
    let (dropped, _) = link.incoming_ack(
        Ack {
            records: vec![Record::Single(1024)],
        },
        0,
    );
    assert_eq!(dropped.unwrap().records, vec![Record::Single(0)]);
    assert_eq!(link.incoming_ack.len(), 1024);
}

#[test]
fn dispatcher_registers_routes_and_evicts() {
    let mut incoming = Incoming::new();
    assert!(incoming.route(10).is_none());
    incoming.register(10, 100);
    incoming.register(11, 101);
    assert_eq!(incoming.route(10), Some(100));
    assert_eq!(incoming.route(11), Some(101));
    incoming.evict(10);
    assert!(incoming.route(10).is_none());
    assert_eq!(incoming.route(11), Some(101));
    // a dropped peer is swept out before the next poll
    let dropped: Vec<u64> = vec![11, 12];
    incoming.clear_dropped_addr(&dropped);
    assert!(incoming.route(11).is_none());
}

#[test]
fn resend_deadline_is_earliest_timeout() {
    let mut guard = OutgoingGuard::new(8, test_peer(), test_role());
    let mut link = TransferLink::new(test_role(), test_peer());
    let mut strategy = FlushStrategy::new(true, true, true);
    let mut out: Vec<OutPacket> = Vec::new();
    assert!(guard.resend.next_deadline().is_none());
    guard.start_send(reliable_frame(0, vec![1]));
    guard.try_empty(&mut link, &mut strategy, 40, &mut out);
    assert_eq!(guard.resend.next_deadline(), Some(140));
}
