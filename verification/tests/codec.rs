use raknet_core::ack::{Ack, Record};
use raknet_core::errors::CodecError;
use raknet_core::packet::{Flags, Fragment, Frame, FrameSet, Packet, Reliability};

fn plain_frame(reliability: Reliability, body: Vec<u8>, index: u32) -> Frame {
    let reliable = matches!(
        reliability,
        Reliability::Reliable | Reliability::ReliableOrdered | Reliability::ReliableSequenced
    );
    let sequenced = matches!(
        reliability,
        Reliability::UnreliableSequenced | Reliability::ReliableSequenced
    );
    let seq_or_ord = sequenced || matches!(reliability, Reliability::ReliableOrdered);
    Frame {
        flags: Flags::new(reliability, false),
        reliable_frame_index: if reliable { Some(index) } else { None },
        seq_frame_index: if sequenced { Some(index) } else { None },
        ordered_frame_index: if seq_or_ord { Some(index) } else { None },
        fragment: None,
        body,
    }
}

fn assert_frames_equal(a: &Frame, b: &Frame) {
    assert_eq!(a.flags, b.flags);
    assert_eq!(a.reliable_frame_index, b.reliable_frame_index);
    assert_eq!(a.seq_frame_index, b.seq_frame_index);
    assert_eq!(a.ordered_frame_index, b.ordered_frame_index);
    assert_eq!(a.fragment, b.fragment);
    assert_eq!(a.body, b.body);
}

#[test]
fn frame_set_roundtrip_every_reliability() {
    for (i, reliability) in [
        Reliability::Unreliable,
        Reliability::UnreliableSequenced,
        Reliability::Reliable,
        Reliability::ReliableOrdered,
        Reliability::ReliableSequenced,
    ]
    .into_iter()
    .enumerate()
    {
        let fs = FrameSet {
            seq_num: 41 + i as u32,
            frames: vec![plain_frame(reliability, vec![9, 8, 7, 6], i as u32)],
        };
        let mut buf: Vec<u8> = Vec::new();
        fs.write(&mut buf);
        let back = FrameSet::read(&buf).unwrap();
        assert_eq!(back.seq_num, fs.seq_num);
        assert_eq!(back.frames.len(), 1);
        assert_frames_equal(&back.frames[0], &fs.frames[0]);
    }
}

#[test]
fn frame_set_roundtrip_fragmented_and_multiple() {
    let parted = Frame {
        flags: Flags::new(Reliability::Reliable, true),
        reliable_frame_index: Some(7),
        seq_frame_index: None,
        ordered_frame_index: None,
        fragment: Some(Fragment {
            parted_size: 3,
            parted_id: 21,
            parted_index: 1,
        }),
        body: vec![1, 2, 3],
    };
    let plain = plain_frame(Reliability::Unreliable, vec![42], 0);
    let fs = FrameSet {
        seq_num: 0xFFFFFF,
        frames: vec![parted, plain],
    };
    let mut buf: Vec<u8> = Vec::new();
    fs.write(&mut buf);
    let back = FrameSet::read(&buf).unwrap();
    assert_eq!(back.seq_num, 0xFFFFFF);
    assert_eq!(back.frames.len(), 2);
    assert_frames_equal(&back.frames[0], &fs.frames[0]);
    assert_frames_equal(&back.frames[1], &fs.frames[1]);
}

#[test]
fn frame_read_rejects_zero_length_body() {
    // seq_num, flags, then a zero length field
    let buf: Vec<u8> = vec![0, 0, 0, 0, 0, 0];
    assert!(matches!(FrameSet::read(&buf), Err(CodecError::InvalidPacketLength)));
}

#[test]
fn frame_read_rejects_bad_reliability() {
    // flags byte with reliability bits of 5
    let flags: u8 = 5 << 5;
    let buf: Vec<u8> = vec![0, 0, 0, flags, 0, 8, 1];
    assert!(matches!(FrameSet::read(&buf), Err(CodecError::InvalidReliability(5))));
}

#[test]
fn frame_read_rejects_truncation() {
    let buf: Vec<u8> = vec![0, 0];
    assert!(matches!(FrameSet::read(&buf), Err(CodecError::InvalidPacketLength)));
    // header promises a longer body than the buffer holds
    let buf2: Vec<u8> = vec![0, 0, 0, 0, 0, 16, 1];
    assert!(matches!(FrameSet::read(&buf2), Err(CodecError::InvalidPacketLength)));
}

#[test]
fn frame_size_matches_wire_length() {
    let f = plain_frame(Reliability::ReliableOrdered, vec![5; 10], 3);
    let mut buf: Vec<u8> = Vec::new();
    f.write(&mut buf);
    assert_eq!(buf.len(), f.size());
    // flags(1) + length(2) + reliable(3) + ordered(3+1) + body(10)
    assert_eq!(f.size(), 20);
}

#[test]
fn flags_carry_reliability_and_parted() {
    let f = Flags::new(Reliability::ReliableSequenced, true);
    assert_eq!(f.reliability(), Ok(Reliability::ReliableSequenced));
    assert!(f.parted());
    let g = Flags::new(Reliability::Unreliable, false);
    assert_eq!(g.reliability(), Ok(Reliability::Unreliable));
    assert!(!g.parted());
}

#[test]
fn reliability_predicates() {
    assert!(Reliability::Reliable.is_reliable());
    assert!(Reliability::ReliableOrdered.is_reliable());
    assert!(Reliability::ReliableSequenced.is_reliable());
    assert!(!Reliability::Unreliable.is_reliable());
    assert!(!Reliability::UnreliableSequenced.is_reliable());
    assert!(Reliability::UnreliableSequenced.is_sequenced());
    assert!(Reliability::ReliableSequenced.is_sequenced());
    assert!(!Reliability::ReliableOrdered.is_sequenced());
    assert!(Reliability::UnreliableSequenced.is_sequenced_or_ordered());
    assert!(Reliability::ReliableOrdered.is_sequenced_or_ordered());
    assert!(!Reliability::Reliable.is_sequenced_or_ordered());
}

#[test]
fn ordered_channel_normalized_to_zero() {
    let f = plain_frame(Reliability::ReliableOrdered, vec![1], 0);
    let mut buf: Vec<u8> = Vec::new();
    f.write(&mut buf);
    // flags(1) + length(2) + reliable index(3) + ordered index(3), then
    // the channel byte
    assert_eq!(buf[9], 0);
}

#[test]
fn packet_kinds_roundtrip() {
    let fs = FrameSet {
        seq_num: 3,
        frames: vec![plain_frame(Reliability::Unreliable, vec![1], 0)],
    };
    let mut buf: Vec<u8> = Vec::new();
    Packet::FrameSet(fs).write(&mut buf);
    match Packet::read_frame_set(&buf).unwrap() {
        Packet::FrameSet(back) => assert_eq!(back.seq_num, 3),
        _ => panic!("expected a frame set"),
    }
    let mut abuf: Vec<u8> = Vec::new();
    Packet::Ack(Ack {
        records: vec![Record::Single(5)],
    })
    .write(&mut abuf);
    match Packet::read_ack(&abuf).unwrap() {
        Packet::Ack(a) => assert_eq!(a.records, vec![Record::Single(5)]),
        _ => panic!("expected an ack"),
    }
    match Packet::read_nack(&abuf).unwrap() {
        Packet::Nack(a) => assert_eq!(a.records, vec![Record::Single(5)]),
        _ => panic!("expected a nack"),
    }
}

#[test]
fn inner_pack_id_is_first_body_byte() {
    let f = plain_frame(Reliability::Unreliable, vec![0xFE, 1, 2], 0);
    assert!(matches!(f.inner_pack_id(), Ok(0xFE)));
}
