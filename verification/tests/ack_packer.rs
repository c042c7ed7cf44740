use raknet_core::ack::{Ack, Record};
use raknet_core::errors::CodecError;

fn write_with_pack_id(ack: &Ack) -> Vec<u8> {
    let mut buf: Vec<u8> = Vec::new();
    buf.push(0);
    ack.write(&mut buf);
    buf
}

#[test]
fn test_ack_should_not_overflow_mtu() {
    let mtu: u16 = 21;

    let test_cases = [
        // 3 + 0-2(7) + 4-5(7) + 7(4) = 21, remain 8
        (vec![0, 1, 2, 4, 5, 7, 8], 21, 1),
        // 3 + 0-1(7) + 3-4(7) + 6(4) = 21, remain 7, 9
        (vec![0, 1, 3, 4, 6, 7, 9], 21, 2),
        // 3 + 0(4) + 2(4) + 4(4) + 6(4) = 19, remain 8, 10, 12
        (vec![0, 2, 4, 6, 8, 10, 12], 19, 3),
        // 3 + 0(4) + 2(4) + 5-6(7) = 18, remain 8, 9, 12
        (vec![0, 2, 5, 6, 8, 9, 12], 18, 3),
        // 3 + 0-1(7) = 10, no remain
        (vec![0, 1], 10, 0),
        // 3 + 0(4) + 2-3(7) = 14, no remain
        (vec![0, 2, 3], 14, 0),
        // 3 + 0(4) + 2(4) + 4(4) = 15, no remain
        (vec![0, 2, 4], 15, 0),
    ];
    for (seq_nums, len, remain) in test_cases {
        let total = seq_nums.len();
        let (ack, next) = Ack::extend_from(&seq_nums, 0, mtu).unwrap();
        let buf = write_with_pack_id(&ack);
        assert_eq!(buf.len(), len);
        assert_eq!(total - next, remain);
    }
}

#[test]
fn ack_packer_mixed_runs() {
    let seq_nums: Vec<u32> = vec![0, 1, 2, 4, 5, 7, 8];
    let (ack, next) = Ack::extend_from(&seq_nums, 0, 21).unwrap();
    assert_eq!(
        ack.records,
        vec![Record::Range(0, 2), Record::Range(4, 5), Record::Single(7)]
    );
    let buf = write_with_pack_id(&ack);
    // serialized body is mtu minus the pack-id byte
    assert_eq!(buf.len(), 21);
    assert_eq!(buf.len() - 1, 20);
    // the value 8 stays for the next pass
    assert_eq!(&seq_nums[next..], &[8]);
}

#[test]
fn ack_packer_all_singles() {
    let seq_nums: Vec<u32> = vec![0, 2, 4, 6, 8, 10, 12];
    let (ack, next) = Ack::extend_from(&seq_nums, 0, 19).unwrap();
    assert_eq!(
        ack.records,
        vec![
            Record::Single(0),
            Record::Single(2),
            Record::Single(4),
            Record::Single(6)
        ]
    );
    assert_eq!(&seq_nums[next..], &[8, 10, 12]);
}

#[test]
fn ack_packer_single_range_fits() {
    let seq_nums: Vec<u32> = vec![0, 1];
    let (ack, next) = Ack::extend_from(&seq_nums, 0, 10).unwrap();
    assert_eq!(ack.records, vec![Record::Range(0, 1)]);
    assert_eq!(next, seq_nums.len());
}

#[test]
fn ack_packer_empty_input() {
    let seq_nums: Vec<u32> = vec![];
    assert!(Ack::extend_from(&seq_nums, 0, 21).is_none());
}

#[test]
fn ack_packer_mtu_bound_many_inputs() {
    // for a spread of inputs and MTUs, the serialized ack with its
    // pack-id byte never exceeds the MTU it was packed for
    for mtu in [7u16, 8, 10, 14, 21, 40, 100] {
        let seq_nums: Vec<u32> = (0..200u32).map(|x| x * (x % 3 + 1) / 2 * 2 + x).collect();
        let mut sorted: Vec<u32> = seq_nums.clone();
        sorted.sort_unstable();
        sorted.dedup();
        let mut start = 0usize;
        let mut covered: Vec<u32> = Vec::new();
        while let Some((ack, next)) = Ack::extend_from(&sorted, start, mtu) {
            let buf = write_with_pack_id(&ack);
            assert!(buf.len() <= mtu as usize);
            assert!(next > start);
            for rec in &ack.records {
                match rec {
                    Record::Range(s, e) => {
                        for v in *s..=*e {
                            covered.push(v);
                        }
                    }
                    Record::Single(x) => covered.push(*x),
                }
            }
            start = next;
        }
        // losslessness: concatenating the records of successive calls
        // yields the input set exactly
        assert_eq!(covered, sorted);
    }
}

#[test]
fn ack_packer_losslessness_single_pass() {
    let sorted: Vec<u32> = vec![3, 4, 5, 9, 11, 12, 20];
    let mut start = 0usize;
    let mut covered: Vec<u32> = Vec::new();
    while let Some((ack, next)) = Ack::extend_from(&sorted, start, 12) {
        for rec in &ack.records {
            match rec {
                Record::Range(s, e) => {
                    for v in *s..=*e {
                        covered.push(v);
                    }
                }
                Record::Single(x) => covered.push(*x),
            }
        }
        start = next;
    }
    assert_eq!(covered, sorted);
}

#[test]
fn run_packing_consecutive_collapses() {
    // a consecutive run collapses into one Range when space permits
    let sorted: Vec<u32> = vec![10, 11, 12, 13, 14];
    let (ack, next) = Ack::extend_from(&sorted, 0, 100).unwrap();
    assert_eq!(ack.records, vec![Record::Range(10, 14)]);
    assert_eq!(next, 5);
    // isolated values each get their own Single record
    let gaps: Vec<u32> = vec![1, 3, 7, 100];
    let (ack2, next2) = Ack::extend_from(&gaps, 0, 100).unwrap();
    assert_eq!(
        ack2.records,
        vec![
            Record::Single(1),
            Record::Single(3),
            Record::Single(7),
            Record::Single(100)
        ]
    );
    assert_eq!(next2, 4);
}

#[test]
fn ack_roundtrip_exact() {
    let ack = Ack {
        records: vec![Record::Range(0, 2), Record::Single(9), Record::Range(11, 11)],
    };
    let mut buf: Vec<u8> = Vec::new();
    ack.write(&mut buf);
    let (back, end) = Ack::read(&buf, 0).unwrap();
    assert_eq!(end, buf.len());
    assert_eq!(back.records, ack.records);
}

#[test]
fn ack_cnt_counts_covered() {
    assert_eq!(Record::Range(2, 5).ack_cnt(), 4);
    assert_eq!(Record::Single(7).ack_cnt(), 1);
    let ack = Ack {
        records: vec![Record::Range(0, 9), Record::Single(100)],
    };
    assert_eq!(ack.total_cnt(), 11);
}

#[test]
fn ack_read_rejects_bad_record_type() {
    // count 1, then a record with an unknown tag
    let buf: Vec<u8> = vec![0, 1, 2, 0, 0, 0];
    assert!(matches!(Ack::read(&buf, 0), Err(CodecError::InvalidRecordType(2))));
}

#[test]
fn ack_read_rejects_oversized_count() {
    // one range covering 9000 sequence numbers is over the ingress bound
    let mut buf: Vec<u8> = Vec::new();
    let ack = Ack {
        records: vec![Record::Range(0, 8999)],
    };
    ack.write(&mut buf);
    assert!(matches!(Ack::read(&buf, 0), Err(CodecError::AckCountExceed)));
}

#[test]
fn ack_read_rejects_truncation() {
    let buf: Vec<u8> = vec![0];
    assert!(matches!(Ack::read(&buf, 0), Err(CodecError::InvalidPacketLength)));
    // count says one record but its bytes are missing
    let buf2: Vec<u8> = vec![0, 1, 1, 5];
    assert!(matches!(Ack::read(&buf2, 0), Err(CodecError::InvalidPacketLength)));
}

#[test]
fn ack_read_accepts_count_at_bound() {
    let ack = Ack {
        records: vec![Record::Range(0, 8191)],
    };
    let mut buf: Vec<u8> = Vec::new();
    ack.write(&mut buf);
    let (back, _) = Ack::read(&buf, 0).unwrap();
    assert_eq!(back.records, ack.records);
}
