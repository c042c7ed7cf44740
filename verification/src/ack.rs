//! ACK / NACK records and their wire codec, and the egress packer that
//! turns a sorted run of sequence numbers into the longest record list
//! that fits a given MTU. The wire body is a big-endian u16 record count
//! followed by the records; each record is a tag byte (0 for a range, 1
//! for a single value) and one or two 24-bit little-endian values.
use vstd::prelude::*;

use crate::errors::CodecError;
use crate::wire::{
    get_u16_be, get_u24_le, get_u8, lemma_u16_be_roundtrip, lemma_u24_le_roundtrip, put_u16_be,
    put_u24_le, put_u8, u16_be_bytes, u16_be_of, u24_le_bytes, U24_MAX_PLUS_ONE,
};

verus! {

/// Most sequence numbers one incoming ACK or NACK may cover; a packet
/// covering more is rejected to bound the work an ingress packet causes.
pub const MAX_ACK_COUNT: u32 = 8192;

/// One acknowledgement record: an inclusive range of sequence numbers or
/// a single one.
#[derive(Debug, Clone, Copy, PartialEq, Eq, Structural)]
pub enum Record {
    Range(u32, u32),
    Single(u32),
}

impl Record {
    /// Range bounds are ordered and every value fits in 24 bits.
    pub open spec fn wf(self) -> bool {
        match self {
            Record::Range(s, e) => s <= e && e < U24_MAX_PLUS_ONE,
            Record::Single(x) => x < U24_MAX_PLUS_ONE,
        }
    }

    /// How many sequence numbers this record covers.
    pub open spec fn spec_ack_cnt(self) -> int {
        match self {
            Record::Range(s, e) => e - s + 1,
            Record::Single(_) => 1,
        }
    }

    /// Whether `v` is one of the sequence numbers this record covers.
    pub open spec fn covers(self, v: u32) -> bool {
        match self {
            Record::Range(s, e) => s <= v <= e,
            Record::Single(x) => x == v,
        }
    }

    /// The sequence numbers this record covers, in increasing order.
    pub open spec fn values(self) -> Seq<u32> {
        match self {
            Record::Range(s, e) => Seq::new((e - s + 1) as nat, |k: int| (s + k) as u32),
            Record::Single(x) => seq![x],
        }
    }

    /// On-wire length: tag byte plus one or two 24-bit values.
    pub open spec fn spec_size(self) -> int {
        match self {
            Record::Range(_, _) => 7,
            Record::Single(_) => 4,
        }
    }

    /// How many sequence numbers this record covers.
    pub fn ack_cnt(&self) -> (n: u32)
        requires
            self.wf(),
        ensures
            n as int == self.spec_ack_cnt(),
    {
        match self {
            Record::Range(s, e) => *e - *s + 1,
            Record::Single(_) => 1,
        }
    }
}

/// Wire form of one record.
pub open spec fn record_bytes(r: Record) -> Seq<u8> {
    match r {
        Record::Range(s, e) => seq![0u8] + u24_le_bytes(s as int) + u24_le_bytes(e as int),
        Record::Single(x) => seq![1u8] + u24_le_bytes(x as int),
    }
}

/// Wire form of a record list, one record after the other.
pub open spec fn records_bytes(rs: Seq<Record>) -> Seq<u8>
    decreases rs.len(),
{
    if rs.len() == 0 {
        seq![]
    } else {
        record_bytes(rs.first()) + records_bytes(rs.drop_first())
    }
}

/// Total on-wire length of a record list.
pub open spec fn recs_size(rs: Seq<Record>) -> int
    decreases rs.len(),
{
    if rs.len() == 0 {
        0
    } else {
        recs_size(rs.drop_last()) + rs.last().spec_size()
    }
}

/// Total count of sequence numbers covered by a record list.
pub open spec fn recs_cnt(rs: Seq<Record>) -> int
    decreases rs.len(),
{
    if rs.len() == 0 {
        0
    } else {
        rs.first().spec_ack_cnt() + recs_cnt(rs.drop_first())
    }
}

/// The sequence numbers covered by a record list, record by record.
pub open spec fn recs_values(rs: Seq<Record>) -> Seq<u32>
    decreases rs.len(),
{
    if rs.len() == 0 {
        seq![]
    } else {
        recs_values(rs.drop_last()) + rs.last().values()
    }
}

pub proof fn lemma_recs_size_push(rs: Seq<Record>, r: Record)
    ensures
        recs_size(rs.push(r)) == recs_size(rs) + r.spec_size(),
{
    assert(rs.push(r).drop_last() =~= rs);
}

pub proof fn lemma_recs_values_push(rs: Seq<Record>, r: Record)
    ensures
        recs_values(rs.push(r)) == recs_values(rs) + r.values(),
{
    assert(rs.push(r).drop_last() =~= rs);
}

/// A record list covers exactly as many sequence numbers as its value
/// sequence is long.
pub proof fn lemma_recs_cnt_is_values_len(rs: Seq<Record>)
    requires
        forall|k: int| 0 <= k < rs.len() ==> (#[trigger] rs[k]).wf(),
    ensures
        recs_cnt(rs) == recs_values(rs).len(),
    decreases rs.len(),
{
    if rs.len() > 0 {
        assert(forall|k: int| 0 <= k < rs.drop_last().len() ==> rs.drop_last()[k] == rs[k]);
        lemma_recs_cnt_is_values_len(rs.drop_last());
        lemma_recs_cnt_push(rs.drop_last(), rs.last());
        lemma_recs_values_push(rs.drop_last(), rs.last());
        assert(rs.drop_last().push(rs.last()) =~= rs);
        assert(rs[rs.len() - 1].wf());
        assert(rs.last().values().len() == rs.last().spec_ack_cnt());
    }
}

/// Every record takes at least four wire bytes.
pub proof fn lemma_recs_size_lower_bound(rs: Seq<Record>)
    ensures
        recs_size(rs) >= 4 * rs.len(),
    decreases rs.len(),
{
    if rs.len() > 0 {
        lemma_recs_size_lower_bound(rs.drop_last());
    }
}

/// What reading one record at position `i` of `b` yields. A range whose
/// bounds are out of order covers no meaningful count and is rejected the
/// way an oversized one is.
pub open spec fn parse_record(b: Seq<u8>, i: int) -> Result<(Record, int), CodecError> {
    if i + 1 > b.len() {
        Err(CodecError::InvalidPacketLength)
    } else if b[i] == 0 {
        if i + 7 > b.len() {
            Err(CodecError::InvalidPacketLength)
        } else {
            let s = crate::packet::u24_at(b, i + 1);
            let e = crate::packet::u24_at(b, i + 4);
            if s > e {
                Err(CodecError::AckCountExceed)
            } else {
                Ok((Record::Range(s, e), i + 7))
            }
        }
    } else if b[i] == 1 {
        if i + 4 > b.len() {
            Err(CodecError::InvalidPacketLength)
        } else {
            Ok((Record::Single(crate::packet::u24_at(b, i + 1)), i + 4))
        }
    } else {
        Err(CodecError::InvalidRecordType(b[i]))
    }
}

/// What reading `n` records starting at `i` yields, rejecting the packet
/// as soon as the running covered count passes the ingress bound.
pub open spec fn parse_records(b: Seq<u8>, i: int, n: int, acc: int) -> Result<
    (Seq<Record>, int),
    CodecError,
>
    decreases n,
{
    if n <= 0 {
        Ok((seq![], i))
    } else {
        match parse_record(b, i) {
            Err(e) => Err(e),
            Ok((rec, j)) => if acc + rec.spec_ack_cnt() > MAX_ACK_COUNT {
                Err(CodecError::AckCountExceed)
            } else {
                match parse_records(b, j, n - 1, acc + rec.spec_ack_cnt()) {
                    Err(e) => Err(e),
                    Ok((rest, end)) => Ok((seq![rec] + rest, end)),
                }
            },
        }
    }
}

/// What decoding an ACK/NACK payload starting at `i` yields: the record
/// count, then that many records.
pub open spec fn parse_ack(b: Seq<u8>, i: int) -> Result<(Seq<Record>, int), CodecError> {
    if i + 2 > b.len() {
        Err(CodecError::InvalidPacketLength)
    } else {
        parse_records(b, i + 2, u16_be_of(b[i], b[i + 1]), 0)
    }
}

impl Record {
    /// Read one record starting at `pos`.
    pub fn read(buf: &Vec<u8>, pos: usize) -> (r: Result<(Record, usize), CodecError>)
        requires
            pos <= buf@.len(),
        ensures
            match r {
                Ok((rec, end)) => parse_record(buf@, pos as int) == Ok::<
                    (Record, int),
                    CodecError,
                >((rec, end as int)) && rec.wf() && pos < end <= buf@.len(),
                Err(e) => parse_record(buf@, pos as int) == Err::<(Record, int), CodecError>(e),
            },
    {
        let n = buf.len();
        if n - pos < 1 {
            return Err(CodecError::InvalidPacketLength);
        }
        let tag = get_u8(buf, pos);
        if tag == 0 {
            if n - pos < 7 {
                return Err(CodecError::InvalidPacketLength);
            }
            let s = get_u24_le(buf, pos + 1);
            let e = get_u24_le(buf, pos + 4);
            if s > e {
                return Err(CodecError::AckCountExceed);
            }
            Ok((Record::Range(s, e), pos + 7))
        } else if tag == 1 {
            if n - pos < 4 {
                return Err(CodecError::InvalidPacketLength);
            }
            Ok((Record::Single(get_u24_le(buf, pos + 1)), pos + 4))
        } else {
            Err(CodecError::InvalidRecordType(tag))
        }
    }

    /// Append the wire form of this record.
    pub fn write(&self, buf: &mut Vec<u8>)
        requires
            self.wf(),
        ensures
            final(buf)@ == old(buf)@ + record_bytes(*self),
    {
        match self {
            Record::Range(s, e) => {
                put_u8(buf, 0);
                put_u24_le(buf, *s);
                put_u24_le(buf, *e);
                proof {
                    assert(buf@ =~= old(buf)@ + record_bytes(*self));
                }
            },
            Record::Single(x) => {
                put_u8(buf, 1);
                put_u24_le(buf, *x);
                proof {
                    assert(buf@ =~= old(buf)@ + record_bytes(*self));
                }
            },
        }
    }
}

/// A selective acknowledgement (or, used by the other packet kind, a
/// negative acknowledgement): a list of records.
#[derive(Debug)]
pub struct Ack {
    pub records: Vec<Record>,
}

impl View for Ack {
    type V = Seq<Record>;

    open spec fn view(&self) -> Seq<Record> {
        self.records@
    }
}

/// Wire form of an ACK/NACK payload.
pub open spec fn ack_bytes(rs: Seq<Record>) -> Seq<u8> {
    u16_be_bytes(rs.len() as int) + records_bytes(rs)
}

impl Ack {
    /// Every record is well formed and the count fits the 16-bit field.
    pub open spec fn wf(self) -> bool {
        &&& forall|k: int| 0 <= k < self@.len() ==> (#[trigger] self@[k]).wf()
        &&& self@.len() < 0x10000
    }

    /// Total count of sequence numbers covered.
    pub open spec fn spec_total_cnt(self) -> int {
        recs_cnt(self@)
    }

    /// Read an ACK/NACK payload starting at `pos`; returns the packet and
    /// the position just past its records.
    pub fn read(buf: &Vec<u8>, pos: usize) -> (r: Result<(Ack, usize), CodecError>)
        requires
            pos <= buf@.len(),
        ensures
            match r {
                Ok((a, end)) => parse_ack(buf@, pos as int) == Ok::<(Seq<Record>, int), CodecError>(
                    (a@, end as int),
                ) && a.wf() && pos <= end <= buf@.len(),
                Err(e) => parse_ack(buf@, pos as int) == Err::<(Seq<Record>, int), CodecError>(e),
            },
    {
        let n = buf.len();
        if n - pos < 2 {
            return Err(CodecError::InvalidPacketLength);
        }
        let record_cnt = get_u16_be(buf, pos);
        let mut records: Vec<Record> = Vec::new();
        let mut cur: usize = pos + 2;
        let mut k: u16 = 0;
        let mut cnt_acc: u32 = 0;
        while k < record_cnt
            invariant
            pos + 2 <= cur <= buf@.len(),
            record_cnt as int == u16_be_of(buf@[pos as int], buf@[pos as int + 1]),
            k <= record_cnt,
            cnt_acc <= MAX_ACK_COUNT,
            records@.len() == k as int,
            forall|q: int| 0 <= q < records@.len() ==> (#[trigger] records@[q]).wf(),
            match parse_records(buf@, cur as int, record_cnt - k, cnt_acc as int) {
                Ok((rest, end)) => parse_records(buf@, pos + 2, record_cnt as int, 0) == Ok::<
                    (Seq<Record>, int),
                    CodecError,
                >((records@ + rest, end)),
                Err(e) => parse_records(buf@, pos + 2, record_cnt as int, 0) == Err::<
                    (Seq<Record>, int),
                    CodecError,
                >(e),
            },
            decreases record_cnt - k,
        {
            let ghost records_before = records@;
            match Record::read(buf, cur) {
                Ok((rec, end)) => {
                    let cnt = rec.ack_cnt();
                    if cnt > MAX_ACK_COUNT - cnt_acc {
                        proof {
                            assert(parse_records(buf@, cur as int, record_cnt - k, cnt_acc as int)
                                == Err::<(Seq<Record>, int), CodecError>(CodecError::AckCountExceed));
                        }
                        return Err(CodecError::AckCountExceed);
                    }
                    proof {
                        match parse_records(buf@, end as int, record_cnt - k - 1, cnt_acc
                            + cnt as int) {
                            Ok((rest2, fin2)) => {
                                assert(parse_records(buf@, cur as int, record_cnt - k, cnt_acc
                                    as int) == Ok::<(Seq<Record>, int), CodecError>(
                                    (seq![rec] + rest2, fin2),
                                ));
                            },
                            Err(e) => {
                                assert(parse_records(buf@, cur as int, record_cnt - k, cnt_acc
                                    as int) == Err::<(Seq<Record>, int), CodecError>(e));
                            },
                        }
                    }
                    records.push(rec);
                    proof {
                        match parse_records(buf@, end as int, record_cnt - k - 1, cnt_acc
                            + cnt as int) {
                            Ok((rest2, fin2)) => {
                                assert(records_before + (seq![rec] + rest2) =~= records@ + rest2);
                            },
                            Err(_) => {},
                        }
                    }
                    cnt_acc = cnt_acc + cnt;
                    cur = end;
                    k = k + 1;
                },
                Err(e) => {
                    proof {
                        assert(parse_records(buf@, cur as int, record_cnt - k, cnt_acc as int)
                            == Err::<(Seq<Record>, int), CodecError>(e));
                        assert(parse_records(buf@, pos + 2, record_cnt as int, 0)
                            == Err::<(Seq<Record>, int), CodecError>(e));
                        assert(parse_ack(buf@, pos as int)
                            == Err::<(Seq<Record>, int), CodecError>(e));
                    }
                    return Err(e);
                },
            }
        }
        let a = Ack { records };
        proof {
            assert(parse_records(buf@, cur as int, 0, cnt_acc as int) == Ok::<
                (Seq<Record>, int),
                CodecError,
            >((Seq::<Record>::empty(), cur as int)));
            assert(a@ + Seq::<Record>::empty() =~= a@);
        }
        Ok((a, cur))
    }

    /// Append the wire form of this packet: record count, then records.
    pub fn write(&self, buf: &mut Vec<u8>)
        requires
            self.wf(),
        ensures
            final(buf)@ == old(buf)@ + ack_bytes(self@),
    {
        put_u16_be(buf, self.records.len() as u16);
        let ghost mid = buf@;
        let mut k: usize = 0;
        while k < self.records.len()
            invariant
                k <= self.records@.len(),
                self.wf(),
                buf@ == mid + records_bytes(self@.subrange(0, k as int)),
            decreases self.records@.len() - k,
        {
            let ghost before = buf@;
            let rec = self.records[k];
            rec.write(buf);
            proof {
                lemma_records_bytes_push(self@.subrange(0, k as int), self@[k as int]);
                assert(self@.subrange(0, k as int).push(self@[k as int]) =~= self@.subrange(
                    0,
                    k as int + 1,
                ));
                assert(buf@ =~= mid + records_bytes(self@.subrange(0, k as int + 1)));
            }
            k = k + 1;
        }
        proof {
            assert(self@.subrange(0, self@.len() as int) =~= self@);
            assert(buf@ =~= old(buf)@ + ack_bytes(self@));
        }
    }

    /// Whether some record of this packet covers sequence number `v`.
    pub fn covers(&self, v: u32) -> (b: bool)
        ensures
            b == recs_cover(self@, v),
    {
        let mut k: usize = 0;
        while k < self.records.len()
            invariant
                k <= self.records@.len(),
                forall|q: int| 0 <= q < k ==> !(#[trigger] self.records@[q]).covers(v),
            decreases self.records@.len() - k,
        {
            let hit = match self.records[k] {
                Record::Range(s, e) => s <= v && v <= e,
                Record::Single(x) => x == v,
            };
            if hit {
                proof {
                    assert(self.records@[k as int].covers(v));
                }
                return true;
            }
            k = k + 1;
        }
        false
    }

    /// Total count of sequence numbers covered by this packet.
    pub fn total_cnt(&self) -> (n: u64)
        requires
            self.wf(),
        ensures
            n as int == self.spec_total_cnt(),
    {
        let mut n: u64 = 0;
        let mut k: usize = 0;
        while k < self.records.len()
            invariant
                k <= self.records@.len(),
                self.wf(),
                n as int == recs_cnt(self@.subrange(0, k as int)),
                n <= k * U24_MAX_PLUS_ONE as u64,
            decreases self.records@.len() - k,
        {
            let rec = self.records[k];
            let c = rec.ack_cnt();
            proof {
                lemma_recs_cnt_push(self@.subrange(0, k as int), self@[k as int]);
                assert(self@.subrange(0, k as int).push(self@[k as int]) =~= self@.subrange(
                    0,
                    k as int + 1,
                ));
                assert((k + 1) * U24_MAX_PLUS_ONE as u64 == k * U24_MAX_PLUS_ONE as u64
                    + U24_MAX_PLUS_ONE as u64) by (nonlinear_arith);
                assert(k as u64 * U24_MAX_PLUS_ONE as u64 <= 0x10000u64 * 0x1000000u64)
                    by (nonlinear_arith)
                    requires k <= 0x10000;
            }
            n = n + c as u64;
            k = k + 1;
        }
        proof {
            assert(self@.subrange(0, self@.len() as int) =~= self@);
        }
        n
    }
}

pub proof fn lemma_records_bytes_push(rs: Seq<Record>, r: Record)
    ensures
        records_bytes(rs.push(r)) == records_bytes(rs) + record_bytes(r),
    decreases rs.len(),
{
    reveal_with_fuel(records_bytes, 2);
    if rs.len() == 0 {
        assert(rs.push(r).first() == r);
        assert(rs.push(r).drop_first() =~= Seq::<Record>::empty());
        assert(records_bytes(rs.push(r)) =~= records_bytes(rs) + record_bytes(r));
    } else {
        assert(rs.push(r).first() == rs.first());
        assert(rs.push(r).drop_first() =~= rs.drop_first().push(r));
        lemma_records_bytes_push(rs.drop_first(), r);
        assert(records_bytes(rs.push(r)) == record_bytes(rs.first()) + (records_bytes(
            rs.drop_first(),
        ) + record_bytes(r)));
        assert(record_bytes(rs.first()) + (records_bytes(rs.drop_first()) + record_bytes(r))
            =~= (record_bytes(rs.first()) + records_bytes(rs.drop_first())) + record_bytes(r));
    }
}

pub proof fn lemma_recs_cnt_push(rs: Seq<Record>, r: Record)
    ensures
        recs_cnt(rs.push(r)) == recs_cnt(rs) + r.spec_ack_cnt(),
    decreases rs.len(),
{
    reveal_with_fuel(recs_cnt, 2);
    if rs.len() == 0 {
        assert(rs.push(r).first() == r);
        assert(rs.push(r).drop_first() =~= Seq::<Record>::empty());
    } else {
        assert(rs.push(r).first() == rs.first());
        assert(rs.push(r).drop_first() =~= rs.drop_first().push(r));
        lemma_recs_cnt_push(rs.drop_first(), r);
    }
}

/// Well-formed records each cover at least one sequence number.
pub proof fn lemma_recs_cnt_nonneg(rs: Seq<Record>)
    requires
        forall|k: int| 0 <= k < rs.len() ==> (#[trigger] rs[k]).wf(),
    ensures
        recs_cnt(rs) >= rs.len(),
    decreases rs.len(),
{
    if rs.len() > 0 {
        assert(forall|k: int| 0 <= k < rs.drop_first().len() ==> rs.drop_first()[k] == rs[k + 1]);
        lemma_recs_cnt_nonneg(rs.drop_first());
        assert(rs.first().wf());
    }
}

/// Decoding a buffer that holds exactly the wire forms of `n` well-formed
/// records yields those records, provided the running covered count stays
/// within the ingress bound.
pub proof fn lemma_parse_records_exact(b: Seq<u8>, i: int, rs: Seq<Record>, acc: int)
    requires
        0 <= i,
        forall|k: int| 0 <= k < rs.len() ==> (#[trigger] rs[k]).wf(),
        0 <= acc,
        acc + recs_cnt(rs) <= MAX_ACK_COUNT,
        i + records_bytes(rs).len() <= b.len(),
        b.subrange(i, i + records_bytes(rs).len()) == records_bytes(rs),
    ensures
        parse_records(b, i, rs.len() as int, acc) == Ok::<(Seq<Record>, int), CodecError>(
            (rs, i + records_bytes(rs).len()),
        ),
    decreases rs.len(),
{
    if rs.len() == 0 {
        assert(rs =~= Seq::<Record>::empty());
    } else {
        let r0 = rs.first();
        let rb = record_bytes(r0);
        let rbs = records_bytes(rs);
        assert(rbs == rb + records_bytes(rs.drop_first()));
        assert(forall|k: int| 0 <= k < rbs.len() ==> #[trigger] rbs[k] == b[i + k]) by {
            assert(forall|k: int|
                0 <= k < rbs.len() ==> rbs[k] == #[trigger] b.subrange(i, i + rbs.len())[k]);
        }
        match r0 {
            Record::Single(x) => {
                lemma_u24_le_roundtrip(x as int);
                assert(rbs[0] == 1u8);
                assert(rbs[1] == u24_le_bytes(x as int)[0]);
                assert(rbs[2] == u24_le_bytes(x as int)[1]);
                assert(rbs[3] == u24_le_bytes(x as int)[2]);
                assert(crate::packet::u24_at(b, i + 1) == x);
                assert(parse_record(b, i) == Ok::<(Record, int), CodecError>((r0, i + 4)));
            },
            Record::Range(s, e) => {
                lemma_u24_le_roundtrip(s as int);
                lemma_u24_le_roundtrip(e as int);
                assert(rbs[0] == 0u8);
                assert(rbs[1] == u24_le_bytes(s as int)[0]);
                assert(rbs[2] == u24_le_bytes(s as int)[1]);
                assert(rbs[3] == u24_le_bytes(s as int)[2]);
                assert(rbs[4] == u24_le_bytes(e as int)[0]);
                assert(rbs[5] == u24_le_bytes(e as int)[1]);
                assert(rbs[6] == u24_le_bytes(e as int)[2]);
                assert(crate::packet::u24_at(b, i + 1) == s);
                assert(crate::packet::u24_at(b, i + 4) == e);
                assert(parse_record(b, i) == Ok::<(Record, int), CodecError>((r0, i + 7)));
            },
        }
        let j = i + rb.len();
        assert(forall|k: int| 0 <= k < rs.drop_first().len() ==> rs.drop_first()[k] == rs[k + 1]);
        lemma_recs_cnt_nonneg(rs.drop_first());
        assert(acc + r0.spec_ack_cnt() <= MAX_ACK_COUNT);
        assert(b.subrange(j, j + records_bytes(rs.drop_first()).len()) =~= records_bytes(
            rs.drop_first(),
        )) by {
            assert(forall|k: int|
                0 <= k < records_bytes(rs.drop_first()).len() ==> #[trigger] b.subrange(
                    j,
                    j + records_bytes(rs.drop_first()).len(),
                )[k] == rbs[rb.len() + k]);
        }
        lemma_parse_records_exact(b, j, rs.drop_first(), acc + r0.spec_ack_cnt());
        assert(seq![r0] + rs.drop_first() =~= rs);
    }
}

/// Round trip: decoding the wire form of a well-formed ACK/NACK whose
/// covered count is within the ingress bound yields the same records.
pub proof fn lemma_ack_roundtrip(rs: Seq<Record>)
    requires
        forall|k: int| 0 <= k < rs.len() ==> (#[trigger] rs[k]).wf(),
        rs.len() < 0x10000,
        recs_cnt(rs) <= MAX_ACK_COUNT,
    ensures
        parse_ack(ack_bytes(rs), 0) == Ok::<(Seq<Record>, int), CodecError>(
            (rs, ack_bytes(rs).len() as int),
        ),
{
    let b = ack_bytes(rs);
    lemma_u16_be_roundtrip(rs.len() as int);
    assert(b[0] == u16_be_bytes(rs.len() as int)[0]);
    assert(b[1] == u16_be_bytes(rs.len() as int)[1]);
    assert(u16_be_of(b[0], b[1]) == rs.len());
    lemma_records_bytes_len(rs);
    assert(b.subrange(2, b.len() as int) =~= records_bytes(rs));
    lemma_parse_records_exact(b, 2, rs, 0);
}

/// Whether some record of the list covers sequence number `v`.
pub open spec fn recs_cover(rs: Seq<Record>, v: u32) -> bool {
    exists|k: int| 0 <= k < rs.len() && (#[trigger] rs[k]).covers(v)
}

/// The values of `s` are strictly increasing.
pub open spec fn sorted_strict(s: Seq<u32>) -> bool {
    forall|a: int, b: int| 0 <= a < b < s.len() ==> s[a] < s[b]
}

/// Every value of `s` fits in 24 bits.
pub open spec fn all_u24(s: Seq<u32>) -> bool {
    forall|k: int| 0 <= k < s.len() ==> s[k] < U24_MAX_PLUS_ONE
}

/// First sequence number a record covers.
pub open spec fn rec_start(r: Record) -> u32 {
    match r {
        Record::Range(s, _) => s,
        Record::Single(x) => x,
    }
}

/// Last sequence number a record covers.
pub open spec fn rec_end(r: Record) -> u32 {
    match r {
        Record::Range(_, e) => e,
        Record::Single(x) => x,
    }
}

/// The record covering the run of `r` extended by one more value.
pub open spec fn extend_record(r: Record, x: u32) -> Record {
    Record::Range(rec_start(r), x)
}

/// Run-length encoding of a strictly increasing sequence: every maximal
/// run of consecutive values becomes one Range record, every lone value
/// one Single record.
pub open spec fn rle(s: Seq<u32>) -> Seq<Record>
    decreases s.len(),
{
    if s.len() == 0 {
        seq![]
    } else if s.len() == 1 {
        seq![Record::Single(s[0])]
    } else {
        let prefix = s.drop_last();
        let x = s.last();
        let r = rle(prefix);
        if x == prefix.last() + 1 {
            r.drop_last().push(extend_record(r.last(), x))
        } else {
            r.push(Record::Single(x))
        }
    }
}

/// Shape of the run-length encoding of a non-empty strictly increasing
/// sequence: at least one well-formed record, the last of which ends at
/// the last input value, and the covered values are exactly the input.
/// The last clause is the losslessness law of the ack packer.
#[verifier::rlimit(50)]
pub proof fn lemma_rle_shape(s: Seq<u32>)
    requires
        sorted_strict(s),
        all_u24(s),
        s.len() > 0,
    ensures
        rle(s).len() >= 1,
        forall|k: int| 0 <= k < rle(s).len() ==> (#[trigger] rle(s)[k]).wf(),
        rec_end(rle(s).last()) == s.last(),
        rec_start(rle(s).last()) <= rec_end(rle(s).last()),
        recs_values(rle(s)) == s,
    decreases s.len(),
{
    if s.len() == 1 {
        let r = rle(s);
        assert(r == seq![Record::Single(s[0])]);
        assert(r.drop_last() =~= Seq::<Record>::empty());
        assert(recs_values(r) == recs_values(r.drop_last()) + r.last().values());
        assert(r.last() == Record::Single(s[0]));
        assert(Record::Single(s[0]).values() == seq![s[0]]);
        assert(recs_values(r) =~= s);
    } else {
        let prefix = s.drop_last();
        let x = s.last();
        assert(sorted_strict(prefix) && all_u24(prefix)) by {
            assert(forall|k: int| 0 <= k < prefix.len() ==> prefix[k] == s[k]);
        }
        lemma_rle_shape(prefix);
        let r = rle(prefix);
        assert(recs_values(r) == recs_values(r.drop_last()) + r.last().values());
        assert(prefix.last() == s[s.len() - 2]);
        assert(prefix.last() < x);
        if x == prefix.last() + 1 {
            let lastr = r.last();
            let ext = extend_record(lastr, x);
            assert(lastr.wf());
            assert(rec_end(lastr) == prefix.last());
            assert(ext.wf());
            assert(ext.values() =~= lastr.values().push(x)) by {
                assert(rec_start(ext) == rec_start(lastr) && rec_end(ext) == x);
                match lastr {
                    Record::Range(a, e) => {
                        assert(lastr.values().len() == e - a + 1);
                    },
                    Record::Single(a) => {
                        assert(lastr.values() =~= seq![a]);
                    },
                }
            }
            assert(rle(s) == r.drop_last().push(ext));
            lemma_recs_values_push(r.drop_last(), ext);
            assert(recs_values(rle(s)) == recs_values(r.drop_last()) + lastr.values().push(x));
            assert(recs_values(r.drop_last()) + lastr.values().push(x) =~= (recs_values(
                r.drop_last(),
            ) + lastr.values()).push(x));
            assert(recs_values(rle(s)) =~= s) by {
                assert(prefix.push(x) =~= s);
            }
            assert(r.drop_last().push(ext).last() == ext);
            assert(forall|k: int| 0 <= k < rle(s).len() ==> (#[trigger] rle(s)[k]).wf()) by {
                assert(forall|k: int|
                    0 <= k < r.drop_last().len() ==> r.drop_last()[k] == r[k]);
            }
        } else {
            assert(rle(s) == r.push(Record::Single(x)));
            lemma_recs_values_push(r, Record::Single(x));
            assert(recs_values(rle(s)) =~= s) by {
                assert(Record::Single(x).values() =~= seq![x]);
                assert(prefix.push(x) =~= s);
            }
        }
    }
}

/// Total wire length of a record list equals its summed record sizes.
pub proof fn lemma_records_bytes_len(rs: Seq<Record>)
    ensures
        records_bytes(rs).len() == recs_size(rs),
    decreases rs.len(),
{
    if rs.len() > 0 {
        lemma_records_bytes_len(rs.drop_last());
        lemma_records_bytes_push(rs.drop_last(), rs.last());
        assert(rs.drop_last().push(rs.last()) =~= rs);
    }
}

/// Ack-packer MTU law: a record list packed for `mtu` serializes, with
/// its count field and the leading pack-id byte, to at most `mtu` bytes.
pub proof fn lemma_ack_packer_mtu(rs: Seq<Record>, mtu: int)
    requires
        3 + recs_size(rs) <= mtu,
    ensures
        1 + ack_bytes(rs).len() <= mtu,
{
    lemma_records_bytes_len(rs);
}

/// Ack-packer losslessness law: the sequence numbers covered by two
/// adjacent packed slices, concatenated, are exactly the input slice that
/// the two calls together consumed.
pub proof fn lemma_ack_packer_lossless(s: Seq<u32>, i: int, j: int, k: int)
    requires
        sorted_strict(s),
        all_u24(s),
        0 <= i <= j <= k <= s.len(),
    ensures
        recs_values(rle(s.subrange(i, j))) + recs_values(rle(s.subrange(j, k))) == s.subrange(
            i,
            k,
        ),
{
    if i < j {
        assert(sorted_strict(s.subrange(i, j)) && all_u24(s.subrange(i, j)));
        lemma_rle_shape(s.subrange(i, j));
    }
    if j < k {
        assert(sorted_strict(s.subrange(j, k)) && all_u24(s.subrange(j, k)));
        lemma_rle_shape(s.subrange(j, k));
    }
    assert(s.subrange(i, j) + s.subrange(j, k) =~= s.subrange(i, k));
    assert(recs_values(rle(s.subrange(i, j))) + recs_values(rle(s.subrange(j, k))) =~= s.subrange(
        i,
        k,
    ));
}

/// Run-packing law, range side: a run of consecutive values collapses
/// into a single Range record.
pub proof fn lemma_rle_consecutive_run(s: Seq<u32>)
    requires
        all_u24(s),
        s.len() >= 2,
        forall|k: int| 0 <= k < s.len() - 1 ==> #[trigger] s[k + 1] == s[k] + 1,
    ensures
        rle(s) == seq![Record::Range(s[0], s.last())],
    decreases s.len(),
{
    let prefix = s.drop_last();
    let x = s.last();
    assert(s[s.len() - 2 + 1] == s[s.len() - 2] + 1);
    assert(x == prefix.last() + 1);
    if s.len() == 2 {
        assert(rle(prefix) == seq![Record::Single(s[0])]);
        assert(rle(s) =~= seq![Record::Range(s[0], s.last())]);
    } else {
        assert(forall|k: int| 0 <= k < prefix.len() - 1 ==> #[trigger] prefix[k + 1] == prefix[k] + 1) by {
            assert(forall|k: int| 0 <= k < prefix.len() ==> prefix[k] == s[k]);
        }
        lemma_rle_consecutive_run(prefix);
        assert(rle(prefix).drop_last() =~= Seq::<Record>::empty());
        assert(rle(s) =~= seq![Record::Range(s[0], s.last())]);
    }
}

/// Run-packing law, single side: values with no consecutive neighbour
/// each become their own Single record.
pub proof fn lemma_rle_isolated(s: Seq<u32>)
    requires
        all_u24(s),
        forall|k: int| 0 <= k < s.len() - 1 ==> #[trigger] s[k + 1] > s[k] + 1,
    ensures
        rle(s).len() == s.len(),
        forall|k: int| 0 <= k < s.len() ==> rle(s)[k] == Record::Single(s[k]),
    decreases s.len(),
{
    if s.len() >= 2 {
        let prefix = s.drop_last();
        let x = s.last();
        assert(s[s.len() - 2 + 1] > s[s.len() - 2] + 1);
        assert(x != prefix.last() + 1);
        assert(forall|k: int| 0 <= k < prefix.len() - 1 ==> #[trigger] prefix[k + 1] > prefix[k] + 1) by {
            assert(forall|k: int| 0 <= k < prefix.len() ==> prefix[k] == s[k]);
        }
        lemma_rle_isolated(prefix);
        assert(rle(s) == rle(prefix).push(Record::Single(x)));
    }
}

impl Ack {
    /// Pack the longest prefix of `sorted_seq_nums[start..]` whose record
    /// list, together with the pack-id byte and the record-count field,
    /// fits in `mtu` bytes; consecutive values collapse into ranges.
    /// Returns the packet and the index of the first unconsumed value, or
    /// nothing when the slice is empty. At least one value is always
    /// consumed, and no value that still fits is left behind.
    pub fn extend_from(sorted_seq_nums: &Vec<u32>, start: usize, mtu: u16) -> (r: Option<
        (Ack, usize),
    >)
        requires
            mtu >= 7,
            start <= sorted_seq_nums@.len(),
            sorted_strict(sorted_seq_nums@),
            all_u24(sorted_seq_nums@),
        ensures
            match r {
                None => start == sorted_seq_nums@.len(),
                Some((ack, next)) => {
                    &&& start < next <= sorted_seq_nums@.len()
                    &&& ack@ == rle(sorted_seq_nums@.subrange(start as int, next as int))
                    &&& ack.wf()
                    &&& 3 + recs_size(ack@) <= mtu
                    &&& (next == sorted_seq_nums@.len() || 3 + recs_size(
                        rle(sorted_seq_nums@.subrange(start as int, next as int + 1)),
                    ) > mtu)
                },
            },
    {
        let len = sorted_seq_nums.len();
        if start == len {
            return None;
        }
        let mut records: Vec<Record> = Vec::new();
        let mut first: u32 = sorted_seq_nums[start];
        let mut last: u32 = first;
        let mut budget: u16 = mtu - 7;
        let mut i: usize = start + 1;
        let mut maximal: bool = false;
        proof {
            assert(sorted_seq_nums@.subrange(start as int, start + 1) =~= seq![
                sorted_seq_nums@[start as int],
            ]);
            lemma_recs_size_push(Seq::<Record>::empty(), Record::Single(first));
            assert(records@ =~= Seq::<Record>::empty());
            assert(records@.push(Record::Single(first)) =~= seq![Record::Single(first)]);
            assert(recs_size(records@.push(Record::Single(first))) == 4);
        }
        while i < len && !maximal
            invariant
                start < i <= len,
                len == sorted_seq_nums@.len(),
                sorted_strict(sorted_seq_nums@),
                all_u24(sorted_seq_nums@),
                mtu >= 7,
                last == sorted_seq_nums@[i - 1],
                first <= last < U24_MAX_PLUS_ONE,
                forall|q: int| 0 <= q < records@.len() ==> (#[trigger] records@[q]).wf(),
                rle(sorted_seq_nums@.subrange(start as int, i as int)) == records@.push(
                    if first < last {
                        Record::Range(first, last)
                    } else {
                        Record::Single(first)
                    },
                ),
                budget as int == mtu - 3 - recs_size(
                    records@.push(
                        if first < last {
                            Record::Range(first, last)
                        } else {
                            Record::Single(first)
                        },
                    ),
                ),
                maximal ==> i < len && 3 + recs_size(
                    rle(sorted_seq_nums@.subrange(start as int, i as int + 1)),
                ) > mtu,
            decreases len - i, (if maximal { 0int } else { 1int }),
        {
            let ghost cur = sorted_seq_nums@.subrange(start as int, i as int);
            let ghost pend: Record = if first < last {
                Record::Range(first, last)
            } else {
                Record::Single(first)
            };
            let x = sorted_seq_nums[i];
            proof {
                assert(sorted_seq_nums@.subrange(start as int, i as int + 1) =~= cur.push(x));
                let snext = cur.push(x);
                assert(snext.drop_last() =~= cur);
                assert(cur.last() == last);
                assert(rle(snext) == (if x == last + 1 {
                    rle(cur).drop_last().push(extend_record(rle(cur).last(), x))
                } else {
                    rle(cur).push(Record::Single(x))
                }));
                assert(records@.push(pend).drop_last() =~= records@);
                assert(rle(cur).last() == pend);
                assert(rec_start(pend) == first);
                lemma_recs_size_push(records@, pend);
                lemma_recs_size_push(records@, extend_record(pend, x));
            }
            if x == last + 1 {
                if first == last {
                    if budget < 3 {
                        maximal = true;
                        proof {
                            assert(rle(cur.push(x)) == records@.push(Record::Range(first, x)));
                            assert(recs_size(rle(cur.push(x))) == recs_size(records@) + 7);
                            assert(recs_size(records@.push(pend)) == recs_size(records@) + 4);
                        }
                    } else {
                        budget = budget - 3;
                        proof {
                            assert(rle(cur.push(x)) == records@.push(Record::Range(first, x)));
                            assert(recs_size(rle(cur.push(x))) == recs_size(records@) + 7);
                            assert(recs_size(records@.push(pend)) == recs_size(records@) + 4);
                        }
                        last = x;
                        i = i + 1;
                    }
                } else {
                    proof {
                        assert(rle(cur.push(x)) == records@.push(Record::Range(first, x)));
                        assert(recs_size(rle(cur.push(x))) == recs_size(records@) + 7);
                        assert(recs_size(records@.push(pend)) == recs_size(records@) + 7);
                    }
                    last = x;
                    i = i + 1;
                }
            } else {
                proof {
                    assert(rle(cur.push(x)) == records@.push(pend).push(Record::Single(x)));
                    lemma_recs_size_push(records@.push(pend), Record::Single(x));
                }
                if budget < 4 {
                    maximal = true;
                } else {
                    budget = budget - 4;
                    let p = if first < last {
                        Record::Range(first, last)
                    } else {
                        Record::Single(first)
                    };
                    records.push(p);
                    first = x;
                    last = x;
                    i = i + 1;
                }
            }
        }
        let p = if first < last {
            Record::Range(first, last)
        } else {
            Record::Single(first)
        };
        let ghost records_before = records@;
        records.push(p);
        let ack = Ack { records };
        proof {
            assert(ack@ == records_before.push(p));
            lemma_recs_size_push(records_before, p);
            lemma_recs_size_lower_bound(ack@);
            assert(4 * ack@.len() <= mtu - 3);
        }
        Some((ack, i))
    }
}

} // verus!
