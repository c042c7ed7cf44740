//! Wire codec for the frame part of connected packets: reliability
//! classes, the flags byte, the fragment header, single frames and frame
//! sets. The byte layout is: flags, a 16-bit big-endian field holding the
//! body length in bits, then the optional indices dictated by the flags
//! (reliable index, sequenced index, ordered index plus channel byte,
//! fragment header), then the body.
use vstd::prelude::*;

use crate::errors::CodecError;
use crate::wire::{
    get_u16_be, get_u24_le, get_u32_be, get_u8, lemma_u16_be_roundtrip, lemma_u24_le_roundtrip,
    lemma_u32_be_roundtrip, put_u16_be, put_u24_le, put_u32_be, put_u8, u16_be_bytes, u16_be_of,
    u24_le_bytes, u24_le_of, u32_be_bytes, u32_be_of, U24_MAX_PLUS_ONE,
};

verus! {

/// Largest frame body that the 13 usable bits of the length field can name.
pub const MAX_FRAME_BODY_LEN: usize = 8191;

/// How a frame is retransmitted, deduplicated or reordered.
#[derive(Debug, Clone, Copy, PartialEq, Eq, Structural)]
pub enum Reliability {
    /// Fire and forget: may arrive out of order or not at all.
    Unreliable,
    /// Unreliable, but stale packets are dropped by the receiver.
    UnreliableSequenced,
    /// Retransmitted until acknowledged.
    Reliable,
    /// Retransmitted and delivered in submission order.
    ReliableOrdered,
    /// Retransmitted; stale packets are dropped by the receiver.
    ReliableSequenced,
}

/// The 3-bit wire value of a reliability class.
pub open spec fn reliability_bits(r: Reliability) -> u8 {
    match r {
        Reliability::Unreliable => 0,
        Reliability::UnreliableSequenced => 1,
        Reliability::Reliable => 2,
        Reliability::ReliableOrdered => 3,
        Reliability::ReliableSequenced => 4,
    }
}

/// The reliability class named by a 3-bit wire value at most 4.
pub open spec fn reliability_of_bits(b: u8) -> Reliability {
    if b == 0 {
        Reliability::Unreliable
    } else if b == 1 {
        Reliability::UnreliableSequenced
    } else if b == 2 {
        Reliability::Reliable
    } else if b == 3 {
        Reliability::ReliableOrdered
    } else {
        Reliability::ReliableSequenced
    }
}

pub open spec fn spec_is_reliable(r: Reliability) -> bool {
    r == Reliability::Reliable || r == Reliability::ReliableOrdered
        || r == Reliability::ReliableSequenced
}

pub open spec fn spec_is_sequenced(r: Reliability) -> bool {
    r == Reliability::UnreliableSequenced || r == Reliability::ReliableSequenced
}

pub open spec fn spec_is_sequenced_or_ordered(r: Reliability) -> bool {
    r == Reliability::UnreliableSequenced || r == Reliability::ReliableSequenced
        || r == Reliability::ReliableOrdered
}

impl Reliability {
    /// Whether frames of this class are retransmitted until acknowledged.
    pub fn is_reliable(&self) -> (b: bool)
        ensures
            b == spec_is_reliable(*self),
    {
        matches!(
            self,
            Reliability::Reliable | Reliability::ReliableSequenced | Reliability::ReliableOrdered
        )
    }

    /// Whether frames of this class carry an ordered index on the wire.
    pub fn is_sequenced_or_ordered(&self) -> (b: bool)
        ensures
            b == spec_is_sequenced_or_ordered(*self),
    {
        matches!(
            self,
            Reliability::ReliableSequenced
                | Reliability::ReliableOrdered
                | Reliability::UnreliableSequenced
        )
    }

    /// Whether stale frames of this class are dropped by the receiver.
    pub fn is_sequenced(&self) -> (b: bool)
        ensures
            b == spec_is_sequenced(*self),
    {
        matches!(
            self,
            Reliability::UnreliableSequenced | Reliability::ReliableSequenced
        )
    }
}

/// The flags byte: top three bits name the reliability class, bit 0x10 is
/// set when the frame is one part of a fragmented compound.
#[derive(Debug, Clone, Copy, PartialEq, Eq, Structural)]
pub struct Flags(pub u8);

impl Flags {
    /// Whether the top three bits name a reliability class.
    pub open spec fn valid(self) -> bool {
        self.0 >> 5 <= 4
    }

    /// The reliability class named by the top three bits.
    pub open spec fn spec_reliability(self) -> Reliability {
        reliability_of_bits(self.0 >> 5)
    }

    pub open spec fn spec_parted(self) -> bool {
        self.0 & 0x10 != 0
    }

    /// Build a flags byte; the reserved bits are left zero.
    pub fn new(reliability: Reliability, parted: bool) -> (f: Flags)
        ensures
            f.valid(),
            f.spec_reliability() == reliability,
            f.spec_parted() == parted,
    {
        let bits: u8 = match reliability {
            Reliability::Unreliable => 0,
            Reliability::UnreliableSequenced => 1,
            Reliability::Reliable => 2,
            Reliability::ReliableOrdered => 3,
            Reliability::ReliableSequenced => 4,
        };
        let raw: u8 = if parted {
            (bits << 5) | 0x10
        } else {
            bits << 5
        };
        proof {
            assert(bits <= 4 ==> ((bits << 5) | 0x10) >> 5 == bits && (bits << 5) >> 5 == bits
                && (((bits << 5) | 0x10) & 0x10) != 0 && ((bits << 5) & 0x10) == 0)
                by (bit_vector);
        }
        Flags(raw)
    }

    /// The reliability class of this flags byte, or the offending bits.
    pub fn reliability(&self) -> (r: Result<Reliability, CodecError>)
        ensures
            self.valid() ==> r == Ok::<Reliability, CodecError>(self.spec_reliability()),
            !self.valid() ==> r == Err::<Reliability, CodecError>(
                CodecError::InvalidReliability(self.0 >> 5),
            ),
    {
        let bits = self.0 >> 5;
        if bits == 0 {
            Ok(Reliability::Unreliable)
        } else if bits == 1 {
            Ok(Reliability::UnreliableSequenced)
        } else if bits == 2 {
            Ok(Reliability::Reliable)
        } else if bits == 3 {
            Ok(Reliability::ReliableOrdered)
        } else if bits == 4 {
            Ok(Reliability::ReliableSequenced)
        } else {
            Err(CodecError::InvalidReliability(bits))
        }
    }

    /// Whether the frame is one part of a fragmented compound.
    pub fn parted(&self) -> (b: bool)
        ensures
            b == self.spec_parted(),
    {
        self.0 & 0x10 != 0
    }
}

/// Header of one part of a fragmented compound: how many parts the
/// compound has, which compound it belongs to, and which part this is.
#[derive(Debug, Clone, Copy, PartialEq, Eq, Structural)]
pub struct Fragment {
    pub parted_size: u32,
    pub parted_id: u16,
    pub parted_index: u32,
}

/// Wire form of a fragment header.
pub open spec fn fragment_bytes(fr: Fragment) -> Seq<u8> {
    u32_be_bytes(fr.parted_size as int) + u16_be_bytes(fr.parted_id as int)
        + u32_be_bytes(fr.parted_index as int)
}

/// One application message piece, as carried inside a frame set.
#[derive(Debug)]
pub struct Frame {
    pub flags: Flags,
    pub reliable_frame_index: Option<u32>,
    pub seq_frame_index: Option<u32>,
    pub ordered_frame_index: Option<u32>,
    pub fragment: Option<Fragment>,
    pub body: Vec<u8>,
}

/// Mathematical model of a frame.
pub struct FrameView {
    pub flags: Flags,
    pub reliable_frame_index: Option<u32>,
    pub seq_frame_index: Option<u32>,
    pub ordered_frame_index: Option<u32>,
    pub fragment: Option<Fragment>,
    pub body: Seq<u8>,
}

impl View for Frame {
    type V = FrameView;

    open spec fn view(&self) -> FrameView {
        FrameView {
            flags: self.flags,
            reliable_frame_index: self.reliable_frame_index,
            seq_frame_index: self.seq_frame_index,
            ordered_frame_index: self.ordered_frame_index,
            fragment: self.fragment,
            body: self.body@,
        }
    }
}

impl FrameView {
    /// The optional fields are exactly those the flags dictate, the
    /// indices fit in 24 bits, and the body length fits the length field.
    pub open spec fn wf(self) -> bool {
        let rel = self.flags.spec_reliability();
        &&& self.flags.valid()
        &&& self.reliable_frame_index is Some <==> spec_is_reliable(rel)
        &&& self.seq_frame_index is Some <==> spec_is_sequenced(rel)
        &&& self.ordered_frame_index is Some <==> spec_is_sequenced_or_ordered(rel)
        &&& self.fragment is Some <==> self.flags.spec_parted()
        &&& (match self.reliable_frame_index {
            Some(v) => v < U24_MAX_PLUS_ONE,
            None => true,
        })
        &&& (match self.seq_frame_index {
            Some(v) => v < U24_MAX_PLUS_ONE,
            None => true,
        })
        &&& (match self.ordered_frame_index {
            Some(v) => v < U24_MAX_PLUS_ONE,
            None => true,
        })
        &&& 1 <= self.body.len() <= MAX_FRAME_BODY_LEN
    }

    /// On-wire length of this frame including its headers.
    pub open spec fn spec_size(self) -> int {
        let rel = self.flags.spec_reliability();
        3 + (if spec_is_reliable(rel) { 3int } else { 0 })
            + (if spec_is_sequenced(rel) { 3int } else { 0 })
            + (if spec_is_sequenced_or_ordered(rel) { 4int } else { 0 })
            + (if self.flags.spec_parted() { 10int } else { 0 }) + self.body.len()
    }
}

/// Wire form of an optional 24-bit index.
pub open spec fn opt_u24_bytes(o: Option<u32>) -> Seq<u8> {
    match o {
        Some(v) => u24_le_bytes(v as int),
        None => seq![],
    }
}

/// Wire form of a frame: flags, length in bits, the indices the flags
/// dictate (the ordered channel byte is written as zero), fragment
/// header, body.
#[verifier::opaque]
pub open spec fn frame_bytes(f: FrameView) -> Seq<u8> {
    seq![f.flags.0] + u16_be_bytes(f.body.len() as int * 8) + opt_u24_bytes(f.reliable_frame_index)
        + opt_u24_bytes(f.seq_frame_index) + (match f.ordered_frame_index {
        Some(v) => u24_le_bytes(v as int) + seq![0u8],
        None => seq![],
    }) + (match f.fragment {
        Some(fr) => fragment_bytes(fr),
        None => seq![],
    }) + f.body
}

pub open spec fn u24_at(b: Seq<u8>, i: int) -> u32 {
    u24_le_of(b[i], b[i + 1], b[i + 2]) as u32
}

pub open spec fn u16_at(b: Seq<u8>, i: int) -> u16 {
    u16_be_of(b[i], b[i + 1]) as u16
}

pub open spec fn u32_at(b: Seq<u8>, i: int) -> u32 {
    u32_be_of(b[i], b[i + 1], b[i + 2], b[i + 3]) as u32
}

/// What reading one frame at position `i` of `b` yields: the frame and
/// the position just past it, or the decode error. This is the
/// specification that `Frame::read` is proved against.
pub open spec fn parse_frame(b: Seq<u8>, i: int) -> Result<(FrameView, int), CodecError> {
    if i + 3 > b.len() {
        Err(CodecError::InvalidPacketLength)
    } else {
        let flags = Flags(b[i]);
        let length = u16_be_of(b[i + 1], b[i + 2]) / 8;
        if length == 0 {
            Err(CodecError::InvalidPacketLength)
        } else if !flags.valid() {
            Err(CodecError::InvalidReliability(flags.0 >> 5))
        } else {
            let rel = flags.spec_reliability();
            let n_rel: int = if spec_is_reliable(rel) { 3 } else { 0 };
            let n_seq: int = if spec_is_sequenced(rel) { 3 } else { 0 };
            let n_ord: int = if spec_is_sequenced_or_ordered(rel) { 4 } else { 0 };
            let n_frag: int = if flags.spec_parted() { 10 } else { 0 };
            if i + 3 + n_rel + n_seq + n_ord + n_frag + length > b.len() {
                Err(CodecError::InvalidPacketLength)
            } else {
                let p_rel = i + 3;
                let p_seq = p_rel + n_rel;
                let p_ord = p_seq + n_seq;
                let p_frag = p_ord + n_ord;
                let p_body = p_frag + n_frag;
                Ok((
                    FrameView {
                        flags,
                        reliable_frame_index: if n_rel > 0 {
                            Some(u24_at(b, p_rel))
                        } else {
                            None
                        },
                        seq_frame_index: if n_seq > 0 {
                            Some(u24_at(b, p_seq))
                        } else {
                            None
                        },
                        ordered_frame_index: if n_ord > 0 {
                            Some(u24_at(b, p_ord))
                        } else {
                            None
                        },
                        fragment: if n_frag > 0 {
                            Some(Fragment {
                                parted_size: u32_at(b, p_frag),
                                parted_id: u16_at(b, p_frag + 4),
                                parted_index: u32_at(b, p_frag + 6),
                            })
                        } else {
                            None
                        },
                        body: b.subrange(p_body, p_body + length),
                    },
                    p_body + length,
                ))
            }
        }
    }
}

impl Frame {
    /// A frame is well formed when its model is.
    pub open spec fn wf(self) -> bool {
        self@.wf()
    }

    /// On-wire length of this frame including its headers.
    pub fn size(&self) -> (n: usize)
        requires
            self.wf(),
        ensures
            n as int == self@.spec_size(),
    {
        let mut n: usize = 3 + self.body.len();
        if self.reliable_frame_index.is_some() {
            n = n + 3;
        }
        if self.seq_frame_index.is_some() {
            n = n + 3;
        }
        if self.ordered_frame_index.is_some() {
            n = n + 4;
        }
        if self.fragment.is_some() {
            n = n + 10;
        }
        n
    }

    /// A deep copy of this frame.
    pub fn duplicate(&self) -> (r: Frame)
        ensures
            r@ == self@,
    {
        let mut body: Vec<u8> = Vec::new();
        let mut k: usize = 0;
        while k < self.body.len()
            invariant
                k <= self.body@.len(),
                body@ == self.body@.subrange(0, k as int),
            decreases self.body@.len() - k,
        {
            body.push(self.body[k]);
            k = k + 1;
        }
        proof {
            assert(body@ =~= self.body@);
        }
        Frame {
            flags: self.flags,
            reliable_frame_index: self.reliable_frame_index,
            seq_frame_index: self.seq_frame_index,
            ordered_frame_index: self.ordered_frame_index,
            fragment: self.fragment,
            body,
        }
    }

    /// The pack-id byte of the packet the body carries: its first byte.
    /// Mapping that byte to a packet kind belongs to the enclosing codec.
    pub fn inner_pack_id(&self) -> (r: Result<u8, CodecError>)
        ensures
            self.body@.len() > 0 ==> r == Ok::<u8, CodecError>(self.body@[0]),
            self.body@.len() == 0 ==> r == Err::<u8, CodecError>(CodecError::InvalidPacketLength),
    {
        if self.body.len() == 0 {
            Err(CodecError::InvalidPacketLength)
        } else {
            Ok(self.body[0])
        }
    }

    /// Read one frame starting at `pos`; returns the frame and the
    /// position just past it.
    pub fn read(buf: &Vec<u8>, pos: usize) -> (r: Result<(Frame, usize), CodecError>)
        requires
            pos <= buf@.len(),
        ensures
            match r {
                Ok((f, end)) => parse_frame(buf@, pos as int) == Ok::<(FrameView, int), CodecError>(
                    (f@, end as int),
                ) && f.wf() && pos < end <= buf@.len(),
                Err(e) => parse_frame(buf@, pos as int) == Err::<(FrameView, int), CodecError>(e),
            },
    {
        let n = buf.len();
        if n - pos < 3 {
            return Err(CodecError::InvalidPacketLength);
        }
        let flags = Flags(get_u8(buf, pos));
        let len_field = get_u16_be(buf, pos + 1);
        let length = (len_field / 8) as usize;
        if length == 0 {
            return Err(CodecError::InvalidPacketLength);
        }
        let reliability = match flags.reliability() {
            Ok(rel) => rel,
            Err(e) => {
                return Err(e);
            },
        };
        let n_rel: usize = if reliability.is_reliable() { 3 } else { 0 };
        let n_seq: usize = if reliability.is_sequenced() { 3 } else { 0 };
        let n_ord: usize = if reliability.is_sequenced_or_ordered() { 4 } else { 0 };
        let n_frag: usize = if flags.parted() { 10 } else { 0 };
        if n - (pos + 3) < n_rel + n_seq + n_ord + n_frag + length {
            return Err(CodecError::InvalidPacketLength);
        }
        let p_rel = pos + 3;
        let p_seq = p_rel + n_rel;
        let p_ord = p_seq + n_seq;
        let p_frag = p_ord + n_ord;
        let p_body = p_frag + n_frag;
        let reliable_frame_index = if n_rel > 0 {
            Some(get_u24_le(buf, p_rel))
        } else {
            None
        };
        let seq_frame_index = if n_seq > 0 {
            Some(get_u24_le(buf, p_seq))
        } else {
            None
        };
        let ordered_frame_index = if n_ord > 0 {
            Some(get_u24_le(buf, p_ord))
        } else {
            None
        };
        let fragment = if n_frag > 0 {
            Some(Fragment {
                parted_size: get_u32_be(buf, p_frag),
                parted_id: get_u16_be(buf, p_frag + 4),
                parted_index: get_u32_be(buf, p_frag + 6),
            })
        } else {
            None
        };
        let mut body: Vec<u8> = Vec::new();
        let mut k: usize = 0;
        while k < length
            invariant
                k <= length,
                n == buf@.len(),
                p_body + length <= buf@.len(),
                body@ == buf@.subrange(p_body as int, p_body + k),
            decreases length - k,
        {
            body.push(get_u8(buf, p_body + k));
            proof {
                assert(body@ =~= buf@.subrange(p_body as int, p_body + k + 1));
            }
            k = k + 1;
        }
        let f = Frame {
            flags,
            reliable_frame_index,
            seq_frame_index,
            ordered_frame_index,
            fragment,
            body,
        };
        proof {
            let pf = parse_frame(buf@, pos as int);
            assert(pf is Ok);
            assert(pf->Ok_0.0 == f@);
        }
        Ok((f, p_body + length))
    }

    /// Append the wire form of this frame.
    #[verifier::rlimit(50)]
    pub fn write(&self, buf: &mut Vec<u8>)
        requires
            self.wf(),
        ensures
            final(buf)@ == old(buf)@ + frame_bytes(self@),
    {
        proof {
            reveal(frame_bytes);
        }
        put_u8(buf, self.flags.0);
        put_u16_be(buf, (self.body.len() * 8) as u16);
        match self.reliable_frame_index {
            Some(v) => put_u24_le(buf, v),
            None => (),
        }
        match self.seq_frame_index {
            Some(v) => put_u24_le(buf, v),
            None => (),
        }
        match self.ordered_frame_index {
            Some(v) => {
                put_u24_le(buf, v);
                // the ordered channel byte is written as zero
                put_u8(buf, 0);
            },
            None => (),
        }
        match self.fragment {
            Some(fr) => {
                put_u32_be(buf, fr.parted_size);
                put_u16_be(buf, fr.parted_id);
                put_u32_be(buf, fr.parted_index);
            },
            None => (),
        }
        let mut k: usize = 0;
        let ghost mid = buf@;
        while k < self.body.len()
            invariant
                k <= self.body@.len(),
                buf@ == mid + self.body@.subrange(0, k as int),
            decreases self.body@.len() - k,
        {
            let b = self.body[k];
            buf.push(b);
            proof {
                assert(buf@ =~= mid + self.body@.subrange(0, k + 1));
            }
            k = k + 1;
        }
        proof {
            reveal(frame_bytes);
            assert(self.body@.subrange(0, self.body@.len() as int) =~= self.body@);
            assert(buf@ =~= old(buf)@ + frame_bytes(self@));
        }
    }
}

/// The unit of sequencing and acknowledgement: a sequence number and the
/// frames batched under it.
#[derive(Debug)]
pub struct FrameSet {
    pub seq_num: u32,
    pub frames: Vec<Frame>,
}

/// Mathematical model of a frame set.
pub struct FrameSetView {
    pub seq_num: u32,
    pub frames: Seq<FrameView>,
}

impl View for FrameSet {
    type V = FrameSetView;

    open spec fn view(&self) -> FrameSetView {
        FrameSetView { seq_num: self.seq_num, frames: self.frames@.map(|i: int, f: Frame| f@) }
    }
}

impl FrameSetView {
    pub open spec fn wf(self) -> bool {
        &&& self.seq_num < U24_MAX_PLUS_ONE
        &&& self.frames.len() >= 1
        &&& forall|k: int| 0 <= k < self.frames.len() ==> (#[trigger] self.frames[k]).wf()
    }
}

impl FrameSet {
    pub open spec fn wf(self) -> bool {
        self@.wf()
    }
}

/// Wire form of a list of frames, one after the other.
pub open spec fn frames_bytes(fs: Seq<FrameView>) -> Seq<u8>
    decreases fs.len(),
{
    if fs.len() == 0 {
        seq![]
    } else {
        frame_bytes(fs.first()) + frames_bytes(fs.drop_first())
    }
}

/// Wire form of a frame set: the sequence number, then the frames.
pub open spec fn frame_set_bytes(fsv: FrameSetView) -> Seq<u8> {
    u24_le_bytes(fsv.seq_num as int) + frames_bytes(fsv.frames)
}

pub proof fn lemma_frames_bytes_push(fs: Seq<FrameView>, f: FrameView)
    ensures
        frames_bytes(fs.push(f)) == frames_bytes(fs) + frame_bytes(f),
    decreases fs.len(),
{
    reveal_with_fuel(frames_bytes, 2);
    if fs.len() == 0 {
        assert(fs.push(f).first() == f);
        assert(fs.push(f).drop_first() =~= Seq::<FrameView>::empty());
        assert(frames_bytes(fs.push(f)) =~= frames_bytes(fs) + frame_bytes(f));
    } else {
        assert(fs.push(f).first() == fs.first());
        assert(fs.push(f).drop_first() =~= fs.drop_first().push(f));
        lemma_frames_bytes_push(fs.drop_first(), f);
        assert(frames_bytes(fs.push(f)) == frame_bytes(fs.first()) + (frames_bytes(fs.drop_first())
            + frame_bytes(f)));
        assert(frame_bytes(fs.first()) + (frames_bytes(fs.drop_first()) + frame_bytes(f))
            =~= (frame_bytes(fs.first()) + frames_bytes(fs.drop_first())) + frame_bytes(f));
    }
}

pub proof fn lemma_frame_bytes_len(f: FrameView)
    requires
        f.wf(),
    ensures
        frame_bytes(f).len() == f.spec_size(),
{
    reveal(frame_bytes);
}

/// Decoding the wire form of a well-formed frame yields that frame back:
/// the frame part of the round-trip law.
#[verifier::rlimit(100)]
pub proof fn lemma_parse_frame_exact(b: Seq<u8>, i: int, f: FrameView)
    requires
        f.wf(),
        0 <= i,
        i + f.spec_size() <= b.len(),
        b.subrange(i, i + f.spec_size()) == frame_bytes(f),
    ensures
        parse_frame(b, i) == Ok::<(FrameView, int), CodecError>((f, i + f.spec_size())),
{
    reveal(frame_bytes);
    lemma_frame_bytes_len(f);
    let fb = frame_bytes(f);
    let rel = f.flags.spec_reliability();
    let n_rel: int = if spec_is_reliable(rel) { 3 } else { 0 };
    let n_seq: int = if spec_is_sequenced(rel) { 3 } else { 0 };
    let n_ord: int = if spec_is_sequenced_or_ordered(rel) { 4 } else { 0 };
    let n_frag: int = if f.flags.spec_parted() { 10 } else { 0 };
    let len = f.body.len() as int;
    assert(opt_u24_bytes(f.reliable_frame_index).len() == n_rel);
    assert(opt_u24_bytes(f.seq_frame_index).len() == n_seq);
    assert((match f.ordered_frame_index {
        Some(v) => u24_le_bytes(v as int) + seq![0u8],
        None => Seq::<u8>::empty(),
    }).len() == n_ord);
    assert((match f.fragment {
        Some(fr) => fragment_bytes(fr),
        None => Seq::<u8>::empty(),
    }).len() == n_frag);
    assert(forall|k: int| 0 <= k < fb.len() ==> #[trigger] fb[k] == b[i + k]) by {
        assert(forall|k: int|
            0 <= k < fb.len() ==> fb[k] == #[trigger] b.subrange(i, i + f.spec_size())[k]);
    }
    // flags byte
    assert(fb[0] == f.flags.0);
    assert(b[i] == b[i + 0] && b[i + 0] == fb[0]);
    // length field carries the body length in bits
    lemma_u16_be_roundtrip(len * 8);
    assert(fb[1] == u16_be_bytes(len * 8)[0]);
    assert(fb[2] == u16_be_bytes(len * 8)[1]);
    assert(u16_be_of(b[i + 1], b[i + 2]) == len * 8);
    assert((len * 8) / 8 == len);
    let p_rel = i + 3;
    let p_seq = p_rel + n_rel;
    let p_ord = p_seq + n_seq;
    let p_frag = p_ord + n_ord;
    let p_body = p_frag + n_frag;
    if spec_is_reliable(rel) {
        let v = f.reliable_frame_index->Some_0;
        lemma_u24_le_roundtrip(v as int);
        assert(fb[3] == u24_le_bytes(v as int)[0]);
        assert(fb[4] == u24_le_bytes(v as int)[1]);
        assert(fb[5] == u24_le_bytes(v as int)[2]);
        assert(u24_at(b, p_rel) == v);
    }
    if spec_is_sequenced(rel) {
        let v = f.seq_frame_index->Some_0;
        lemma_u24_le_roundtrip(v as int);
        assert(fb[p_seq - i] == u24_le_bytes(v as int)[0]);
        assert(fb[p_seq - i + 1] == u24_le_bytes(v as int)[1]);
        assert(fb[p_seq - i + 2] == u24_le_bytes(v as int)[2]);
        assert(u24_at(b, p_seq) == v);
    }
    if spec_is_sequenced_or_ordered(rel) {
        let v = f.ordered_frame_index->Some_0;
        lemma_u24_le_roundtrip(v as int);
        assert(fb[p_ord - i] == u24_le_bytes(v as int)[0]);
        assert(fb[p_ord - i + 1] == u24_le_bytes(v as int)[1]);
        assert(fb[p_ord - i + 2] == u24_le_bytes(v as int)[2]);
        assert(u24_at(b, p_ord) == v);
    }
    if f.flags.spec_parted() {
        let fr = f.fragment->Some_0;
        lemma_u32_be_roundtrip(fr.parted_size as int);
        lemma_u16_be_roundtrip(fr.parted_id as int);
        lemma_u32_be_roundtrip(fr.parted_index as int);
        assert(fb[p_frag - i] == u32_be_bytes(fr.parted_size as int)[0]);
        assert(fb[p_frag - i + 1] == u32_be_bytes(fr.parted_size as int)[1]);
        assert(fb[p_frag - i + 2] == u32_be_bytes(fr.parted_size as int)[2]);
        assert(fb[p_frag - i + 3] == u32_be_bytes(fr.parted_size as int)[3]);
        assert(fb[p_frag - i + 4] == u16_be_bytes(fr.parted_id as int)[0]);
        assert(fb[p_frag - i + 5] == u16_be_bytes(fr.parted_id as int)[1]);
        assert(fb[p_frag - i + 6] == u32_be_bytes(fr.parted_index as int)[0]);
        assert(fb[p_frag - i + 7] == u32_be_bytes(fr.parted_index as int)[1]);
        assert(fb[p_frag - i + 8] == u32_be_bytes(fr.parted_index as int)[2]);
        assert(fb[p_frag - i + 9] == u32_be_bytes(fr.parted_index as int)[3]);
        assert(u32_at(b, p_frag) == fr.parted_size);
        assert(u16_at(b, p_frag + 4) == fr.parted_id);
        assert(u32_at(b, p_frag + 6) == fr.parted_index);
    }
    assert(b.subrange(p_body, p_body + len) =~= f.body) by {
        assert(forall|k: int| 0 <= k < len ==> fb[p_body - i + k] == f.body[k]);
        assert(forall|k: int| 0 <= k < len ==> #[trigger] b.subrange(p_body, p_body + len)[k]
            == b[p_body + k]);
    }
    let parsed = parse_frame(b, i)->Ok_0.0;
    assert(parsed.flags == f.flags);
    assert(parsed.reliable_frame_index == f.reliable_frame_index);
    assert(parsed.seq_frame_index == f.seq_frame_index);
    assert(parsed.ordered_frame_index == f.ordered_frame_index);
    assert(parsed.fragment == f.fragment);
    assert(parsed.body == f.body);
}

/// What reading frames from position `i` to the end of `b` yields.
pub open spec fn parse_frames(b: Seq<u8>, i: int) -> Result<(Seq<FrameView>, int), CodecError>
    decreases b.len() - i,
{
    if i >= b.len() {
        Ok((seq![], i))
    } else {
        match parse_frame(b, i) {
            Err(e) => Err(e),
            Ok((f, j)) => if j <= i || j > b.len() {
                Err(CodecError::InvalidPacketLength)
            } else {
                match parse_frames(b, j) {
                    Err(e) => Err(e),
                    Ok((fs, end)) => Ok((seq![f] + fs, end)),
                }
            },
        }
    }
}

/// What decoding a whole frame-set payload yields: the sequence number
/// followed by at least one frame, spanning the entire buffer.
pub open spec fn parse_frame_set(b: Seq<u8>) -> Result<FrameSetView, CodecError> {
    if b.len() < 3 {
        Err(CodecError::InvalidPacketLength)
    } else {
        match parse_frames(b, 3) {
            Err(e) => Err(e),
            Ok((fs, _)) => if fs.len() == 0 {
                Err(CodecError::InvalidPacketLength)
            } else {
                Ok(FrameSetView { seq_num: u24_at(b, 0), frames: fs })
            },
        }
    }
}

/// Decoding a buffer whose tail from `i` is exactly the wire form of a
/// list of well-formed frames yields those frames.
pub proof fn lemma_parse_frames_exact(b: Seq<u8>, i: int, fs: Seq<FrameView>)
    requires
        0 <= i <= b.len(),
        forall|k: int| 0 <= k < fs.len() ==> (#[trigger] fs[k]).wf(),
        b.subrange(i, b.len() as int) == frames_bytes(fs),
    ensures
        parse_frames(b, i) == Ok::<(Seq<FrameView>, int), CodecError>((fs, b.len() as int)),
    decreases fs.len(),
{
    assert(b.len() - i == frames_bytes(fs).len());
    if fs.len() == 0 {
        assert(i == b.len());
        assert(fs =~= Seq::<FrameView>::empty());
    } else {
        let f0 = fs.first();
        assert(f0.wf());
        lemma_frame_bytes_len(f0);
        let size0 = f0.spec_size();
        assert(frames_bytes(fs) == frame_bytes(f0) + frames_bytes(fs.drop_first()));
        assert(i + size0 <= b.len());
        assert(b.subrange(i, i + size0) =~= frame_bytes(f0)) by {
            assert(forall|k: int| 0 <= k < size0 ==> #[trigger] b.subrange(i, i + size0)[k]
                == b.subrange(i, b.len() as int)[k]);
        }
        lemma_parse_frame_exact(b, i, f0);
        assert(b.subrange(i + size0, b.len() as int) =~= frames_bytes(fs.drop_first())) by {
            assert(forall|k: int|
                0 <= k < b.len() - i - size0 ==> #[trigger] b.subrange(i + size0, b.len() as int)[k]
                    == b.subrange(i, b.len() as int)[k + size0]);
        }
        assert(forall|k: int| 0 <= k < fs.drop_first().len() ==> (#[trigger] fs.drop_first()[
            k]).wf()) by {
            assert(forall|k: int| 0 <= k < fs.drop_first().len() ==> fs.drop_first()[k] == fs[k
                + 1]);
        }
        lemma_parse_frames_exact(b, i + size0, fs.drop_first());
        assert(seq![f0] + fs.drop_first() =~= fs);
        assert(size0 >= 4);
        assert(i < b.len());
        assert(parse_frames(b, i) == Ok::<(Seq<FrameView>, int), CodecError>(
            (seq![f0] + fs.drop_first(), b.len() as int),
        ));
    }
}

/// Round trip: decoding the wire form of a well-formed frame set yields
/// the same frame set back.
pub proof fn lemma_frame_set_roundtrip(fsv: FrameSetView)
    requires
        fsv.wf(),
    ensures
        parse_frame_set(frame_set_bytes(fsv)) == Ok::<FrameSetView, CodecError>(fsv),
{
    let b = frame_set_bytes(fsv);
    lemma_u24_le_roundtrip(fsv.seq_num as int);
    assert(b[0] == u24_le_bytes(fsv.seq_num as int)[0]);
    assert(b[1] == u24_le_bytes(fsv.seq_num as int)[1]);
    assert(b[2] == u24_le_bytes(fsv.seq_num as int)[2]);
    assert(u24_at(b, 0) == fsv.seq_num);
    assert(b.subrange(3, b.len() as int) =~= frames_bytes(fsv.frames));
    lemma_parse_frames_exact(b, 3, fsv.frames);
}

impl FrameSet {
    /// Decode a whole frame-set payload (everything after the pack-id
    /// byte): sequence number, then frames until the end of the buffer.
    pub fn read(buf: &Vec<u8>) -> (r: Result<FrameSet, CodecError>)
        ensures
            match r {
                Ok(fs) => parse_frame_set(buf@) == Ok::<FrameSetView, CodecError>(fs@) && fs.wf(),
                Err(e) => parse_frame_set(buf@) == Err::<FrameSetView, CodecError>(e),
            },
    {
        let n = buf.len();
        if n < 3 {
            return Err(CodecError::InvalidPacketLength);
        }
        let seq_num = get_u24_le(buf, 0);
        let mut frames: Vec<Frame> = Vec::new();
        let mut pos: usize = 3;
        while pos < n
            invariant
                3 <= pos <= n,
                n == buf@.len(),
                forall|k: int| 0 <= k < frames@.len() ==> (#[trigger] frames@[k]).wf(),
                match parse_frames(buf@, pos as int) {
                    Ok((rest, end)) => parse_frames(buf@, 3) == Ok::<(Seq<FrameView>, int), CodecError>(
                        (frames@.map(|i: int, f: Frame| f@) + rest, end),
                    ),
                    Err(e) => parse_frames(buf@, 3) == Err::<(Seq<FrameView>, int), CodecError>(e),
                },
            decreases n - pos,
        {
            let ghost frames_before = frames@.map(|i: int, f: Frame| f@);
            match Frame::read(buf, pos) {
                Ok((f, end)) => {
                    proof {
                        match parse_frames(buf@, end as int) {
                            Ok((rest2, fin2)) => {
                                assert(parse_frames(buf@, pos as int)
                                    == Ok::<(Seq<FrameView>, int), CodecError>(
                                    (seq![f@] + rest2, fin2),
                                ));
                            },
                            Err(e) => {
                                assert(parse_frames(buf@, pos as int)
                                    == Err::<(Seq<FrameView>, int), CodecError>(e));
                            },
                        }
                    }
                    frames.push(f);
                    proof {
                        assert(frames@.map(|i: int, f: Frame| f@) =~= frames_before.push(f@));
                        match parse_frames(buf@, end as int) {
                            Ok((rest2, fin2)) => {
                                assert(frames_before + (seq![f@] + rest2) =~= frames_before.push(
                                    f@,
                                ) + rest2);
                            },
                            Err(_) => {},
                        }
                    }
                    pos = end;
                },
                Err(e) => {
                    return Err(e);
                },
            }
        }
        if frames.len() == 0 {
            return Err(CodecError::InvalidPacketLength);
        }
        let fs = FrameSet { seq_num, frames };
        proof {
            assert(parse_frames(buf@, pos as int) == Ok::<(Seq<FrameView>, int), CodecError>(
                (Seq::<FrameView>::empty(), pos as int),
            ));
            assert(frames@.map(|i: int, f: Frame| f@) + Seq::<FrameView>::empty() =~= fs@.frames);
        }
        Ok(fs)
    }

    /// Append the wire form of this frame set.
    pub fn write(&self, buf: &mut Vec<u8>)
        requires
            self.wf(),
        ensures
            final(buf)@ == old(buf)@ + frame_set_bytes(self@),
    {
        put_u24_le(buf, self.seq_num);
        let ghost mid = buf@;
        let mut k: usize = 0;
        while k < self.frames.len()
            invariant
                k <= self.frames@.len(),
                self.wf(),
                buf@ == mid + frames_bytes(self@.frames.subrange(0, k as int)),
            decreases self.frames@.len() - k,
        {
            proof {
                assert(self@.frames[k as int].wf());
                assert(self.frames@[k as int]@ == self@.frames[k as int]);
            }
            let ghost before = buf@;
            self.frames[k].write(buf);
            proof {
                lemma_frames_bytes_push(
                    self@.frames.subrange(0, k as int),
                    self@.frames[k as int],
                );
                assert(self@.frames.subrange(0, k as int).push(self@.frames[k as int])
                    =~= self@.frames.subrange(0, k as int + 1));
                assert(buf@ =~= mid + frames_bytes(self@.frames.subrange(0, k as int + 1)));
            }
            k = k + 1;
        }
        proof {
            assert(self@.frames.subrange(0, self@.frames.len() as int) =~= self@.frames);
            assert(buf@ =~= old(buf)@ + frame_set_bytes(self@));
        }
    }
}

/// A decoded connected packet: a frame set, an acknowledgement, or a
/// negative acknowledgement.
#[derive(Debug)]
pub enum Packet {
    FrameSet(FrameSet),
    Ack(crate::ack::Ack),
    Nack(crate::ack::Ack),
}

/// Which wire kind a connected packet is; the enclosing codec maps this
/// to and from its pack-id byte.
#[derive(Debug, Clone, Copy, PartialEq, Eq, Structural)]
pub enum PackKind {
    FrameSet,
    Ack,
    Nack,
}

impl Packet {
    pub open spec fn wf(self) -> bool {
        match self {
            Packet::FrameSet(fs) => fs.wf(),
            Packet::Ack(a) => a.wf(),
            Packet::Nack(a) => a.wf(),
        }
    }

    /// The packet kind, for the enclosing codec to pick the pack-id byte.
    pub fn pack_id(&self) -> (k: PackKind)
        ensures
            k == (match self {
                Packet::FrameSet(_) => PackKind::FrameSet,
                Packet::Ack(_) => PackKind::Ack,
                Packet::Nack(_) => PackKind::Nack,
            }),
    {
        match self {
            Packet::FrameSet(_) => PackKind::FrameSet,
            Packet::Ack(_) => PackKind::Ack,
            Packet::Nack(_) => PackKind::Nack,
        }
    }

    /// Decode a frame-set payload (everything after the pack-id byte).
    pub fn read_frame_set(buf: &Vec<u8>) -> (r: Result<Packet, CodecError>)
        ensures
            match r {
                Ok(p) => (match p {
                    Packet::FrameSet(fs) => parse_frame_set(buf@) == Ok::<
                        FrameSetView,
                        CodecError,
                    >(fs@) && p.wf(),
                    _ => false,
                }),
                Err(e) => parse_frame_set(buf@) == Err::<FrameSetView, CodecError>(e),
            },
    {
        match FrameSet::read(buf) {
            Ok(fs) => Ok(Packet::FrameSet(fs)),
            Err(e) => Err(e),
        }
    }

    /// Decode an ACK payload (everything after the pack-id byte).
    pub fn read_ack(buf: &Vec<u8>) -> (r: Result<Packet, CodecError>)
        ensures
            match r {
                Ok(p) => (match p {
                    Packet::Ack(a) => crate::ack::parse_ack(buf@, 0) is Ok && crate::ack::parse_ack(
                        buf@,
                        0,
                    )->Ok_0.0 == a@ && p.wf(),
                    _ => false,
                }),
                Err(e) => crate::ack::parse_ack(buf@, 0) == Err::<
                    (Seq<crate::ack::Record>, int),
                    CodecError,
                >(e),
            },
    {
        match crate::ack::Ack::read(buf, 0) {
            Ok((a, end)) => {
                proof {
                    assert(crate::ack::parse_ack(buf@, 0) == Ok::<
                        (Seq<crate::ack::Record>, int),
                        CodecError,
                    >((a@, end as int)));
                }
                Ok(Packet::Ack(a))
            },
            Err(e) => Err(e),
        }
    }

    /// Decode a NACK payload (everything after the pack-id byte).
    pub fn read_nack(buf: &Vec<u8>) -> (r: Result<Packet, CodecError>)
        ensures
            match r {
                Ok(p) => (match p {
                    Packet::Nack(a) => crate::ack::parse_ack(buf@, 0) is Ok
                        && crate::ack::parse_ack(buf@, 0)->Ok_0.0 == a@ && p.wf(),
                    _ => false,
                }),
                Err(e) => crate::ack::parse_ack(buf@, 0) == Err::<
                    (Seq<crate::ack::Record>, int),
                    CodecError,
                >(e),
            },
    {
        match crate::ack::Ack::read(buf, 0) {
            Ok((a, end)) => {
                proof {
                    assert(crate::ack::parse_ack(buf@, 0) == Ok::<
                        (Seq<crate::ack::Record>, int),
                        CodecError,
                    >((a@, end as int)));
                }
                Ok(Packet::Nack(a))
            },
            Err(e) => Err(e),
        }
    }

    /// Append the wire form of this packet's payload; the pack-id byte is
    /// the enclosing codec's.
    pub fn write(&self, buf: &mut Vec<u8>)
        requires
            self.wf(),
        ensures
            final(buf)@ == old(buf)@ + (match *self {
                Packet::FrameSet(fs) => frame_set_bytes(fs@),
                Packet::Ack(a) => crate::ack::ack_bytes(a@),
                Packet::Nack(a) => crate::ack::ack_bytes(a@),
            }),
    {
        match self {
            Packet::FrameSet(fs) => fs.write(buf),
            Packet::Ack(a) => a.write(buf),
            Packet::Nack(a) => a.write(buf),
        }
    }
}

} // verus!
