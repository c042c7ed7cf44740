//! Byte-level encoding helpers: big-endian u16/u32 and the 3-byte
//! little-endian 24-bit integer that carries sequence numbers on the wire.
use vstd::prelude::*;

verus! {

/// Greatest value a 24-bit sequence number can take, plus one.
pub const U24_MAX_PLUS_ONE: u32 = 0x1000000;

/// The two bytes of `v` in big-endian order.
pub open spec fn u16_be_bytes(v: int) -> Seq<u8> {
    seq![((v / 256) % 256) as u8, (v % 256) as u8]
}

/// The value carried by two big-endian bytes.
pub open spec fn u16_be_of(b0: u8, b1: u8) -> int {
    256 * (b0 as int) + (b1 as int)
}

/// The three bytes of `v` in little-endian order.
pub open spec fn u24_le_bytes(v: int) -> Seq<u8> {
    seq![(v % 256) as u8, ((v / 256) % 256) as u8, ((v / 65536) % 256) as u8]
}

/// The value carried by three little-endian bytes.
pub open spec fn u24_le_of(b0: u8, b1: u8, b2: u8) -> int {
    (b0 as int) + 256 * (b1 as int) + 65536 * (b2 as int)
}

/// The four bytes of `v` in big-endian order.
pub open spec fn u32_be_bytes(v: int) -> Seq<u8> {
    seq![
        ((v / 0x1000000) % 256) as u8,
        ((v / 65536) % 256) as u8,
        ((v / 256) % 256) as u8,
        (v % 256) as u8,
    ]
}

/// The value carried by four big-endian bytes.
pub open spec fn u32_be_of(b0: u8, b1: u8, b2: u8, b3: u8) -> int {
    0x1000000 * (b0 as int) + 65536 * (b1 as int) + 256 * (b2 as int) + (b3 as int)
}

pub proof fn lemma_u16_be_roundtrip(v: int)
    requires
        0 <= v < 0x10000,
    ensures
        u16_be_of(u16_be_bytes(v)[0], u16_be_bytes(v)[1]) == v,
{
    assert(256 * ((v / 256) % 256) + v % 256 == v) by (nonlinear_arith)
        requires 0 <= v < 0x10000;
}

pub proof fn lemma_u24_le_roundtrip(v: int)
    requires
        0 <= v < 0x1000000,
    ensures
        u24_le_of(u24_le_bytes(v)[0], u24_le_bytes(v)[1], u24_le_bytes(v)[2]) == v,
{
    assert(v % 256 + 256 * ((v / 256) % 256) + 65536 * ((v / 65536) % 256) == v)
        by (nonlinear_arith)
        requires 0 <= v < 0x1000000;
}

pub proof fn lemma_u32_be_roundtrip(v: int)
    requires
        0 <= v < 0x100000000,
    ensures
        u32_be_of(
            u32_be_bytes(v)[0],
            u32_be_bytes(v)[1],
            u32_be_bytes(v)[2],
            u32_be_bytes(v)[3],
        ) == v,
{
    assert(0x1000000 * ((v / 0x1000000) % 256) + 65536 * ((v / 65536) % 256)
        + 256 * ((v / 256) % 256) + v % 256 == v) by (nonlinear_arith)
        requires 0 <= v < 0x100000000;
}

/// Append one byte.
pub fn put_u8(buf: &mut Vec<u8>, v: u8)
    ensures
        final(buf)@ == old(buf)@.push(v),
{
    buf.push(v);
}

/// Append a big-endian u16.
pub fn put_u16_be(buf: &mut Vec<u8>, v: u16)
    ensures
        final(buf)@ == old(buf)@ + u16_be_bytes(v as int),
{
    buf.push((v / 256) as u8);
    buf.push((v % 256) as u8);
    proof {
        assert(buf@ =~= old(buf)@ + u16_be_bytes(v as int));
    }
}

/// Append a 24-bit value as three little-endian bytes.
pub fn put_u24_le(buf: &mut Vec<u8>, v: u32)
    requires
        v < U24_MAX_PLUS_ONE,
    ensures
        final(buf)@ == old(buf)@ + u24_le_bytes(v as int),
{
    buf.push((v % 256) as u8);
    buf.push(((v / 256) % 256) as u8);
    buf.push(((v / 65536) % 256) as u8);
    proof {
        assert(buf@ =~= old(buf)@ + u24_le_bytes(v as int));
    }
}

/// Append a big-endian u32.
pub fn put_u32_be(buf: &mut Vec<u8>, v: u32)
    ensures
        final(buf)@ == old(buf)@ + u32_be_bytes(v as int),
{
    buf.push(((v / 0x1000000) % 256) as u8);
    buf.push(((v / 65536) % 256) as u8);
    buf.push(((v / 256) % 256) as u8);
    buf.push((v % 256) as u8);
    proof {
        assert(buf@ =~= old(buf)@ + u32_be_bytes(v as int));
    }
}

/// Read one byte.
pub fn get_u8(buf: &Vec<u8>, pos: usize) -> (r: u8)
    requires
        pos < buf@.len(),
    ensures
        r == buf@[pos as int],
{
    buf[pos]
}

/// Read a big-endian u16.
pub fn get_u16_be(buf: &Vec<u8>, pos: usize) -> (r: u16)
    requires
        pos + 2 <= buf@.len(),
    ensures
        r as int == u16_be_of(buf@[pos as int], buf@[pos as int + 1]),
{
    let _n: usize = buf.len();
    256 * (buf[pos] as u16) + (buf[pos + 1] as u16)
}

/// Read a 24-bit value from three little-endian bytes.
pub fn get_u24_le(buf: &Vec<u8>, pos: usize) -> (r: u32)
    requires
        pos + 3 <= buf@.len(),
    ensures
        r as int == u24_le_of(buf@[pos as int], buf@[pos as int + 1], buf@[pos as int + 2]),
        r < U24_MAX_PLUS_ONE,
{
    let _n: usize = buf.len();
    (buf[pos] as u32) + 256 * (buf[pos + 1] as u32) + 65536 * (buf[pos + 2] as u32)
}

/// Read a big-endian u32.
pub fn get_u32_be(buf: &Vec<u8>, pos: usize) -> (r: u32)
    requires
        pos + 4 <= buf@.len(),
    ensures
        r as int == u32_be_of(
            buf@[pos as int],
            buf@[pos as int + 1],
            buf@[pos as int + 2],
            buf@[pos as int + 3],
        ),
{
    let _n: usize = buf.len();
    0x1000000 * (buf[pos] as u32) + 65536 * (buf[pos + 1] as u32) + 256 * (buf[pos + 2] as u32)
        + (buf[pos + 3] as u32)
}

} // verus!
