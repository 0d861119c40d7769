//! Little-endian field encodings used by the OMT wire format.
use vstd::prelude::*;

verus! {

/// Little-endian bytes of a `u16`.
pub open spec fn u16_le(v: u16) -> Seq<u8> {
    seq![v as u8, (v >> 8u16) as u8]
}

/// Little-endian bytes of a `u32`.
pub open spec fn u32_le(v: u32) -> Seq<u8> {
    seq![v as u8, (v >> 8u32) as u8, (v >> 16u32) as u8, (v >> 24u32) as u8]
}

/// Little-endian bytes of a `u64`.
pub open spec fn u64_le(v: u64) -> Seq<u8> {
    seq![
        v as u8,
        (v >> 8u64) as u8,
        (v >> 16u64) as u8,
        (v >> 24u64) as u8,
        (v >> 32u64) as u8,
        (v >> 40u64) as u8,
        (v >> 48u64) as u8,
        (v >> 56u64) as u8,
    ]
}

/// Little-endian (two's complement) bytes of an `i32`.
pub open spec fn i32_le(v: i32) -> Seq<u8> {
    u32_le(v as u32)
}

/// Little-endian (two's complement) bytes of an `i64`.
pub open spec fn i64_le(v: i64) -> Seq<u8> {
    u64_le(v as u64)
}

/// The `u16` whose little-endian bytes start `s`.
pub open spec fn u16_from_le(s: Seq<u8>) -> u16 {
    (s[0] as u16) | ((s[1] as u16) << 8u16)
}

/// The `u32` whose little-endian bytes start `s`.
pub open spec fn u32_from_le(s: Seq<u8>) -> u32 {
    (s[0] as u32) | ((s[1] as u32) << 8u32) | ((s[2] as u32) << 16u32) | ((s[3] as u32) << 24u32)
}

/// The `u64` whose little-endian bytes start `s`.
pub open spec fn u64_from_le(s: Seq<u8>) -> u64 {
    (u32_from_le(s) as u64) | ((u32_from_le(s.subrange(4, 8)) as u64) << 32u64)
}

/// The `i32` whose little-endian bytes start `s`.
pub open spec fn i32_from_le(s: Seq<u8>) -> i32 {
    u32_from_le(s) as i32
}

/// The `i64` whose little-endian bytes start `s`.
pub open spec fn i64_from_le(s: Seq<u8>) -> i64 {
    u64_from_le(s) as i64
}

/// Decoding the encoding of a `u16` gives it back.
pub proof fn lemma_u16_roundtrip(v: u16)
    ensures
        u16_from_le(u16_le(v)) == v,
        u16_le(v).len() == 2,
{
    assert(((v as u8) as u16) | ((((v >> 8u16) as u8) as u16) << 8u16) == v) by (bit_vector);
}

/// Decoding the encoding of a `u32` gives it back.
pub proof fn lemma_u32_roundtrip(v: u32)
    ensures
        u32_from_le(u32_le(v)) == v,
        u32_le(v).len() == 4,
{
    assert(((v as u8) as u32) | ((((v >> 8u32) as u8) as u32) << 8u32) | ((((v >> 16u32) as u8) as u32)
        << 16u32) | ((((v >> 24u32) as u8) as u32) << 24u32) == v) by (bit_vector);
}

/// Decoding the encoding of a `u64` gives it back.
pub proof fn lemma_u64_roundtrip(v: u64)
    ensures
        u64_from_le(u64_le(v)) == v,
        u64_le(v).len() == 8,
{
    let lo = (v as u32);
    let hi = ((v >> 32u64) as u32);
    assert(u64_le(v).subrange(0, 4) =~= u32_le(lo)) by {
        assert((lo as u8) == (v as u8)) by (bit_vector)
            requires lo == v as u32;
        assert((lo >> 8u32) as u8 == (v >> 8u64) as u8) by (bit_vector)
            requires lo == v as u32;
        assert((lo >> 16u32) as u8 == (v >> 16u64) as u8) by (bit_vector)
            requires lo == v as u32;
        assert((lo >> 24u32) as u8 == (v >> 24u64) as u8) by (bit_vector)
            requires lo == v as u32;
    }
    assert(u64_le(v).subrange(4, 8) =~= u32_le(hi)) by {
        assert((hi as u8) == (v >> 32u64) as u8) by (bit_vector)
            requires hi == (v >> 32u64) as u32;
        assert((hi >> 8u32) as u8 == (v >> 40u64) as u8) by (bit_vector)
            requires hi == (v >> 32u64) as u32;
        assert((hi >> 16u32) as u8 == (v >> 48u64) as u8) by (bit_vector)
            requires hi == (v >> 32u64) as u32;
        assert((hi >> 24u32) as u8 == (v >> 56u64) as u8) by (bit_vector)
            requires hi == (v >> 32u64) as u32;
    }
    lemma_u32_roundtrip(lo);
    lemma_u32_roundtrip(hi);
    assert(u32_from_le(u64_le(v)) == u32_from_le(u64_le(v).subrange(0, 4)));
    assert((lo as u64) | ((hi as u64) << 32u64) == v) by (bit_vector)
        requires
            lo == v as u32,
            hi == (v >> 32u64) as u32,
    ;
}

/// Decoding the encoding of an `i32` gives it back.
pub proof fn lemma_i32_roundtrip(v: i32)
    ensures
        i32_from_le(i32_le(v)) == v,
        i32_le(v).len() == 4,
{
    lemma_u32_roundtrip(v as u32);
    assert(((v as u32) as i32) == v) by (bit_vector);
}

/// Decoding the encoding of an `i64` gives it back.
pub proof fn lemma_i64_roundtrip(v: i64)
    ensures
        i64_from_le(i64_le(v)) == v,
        i64_le(v).len() == 8,
{
    lemma_u64_roundtrip(v as u64);
    assert(((v as u64) as i64) == v) by (bit_vector);
}

/// Encoding the `u16` read from two bytes gives the bytes back.
pub proof fn lemma_u16_bytes(s: Seq<u8>)
    requires
        s.len() == 2,
    ensures
        u16_le(u16_from_le(s)) =~= s,
{
    let b0 = s[0];
    let b1 = s[1];
    let v = u16_from_le(s);
    assert(v as u8 == b0 && (v >> 8u16) as u8 == b1) by (bit_vector)
        requires
            v == (b0 as u16) | ((b1 as u16) << 8u16),
    ;
}

/// Encoding the `u32` read from four bytes gives the bytes back.
pub proof fn lemma_u32_bytes(s: Seq<u8>)
    requires
        s.len() == 4,
    ensures
        u32_le(u32_from_le(s)) =~= s,
{
    let b0 = s[0];
    let b1 = s[1];
    let b2 = s[2];
    let b3 = s[3];
    let v = u32_from_le(s);
    assert(v as u8 == b0 && (v >> 8u32) as u8 == b1 && (v >> 16u32) as u8 == b2 && (v >> 24u32)
        as u8 == b3) by (bit_vector)
        requires
            v == (b0 as u32) | ((b1 as u32) << 8u32) | ((b2 as u32) << 16u32) | ((b3 as u32)
                << 24u32),
    ;
}

/// Encoding the `u64` read from eight bytes gives the bytes back.
pub proof fn lemma_u64_bytes(s: Seq<u8>)
    requires
        s.len() == 8,
    ensures
        u64_le(u64_from_le(s)) =~= s,
{
    let lo = u32_from_le(s);
    let hi = u32_from_le(s.subrange(4, 8));
    lemma_u32_bytes(s.subrange(0, 4));
    assert(u32_from_le(s.subrange(0, 4)) == lo);
    lemma_u32_bytes(s.subrange(4, 8));
    let v = u64_from_le(s);
    assert(v as u8 == lo as u8 && (v >> 8u64) as u8 == (lo >> 8u32) as u8 && (v >> 16u64) as u8
        == (lo >> 16u32) as u8 && (v >> 24u64) as u8 == (lo >> 24u32) as u8 && (v >> 32u64) as u8
        == hi as u8 && (v >> 40u64) as u8 == (hi >> 8u32) as u8 && (v >> 48u64) as u8 == (hi
        >> 16u32) as u8 && (v >> 56u64) as u8 == (hi >> 24u32) as u8) by (bit_vector)
        requires
            v == (lo as u64) | ((hi as u64) << 32u64),
    ;
    assert(s.subrange(0, 4)[0] == s[0]);
}

/// Encoding the `i32` read from four bytes gives the bytes back.
pub proof fn lemma_i32_bytes(s: Seq<u8>)
    requires
        s.len() == 4,
    ensures
        i32_le(i32_from_le(s)) =~= s,
{
    let u = u32_from_le(s);
    assert(((u as i32) as u32) == u) by (bit_vector);
    lemma_u32_bytes(s);
}

/// Encoding the `i64` read from eight bytes gives the bytes back.
pub proof fn lemma_i64_bytes(s: Seq<u8>)
    requires
        s.len() == 8,
    ensures
        i64_le(i64_from_le(s)) =~= s,
{
    let u = u64_from_le(s);
    assert(((u as i64) as u64) == u) by (bit_vector);
    lemma_u64_bytes(s);
}

/// Appends the little-endian bytes of `v`.
pub fn push_u16_le(out: &mut Vec<u8>, v: u16)
    ensures
        final(out)@ == old(out)@ + u16_le(v),
{
    out.push(v as u8);
    out.push((v >> 8u16) as u8);
    assert(final(out)@ =~= old(out)@ + u16_le(v));
}

/// Appends the little-endian bytes of `v`.
pub fn push_u32_le(out: &mut Vec<u8>, v: u32)
    ensures
        final(out)@ == old(out)@ + u32_le(v),
{
    out.push(v as u8);
    out.push((v >> 8u32) as u8);
    out.push((v >> 16u32) as u8);
    out.push((v >> 24u32) as u8);
    assert(final(out)@ =~= old(out)@ + u32_le(v));
}

/// Appends the little-endian bytes of `v`.
pub fn push_u64_le(out: &mut Vec<u8>, v: u64)
    ensures
        final(out)@ == old(out)@ + u64_le(v),
{
    out.push(v as u8);
    out.push((v >> 8u64) as u8);
    out.push((v >> 16u64) as u8);
    out.push((v >> 24u64) as u8);
    out.push((v >> 32u64) as u8);
    out.push((v >> 40u64) as u8);
    out.push((v >> 48u64) as u8);
    out.push((v >> 56u64) as u8);
    assert(final(out)@ =~= old(out)@ + u64_le(v));
}

/// Appends the little-endian bytes of `v`.
pub fn push_i32_le(out: &mut Vec<u8>, v: i32)
    ensures
        final(out)@ == old(out)@ + i32_le(v),
{
    push_u32_le(out, v as u32);
}

/// Appends the little-endian bytes of `v`.
pub fn push_i64_le(out: &mut Vec<u8>, v: i64)
    ensures
        final(out)@ == old(out)@ + i64_le(v),
{
    push_u64_le(out, v as u64);
}

/// Reads a little-endian `u16` at `off`.
pub fn read_u16_le(buf: &[u8], off: usize) -> (r: u16)
    requires
        off + 2 <= buf@.len(),
    ensures
        r == u16_from_le(buf@.subrange(off as int, off + 2)),
{
    (buf[off] as u16) | ((buf[off + 1] as u16) << 8u16)
}

/// Reads a little-endian `u32` at `off`.
pub fn read_u32_le(buf: &[u8], off: usize) -> (r: u32)
    requires
        off + 4 <= buf@.len(),
    ensures
        r == u32_from_le(buf@.subrange(off as int, off + 4)),
{
    (buf[off] as u32) | ((buf[off + 1] as u32) << 8u32) | ((buf[off + 2] as u32) << 16u32) | ((
    buf[off + 3] as u32) << 24u32)
}

/// Reads a little-endian `u64` at `off`.
pub fn read_u64_le(buf: &[u8], off: usize) -> (r: u64)
    requires
        off + 8 <= buf@.len(),
    ensures
        r == u64_from_le(buf@.subrange(off as int, off + 8)),
{
    let _n = buf.len();
    let lo = read_u32_le(buf, off);
    let hi = read_u32_le(buf, off + 4);
    assert(buf@.subrange(off as int, off + 8).subrange(4, 8) =~= buf@.subrange(off + 4, off + 8));
    assert(buf@.subrange(off as int, off + 8).subrange(0, 4) =~= buf@.subrange(off as int, off + 4));
    assert(u32_from_le(buf@.subrange(off as int, off + 8)) == u32_from_le(buf@.subrange(off as int, off + 4)));
    (lo as u64) | ((hi as u64) << 32u64)
}

/// Reads a little-endian `i32` at `off`.
pub fn read_i32_le(buf: &[u8], off: usize) -> (r: i32)
    requires
        off + 4 <= buf@.len(),
    ensures
        r == i32_from_le(buf@.subrange(off as int, off + 4)),
{
    read_u32_le(buf, off) as i32
}

/// Reads a little-endian `i64` at `off`.
pub fn read_i64_le(buf: &[u8], off: usize) -> (r: i64)
    requires
        off + 8 <= buf@.len(),
    ensures
        r == i64_from_le(buf@.subrange(off as int, off + 8)),
{
    read_u64_le(buf, off) as i64
}

} // verus!
