//! Little-endian protocol fields read from the front of a byte buffer and
//! written at its end.
use vstd::prelude::*;
use crate::protocol::le::{
    i32_le, i64_le, u16_le, u32_le, i32_from_le, i64_from_le, u16_from_le, u32_from_le,
    push_i32_le, push_i64_le, push_u16_le, push_u32_le, read_i32_le, read_i64_le, read_u16_le,
    read_u32_le,
};

verus! {

/// Removes the first `n` bytes of `buf`.
fn advance(buf: &mut Vec<u8>, n: usize)
    requires
        n <= old(buf)@.len(),
    ensures
        final(buf)@ == old(buf)@.skip(n as int),
{
    let mut rest: Vec<u8> = Vec::new();
    let mut i: usize = n;
    while i < buf.len()
        invariant
            n <= i <= buf@.len(),
            rest@ == buf@.subrange(n as int, i as int),
        decreases buf@.len() - i,
    {
        rest.push(buf[i]);
        i = i + 1;
    }
    *buf = rest;
}

/// Read a little-endian `i32` from the front of `buf`, consuming it.
pub fn read_i32(buf: &mut Vec<u8>) -> (r: i32)
    requires
        old(buf)@.len() >= 4,
    ensures
        r == i32_from_le(old(buf)@.take(4)),
        final(buf)@ == old(buf)@.skip(4),
{
    let r = read_i32_le(buf.as_slice(), 0);
    assert(buf@.subrange(0, 4) =~= buf@.take(4));
    advance(buf, 4);
    r
}

/// Write a little-endian `i32` at the end of `buf`.
pub fn write_i32(buf: &mut Vec<u8>, v: i32)
    ensures
        final(buf)@ == old(buf)@ + i32_le(v),
{
    push_i32_le(buf, v);
}

/// Read a little-endian `i64` from the front of `buf`, consuming it.
pub fn read_i64(buf: &mut Vec<u8>) -> (r: i64)
    requires
        old(buf)@.len() >= 8,
    ensures
        r == i64_from_le(old(buf)@.take(8)),
        final(buf)@ == old(buf)@.skip(8),
{
    let r = read_i64_le(buf.as_slice(), 0);
    assert(buf@.subrange(0, 8) =~= buf@.take(8));
    advance(buf, 8);
    r
}

/// Write a little-endian `i64` at the end of `buf`.
pub fn write_i64(buf: &mut Vec<u8>, v: i64)
    ensures
        final(buf)@ == old(buf)@ + i64_le(v),
{
    push_i64_le(buf, v);
}

/// Read a little-endian `u16` from the front of `buf`, consuming it.
pub fn read_u16(buf: &mut Vec<u8>) -> (r: u16)
    requires
        old(buf)@.len() >= 2,
    ensures
        r == u16_from_le(old(buf)@.take(2)),
        final(buf)@ == old(buf)@.skip(2),
{
    let r = read_u16_le(buf.as_slice(), 0);
    assert(buf@.subrange(0, 2) =~= buf@.take(2));
    advance(buf, 2);
    r
}

/// Write a little-endian `u16` at the end of `buf`.
pub fn write_u16(buf: &mut Vec<u8>, v: u16)
    ensures
        final(buf)@ == old(buf)@ + u16_le(v),
{
    push_u16_le(buf, v);
}

/// Read a little-endian `u32` from the front of `buf`, consuming it.
pub fn read_u32(buf: &mut Vec<u8>) -> (r: u32)
    requires
        old(buf)@.len() >= 4,
    ensures
        r == u32_from_le(old(buf)@.take(4)),
        final(buf)@ == old(buf)@.skip(4),
{
    let r = read_u32_le(buf.as_slice(), 0);
    assert(buf@.subrange(0, 4) =~= buf@.take(4));
    advance(buf, 4);
    r
}

/// Write a little-endian `u32` at the end of `buf`.
pub fn write_u32(buf: &mut Vec<u8>, v: u32)
    ensures
        final(buf)@ == old(buf)@ + u32_le(v),
{
    push_u32_le(buf, v);
}

} // verus!
