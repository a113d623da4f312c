//! Little-endian integer encoding for the on-disk formats: byte layouts,
//! appenders, and cursor readers that refuse to read past the end.

use vstd::prelude::*;

verus! {

pub open spec fn u16_le(v: u16) -> Seq<u8> {
    seq![(v & 0xff) as u8, (v >> 8) as u8]
}

pub open spec fn u32_le(v: u32) -> Seq<u8> {
    seq![(v & 0xff) as u8, ((v >> 8) & 0xff) as u8, ((v >> 16) & 0xff) as u8, (v >> 24) as u8]
}

pub open spec fn u64_le(v: u64) -> Seq<u8> {
    seq![
        (v & 0xff) as u8,
        ((v >> 8) & 0xff) as u8,
        ((v >> 16) & 0xff) as u8,
        ((v >> 24) & 0xff) as u8,
        ((v >> 32) & 0xff) as u8,
        ((v >> 40) & 0xff) as u8,
        ((v >> 48) & 0xff) as u8,
        (v >> 56) as u8,
    ]
}

/// The `u16` stored little-endian at `at`.
pub open spec fn le_u16(b: Seq<u8>, at: int) -> u16 {
    ((b[at] as u16) | ((b[at + 1] as u16) << 8u16)) as u16
}

/// The `u32` stored little-endian at `at`.
pub open spec fn le_u32(b: Seq<u8>, at: int) -> u32 {
    ((b[at] as u32) | ((b[at + 1] as u32) << 8u32) | ((b[at + 2] as u32) << 16u32) | ((b[at
        + 3] as u32) << 24u32)) as u32
}

/// The `u64` stored little-endian at `at`.
pub open spec fn le_u64(b: Seq<u8>, at: int) -> u64 {
    ((b[at] as u64) | ((b[at + 1] as u64) << 8u64) | ((b[at + 2] as u64) << 16u64) | ((b[at
        + 3] as u64) << 24u64) | ((b[at + 4] as u64) << 32u64) | ((b[at + 5] as u64) << 40u64)
        | ((b[at + 6] as u64) << 48u64) | ((b[at + 7] as u64) << 56u64)) as u64
}

proof fn lemma_u16_bytes(v: u16, b0: u8, b1: u8)
    by (bit_vector)
    requires
        b0 == (v & 0xff) as u8,
        b1 == (v >> 8) as u8,
    ensures
        ((b0 as u16) | ((b1 as u16) << 8u16)) == v,
{
}

proof fn lemma_u32_bytes(v: u32, b0: u8, b1: u8, b2: u8, b3: u8)
    by (bit_vector)
    requires
        b0 == (v & 0xff) as u8,
        b1 == ((v >> 8) & 0xff) as u8,
        b2 == ((v >> 16) & 0xff) as u8,
        b3 == (v >> 24) as u8,
    ensures
        ((b0 as u32) | ((b1 as u32) << 8u32) | ((b2 as u32) << 16u32) | ((b3 as u32) << 24u32))
            == v,
{
}

proof fn lemma_u64_bytes(
    v: u64,
    b0: u8,
    b1: u8,
    b2: u8,
    b3: u8,
    b4: u8,
    b5: u8,
    b6: u8,
    b7: u8,
)
    by (bit_vector)
    requires
        b0 == (v & 0xff) as u8,
        b1 == ((v >> 8) & 0xff) as u8,
        b2 == ((v >> 16) & 0xff) as u8,
        b3 == ((v >> 24) & 0xff) as u8,
        b4 == ((v >> 32) & 0xff) as u8,
        b5 == ((v >> 40) & 0xff) as u8,
        b6 == ((v >> 48) & 0xff) as u8,
        b7 == (v >> 56) as u8,
    ensures
        ((b0 as u64) | ((b1 as u64) << 8u64) | ((b2 as u64) << 16u64) | ((b3 as u64) << 24u64) | ((
        b4 as u64) << 32u64) | ((b5 as u64) << 40u64) | ((b6 as u64) << 48u64) | ((b7 as u64)
            << 56u64)) == v,
{
}

/// Decoding an encoded `u16` gives it back.
pub proof fn lemma_le_u16_roundtrip(b: Seq<u8>, at: int, v: u16)
    requires
        0 <= at,
        at + 2 <= b.len(),
        b.subrange(at, at + 2) == u16_le(v),
    ensures
        le_u16(b, at) == v,
{
    assert(b[at] == b.subrange(at, at + 2)[0]);
    assert(b[at + 1] == b.subrange(at, at + 2)[1]);
    lemma_u16_bytes(v, b[at], b[at + 1]);
}

/// Decoding an encoded `u32` gives it back.
pub proof fn lemma_le_u32_roundtrip(b: Seq<u8>, at: int, v: u32)
    requires
        0 <= at,
        at + 4 <= b.len(),
        b.subrange(at, at + 4) == u32_le(v),
    ensures
        le_u32(b, at) == v,
{
    let s = b.subrange(at, at + 4);
    assert(b[at] == s[0] && b[at + 1] == s[1] && b[at + 2] == s[2] && b[at + 3] == s[3]);
    lemma_u32_bytes(v, b[at], b[at + 1], b[at + 2], b[at + 3]);
}

/// Decoding an encoded `u64` gives it back.
pub proof fn lemma_le_u64_roundtrip(b: Seq<u8>, at: int, v: u64)
    requires
        0 <= at,
        at + 8 <= b.len(),
        b.subrange(at, at + 8) == u64_le(v),
    ensures
        le_u64(b, at) == v,
{
    let s = b.subrange(at, at + 8);
    assert(b[at] == s[0] && b[at + 1] == s[1] && b[at + 2] == s[2] && b[at + 3] == s[3]);
    assert(b[at + 4] == s[4] && b[at + 5] == s[5] && b[at + 6] == s[6] && b[at + 7] == s[7]);
    lemma_u64_bytes(
        v,
        b[at],
        b[at + 1],
        b[at + 2],
        b[at + 3],
        b[at + 4],
        b[at + 5],
        b[at + 6],
        b[at + 7],
    );
}

pub fn push_u16(out: &mut Vec<u8>, v: u16)
    ensures
        final(out)@ == old(out)@ + u16_le(v),
{
    out.push((v & 0xff) as u8);
    out.push((v >> 8) as u8);
    assert(out@ =~= old(out)@ + u16_le(v));
}

pub fn push_u32(out: &mut Vec<u8>, v: u32)
    ensures
        final(out)@ == old(out)@ + u32_le(v),
{
    out.push((v & 0xff) as u8);
    out.push(((v >> 8) & 0xff) as u8);
    out.push(((v >> 16) & 0xff) as u8);
    out.push((v >> 24) as u8);
    assert(out@ =~= old(out)@ + u32_le(v));
}

pub fn push_u64(out: &mut Vec<u8>, v: u64)
    ensures
        final(out)@ == old(out)@ + u64_le(v),
{
    out.push((v & 0xff) as u8);
    out.push(((v >> 8) & 0xff) as u8);
    out.push(((v >> 16) & 0xff) as u8);
    out.push(((v >> 24) & 0xff) as u8);
    out.push(((v >> 32) & 0xff) as u8);
    out.push(((v >> 40) & 0xff) as u8);
    out.push(((v >> 48) & 0xff) as u8);
    out.push((v >> 56) as u8);
    assert(out@ =~= old(out)@ + u64_le(v));
}

/// Reads the byte at the cursor and advances it; `None` (cursor unchanged) past the end.
pub fn take_u8(bytes: &[u8], c: &mut usize) -> (r: Option<u8>)
    ensures
        *old(c) + 1 <= bytes@.len() ==> r == Some(bytes@[*old(c) as int]) && *final(c) == *old(c)
            + 1,
        *old(c) + 1 > bytes@.len() ==> r is None && *final(c) == *old(c),
{
    if *c < bytes.len() {
        let v = bytes[*c];
        *c = *c + 1;
        Some(v)
    } else {
        None
    }
}

/// Reads a little-endian `u16` at the cursor and advances it; `None` (cursor unchanged) on truncation.
pub fn take_u16(bytes: &[u8], c: &mut usize) -> (r: Option<u16>)
    ensures
        *old(c) + 2 <= bytes@.len() ==> r == Some(le_u16(bytes@, *old(c) as int)) && *final(c)
            == *old(c) + 2,
        *old(c) + 2 > bytes@.len() ==> r is None && *final(c) == *old(c),
{
    if *c <= bytes.len() && bytes.len() - *c >= 2 {
        let at = *c;
        let v: u16 = (bytes[at] as u16) | ((bytes[at + 1] as u16) << 8u16);
        *c = at + 2;
        Some(v)
    } else {
        None
    }
}

/// Reads a little-endian `u32` at the cursor and advances it; `None` (cursor unchanged) on truncation.
pub fn take_u32(bytes: &[u8], c: &mut usize) -> (r: Option<u32>)
    ensures
        *old(c) + 4 <= bytes@.len() ==> r == Some(le_u32(bytes@, *old(c) as int)) && *final(c)
            == *old(c) + 4,
        *old(c) + 4 > bytes@.len() ==> r is None && *final(c) == *old(c),
{
    if *c <= bytes.len() && bytes.len() - *c >= 4 {
        let at = *c;
        let v: u32 = (bytes[at] as u32) | ((bytes[at + 1] as u32) << 8u32) | ((bytes[at + 2] as u32)
            << 16u32) | ((bytes[at + 3] as u32) << 24u32);
        *c = at + 4;
        Some(v)
    } else {
        None
    }
}

/// Reads a little-endian `u64` at the cursor and advances it; `None` (cursor unchanged) on truncation.
pub fn take_u64(bytes: &[u8], c: &mut usize) -> (r: Option<u64>)
    ensures
        *old(c) + 8 <= bytes@.len() ==> r == Some(le_u64(bytes@, *old(c) as int)) && *final(c)
            == *old(c) + 8,
        *old(c) + 8 > bytes@.len() ==> r is None && *final(c) == *old(c),
{
    if *c <= bytes.len() && bytes.len() - *c >= 8 {
        let at = *c;
        let v: u64 = (bytes[at] as u64) | ((bytes[at + 1] as u64) << 8u64) | ((bytes[at + 2] as u64)
            << 16u64) | ((bytes[at + 3] as u64) << 24u64) | ((bytes[at + 4] as u64) << 32u64) | ((
        bytes[at + 5] as u64) << 40u64) | ((bytes[at + 6] as u64) << 48u64) | ((bytes[at
            + 7] as u64) << 56u64);
        *c = at + 8;
        Some(v)
    } else {
        None
    }
}

} // verus!
