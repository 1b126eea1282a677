//! Little-endian fixed-width integers, as byte sequences.

use vstd::prelude::*;

verus! {

/// The four bytes of `v`, least significant first.
#[verifier::opaque]
pub open spec fn u32_le(v: u32) -> Seq<u8> {
    seq![
        (v % 256) as u8,
        (v / 256 % 256) as u8,
        (v / 65536 % 256) as u8,
        (v / 16777216) as u8,
    ]
}

/// The value whose four little-endian bytes stand at the head of `b`.
#[verifier::opaque]
pub open spec fn u32_from_le(b: Seq<u8>) -> u32
    recommends
        b.len() >= 4,
{
    (b[0] + 256 * b[1] + 65536 * b[2] + 16777216 * b[3]) as u32
}

/// The eight bytes of `v`: the low half, then the high half.
#[verifier::opaque]
pub open spec fn u64_le(v: u64) -> Seq<u8> {
    u32_le((v % 0x1_0000_0000) as u32) + u32_le((v / 0x1_0000_0000) as u32)
}

/// The value whose eight little-endian bytes stand at the head of `b`.
#[verifier::opaque]
pub open spec fn u64_from_le(b: Seq<u8>) -> u64
    recommends
        b.len() >= 8,
{
    (u32_from_le(b) + 0x1_0000_0000 * u32_from_le(b.skip(4))) as u64
}

/// The two's-complement bit pattern of `v`.
pub open spec fn i32_bits(v: i32) -> u32 {
    if v >= 0 {
        v as u32
    } else {
        (v + 0x1_0000_0000) as u32
    }
}

/// The signed value of a two's-complement bit pattern.
pub open spec fn i32_from_bits(u: u32) -> i32 {
    if u < 0x8000_0000 {
        u as i32
    } else {
        (u - 0x1_0000_0000) as i32
    }
}

/// The four bytes of `v` in two's complement, least significant first.
pub open spec fn i32_le(v: i32) -> Seq<u8> {
    u32_le(i32_bits(v))
}

/// The signed value whose four little-endian bytes stand at the head of `b`.
pub open spec fn i32_from_le(b: Seq<u8>) -> i32
    recommends
        b.len() >= 4,
{
    i32_from_bits(u32_from_le(b))
}

/// A `u32` is read back from its own bytes, whatever follows them.
pub proof fn lemma_u32_round_trip(a: u32, rest: Seq<u8>)
    ensures
        u32_le(a).len() == 4,
        u32_from_le(u32_le(a) + rest) == a,
{
    reveal(u32_le);
    reveal(u32_from_le);
    let s = u32_le(a) + rest;
    assert(s[0] == (a % 256) as u8);
    assert(s[1] == (a / 256 % 256) as u8);
    assert(s[2] == (a / 65536 % 256) as u8);
    assert(s[3] == (a / 16777216) as u8);
}

/// Each integer is read back from its own bytes, whatever follows them.
pub proof fn lemma_le_round_trip(a: u32, b: u64, c: i32, rest: Seq<u8>)
    ensures
        u32_le(a).len() == 4,
        u64_le(b).len() == 8,
        i32_le(c).len() == 4,
        u32_from_le(u32_le(a) + rest) == a,
        u64_from_le(u64_le(b) + rest) == b,
        i32_from_le(i32_le(c) + rest) == c,
{
    reveal(u64_le);
    reveal(u64_from_le);
    let lo = (b % 0x1_0000_0000) as u32;
    let hi = (b / 0x1_0000_0000) as u32;
    lemma_u32_round_trip(a, rest);
    lemma_u32_round_trip(i32_bits(c), rest);
    lemma_u32_round_trip(lo, u32_le(hi) + rest);
    lemma_u32_round_trip(hi, rest);
    assert((u64_le(b) + rest).skip(4) =~= u32_le(hi) + rest);
    assert(u64_le(b) + rest =~= u32_le(lo) + (u32_le(hi) + rest));
}

/// Four bytes are rebuilt from the `u32` that they spell.
pub proof fn lemma_u32_le_of_value(b: Seq<u8>)
    requires
        b.len() >= 4,
    ensures
        u32_le(u32_from_le(b)) == b.take(4),
{
    reveal(u32_le);
    reveal(u32_from_le);
    let b0 = b[0] as int;
    let b1 = b[1] as int;
    let b2 = b[2] as int;
    let b3 = b[3] as int;
    let v = b0 + 256 * b1 + 65536 * b2 + 16777216 * b3;
    assert(v % 256 == b0);
    assert(v / 256 == b1 + 256 * b2 + 65536 * b3);
    assert(v / 256 % 256 == b1);
    assert(v / 65536 == b2 + 256 * b3);
    assert(v / 65536 % 256 == b2);
    assert(v / 16777216 == b3);
    assert(u32_le(u32_from_le(b)) =~= b.take(4));
}

/// Bytes are rebuilt from the integer that they spell.
pub proof fn lemma_le_bytes_of_value(b: Seq<u8>)
    ensures
        b.len() >= 4 ==> u32_le(u32_from_le(b)) == b.take(4),
        b.len() >= 4 ==> i32_le(i32_from_le(b)) == b.take(4),
        b.len() >= 8 ==> u64_le(u64_from_le(b)) == b.take(8),
{
    reveal(u64_le);
    reveal(u64_from_le);
    if b.len() >= 4 {
        lemma_u32_le_of_value(b);
        assert(i32_bits(i32_from_bits(u32_from_le(b))) == u32_from_le(b));
    }
    if b.len() >= 8 {
        let lo = u32_from_le(b);
        let hi = u32_from_le(b.skip(4));
        let v = u64_from_le(b);
        assert(v == lo + 0x1_0000_0000 * hi);
        assert((v % 0x1_0000_0000) as u32 == lo);
        assert((v / 0x1_0000_0000) as u32 == hi);
        lemma_u32_le_of_value(b.skip(4));
        assert(u64_le(v) == b.take(4) + b.skip(4).take(4));
        assert(u64_le(v) =~= b.take(8));
    }
}

/// Appends the four little-endian bytes of `v`.
pub fn put_u32_le(w: &mut Vec<u8>, v: u32)
    ensures
        final(w)@ == old(w)@ + u32_le(v),
{
    proof {
        reveal(u32_le);
    }
    w.push((v % 256) as u8);
    w.push((v / 256 % 256) as u8);
    w.push((v / 65536 % 256) as u8);
    w.push((v / 16777216) as u8);
    assert(w@ =~= old(w)@ + u32_le(v));
}

/// Appends the eight little-endian bytes of `v`.
pub fn put_u64_le(w: &mut Vec<u8>, v: u64)
    ensures
        final(w)@ == old(w)@ + u64_le(v),
{
    proof {
        reveal(u64_le);
    }
    let lo: u32 = (v % 0x1_0000_0000) as u32;
    let hi: u32 = (v / 0x1_0000_0000) as u32;
    put_u32_le(w, lo);
    put_u32_le(w, hi);
    assert(w@ =~= old(w)@ + u64_le(v));
}

/// Appends the four little-endian bytes of `v` in two's complement.
pub fn put_i32_le(w: &mut Vec<u8>, v: i32)
    ensures
        final(w)@ == old(w)@ + i32_le(v),
{
    let bits: u32 = if v >= 0 {
        v as u32
    } else {
        (v + 0x7fff_ffff + 1) as u32 + 0x8000_0000
    };
    put_u32_le(w, bits);
}

/// Reads the little-endian `u32` at offset `at`.
pub fn get_u32_le(buf: &[u8], at: usize) -> (v: u32)
    requires
        at + 4 <= buf.len(),
    ensures
        v == u32_from_le(buf@.skip(at as int)),
{
    proof {
        reveal(u32_from_le);
    }
    let b0: u32 = buf[at] as u32;
    let b1: u32 = buf[at + 1] as u32;
    let b2: u32 = buf[at + 2] as u32;
    let b3: u32 = buf[at + 3] as u32;
    b0 + 256 * b1 + 65536 * b2 + 16777216 * b3
}

/// Reads the little-endian `u64` at offset `at`.
pub fn get_u64_le(buf: &[u8], at: usize) -> (v: u64)
    requires
        at + 8 <= buf.len(),
    ensures
        v == u64_from_le(buf@.skip(at as int)),
{
    proof {
        reveal(u64_from_le);
    }
    let lo: u64 = get_u32_le(buf, at) as u64;
    let hi: u64 = get_u32_le(buf, at + 4) as u64;
    assert(buf@.skip(at as int).skip(4) =~= buf@.skip(at + 4));
    lo + 0x1_0000_0000 * hi
}

/// Reads the little-endian two's-complement `i32` at offset `at`.
pub fn get_i32_le(buf: &[u8], at: usize) -> (v: i32)
    requires
        at + 4 <= buf.len(),
    ensures
        v == i32_from_le(buf@.skip(at as int)),
{
    let bits: u32 = get_u32_le(buf, at);
    if bits < 0x8000_0000 {
        bits as i32
    } else {
        (bits - 0x8000_0000) as i32 - 0x7fff_ffff - 1
    }
}

} // verus!
