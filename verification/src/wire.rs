//! Big-endian integers, as every field of an audit trail stores them.

use byteorder::BigEndian;
use byteorder::ByteOrder;
use vstd::prelude::*;
use vstd::slice::slice_subrange;

verus! {

/// The 16-bit value whose big-endian encoding is `s[at], s[at + 1]`.
pub open spec fn be_u16(s: Seq<u8>, at: int) -> u16 {
    (s[at] as int * 0x100 + s[at + 1] as int) as u16
}

/// The 32-bit value whose big-endian encoding is the four bytes of `s` from `at`.
pub open spec fn be_u32(s: Seq<u8>, at: int) -> u32 {
    (be_u16(s, at) as int * 0x1_0000 + be_u16(s, at + 2) as int) as u32
}

/// The 64-bit value whose big-endian encoding is the eight bytes of `s` from `at`.
pub open spec fn be_u64(s: Seq<u8>, at: int) -> u64 {
    (be_u32(s, at) as int * 0x1_0000_0000 + be_u32(s, at + 4) as int) as u64
}

/// The 128-bit value whose big-endian encoding is the sixteen bytes of `s` from `at`.
pub open spec fn be_u128(s: Seq<u8>, at: int) -> u128 {
    (be_u64(s, at) as int * 0x1_0000_0000_0000_0000 + be_u64(s, at + 8) as int) as u128
}

/// The big-endian encoding of a 16-bit value.
#[verifier::opaque]
pub open spec fn u16_bytes(v: u16) -> Seq<u8> {
    seq![(v / 0x100) as u8, (v % 0x100) as u8]
}

/// The big-endian encoding of a 32-bit value.
#[verifier::opaque]
pub open spec fn u32_bytes(v: u32) -> Seq<u8> {
    u16_bytes((v / 0x1_0000) as u16) + u16_bytes((v % 0x1_0000) as u16)
}

/// The big-endian encoding of a 64-bit value.
#[verifier::opaque]
pub open spec fn u64_bytes(v: u64) -> Seq<u8> {
    u32_bytes((v / 0x1_0000_0000) as u32) + u32_bytes((v % 0x1_0000_0000) as u32)
}

/// The big-endian encoding of a 128-bit value.
#[verifier::opaque]
pub open spec fn u128_bytes(v: u128) -> Seq<u8> {
    u64_bytes((v / 0x1_0000_0000_0000_0000) as u64) + u64_bytes(
        (v % 0x1_0000_0000_0000_0000) as u64,
    )
}

/// An encoded 16-bit value takes two bytes, and reading them back gives the
/// value, wherever the encoding lies in the buffer.
pub proof fn lemma_u16_round_trip(s: Seq<u8>, at: int, v: u16)
    requires
        0 <= at,
        at + 2 <= s.len(),
        s.subrange(at, at + 2) == u16_bytes(v),
    ensures
        be_u16(s, at) == v,
{
    reveal(u16_bytes);
    let enc = u16_bytes(v);
    assert(s[at] == s.subrange(at, at + 2)[0]);
    assert(s[at + 1] == s.subrange(at, at + 2)[1]);
    assert(enc[0] == (v / 0x100) as u8);
    assert(enc[1] == (v % 0x100) as u8);
}

/// Reading back an encoded 32-bit value gives the value.
pub proof fn lemma_u32_round_trip(s: Seq<u8>, at: int, v: u32)
    requires
        0 <= at,
        at + 4 <= s.len(),
        s.subrange(at, at + 4) == u32_bytes(v),
    ensures
        be_u32(s, at) == v,
{
    reveal(u32_bytes);
    let hi = (v / 0x1_0000) as u16;
    let lo = (v % 0x1_0000) as u16;
    let enc = s.subrange(at, at + 4);
    lemma_encoded_len(hi as u128);
    lemma_encoded_len(lo as u128);
    assert(s.subrange(at, at + 2) =~= enc.subrange(0, 2));
    assert(s.subrange(at + 2, at + 4) =~= enc.subrange(2, 4));
    assert(enc.subrange(0, 2) =~= u16_bytes(hi));
    assert(enc.subrange(2, 4) =~= u16_bytes(lo));
    lemma_u16_round_trip(s, at, hi);
    lemma_u16_round_trip(s, at + 2, lo);
}

/// Reading back an encoded 64-bit value gives the value.
pub proof fn lemma_u64_round_trip(s: Seq<u8>, at: int, v: u64)
    requires
        0 <= at,
        at + 8 <= s.len(),
        s.subrange(at, at + 8) == u64_bytes(v),
    ensures
        be_u64(s, at) == v,
{
    reveal(u64_bytes);
    let hi = (v / 0x1_0000_0000) as u32;
    let lo = (v % 0x1_0000_0000) as u32;
    let enc = s.subrange(at, at + 8);
    lemma_encoded_len(hi as u128);
    lemma_encoded_len(lo as u128);
    assert(s.subrange(at, at + 4) =~= enc.subrange(0, 4));
    assert(s.subrange(at + 4, at + 8) =~= enc.subrange(4, 8));
    assert(enc.subrange(0, 4) =~= u32_bytes(hi));
    assert(enc.subrange(4, 8) =~= u32_bytes(lo));
    lemma_u32_round_trip(s, at, hi);
    lemma_u32_round_trip(s, at + 4, lo);
}

/// Reading back an encoded 128-bit value gives the value.
pub proof fn lemma_u128_round_trip(s: Seq<u8>, at: int, v: u128)
    requires
        0 <= at,
        at + 16 <= s.len(),
        s.subrange(at, at + 16) == u128_bytes(v),
    ensures
        be_u128(s, at) == v,
{
    reveal(u128_bytes);
    let hi = (v / 0x1_0000_0000_0000_0000) as u64;
    let lo = (v % 0x1_0000_0000_0000_0000) as u64;
    let enc = s.subrange(at, at + 16);
    lemma_encoded_len(hi as u128);
    lemma_encoded_len(lo as u128);
    assert(s.subrange(at, at + 8) =~= enc.subrange(0, 8));
    assert(s.subrange(at + 8, at + 16) =~= enc.subrange(8, 16));
    assert(enc.subrange(0, 8) =~= u64_bytes(hi));
    assert(enc.subrange(8, 16) =~= u64_bytes(lo));
    lemma_u64_round_trip(s, at, hi);
    lemma_u64_round_trip(s, at + 8, lo);
}

/// An encoding is as long as its width: two, four, eight or sixteen bytes.
pub proof fn lemma_encoded_len(v: u128)
    ensures
        v <= u16::MAX ==> u16_bytes(v as u16).len() == 2,
        v <= u32::MAX ==> u32_bytes(v as u32).len() == 4,
        v <= u64::MAX ==> u64_bytes(v as u64).len() == 8,
        u128_bytes(v).len() == 16,
{
    reveal(u16_bytes);
    reveal(u32_bytes);
    reveal(u64_bytes);
    reveal(u128_bytes);
}

/// `byteorder::BigEndian::read_u16`: the big-endian value of the first two
/// bytes of `buf`. The call panics on a shorter buffer, which `requires`
/// rules out.
#[verifier::external_body]
fn read_u16(buf: &[u8]) -> (value: u16)
    requires
        buf@.len() >= 2,
    ensures
        value == be_u16(buf@, 0),
{
    BigEndian::read_u16(buf)
}

/// `byteorder::BigEndian::read_u32`: the big-endian value of the first four
/// bytes of `buf`. The call panics on a shorter buffer, which `requires`
/// rules out.
#[verifier::external_body]
fn read_u32(buf: &[u8]) -> (value: u32)
    requires
        buf@.len() >= 4,
    ensures
        value == be_u32(buf@, 0),
{
    BigEndian::read_u32(buf)
}

/// `byteorder::BigEndian::read_u64`: the big-endian value of the first eight
/// bytes of `buf`. The call panics on a shorter buffer, which `requires`
/// rules out.
#[verifier::external_body]
fn read_u64(buf: &[u8]) -> (value: u64)
    requires
        buf@.len() >= 8,
    ensures
        value == be_u64(buf@, 0),
{
    BigEndian::read_u64(buf)
}

/// `byteorder::BigEndian::read_u128`: the big-endian value of the first
/// sixteen bytes of `buf`. The call panics on a shorter buffer, which
/// `requires` rules out.
#[verifier::external_body]
fn read_u128(buf: &[u8]) -> (value: u128)
    requires
        buf@.len() >= 16,
    ensures
        value == be_u128(buf@, 0),
{
    BigEndian::read_u128(buf)
}

/// The 16-bit big-endian field of `buf` that starts at `at`.
pub fn u16_at(buf: &[u8], at: usize) -> (value: u16)
    requires
        at + 2 <= buf.len(),
    ensures
        value == be_u16(buf@, at as int),
{
    read_u16(slice_subrange(buf, at, at + 2))
}

/// The 32-bit big-endian field of `buf` that starts at `at`.
pub fn u32_at(buf: &[u8], at: usize) -> (value: u32)
    requires
        at + 4 <= buf.len(),
    ensures
        value == be_u32(buf@, at as int),
{
    read_u32(slice_subrange(buf, at, at + 4))
}

/// The 64-bit big-endian field of `buf` that starts at `at`.
pub fn u64_at(buf: &[u8], at: usize) -> (value: u64)
    requires
        at + 8 <= buf.len(),
    ensures
        value == be_u64(buf@, at as int),
{
    read_u64(slice_subrange(buf, at, at + 8))
}

/// The 128-bit big-endian field of `buf` that starts at `at`.
pub fn u128_at(buf: &[u8], at: usize) -> (value: u128)
    requires
        at + 16 <= buf.len(),
    ensures
        value == be_u128(buf@, at as int),
{
    read_u128(slice_subrange(buf, at, at + 16))
}

} // verus!
