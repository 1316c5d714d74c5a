//! Fixed-width integer encodings of keys and values, big-endian and little-endian.

use byteorder::{BigEndian, ByteOrder, LittleEndian};
use vstd::prelude::*;

verus! {

/// The two bytes of `n`, most significant first.
pub open spec fn be_u16(n: u16) -> Seq<u8> {
    seq![(n / 0x100) as u8, (n % 0x100) as u8]
}

/// The four bytes of `n`, most significant first.
pub open spec fn be_u32(n: u32) -> Seq<u8> {
    seq![
        (n / 0x100_0000) as u8,
        (n / 0x1_0000 % 0x100) as u8,
        (n / 0x100 % 0x100) as u8,
        (n % 0x100) as u8,
    ]
}

/// The eight bytes of `n`, most significant first.
pub open spec fn be_u64(n: u64) -> Seq<u8> {
    be_u32((n / 0x1_0000_0000) as u32) + be_u32((n % 0x1_0000_0000) as u32)
}

/// The two bytes of `n`, least significant first.
pub open spec fn le_u16(n: u16) -> Seq<u8> {
    seq![(n % 0x100) as u8, (n / 0x100) as u8]
}

/// The four bytes of `n`, least significant first.
pub open spec fn le_u32(n: u32) -> Seq<u8> {
    seq![
        (n % 0x100) as u8,
        (n / 0x100 % 0x100) as u8,
        (n / 0x1_0000 % 0x100) as u8,
        (n / 0x100_0000) as u8,
    ]
}

/// The eight bytes of `n`, least significant first.
pub open spec fn le_u64(n: u64) -> Seq<u8> {
    le_u32((n % 0x1_0000_0000) as u32) + le_u32((n / 0x1_0000_0000) as u32)
}

/// The number whose big-endian encoding is the first two bytes of `s`.
pub open spec fn u16_of_be(s: Seq<u8>) -> u16 {
    (s[0] as int * 0x100 + s[1] as int) as u16
}

/// The number whose big-endian encoding is the first four bytes of `s`.
pub open spec fn u32_of_be(s: Seq<u8>) -> u32 {
    (s[0] as int * 0x100_0000 + s[1] as int * 0x1_0000 + s[2] as int * 0x100 + s[3] as int) as u32
}

/// The number whose big-endian encoding is the first eight bytes of `s`.
pub open spec fn u64_of_be(s: Seq<u8>) -> u64 {
    (u32_of_be(s) as int * 0x1_0000_0000 + u32_of_be(s.subrange(4, 8)) as int) as u64
}

/// The number whose little-endian encoding is the first two bytes of `s`.
pub open spec fn u16_of_le(s: Seq<u8>) -> u16 {
    (s[0] as int + s[1] as int * 0x100) as u16
}

/// The number whose little-endian encoding is the first four bytes of `s`.
pub open spec fn u32_of_le(s: Seq<u8>) -> u32 {
    (s[0] as int + s[1] as int * 0x100 + s[2] as int * 0x1_0000 + s[3] as int * 0x100_0000) as u32
}

/// The number whose little-endian encoding is the first eight bytes of `s`.
pub open spec fn u64_of_le(s: Seq<u8>) -> u64 {
    (u32_of_le(s) as int + u32_of_le(s.subrange(4, 8)) as int * 0x1_0000_0000) as u64
}

/// The unsigned number with the same 64 bits as `n` in two's complement.
pub open spec fn bits_of_i64(n: i64) -> u64 {
    if n >= 0 {
        n as u64
    } else {
        (n + 0x1_0000_0000_0000_0000) as u64
    }
}

/// The signed number with the same 64 bits as `n` in two's complement.
pub open spec fn i64_of_bits(n: u64) -> i64 {
    if n < 0x8000_0000_0000_0000 {
        n as i64
    } else {
        (n - 0x1_0000_0000_0000_0000) as i64
    }
}

/// The eight bytes of `n` in two's complement, most significant first.
pub open spec fn be_i64(n: i64) -> Seq<u8> {
    be_u64(bits_of_i64(n))
}

/// The eight bytes of `n` in two's complement, least significant first.
pub open spec fn le_i64(n: i64) -> Seq<u8> {
    le_u64(bits_of_i64(n))
}

/// The signed number whose big-endian two's complement is the first eight bytes of `s`.
pub open spec fn i64_of_be(s: Seq<u8>) -> i64 {
    i64_of_bits(u64_of_be(s))
}

/// The signed number whose little-endian two's complement is the first eight bytes of `s`.
pub open spec fn i64_of_le(s: Seq<u8>) -> i64 {
    i64_of_bits(u64_of_le(s))
}

/// Calls `BigEndian::read_u16` of byteorder. Trusted: the result is the number
/// that the first two bytes of `buf` spell, most significant byte first.
#[verifier::external_body]
pub(crate) fn read_u16_be(buf: &[u8]) -> (n: u16)
    requires
        buf@.len() >= 2,
    ensures
        n == u16_of_be(buf@),
{
    BigEndian::read_u16(buf)
}

/// Calls `BigEndian::read_u32` of byteorder. Trusted: the result is the number
/// that the first four bytes of `buf` spell, most significant byte first.
#[verifier::external_body]
pub(crate) fn read_u32_be(buf: &[u8]) -> (n: u32)
    requires
        buf@.len() >= 4,
    ensures
        n == u32_of_be(buf@),
{
    BigEndian::read_u32(buf)
}

/// Calls `BigEndian::read_i64` of byteorder. Trusted: the result is the signed
/// number whose two's complement the first eight bytes of `buf` spell, most
/// significant byte first.
#[verifier::external_body]
pub(crate) fn read_i64_be(buf: &[u8]) -> (n: i64)
    requires
        buf@.len() >= 8,
    ensures
        n == i64_of_be(buf@),
{
    BigEndian::read_i64(buf)
}

/// Calls `BigEndian::write_u16` of byteorder on a buffer of two bytes. Trusted:
/// the buffer then holds the two bytes of `n`, most significant first.
#[verifier::external_body]
pub(crate) fn write_u16_be(n: u16) -> (bytes: Vec<u8>)
    ensures
        bytes@ == be_u16(n),
{
    let mut buf = vec![0u8; 2];
    BigEndian::write_u16(&mut buf, n);
    buf
}

/// Calls `BigEndian::write_u32` of byteorder on a buffer of four bytes. Trusted:
/// the buffer then holds the four bytes of `n`, most significant first.
#[verifier::external_body]
pub(crate) fn write_u32_be(n: u32) -> (bytes: Vec<u8>)
    ensures
        bytes@ == be_u32(n),
{
    let mut buf = vec![0u8; 4];
    BigEndian::write_u32(&mut buf, n);
    buf
}

/// Calls `BigEndian::write_i64` of byteorder on a buffer of eight bytes. Trusted:
/// the buffer then holds the two's complement of `n`, most significant byte first.
#[verifier::external_body]
pub(crate) fn write_i64_be(n: i64) -> (bytes: Vec<u8>)
    ensures
        bytes@ == be_i64(n),
{
    let mut buf = vec![0u8; 8];
    BigEndian::write_i64(&mut buf, n);
    buf
}

/// Calls `LittleEndian::read_u16` of byteorder. Trusted: the result is the number
/// that the first two bytes of `buf` spell, least significant byte first.
#[verifier::external_body]
pub(crate) fn read_u16_le(buf: &[u8]) -> (n: u16)
    requires
        buf@.len() >= 2,
    ensures
        n == u16_of_le(buf@),
{
    LittleEndian::read_u16(buf)
}

/// Calls `LittleEndian::read_u32` of byteorder. Trusted: the result is the number
/// that the first four bytes of `buf` spell, least significant byte first.
#[verifier::external_body]
pub(crate) fn read_u32_le(buf: &[u8]) -> (n: u32)
    requires
        buf@.len() >= 4,
    ensures
        n == u32_of_le(buf@),
{
    LittleEndian::read_u32(buf)
}

/// Calls `LittleEndian::read_i64` of byteorder. Trusted: the result is the signed
/// number whose two's complement the first eight bytes of `buf` spell, least
/// significant byte first.
#[verifier::external_body]
pub(crate) fn read_i64_le(buf: &[u8]) -> (n: i64)
    requires
        buf@.len() >= 8,
    ensures
        n == i64_of_le(buf@),
{
    LittleEndian::read_i64(buf)
}

/// Calls `LittleEndian::write_u16` of byteorder on a buffer of two bytes. Trusted:
/// the buffer then holds the two bytes of `n`, least significant first.
#[verifier::external_body]
pub(crate) fn write_u16_le(n: u16) -> (bytes: Vec<u8>)
    ensures
        bytes@ == le_u16(n),
{
    let mut buf = vec![0u8; 2];
    LittleEndian::write_u16(&mut buf, n);
    buf
}

/// Calls `LittleEndian::write_u32` of byteorder on a buffer of four bytes. Trusted:
/// the buffer then holds the four bytes of `n`, least significant first.
#[verifier::external_body]
pub(crate) fn write_u32_le(n: u32) -> (bytes: Vec<u8>)
    ensures
        bytes@ == le_u32(n),
{
    let mut buf = vec![0u8; 4];
    LittleEndian::write_u32(&mut buf, n);
    buf
}

/// Calls `LittleEndian::write_i64` of byteorder on a buffer of eight bytes. Trusted:
/// the buffer then holds the two's complement of `n`, least significant byte first.
#[verifier::external_body]
pub(crate) fn write_i64_le(n: i64) -> (bytes: Vec<u8>)
    ensures
        bytes@ == le_i64(n),
{
    let mut buf = vec![0u8; 8];
    LittleEndian::write_i64(&mut buf, n);
    buf
}

proof fn lemma_u16_round_trip(a: u16)
    ensures
        u16_of_be(be_u16(a)) == a,
        u16_of_le(le_u16(a)) == a,
{
}

proof fn lemma_u32_round_trip(b: u32)
    ensures
        u32_of_be(be_u32(b)) == b,
        u32_of_le(le_u32(b)) == b,
{
    let b0 = b % 0x100;
    let b1 = b / 0x100 % 0x100;
    let b2 = b / 0x1_0000 % 0x100;
    let b3 = b / 0x100_0000;
    assert(b == b0 + b1 * 0x100 + b2 * 0x1_0000 + b3 * 0x100_0000);
    assert(be_u32(b)[0] == b3 && be_u32(b)[1] == b2 && be_u32(b)[2] == b1 && be_u32(b)[3] == b0);
    assert(le_u32(b)[0] == b0 && le_u32(b)[1] == b1 && le_u32(b)[2] == b2 && le_u32(b)[3] == b3);
}

proof fn lemma_u64_round_trip(c: u64)
    ensures
        u64_of_be(be_u64(c)) == c,
        u64_of_le(le_u64(c)) == c,
{
    let hi = (c / 0x1_0000_0000) as u32;
    let lo = (c % 0x1_0000_0000) as u32;
    lemma_u32_round_trip(hi);
    lemma_u32_round_trip(lo);
    assert(be_u64(c).subrange(4, 8) =~= be_u32(lo));
    assert(le_u64(c).subrange(4, 8) =~= le_u32(hi));
    assert(u32_of_be(be_u64(c)) == u32_of_be(be_u32(hi)));
    assert(u32_of_le(le_u64(c)) == u32_of_le(le_u32(lo)));
}

/// Decoding undoes encoding, for every width and byte order.
pub proof fn lemma_decode_encode(a: u16, b: u32, c: u64, d: i64)
    ensures
        u16_of_be(be_u16(a)) == a,
        u16_of_le(le_u16(a)) == a,
        u32_of_be(be_u32(b)) == b,
        u32_of_le(le_u32(b)) == b,
        u64_of_be(be_u64(c)) == c,
        u64_of_le(le_u64(c)) == c,
        i64_of_be(be_i64(d)) == d,
        i64_of_le(le_i64(d)) == d,
{
    lemma_u16_round_trip(a);
    lemma_u32_round_trip(b);
    lemma_u64_round_trip(c);
    lemma_u64_round_trip(bits_of_i64(d));
}

proof fn lemma_u16_bytes_round_trip(s: Seq<u8>)
    requires
        s.len() == 2,
    ensures
        be_u16(u16_of_be(s)) == s,
        le_u16(u16_of_le(s)) == s,
{
    let x = s[0] as int;
    let y = s[1] as int;
    assert((x * 0x100 + y) / 0x100 == x && (x * 0x100 + y) % 0x100 == y);
    assert((y + x * 0x100) / 0x100 == x && (y + x * 0x100) % 0x100 == y);
    assert(be_u16(u16_of_be(s)) =~= s);
    let x = s[1] as int;
    let y = s[0] as int;
    assert((y + x * 0x100) / 0x100 == x && (y + x * 0x100) % 0x100 == y);
    assert(le_u16(u16_of_le(s)) =~= s);
}

proof fn lemma_digits(b0: int, b1: int, b2: int, b3: int)
    requires
        0 <= b0 < 0x100,
        0 <= b1 < 0x100,
        0 <= b2 < 0x100,
        0 <= b3 < 0x100,
    ensures
        ({
            let n = b0 + b1 * 0x100 + b2 * 0x1_0000 + b3 * 0x100_0000;
            &&& 0 <= n < 0x1_0000_0000
            &&& n % 0x100 == b0
            &&& n / 0x100 % 0x100 == b1
            &&& n / 0x1_0000 % 0x100 == b2
            &&& n / 0x100_0000 == b3
        }),
{
}

proof fn lemma_u32_bytes_round_trip(s: Seq<u8>)
    requires
        s.len() == 4,
    ensures
        be_u32(u32_of_be(s)) == s,
        le_u32(u32_of_le(s)) == s,
{
    lemma_digits(s[3] as int, s[2] as int, s[1] as int, s[0] as int);
    assert(be_u32(u32_of_be(s)) =~= s);
    lemma_digits(s[0] as int, s[1] as int, s[2] as int, s[3] as int);
    assert(le_u32(u32_of_le(s)) =~= s);
}

proof fn lemma_u64_bytes_round_trip(s: Seq<u8>)
    requires
        s.len() == 8,
    ensures
        be_u64(u64_of_be(s)) == s,
        le_u64(u64_of_le(s)) == s,
{
    let front = s.subrange(0, 4);
    let back = s.subrange(4, 8);
    lemma_u32_bytes_round_trip(front);
    lemma_u32_bytes_round_trip(back);
    assert(u32_of_be(s) == u32_of_be(front));
    assert(u32_of_le(s) == u32_of_le(front));
    let hi = u32_of_be(front) as int;
    let lo = u32_of_be(back) as int;
    assert((hi * 0x1_0000_0000 + lo) / 0x1_0000_0000 == hi && (hi * 0x1_0000_0000 + lo)
        % 0x1_0000_0000 == lo);
    assert(be_u64(u64_of_be(s)) =~= front + back);
    let lo = u32_of_le(front) as int;
    let hi = u32_of_le(back) as int;
    assert((lo + hi * 0x1_0000_0000) / 0x1_0000_0000 == hi && (lo + hi * 0x1_0000_0000)
        % 0x1_0000_0000 == lo);
    assert(le_u64(u64_of_le(s)) =~= front + back);
    assert(front + back =~= s);
}

/// Encoding undoes decoding, on byte strings of exactly the encoded width.
pub proof fn lemma_encode_decode(s: Seq<u8>)
    ensures
        s.len() == 2 ==> be_u16(u16_of_be(s)) == s && le_u16(u16_of_le(s)) == s,
        s.len() == 4 ==> be_u32(u32_of_be(s)) == s && le_u32(u32_of_le(s)) == s,
        s.len() == 8 ==> be_u64(u64_of_be(s)) == s && le_u64(u64_of_le(s)) == s,
        s.len() == 8 ==> be_i64(i64_of_be(s)) == s && le_i64(i64_of_le(s)) == s,
{
    if s.len() == 2 {
        lemma_u16_bytes_round_trip(s);
    }
    if s.len() == 4 {
        lemma_u32_bytes_round_trip(s);
    }
    if s.len() == 8 {
        lemma_u64_bytes_round_trip(s);
        assert(bits_of_i64(i64_of_bits(u64_of_be(s))) == u64_of_be(s));
        assert(bits_of_i64(i64_of_bits(u64_of_le(s))) == u64_of_le(s));
    }
}

} // verus!
