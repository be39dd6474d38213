//! Little-endian integers inside byte sequences.

use vstd::prelude::*;

verus! {

/// The unsigned value of the two bytes of `s` that start at `o`, least significant first.
pub open spec fn le16(s: Seq<u8>, o: int) -> int {
    s[o] as int + 256 * (s[o + 1] as int)
}

/// The unsigned value of the four bytes of `s` that start at `o`, least significant first.
pub open spec fn le32(s: Seq<u8>, o: int) -> int {
    le16(s, o) + 65536 * le16(s, o + 2)
}

/// The unsigned value of the eight bytes of `s` that start at `o`, least significant first.
pub open spec fn le64(s: Seq<u8>, o: int) -> int {
    le32(s, o) + 4294967296 * le32(s, o + 4)
}

/// The two bytes that encode `x` (taken modulo 2^16), least significant first.
#[verifier::opaque]
pub open spec fn u16_bytes(x: int) -> Seq<u8> {
    seq![(x % 256) as u8, ((x / 256) % 256) as u8]
}

/// The four bytes that encode `x` (taken modulo 2^32), least significant first.
#[verifier::opaque]
pub open spec fn u32_bytes(x: int) -> Seq<u8> {
    u16_bytes(x % 65536) + u16_bytes((x / 65536) % 65536)
}

/// The eight bytes that encode `x` (taken modulo 2^64), least significant first.
#[verifier::opaque]
pub open spec fn u64_bytes(x: int) -> Seq<u8> {
    u32_bytes(x % 4294967296) + u32_bytes((x / 4294967296) % 4294967296)
}

pub broadcast proof fn lemma_u16_bytes_len(x: int)
    ensures
        #[trigger] u16_bytes(x).len() == 2,
{
    reveal(u16_bytes);
}

pub broadcast proof fn lemma_u32_bytes_len(x: int)
    ensures
        #[trigger] u32_bytes(x).len() == 4,
{
    reveal(u32_bytes);
    lemma_u16_bytes_len(x % 65536);
    lemma_u16_bytes_len((x / 65536) % 65536);
}

pub broadcast proof fn lemma_u64_bytes_len(x: int)
    ensures
        #[trigger] u64_bytes(x).len() == 8,
{
    reveal(u64_bytes);
    lemma_u32_bytes_len(x % 4294967296);
    lemma_u32_bytes_len((x / 4294967296) % 4294967296);
}

pub broadcast group group_le_lens {
    lemma_u16_bytes_len,
    lemma_u32_bytes_len,
    lemma_u64_bytes_len,
}

pub proof fn lemma_le16_of_bytes(a: Seq<u8>, x: int, b: Seq<u8>)
    requires
        0 <= x < 65536,
    ensures
        (a + u16_bytes(x) + b).len() == a.len() + 2 + b.len(),
        le16(a + u16_bytes(x) + b, a.len() as int) == x,
{
    reveal(u16_bytes);
    let s = a + u16_bytes(x) + b;
    assert(s[a.len() as int] == u16_bytes(x)[0]);
    assert(s[a.len() + 1int] == u16_bytes(x)[1]);
    assert(x % 256 + 256 * ((x / 256) % 256) == x) by (nonlinear_arith)
        requires
            0 <= x < 65536,
    ;
}

pub proof fn lemma_le32_of_bytes(a: Seq<u8>, x: int, b: Seq<u8>)
    requires
        0 <= x < 4294967296,
    ensures
        (a + u32_bytes(x) + b).len() == a.len() + 4 + b.len(),
        le32(a + u32_bytes(x) + b, a.len() as int) == x,
{
    reveal(u32_bytes);
    lemma_u16_bytes_len(x % 65536);
    let lo = x % 65536;
    let hi = (x / 65536) % 65536;
    assert(lo + 65536 * hi == x) by (nonlinear_arith)
        requires
            0 <= x < 4294967296,
            lo == x % 65536,
            hi == (x / 65536) % 65536,
    ;
    assert(a + u32_bytes(x) + b == a + u16_bytes(lo) + (u16_bytes(hi) + b));
    assert(a + u32_bytes(x) + b == (a + u16_bytes(lo)) + u16_bytes(hi) + b);
    lemma_le16_of_bytes(a, lo, u16_bytes(hi) + b);
    lemma_le16_of_bytes(a + u16_bytes(lo), hi, b);
}

pub proof fn lemma_le64_of_bytes(a: Seq<u8>, x: int, b: Seq<u8>)
    requires
        0 <= x < 18446744073709551616,
    ensures
        (a + u64_bytes(x) + b).len() == a.len() + 8 + b.len(),
        le64(a + u64_bytes(x) + b, a.len() as int) == x,
{
    reveal(u64_bytes);
    let lo = x % 4294967296;
    let hi = (x / 4294967296) % 4294967296;
    assert(lo + 4294967296 * hi == x) by (nonlinear_arith)
        requires
            0 <= x < 18446744073709551616,
            lo == x % 4294967296,
            hi == (x / 4294967296) % 4294967296,
    ;
    assert(a + u64_bytes(x) + b == a + u32_bytes(lo) + (u32_bytes(hi) + b));
    assert(a + u64_bytes(x) + b == (a + u32_bytes(lo)) + u32_bytes(hi) + b);
    lemma_le32_of_bytes(a, lo, u32_bytes(hi) + b);
    lemma_le32_of_bytes(a + u32_bytes(lo), hi, b);
}

/// The four bytes of `x` depend on `x` modulo 2^32 only.
pub proof fn lemma_u32_bytes_mod(x: int)
    requires
        0 <= x,
    ensures
        u32_bytes(x % 0x1_0000_0000) == u32_bytes(x),
{
    reveal(u32_bytes);
    let y = x % 0x1_0000_0000;
    assert(y % 65536 == x % 65536 && (y / 65536) % 65536 == (x / 65536) % 65536) by (nonlinear_arith)
        requires
            0 <= x,
            y == x % 0x1_0000_0000,
    ;
}

/// Reads the little-endian `u16` at `offset`.
pub fn read_u16_at(data: &[u8], offset: usize) -> (r: u16)
    requires
        offset + 2 <= data@.len(),
    ensures
        r as int == le16(data@, offset as int),
{
    let b0: u16 = data[offset] as u16;
    let b1: u16 = data[offset + 1] as u16;
    b0 + 256 * b1
}

/// Reads the little-endian `u32` at `offset`.
pub fn read_u32_at(data: &[u8], offset: usize) -> (r: u32)
    requires
        offset + 4 <= data@.len(),
    ensures
        r as int == le32(data@, offset as int),
{
    proof { assert(vstd::slice::spec_slice_len(data) == data@.len()); }
    let lo: u32 = read_u16_at(data, offset) as u32;
    let hi: u32 = read_u16_at(data, offset + 2) as u32;
    lo + 65536 * hi
}

/// Reads the little-endian `u64` at `offset`.
pub fn read_u64_at(data: &[u8], offset: usize) -> (r: u64)
    requires
        offset + 8 <= data@.len(),
    ensures
        r as int == le64(data@, offset as int),
{
    proof { assert(vstd::slice::spec_slice_len(data) == data@.len()); }
    let lo: u64 = read_u32_at(data, offset) as u64;
    let hi: u64 = read_u32_at(data, offset + 4) as u64;
    lo + 4294967296 * hi
}

/// Appends the little-endian bytes of `x`.
pub fn push_u16(buf: &mut Vec<u8>, x: u16)
    ensures
        final(buf)@ == old(buf)@ + u16_bytes(x as int),
{
    reveal(u16_bytes);
    buf.push((x % 256) as u8);
    buf.push(((x / 256) % 256) as u8);
    assert(final(buf)@ =~= old(buf)@ + u16_bytes(x as int));
}

/// Appends the little-endian bytes of `x`.
pub fn push_u32(buf: &mut Vec<u8>, x: u32)
    ensures
        final(buf)@ == old(buf)@ + u32_bytes(x as int),
{
    reveal(u32_bytes);
    push_u16(buf, (x % 65536) as u16);
    push_u16(buf, ((x / 65536) % 65536) as u16);
    assert(final(buf)@ =~= old(buf)@ + u32_bytes(x as int));
}

/// Appends the little-endian bytes of `x`.
pub fn push_u64(buf: &mut Vec<u8>, x: u64)
    ensures
        final(buf)@ == old(buf)@ + u64_bytes(x as int),
{
    reveal(u64_bytes);
    push_u32(buf, (x % 4294967296) as u32);
    push_u32(buf, ((x / 4294967296) % 4294967296) as u32);
    assert(final(buf)@ =~= old(buf)@ + u64_bytes(x as int));
}

/// Appends the bytes of `b`.
pub fn push_bytes(buf: &mut Vec<u8>, b: &[u8])
    ensures
        final(buf)@ == old(buf)@ + b@,
{
    let n: usize = b.len();
    let mut j: usize = 0;
    while j < n
        invariant
            n == b@.len(),
            j <= n,
            buf@ == old(buf)@ + b@.take(j as int),
        decreases n - j,
    {
        buf.push(b[j]);
        assert(b@.take(j + 1) =~= b@.take(j as int).push(b@[j as int]));
        j = j + 1;
    }
    assert(b@.take(n as int) =~= b@);
}

/// The two bytes of `x` depend on `x` modulo 2^16 only.
pub proof fn lemma_u16_bytes_mod(x: int)
    requires
        0 <= x,
    ensures
        u16_bytes(x % 65536) == u16_bytes(x),
{
    reveal(u16_bytes);
    let y = x % 65536;
    assert(y % 256 == x % 256 && (y / 256) % 256 == (x / 256) % 256) by (nonlinear_arith)
        requires
            0 <= x,
            y == x % 65536,
    ;
}

} // verus!
