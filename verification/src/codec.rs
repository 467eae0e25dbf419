//! Fixed-width little-endian integers, the only encoding used on disk.

use vstd::prelude::*;

verus! {

/// The two bytes of `x`, low byte first.
pub open spec fn le_u16(x: u16) -> Seq<u8> {
    seq![(x % 256) as u8, (x / 256) as u8]
}

/// The value whose low byte is `b[0]` and whose high byte is `b[1]`.
pub open spec fn from_le_u16(b: Seq<u8>) -> u16
    recommends
        b.len() >= 2,
{
    (b[0] as int + 256 * (b[1] as int)) as u16
}

/// The four bytes of `x`, lowest byte first.
pub open spec fn le_u32(x: u32) -> Seq<u8> {
    seq![
        (x % 256) as u8,
        ((x / 256) % 256) as u8,
        ((x / 65536) % 256) as u8,
        (x / 16777216) as u8,
    ]
}

/// The value that the first four bytes of `b` spell, lowest byte first.
pub open spec fn from_le_u32(b: Seq<u8>) -> u32
    recommends
        b.len() >= 4,
{
    (b[0] as int + 256 * (b[1] as int) + 65536 * (b[2] as int) + 16777216 * (b[3] as int)) as u32
}

/// The unsigned value with the same 32 bits as `x` (two's complement).
pub open spec fn bits_of_i32(x: i32) -> u32 {
    if x >= 0 {
        x as u32
    } else {
        (x + 0x1_0000_0000) as u32
    }
}

/// The signed value with the same 32 bits as `u` (two's complement).
pub open spec fn i32_of_bits(u: u32) -> i32 {
    if u < 0x8000_0000 {
        u as i32
    } else {
        (u - 0x1_0000_0000) as i32
    }
}

/// The four bytes of `x` in two's complement, lowest byte first.
pub open spec fn le_i32(x: i32) -> Seq<u8> {
    le_u32(bits_of_i32(x))
}

/// The signed value that the first four bytes of `b` spell.
pub open spec fn from_le_i32(b: Seq<u8>) -> i32
    recommends
        b.len() >= 4,
{
    i32_of_bits(from_le_u32(b))
}

/// `base` with `patch` written over it from index `at` on.
pub open spec fn overlay(base: Seq<u8>, at: int, patch: Seq<u8>) -> Seq<u8> {
    Seq::new(
        base.len(),
        |i: int|
            if at <= i < at + patch.len() {
                patch[i - at]
            } else {
                base[i]
            },
    )
}

/// `n` zero bytes.
pub open spec fn zeros(n: nat) -> Seq<u8> {
    Seq::new(n, |i: int| 0u8)
}

/// Decoding undoes encoding, for each width.
pub proof fn lemma_le_round_trip(a: u16, b: u32, c: i32)
    ensures
        le_u16(a).len() == 2,
        le_u32(b).len() == 4,
        le_i32(c).len() == 4,
        from_le_u16(le_u16(a)) == a,
        from_le_u32(le_u32(b)) == b,
        from_le_i32(le_i32(c)) == c,
{
}

/// Encoding undoes decoding: the bytes read are the bytes that would be written.
pub proof fn lemma_le_bytes_round_trip(b2: Seq<u8>, b4: Seq<u8>)
    requires
        b2.len() == 2,
        b4.len() == 4,
    ensures
        le_u16(from_le_u16(b2)) == b2,
        le_u32(from_le_u32(b4)) == b4,
        le_i32(from_le_i32(b4)) == b4,
{
    assert(le_u16(from_le_u16(b2)) =~= b2);
    assert(le_u32(from_le_u32(b4)) =~= b4);
    assert(bits_of_i32(i32_of_bits(from_le_u32(b4))) == from_le_u32(b4));
}

/// Encodes `x` as two bytes, low byte first.
pub fn u16_to_le(x: u16) -> (r: Vec<u8>)
    ensures
        r@ == le_u16(x),
{
    let mut r: Vec<u8> = Vec::new();
    r.push((x % 256) as u8);
    r.push((x / 256) as u8);
    assert(r@ =~= le_u16(x));
    r
}

/// Reads the 16-bit value stored at `at` in `buf`.
pub fn u16_from_le(buf: &[u8], at: usize) -> (r: u16)
    requires
        at + 2 <= buf@.len(),
    ensures
        r == from_le_u16(buf@.subrange(at as int, at + 2)),
{
    let lo: u16 = buf[at] as u16;
    let hi: u16 = buf[at + 1] as u16;
    lo + 256 * hi
}

/// Encodes `x` as four bytes, lowest byte first.
pub fn u32_to_le(x: u32) -> (r: Vec<u8>)
    ensures
        r@ == le_u32(x),
{
    let mut r: Vec<u8> = Vec::new();
    r.push((x % 256) as u8);
    r.push(((x / 256) % 256) as u8);
    r.push(((x / 65536) % 256) as u8);
    r.push((x / 16777216) as u8);
    assert(r@ =~= le_u32(x));
    r
}

/// Reads the 32-bit unsigned value stored at `at` in `buf`.
pub fn u32_from_le(buf: &[u8], at: usize) -> (r: u32)
    requires
        at + 4 <= buf@.len(),
    ensures
        r == from_le_u32(buf@.subrange(at as int, at + 4)),
{
    let b0: u32 = buf[at] as u32;
    let b1: u32 = buf[at + 1] as u32;
    let b2: u32 = buf[at + 2] as u32;
    let b3: u32 = buf[at + 3] as u32;
    b0 + 256 * b1 + 65536 * b2 + 16777216 * b3
}

/// The unsigned value with the bits of `x`.
pub fn i32_to_bits(x: i32) -> (r: u32)
    ensures
        r == bits_of_i32(x),
{
    if x >= 0 {
        x as u32
    } else {
        let low: u32 = (x + 1 + i32::MAX) as u32;
        low + 0x8000_0000u32
    }
}

/// The signed value with the bits of `u`.
pub fn i32_from_bits(u: u32) -> (r: i32)
    ensures
        r == i32_of_bits(u),
{
    if u < 0x8000_0000u32 {
        u as i32
    } else {
        let low: i32 = (u - 0x8000_0000u32) as i32;
        low + i32::MIN
    }
}

/// Encodes `x` as four bytes in two's complement, lowest byte first.
pub fn i32_to_le(x: i32) -> (r: Vec<u8>)
    ensures
        r@ == le_i32(x),
{
    u32_to_le(i32_to_bits(x))
}

/// Reads the 32-bit signed value stored at `at` in `buf`.
pub fn i32_from_le(buf: &[u8], at: usize) -> (r: i32)
    requires
        at + 4 <= buf@.len(),
    ensures
        r == from_le_i32(buf@.subrange(at as int, at + 4)),
{
    i32_from_bits(u32_from_le(buf, at))
}

/// Writes `patch` into `buf` from index `at` on.
pub fn write_at(buf: &mut [u8], at: usize, patch: &[u8])
    requires
        at + patch@.len() <= old(buf)@.len(),
    ensures
        final(buf)@ == overlay(old(buf)@, at as int, patch@),
{
    let n: usize = patch.len();
    let total: usize = buf.len();
    let mut i: usize = 0;
    while i < n
        invariant
            n == patch@.len(),
            total == buf@.len(),
            i <= n,
            at + n <= total,
            buf@.len() == old(buf)@.len(),
            buf@ == overlay(old(buf)@, at as int, patch@.subrange(0, i as int)),
        decreases n - i,
    {
        buf[at + i] = patch[i];
        i += 1;
        assert(buf@ =~= overlay(old(buf)@, at as int, patch@.subrange(0, i as int)));
    }
    assert(patch@.subrange(0, i as int) =~= patch@);
}

/// A buffer of `n` zero bytes.
pub fn zero_block(n: usize) -> (r: Vec<u8>)
    ensures
        r@ == zeros(n as nat),
{
    let mut r: Vec<u8> = Vec::new();
    r.resize(n, 0u8);
    assert(r@ =~= zeros(n as nat));
    r
}

} // verus!
