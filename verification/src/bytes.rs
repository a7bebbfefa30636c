//! Little-endian encoding of fixed-width integers, read and written through
//! the `byteorder` crate.

use byteorder::{ByteOrder, LittleEndian, WriteBytesExt};
use vstd::prelude::*;

verus! {

/// The two bytes of `n`, least significant first.
pub open spec fn le_bytes_u16(n: u16) -> Seq<u8> {
    seq![n as u8, (n >> 8u16) as u8]
}

/// The four bytes of `n`, least significant first.
pub open spec fn le_bytes_u32(n: u32) -> Seq<u8> {
    seq![n as u8, (n >> 8u32) as u8, (n >> 16u32) as u8, (n >> 24u32) as u8]
}

/// The eight bytes of `n`, least significant first.
pub open spec fn le_bytes_u64(n: u64) -> Seq<u8> {
    seq![
        n as u8,
        (n >> 8u64) as u8,
        (n >> 16u64) as u8,
        (n >> 24u64) as u8,
        (n >> 32u64) as u8,
        (n >> 40u64) as u8,
        (n >> 48u64) as u8,
        (n >> 56u64) as u8,
    ]
}

/// The value of eight bytes read least significant first.
pub open spec fn u64_from_le(s: Seq<u8>) -> u64 {
    (s[0] as u64) | ((s[1] as u64) << 8u64) | ((s[2] as u64) << 16u64) | ((s[3] as u64) << 24u64)
        | ((s[4] as u64) << 32u64) | ((s[5] as u64) << 40u64) | ((s[6] as u64) << 48u64) | ((
    s[7] as u64) << 56u64)
}

/// Reading back the bytes of a `u64` gives the number.
pub proof fn lemma_u64_le_roundtrip(n: u64)
    ensures
        u64_from_le(le_bytes_u64(n)) == n,
{
    let s = le_bytes_u64(n);
    let b0 = s[0];
    let b1 = s[1];
    let b2 = s[2];
    let b3 = s[3];
    let b4 = s[4];
    let b5 = s[5];
    let b6 = s[6];
    let b7 = s[7];
    assert((b0 as u64) | ((b1 as u64) << 8u64) | ((b2 as u64) << 16u64) | ((b3 as u64) << 24u64)
        | ((b4 as u64) << 32u64) | ((b5 as u64) << 40u64) | ((b6 as u64) << 48u64) | ((
    b7 as u64) << 56u64) == n) by (bit_vector)
        requires
            b0 == n as u8,
            b1 == (n >> 8u64) as u8,
            b2 == (n >> 16u64) as u8,
            b3 == (n >> 24u64) as u8,
            b4 == (n >> 32u64) as u8,
            b5 == (n >> 40u64) as u8,
            b6 == (n >> 48u64) as u8,
            b7 == (n >> 56u64) as u8,
    ;
}

/// `LittleEndian::read_u64` of byteorder applied to `buf[at..]`: the eight
/// bytes from `at` on, read least significant first.
#[verifier::external_body]
pub(crate) fn read_u64_le(buf: &[u8], at: usize) -> (r: u64)
    requires
        at + 8 <= buf@.len(),
    ensures
        r == u64_from_le(buf@.subrange(at as int, at + 8)),
{
    LittleEndian::read_u64(&buf[at..])
}

/// `WriteBytesExt::write_u64::<LittleEndian>` of byteorder on a vector,
/// which appends the eight bytes of `n`; writing to a vector does not fail.
#[verifier::external_body]
pub(crate) fn append_u64_le(out: &mut Vec<u8>, n: u64)
    ensures
        final(out)@ == old(out)@ + le_bytes_u64(n),
{
    let _ = out.write_u64::<LittleEndian>(n);
}

/// `LittleEndian::write_u16` of byteorder applied to `buf[at..]`: the two
/// bytes from `at` on become those of `n`.
#[verifier::external_body]
pub(crate) fn write_u16_le(buf: &mut Vec<u8>, at: usize, n: u16)
    requires
        at + 2 <= old(buf)@.len(),
    ensures
        final(buf)@ == old(buf)@.subrange(0, at as int) + le_bytes_u16(n) + old(buf)@.subrange(
            at + 2,
            old(buf)@.len() as int,
        ),
{
    LittleEndian::write_u16(&mut buf[at..], n)
}

/// `LittleEndian::write_u32` of byteorder applied to `buf[at..]`: the four
/// bytes from `at` on become those of `n`.
#[verifier::external_body]
pub(crate) fn write_u32_le(buf: &mut Vec<u8>, at: usize, n: u32)
    requires
        at + 4 <= old(buf)@.len(),
    ensures
        final(buf)@ == old(buf)@.subrange(0, at as int) + le_bytes_u32(n) + old(buf)@.subrange(
            at + 4,
            old(buf)@.len() as int,
        ),
{
    LittleEndian::write_u32(&mut buf[at..], n)
}

/// `LittleEndian::write_u64` of byteorder applied to `buf[at..]`: the eight
/// bytes from `at` on become those of `n`.
#[verifier::external_body]
pub(crate) fn write_u64_le(buf: &mut Vec<u8>, at: usize, n: u64)
    requires
        at + 8 <= old(buf)@.len(),
    ensures
        final(buf)@ == old(buf)@.subrange(0, at as int) + le_bytes_u64(n) + old(buf)@.subrange(
            at + 8,
            old(buf)@.len() as int,
        ),
{
    LittleEndian::write_u64(&mut buf[at..], n)
}

} // verus!
