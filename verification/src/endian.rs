//! Big-endian integers in byte streams.
//!
//! Every integer of the binary formats is stored with its most significant
//! byte first.

use vstd::prelude::*;
use byteorder::{BigEndian, ByteOrder};

verus! {

/// The number that the bytes spell, most significant byte first.
pub open spec fn be_value(bytes: Seq<u8>) -> nat
    decreases bytes.len(),
{
    if bytes.len() == 0 {
        0
    } else {
        be_value(bytes.drop_last()) * 256 + bytes.last() as nat
    }
}

/// The `n` bytes that spell `v`, most significant byte first.
pub open spec fn be_bytes(v: nat, n: nat) -> Seq<u8>
    decreases n,
{
    if n == 0 {
        Seq::empty()
    } else {
        be_bytes(v / 256, (n - 1) as nat).push((v % 256) as u8)
    }
}

/// 256 to the power `n`: how many numbers `n` bytes can spell.
pub open spec fn radix_pow(n: nat) -> nat
    decreases n,
{
    if n == 0 {
        1
    } else {
        256 * radix_pow((n - 1) as nat)
    }
}

pub proof fn lemma_be_bytes_len(v: nat, n: nat)
    ensures
        be_bytes(v, n).len() == n,
    decreases n,
{
    if n > 0 {
        lemma_be_bytes_len(v / 256, (n - 1) as nat);
    }
}

/// Spelling a number and reading it back gives the number.
pub proof fn lemma_be_round_trip(v: nat, n: nat)
    requires
        v < radix_pow(n),
    ensures
        be_value(be_bytes(v, n)) == v,
    decreases n,
{
    if n > 0 {
        let b = be_bytes(v, n);
        assert(b.drop_last() =~= be_bytes(v / 256, (n - 1) as nat));
        lemma_be_round_trip(v / 256, (n - 1) as nat);
    }
}

/// What two, four and eight bytes can spell.
pub proof fn lemma_radix_pow_values()
    ensures
        radix_pow(2) == 0x1_0000,
        radix_pow(4) == 0x1_0000_0000,
        radix_pow(8) == 0x1_0000_0000_0000_0000,
{
    reveal_with_fuel(radix_pow, 9);
}

/// The 16-bit number stored at `pos`.
///
/// Trusted: calls `byteorder::BigEndian::read_u16`, which reads the first
/// two bytes of the slice it is given as a big-endian number and panics on
/// a shorter slice.
#[verifier::external_body]
pub(crate) fn read_u16_at(src: &[u8], pos: usize) -> (r: u16)
    requires
        pos + 2 <= src@.len(),
    ensures
        r == be_value(src@.subrange(pos as int, pos + 2)),
{
    BigEndian::read_u16(&src[pos..])
}

/// The 32-bit number stored at `pos`.
///
/// Trusted: calls `byteorder::BigEndian::read_u32`, which reads the first
/// four bytes of the slice it is given as a big-endian number and panics on
/// a shorter slice.
#[verifier::external_body]
pub(crate) fn read_u32_at(src: &[u8], pos: usize) -> (r: u32)
    requires
        pos + 4 <= src@.len(),
    ensures
        r == be_value(src@.subrange(pos as int, pos + 4)),
{
    BigEndian::read_u32(&src[pos..])
}

/// The 64-bit number stored at `pos`.
///
/// Trusted: calls `byteorder::BigEndian::read_u64`, which reads the first
/// eight bytes of the slice it is given as a big-endian number and panics
/// on a shorter slice.
#[verifier::external_body]
pub(crate) fn read_u64_at(src: &[u8], pos: usize) -> (r: u64)
    requires
        pos + 8 <= src@.len(),
    ensures
        r == be_value(src@.subrange(pos as int, pos + 8)),
{
    BigEndian::read_u64(&src[pos..])
}

/// Appends the two bytes of `v`.
///
/// Trusted: calls `byteorder::BigEndian::write_u16`, which fills the first
/// two bytes of the buffer with `v`, most significant byte first.
#[verifier::external_body]
pub(crate) fn append_u16(out: &mut Vec<u8>, v: u16)
    ensures
        final(out)@ == old(out)@ + be_bytes(v as nat, 2),
{
    let mut buf = [0u8; 2];
    BigEndian::write_u16(&mut buf, v);
    out.extend_from_slice(&buf);
}

/// Appends the four bytes of `v`.
///
/// Trusted: calls `byteorder::BigEndian::write_u32`, which fills the first
/// four bytes of the buffer with `v`, most significant byte first.
#[verifier::external_body]
pub(crate) fn append_u32(out: &mut Vec<u8>, v: u32)
    ensures
        final(out)@ == old(out)@ + be_bytes(v as nat, 4),
{
    let mut buf = [0u8; 4];
    BigEndian::write_u32(&mut buf, v);
    out.extend_from_slice(&buf);
}

/// Appends the eight bytes of `v`.
///
/// Trusted: calls `byteorder::BigEndian::write_u64`, which fills the first
/// eight bytes of the buffer with `v`, most significant byte first.
#[verifier::external_body]
pub(crate) fn append_u64(out: &mut Vec<u8>, v: u64)
    ensures
        final(out)@ == old(out)@ + be_bytes(v as nat, 8),
{
    let mut buf = [0u8; 8];
    BigEndian::write_u64(&mut buf, v);
    out.extend_from_slice(&buf);
}

} // verus!
