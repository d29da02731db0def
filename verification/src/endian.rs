//! Integers as little-endian bytes.
use byteorder::{ByteOrder, LittleEndian};
use vstd::prelude::*;

verus! {

/// The number whose little-endian notation in base 256 is `bytes`.
pub open spec fn le_value(bytes: Seq<u8>) -> nat
    decreases bytes.len(),
{
    if bytes.len() == 0 {
        0
    } else {
        bytes[0] as nat + 256 * le_value(bytes.drop_first())
    }
}

/// The `width` lowest digits of `n` in base 256, the lowest first.
pub open spec fn le_bytes(n: nat, width: nat) -> Seq<u8>
    decreases width,
{
    if width == 0 {
        Seq::empty()
    } else {
        seq![(n % 256) as u8] + le_bytes(n / 256, (width - 1) as nat)
    }
}

/// 256 to the power of `width`.
pub open spec fn le_limit(width: nat) -> nat
    decreases width,
{
    if width == 0 {
        1
    } else {
        256 * le_limit((width - 1) as nat)
    }
}

/// A number is laid out in as many bytes as asked for.
pub proof fn lemma_le_bytes_len(n: nat, width: nat)
    ensures
        le_bytes(n, width).len() == width,
    decreases width,
{
    if width > 0 {
        lemma_le_bytes_len(n / 256, (width - 1) as nat);
    }
}

/// Reading back the bytes of a number that fits gives the number.
pub proof fn lemma_le_round_trip(n: nat, width: nat)
    requires
        n < le_limit(width),
    ensures
        le_value(le_bytes(n, width)) == n,
    decreases width,
{
    if width > 0 {
        lemma_le_round_trip(n / 256, (width - 1) as nat);
        let bytes = le_bytes(n, width);
        assert(bytes.drop_first() == le_bytes(n / 256, (width - 1) as nat));
        assert(bytes[0] == (n % 256) as u8);
    }
}

/// The limits of the integer widths in use.
pub proof fn lemma_le_limits()
    ensures
        le_limit(4) == 0x1_0000_0000,
        le_limit(8) == 0x1_0000_0000_0000_0000,
{
    reveal_with_fuel(le_limit, 9);
}

/// Calls `byteorder`'s `LittleEndian::read_u32`, which reads the first four bytes of the buffer as
/// a little-endian number. It panics on a shorter buffer.
#[verifier::external_body]
pub(crate) fn decode_u32(buf: &[u8]) -> (n: u32)
    requires
        buf@.len() == 4,
    ensures
        n == le_value(buf@),
{
    LittleEndian::read_u32(buf)
}

/// Calls `byteorder`'s `LittleEndian::read_u64`, which reads the first eight bytes of the buffer as
/// a little-endian number. It panics on a shorter buffer.
#[verifier::external_body]
pub(crate) fn decode_u64(buf: &[u8]) -> (n: u64)
    requires
        buf@.len() == 8,
    ensures
        n == le_value(buf@),
{
    LittleEndian::read_u64(buf)
}

/// Calls `byteorder`'s `LittleEndian::write_u32` on a buffer of four bytes, which it overwrites
/// with the little-endian notation of the number.
#[verifier::external_body]
pub(crate) fn encode_u32(n: u32) -> (buf: Vec<u8>)
    ensures
        buf@ == le_bytes(n as nat, 4),
{
    let mut buf = vec![0u8; 4];
    LittleEndian::write_u32(&mut buf, n);
    buf
}

/// Calls `byteorder`'s `LittleEndian::write_u64` on a buffer of eight bytes, which it overwrites
/// with the little-endian notation of the number.
#[verifier::external_body]
pub(crate) fn encode_u64(n: u64) -> (buf: Vec<u8>)
    ensures
        buf@ == le_bytes(n as nat, 8),
{
    let mut buf = vec![0u8; 8];
    LittleEndian::write_u64(&mut buf, n);
    buf
}

} // verus!
