//! Little-endian numbers in a run of bytes.

use byteorder::{ByteOrder, LittleEndian};
use vstd::prelude::*;

verus! {

/// The number that `bytes` spell, least significant byte first.
pub open spec fn le_value(bytes: Seq<u8>) -> nat
    decreases bytes.len(),
{
    if bytes.len() == 0 {
        0
    } else {
        bytes[0] as nat + 256 * le_value(bytes.drop_first())
    }
}

/// The signed number that the unsigned `value` stands for in two's
/// complement, where `half` is the least value with the sign bit set.
pub open spec fn signed_value(value: nat, half: nat) -> int {
    if value < half {
        value as int
    } else {
        value - 2 * half
    }
}

/// `byteorder::LittleEndian::read_u16`: the unsigned number in the first
/// two bytes of `buf`, least significant byte first. It panics on a
/// shorter `buf`.
#[verifier::external_body]
pub(crate) fn read_u16_le(buf: &[u8]) -> (value: u16)
    requires
        buf@.len() >= 2,
    ensures
        value == le_value(buf@.take(2)),
{
    LittleEndian::read_u16(buf)
}

/// `byteorder::LittleEndian::read_u32`: the unsigned number in the first
/// four bytes of `buf`, least significant byte first. It panics on a
/// shorter `buf`.
#[verifier::external_body]
pub(crate) fn read_u32_le(buf: &[u8]) -> (value: u32)
    requires
        buf@.len() >= 4,
    ensures
        value == le_value(buf@.take(4)),
{
    LittleEndian::read_u32(buf)
}

/// `byteorder::LittleEndian::read_u64`: the unsigned number in the first
/// eight bytes of `buf`, least significant byte first. It panics on a
/// shorter `buf`.
#[verifier::external_body]
pub(crate) fn read_u64_le(buf: &[u8]) -> (value: u64)
    requires
        buf@.len() >= 8,
    ensures
        value == le_value(buf@.take(8)),
{
    LittleEndian::read_u64(buf)
}

/// `byteorder::LittleEndian::read_i16`: the first two bytes of `buf`, read
/// as for `read_u16` and taken as a number in two's complement. It panics
/// on a shorter `buf`.
#[verifier::external_body]
pub(crate) fn read_i16_le(buf: &[u8]) -> (value: i16)
    requires
        buf@.len() >= 2,
    ensures
        value == signed_value(le_value(buf@.take(2)), 0x8000),
{
    LittleEndian::read_i16(buf)
}

/// `byteorder::LittleEndian::read_i32`: the first four bytes of `buf`, read
/// as for `read_u32` and taken as a number in two's complement. It panics
/// on a shorter `buf`.
#[verifier::external_body]
pub(crate) fn read_i32_le(buf: &[u8]) -> (value: i32)
    requires
        buf@.len() >= 4,
    ensures
        value == signed_value(le_value(buf@.take(4)), 0x8000_0000),
{
    LittleEndian::read_i32(buf)
}

/// `byteorder::LittleEndian::read_i64`: the first eight bytes of `buf`,
/// read as for `read_u64` and taken as a number in two's complement. It
/// panics on a shorter `buf`.
#[verifier::external_body]
pub(crate) fn read_i64_le(buf: &[u8]) -> (value: i64)
    requires
        buf@.len() >= 8,
    ensures
        value == signed_value(le_value(buf@.take(8)), 0x8000_0000_0000_0000),
{
    LittleEndian::read_i64(buf)
}

} // verus!
