//! Relative pointers: the archived form of a pointer.
//!
//! A pointer is archived as the signed distance in bytes from its own
//! position to the position of what it points to, in 32 bits, two's
//! complement, little-endian. Its meaning does not depend on where the
//! buffer lies in memory.

use vstd::prelude::*;
use vstd::bytes::{
    lemma_auto_spec_u32_to_from_le_bytes, spec_u32_from_le_bytes, spec_u32_to_le_bytes,
    u32_from_le_bytes, u32_to_le_bytes,
};
use vstd::slice::slice_subrange;
use crate::ser::MAX_LEN;

verus! {

/// The 32 bits that stand for the offset `off`, in two's complement.
pub open spec fn spec_offset_bits(off: int) -> u32 {
    if off >= 0 {
        off as u32
    } else {
        (0x1_0000_0000 + off) as u32
    }
}

/// The offset that 32 bits stand for, in two's complement.
pub open spec fn spec_offset_value(bits: u32) -> int {
    if bits < 0x8000_0000 {
        bits as int
    } else {
        bits - 0x1_0000_0000
    }
}

/// The archived form of a pointer that stands at `at` and points to
/// `target`.
pub open spec fn spec_rel_ptr(at: int, target: int) -> Seq<u8> {
    spec_u32_to_le_bytes(spec_offset_bits(target - at))
}

/// The position that the relative pointer at `at` points to.
pub open spec fn spec_rel_target(buf: Seq<u8>, at: int) -> int {
    at + spec_offset_value(spec_u32_from_le_bytes(buf.subrange(at, at + 4)))
}

/// The 32-bit little-endian number at `at`.
pub open spec fn spec_u32_at(buf: Seq<u8>, at: int) -> u32 {
    spec_u32_from_le_bytes(buf.subrange(at, at + 4))
}

/// A relative pointer that was written at `at` with target `target`
/// is read back as `target`.
pub proof fn lemma_rel_ptr_round_trip(buf: Seq<u8>, at: int, target: int)
    requires
        0 <= at,
        at + 4 <= buf.len(),
        -0x8000_0000 <= target - at < 0x8000_0000,
        buf.subrange(at, at + 4) == spec_rel_ptr(at, target),
    ensures
        spec_rel_target(buf, at) == target,
{
    lemma_auto_spec_u32_to_from_le_bytes();
    assert(spec_u32_to_le_bytes(spec_offset_bits(target - at)).len() == 4);
}

/// The bytes of a relative pointer at `at` to the earlier position
/// `target`.
pub fn rel_ptr_bytes(at: usize, target: usize) -> (bytes: Vec<u8>)
    requires
        target <= at <= MAX_LEN,
    ensures
        bytes@ == spec_rel_ptr(at as int, target as int),
        bytes@.len() == 4,
{
    let back: u64 = (at - target) as u64;
    let bits: u32 = if back == 0 {
        0
    } else {
        (0x1_0000_0000u64 - back) as u32
    };
    u32_to_le_bytes(bits)
}

/// Reads the 32-bit little-endian number at `at`.
pub fn read_u32(buf: &[u8], at: usize) -> (x: u32)
    requires
        at + 4 <= buf@.len(),
    ensures
        x == spec_u32_at(buf@, at as int),
{
    let _ = buf.len();
    u32_from_le_bytes(slice_subrange(buf, at, at + 4))
}

/// Follows the relative pointer at `at`. Returns the position it points
/// to where that position lies at or before the pointer, and `None`
/// where the pointer leads forward or before the start of the buffer.
pub fn rel_ptr_target(buf: &[u8], at: usize) -> (r: Option<usize>)
    requires
        at + 4 <= buf@.len(),
    ensures
        r is Some <==> 0 <= spec_rel_target(buf@, at as int) <= at,
        r matches Some(t) ==> t == spec_rel_target(buf@, at as int),
{
    let bits = read_u32(buf, at);
    if bits == 0 {
        Some(at)
    } else if bits < 0x8000_0000 {
        None
    } else {
        let back: u64 = 0x1_0000_0000u64 - bits as u64;
        if back > at as u64 {
            None
        } else {
            Some(at - back as usize)
        }
    }
}

} // verus!
