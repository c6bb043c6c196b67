//! Keys that can be hashed: what a hashed container needs of its keys.
//!
//! The hash of a key is computed from the key's bytes alone, so that it
//! is the same in every process and on every machine, and an archive
//! written once can be searched anywhere.

use vstd::prelude::*;
use vstd::bytes::{u16_to_le_bytes, u32_to_le_bytes, u64_to_le_bytes};
use vstd::bytes::{spec_u16_to_le_bytes, spec_u32_to_le_bytes, spec_u64_to_le_bytes};
use vstd::string::StringSliceAdditionalSpecFns;
use crate::archive::Archive;
use crate::order::{bytes_order, KeyOrder};

verus! {

/// The hash of the empty byte string.
pub const HASH_OFFSET: u64 = 0xcbf2_9ce4_8422_2325;

/// The factor of the hash function.
pub const HASH_PRIME: u64 = 0x0000_0100_0000_01b3;

/// The hash of a byte string: every byte in turn is mixed into the hash
/// by an exclusive or, and the hash is multiplied by a prime, in 64 bits.
pub open spec fn spec_hash_bytes(bytes: Seq<u8>) -> u64
    decreases bytes.len(),
{
    if bytes.len() == 0 {
        HASH_OFFSET
    } else {
        (spec_hash_bytes(bytes.drop_last()) ^ (bytes.last() as u64)).wrapping_mul(HASH_PRIME)
    }
}

/// Computes the hash of a byte string.
pub fn hash_bytes(bytes: &[u8]) -> (h: u64)
    ensures
        h == spec_hash_bytes(bytes@),
{
    let mut h: u64 = HASH_OFFSET;
    let mut i: usize = 0;
    assert(bytes@.take(0) =~= Seq::<u8>::empty());
    while i < bytes.len()
        invariant
            i <= bytes@.len(),
            h == spec_hash_bytes(bytes@.take(i as int)),
        decreases bytes@.len() - i,
    {
        proof {
            assert(bytes@.take(i + 1).drop_last() =~= bytes@.take(i as int));
        }
        h = (h ^ (bytes[i] as u64)).wrapping_mul(HASH_PRIME);
        i = i + 1;
    }
    assert(bytes@.take(i as int) =~= bytes@);
    h
}

/// An archivable type whose values can be hashed and compared.
pub trait ArchiveHash: Archive {
    /// The hash of a value.
    spec fn spec_hash(v: Self::V) -> u64;

    /// Computes the hash of the value.
    fn hash_value(&self) -> (h: u64)
        ensures
            h == Self::spec_hash(self.deep_view()),
    ;

    /// Decides whether two values are the same.
    fn same(&self, other: &Self) -> (b: bool)
        ensures
            b == (self.deep_view() == other.deep_view()),
    ;
}

impl ArchiveHash for String {
    open spec fn spec_hash(v: Seq<char>) -> u64 {
        spec_hash_bytes(vstd::utf8::encode_utf8(v))
    }

    fn hash_value(&self) -> (h: u64) {
        hash_bytes(self.as_str().as_bytes())
    }

    fn same(&self, other: &String) -> (b: bool) {
        proof {
            vstd::utf8::encode_utf8_decode_utf8(self@);
            vstd::utf8::encode_utf8_decode_utf8(other@);
        }
        match bytes_order(self.as_str().as_bytes(), other.as_str().as_bytes()) {
            KeyOrder::Same => true,
            _ => false,
        }
    }
}

impl ArchiveHash for u8 {
    open spec fn spec_hash(v: u8) -> u64 {
        spec_hash_bytes(seq![v])
    }

    fn hash_value(&self) -> (h: u64) {
        let bytes = vec![*self];
        assert(bytes@ =~= seq![*self]);
        hash_bytes(bytes.as_slice())
    }

    fn same(&self, other: &u8) -> (b: bool) {
        *self == *other
    }
}

impl ArchiveHash for u16 {
    open spec fn spec_hash(v: u16) -> u64 {
        spec_hash_bytes(spec_u16_to_le_bytes(v))
    }

    fn hash_value(&self) -> (h: u64) {
        let bytes = u16_to_le_bytes(*self);
        hash_bytes(bytes.as_slice())
    }

    fn same(&self, other: &u16) -> (b: bool) {
        *self == *other
    }
}

impl ArchiveHash for u32 {
    open spec fn spec_hash(v: u32) -> u64 {
        spec_hash_bytes(spec_u32_to_le_bytes(v))
    }

    fn hash_value(&self) -> (h: u64) {
        let bytes = u32_to_le_bytes(*self);
        hash_bytes(bytes.as_slice())
    }

    fn same(&self, other: &u32) -> (b: bool) {
        *self == *other
    }
}

impl ArchiveHash for u64 {
    open spec fn spec_hash(v: u64) -> u64 {
        spec_hash_bytes(spec_u64_to_le_bytes(v))
    }

    fn hash_value(&self) -> (h: u64) {
        let bytes = u64_to_le_bytes(*self);
        hash_bytes(bytes.as_slice())
    }

    fn same(&self, other: &u64) -> (b: bool) {
        *self == *other
    }
}

impl ArchiveHash for i16 {
    open spec fn spec_hash(v: i16) -> u64 {
        spec_hash_bytes(spec_u16_to_le_bytes(v as u16))
    }

    fn hash_value(&self) -> (h: u64) {
        let bytes = u16_to_le_bytes(*self as u16);
        hash_bytes(bytes.as_slice())
    }

    fn same(&self, other: &i16) -> (b: bool) {
        *self == *other
    }
}

impl ArchiveHash for i8 {
    open spec fn spec_hash(v: i8) -> u64 {
        spec_hash_bytes(seq![v as u8])
    }

    fn hash_value(&self) -> (h: u64) {
        let bytes = vec![*self as u8];
        assert(bytes@ =~= seq![*self as u8]);
        hash_bytes(bytes.as_slice())
    }

    fn same(&self, other: &i8) -> (b: bool) {
        *self == *other
    }
}

impl ArchiveHash for i32 {
    open spec fn spec_hash(v: i32) -> u64 {
        spec_hash_bytes(spec_u32_to_le_bytes(v as u32))
    }

    fn hash_value(&self) -> (h: u64) {
        let bytes = u32_to_le_bytes(*self as u32);
        hash_bytes(bytes.as_slice())
    }

    fn same(&self, other: &i32) -> (b: bool) {
        *self == *other
    }
}

impl ArchiveHash for i64 {
    open spec fn spec_hash(v: i64) -> u64 {
        spec_hash_bytes(spec_u64_to_le_bytes(v as u64))
    }

    fn hash_value(&self) -> (h: u64) {
        let bytes = u64_to_le_bytes(*self as u64);
        hash_bytes(bytes.as_slice())
    }

    fn same(&self, other: &i64) -> (b: bool) {
        *self == *other
    }
}

} // verus!
