//! Niched options: an optional number that is never zero, archived in
//! the size of the number, with zero standing for no number.

use vstd::prelude::*;
use vstd::bytes::{
    lemma_auto_spec_u32_to_from_le_bytes, spec_u32_from_le_bytes, spec_u32_to_le_bytes,
    u32_to_le_bytes,
};

use crate::error::{AccessError, SerializeError};
use crate::place::Place;
use crate::primitive::{
    check_readable, lemma_overwrite_all, lemma_prefix_subrange, spec_readable, spec_unreadable,
};
use crate::rel_ptr::read_u32;
use crate::ser::Writer;
use crate::with::{ArchiveWith, DeserializeWith, Niche, SerializeWith};

verus! {

/// A number that is not zero.
#[derive(Clone, Copy, Debug)]
pub struct NonZero {
    value: u32,
}

impl NonZero {
    #[verifier::type_invariant]
    closed spec fn inv(&self) -> bool {
        self.value != 0
    }

    /// The number.
    pub closed spec fn spec_get(&self) -> u32 {
        self.value
    }

    /// The non-zero number that holds `value`, unless `value` is zero.
    pub fn new(value: u32) -> (r: Option<NonZero>)
        ensures
            r is Some <==> value != 0,
            r matches Some(n) ==> n.spec_get() == value,
    {
        if value == 0 {
            None
        } else {
            Some(NonZero { value })
        }
    }

    /// The number, which is not zero.
    pub fn get(&self) -> (value: u32)
        ensures
            value == self.spec_get(),
            value != 0,
    {
        proof {
            use_type_invariant(self);
        }
        self.value
    }
}

/// The number that stands for an optional non-zero number: zero for no
/// number.
pub open spec fn spec_niche(field: Option<NonZero>) -> u32 {
    match field {
        Some(n) => n.spec_get(),
        None => 0,
    }
}

impl ArchiveWith<Option<NonZero>> for Niche {
    type Resolver = ();

    type Value = u32;

    open spec fn spec_value(field: Option<NonZero>) -> u32 {
        spec_niche(field)
    }

    open spec fn spec_size() -> int {
        4
    }

    open spec fn spec_align() -> int {
        4
    }

    open spec fn spec_serialized_len(v: u32, start: int) -> int {
        0
    }

    open spec fn spec_resolves(buf: Seq<u8>, v: u32, r: ()) -> bool {
        true
    }

    open spec fn spec_resolve(v: u32, r: (), at: int) -> Seq<u8> {
        spec_u32_to_le_bytes(v)
    }

    open spec fn spec_access(buf: Seq<u8>, at: int) -> Option<u32> {
        if spec_readable(buf, at, 4) {
            Some(spec_u32_from_le_bytes(buf.subrange(at, at + 4)))
        } else {
            None
        }
    }

    open spec fn spec_access_error(buf: Seq<u8>, at: int) -> AccessError {
        spec_unreadable(at, 4)
    }

    proof fn lemma_layout() {
    }

    proof fn lemma_serialized_len(v: u32, start: int) {
    }

    proof fn lemma_resolve_len(v: u32, r: (), at: int) {
        lemma_auto_spec_u32_to_from_le_bytes();
    }

    proof fn lemma_resolves_extends(buf: Seq<u8>, longer: Seq<u8>, v: u32, r: ()) {
    }

    proof fn lemma_access_extends(buf: Seq<u8>, longer: Seq<u8>, at: int) {
        lemma_prefix_subrange(buf, longer, at, at + 4);
    }

    proof fn lemma_round_trip(buf: Seq<u8>, v: u32, r: (), at: int) {
        lemma_auto_spec_u32_to_from_le_bytes();
        assert(spec_u32_to_le_bytes(v).len() == 4);
    }

    fn archived_size() -> (n: usize) {
        4
    }

    fn archived_align() -> (a: usize) {
        4
    }

    fn resolve_with(field: &Option<NonZero>, r: (), place: &mut Place) {
        let number = match field {
            Some(n) => n.get(),
            None => 0,
        };
        let bytes = u32_to_le_bytes(number);
        place.write(0, bytes.as_slice());
        proof {
            lemma_overwrite_all(old(place)@, bytes@);
        }
    }
}

impl SerializeWith<Option<NonZero>> for Niche {
    fn serialize_with(field: &Option<NonZero>, w: &mut Writer) -> (r: Result<(), SerializeError>) {
        assert(w@.subrange(0, w@.len() as int) =~= w@);
        Ok(())
    }
}

impl DeserializeWith<Option<NonZero>> for Niche {
    fn check_with(buf: &[u8], at: usize) -> (r: Result<(), AccessError>) {
        check_readable(buf, at, 4)
    }

    fn deserialize_with(buf: &[u8], at: usize) -> (field: Option<NonZero>) {
        let _ = buf.len();
        NonZero::new(read_u32(buf, at))
    }
}

} // verus!
