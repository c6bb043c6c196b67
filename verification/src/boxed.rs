//! Archived boxes: a pointer to a value that is kept out of line.
//!
//! The archived form of a box is a relative pointer to the archived
//! value, which is written before the pointer.

use vstd::prelude::*;
use vstd::bytes::lemma_auto_spec_u32_to_from_le_bytes;
use crate::api::serialize_and_resolve;
use crate::archive::{is_prefix, spec_archived_len, Archive};
use crate::archive::spec_deep_view;
use crate::error::{AccessError, DeserializeError, SerializeError};
use crate::layout::{layout_array, spec_array_fits};
use crate::metadata::pointer_metadata;
use crate::rel_ptr::read_u32;
use crate::place::Place;
use crate::primitive::{lemma_overwrite_all, lemma_prefix_subrange};
use crate::rel_ptr::{
    lemma_rel_ptr_round_trip, rel_ptr_bytes, rel_ptr_target, spec_rel_ptr, spec_rel_target,
};
use crate::ser::{lemma_padding, Writer, MAX_LEN};

verus! {

/// A well-formed archived value of type `T` stands at `target`, before
/// `at`.
pub open spec fn spec_pointee<T: Archive>(buf: Seq<u8>, target: int, at: int) -> bool {
    0 <= target && target + T::spec_size() <= at && T::spec_access(buf, target) is Some
}

/// The value that the pointer at `at` leads to, or `None` where the
/// pointer or the value is malformed.
pub open spec fn spec_pointer_access<T: Archive>(buf: Seq<u8>, at: int) -> Option<T::V> {
    if 0 <= at && at % 4 == 0 && at + 4 <= buf.len() && spec_pointee::<T>(
        buf,
        spec_rel_target(buf, at),
        at,
    ) {
        T::spec_access(buf, spec_rel_target(buf, at))
    } else {
        None
    }
}

/// The error that checked access to a pointer gives where the pointer
/// or the value that it leads to is malformed.
pub open spec fn spec_pointer_error<T: Archive>(buf: Seq<u8>, at: int) -> AccessError {
    let target = spec_rel_target(buf, at);
    if at % 4 != 0 {
        AccessError::Misaligned
    } else if !(0 <= at && at + 4 <= buf.len()) {
        AccessError::OutOfBounds
    } else if !(0 <= target <= at) || at - target < T::spec_size() {
        AccessError::InvalidPointer
    } else {
        T::spec_access_error(buf, target)
    }
}

/// What a pointer leads to stays the same when the buffer grows.
pub proof fn lemma_pointer_extends<T: Archive>(buf: Seq<u8>, longer: Seq<u8>, at: int)
    requires
        spec_pointer_access::<T>(buf, at) is Some,
        is_prefix(buf, longer),
    ensures
        spec_pointer_access::<T>(longer, at) == spec_pointer_access::<T>(buf, at),
{
    lemma_prefix_subrange(buf, longer, at, at + 4);
    T::lemma_access_extends(buf, longer, spec_rel_target(buf, at));
}

/// A pointer that was written at `at` to a value that stands before it
/// leads to that value.
pub proof fn lemma_pointer_round_trip<T: Archive>(buf: Seq<u8>, v: T::V, target: int, at: int)
    requires
        0 <= at,
        at % 4 == 0,
        at + 4 <= buf.len() <= MAX_LEN,
        0 <= target,
        target + T::spec_size() <= at,
        T::spec_access(buf.subrange(0, at), target) == Some(v),
        buf.subrange(at, at + 4) == spec_rel_ptr(at, target),
    ensures
        spec_pointer_access::<T>(buf, at) == Some(v),
{
    T::lemma_layout();
    lemma_rel_ptr_round_trip(buf, at, target);
    assert(is_prefix(buf.subrange(0, at), buf)) by {
        assert(buf.subrange(0, at) =~= buf.subrange(0, at));
    }
    T::lemma_access_extends(buf.subrange(0, at), buf, target);
}

/// Writes into a place of 4 bytes the pointer to the earlier position
/// `target`.
pub fn write_pointer(place: &mut Place, target: usize)
    requires
        old(place).wf(),
        old(place)@.len() == 4,
        target <= old(place).spec_pos(),
    ensures
        final(place).wf(),
        final(place).spec_pos() == old(place).spec_pos(),
        final(place).arena() == old(place).arena(),
        final(place)@ == spec_rel_ptr(old(place).spec_pos(), target as int),
{
    let ptr = rel_ptr_bytes(place.pos(), target);
    place.write(0, ptr.as_slice());
    proof {
        lemma_overwrite_all(old(place)@, ptr@);
    }
}

/// Checked access to a pointer: decides whether the pointer at `at`
/// leads to a well-formed value of type `T` before it, and returns the
/// position of that value.
pub fn check_pointer<T: Archive>(buf: &[u8], at: usize) -> (r: Result<usize, AccessError>)
    ensures
        r is Ok <==> spec_pointer_access::<T>(buf@, at as int) is Some,
        r matches Ok(target) ==> target == spec_rel_target(buf@, at as int),
        r matches Err(e) ==> e == spec_pointer_error::<T>(buf@, at as int),
{
    proof {
        T::lemma_layout();
    }
    if at % 4 != 0 {
        return Err(AccessError::Misaligned);
    }
    if at > buf.len() || buf.len() - at < 4 {
        return Err(AccessError::OutOfBounds);
    }
    let target = match rel_ptr_target(buf, at) {
        Some(target) => target,
        None => {
            return Err(AccessError::InvalidPointer);
        },
    };
    if at - target < T::archived_size() {
        return Err(AccessError::InvalidPointer);
    }
    match T::check(buf, target) {
        Ok(()) => Ok(target),
        Err(e) => Err(e),
    }
}

/// Follows a pointer that the caller attests to be well formed.
pub fn pointer_target<T: Archive>(buf: &[u8], at: usize) -> (target: usize)
    requires
        spec_pointer_access::<T>(buf@, at as int) is Some,
    ensures
        target == spec_rel_target(buf@, at as int),
        T::spec_access(buf@, target as int) == spec_pointer_access::<T>(buf@, at as int),
{
    let _ = buf.len();
    proof {
        T::lemma_layout();
    }
    match rel_ptr_target(buf, at) {
        Some(target) => target,
        None => unreached(),
    }
}

impl<T: Archive> Archive for Box<T> {
    type Resolver = usize;

    open spec fn spec_size() -> int {
        4
    }

    open spec fn spec_align() -> int {
        4
    }

    open spec fn spec_serialized_len(v: T::V, start: int) -> int {
        spec_archived_len::<T>(v, start)
    }

    open spec fn spec_resolves(buf: Seq<u8>, v: T::V, r: usize) -> bool {
        r + T::spec_size() <= buf.len() && T::spec_access(buf, r as int) == Some(v)
    }

    open spec fn spec_resolve(v: T::V, r: usize, at: int) -> Seq<u8> {
        spec_rel_ptr(at, r as int)
    }

    open spec fn spec_access(buf: Seq<u8>, at: int) -> Option<T::V> {
        spec_pointer_access::<T>(buf, at)
    }

    open spec fn spec_access_error(buf: Seq<u8>, at: int) -> AccessError {
        spec_pointer_error::<T>(buf, at)
    }

    open spec fn spec_copy_optimized() -> bool {
        false
    }

    proof fn lemma_layout() {
    }

    proof fn lemma_copy_optimized(
        buf: Seq<u8>,
        v: T::V,
        r1: usize,
        r2: usize,
        at1: int,
        at2: int,
    ) {
    }

    proof fn lemma_serialized_len(v: T::V, start: int) {
        T::lemma_layout();
        T::lemma_serialized_len(v, start);
        lemma_padding(start + T::spec_serialized_len(v, start), T::spec_align());
    }

    proof fn lemma_resolve_len(v: T::V, r: usize, at: int) {
        lemma_auto_spec_u32_to_from_le_bytes();
        assert(spec_rel_ptr(at, r as int).len() == 4);
    }

    proof fn lemma_resolves_extends(buf: Seq<u8>, longer: Seq<u8>, v: T::V, r: usize) {
        T::lemma_access_extends(buf, longer, r as int);
    }

    proof fn lemma_access_extends(buf: Seq<u8>, longer: Seq<u8>, at: int) {
        lemma_pointer_extends::<T>(buf, longer, at);
    }

    proof fn lemma_round_trip(buf: Seq<u8>, v: T::V, r: usize, at: int) {
        lemma_pointer_round_trip::<T>(buf, v, r as int, at);
    }

    fn copy_optimization() -> (b: bool) {
        false
    }

    fn copy_slice(slice: &[Box<T>], out: &mut Vec<u8>) {
    }

    fn archived_size() -> (n: usize) {
        4
    }

    fn archived_align() -> (a: usize) {
        4
    }

    fn serialize(&self, w: &mut Writer) -> (r: Result<usize, SerializeError>) {
        proof {
            T::lemma_layout();
        }
        serialize_and_resolve::<T>(&**self, w)
    }

    fn resolve(&self, r: usize, place: &mut Place) {
        proof {
            T::lemma_layout();
        }
        write_pointer(place, r);
    }

    fn check(buf: &[u8], at: usize) -> (r: Result<(), AccessError>) {
        match check_pointer::<T>(buf, at) {
            Ok(_) => Ok(()),
            Err(e) => Err(e),
        }
    }

    fn deserialize(buf: &[u8], at: usize) -> (v: Box<T>) {
        let target = pointer_target::<T>(buf, at);
        Box::new(T::deserialize(buf, target))
    }
}

/// Calls `Vec::into_boxed_slice`, which turns a list into a boxed
/// slice. The contract claims that the slice holds the elements of the
/// list in their order.
#[verifier::external_body]
fn into_boxed_slice<T>(v: Vec<T>) -> (b: Box<[T]>)
    ensures
        b@ == v@,
{
    v.into_boxed_slice()
}

/// Deserializes a box of a slice from the archived list at `at`, which
/// the caller attests to be well formed: reads the number of elements,
/// computes the layout of as many live elements, and, where they can be
/// allocated, deserializes the elements into a new allocation.
pub fn deserialize_boxed_slice<T: Archive>(buf: &[u8], at: usize) -> (r: Result<
    Box<[T]>,
    DeserializeError,
>)
    requires
        <Vec<T> as Archive>::spec_access(buf@, at as int) is Some,
    ensures
        r is Ok <==> spec_array_fits::<T>(
            <Vec<T> as Archive>::spec_access(buf@, at as int).unwrap().len() as int,
        ),
        r matches Ok(b) ==> Some(spec_deep_view(b@)) == <Vec<T> as Archive>::spec_access(
            buf@,
            at as int,
        ),
        r matches Err(e) ==> e == DeserializeError::Layout,
{
    let _ = buf.len();
    let count = pointer_metadata(read_u32(buf, at + 4));
    match layout_array::<T>(count) {
        Ok(_) => {
            let elements: Vec<T> = Vec::deserialize(buf, at);
            assert(elements.deep_view() =~= spec_deep_view(elements@));
            Ok(into_boxed_slice(elements))
        },
        Err(_) => Err(DeserializeError::Layout),
    }
}

} // verus!
