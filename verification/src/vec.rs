//! Archived lists.
//!
//! The archived form of a list is a relative pointer to the first of its
//! elements and the number of elements. The elements themselves are kept
//! out of line, in consecutive slots.

use vstd::prelude::*;
use vstd::bytes::{lemma_auto_spec_u32_to_from_le_bytes, spec_u32_to_le_bytes, u32_to_le_bytes};
use crate::archive::{is_prefix, spec_deep_view, Archive};
use crate::error::{AccessError, SerializeError};
use crate::metadata::{archived_slice_metadata, pointer_metadata};
use crate::place::Place;
use crate::primitive::lemma_prefix_subrange;
use crate::rel_ptr::{
    lemma_rel_ptr_round_trip, read_u32, rel_ptr_bytes, rel_ptr_target, spec_rel_ptr,
    spec_rel_target, spec_u32_at,
};
use crate::ser::{Writer, MAX_LEN};
use crate::slice::{
    check_slice, deserialize_slice, lemma_slot_bounds, serialize_slice, slice_get,
    spec_slice_error, spec_slice_at, spec_slice_len, spec_slice_valid, spec_slice_value,
};

verus! {

/// The size in bytes of an archived list: a relative pointer and a count.
pub const VEC_SIZE: usize = 8;

/// The alignment of an archived list.
pub const VEC_ALIGN: usize = 4;

/// A header of a relative pointer and a count can be read at `at`.
pub open spec fn spec_header_readable(buf: Seq<u8>, at: int) -> bool {
    0 <= at && at % 4 == 0 && at + 8 <= buf.len()
}

/// The error of reading a header at `at` where it cannot be read.
pub open spec fn spec_unreadable_header(buf: Seq<u8>, at: int) -> AccessError {
    if at % 4 != 0 {
        AccessError::Misaligned
    } else {
        AccessError::OutOfBounds
    }
}

/// The header of an out-of-line sequence: a relative pointer at `at` to
/// `target` and the count `n` after it.
pub open spec fn spec_header(at: int, target: int, n: int) -> Seq<u8> {
    spec_rel_ptr(at, target) + spec_u32_to_le_bytes(n as u32)
}

/// A header that was written is read back.
pub proof fn lemma_header_round_trip(buf: Seq<u8>, at: int, target: int, n: int)
    requires
        0 <= target <= at,
        at + 8 <= buf.len(),
        at <= MAX_LEN,
        0 <= n <= MAX_LEN,
        buf.subrange(at, at + 8) == spec_header(at, target, n),
    ensures
        spec_rel_target(buf, at) == target,
        spec_u32_at(buf, at + 4) == n,
        spec_header(at, target, n).len() == 8,
{
    lemma_auto_spec_u32_to_from_le_bytes();
    assert(spec_rel_ptr(at, target).len() == 4);
    assert(spec_u32_to_le_bytes(n as u32).len() == 4);
    assert(buf.subrange(at, at + 4) =~= buf.subrange(at, at + 8).subrange(0, 4));
    assert(buf.subrange(at, at + 8).subrange(0, 4) =~= spec_rel_ptr(at, target));
    assert(buf.subrange(at + 4, at + 4 + 4) =~= buf.subrange(at, at + 8).subrange(4, 8));
    assert(buf.subrange(at, at + 8).subrange(4, 8) =~= spec_u32_to_le_bytes(n as u32));
    lemma_rel_ptr_round_trip(buf, at, target);
}

/// A header reads the same in a buffer and in any buffer that extends it.
pub proof fn lemma_header_extends(buf: Seq<u8>, longer: Seq<u8>, at: int)
    requires
        is_prefix(buf, longer),
        0 <= at,
        at + 8 <= buf.len(),
    ensures
        spec_rel_target(longer, at) == spec_rel_target(buf, at),
        spec_u32_at(longer, at + 4) == spec_u32_at(buf, at + 4),
{
    lemma_prefix_subrange(buf, longer, at, at + 4);
    lemma_prefix_subrange(buf, longer, at + 4, at + 4 + 4);
}

/// Writes into a place of 8 bytes the header of an out-of-line sequence
/// of `n` elements that starts at `target`.
pub fn write_header(place: &mut Place, target: usize, n: usize)
    requires
        old(place).wf(),
        old(place)@.len() == 8,
        target <= old(place).spec_pos(),
        n <= MAX_LEN,
    ensures
        final(place).wf(),
        final(place).spec_pos() == old(place).spec_pos(),
        final(place).arena() == old(place).arena(),
        final(place)@ == spec_header(old(place).spec_pos(), target as int, n as int),
{
    let ptr = rel_ptr_bytes(place.pos(), target);
    let count = u32_to_le_bytes(n as u32);
    place.write(0, ptr.as_slice());
    place.write(4, count.as_slice());
    assert(place@ =~= spec_header(old(place).spec_pos(), target as int, n as int));
}

/// The values of the slots of a slice are the values that stand there.
pub proof fn lemma_slice_at_value<T: Archive>(buf: Seq<u8>, base: int, vs: Seq<T::V>, end: int)
    requires
        spec_slice_at::<T>(buf, base, vs),
        base + vs.len() * T::spec_size() <= end,
    ensures
        spec_slice_valid::<T>(buf, base, vs.len() as int, end),
        spec_slice_value::<T>(buf, base, vs.len() as int) == vs,
{
    assert(spec_slice_value::<T>(buf, base, vs.len() as int) =~= vs);
}

/// The slots of a slice read the same when the buffer grows.
pub proof fn lemma_slice_extends<T: Archive>(
    buf: Seq<u8>,
    longer: Seq<u8>,
    base: int,
    n: int,
    end: int,
)
    requires
        spec_slice_valid::<T>(buf, base, n, end),
        is_prefix(buf, longer),
    ensures
        spec_slice_valid::<T>(longer, base, n, end),
        spec_slice_value::<T>(longer, base, n) == spec_slice_value::<T>(buf, base, n),
{
    assert forall|i: int| 0 <= i < n implies #[trigger] T::spec_access(
        longer,
        base + i * T::spec_size(),
    ) == T::spec_access(buf, base + i * T::spec_size()) by {
        T::lemma_access_extends(buf, longer, base + i * T::spec_size());
    }
    assert(spec_slice_value::<T>(longer, base, n) =~= spec_slice_value::<T>(buf, base, n));
}

impl<T: Archive> Archive for Vec<T> {
    type Resolver = usize;

    open spec fn spec_size() -> int {
        8
    }

    open spec fn spec_align() -> int {
        4
    }

    open spec fn spec_serialized_len(v: Seq<T::V>, start: int) -> int {
        spec_slice_len::<T>(v, start)
    }

    open spec fn spec_resolves(buf: Seq<u8>, v: Seq<T::V>, r: usize) -> bool {
        spec_slice_at::<T>(buf, r as int, v)
    }

    open spec fn spec_resolve(v: Seq<T::V>, r: usize, at: int) -> Seq<u8> {
        spec_header(at, r as int, v.len() as int)
    }

    open spec fn spec_access(buf: Seq<u8>, at: int) -> Option<Seq<T::V>> {
        let target = spec_rel_target(buf, at);
        let n = spec_u32_at(buf, at + 4) as int;
        if spec_header_readable(buf, at) && spec_slice_valid::<T>(buf, target, n, at) {
            Some(spec_slice_value::<T>(buf, target, n))
        } else {
            None
        }
    }

    open spec fn spec_access_error(buf: Seq<u8>, at: int) -> AccessError {
        let target = spec_rel_target(buf, at);
        let n = spec_u32_at(buf, at + 4) as int;
        if !spec_header_readable(buf, at) {
            spec_unreadable_header(buf, at)
        } else if !(0 <= target <= at) {
            AccessError::InvalidPointer
        } else {
            spec_slice_error::<T>(buf, target, n, at)
        }
    }

    open spec fn spec_copy_optimized() -> bool {
        false
    }

    proof fn lemma_layout() {
    }

    proof fn lemma_copy_optimized(
        buf: Seq<u8>,
        v: Seq<T::V>,
        r1: usize,
        r2: usize,
        at1: int,
        at2: int,
    ) {
    }

    proof fn lemma_serialized_len(v: Seq<T::V>, start: int) {
        T::lemma_layout();
        crate::slice::lemma_prefix_len_monotone::<T>(v, start, v.len() as int, v.len() as int);
        lemma_slot_bounds(0, v.len() as int + 1, T::spec_size());
    }

    proof fn lemma_resolve_len(v: Seq<T::V>, r: usize, at: int) {
        lemma_auto_spec_u32_to_from_le_bytes();
        assert(spec_rel_ptr(at, r as int).len() == 4);
        assert(spec_u32_to_le_bytes(v.len() as u32).len() == 4);
    }

    proof fn lemma_resolves_extends(buf: Seq<u8>, longer: Seq<u8>, v: Seq<T::V>, r: usize) {
        assert forall|i: int| 0 <= i < v.len() implies #[trigger] T::spec_access(
            longer,
            r + i * T::spec_size(),
        ) == Some(v[i]) by {
            T::lemma_access_extends(buf, longer, r + i * T::spec_size());
        }
    }

    proof fn lemma_access_extends(buf: Seq<u8>, longer: Seq<u8>, at: int) {
        lemma_header_extends(buf, longer, at);
        lemma_slice_extends::<T>(
            buf,
            longer,
            spec_rel_target(buf, at),
            spec_u32_at(buf, at + 4) as int,
            at,
        );
    }

    proof fn lemma_round_trip(buf: Seq<u8>, v: Seq<T::V>, r: usize, at: int) {
        let before = buf.subrange(0, at);
        T::lemma_layout();
        lemma_slot_bounds(0, v.len() as int + 1, T::spec_size());
        assert(v.len() <= v.len() * T::spec_size()) by (nonlinear_arith)
            requires
                1 <= T::spec_size(),
        ;
        lemma_header_round_trip(buf, at, r as int, v.len() as int);
        lemma_slice_at_value::<T>(before, r as int, v, at);
        assert(is_prefix(before, buf)) by {
            assert(buf.subrange(0, before.len() as int) =~= before);
        }
        lemma_slice_extends::<T>(before, buf, r as int, v.len() as int, at);
    }

    fn copy_optimization() -> (b: bool) {
        false
    }

    fn copy_slice(slice: &[Vec<T>], out: &mut Vec<u8>) {
    }

    fn archived_size() -> (n: usize) {
        8
    }

    fn archived_align() -> (a: usize) {
        4
    }

    fn serialize(&self, w: &mut Writer) -> (r: Result<usize, SerializeError>) {
        assert(self.deep_view() =~= spec_deep_view(self@));
        serialize_slice(self.as_slice(), w)
    }

    fn resolve(&self, r: usize, place: &mut Place) {
        proof {
            T::lemma_layout();
            lemma_slot_bounds(0, self@.len() as int + 1, T::spec_size());
            assert(self@.len() <= self@.len() * T::spec_size()) by (nonlinear_arith)
                requires
                    1 <= T::spec_size(),
            ;
        }
        let count = match archived_slice_metadata(self.as_slice()) {
            Some(count) => count,
            None => unreached(),
        };
        write_header(place, r, pointer_metadata(count));
    }

    fn check(buf: &[u8], at: usize) -> (r: Result<(), AccessError>) {
        if at % 4 != 0 {
            return Err(AccessError::Misaligned);
        }
        if at > buf.len() || buf.len() - at < 8 {
            return Err(AccessError::OutOfBounds);
        }
        let n = pointer_metadata(read_u32(buf, at + 4));
        proof {
            T::lemma_layout();
            lemma_slot_bounds(0, n as int + 1, T::spec_size());
        }
        match rel_ptr_target(buf, at) {
            Some(target) => check_slice::<T>(buf, target, n, at),
            None => Err(AccessError::InvalidPointer),
        }
    }

    fn deserialize(buf: &[u8], at: usize) -> (v: Vec<T>) {
        let _ = buf.len();
        let n = pointer_metadata(read_u32(buf, at + 4));
        proof {
            T::lemma_layout();
            lemma_slot_bounds(0, n as int + 1, T::spec_size());
        }
        let target = rel_ptr_target(buf, at).unwrap();
        deserialize_slice::<T>(buf, target, n)
    }
}

/// The number of elements of the archived list at `at`, which the
/// caller attests to be well formed.
pub fn archived_len<T: Archive>(buf: &[u8], at: usize) -> (n: usize)
    requires
        <Vec<T> as Archive>::spec_access(buf@, at as int) is Some,
    ensures
        n == <Vec<T> as Archive>::spec_access(buf@, at as int).unwrap().len(),
{
    let _ = buf.len();
    pointer_metadata(read_u32(buf, at + 4))
}

/// Reads element `i` of the archived list at `at` without touching the
/// other elements. The caller attests that the list is well formed.
pub fn archived_get<T: Archive>(buf: &[u8], at: usize, i: usize) -> (x: T)
    requires
        <Vec<T> as Archive>::spec_access(buf@, at as int) is Some,
        i < <Vec<T> as Archive>::spec_access(buf@, at as int).unwrap().len(),
    ensures
        x.deep_view() == <Vec<T> as Archive>::spec_access(buf@, at as int).unwrap()[i as int],
{
    let _ = buf.len();
    let n = pointer_metadata(read_u32(buf, at + 4));
    proof {
        T::lemma_layout();
        lemma_slot_bounds(0, n as int + 1, T::spec_size());
    }
    let target = match rel_ptr_target(buf, at) {
        Some(target) => target,
        None => unreached(),
    };
    slice_get::<T>(buf, target, n, i)
}

} // verus!
