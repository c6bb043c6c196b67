//! The two-phase archive protocol.
//!
//! Archiving a value takes two steps. `serialize` runs first: it appends
//! to the writer whatever the value keeps out of line (the bytes a pointer
//! will lead to) and returns a resolver that remembers where they went.
//! `resolve` runs second: given the value, its resolver and a place, it
//! writes the value's fixed-size archived form into the place.

use vstd::prelude::*;
use crate::error::{AccessError, SerializeError};
use crate::place::Place;
use crate::ser::{spec_padding, Writer, MAX_LEN};

verus! {

/// `a` is the beginning of `b`.
pub open spec fn is_prefix(a: Seq<u8>, b: Seq<u8>) -> bool {
    a.len() <= b.len() && b.subrange(0, a.len() as int) == a
}

/// The resolver of a value that keeps nothing out of line.
#[derive(Clone, Copy, Debug)]
pub struct NoResolver;

/// A type with an archived form.
///
/// The archived form has a fixed size and alignment. What does not fit
/// the fixed size is kept out of line, earlier in the buffer, and reached
/// through relative pointers.
pub trait Archive: DeepView + Sized {
    /// What `serialize` hands to `resolve`.
    type Resolver: Copy;

    /// The size in bytes of the archived form.
    spec fn spec_size() -> int;

    /// The alignment of the archived form.
    spec fn spec_align() -> int;

    /// The number of bytes that `serialize` appends for `v` to a writer
    /// that stands at `start`.
    spec fn spec_serialized_len(v: Self::V, start: int) -> int;

    /// `r` locates, within `buf`, the out-of-line data of `v`.
    spec fn spec_resolves(buf: Seq<u8>, v: Self::V, r: Self::Resolver) -> bool;

    /// The archived form of `v`, as it stands at position `at`.
    spec fn spec_resolve(v: Self::V, r: Self::Resolver, at: int) -> Seq<u8>;

    /// The value that checked access reads at position `at` of `buf`, or
    /// `None` where the bytes there are no well-formed archived value.
    spec fn spec_access(buf: Seq<u8>, at: int) -> Option<Self::V>;

    /// The error that checked access gives at position `at` of `buf`,
    /// where the bytes there are no well-formed archived value: the first
    /// thing that is found wrong.
    spec fn spec_access_error(buf: Seq<u8>, at: int) -> AccessError;

    /// Whether the archived form of a value is a plain copy of bytes that
    /// depends on nothing but the value: no out-of-line data and no
    /// pointer. A slice of such values is archived by one bulk copy.
    spec fn spec_copy_optimized() -> bool;

    /// The shape of the archived form is sound: it has at least one byte,
    /// its alignment is 1, 2, 4 or 8, and its size is a multiple of it.
    proof fn lemma_layout()
        ensures
            1 <= Self::spec_size() <= MAX_LEN,
            Self::spec_align() == 1 || Self::spec_align() == 2 || Self::spec_align() == 4
                || Self::spec_align() == 8,
            Self::spec_size() % Self::spec_align() == 0,
    ;

    /// Serializing appends a number of bytes that is not negative.
    proof fn lemma_serialized_len(v: Self::V, start: int)
        ensures
            0 <= Self::spec_serialized_len(v, start),
    ;

    /// The archived form has exactly the archived size.
    proof fn lemma_resolve_len(v: Self::V, r: Self::Resolver, at: int)
        ensures
            Self::spec_resolve(v, r, at).len() == Self::spec_size(),
    ;

    /// A resolver stays valid when the buffer grows.
    proof fn lemma_resolves_extends(buf: Seq<u8>, longer: Seq<u8>, v: Self::V, r: Self::Resolver)
        requires
            Self::spec_resolves(buf, v, r),
            is_prefix(buf, longer),
        ensures
            Self::spec_resolves(longer, v, r),
    ;

    /// What checked access reads stays the same when the buffer grows.
    proof fn lemma_access_extends(buf: Seq<u8>, longer: Seq<u8>, at: int)
        requires
            Self::spec_access(buf, at) is Some,
            is_prefix(buf, longer),
        ensures
            Self::spec_access(longer, at) == Self::spec_access(buf, at),
    ;

    /// Reading back what was archived gives the value: where the bytes
    /// before `at` hold the out-of-line data and the archived form stands
    /// at the aligned position `at`, checked access reads `v` there.
    proof fn lemma_round_trip(buf: Seq<u8>, v: Self::V, r: Self::Resolver, at: int)
        requires
            0 <= at,
            Self::spec_resolves(buf.subrange(0, at), v, r),
            at % Self::spec_align() == 0,
            at + Self::spec_size() <= buf.len() <= MAX_LEN,
            buf.subrange(at, at + Self::spec_size()) == Self::spec_resolve(v, r, at),
        ensures
            Self::spec_access(buf, at) == Some(v),
    ;

    /// With the copy optimization a value needs no serialize step, any
    /// resolver resolves it, and its archived form is the same bytes
    /// wherever it stands.
    proof fn lemma_copy_optimized(
        buf: Seq<u8>,
        v: Self::V,
        r1: Self::Resolver,
        r2: Self::Resolver,
        at1: int,
        at2: int,
    )
        ensures
            Self::spec_copy_optimized() ==> {
                &&& Self::spec_serialized_len(v, at1) == 0
                &&& Self::spec_resolves(buf, v, r1)
                &&& Self::spec_resolve(v, r1, at1) == Self::spec_resolve(v, r2, at2)
            },
    ;

    /// Whether slices of this type are archived by one bulk copy.
    fn copy_optimization() -> (b: bool)
        ensures
            b == Self::spec_copy_optimized(),
    ;

    /// The bulk copy: appends the archived forms of the values of a
    /// slice to `out`, one after the other. A type without the copy
    /// optimization appends nothing.
    fn copy_slice(slice: &[Self], out: &mut Vec<u8>)
        ensures
            !Self::spec_copy_optimized() ==> final(out)@ == old(out)@,
            Self::spec_copy_optimized() ==> {
                &&& final(out)@.len() == old(out)@.len() + slice@.len() * Self::spec_size()
                &&& is_prefix(old(out)@, final(out)@)
                &&& forall|i: int|
                    0 <= i < slice@.len() ==> #[trigger] final(out)@.subrange(
                        old(out)@.len() + i * Self::spec_size(),
                        old(out)@.len() + i * Self::spec_size() + Self::spec_size(),
                    ) == Self::spec_resolve(slice@[i].deep_view(), arbitrary(), 0)
            },
    ;

    /// The size in bytes of the archived form.
    fn archived_size() -> (n: usize)
        ensures
            n == Self::spec_size(),
    ;

    /// The alignment of the archived form.
    fn archived_align() -> (a: usize)
        ensures
            a == Self::spec_align(),
    ;

    /// Appends the out-of-line data of the value to the writer and
    /// returns the resolver that locates it. The value's own fixed-size
    /// form is not written. Fails exactly when the data does not fit
    /// the writer; a type whose archived form is larger than any buffer
    /// fits no writer.
    fn serialize(&self, w: &mut Writer) -> (r: Result<Self::Resolver, SerializeError>)
        requires
            old(w).wf(),
        ensures
            final(w).wf(),
            final(w).spec_limit() == old(w).spec_limit(),
            r is Ok <==> old(w)@.len() + Self::spec_serialized_len(
                self.deep_view(),
                old(w)@.len() as int,
            ) <= old(w).spec_limit(),
            r matches Ok(res) ==> {
                &&& final(w)@.len() == old(w)@.len() + Self::spec_serialized_len(
                    self.deep_view(),
                    old(w)@.len() as int,
                )
                &&& is_prefix(old(w)@, final(w)@)
                &&& Self::spec_resolves(final(w)@, self.deep_view(), res)
            },
            r matches Err(e) ==> e == SerializeError::Writer,
    ;

    /// Writes the archived form of the value into the place.
    fn resolve(&self, r: Self::Resolver, place: &mut Place)
        requires
            old(place).wf(),
            old(place)@.len() == Self::spec_size(),
            old(place).spec_pos() % Self::spec_align() == 0,
            Self::spec_resolves(old(place).arena(), self.deep_view(), r),
        ensures
            final(place).wf(),
            final(place).spec_pos() == old(place).spec_pos(),
            final(place).arena() == old(place).arena(),
            final(place)@ == Self::spec_resolve(self.deep_view(), r, old(place).spec_pos()),
    ;

    /// Checked access: decides whether a well-formed archived value
    /// stands at `at`.
    fn check(buf: &[u8], at: usize) -> (r: Result<(), AccessError>)
        ensures
            r is Ok <==> Self::spec_access(buf@, at as int) is Some,
            r matches Err(e) ==> e == Self::spec_access_error(buf@, at as int),
    ;

    /// Builds the value from its archived form at `at`, which the caller
    /// attests to be well formed.
    fn deserialize(buf: &[u8], at: usize) -> (v: Self)
        requires
            Self::spec_access(buf@, at as int) is Some,
        ensures
            Some(v.deep_view()) == Self::spec_access(buf@, at as int),
    ;
}

/// The views of the values of a sequence.
pub open spec fn spec_deep_view<T: DeepView>(s: Seq<T>) -> Seq<T::V> {
    Seq::new(s.len(), |i: int| s[i].deep_view())
}

/// The number of bytes that archiving `v` appends to a writer that stands
/// at `start`: the out-of-line data, the padding that aligns the archived
/// form, and the archived form.
pub open spec fn spec_archived_len<T: Archive>(v: T::V, start: int) -> int {
    let body = T::spec_serialized_len(v, start);
    body + spec_padding(start + body, T::spec_align()) + T::spec_size()
}

} // verus!
