//! Wrappers: archiving a field in another way than its type does.
//!
//! A wrapper is a marker type that carries the three operations of the
//! archive protocol for a field type of its choice. A composite type
//! names a wrapper for a field to override how that one field is
//! archived, without changing the field's type.

use vstd::prelude::*;
use core::marker::PhantomData;
use std::rc::Rc;
use crate::api::serialize_and_resolve;
use crate::archive::{is_prefix, Archive};
use crate::boxed::{pointer_target, write_pointer};
use crate::error::{AccessError, SerializeError};
use crate::option_impl::{lemma_some_bytes, spec_some_bytes, TAG_NONE, TAG_SOME};
use crate::place::{zeroed, Place};
use crate::primitive::lemma_append_keeps;
use crate::ser::{lemma_padding, spec_padding, zeros, Writer, MAX_LEN};

verus! {

/// The archive step of a wrapper for fields of type `F`.
pub trait ArchiveWith<F> {
    /// What `serialize_with` hands to `resolve_with`.
    type Resolver;

    /// What the archived form stands for.
    type Value;

    /// The value that a field is archived as.
    spec fn spec_value(field: F) -> Self::Value;

    /// The size in bytes of the archived form.
    spec fn spec_size() -> int;

    /// The alignment of the archived form.
    spec fn spec_align() -> int;

    /// The number of bytes that `serialize_with` appends for `v` to a
    /// writer that stands at `start`.
    spec fn spec_serialized_len(v: Self::Value, start: int) -> int;

    /// `r` locates, within `buf`, the out-of-line data of `v`.
    spec fn spec_resolves(buf: Seq<u8>, v: Self::Value, r: Self::Resolver) -> bool;

    /// The archived form of `v`, as it stands at position `at`.
    spec fn spec_resolve(v: Self::Value, r: Self::Resolver, at: int) -> Seq<u8>;

    /// The value that checked access reads at position `at` of `buf`, or
    /// `None` where the bytes there are no well-formed archived value.
    spec fn spec_access(buf: Seq<u8>, at: int) -> Option<Self::Value>;

    /// The error that checked access gives at position `at` of `buf`,
    /// where the bytes there are no well-formed archived value.
    spec fn spec_access_error(buf: Seq<u8>, at: int) -> AccessError;

    /// The shape of the archived form is sound: its alignment is 1, 2, 4
    /// or 8, and its size is a multiple of it.
    proof fn lemma_layout()
        ensures
            0 <= Self::spec_size() <= MAX_LEN,
            Self::spec_align() == 1 || Self::spec_align() == 2 || Self::spec_align() == 4
                || Self::spec_align() == 8,
            Self::spec_size() % Self::spec_align() == 0,
    ;

    /// Serializing appends a number of bytes that is not negative.
    proof fn lemma_serialized_len(v: Self::Value, start: int)
        ensures
            0 <= Self::spec_serialized_len(v, start),
    ;

    /// The archived form has exactly the archived size.
    proof fn lemma_resolve_len(v: Self::Value, r: Self::Resolver, at: int)
        ensures
            Self::spec_resolve(v, r, at).len() == Self::spec_size(),
    ;

    /// A resolver stays valid when the buffer grows.
    proof fn lemma_resolves_extends(
        buf: Seq<u8>,
        longer: Seq<u8>,
        v: Self::Value,
        r: Self::Resolver,
    )
        requires
            Self::spec_resolves(buf, v, r),
            is_prefix(buf, longer),
        ensures
            Self::spec_resolves(longer, v, r),
    ;

    /// What checked access reads stays the same when the buffer grows.
    proof fn lemma_access_extends(buf: Seq<u8>, longer: Seq<u8>, at: int)
        requires
            Self::spec_access(buf, at) is Some,
            is_prefix(buf, longer),
        ensures
            Self::spec_access(longer, at) == Self::spec_access(buf, at),
    ;

    /// Reading back what was archived gives the value.
    proof fn lemma_round_trip(buf: Seq<u8>, v: Self::Value, r: Self::Resolver, at: int)
        requires
            0 <= at,
            Self::spec_resolves(buf.subrange(0, at), v, r),
            at % Self::spec_align() == 0,
            at + Self::spec_size() <= buf.len() <= MAX_LEN,
            buf.subrange(at, at + Self::spec_size()) == Self::spec_resolve(v, r, at),
        ensures
            Self::spec_access(buf, at) == Some(v),
    ;

    /// The size in bytes of the archived form.
    fn archived_size() -> (n: usize)
        ensures
            n == Self::spec_size(),
    ;

    /// The alignment of the archived form.
    fn archived_align() -> (a: usize)
        ensures
            a == Self::spec_align(),
    ;

    /// Writes the archived form of the field into the place.
    fn resolve_with(field: &F, r: Self::Resolver, place: &mut Place)
        requires
            old(place).wf(),
            old(place)@.len() == Self::spec_size(),
            old(place).spec_pos() % Self::spec_align() == 0,
            Self::spec_resolves(old(place).arena(), Self::spec_value(*field), r),
        ensures
            final(place).wf(),
            final(place).spec_pos() == old(place).spec_pos(),
            final(place).arena() == old(place).arena(),
            final(place)@ == Self::spec_resolve(
                Self::spec_value(*field),
                r,
                old(place).spec_pos(),
            ),
    ;
}

/// The serialize step of a wrapper for fields of type `F`.
pub trait SerializeWith<F>: ArchiveWith<F> {
    /// Appends the out-of-line data of the field to the writer and
    /// returns the resolver that locates it. Fails exactly when the
    /// data does not fit the writer.
    fn serialize_with(field: &F, w: &mut Writer) -> (r: Result<Self::Resolver, SerializeError>)
        requires
            old(w).wf(),
        ensures
            final(w).wf(),
            final(w).spec_limit() == old(w).spec_limit(),
            r is Ok <==> old(w)@.len() + Self::spec_serialized_len(
                Self::spec_value(*field),
                old(w)@.len() as int,
            ) <= old(w).spec_limit(),
            r matches Ok(res) ==> {
                &&& final(w)@.len() == old(w)@.len() + Self::spec_serialized_len(
                    Self::spec_value(*field),
                    old(w)@.len() as int,
                )
                &&& is_prefix(old(w)@, final(w)@)
                &&& Self::spec_resolves(final(w)@, Self::spec_value(*field), res)
            },
            r matches Err(e) ==> e == SerializeError::Writer,
    ;
}

/// The deserialize step of a wrapper that gives fields of type `F`.
pub trait DeserializeWith<F>: ArchiveWith<F> {
    /// Checked access: decides whether a well-formed archived value
    /// stands at `at`.
    fn check_with(buf: &[u8], at: usize) -> (r: Result<(), AccessError>)
        ensures
            r is Ok <==> Self::spec_access(buf@, at as int) is Some,
            r matches Err(e) ==> e == Self::spec_access_error(buf@, at as int),
    ;

    /// Builds the field from its archived form at `at`, which the
    /// caller attests to be well formed.
    fn deserialize_with(buf: &[u8], at: usize) -> (field: F)
        requires
            Self::spec_access(buf@, at as int) is Some,
        ensures
            Some(Self::spec_value(field)) == Self::spec_access(buf@, at as int),
    ;
}

/// A wrapper to make a value immutable.
#[derive(Debug)]
pub struct Immutable<T>(T);

impl<T> Immutable<T> {
    /// Wraps a value.
    pub fn new(value: T) -> (r: Immutable<T>)
        ensures
            r.spec_value() == value,
    {
        Immutable(value)
    }

    /// The value that the wrapper holds.
    pub closed spec fn spec_value(&self) -> T {
        self.0
    }

    /// Gets the underlying immutable value.
    pub fn value(&self) -> (v: &T)
        ensures
            *v == self.spec_value(),
    {
        &self.0
    }
}

impl<T> core::ops::Deref for Immutable<T> {
    type Target = T;

    fn deref(&self) -> (v: &T)
        ensures
            *v == self.spec_value(),
    {
        &self.0
    }
}

/// A wrapper that applies another wrapper to the value of an `Option`.
#[derive(Debug)]
pub struct MapOption<Archivable> {
    _type: PhantomData<Archivable>,
}

/// A type indicating relaxed atomic loads.
pub struct Relaxed;

/// A type indicating acquire atomic loads.
pub struct Acquire;

/// A type indicating sequentially-consistent atomic loads.
pub struct SeqCst;

/// A wrapper that archives an atomic by loading its value with a
/// particular ordering. The archived form is the plain value.
#[derive(Debug)]
pub struct AtomicLoad<SO> {
    _phantom: PhantomData<SO>,
}

/// A wrapper that archives an atomic as an atomic.
#[derive(Debug)]
pub struct AsAtomic<SO, DO> {
    _phantom: PhantomData<(SO, DO)>,
}

/// A wrapper that archives a reference as the value it refers to, in
/// line. What was archived so cannot be deserialized, because the
/// composite cannot own the value.
#[derive(Debug)]
pub struct Inline;

/// A wrapper that archives a field out of line, behind a pointer.
#[derive(Debug)]
pub struct Boxed;

/// A wrapper that archives a reference out of line, behind a pointer,
/// as if it were boxed.
#[derive(Debug)]
pub struct BoxedInline;

/// A wrapper that archives as text a value that is usually, but not
/// always, UTF-8.
#[derive(Debug)]
pub struct AsString;

/// A wrapper that locks a lock and archives the value behind it. The
/// value must not change between the serialize and the resolve step.
#[derive(Debug)]
pub struct Lock;

/// A wrapper that archives a borrowed-or-owned value as if it were owned.
#[derive(Debug)]
pub struct AsOwned;

/// A wrapper that archives an associative container as a list of its
/// entries, without building a search structure in the buffer.
#[derive(Debug)]
pub struct AsVec;

/// A wrapper that archives an optional value in the size of the value,
/// using a value that cannot occur to stand for no value.
#[derive(Debug)]
pub struct Niche;

/// A wrapper that archives a point in time as the duration since the
/// UNIX epoch.
#[derive(Debug)]
pub struct UnixTimestamp;

/// Errors that can occur when serializing with `UnixTimestamp`.
#[derive(Debug)]
pub enum UnixTimestampError {
    /// The point in time lies before the UNIX epoch.
    TimeBeforeUnixEpoch,
}

impl UnixTimestampError {
    /// The error in words.
    pub fn message(&self) -> (s: String)
        ensures
            s@ == "time occurred before the UNIX epoch"@,
    {
        "time occurred before the UNIX epoch".to_owned()
    }
}

/// A wrapper that archives values with interior mutability. The value
/// must not change while it is being archived.
#[derive(Debug)]
pub struct Unsafe;

/// A wrapper that leaves a field out of the archive. Deserializing gives
/// the field its default value.
#[derive(Debug)]
pub struct Skip;

/// A wrapper that archives the contents of a shared pointer as an
/// unshared value.
#[derive(Debug)]
pub struct Cloned;

/// The flavor of shared pointers that count their references atomically
/// and hold no weak count.
pub struct TriompheArcFlavor;

/// Whether the layout of a mapped option can be computed: a tag, padding
/// and the value together fit the largest buffer.
pub open spec fn spec_mapped_layout<A: ArchiveWith<O>, O>() -> bool {
    A::spec_align() + A::spec_size() <= MAX_LEN
}

impl<A: ArchiveWith<O>, O> ArchiveWith<Option<O>> for MapOption<A> {
    type Resolver = Option<A::Resolver>;

    type Value = Option<A::Value>;

    open spec fn spec_value(field: Option<O>) -> Option<A::Value> {
        match field {
            Some(x) => Some(A::spec_value(x)),
            None => None,
        }
    }

    open spec fn spec_size() -> int {
        if spec_mapped_layout::<A, O>() {
            A::spec_align() + A::spec_size()
        } else {
            A::spec_align()
        }
    }

    open spec fn spec_align() -> int {
        A::spec_align()
    }

    open spec fn spec_serialized_len(v: Option<A::Value>, start: int) -> int {
        if !spec_mapped_layout::<A, O>() {
            MAX_LEN + 1
        } else {
            match v {
                None => 0,
                Some(x) => A::spec_serialized_len(x, start),
            }
        }
    }

    open spec fn spec_resolves(buf: Seq<u8>, v: Option<A::Value>, r: Option<A::Resolver>) -> bool {
        spec_mapped_layout::<A, O>() && match (v, r) {
            (None, None) => true,
            (Some(x), Some(rx)) => A::spec_resolves(buf, x, rx),
            _ => false,
        }
    }

    open spec fn spec_resolve(v: Option<A::Value>, r: Option<A::Resolver>, at: int) -> Seq<u8> {
        if !spec_mapped_layout::<A, O>() {
            zeros(A::spec_align() as nat)
        } else {
            match (v, r) {
                (Some(x), Some(rx)) => spec_some_bytes(
                    A::spec_align(),
                    A::spec_resolve(x, rx, at + A::spec_align()),
                ),
                _ => zeros((A::spec_align() + A::spec_size()) as nat),
            }
        }
    }

    open spec fn spec_access(buf: Seq<u8>, at: int) -> Option<Option<A::Value>> {
        if spec_mapped_layout::<A, O>() && 0 <= at && at % A::spec_align() == 0 && at
            + A::spec_align() + A::spec_size() <= buf.len() {
            if buf[at] == TAG_NONE {
                Some(None)
            } else if buf[at] == TAG_SOME {
                match A::spec_access(buf, at + A::spec_align()) {
                    Some(x) => Some(Some(x)),
                    None => None,
                }
            } else {
                None
            }
        } else {
            None
        }
    }

    open spec fn spec_access_error(buf: Seq<u8>, at: int) -> AccessError {
        if !spec_mapped_layout::<A, O>() {
            AccessError::OutOfBounds
        } else if at % A::spec_align() != 0 {
            AccessError::Misaligned
        } else if !(0 <= at && at + A::spec_align() + A::spec_size() <= buf.len()) {
            AccessError::OutOfBounds
        } else if buf[at] == TAG_SOME {
            A::spec_access_error(buf, at + A::spec_align())
        } else {
            AccessError::InvalidTag
        }
    }

    proof fn lemma_layout() {
        A::lemma_layout();
        vstd::arithmetic::div_mod::lemma_mod_adds(
            A::spec_align(),
            A::spec_size(),
            A::spec_align(),
        );
    }

    proof fn lemma_serialized_len(v: Option<A::Value>, start: int) {
        if let Some(x) = v {
            A::lemma_serialized_len(x, start);
        }
    }

    proof fn lemma_resolve_len(v: Option<A::Value>, r: Option<A::Resolver>, at: int) {
        A::lemma_layout();
        match (v, r) {
            (Some(x), Some(rx)) => {
                A::lemma_resolve_len(x, rx, at + A::spec_align());
            },
            _ => {},
        }
    }

    proof fn lemma_resolves_extends(
        buf: Seq<u8>,
        longer: Seq<u8>,
        v: Option<A::Value>,
        r: Option<A::Resolver>,
    ) {
        match (v, r) {
            (Some(x), Some(rx)) => {
                A::lemma_resolves_extends(buf, longer, x, rx);
            },
            _ => {},
        }
    }

    proof fn lemma_access_extends(buf: Seq<u8>, longer: Seq<u8>, at: int) {
        A::lemma_layout();
        assert(longer[at] == buf[at]) by {
            assert(longer.subrange(0, buf.len() as int)[at] == longer[at]);
        }
        if buf[at] == TAG_SOME {
            A::lemma_access_extends(buf, longer, at + A::spec_align());
        }
    }

    proof fn lemma_round_trip(buf: Seq<u8>, v: Option<A::Value>, r: Option<A::Resolver>, at: int) {
        A::lemma_layout();
        let align = A::spec_align();
        let size = A::spec_size();
        let form = buf.subrange(at, at + align + size);
        assert(form[0] == buf[at]);
        match (v, r) {
            (Some(x), Some(rx)) => {
                let inner = A::spec_resolve(x, rx, at + align);
                A::lemma_resolve_len(x, rx, at + align);
                lemma_some_bytes(zeros((align + size) as nat), align, inner);
                assert(buf.subrange(at + align, at + align + size) =~= form.subrange(
                    align,
                    align + size,
                ));
                assert(is_prefix(buf.subrange(0, at), buf.subrange(0, at + align))) by {
                    assert(buf.subrange(0, at + align).subrange(0, at) =~= buf.subrange(0, at));
                }
                A::lemma_resolves_extends(buf.subrange(0, at), buf.subrange(0, at + align), x, rx);
                vstd::arithmetic::div_mod::lemma_mod_adds(at, align, align);
                A::lemma_round_trip(buf, x, rx, at + align);
            },
            _ => {},
        }
    }

    fn archived_size() -> (n: usize) {
        proof {
            A::lemma_layout();
        }
        if A::archived_size() > MAX_LEN - A::archived_align() {
            A::archived_align()
        } else {
            A::archived_align() + A::archived_size()
        }
    }

    fn archived_align() -> (a: usize) {
        A::archived_align()
    }

    fn resolve_with(field: &Option<O>, r: Option<A::Resolver>, place: &mut Place) {
        proof {
            A::lemma_layout();
        }
        let align = A::archived_align();
        let size = A::archived_size();
        match r {
            None => {
                let blank = zeroed(align + size);
                place.write(0, blank.as_slice());
                assert(place@ =~= zeros((align + size) as nat));
            },
            Some(rx) => {
                let x = match field {
                    Some(x) => x,
                    None => unreached(),
                };
                let tag = vec![TAG_SOME];
                let pad = zeroed(align - 1);
                place.write(0, tag.as_slice());
                place.write(1, pad.as_slice());
                let mut inner = place.field(align, size);
                proof {
                    vstd::arithmetic::div_mod::lemma_mod_adds(
                        place.spec_pos(),
                        align as int,
                        align as int,
                    );
                }
                A::resolve_with(x, rx, &mut inner);
                proof {
                    A::lemma_resolve_len(A::spec_value(*x), rx, place.spec_pos() + align);
                    lemma_some_bytes(old(place)@, align as int, inner@);
                    assert(tag@ =~= seq![TAG_SOME]);
                }
                place.put(align, &inner);
            },
        }
    }
}

impl<A: SerializeWith<O>, O> SerializeWith<Option<O>> for MapOption<A> {
    fn serialize_with(field: &Option<O>, w: &mut Writer) -> (r: Result<
        Option<A::Resolver>,
        SerializeError,
    >) {
        proof {
            A::lemma_layout();
        }
        if A::archived_size() > MAX_LEN - A::archived_align() {
            return Err(SerializeError::Writer);
        }
        match field {
            None => {
                assert(w@.subrange(0, w@.len() as int) =~= w@);
                Ok(None)
            },
            Some(x) => match A::serialize_with(x, w) {
                Ok(rx) => Ok(Some(rx)),
                Err(e) => Err(e),
            },
        }
    }
}

impl<A: DeserializeWith<O>, O> DeserializeWith<Option<O>> for MapOption<A> {
    fn check_with(buf: &[u8], at: usize) -> (r: Result<(), AccessError>) {
        proof {
            A::lemma_layout();
        }
        let align = A::archived_align();
        let size = A::archived_size();
        if size > MAX_LEN - align {
            return Err(AccessError::OutOfBounds);
        }
        if at % align != 0 {
            return Err(AccessError::Misaligned);
        }
        if at > buf.len() || buf.len() - at < align + size {
            return Err(AccessError::OutOfBounds);
        }
        let tag = buf[at];
        if tag == TAG_NONE {
            Ok(())
        } else if tag == TAG_SOME {
            A::check_with(buf, at + align)
        } else {
            Err(AccessError::InvalidTag)
        }
    }

    fn deserialize_with(buf: &[u8], at: usize) -> (v: Option<O>) {
        proof {
            A::lemma_layout();
        }
        let _ = buf.len();
        if buf[at] == TAG_NONE {
            None
        } else {
            Some(A::deserialize_with(buf, at + A::archived_align()))
        }
    }
}

impl<'a, F: Archive> ArchiveWith<&'a F> for Inline {
    type Resolver = <F as Archive>::Resolver;

    type Value = F::V;

    open spec fn spec_value(field: &'a F) -> F::V {
        field.deep_view()
    }

    open spec fn spec_size() -> int {
        <F as Archive>::spec_size()
    }

    open spec fn spec_align() -> int {
        <F as Archive>::spec_align()
    }

    open spec fn spec_serialized_len(v: F::V, start: int) -> int {
        <F as Archive>::spec_serialized_len(v, start)
    }

    open spec fn spec_resolves(buf: Seq<u8>, v: F::V, r: Self::Resolver) -> bool {
        <F as Archive>::spec_resolves(buf, v, r)
    }

    open spec fn spec_resolve(v: F::V, r: Self::Resolver, at: int) -> Seq<u8> {
        <F as Archive>::spec_resolve(v, r, at)
    }

    open spec fn spec_access(buf: Seq<u8>, at: int) -> Option<F::V> {
        <F as Archive>::spec_access(buf, at)
    }

    open spec fn spec_access_error(buf: Seq<u8>, at: int) -> AccessError {
        <F as Archive>::spec_access_error(buf, at)
    }

    proof fn lemma_layout() {
        <F as Archive>::lemma_layout();
    }

    proof fn lemma_serialized_len(v: F::V, start: int) {
        <F as Archive>::lemma_serialized_len(v, start);
    }

    proof fn lemma_resolve_len(v: F::V, r: Self::Resolver, at: int) {
        <F as Archive>::lemma_resolve_len(v, r, at);
    }

    proof fn lemma_resolves_extends(buf: Seq<u8>, longer: Seq<u8>, v: F::V, r: Self::Resolver) {
        <F as Archive>::lemma_resolves_extends(buf, longer, v, r);
    }

    proof fn lemma_access_extends(buf: Seq<u8>, longer: Seq<u8>, at: int) {
        <F as Archive>::lemma_access_extends(buf, longer, at);
    }

    proof fn lemma_round_trip(buf: Seq<u8>, v: F::V, r: Self::Resolver, at: int) {
        <F as Archive>::lemma_round_trip(buf, v, r, at);
    }

    fn archived_size() -> (n: usize) {
        <F as Archive>::archived_size()
    }

    fn archived_align() -> (a: usize) {
        <F as Archive>::archived_align()
    }

    fn resolve_with(field: &&'a F, r: Self::Resolver, place: &mut Place) {
        (*field).resolve(r, place);
    }
}

impl<'a, F: Archive> SerializeWith<&'a F> for Inline {
    fn serialize_with(field: &&'a F, w: &mut Writer) -> (r: Result<
        Self::Resolver,
        SerializeError,
    >) {
        (*field).serialize(w)
    }
}

impl<F: Archive> ArchiveWith<Rc<F>> for Cloned {
    type Resolver = <F as Archive>::Resolver;

    type Value = F::V;

    open spec fn spec_value(field: Rc<F>) -> F::V {
        field.deep_view()
    }

    open spec fn spec_size() -> int {
        <F as Archive>::spec_size()
    }

    open spec fn spec_align() -> int {
        <F as Archive>::spec_align()
    }

    open spec fn spec_serialized_len(v: F::V, start: int) -> int {
        <F as Archive>::spec_serialized_len(v, start)
    }

    open spec fn spec_resolves(buf: Seq<u8>, v: F::V, r: Self::Resolver) -> bool {
        <F as Archive>::spec_resolves(buf, v, r)
    }

    open spec fn spec_resolve(v: F::V, r: Self::Resolver, at: int) -> Seq<u8> {
        <F as Archive>::spec_resolve(v, r, at)
    }

    open spec fn spec_access(buf: Seq<u8>, at: int) -> Option<F::V> {
        <F as Archive>::spec_access(buf, at)
    }

    open spec fn spec_access_error(buf: Seq<u8>, at: int) -> AccessError {
        <F as Archive>::spec_access_error(buf, at)
    }

    proof fn lemma_layout() {
        <F as Archive>::lemma_layout();
    }

    proof fn lemma_serialized_len(v: F::V, start: int) {
        <F as Archive>::lemma_serialized_len(v, start);
    }

    proof fn lemma_resolve_len(v: F::V, r: Self::Resolver, at: int) {
        <F as Archive>::lemma_resolve_len(v, r, at);
    }

    proof fn lemma_resolves_extends(buf: Seq<u8>, longer: Seq<u8>, v: F::V, r: Self::Resolver) {
        <F as Archive>::lemma_resolves_extends(buf, longer, v, r);
    }

    proof fn lemma_access_extends(buf: Seq<u8>, longer: Seq<u8>, at: int) {
        <F as Archive>::lemma_access_extends(buf, longer, at);
    }

    proof fn lemma_round_trip(buf: Seq<u8>, v: F::V, r: Self::Resolver, at: int) {
        <F as Archive>::lemma_round_trip(buf, v, r, at);
    }

    fn archived_size() -> (n: usize) {
        <F as Archive>::archived_size()
    }

    fn archived_align() -> (a: usize) {
        <F as Archive>::archived_align()
    }

    fn resolve_with(field: &Rc<F>, r: Self::Resolver, place: &mut Place) {
        (**field).resolve(r, place);
    }
}

impl<F: Archive> SerializeWith<Rc<F>> for Cloned {
    fn serialize_with(field: &Rc<F>, w: &mut Writer) -> (r: Result<
        Self::Resolver,
        SerializeError,
    >) {
        (**field).serialize(w)
    }
}

impl<F: Archive> DeserializeWith<Rc<F>> for Cloned {
    fn check_with(buf: &[u8], at: usize) -> (r: Result<(), AccessError>) {
        <F as Archive>::check(buf, at)
    }

    fn deserialize_with(buf: &[u8], at: usize) -> (field: Rc<F>) {
        Rc::new(F::deserialize(buf, at))
    }
}

impl<F: Archive> ArchiveWith<F> for Boxed {
    type Resolver = <Box<F> as Archive>::Resolver;

    type Value = F::V;

    open spec fn spec_value(field: F) -> F::V {
        field.deep_view()
    }

    open spec fn spec_size() -> int {
        <Box<F> as Archive>::spec_size()
    }

    open spec fn spec_align() -> int {
        <Box<F> as Archive>::spec_align()
    }

    open spec fn spec_serialized_len(v: F::V, start: int) -> int {
        <Box<F> as Archive>::spec_serialized_len(v, start)
    }

    open spec fn spec_resolves(buf: Seq<u8>, v: F::V, r: Self::Resolver) -> bool {
        <Box<F> as Archive>::spec_resolves(buf, v, r)
    }

    open spec fn spec_resolve(v: F::V, r: Self::Resolver, at: int) -> Seq<u8> {
        <Box<F> as Archive>::spec_resolve(v, r, at)
    }

    open spec fn spec_access(buf: Seq<u8>, at: int) -> Option<F::V> {
        <Box<F> as Archive>::spec_access(buf, at)
    }

    open spec fn spec_access_error(buf: Seq<u8>, at: int) -> AccessError {
        <Box<F> as Archive>::spec_access_error(buf, at)
    }

    proof fn lemma_layout() {
        <Box<F> as Archive>::lemma_layout();
    }

    proof fn lemma_serialized_len(v: F::V, start: int) {
        <Box<F> as Archive>::lemma_serialized_len(v, start);
    }

    proof fn lemma_resolve_len(v: F::V, r: Self::Resolver, at: int) {
        <Box<F> as Archive>::lemma_resolve_len(v, r, at);
    }

    proof fn lemma_resolves_extends(buf: Seq<u8>, longer: Seq<u8>, v: F::V, r: Self::Resolver) {
        <Box<F> as Archive>::lemma_resolves_extends(buf, longer, v, r);
    }

    proof fn lemma_access_extends(buf: Seq<u8>, longer: Seq<u8>, at: int) {
        <Box<F> as Archive>::lemma_access_extends(buf, longer, at);
    }

    proof fn lemma_round_trip(buf: Seq<u8>, v: F::V, r: Self::Resolver, at: int) {
        <Box<F> as Archive>::lemma_round_trip(buf, v, r, at);
    }

    fn archived_size() -> (n: usize) {
        <Box<F> as Archive>::archived_size()
    }

    fn archived_align() -> (a: usize) {
        <Box<F> as Archive>::archived_align()
    }

    fn resolve_with(field: &F, r: Self::Resolver, place: &mut Place) {
        proof {
            F::lemma_layout();
        }
        write_pointer(place, r);
    }
}

impl<F: Archive> SerializeWith<F> for Boxed {
    fn serialize_with(field: &F, w: &mut Writer) -> (r: Result<
        Self::Resolver,
        SerializeError,
    >) {
        proof {
            F::lemma_layout();
        }
        serialize_and_resolve::<F>(field, w)
    }
}

impl<F: Archive> DeserializeWith<F> for Boxed {
    fn check_with(buf: &[u8], at: usize) -> (r: Result<(), AccessError>) {
        <Box<F> as Archive>::check(buf, at)
    }

    fn deserialize_with(buf: &[u8], at: usize) -> (field: F) {
        let target = pointer_target::<F>(buf, at);
        F::deserialize(buf, target)
    }
}

impl<'a, F: Archive> ArchiveWith<&'a F> for BoxedInline {
    type Resolver = <Box<F> as Archive>::Resolver;

    type Value = F::V;

    open spec fn spec_value(field: &'a F) -> F::V {
        field.deep_view()
    }

    open spec fn spec_size() -> int {
        <Box<F> as Archive>::spec_size()
    }

    open spec fn spec_align() -> int {
        <Box<F> as Archive>::spec_align()
    }

    open spec fn spec_serialized_len(v: F::V, start: int) -> int {
        <Box<F> as Archive>::spec_serialized_len(v, start)
    }

    open spec fn spec_resolves(buf: Seq<u8>, v: F::V, r: Self::Resolver) -> bool {
        <Box<F> as Archive>::spec_resolves(buf, v, r)
    }

    open spec fn spec_resolve(v: F::V, r: Self::Resolver, at: int) -> Seq<u8> {
        <Box<F> as Archive>::spec_resolve(v, r, at)
    }

    open spec fn spec_access(buf: Seq<u8>, at: int) -> Option<F::V> {
        <Box<F> as Archive>::spec_access(buf, at)
    }

    open spec fn spec_access_error(buf: Seq<u8>, at: int) -> AccessError {
        <Box<F> as Archive>::spec_access_error(buf, at)
    }

    proof fn lemma_layout() {
        <Box<F> as Archive>::lemma_layout();
    }

    proof fn lemma_serialized_len(v: F::V, start: int) {
        <Box<F> as Archive>::lemma_serialized_len(v, start);
    }

    proof fn lemma_resolve_len(v: F::V, r: Self::Resolver, at: int) {
        <Box<F> as Archive>::lemma_resolve_len(v, r, at);
    }

    proof fn lemma_resolves_extends(buf: Seq<u8>, longer: Seq<u8>, v: F::V, r: Self::Resolver) {
        <Box<F> as Archive>::lemma_resolves_extends(buf, longer, v, r);
    }

    proof fn lemma_access_extends(buf: Seq<u8>, longer: Seq<u8>, at: int) {
        <Box<F> as Archive>::lemma_access_extends(buf, longer, at);
    }

    proof fn lemma_round_trip(buf: Seq<u8>, v: F::V, r: Self::Resolver, at: int) {
        <Box<F> as Archive>::lemma_round_trip(buf, v, r, at);
    }

    fn archived_size() -> (n: usize) {
        <Box<F> as Archive>::archived_size()
    }

    fn archived_align() -> (a: usize) {
        <Box<F> as Archive>::archived_align()
    }

    fn resolve_with(field: &&'a F, r: Self::Resolver, place: &mut Place) {
        proof {
            F::lemma_layout();
        }
        write_pointer(place, r);
    }
}

impl<'a, F: Archive> SerializeWith<&'a F> for BoxedInline {
    fn serialize_with(field: &&'a F, w: &mut Writer) -> (r: Result<
        Self::Resolver,
        SerializeError,
    >) {
        proof {
            F::lemma_layout();
        }
        serialize_and_resolve::<F>(*field, w)
    }
}

impl<F> ArchiveWith<F> for Skip {
    type Resolver = ();

    type Value = ();

    open spec fn spec_value(field: F) -> () {
        ()
    }

    open spec fn spec_size() -> int {
        0
    }

    open spec fn spec_align() -> int {
        1
    }

    open spec fn spec_serialized_len(v: (), start: int) -> int {
        0
    }

    open spec fn spec_resolves(buf: Seq<u8>, v: (), r: ()) -> bool {
        true
    }

    open spec fn spec_resolve(v: (), r: (), at: int) -> Seq<u8> {
        Seq::empty()
    }

    open spec fn spec_access(buf: Seq<u8>, at: int) -> Option<()> {
        Some(())
    }

    open spec fn spec_access_error(buf: Seq<u8>, at: int) -> AccessError {
        AccessError::OutOfBounds
    }

    proof fn lemma_layout() {
    }

    proof fn lemma_serialized_len(v: (), start: int) {
    }

    proof fn lemma_resolve_len(v: (), r: (), at: int) {
    }

    proof fn lemma_resolves_extends(buf: Seq<u8>, longer: Seq<u8>, v: (), r: ()) {
    }

    proof fn lemma_access_extends(buf: Seq<u8>, longer: Seq<u8>, at: int) {
    }

    proof fn lemma_round_trip(buf: Seq<u8>, v: (), r: (), at: int) {
    }

    fn archived_size() -> (n: usize) {
        0
    }

    fn archived_align() -> (a: usize) {
        1
    }

    fn resolve_with(field: &F, r: (), place: &mut Place) {
        assert(place@ =~= Seq::<u8>::empty());
    }
}

impl<F> SerializeWith<F> for Skip {
    fn serialize_with(field: &F, w: &mut Writer) -> (r: Result<(), SerializeError>) {
        assert(w@.subrange(0, w@.len() as int) =~= w@);
        Ok(())
    }
}

impl<F: Default> DeserializeWith<F> for Skip {
    fn check_with(buf: &[u8], at: usize) -> (r: Result<(), AccessError>) {
        Ok(())
    }

    fn deserialize_with(buf: &[u8], at: usize) -> (field: F)
        ensures
            call_ensures(F::default, (), field),
    {
        F::default()
    }
}

/// The number of bytes that archiving `v` with the wrapper `W` appends
/// to a writer that stands at `start`.
pub open spec fn spec_archived_len_with<W: ArchiveWith<F>, F>(v: W::Value, start: int) -> int {
    let body = W::spec_serialized_len(v, start);
    body + spec_padding(start + body, W::spec_align()) + W::spec_size()
}

/// Archives a field with a wrapper: serializes it, aligns the writer,
/// and resolves it into a place at the position reached, which is
/// returned. Fails exactly when the archive does not fit the writer.
pub fn archive_with<W: SerializeWith<F>, F>(field: &F, w: &mut Writer) -> (r: Result<
    usize,
    SerializeError,
>)
    requires
        old(w).wf(),
    ensures
        final(w).wf(),
        final(w).spec_limit() == old(w).spec_limit(),
        r is Ok <==> old(w)@.len() + spec_archived_len_with::<W, F>(
            W::spec_value(*field),
            old(w)@.len() as int,
        ) <= old(w).spec_limit(),
        r matches Ok(pos) ==> {
            &&& final(w)@.len() == old(w)@.len() + spec_archived_len_with::<W, F>(
                W::spec_value(*field),
                old(w)@.len() as int,
            )
            &&& is_prefix(old(w)@, final(w)@)
            &&& pos + W::spec_size() == final(w)@.len()
            &&& W::spec_access(final(w)@, pos as int) == Some(W::spec_value(*field))
        },
        r matches Err(e) ==> e == SerializeError::Writer,
{
    let ghost start = w@.len() as int;
    let ghost v = W::spec_value(*field);
    proof {
        W::lemma_layout();
        W::lemma_serialized_len(v, start);
        lemma_padding(start + W::spec_serialized_len(v, start), W::spec_align());
    }
    let res = match W::serialize_with(field, w) {
        Ok(res) => res,
        Err(e) => {
            return Err(e);
        },
    };
    let ghost body = w@;
    let pos = match w.align(W::archived_align()) {
        Ok(pos) => pos,
        Err(e) => {
            return Err(e);
        },
    };
    let ghost aligned = w@;
    let mut place = match w.place(W::archived_size()) {
        Ok(place) => place,
        Err(e) => {
            return Err(e);
        },
    };
    proof {
        lemma_append_keeps(old(w)@, body, zeros((pos - body.len()) as nat));
        W::lemma_resolves_extends(body, aligned, v, res);
    }
    W::resolve_with(field, res, &mut place);
    proof {
        W::lemma_resolve_len(v, res, pos as int);
    }
    match w.commit(&place) {
        Ok(()) => {},
        Err(e) => {
            return Err(e);
        },
    }
    proof {
        lemma_append_keeps(old(w)@, aligned, place@);
        assert(w@.subrange(0, pos as int) =~= aligned);
        assert(w@.subrange(pos as int, pos + W::spec_size()) =~= place@);
        W::lemma_round_trip(w@, v, res, pos as int);
    }
    Ok(pos)
}

/// Reads back a field that was archived with a wrapper: checked access
/// at `at`, then deserializing. Succeeds exactly where a well-formed
/// archived value stands at `at`.
pub fn read_with<W: DeserializeWith<F>, F>(buf: &[u8], at: usize) -> (r: Result<F, AccessError>)
    ensures
        r is Ok <==> W::spec_access(buf@, at as int) is Some,
        r matches Ok(field) ==> Some(W::spec_value(field)) == W::spec_access(buf@, at as int),
        r matches Err(e) ==> e == W::spec_access_error(buf@, at as int),
{
    match W::check_with(buf, at) {
        Ok(()) => Ok(W::deserialize_with(buf, at)),
        Err(e) => Err(e),
    }
}

} // verus!
