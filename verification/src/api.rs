//! Archiving a value into a buffer and reading it back.
//!
//! The root of an archive is written last, so it stands at the end of the
//! buffer: a reader that knows the root's type finds it from the length
//! alone.

use vstd::prelude::*;
use crate::archive::{is_prefix, spec_archived_len, Archive};
use crate::error::{AccessError, SerializeError};

use crate::primitive::lemma_append_keeps;
use crate::rel_ptr::{spec_rel_target, spec_u32_at};
use crate::ser::{lemma_padding, spec_padding, zeros, Writer, MAX_LEN};
use crate::slice::spec_slice_value;
use crate::tuple::spec_second_offset;

verus! {

/// The archived form of `v` stands at `pos`, at the end of `buf`, with
/// its out-of-line data, located by `r`, before it.
pub open spec fn spec_archived_with<T: Archive>(
    v: T::V,
    r: T::Resolver,
    buf: Seq<u8>,
    pos: int,
) -> bool {
    &&& 0 <= pos
    &&& pos % T::spec_align() == 0
    &&& pos + T::spec_size() == buf.len()
    &&& buf.len() <= MAX_LEN
    &&& T::spec_resolves(buf.subrange(0, pos), v, r)
    &&& buf.subrange(pos, pos + T::spec_size()) == T::spec_resolve(v, r, pos)
}

/// `buf` ends with an archive of `v` whose root stands at `pos`.
pub open spec fn spec_archived<T: Archive>(v: T::V, buf: Seq<u8>, pos: int) -> bool {
    exists|r: T::Resolver| spec_archived_with::<T>(v, r, buf, pos)
}

/// The position of the root of an archive of `len` bytes.
pub open spec fn spec_root_pos<T: Archive>(len: int) -> int {
    len - T::spec_size()
}

/// The value that checked access reads at the root of an archive.
pub open spec fn spec_root<T: Archive>(buf: Seq<u8>) -> Option<T::V> {
    if buf.len() >= T::spec_size() {
        T::spec_access(buf, spec_root_pos::<T>(buf.len() as int))
    } else {
        None
    }
}

/// The error that checked access gives for an archive whose root is
/// malformed.
pub open spec fn spec_root_error<T: Archive>(buf: Seq<u8>) -> AccessError {
    if buf.len() < T::spec_size() {
        AccessError::OutOfBounds
    } else {
        T::spec_access_error(buf, spec_root_pos::<T>(buf.len() as int))
    }
}

/// The round trip: checked access to an archive of a value reads that
/// value at the root.
pub proof fn lemma_round_trip<T: Archive>(v: T::V, buf: Seq<u8>, pos: int)
    requires
        spec_archived::<T>(v, buf, pos),
    ensures
        T::spec_access(buf, pos) == Some(v),
        spec_root::<T>(buf) == Some(v),
{
    let r = choose|r: T::Resolver| spec_archived_with::<T>(v, r, buf, pos);
    T::lemma_layout();
    T::lemma_round_trip(buf, v, r, pos);
}

/// Pads the writer with zero bytes up to the alignment of the archived
/// form of `T` and returns the position reached.
pub fn align_for<T: Archive>(w: &mut Writer) -> (r: Result<usize, SerializeError>)
    requires
        old(w).wf(),
    ensures
        final(w).wf(),
        final(w).spec_limit() == old(w).spec_limit(),
        r is Ok <==> old(w)@.len() + spec_padding(old(w)@.len() as int, T::spec_align()) <= old(
            w,
        ).spec_limit(),
        r matches Ok(pos) ==> {
            &&& final(w)@ == old(w)@ + zeros(
                spec_padding(old(w)@.len() as int, T::spec_align()) as nat,
            )
            &&& pos == final(w)@.len()
            &&& pos as int % T::spec_align() == 0
        },
        r is Err ==> r == Err::<usize, SerializeError>(SerializeError::Writer) && final(w)@
            == old(w)@,
{
    proof {
        T::lemma_layout();
    }
    w.align(T::archived_align())
}

/// Archives a value: serializes it, aligns the writer, and resolves it
/// into a place at the position reached, which is returned. Fails exactly
/// when the archive does not fit the writer.
pub fn serialize_and_resolve<T: Archive>(value: &T, w: &mut Writer) -> (r: Result<
    usize,
    SerializeError,
>)
    requires
        old(w).wf(),
    ensures
        final(w).wf(),
        final(w).spec_limit() == old(w).spec_limit(),
        r is Ok <==> old(w)@.len() + spec_archived_len::<T>(
            value.deep_view(),
            old(w)@.len() as int,
        ) <= old(w).spec_limit(),
        r matches Ok(pos) ==> {
            &&& final(w)@.len() == old(w)@.len() + spec_archived_len::<T>(
                value.deep_view(),
                old(w)@.len() as int,
            )
            &&& is_prefix(old(w)@, final(w)@)
            &&& spec_archived::<T>(value.deep_view(), final(w)@, pos as int)
            &&& T::spec_access(final(w)@, pos as int) == Some(value.deep_view())
        },
        r matches Err(e) ==> e == SerializeError::Writer,
{
    let ghost start = w@.len() as int;
    let ghost v = value.deep_view();
    proof {
        T::lemma_layout();
        T::lemma_serialized_len(v, start);
        lemma_padding(start + T::spec_serialized_len(v, start), T::spec_align());
    }
    let res = match value.serialize(w) {
        Ok(res) => res,
        Err(e) => {
            return Err(e);
        },
    };
    let ghost body = w@;
    let pos = match w.align(T::archived_align()) {
        Ok(pos) => pos,
        Err(e) => {
            return Err(e);
        },
    };
    let ghost aligned = w@;
    let mut place = match w.place(T::archived_size()) {
        Ok(place) => place,
        Err(e) => {
            return Err(e);
        },
    };
    proof {
        lemma_append_keeps(old(w)@, body, zeros((pos - body.len()) as nat));
        T::lemma_resolves_extends(body, aligned, v, res);
    }
    value.resolve(res, &mut place);
    proof {
        T::lemma_resolve_len(v, res, pos as int);
    }
    match w.commit(&place) {
        Ok(()) => {},
        Err(e) => {
            return Err(e);
        },
    }
    proof {
        lemma_append_keeps(old(w)@, aligned, place@);
        assert(w@.subrange(0, pos as int) =~= aligned);
        assert(w@.subrange(pos as int, pos + T::spec_size()) =~= place@);
        assert(spec_archived_with::<T>(v, res, w@, pos as int));
        lemma_round_trip::<T>(v, w@, pos as int);
    }
    Ok(pos)
}

/// Archives a value into a new buffer of at most `limit` bytes. The root
/// stands at the end of the buffer.
pub fn to_bytes<T: Archive>(value: &T, limit: usize) -> (r: Result<Vec<u8>, SerializeError>)
    ensures
        r is Ok <==> spec_archived_len::<T>(value.deep_view(), 0) <= limit
            && spec_archived_len::<T>(value.deep_view(), 0) <= MAX_LEN,
        r matches Ok(bytes) ==> {
            &&& bytes@.len() == spec_archived_len::<T>(value.deep_view(), 0)
            &&& spec_archived::<T>(
                value.deep_view(),
                bytes@,
                spec_root_pos::<T>(bytes@.len() as int),
            )
            &&& spec_root::<T>(bytes@) == Some(value.deep_view())
        },
        r matches Err(e) ==> e == SerializeError::Writer,
{
    let mut w = Writer::new(limit);
    match serialize_and_resolve(value, &mut w) {
        Ok(pos) => {
            proof {
                T::lemma_layout();
            }
            Ok(w.into_bytes())
        },
        Err(e) => Err(e),
    }
}

/// Checked access to the root of an archive: decides whether a
/// well-formed archived value of type `T` stands at the end of the buffer,
/// and returns its position.
pub fn access<T: Archive>(bytes: &[u8]) -> (r: Result<usize, AccessError>)
    ensures
        r is Ok <==> spec_root::<T>(bytes@) is Some,
        r matches Ok(pos) ==> pos == spec_root_pos::<T>(bytes@.len() as int),
        r matches Err(e) ==> e == spec_root_error::<T>(bytes@),
{
    let size = T::archived_size();
    if bytes.len() < size {
        return Err(AccessError::OutOfBounds);
    }
    let pos = bytes.len() - size;
    match T::check(bytes, pos) {
        Ok(()) => Ok(pos),
        Err(e) => Err(e),
    }
}

/// Reads back the value of an archive: checked access to the root, then
/// deserializing it. Succeeds exactly on the buffers whose root is well
/// formed.
pub fn from_bytes<T: Archive>(bytes: &[u8]) -> (r: Result<T, AccessError>)
    ensures
        r is Ok <==> spec_root::<T>(bytes@) is Some,
        r matches Ok(v) ==> Some(v.deep_view()) == spec_root::<T>(bytes@),
        r matches Err(e) ==> e == spec_root_error::<T>(bytes@),
{
    match access::<T>(bytes) {
        Ok(pos) => Ok(T::deserialize(bytes, pos)),
        Err(e) => Err(e),
    }
}

/// Zero-copy access to a pair: the parts that are read directly off an
/// archive of a pair, without deserializing it, are the parts of the
/// pair.
pub proof fn lemma_zero_copy_pair<A: Archive, B: Archive>(v: (A::V, B::V), buf: Seq<u8>, pos: int)
    requires
        spec_archived::<(A, B)>(v, buf, pos),
    ensures
        A::spec_access(buf, pos) == Some(v.0),
        B::spec_access(buf, pos + spec_second_offset::<A, B>()) == Some(v.1),
{
    lemma_round_trip::<(A, B)>(v, buf, pos);
}

/// Zero-copy access to a list: the elements that are read directly off
/// an archive of a list, without deserializing it, are the elements of
/// the list.
pub proof fn lemma_zero_copy_list<T: Archive>(v: Seq<T::V>, buf: Seq<u8>, pos: int, i: int)
    requires
        spec_archived::<Vec<T>>(v, buf, pos),
        0 <= i < v.len(),
    ensures
        spec_u32_at(buf, pos + 4) == v.len(),
        T::spec_access(buf, spec_rel_target(buf, pos) + i * T::spec_size()) == Some(v[i]),
{
    lemma_round_trip::<Vec<T>>(v, buf, pos);
    assert(spec_slice_value::<T>(buf, spec_rel_target(buf, pos), v.len() as int)[i] == v[i]);
    assert(T::spec_access(buf, spec_rel_target(buf, pos) + i * T::spec_size()) is Some);
}

} // verus!
