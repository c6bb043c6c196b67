//! The archived form of `Option`.
//!
//! An optional value is archived as a tag byte, 0 for no value and 1 for
//! a value, followed, after padding up to the value's alignment, by the
//! archived value.

use vstd::prelude::*;
use crate::archive::{is_prefix, Archive};
use crate::error::{AccessError, SerializeError};
use crate::option::ArchivedOption;
use crate::place::{spec_overwrite, zeroed, Place};

use crate::ser::{zeros, Writer, MAX_LEN};

verus! {

/// The tag byte of an archived option that holds no value.
pub const TAG_NONE: u8 = 0;

/// The tag byte of an archived option that holds a value.
pub const TAG_SOME: u8 = 1;

/// The archived form of an option that holds a value whose archived
/// form is `inner` and whose alignment is `align`.
pub open spec fn spec_some_bytes(align: int, inner: Seq<u8>) -> Seq<u8> {
    seq![TAG_SOME] + zeros((align - 1) as nat) + inner
}

/// The parts of a place into which a tag byte, padding and a value of
/// `size` bytes were written, in that order.
pub proof fn lemma_some_bytes(dst: Seq<u8>, align: int, inner: Seq<u8>)
    requires
        1 <= align,
        dst.len() == align + inner.len(),
    ensures
        spec_overwrite(
            spec_overwrite(spec_overwrite(dst, 0, seq![TAG_SOME]), 1, zeros((align - 1) as nat)),
            align,
            inner,
        ) == spec_some_bytes(align, inner),
        spec_some_bytes(align, inner).len() == align + inner.len(),
        spec_some_bytes(align, inner)[0] == TAG_SOME,
        spec_some_bytes(align, inner).subrange(align, align + inner.len()) == inner,
{
    assert(spec_overwrite(
        spec_overwrite(spec_overwrite(dst, 0, seq![TAG_SOME]), 1, zeros((align - 1) as nat)),
        align,
        inner,
    ) =~= spec_some_bytes(align, inner));
    assert(spec_some_bytes(align, inner).subrange(align, align + inner.len()) =~= inner);
}

/// Whether the layout of an archived option of `T` can be computed: a
/// tag, padding and the value together fit the largest buffer.
pub open spec fn spec_option_layout<T: Archive>() -> bool {
    T::spec_align() + T::spec_size() <= MAX_LEN
}

impl<T: Archive> Archive for Option<T> {
    type Resolver = Option<T::Resolver>;

    open spec fn spec_size() -> int {
        if spec_option_layout::<T>() {
            T::spec_align() + T::spec_size()
        } else {
            T::spec_align()
        }
    }

    open spec fn spec_align() -> int {
        T::spec_align()
    }

    open spec fn spec_serialized_len(v: Option<T::V>, start: int) -> int {
        if !spec_option_layout::<T>() {
            MAX_LEN + 1
        } else {
            match v {
                None => 0,
                Some(x) => T::spec_serialized_len(x, start),
            }
        }
    }

    open spec fn spec_resolves(buf: Seq<u8>, v: Option<T::V>, r: Option<T::Resolver>) -> bool {
        spec_option_layout::<T>() && match (v, r) {
            (None, None) => true,
            (Some(x), Some(rx)) => T::spec_resolves(buf, x, rx),
            _ => false,
        }
    }

    open spec fn spec_resolve(v: Option<T::V>, r: Option<T::Resolver>, at: int) -> Seq<u8> {
        if !spec_option_layout::<T>() {
            zeros(T::spec_align() as nat)
        } else {
            match (v, r) {
                (Some(x), Some(rx)) => spec_some_bytes(
                    T::spec_align(),
                    T::spec_resolve(x, rx, at + T::spec_align()),
                ),
                _ => zeros((T::spec_align() + T::spec_size()) as nat),
            }
        }
    }

    open spec fn spec_access(buf: Seq<u8>, at: int) -> Option<Option<T::V>> {
        if spec_option_layout::<T>() && 0 <= at && at % T::spec_align() == 0 && at
            + T::spec_align() + T::spec_size() <= buf.len() {
            if buf[at] == TAG_NONE {
                Some(None)
            } else if buf[at] == TAG_SOME {
                match T::spec_access(buf, at + T::spec_align()) {
                    Some(x) => Some(Some(x)),
                    None => None,
                }
            } else {
                None
            }
        } else {
            None
        }
    }

    open spec fn spec_access_error(buf: Seq<u8>, at: int) -> AccessError {
        if !spec_option_layout::<T>() {
            AccessError::OutOfBounds
        } else if at % T::spec_align() != 0 {
            AccessError::Misaligned
        } else if !(0 <= at && at + T::spec_align() + T::spec_size() <= buf.len()) {
            AccessError::OutOfBounds
        } else if buf[at] == TAG_SOME {
            T::spec_access_error(buf, at + T::spec_align())
        } else {
            AccessError::InvalidTag
        }
    }

    open spec fn spec_copy_optimized() -> bool {
        false
    }

    proof fn lemma_layout() {
        T::lemma_layout();
        vstd::arithmetic::div_mod::lemma_mod_adds(
            T::spec_align(),
            T::spec_size(),
            T::spec_align(),
        );
    }

    proof fn lemma_copy_optimized(
        buf: Seq<u8>,
        v: Option<T::V>,
        r1: Option<T::Resolver>,
        r2: Option<T::Resolver>,
        at1: int,
        at2: int,
    ) {
    }

    proof fn lemma_serialized_len(v: Option<T::V>, start: int) {
        if let Some(x) = v {
            T::lemma_serialized_len(x, start);
        }
    }

    proof fn lemma_resolve_len(v: Option<T::V>, r: Option<T::Resolver>, at: int) {
        T::lemma_layout();
        match (v, r) {
            (Some(x), Some(rx)) => {
                T::lemma_resolve_len(x, rx, at + T::spec_align());
            },
            _ => {},
        }
    }

    proof fn lemma_resolves_extends(
        buf: Seq<u8>,
        longer: Seq<u8>,
        v: Option<T::V>,
        r: Option<T::Resolver>,
    ) {
        match (v, r) {
            (Some(x), Some(rx)) => {
                T::lemma_resolves_extends(buf, longer, x, rx);
            },
            _ => {},
        }
    }

    proof fn lemma_access_extends(buf: Seq<u8>, longer: Seq<u8>, at: int) {
        T::lemma_layout();
        assert(longer[at] == buf[at]) by {
            assert(longer.subrange(0, buf.len() as int)[at] == longer[at]);
        }
        if buf[at] == TAG_SOME {
            T::lemma_access_extends(buf, longer, at + T::spec_align());
        }
    }

    proof fn lemma_round_trip(buf: Seq<u8>, v: Option<T::V>, r: Option<T::Resolver>, at: int) {
        T::lemma_layout();
        let align = T::spec_align();
        let size = T::spec_size();
        let form = buf.subrange(at, at + align + size);
        assert(form[0] == buf[at]);
        match (v, r) {
            (Some(x), Some(rx)) => {
                let inner = T::spec_resolve(x, rx, at + align);
                T::lemma_resolve_len(x, rx, at + align);
                lemma_some_bytes(zeros((align + size) as nat), align, inner);
                assert(buf.subrange(at + align, at + align + size) =~= form.subrange(
                    align,
                    align + size,
                ));
                assert(is_prefix(buf.subrange(0, at), buf.subrange(0, at + align))) by {
                    assert(buf.subrange(0, at + align).subrange(0, at) =~= buf.subrange(0, at));
                }
                T::lemma_resolves_extends(buf.subrange(0, at), buf.subrange(0, at + align), x, rx);
                vstd::arithmetic::div_mod::lemma_mod_adds(at, align, align);
                T::lemma_round_trip(buf, x, rx, at + align);
            },
            _ => {},
        }
    }

    fn copy_optimization() -> (b: bool) {
        false
    }

    fn copy_slice(slice: &[Option<T>], out: &mut Vec<u8>) {
    }

    fn archived_size() -> (n: usize) {
        proof {
            T::lemma_layout();
        }
        if T::archived_size() > MAX_LEN - T::archived_align() {
            T::archived_align()
        } else {
            T::archived_align() + T::archived_size()
        }
    }

    fn archived_align() -> (a: usize) {
        T::archived_align()
    }

    fn serialize(&self, w: &mut Writer) -> (r: Result<Option<T::Resolver>, SerializeError>) {
        proof {
            T::lemma_layout();
        }
        if T::archived_size() > MAX_LEN - T::archived_align() {
            return Err(SerializeError::Writer);
        }
        match self {
            None => {
                assert(w@.subrange(0, w@.len() as int) =~= w@);
                Ok(None)
            },
            Some(x) => match x.serialize(w) {
                Ok(rx) => Ok(Some(rx)),
                Err(e) => Err(e),
            },
        }
    }

    fn resolve(&self, r: Option<T::Resolver>, place: &mut Place) {
        proof {
            T::lemma_layout();
        }
        let align = T::archived_align();
        let size = T::archived_size();
        match self {
            None => {
                let blank = zeroed(align + size);
                place.write(0, blank.as_slice());
                assert(place@ =~= zeros((align + size) as nat));
            },
            Some(x) => {
                let rx = r.unwrap();
                let tag = vec![TAG_SOME];
                let pad = zeroed(align - 1);
                place.write(0, tag.as_slice());
                place.write(1, pad.as_slice());
                let mut inner = place.field(align, size);
                proof {
                    vstd::arithmetic::div_mod::lemma_mod_adds(
                        place.spec_pos(),
                        align as int,
                        align as int,
                    );
                }
                x.resolve(rx, &mut inner);
                proof {
                    T::lemma_resolve_len(x.deep_view(), rx, place.spec_pos() + align);
                    lemma_some_bytes(old(place)@, align as int, inner@);
                    assert(tag@ =~= seq![TAG_SOME]);
                }
                place.put(align, &inner);
            },
        }
    }

    fn check(buf: &[u8], at: usize) -> (r: Result<(), AccessError>) {
        proof {
            T::lemma_layout();
        }
        let align = T::archived_align();
        let size = T::archived_size();
        if size > MAX_LEN - align {
            return Err(AccessError::OutOfBounds);
        }
        if at % align != 0 {
            return Err(AccessError::Misaligned);
        }
        if at > buf.len() || buf.len() - at < align + size {
            return Err(AccessError::OutOfBounds);
        }
        let tag = buf[at];
        if tag == TAG_NONE {
            Ok(())
        } else if tag == TAG_SOME {
            T::check(buf, at + align)
        } else {
            Err(AccessError::InvalidTag)
        }
    }

    fn deserialize(buf: &[u8], at: usize) -> (v: Option<T>) {
        proof {
            T::lemma_layout();
        }
        let _ = buf.len();
        if buf[at] == TAG_NONE {
            None
        } else {
            Some(T::deserialize(buf, at + T::archived_align()))
        }
    }
}

/// Reads the archived option at `at` in place: tells whether it holds a
/// value, and where the archived value stands. The caller attests that
/// the option is well formed.
pub fn archived_option<T: Archive>(buf: &[u8], at: usize) -> (r: ArchivedOption<usize>)
    requires
        <Option<T> as Archive>::spec_access(buf@, at as int) is Some,
    ensures
        r is Absent <==> <Option<T> as Archive>::spec_access(buf@, at as int).unwrap() is None,
        r matches ArchivedOption::Present(pos) ==> pos == at + T::spec_align() && T::spec_access(
            buf@,
            pos as int,
        ) == <Option<T> as Archive>::spec_access(buf@, at as int).unwrap(),
{
    proof {
        T::lemma_layout();
    }
    let _ = buf.len();
    if buf[at] == TAG_NONE {
        ArchivedOption::Absent
    } else {
        ArchivedOption::Present(at + T::archived_align())
    }
}

} // verus!
