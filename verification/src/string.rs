//! Archived text.
//!
//! The archived form of a string is a relative pointer to its UTF-8
//! bytes and their number. The bytes are kept out of line.

use vstd::prelude::*;
use vstd::bytes::{lemma_auto_spec_u32_to_from_le_bytes, spec_u32_to_le_bytes};
use vstd::slice::slice_subrange;
use vstd::string::StringSliceAdditionalSpecFns;
use vstd::utf8::{decode_utf8, encode_utf8, valid_utf8};
use crate::archive::{is_prefix, Archive};
use crate::error::{AccessError, SerializeError};
use crate::metadata::{archived_str_metadata, pointer_metadata};
use crate::place::Place;
use crate::primitive::{lemma_append_keeps, lemma_prefix_subrange};
use crate::rel_ptr::{read_u32, rel_ptr_target, spec_rel_ptr, spec_rel_target, spec_u32_at};
use crate::ser::Writer;
use crate::vec::{
    lemma_header_extends, lemma_header_round_trip, spec_header, spec_header_readable,
    spec_unreadable_header, write_header,
};

verus! {

/// Calls `core::str::from_utf8`, which checks that a slice of bytes is
/// UTF-8 and, where it is, hands it back as text. The contract claims
/// that the check succeeds exactly on valid UTF-8 and that the text then
/// has these very bytes.
#[verifier::external_body]
fn str_from_utf8(bytes: &[u8]) -> (r: Option<&str>)
    ensures
        r is Some <==> valid_utf8(bytes@),
        r matches Some(s) ==> s.spec_bytes() == bytes@,
{
    match core::str::from_utf8(bytes) {
        Ok(s) => Some(s),
        Err(_) => None,
    }
}

/// The `n` bytes from `target` on lie before `at` and are UTF-8.
pub open spec fn spec_text_valid(buf: Seq<u8>, target: int, n: int, at: int) -> bool {
    0 <= target && 0 <= n && target + n <= at && at <= buf.len() && valid_utf8(
        buf.subrange(target, target + n),
    )
}

/// Archives text by copying its UTF-8 bytes to the writer. Returns the
/// position of the first byte.
pub fn serialize_str(s: &str, w: &mut Writer) -> (r: Result<usize, SerializeError>)
    requires
        old(w).wf(),
    ensures
        final(w).wf(),
        final(w).spec_limit() == old(w).spec_limit(),
        r is Ok <==> old(w)@.len() + encode_utf8(s@).len() <= old(w).spec_limit(),
        r matches Ok(pos) ==> pos == old(w)@.len() && final(w)@ == old(w)@ + encode_utf8(s@),
        r matches Err(e) ==> e == SerializeError::Writer,
{
    let pos = w.pos();
    match w.write(s.as_bytes()) {
        Ok(()) => Ok(pos),
        Err(e) => Err(e),
    }
}

/// Reads the text of `n` bytes at `target`, which the caller attests to
/// be UTF-8.
pub fn deserialize_str(buf: &[u8], target: usize, n: usize) -> (s: String)
    requires
        target + n <= buf@.len(),
        valid_utf8(buf@.subrange(target as int, target + n)),
    ensures
        s@ == decode_utf8(buf@.subrange(target as int, target + n)),
{
    let _ = buf.len();
    let text = str_from_utf8(slice_subrange(buf, target, target + n)).unwrap();
    proof {
        vstd::utf8::encode_utf8_decode_utf8(text@);
    }
    text.to_owned()
}

impl Archive for String {
    type Resolver = usize;

    open spec fn spec_size() -> int {
        8
    }

    open spec fn spec_align() -> int {
        4
    }

    open spec fn spec_serialized_len(v: Seq<char>, start: int) -> int {
        encode_utf8(v).len() as int
    }

    open spec fn spec_resolves(buf: Seq<u8>, v: Seq<char>, r: usize) -> bool {
        r + encode_utf8(v).len() <= buf.len() && buf.subrange(
            r as int,
            r + encode_utf8(v).len(),
        ) == encode_utf8(v)
    }

    open spec fn spec_resolve(v: Seq<char>, r: usize, at: int) -> Seq<u8> {
        spec_header(at, r as int, encode_utf8(v).len() as int)
    }

    open spec fn spec_access(buf: Seq<u8>, at: int) -> Option<Seq<char>> {
        let target = spec_rel_target(buf, at);
        let n = spec_u32_at(buf, at + 4) as int;
        if spec_header_readable(buf, at) && spec_text_valid(buf, target, n, at) {
            Some(decode_utf8(buf.subrange(target, target + n)))
        } else {
            None
        }
    }

    open spec fn spec_access_error(buf: Seq<u8>, at: int) -> AccessError {
        let target = spec_rel_target(buf, at);
        let n = spec_u32_at(buf, at + 4) as int;
        if !spec_header_readable(buf, at) {
            spec_unreadable_header(buf, at)
        } else if !(0 <= target <= at) {
            AccessError::InvalidPointer
        } else if n > at - target {
            AccessError::OutOfBounds
        } else {
            AccessError::InvalidUtf8
        }
    }

    open spec fn spec_copy_optimized() -> bool {
        false
    }

    proof fn lemma_layout() {
    }

    proof fn lemma_copy_optimized(
        buf: Seq<u8>,
        v: Seq<char>,
        r1: usize,
        r2: usize,
        at1: int,
        at2: int,
    ) {
    }

    proof fn lemma_serialized_len(v: Seq<char>, start: int) {
    }

    proof fn lemma_resolve_len(v: Seq<char>, r: usize, at: int) {
        lemma_auto_spec_u32_to_from_le_bytes();
        assert(spec_rel_ptr(at, r as int).len() == 4);
        assert(spec_u32_to_le_bytes(encode_utf8(v).len() as u32).len() == 4);
    }

    proof fn lemma_resolves_extends(buf: Seq<u8>, longer: Seq<u8>, v: Seq<char>, r: usize) {
        lemma_prefix_subrange(buf, longer, r as int, r + encode_utf8(v).len());
    }

    proof fn lemma_access_extends(buf: Seq<u8>, longer: Seq<u8>, at: int) {
        lemma_header_extends(buf, longer, at);
        let target = spec_rel_target(buf, at);
        let n = spec_u32_at(buf, at + 4) as int;
        lemma_prefix_subrange(buf, longer, target, target + n);
    }

    proof fn lemma_round_trip(buf: Seq<u8>, v: Seq<char>, r: usize, at: int) {
        let bytes = encode_utf8(v);
        lemma_header_round_trip(buf, at, r as int, bytes.len() as int);
        assert(buf.subrange(r as int, r + bytes.len()) =~= buf.subrange(0, at).subrange(
            r as int,
            r + bytes.len(),
        ));
        vstd::utf8::encode_utf8_valid_utf8(v);
        vstd::utf8::encode_utf8_decode_utf8(v);
    }

    fn copy_optimization() -> (b: bool) {
        false
    }

    fn copy_slice(slice: &[String], out: &mut Vec<u8>) {
    }

    fn archived_size() -> (n: usize) {
        8
    }

    fn archived_align() -> (a: usize) {
        4
    }

    fn serialize(&self, w: &mut Writer) -> (r: Result<usize, SerializeError>) {
        let ghost before = w@;
        match serialize_str(self.as_str(), w) {
            Ok(pos) => {
                proof {
                    assert(is_prefix(before, before)) by {
                        assert(before.subrange(0, before.len() as int) =~= before);
                    }
                    lemma_append_keeps(before, before, encode_utf8(self@));
                    assert(w@.subrange(pos as int, pos + encode_utf8(self@).len())
                        =~= encode_utf8(self@));
                }
                Ok(pos)
            },
            Err(e) => Err(e),
        }
    }

    fn resolve(&self, r: usize, place: &mut Place) {
        let count = match archived_str_metadata(self.as_str()) {
            Some(count) => count,
            None => unreached(),
        };
        write_header(place, r, pointer_metadata(count));
    }

    fn check(buf: &[u8], at: usize) -> (r: Result<(), AccessError>) {
        if at % 4 != 0 {
            return Err(AccessError::Misaligned);
        }
        if at > buf.len() || buf.len() - at < 8 {
            return Err(AccessError::OutOfBounds);
        }
        let n = pointer_metadata(read_u32(buf, at + 4));
        match rel_ptr_target(buf, at) {
            Some(target) => {
                if n > at - target {
                    return Err(AccessError::OutOfBounds);
                }
                match str_from_utf8(slice_subrange(buf, target, target + n)) {
                    Some(_) => Ok(()),
                    None => Err(AccessError::InvalidUtf8),
                }
            },
            None => Err(AccessError::InvalidPointer),
        }
    }

    fn deserialize(buf: &[u8], at: usize) -> (v: String) {
        let _ = buf.len();
        let n = pointer_metadata(read_u32(buf, at + 4));
        let target = rel_ptr_target(buf, at).unwrap();
        deserialize_str(buf, target, n)
    }
}

/// Reads the archived text at `at` in place: the text is the bytes of
/// the buffer, nothing is copied. The caller attests that the text is
/// well formed.
pub fn archived_str(buf: &[u8], at: usize) -> (text: &str)
    requires
        <String as Archive>::spec_access(buf@, at as int) is Some,
    ensures
        Some(text@) == <String as Archive>::spec_access(buf@, at as int),
{
    let _ = buf.len();
    let n = pointer_metadata(read_u32(buf, at + 4));
    let target = match rel_ptr_target(buf, at) {
        Some(target) => target,
        None => unreached(),
    };
    let text = match str_from_utf8(slice_subrange(buf, target, target + n)) {
        Some(text) => text,
        None => unreached(),
    };
    proof {
        vstd::utf8::encode_utf8_decode_utf8(text@);
    }
    text
}

} // verus!
