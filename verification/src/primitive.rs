//! Archived integers: fixed-width, little-endian, aligned to their size.

use vstd::prelude::*;
use vstd::bytes::{
    lemma_auto_spec_u16_to_from_le_bytes, lemma_auto_spec_u32_to_from_le_bytes,
    lemma_auto_spec_u64_to_from_le_bytes, spec_u16_from_le_bytes, spec_u16_to_le_bytes,
    spec_u32_from_le_bytes, spec_u32_to_le_bytes, spec_u64_from_le_bytes, spec_u64_to_le_bytes,
    u16_from_le_bytes, u16_to_le_bytes, u32_from_le_bytes, u32_to_le_bytes, u64_from_le_bytes,
    u64_to_le_bytes,
};
use vstd::slice::slice_subrange;
use crate::archive::{is_prefix, Archive, NoResolver};
use crate::error::{AccessError, SerializeError};
use crate::place::{spec_overwrite, Place};
use crate::ser::{append_bytes, Writer};

verus! {

/// A value of `width` bytes can be read at `at`: the position is a
/// multiple of `width` and the bytes lie within the buffer.
pub open spec fn spec_readable(buf: Seq<u8>, at: int, width: int) -> bool {
    0 <= at && at % width == 0 && at + width <= buf.len()
}

/// The error of reading `width` bytes at `at` where they cannot be
/// read.
pub open spec fn spec_unreadable(at: int, width: int) -> AccessError {
    if at % width != 0 {
        AccessError::Misaligned
    } else {
        AccessError::OutOfBounds
    }
}

/// Overwriting a whole sequence gives the new bytes.
pub proof fn lemma_overwrite_all(dst: Seq<u8>, src: Seq<u8>)
    requires
        dst.len() == src.len(),
    ensures
        spec_overwrite(dst, 0, src) == src,
{
    assert(spec_overwrite(dst, 0, src) =~= src);
}

/// A range of a buffer is the same range of any buffer that extends it.
pub proof fn lemma_prefix_subrange(buf: Seq<u8>, longer: Seq<u8>, from: int, to: int)
    requires
        is_prefix(buf, longer),
        0 <= from <= to <= buf.len(),
    ensures
        longer.subrange(from, to) == buf.subrange(from, to),
{
    assert(buf =~= longer.subrange(0, buf.len() as int));
    assert(longer.subrange(from, to) =~= buf.subrange(from, to));
}

/// Appending to a buffer keeps what it began with.
pub proof fn lemma_append_keeps(start: Seq<u8>, buf: Seq<u8>, more: Seq<u8>)
    requires
        is_prefix(start, buf),
    ensures
        is_prefix(start, buf + more),
        is_prefix(buf, buf + more),
{
    assert((buf + more).subrange(0, start.len() as int) =~= buf.subrange(0, start.len() as int));
    assert((buf + more).subrange(0, buf.len() as int) =~= buf);
}

/// Checks that `width` bytes can be read at `at`.
pub fn check_readable(buf: &[u8], at: usize, width: usize) -> (r: Result<(), AccessError>)
    requires
        width > 0,
    ensures
        r is Ok <==> spec_readable(buf@, at as int, width as int),
        r matches Err(e) ==> e == spec_unreadable(at as int, width as int),
{
    if at % width != 0 {
        Err(AccessError::Misaligned)
    } else if at > buf.len() || buf.len() - at < width {
        Err(AccessError::OutOfBounds)
    } else {
        Ok(())
    }
}

/// The byte that stands for a truth value.
pub open spec fn spec_bool_byte(b: bool) -> u8 {
    if b {
        1
    } else {
        0
    }
}

impl Archive for u32 {
    type Resolver = NoResolver;

    open spec fn spec_size() -> int {
        4
    }

    open spec fn spec_align() -> int {
        4
    }

    open spec fn spec_serialized_len(v: u32, start: int) -> int {
        0
    }

    open spec fn spec_resolves(buf: Seq<u8>, v: u32, r: NoResolver) -> bool {
        true
    }

    open spec fn spec_resolve(v: u32, r: NoResolver, at: int) -> Seq<u8> {
        spec_u32_to_le_bytes(v)
    }

    open spec fn spec_access(buf: Seq<u8>, at: int) -> Option<u32> {
        if spec_readable(buf, at, 4) {
            Some(spec_u32_from_le_bytes(buf.subrange(at, at + 4)))
        } else {
            None
        }
    }

    open spec fn spec_access_error(buf: Seq<u8>, at: int) -> AccessError {
        spec_unreadable(at, 4)
    }

    open spec fn spec_copy_optimized() -> bool {
        true
    }

    proof fn lemma_layout() {
    }

    proof fn lemma_copy_optimized(buf: Seq<u8>, v: u32, r1: NoResolver, r2: NoResolver, at1: int, at2: int) {
    }

    fn copy_optimization() -> (b: bool) {
        true
    }

    fn copy_slice(slice: &[u32], out: &mut Vec<u8>) {
        let mut i: usize = 0;
        assert(out@.subrange(0, out@.len() as int) =~= out@);
        while i < slice.len()
            invariant
                i <= slice@.len(),
                out@.len() == old(out)@.len() + i * 4,
                is_prefix(old(out)@, out@),
                forall|j: int|
                    0 <= j < i ==> #[trigger] out@.subrange(
                        old(out)@.len() + j * 4,
                        old(out)@.len() + j * 4 + 4,
                    ) == spec_u32_to_le_bytes(slice@[j]),
            decreases slice@.len() - i,
        {
            let ghost before = out@;
            let bytes = u32_to_le_bytes(slice[i]);
            append_bytes(out, bytes.as_slice());
            proof {
                lemma_append_keeps(old(out)@, before, bytes@);
                assert forall|j: int| 0 <= j < i + 1 implies #[trigger] out@.subrange(
                    old(out)@.len() + j * 4,
                    old(out)@.len() + j * 4 + 4,
                ) == spec_u32_to_le_bytes(slice@[j]) by {
                    if j < i {
                        assert(out@.subrange(old(out)@.len() + j * 4, old(out)@.len() + j * 4 + 4)
                            =~= before.subrange(
                            old(out)@.len() + j * 4,
                            old(out)@.len() + j * 4 + 4,
                        ));
                    } else {
                        assert(out@.subrange(old(out)@.len() + j * 4, old(out)@.len() + j * 4 + 4)
                            =~= bytes@);
                    }
                }
            }
            i = i + 1;
        }
    }

    proof fn lemma_serialized_len(v: u32, start: int) {
    }

    proof fn lemma_resolve_len(v: u32, r: NoResolver, at: int) {
        lemma_auto_spec_u32_to_from_le_bytes();
    }

    proof fn lemma_resolves_extends(buf: Seq<u8>, longer: Seq<u8>, v: u32, r: NoResolver) {
    }

    proof fn lemma_access_extends(buf: Seq<u8>, longer: Seq<u8>, at: int) {
        lemma_prefix_subrange(buf, longer, at, at + 4);
    }

    proof fn lemma_round_trip(buf: Seq<u8>, v: u32, r: NoResolver, at: int) {
        lemma_auto_spec_u32_to_from_le_bytes();
        assert(spec_u32_to_le_bytes(v).len() == 4);
    }

    fn archived_size() -> (n: usize) {
        4
    }

    fn archived_align() -> (a: usize) {
        4
    }

    fn serialize(&self, w: &mut Writer) -> (r: Result<NoResolver, SerializeError>) {
        let _ = w.pos();
        assert(w@.subrange(0, w@.len() as int) =~= w@);
        Ok(NoResolver)
    }

    fn resolve(&self, r: NoResolver, place: &mut Place) {
        let bytes = u32_to_le_bytes(*self);
        place.write(0, bytes.as_slice());
        proof {
            lemma_overwrite_all(old(place)@, bytes@);
        }
    }

    fn check(buf: &[u8], at: usize) -> (r: Result<(), AccessError>) {
        check_readable(buf, at, 4)
    }

    fn deserialize(buf: &[u8], at: usize) -> (v: u32) {
        let _ = buf.len();
        u32_from_le_bytes(slice_subrange(buf, at, at + 4))
    }
}

impl Archive for u16 {
    type Resolver = NoResolver;

    open spec fn spec_size() -> int {
        2
    }

    open spec fn spec_align() -> int {
        2
    }

    open spec fn spec_serialized_len(v: u16, start: int) -> int {
        0
    }

    open spec fn spec_resolves(buf: Seq<u8>, v: u16, r: NoResolver) -> bool {
        true
    }

    open spec fn spec_resolve(v: u16, r: NoResolver, at: int) -> Seq<u8> {
        spec_u16_to_le_bytes(v)
    }

    open spec fn spec_access(buf: Seq<u8>, at: int) -> Option<u16> {
        if spec_readable(buf, at, 2) {
            Some(spec_u16_from_le_bytes(buf.subrange(at, at + 2)))
        } else {
            None
        }
    }

    open spec fn spec_access_error(buf: Seq<u8>, at: int) -> AccessError {
        spec_unreadable(at, 2)
    }

    open spec fn spec_copy_optimized() -> bool {
        true
    }

    proof fn lemma_layout() {
    }

    proof fn lemma_copy_optimized(buf: Seq<u8>, v: u16, r1: NoResolver, r2: NoResolver, at1: int, at2: int) {
    }

    fn copy_optimization() -> (b: bool) {
        true
    }

    fn copy_slice(slice: &[u16], out: &mut Vec<u8>) {
        let mut i: usize = 0;
        assert(out@.subrange(0, out@.len() as int) =~= out@);
        while i < slice.len()
            invariant
                i <= slice@.len(),
                out@.len() == old(out)@.len() + i * 2,
                is_prefix(old(out)@, out@),
                forall|j: int|
                    0 <= j < i ==> #[trigger] out@.subrange(
                        old(out)@.len() + j * 2,
                        old(out)@.len() + j * 2 + 2,
                    ) == spec_u16_to_le_bytes(slice@[j]),
            decreases slice@.len() - i,
        {
            let ghost before = out@;
            let bytes = u16_to_le_bytes(slice[i]);
            append_bytes(out, bytes.as_slice());
            proof {
                lemma_append_keeps(old(out)@, before, bytes@);
                assert forall|j: int| 0 <= j < i + 1 implies #[trigger] out@.subrange(
                    old(out)@.len() + j * 2,
                    old(out)@.len() + j * 2 + 2,
                ) == spec_u16_to_le_bytes(slice@[j]) by {
                    if j < i {
                        assert(out@.subrange(old(out)@.len() + j * 2, old(out)@.len() + j * 2 + 2)
                            =~= before.subrange(
                            old(out)@.len() + j * 2,
                            old(out)@.len() + j * 2 + 2,
                        ));
                    } else {
                        assert(out@.subrange(old(out)@.len() + j * 2, old(out)@.len() + j * 2 + 2)
                            =~= bytes@);
                    }
                }
            }
            i = i + 1;
        }
    }

    proof fn lemma_serialized_len(v: u16, start: int) {
    }

    proof fn lemma_resolve_len(v: u16, r: NoResolver, at: int) {
        lemma_auto_spec_u16_to_from_le_bytes();
    }

    proof fn lemma_resolves_extends(buf: Seq<u8>, longer: Seq<u8>, v: u16, r: NoResolver) {
    }

    proof fn lemma_access_extends(buf: Seq<u8>, longer: Seq<u8>, at: int) {
        lemma_prefix_subrange(buf, longer, at, at + 2);
    }

    proof fn lemma_round_trip(buf: Seq<u8>, v: u16, r: NoResolver, at: int) {
        lemma_auto_spec_u16_to_from_le_bytes();
        assert(spec_u16_to_le_bytes(v).len() == 2);
    }

    fn archived_size() -> (n: usize) {
        2
    }

    fn archived_align() -> (a: usize) {
        2
    }

    fn serialize(&self, w: &mut Writer) -> (r: Result<NoResolver, SerializeError>) {
        let _ = w.pos();
        assert(w@.subrange(0, w@.len() as int) =~= w@);
        Ok(NoResolver)
    }

    fn resolve(&self, r: NoResolver, place: &mut Place) {
        let bytes = u16_to_le_bytes(*self);
        place.write(0, bytes.as_slice());
        proof {
            lemma_overwrite_all(old(place)@, bytes@);
        }
    }

    fn check(buf: &[u8], at: usize) -> (r: Result<(), AccessError>) {
        check_readable(buf, at, 2)
    }

    fn deserialize(buf: &[u8], at: usize) -> (v: u16) {
        let _ = buf.len();
        u16_from_le_bytes(slice_subrange(buf, at, at + 2))
    }
}

impl Archive for u64 {
    type Resolver = NoResolver;

    open spec fn spec_size() -> int {
        8
    }

    open spec fn spec_align() -> int {
        8
    }

    open spec fn spec_serialized_len(v: u64, start: int) -> int {
        0
    }

    open spec fn spec_resolves(buf: Seq<u8>, v: u64, r: NoResolver) -> bool {
        true
    }

    open spec fn spec_resolve(v: u64, r: NoResolver, at: int) -> Seq<u8> {
        spec_u64_to_le_bytes(v)
    }

    open spec fn spec_access(buf: Seq<u8>, at: int) -> Option<u64> {
        if spec_readable(buf, at, 8) {
            Some(spec_u64_from_le_bytes(buf.subrange(at, at + 8)))
        } else {
            None
        }
    }

    open spec fn spec_access_error(buf: Seq<u8>, at: int) -> AccessError {
        spec_unreadable(at, 8)
    }

    open spec fn spec_copy_optimized() -> bool {
        true
    }

    proof fn lemma_layout() {
    }

    proof fn lemma_copy_optimized(buf: Seq<u8>, v: u64, r1: NoResolver, r2: NoResolver, at1: int, at2: int) {
    }

    fn copy_optimization() -> (b: bool) {
        true
    }

    fn copy_slice(slice: &[u64], out: &mut Vec<u8>) {
        let mut i: usize = 0;
        assert(out@.subrange(0, out@.len() as int) =~= out@);
        while i < slice.len()
            invariant
                i <= slice@.len(),
                out@.len() == old(out)@.len() + i * 8,
                is_prefix(old(out)@, out@),
                forall|j: int|
                    0 <= j < i ==> #[trigger] out@.subrange(
                        old(out)@.len() + j * 8,
                        old(out)@.len() + j * 8 + 8,
                    ) == spec_u64_to_le_bytes(slice@[j]),
            decreases slice@.len() - i,
        {
            let ghost before = out@;
            let bytes = u64_to_le_bytes(slice[i]);
            append_bytes(out, bytes.as_slice());
            proof {
                lemma_append_keeps(old(out)@, before, bytes@);
                assert forall|j: int| 0 <= j < i + 1 implies #[trigger] out@.subrange(
                    old(out)@.len() + j * 8,
                    old(out)@.len() + j * 8 + 8,
                ) == spec_u64_to_le_bytes(slice@[j]) by {
                    if j < i {
                        assert(out@.subrange(old(out)@.len() + j * 8, old(out)@.len() + j * 8 + 8)
                            =~= before.subrange(
                            old(out)@.len() + j * 8,
                            old(out)@.len() + j * 8 + 8,
                        ));
                    } else {
                        assert(out@.subrange(old(out)@.len() + j * 8, old(out)@.len() + j * 8 + 8)
                            =~= bytes@);
                    }
                }
            }
            i = i + 1;
        }
    }

    proof fn lemma_serialized_len(v: u64, start: int) {
    }

    proof fn lemma_resolve_len(v: u64, r: NoResolver, at: int) {
        lemma_auto_spec_u64_to_from_le_bytes();
    }

    proof fn lemma_resolves_extends(buf: Seq<u8>, longer: Seq<u8>, v: u64, r: NoResolver) {
    }

    proof fn lemma_access_extends(buf: Seq<u8>, longer: Seq<u8>, at: int) {
        lemma_prefix_subrange(buf, longer, at, at + 8);
    }

    proof fn lemma_round_trip(buf: Seq<u8>, v: u64, r: NoResolver, at: int) {
        lemma_auto_spec_u64_to_from_le_bytes();
        assert(spec_u64_to_le_bytes(v).len() == 8);
    }

    fn archived_size() -> (n: usize) {
        8
    }

    fn archived_align() -> (a: usize) {
        8
    }

    fn serialize(&self, w: &mut Writer) -> (r: Result<NoResolver, SerializeError>) {
        let _ = w.pos();
        assert(w@.subrange(0, w@.len() as int) =~= w@);
        Ok(NoResolver)
    }

    fn resolve(&self, r: NoResolver, place: &mut Place) {
        let bytes = u64_to_le_bytes(*self);
        place.write(0, bytes.as_slice());
        proof {
            lemma_overwrite_all(old(place)@, bytes@);
        }
    }

    fn check(buf: &[u8], at: usize) -> (r: Result<(), AccessError>) {
        check_readable(buf, at, 8)
    }

    fn deserialize(buf: &[u8], at: usize) -> (v: u64) {
        let _ = buf.len();
        u64_from_le_bytes(slice_subrange(buf, at, at + 8))
    }
}

impl Archive for i32 {
    type Resolver = NoResolver;

    open spec fn spec_size() -> int {
        4
    }

    open spec fn spec_align() -> int {
        4
    }

    open spec fn spec_serialized_len(v: i32, start: int) -> int {
        0
    }

    open spec fn spec_resolves(buf: Seq<u8>, v: i32, r: NoResolver) -> bool {
        true
    }

    open spec fn spec_resolve(v: i32, r: NoResolver, at: int) -> Seq<u8> {
        spec_u32_to_le_bytes(v as u32)
    }

    open spec fn spec_access(buf: Seq<u8>, at: int) -> Option<i32> {
        if spec_readable(buf, at, 4) {
            Some(spec_u32_from_le_bytes(buf.subrange(at, at + 4)) as i32)
        } else {
            None
        }
    }

    open spec fn spec_access_error(buf: Seq<u8>, at: int) -> AccessError {
        spec_unreadable(at, 4)
    }

    open spec fn spec_copy_optimized() -> bool {
        true
    }

    proof fn lemma_layout() {
    }

    proof fn lemma_copy_optimized(buf: Seq<u8>, v: i32, r1: NoResolver, r2: NoResolver, at1: int, at2: int) {
    }

    fn copy_optimization() -> (b: bool) {
        true
    }

    fn copy_slice(slice: &[i32], out: &mut Vec<u8>) {
        let mut i: usize = 0;
        assert(out@.subrange(0, out@.len() as int) =~= out@);
        while i < slice.len()
            invariant
                i <= slice@.len(),
                out@.len() == old(out)@.len() + i * 4,
                is_prefix(old(out)@, out@),
                forall|j: int|
                    0 <= j < i ==> #[trigger] out@.subrange(
                        old(out)@.len() + j * 4,
                        old(out)@.len() + j * 4 + 4,
                    ) == spec_u32_to_le_bytes(slice@[j] as u32),
            decreases slice@.len() - i,
        {
            let ghost before = out@;
            let bytes = u32_to_le_bytes(slice[i] as u32);
            append_bytes(out, bytes.as_slice());
            proof {
                lemma_append_keeps(old(out)@, before, bytes@);
                assert forall|j: int| 0 <= j < i + 1 implies #[trigger] out@.subrange(
                    old(out)@.len() + j * 4,
                    old(out)@.len() + j * 4 + 4,
                ) == spec_u32_to_le_bytes(slice@[j] as u32) by {
                    if j < i {
                        assert(out@.subrange(old(out)@.len() + j * 4, old(out)@.len() + j * 4 + 4)
                            =~= before.subrange(
                            old(out)@.len() + j * 4,
                            old(out)@.len() + j * 4 + 4,
                        ));
                    } else {
                        assert(out@.subrange(old(out)@.len() + j * 4, old(out)@.len() + j * 4 + 4)
                            =~= bytes@);
                    }
                }
            }
            i = i + 1;
        }
    }

    proof fn lemma_serialized_len(v: i32, start: int) {
    }

    proof fn lemma_resolve_len(v: i32, r: NoResolver, at: int) {
        lemma_auto_spec_u32_to_from_le_bytes();
    }

    proof fn lemma_resolves_extends(buf: Seq<u8>, longer: Seq<u8>, v: i32, r: NoResolver) {
    }

    proof fn lemma_access_extends(buf: Seq<u8>, longer: Seq<u8>, at: int) {
        lemma_prefix_subrange(buf, longer, at, at + 4);
    }

    proof fn lemma_round_trip(buf: Seq<u8>, v: i32, r: NoResolver, at: int) {
        lemma_auto_spec_u32_to_from_le_bytes();
        assert(spec_u32_to_le_bytes(v as u32).len() == 4);
        assert((v as u32) as i32 == v) by (bit_vector);
    }

    fn archived_size() -> (n: usize) {
        4
    }

    fn archived_align() -> (a: usize) {
        4
    }

    fn serialize(&self, w: &mut Writer) -> (r: Result<NoResolver, SerializeError>) {
        let _ = w.pos();
        assert(w@.subrange(0, w@.len() as int) =~= w@);
        Ok(NoResolver)
    }

    fn resolve(&self, r: NoResolver, place: &mut Place) {
        let bytes = u32_to_le_bytes(*self as u32);
        place.write(0, bytes.as_slice());
        proof {
            lemma_overwrite_all(old(place)@, bytes@);
        }
    }

    fn check(buf: &[u8], at: usize) -> (r: Result<(), AccessError>) {
        check_readable(buf, at, 4)
    }

    fn deserialize(buf: &[u8], at: usize) -> (v: i32) {
        let _ = buf.len();
        u32_from_le_bytes(slice_subrange(buf, at, at + 4)) as i32
    }
}

impl Archive for i64 {
    type Resolver = NoResolver;

    open spec fn spec_size() -> int {
        8
    }

    open spec fn spec_align() -> int {
        8
    }

    open spec fn spec_serialized_len(v: i64, start: int) -> int {
        0
    }

    open spec fn spec_resolves(buf: Seq<u8>, v: i64, r: NoResolver) -> bool {
        true
    }

    open spec fn spec_resolve(v: i64, r: NoResolver, at: int) -> Seq<u8> {
        spec_u64_to_le_bytes(v as u64)
    }

    open spec fn spec_access(buf: Seq<u8>, at: int) -> Option<i64> {
        if spec_readable(buf, at, 8) {
            Some(spec_u64_from_le_bytes(buf.subrange(at, at + 8)) as i64)
        } else {
            None
        }
    }

    open spec fn spec_access_error(buf: Seq<u8>, at: int) -> AccessError {
        spec_unreadable(at, 8)
    }

    open spec fn spec_copy_optimized() -> bool {
        true
    }

    proof fn lemma_layout() {
    }

    proof fn lemma_copy_optimized(buf: Seq<u8>, v: i64, r1: NoResolver, r2: NoResolver, at1: int, at2: int) {
    }

    fn copy_optimization() -> (b: bool) {
        true
    }

    fn copy_slice(slice: &[i64], out: &mut Vec<u8>) {
        let mut i: usize = 0;
        assert(out@.subrange(0, out@.len() as int) =~= out@);
        while i < slice.len()
            invariant
                i <= slice@.len(),
                out@.len() == old(out)@.len() + i * 8,
                is_prefix(old(out)@, out@),
                forall|j: int|
                    0 <= j < i ==> #[trigger] out@.subrange(
                        old(out)@.len() + j * 8,
                        old(out)@.len() + j * 8 + 8,
                    ) == spec_u64_to_le_bytes(slice@[j] as u64),
            decreases slice@.len() - i,
        {
            let ghost before = out@;
            let bytes = u64_to_le_bytes(slice[i] as u64);
            append_bytes(out, bytes.as_slice());
            proof {
                lemma_append_keeps(old(out)@, before, bytes@);
                assert forall|j: int| 0 <= j < i + 1 implies #[trigger] out@.subrange(
                    old(out)@.len() + j * 8,
                    old(out)@.len() + j * 8 + 8,
                ) == spec_u64_to_le_bytes(slice@[j] as u64) by {
                    if j < i {
                        assert(out@.subrange(old(out)@.len() + j * 8, old(out)@.len() + j * 8 + 8)
                            =~= before.subrange(
                            old(out)@.len() + j * 8,
                            old(out)@.len() + j * 8 + 8,
                        ));
                    } else {
                        assert(out@.subrange(old(out)@.len() + j * 8, old(out)@.len() + j * 8 + 8)
                            =~= bytes@);
                    }
                }
            }
            i = i + 1;
        }
    }

    proof fn lemma_serialized_len(v: i64, start: int) {
    }

    proof fn lemma_resolve_len(v: i64, r: NoResolver, at: int) {
        lemma_auto_spec_u64_to_from_le_bytes();
    }

    proof fn lemma_resolves_extends(buf: Seq<u8>, longer: Seq<u8>, v: i64, r: NoResolver) {
    }

    proof fn lemma_access_extends(buf: Seq<u8>, longer: Seq<u8>, at: int) {
        lemma_prefix_subrange(buf, longer, at, at + 8);
    }

    proof fn lemma_round_trip(buf: Seq<u8>, v: i64, r: NoResolver, at: int) {
        lemma_auto_spec_u64_to_from_le_bytes();
        assert(spec_u64_to_le_bytes(v as u64).len() == 8);
        assert((v as u64) as i64 == v) by (bit_vector);
    }

    fn archived_size() -> (n: usize) {
        8
    }

    fn archived_align() -> (a: usize) {
        8
    }

    fn serialize(&self, w: &mut Writer) -> (r: Result<NoResolver, SerializeError>) {
        let _ = w.pos();
        assert(w@.subrange(0, w@.len() as int) =~= w@);
        Ok(NoResolver)
    }

    fn resolve(&self, r: NoResolver, place: &mut Place) {
        let bytes = u64_to_le_bytes(*self as u64);
        place.write(0, bytes.as_slice());
        proof {
            lemma_overwrite_all(old(place)@, bytes@);
        }
    }

    fn check(buf: &[u8], at: usize) -> (r: Result<(), AccessError>) {
        check_readable(buf, at, 8)
    }

    fn deserialize(buf: &[u8], at: usize) -> (v: i64) {
        let _ = buf.len();
        u64_from_le_bytes(slice_subrange(buf, at, at + 8)) as i64
    }
}

impl Archive for u8 {
    type Resolver = NoResolver;

    open spec fn spec_size() -> int {
        1
    }

    open spec fn spec_align() -> int {
        1
    }

    open spec fn spec_serialized_len(v: u8, start: int) -> int {
        0
    }

    open spec fn spec_resolves(buf: Seq<u8>, v: u8, r: NoResolver) -> bool {
        true
    }

    open spec fn spec_resolve(v: u8, r: NoResolver, at: int) -> Seq<u8> {
        seq![v]
    }

    open spec fn spec_access(buf: Seq<u8>, at: int) -> Option<u8> {
        if spec_readable(buf, at, 1) {
            Some(buf[at])
        } else {
            None
        }
    }

    open spec fn spec_access_error(buf: Seq<u8>, at: int) -> AccessError {
        spec_unreadable(at, 1)
    }

    open spec fn spec_copy_optimized() -> bool {
        true
    }

    proof fn lemma_layout() {
    }

    proof fn lemma_copy_optimized(buf: Seq<u8>, v: u8, r1: NoResolver, r2: NoResolver, at1: int, at2: int) {
    }

    fn copy_optimization() -> (b: bool) {
        true
    }

    fn copy_slice(slice: &[u8], out: &mut Vec<u8>) {
        let mut i: usize = 0;
        assert(out@.subrange(0, out@.len() as int) =~= out@);
        while i < slice.len()
            invariant
                i <= slice@.len(),
                out@.len() == old(out)@.len() + i * 1,
                is_prefix(old(out)@, out@),
                forall|j: int|
                    0 <= j < i ==> #[trigger] out@.subrange(
                        old(out)@.len() + j * 1,
                        old(out)@.len() + j * 1 + 1,
                    ) == seq![slice@[j]],
            decreases slice@.len() - i,
        {
            let ghost before = out@;
            let bytes = vec![slice[i]];
            append_bytes(out, bytes.as_slice());
            proof {
                lemma_append_keeps(old(out)@, before, bytes@);
                assert forall|j: int| 0 <= j < i + 1 implies #[trigger] out@.subrange(
                    old(out)@.len() + j * 1,
                    old(out)@.len() + j * 1 + 1,
                ) == seq![slice@[j]] by {
                    if j < i {
                        assert(out@.subrange(old(out)@.len() + j * 1, old(out)@.len() + j * 1 + 1)
                            =~= before.subrange(
                            old(out)@.len() + j * 1,
                            old(out)@.len() + j * 1 + 1,
                        ));
                    } else {
                        assert(out@.subrange(old(out)@.len() + j * 1, old(out)@.len() + j * 1 + 1)
                            =~= bytes@);
                    }
                }
            }
            i = i + 1;
        }
    }

    proof fn lemma_serialized_len(v: u8, start: int) {
    }

    proof fn lemma_resolve_len(v: u8, r: NoResolver, at: int) {
    }

    proof fn lemma_resolves_extends(buf: Seq<u8>, longer: Seq<u8>, v: u8, r: NoResolver) {
    }

    proof fn lemma_access_extends(buf: Seq<u8>, longer: Seq<u8>, at: int) {
        lemma_prefix_subrange(buf, longer, at, at + 1);
        assert(buf.subrange(at, at + 1)[0] == buf[at]);
        assert(longer.subrange(at, at + 1)[0] == longer[at]);
    }

    proof fn lemma_round_trip(buf: Seq<u8>, v: u8, r: NoResolver, at: int) {
        assert(buf.subrange(at, at + 1)[0] == buf[at]);
    }

    fn archived_size() -> (n: usize) {
        1
    }

    fn archived_align() -> (a: usize) {
        1
    }

    fn serialize(&self, w: &mut Writer) -> (r: Result<NoResolver, SerializeError>) {
        let _ = w.pos();
        assert(w@.subrange(0, w@.len() as int) =~= w@);
        Ok(NoResolver)
    }

    fn resolve(&self, r: NoResolver, place: &mut Place) {
        let bytes = vec![*self];
        place.write(0, bytes.as_slice());
        proof {
            lemma_overwrite_all(old(place)@, bytes@);
        }
    }

    fn check(buf: &[u8], at: usize) -> (r: Result<(), AccessError>) {
        check_readable(buf, at, 1)
    }

    fn deserialize(buf: &[u8], at: usize) -> (v: u8) {
        buf[at]
    }
}

impl Archive for bool {
    type Resolver = NoResolver;

    open spec fn spec_size() -> int {
        1
    }

    open spec fn spec_align() -> int {
        1
    }

    open spec fn spec_serialized_len(v: bool, start: int) -> int {
        0
    }

    open spec fn spec_resolves(buf: Seq<u8>, v: bool, r: NoResolver) -> bool {
        true
    }

    open spec fn spec_resolve(v: bool, r: NoResolver, at: int) -> Seq<u8> {
        seq![spec_bool_byte(v)]
    }

    open spec fn spec_access(buf: Seq<u8>, at: int) -> Option<bool> {
        if spec_readable(buf, at, 1) && buf[at] <= 1 {
            Some(buf[at] == 1)
        } else {
            None
        }
    }

    open spec fn spec_access_error(buf: Seq<u8>, at: int) -> AccessError {
        if spec_readable(buf, at, 1) {
            AccessError::InvalidTag
        } else {
            spec_unreadable(at, 1)
        }
    }

    open spec fn spec_copy_optimized() -> bool {
        true
    }

    proof fn lemma_layout() {
    }

    proof fn lemma_copy_optimized(buf: Seq<u8>, v: bool, r1: NoResolver, r2: NoResolver, at1: int, at2: int) {
    }

    fn copy_optimization() -> (b: bool) {
        true
    }

    fn copy_slice(slice: &[bool], out: &mut Vec<u8>) {
        let mut i: usize = 0;
        assert(out@.subrange(0, out@.len() as int) =~= out@);
        while i < slice.len()
            invariant
                i <= slice@.len(),
                out@.len() == old(out)@.len() + i * 1,
                is_prefix(old(out)@, out@),
                forall|j: int|
                    0 <= j < i ==> #[trigger] out@.subrange(
                        old(out)@.len() + j * 1,
                        old(out)@.len() + j * 1 + 1,
                    ) == seq![spec_bool_byte(slice@[j])],
            decreases slice@.len() - i,
        {
            let ghost before = out@;
            let bytes = vec![if slice[i] { 1u8 } else { 0u8 }];
            append_bytes(out, bytes.as_slice());
            proof {
                lemma_append_keeps(old(out)@, before, bytes@);
                assert forall|j: int| 0 <= j < i + 1 implies #[trigger] out@.subrange(
                    old(out)@.len() + j * 1,
                    old(out)@.len() + j * 1 + 1,
                ) == seq![spec_bool_byte(slice@[j])] by {
                    if j < i {
                        assert(out@.subrange(old(out)@.len() + j * 1, old(out)@.len() + j * 1 + 1)
                            =~= before.subrange(
                            old(out)@.len() + j * 1,
                            old(out)@.len() + j * 1 + 1,
                        ));
                    } else {
                        assert(out@.subrange(old(out)@.len() + j * 1, old(out)@.len() + j * 1 + 1)
                            =~= bytes@);
                    }
                }
            }
            i = i + 1;
        }
    }

    proof fn lemma_serialized_len(v: bool, start: int) {
    }

    proof fn lemma_resolve_len(v: bool, r: NoResolver, at: int) {
    }

    proof fn lemma_resolves_extends(buf: Seq<u8>, longer: Seq<u8>, v: bool, r: NoResolver) {
    }

    proof fn lemma_access_extends(buf: Seq<u8>, longer: Seq<u8>, at: int) {
        lemma_prefix_subrange(buf, longer, at, at + 1);
        assert(buf.subrange(at, at + 1)[0] == buf[at]);
        assert(longer.subrange(at, at + 1)[0] == longer[at]);
    }

    proof fn lemma_round_trip(buf: Seq<u8>, v: bool, r: NoResolver, at: int) {
        assert(buf.subrange(at, at + 1)[0] == buf[at]);
    }

    fn archived_size() -> (n: usize) {
        1
    }

    fn archived_align() -> (a: usize) {
        1
    }

    fn serialize(&self, w: &mut Writer) -> (r: Result<NoResolver, SerializeError>) {
        let _ = w.pos();
        assert(w@.subrange(0, w@.len() as int) =~= w@);
        Ok(NoResolver)
    }

    fn resolve(&self, r: NoResolver, place: &mut Place) {
        let bytes = vec![if *self { 1u8 } else { 0u8 }];
        place.write(0, bytes.as_slice());
        proof {
            lemma_overwrite_all(old(place)@, bytes@);
        }
    }

    fn check(buf: &[u8], at: usize) -> (r: Result<(), AccessError>) {
        match check_readable(buf, at, 1) {
            Ok(()) => if buf[at] <= 1 {
                Ok(())
            } else {
                Err(AccessError::InvalidTag)
            },
            Err(e) => Err(e),
        }
    }

    fn deserialize(buf: &[u8], at: usize) -> (v: bool) {
        buf[at] == 1
    }
}

impl Archive for () {
    type Resolver = NoResolver;

    open spec fn spec_size() -> int {
        1
    }

    open spec fn spec_align() -> int {
        1
    }

    open spec fn spec_serialized_len(v: (), start: int) -> int {
        0
    }

    open spec fn spec_resolves(buf: Seq<u8>, v: (), r: NoResolver) -> bool {
        true
    }

    open spec fn spec_resolve(v: (), r: NoResolver, at: int) -> Seq<u8> {
        seq![0u8]
    }

    open spec fn spec_access(buf: Seq<u8>, at: int) -> Option<()> {
        if spec_readable(buf, at, 1) && buf[at] == 0 {
            Some(())
        } else {
            None
        }
    }

    open spec fn spec_access_error(buf: Seq<u8>, at: int) -> AccessError {
        if spec_readable(buf, at, 1) {
            AccessError::InvalidTag
        } else {
            spec_unreadable(at, 1)
        }
    }

    open spec fn spec_copy_optimized() -> bool {
        true
    }

    proof fn lemma_layout() {
    }

    proof fn lemma_copy_optimized(buf: Seq<u8>, v: (), r1: NoResolver, r2: NoResolver, at1: int, at2: int) {
    }

    fn copy_optimization() -> (b: bool) {
        true
    }

    fn copy_slice(slice: &[()], out: &mut Vec<u8>) {
        let mut i: usize = 0;
        assert(out@.subrange(0, out@.len() as int) =~= out@);
        while i < slice.len()
            invariant
                i <= slice@.len(),
                out@.len() == old(out)@.len() + i * 1,
                is_prefix(old(out)@, out@),
                forall|j: int|
                    0 <= j < i ==> #[trigger] out@.subrange(
                        old(out)@.len() + j * 1,
                        old(out)@.len() + j * 1 + 1,
                    ) == seq![0u8],
            decreases slice@.len() - i,
        {
            let ghost before = out@;
            let bytes = vec![0u8];
            append_bytes(out, bytes.as_slice());
            proof {
                lemma_append_keeps(old(out)@, before, bytes@);
                assert forall|j: int| 0 <= j < i + 1 implies #[trigger] out@.subrange(
                    old(out)@.len() + j * 1,
                    old(out)@.len() + j * 1 + 1,
                ) == seq![0u8] by {
                    if j < i {
                        assert(out@.subrange(old(out)@.len() + j * 1, old(out)@.len() + j * 1 + 1)
                            =~= before.subrange(
                            old(out)@.len() + j * 1,
                            old(out)@.len() + j * 1 + 1,
                        ));
                    } else {
                        assert(out@.subrange(old(out)@.len() + j * 1, old(out)@.len() + j * 1 + 1)
                            =~= bytes@);
                    }
                }
            }
            i = i + 1;
        }
    }

    proof fn lemma_serialized_len(v: (), start: int) {
    }

    proof fn lemma_resolve_len(v: (), r: NoResolver, at: int) {
    }

    proof fn lemma_resolves_extends(buf: Seq<u8>, longer: Seq<u8>, v: (), r: NoResolver) {
    }

    proof fn lemma_access_extends(buf: Seq<u8>, longer: Seq<u8>, at: int) {
        lemma_prefix_subrange(buf, longer, at, at + 1);
        assert(buf.subrange(at, at + 1)[0] == buf[at]);
        assert(longer.subrange(at, at + 1)[0] == longer[at]);
    }

    proof fn lemma_round_trip(buf: Seq<u8>, v: (), r: NoResolver, at: int) {
        assert(buf.subrange(at, at + 1)[0] == buf[at]);
    }

    fn archived_size() -> (n: usize) {
        1
    }

    fn archived_align() -> (a: usize) {
        1
    }

    fn serialize(&self, w: &mut Writer) -> (r: Result<NoResolver, SerializeError>) {
        let _ = w.pos();
        assert(w@.subrange(0, w@.len() as int) =~= w@);
        Ok(NoResolver)
    }

    fn resolve(&self, r: NoResolver, place: &mut Place) {
        let bytes = vec![0u8];
        place.write(0, bytes.as_slice());
        proof {
            lemma_overwrite_all(old(place)@, bytes@);
        }
    }

    fn check(buf: &[u8], at: usize) -> (r: Result<(), AccessError>) {
        match check_readable(buf, at, 1) {
            Ok(()) => if buf[at] == 0 {
                Ok(())
            } else {
                Err(AccessError::InvalidTag)
            },
            Err(e) => Err(e),
        }
    }

    fn deserialize(buf: &[u8], at: usize) -> (v: ()) {
        ()
    }
}

impl Archive for i16 {
    type Resolver = NoResolver;

    open spec fn spec_size() -> int {
        2
    }

    open spec fn spec_align() -> int {
        2
    }

    open spec fn spec_serialized_len(v: i16, start: int) -> int {
        0
    }

    open spec fn spec_resolves(buf: Seq<u8>, v: i16, r: NoResolver) -> bool {
        true
    }

    open spec fn spec_resolve(v: i16, r: NoResolver, at: int) -> Seq<u8> {
        spec_u16_to_le_bytes(v as u16)
    }

    open spec fn spec_access(buf: Seq<u8>, at: int) -> Option<i16> {
        if spec_readable(buf, at, 2) {
            Some(spec_u16_from_le_bytes(buf.subrange(at, at + 2)) as i16)
        } else {
            None
        }
    }

    open spec fn spec_access_error(buf: Seq<u8>, at: int) -> AccessError {
        spec_unreadable(at, 2)
    }

    open spec fn spec_copy_optimized() -> bool {
        true
    }

    proof fn lemma_layout() {
    }

    proof fn lemma_copy_optimized(buf: Seq<u8>, v: i16, r1: NoResolver, r2: NoResolver, at1: int, at2: int) {
    }

    fn copy_optimization() -> (b: bool) {
        true
    }

    fn copy_slice(slice: &[i16], out: &mut Vec<u8>) {
        let mut i: usize = 0;
        assert(out@.subrange(0, out@.len() as int) =~= out@);
        while i < slice.len()
            invariant
                i <= slice@.len(),
                out@.len() == old(out)@.len() + i * 2,
                is_prefix(old(out)@, out@),
                forall|j: int|
                    0 <= j < i ==> #[trigger] out@.subrange(
                        old(out)@.len() + j * 2,
                        old(out)@.len() + j * 2 + 2,
                    ) == spec_u16_to_le_bytes(slice@[j] as u16),
            decreases slice@.len() - i,
        {
            let ghost before = out@;
            let bytes = u16_to_le_bytes(slice[i] as u16);
            append_bytes(out, bytes.as_slice());
            proof {
                lemma_append_keeps(old(out)@, before, bytes@);
                assert forall|j: int| 0 <= j < i + 1 implies #[trigger] out@.subrange(
                    old(out)@.len() + j * 2,
                    old(out)@.len() + j * 2 + 2,
                ) == spec_u16_to_le_bytes(slice@[j] as u16) by {
                    if j < i {
                        assert(out@.subrange(old(out)@.len() + j * 2, old(out)@.len() + j * 2 + 2)
                            =~= before.subrange(
                            old(out)@.len() + j * 2,
                            old(out)@.len() + j * 2 + 2,
                        ));
                    } else {
                        assert(out@.subrange(old(out)@.len() + j * 2, old(out)@.len() + j * 2 + 2)
                            =~= bytes@);
                    }
                }
            }
            i = i + 1;
        }
    }

    proof fn lemma_serialized_len(v: i16, start: int) {
    }

    proof fn lemma_resolve_len(v: i16, r: NoResolver, at: int) {
        lemma_auto_spec_u16_to_from_le_bytes();
    }

    proof fn lemma_resolves_extends(buf: Seq<u8>, longer: Seq<u8>, v: i16, r: NoResolver) {
    }

    proof fn lemma_access_extends(buf: Seq<u8>, longer: Seq<u8>, at: int) {
        lemma_prefix_subrange(buf, longer, at, at + 2);
    }

    proof fn lemma_round_trip(buf: Seq<u8>, v: i16, r: NoResolver, at: int) {
        lemma_auto_spec_u16_to_from_le_bytes();
        assert(spec_u16_to_le_bytes(v as u16).len() == 2);
        assert((v as u16) as i16 == v) by (bit_vector);
    }

    fn archived_size() -> (n: usize) {
        2
    }

    fn archived_align() -> (a: usize) {
        2
    }

    fn serialize(&self, w: &mut Writer) -> (r: Result<NoResolver, SerializeError>) {
        let _ = w.pos();
        assert(w@.subrange(0, w@.len() as int) =~= w@);
        Ok(NoResolver)
    }

    fn resolve(&self, r: NoResolver, place: &mut Place) {
        let bytes = u16_to_le_bytes(*self as u16);
        place.write(0, bytes.as_slice());
        proof {
            lemma_overwrite_all(old(place)@, bytes@);
        }
    }

    fn check(buf: &[u8], at: usize) -> (r: Result<(), AccessError>) {
        check_readable(buf, at, 2)
    }

    fn deserialize(buf: &[u8], at: usize) -> (v: i16) {
        let _ = buf.len();
        u16_from_le_bytes(slice_subrange(buf, at, at + 2)) as i16
    }
}

impl Archive for i8 {
    type Resolver = NoResolver;

    open spec fn spec_size() -> int {
        1
    }

    open spec fn spec_align() -> int {
        1
    }

    open spec fn spec_serialized_len(v: i8, start: int) -> int {
        0
    }

    open spec fn spec_resolves(buf: Seq<u8>, v: i8, r: NoResolver) -> bool {
        true
    }

    open spec fn spec_resolve(v: i8, r: NoResolver, at: int) -> Seq<u8> {
        seq![v as u8]
    }

    open spec fn spec_access(buf: Seq<u8>, at: int) -> Option<i8> {
        if spec_readable(buf, at, 1) {
            Some(buf[at] as i8)
        } else {
            None
        }
    }

    open spec fn spec_access_error(buf: Seq<u8>, at: int) -> AccessError {
        spec_unreadable(at, 1)
    }

    open spec fn spec_copy_optimized() -> bool {
        true
    }

    proof fn lemma_layout() {
    }

    proof fn lemma_copy_optimized(buf: Seq<u8>, v: i8, r1: NoResolver, r2: NoResolver, at1: int, at2: int) {
    }

    fn copy_optimization() -> (b: bool) {
        true
    }

    fn copy_slice(slice: &[i8], out: &mut Vec<u8>) {
        let mut i: usize = 0;
        assert(out@.subrange(0, out@.len() as int) =~= out@);
        while i < slice.len()
            invariant
                i <= slice@.len(),
                out@.len() == old(out)@.len() + i * 1,
                is_prefix(old(out)@, out@),
                forall|j: int|
                    0 <= j < i ==> #[trigger] out@.subrange(
                        old(out)@.len() + j * 1,
                        old(out)@.len() + j * 1 + 1,
                    ) == seq![slice@[j] as u8],
            decreases slice@.len() - i,
        {
            let ghost before = out@;
            let bytes = vec![slice[i] as u8];
            append_bytes(out, bytes.as_slice());
            proof {
                lemma_append_keeps(old(out)@, before, bytes@);
                assert forall|j: int| 0 <= j < i + 1 implies #[trigger] out@.subrange(
                    old(out)@.len() + j * 1,
                    old(out)@.len() + j * 1 + 1,
                ) == seq![slice@[j] as u8] by {
                    if j < i {
                        assert(out@.subrange(old(out)@.len() + j * 1, old(out)@.len() + j * 1 + 1)
                            =~= before.subrange(
                            old(out)@.len() + j * 1,
                            old(out)@.len() + j * 1 + 1,
                        ));
                    } else {
                        assert(out@.subrange(old(out)@.len() + j * 1, old(out)@.len() + j * 1 + 1)
                            =~= bytes@);
                    }
                }
            }
            i = i + 1;
        }
    }

    proof fn lemma_serialized_len(v: i8, start: int) {
    }

    proof fn lemma_resolve_len(v: i8, r: NoResolver, at: int) {
    }

    proof fn lemma_resolves_extends(buf: Seq<u8>, longer: Seq<u8>, v: i8, r: NoResolver) {
    }

    proof fn lemma_access_extends(buf: Seq<u8>, longer: Seq<u8>, at: int) {
        lemma_prefix_subrange(buf, longer, at, at + 1);
        assert(buf.subrange(at, at + 1)[0] == buf[at]);
        assert(longer.subrange(at, at + 1)[0] == longer[at]);
    }

    proof fn lemma_round_trip(buf: Seq<u8>, v: i8, r: NoResolver, at: int) {
        assert(buf.subrange(at, at + 1)[0] == buf[at]);
        assert((v as u8) as i8 == v) by (bit_vector);
    }

    fn archived_size() -> (n: usize) {
        1
    }

    fn archived_align() -> (a: usize) {
        1
    }

    fn serialize(&self, w: &mut Writer) -> (r: Result<NoResolver, SerializeError>) {
        let _ = w.pos();
        assert(w@.subrange(0, w@.len() as int) =~= w@);
        Ok(NoResolver)
    }

    fn resolve(&self, r: NoResolver, place: &mut Place) {
        let bytes = vec![*self as u8];
        place.write(0, bytes.as_slice());
        proof {
            lemma_overwrite_all(old(place)@, bytes@);
        }
    }

    fn check(buf: &[u8], at: usize) -> (r: Result<(), AccessError>) {
        check_readable(buf, at, 1)
    }

    fn deserialize(buf: &[u8], at: usize) -> (v: i8) {
        buf[at] as i8
    }
}

} // verus!
