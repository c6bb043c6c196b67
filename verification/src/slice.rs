//! Archiving slices: the elements of a list, laid out one after the other.
//!
//! A slice has no fixed size, so it is always kept out of line. Its
//! elements are written in two passes, because resolving one element may
//! need what serializing a later one wrote: first every element is
//! serialized, then the writer is aligned, then every element is resolved
//! into consecutive slots. Element types whose archived form is a plain
//! copy of bytes skip the two passes and are written by one bulk copy.

use vstd::prelude::*;
use crate::archive::{is_prefix, spec_deep_view, Archive};
use crate::error::{AccessError, SerializeError};
use crate::place::{spec_overwrite, Place};
use crate::primitive::lemma_append_keeps;
use crate::ser::{lemma_padding, spec_padding, zeros, Writer};

verus! {

/// The number of bytes that serializing the first `k` elements appends
/// to a writer that stands at `start`.
pub open spec fn spec_prefix_len<T: Archive>(vs: Seq<T::V>, start: int, k: int) -> int
    decreases k,
{
    if k <= 0 {
        0
    } else {
        let before = spec_prefix_len::<T>(vs, start, k - 1);
        before + T::spec_serialized_len(vs[k - 1], start + before)
    }
}

/// The number of bytes that archiving a slice appends to a writer that
/// stands at `start`: what its elements keep out of line, the padding that
/// aligns the first slot, and one slot for each element.
pub open spec fn spec_slice_len<T: Archive>(vs: Seq<T::V>, start: int) -> int {
    let body = spec_prefix_len::<T>(vs, start, vs.len() as int);
    body + spec_padding(start + body, T::spec_align()) + vs.len() * T::spec_size()
}

/// The archived elements `vs` stand in consecutive slots from `base` on.
pub open spec fn spec_slice_at<T: Archive>(buf: Seq<u8>, base: int, vs: Seq<T::V>) -> bool {
    &&& 0 <= base
    &&& base % T::spec_align() == 0
    &&& base + vs.len() * T::spec_size() <= buf.len()
    &&& forall|i: int|
        0 <= i < vs.len() ==> #[trigger] T::spec_access(buf, base + i * T::spec_size()) == Some(
            vs[i],
        )
}

/// What a successful archiving of a slice leaves: `after` is the buffer
/// `before` with the slice appended, and `pos` is the slice's first slot.
pub open spec fn spec_slice_archived<T: Archive>(
    vs: Seq<T::V>,
    before: Seq<u8>,
    after: Seq<u8>,
    pos: int,
) -> bool {
    &&& after.len() == before.len() + spec_slice_len::<T>(vs, before.len() as int)
    &&& is_prefix(before, after)
    &&& pos + vs.len() * T::spec_size() == after.len()
    &&& spec_slice_at::<T>(after, pos, vs)
    &&& T::spec_copy_optimized() ==> {
        &&& pos == before.len() + spec_padding(before.len() as int, T::spec_align())
        &&& after.subrange(before.len() as int, pos) == zeros((pos - before.len()) as nat)
        &&& forall|i: int|
            0 <= i < vs.len() ==> #[trigger] after.subrange(
                pos + i * T::spec_size(),
                pos + i * T::spec_size() + T::spec_size(),
            ) == T::spec_resolve(vs[i], arbitrary(), 0)
    }
}

/// Slot `i` of `n` slots of `size` bytes lies within the slots.
pub open spec fn slot_fits(i: int, n: int, size: int) -> bool {
    0 <= i * size && i * size + size <= n * size
}

/// Slot `i` of `n` slots of `size` bytes lies within the slots.
pub proof fn lemma_slot_bounds(i: int, n: int, size: int)
    requires
        0 <= i < n,
        0 <= size,
    ensures
        0 <= i * size,
        i * size + size <= n * size,
{
    assert(0 <= i * size) by (nonlinear_arith)
        requires
            0 <= i,
            0 <= size,
    ;
    assert(i * size + size <= n * size) by (nonlinear_arith)
        requires
            0 <= i < n,
            0 <= size,
    ;
}

/// A slot that starts a multiple of `size` after an aligned position is
/// aligned, where `size` is a multiple of the alignment.
pub proof fn lemma_slot_aligned(base: int, i: int, size: int, align: int)
    requires
        0 <= base,
        0 <= i,
        0 < align,
        0 <= size,
        base % align == 0,
        size % align == 0,
    ensures
        (base + i * size) % align == 0,
{
    let q = size / align;
    let b = base / align;
    vstd::arithmetic::div_mod::lemma_fundamental_div_mod(size, align);
    vstd::arithmetic::div_mod::lemma_fundamental_div_mod(base, align);
    assert(base + i * size == (b + i * q) * align) by (nonlinear_arith)
        requires
            size == align * q,
            base == align * b,
    ;
    vstd::arithmetic::div_mod::lemma_mod_multiples_basic(b + i * q, align);
}

/// A position that is a multiple of 8 is a multiple of every alignment.
pub proof fn lemma_node_aligned(pos: int, offset: int, align: int)
    requires
        0 <= pos,
        0 <= offset,
        pos % 8 == 0,
        offset % align == 0,
        align == 1 || align == 2 || align == 4 || align == 8,
    ensures
        (pos + offset) % align == 0,
{
    if align == 2 {
        assert(pos % 2 == 0);
    } else if align == 4 {
        assert(pos % 4 == 0);
    }
}

/// Serializing appends no negative number of bytes, and more elements
/// append no fewer bytes.
pub proof fn lemma_prefix_len_monotone<T: Archive>(vs: Seq<T::V>, start: int, j: int, k: int)
    requires
        0 <= j <= k,
    ensures
        0 <= spec_prefix_len::<T>(vs, start, j) <= spec_prefix_len::<T>(vs, start, k),
    decreases k,
{
    if k > 0 {
        if j < k {
            lemma_prefix_len_monotone::<T>(vs, start, j, k - 1);
        } else {
            lemma_prefix_len_monotone::<T>(vs, start, j - 1, k - 1);
        }
        T::lemma_serialized_len(
            vs[k - 1],
            start + spec_prefix_len::<T>(vs, start, k - 1),
        );
    }
}

/// Writing into one slot of a place leaves the other slots as they were.
pub proof fn lemma_overwrite_slot(dst: Seq<u8>, src: Seq<u8>, i: int, j: int, size: int)
    requires
        0 <= i,
        0 <= j,
        0 <= size,
        src.len() == size,
        i * size + size <= dst.len(),
        j * size + size <= dst.len(),
    ensures
        spec_overwrite(dst, i * size, src).len() == dst.len(),
        i == j ==> spec_overwrite(dst, i * size, src).subrange(j * size, j * size + size) == src,
        i != j ==> spec_overwrite(dst, i * size, src).subrange(j * size, j * size + size)
            == dst.subrange(j * size, j * size + size),
{
    let out = spec_overwrite(dst, i * size, src);
    assert(0 <= i * size && 0 <= j * size) by (nonlinear_arith)
        requires
            0 <= i,
            0 <= j,
            0 <= size,
    ;
    if i == j {
        assert(out.subrange(j * size, j * size + size) =~= src);
    } else {
        assert(j * size + size <= i * size || i * size + size <= j * size) by (nonlinear_arith)
            requires
                i != j,
                0 <= size,
        ;
        assert(out.subrange(j * size, j * size + size) =~= dst.subrange(
            j * size,
            j * size + size,
        ));
    }
}

/// Serializes the elements of a slice one after the other and collects
/// their resolvers: the first pass of archiving a slice.
pub fn serialize_elements<T: Archive>(slice: &[T], w: &mut Writer) -> (r: Result<
    Vec<T::Resolver>,
    SerializeError,
>)
    requires
        old(w).wf(),
    ensures
        final(w).wf(),
        final(w).spec_limit() == old(w).spec_limit(),
        r is Ok <==> old(w)@.len() + spec_prefix_len::<T>(
            spec_deep_view(slice@),
            old(w)@.len() as int,
            slice@.len() as int,
        ) <= old(w).spec_limit(),
        r matches Ok(resolvers) ==> {
            &&& final(w)@.len() == old(w)@.len() + spec_prefix_len::<T>(
                spec_deep_view(slice@),
                old(w)@.len() as int,
                slice@.len() as int,
            )
            &&& is_prefix(old(w)@, final(w)@)
            &&& resolvers@.len() == slice@.len()
            &&& forall|j: int|
                0 <= j < slice@.len() ==> #[trigger] T::spec_resolves(
                    final(w)@,
                    spec_deep_view(slice@)[j],
                    resolvers@[j],
                )
        },
        r matches Err(e) ==> e == SerializeError::Writer,
{
    let n = slice.len();
    let ghost vs = spec_deep_view(slice@);
    let ghost start = w@.len() as int;
    proof {
        lemma_prefix_len_monotone::<T>(vs, start, n as int, n as int);
        assert(w@.subrange(0, w@.len() as int) =~= w@);
    }
    let mut resolvers: Vec<T::Resolver> = Vec::new();
    let mut i: usize = 0;
    while i < n
        invariant
            i <= n,
            n == slice@.len(),
            vs == spec_deep_view(slice@),
            start == old(w)@.len(),
            w.wf(),
            w.spec_limit() == old(w).spec_limit(),
            w@.len() == start + spec_prefix_len::<T>(vs, start, i as int),
            is_prefix(old(w)@, w@),
            resolvers@.len() == i,
            forall|j: int| 0 <= j < i ==> #[trigger] T::spec_resolves(w@, vs[j], resolvers@[j]),
        decreases n - i,
    {
        let ghost before = w@;
        let ghost rs = resolvers@;
        match slice[i].serialize(w) {
            Ok(res) => {
                resolvers.push(res);
            },
            Err(e) => {
                proof {
                    lemma_prefix_len_monotone::<T>(vs, start, i + 1, n as int);
                }
                return Err(e);
            },
        }
        proof {
            assert(is_prefix(old(w)@, w@)) by {
                assert(w@.subrange(0, start) =~= before.subrange(0, start));
            }
            assert forall|j: int| 0 <= j < i + 1 implies #[trigger] T::spec_resolves(
                w@,
                vs[j],
                resolvers@[j],
            ) by {
                if j < i {
                    assert(resolvers@[j] == rs[j]);
                    T::lemma_resolves_extends(before, w@, vs[j], rs[j]);
                }
            }
        }
        i = i + 1;
    }
    Ok(resolvers)
}

/// Resolves the elements of a slice into consecutive slots of a place:
/// the place is divided into one place for each element, and the places
/// of two elements do not overlap. This is the second pass of archiving
/// a slice, and all there is to resolving a sequence that stands in line.
pub fn resolve_elements<T: Archive>(slice: &[T], resolvers: &[T::Resolver], place: &mut Place)
    requires
        old(place).wf(),
        old(place)@.len() == slice@.len() * T::spec_size(),
        old(place).spec_pos() % T::spec_align() == 0,
        resolvers@.len() == slice@.len(),
        forall|j: int|
            0 <= j < slice@.len() ==> #[trigger] T::spec_resolves(
                old(place).arena(),
                spec_deep_view(slice@)[j],
                resolvers@[j],
            ),
    ensures
        final(place).wf(),
        final(place).spec_pos() == old(place).spec_pos(),
        final(place).arena() == old(place).arena(),
        final(place)@.len() == old(place)@.len(),
        forall|j: int|
            0 <= j < slice@.len() ==> #[trigger] final(place)@.subrange(
                j * T::spec_size(),
                j * T::spec_size() + T::spec_size(),
            ) == T::spec_resolve(
                spec_deep_view(slice@)[j],
                resolvers@[j],
                old(place).spec_pos() + j * T::spec_size(),
            ),
{
    let n = slice.len();
    let size = T::archived_size();
    let ghost vs = spec_deep_view(slice@);
    let ghost rs = resolvers@;
    let ghost pos = place.spec_pos();
    let ghost align = T::spec_align();
    proof {
        T::lemma_layout();
    }
    let mut k: usize = 0;
    while k < n
        invariant
            k <= n,
            n == slice@.len(),
            size == T::spec_size(),
            align == T::spec_align(),
            1 <= size,
            vs == spec_deep_view(slice@),
            rs == resolvers@,
            rs.len() == n,
            place.wf(),
            place@.len() == n * size,
            place.spec_pos() == pos,
            pos % align == 0,
            place.arena() == old(place).arena(),
            forall|j: int| 0 <= j < n ==> #[trigger] T::spec_resolves(place.arena(), vs[j], rs[j]),
            forall|j: int|
                0 <= j < k ==> #[trigger] place@.subrange(j * size, j * size + size)
                    == T::spec_resolve(vs[j], rs[j], pos + j * size),
        decreases n - k,
    {
        proof {
            assert(slot_fits(k as int, n as int, size as int)) by {
                lemma_slot_bounds(k as int, n as int, size as int);
            }
            T::lemma_layout();
            lemma_slot_bounds(k as int, n as int, size as int);
            lemma_slot_aligned(pos, k as int, size as int, align);
            assert(T::spec_resolves(place.arena(), vs[k as int], rs[k as int]));
        }
        let mut slot = place.field(k * size, size);
        slice[k].resolve(resolvers[k], &mut slot);
        let ghost filled = place@;
        proof {
            T::lemma_resolve_len(vs[k as int], rs[k as int], pos + k * size);
        }
        place.put(k * size, &slot);
        proof {
            assert forall|j: int| 0 <= j < k + 1 implies #[trigger] place@.subrange(
                j * size,
                j * size + size,
            ) == T::spec_resolve(vs[j], rs[j], pos + j * size) by {
                lemma_slot_bounds(j, n as int, size as int);
                lemma_overwrite_slot(filled, slot@, k as int, j, size as int);
            }
        }
        k = k + 1;
    }
}

/// Archives a slice element by element: serializes every element,
/// aligns the writer, then resolves every element into its slot.
/// Returns the position of the first slot.
pub fn serialize_slice_elementwise<T: Archive>(slice: &[T], w: &mut Writer) -> (r: Result<
    usize,
    SerializeError,
>)
    requires
        old(w).wf(),
    ensures
        final(w).wf(),
        final(w).spec_limit() == old(w).spec_limit(),
        r is Ok <==> old(w)@.len() + spec_slice_len::<T>(
            spec_deep_view(slice@),
            old(w)@.len() as int,
        ) <= old(w).spec_limit(),
        r matches Ok(pos) ==> spec_slice_archived::<T>(
            spec_deep_view(slice@),
            old(w)@,
            final(w)@,
            pos as int,
        ),
        r matches Err(e) ==> e == SerializeError::Writer,
{
    let n = slice.len();
    let size = T::archived_size();
    let align = T::archived_align();
    let ghost vs = spec_deep_view(slice@);
    let ghost start = w@.len() as int;
    let ghost total = spec_slice_len::<T>(vs, start);
    proof {
        T::lemma_layout();
        lemma_prefix_len_monotone::<T>(vs, start, n as int, n as int);
        lemma_padding(start + spec_prefix_len::<T>(vs, start, n as int), align as int);
        lemma_slot_bounds(0, n as int + 1, size as int);
        assert(w@.subrange(0, w@.len() as int) =~= w@);
    }
    let resolvers: Vec<T::Resolver> = match serialize_elements(slice, w) {
        Ok(resolvers) => resolvers,
        Err(e) => {
            return Err(e);
        },
    };
    let ghost body = w@;
    let ghost rs = resolvers@;
    let pos = match w.align(align) {
        Ok(pos) => pos,
        Err(e) => {
            return Err(e);
        },
    };
    let limit = w.limit();
    if n > (limit - pos) / size {
        proof {
            assert(n * size > limit - pos) by (nonlinear_arith)
                requires
                    n > (limit - pos) / size as int,
                    size > 0,
                    limit - pos >= 0,
            ;
        }
        return Err(SerializeError::Writer);
    }
    proof {
        assert(n * size <= limit - pos) by (nonlinear_arith)
            requires
                n <= (limit - pos) / size as int,
                size > 0,
                limit - pos >= 0,
        ;
        lemma_append_keeps(old(w)@, body, zeros((pos - body.len()) as nat));
    }
    let mut place = match w.place(n * size) {
        Ok(place) => place,
        Err(e) => {
            return Err(e);
        },
    };
    let ghost aligned = w@;
    proof {
        assert forall|j: int| 0 <= j < n implies #[trigger] T::spec_resolves(
            aligned,
            vs[j],
            rs[j],
        ) by {
            T::lemma_resolves_extends(body, aligned, vs[j], rs[j]);
        }
    }
    resolve_elements(slice, resolvers.as_slice(), &mut place);
    match w.commit(&place) {
        Ok(()) => {},
        Err(e) => {
            return Err(e);
        },
    }
    proof {
        let after = w@;
        lemma_append_keeps(old(w)@, aligned, place@);
        lemma_append_keeps(body, aligned, place@);
        assert(after.subrange(0, pos as int) =~= aligned);
        assert forall|j: int| 0 <= j < n implies #[trigger] T::spec_access(
            after,
            pos + j * T::spec_size(),
        ) == Some(vs[j]) by {
            let at = pos + j * size;
            lemma_slot_bounds(j, n as int, size as int);
            lemma_slot_aligned(pos as int, j, size as int, align as int);
            assert(is_prefix(body, after.subrange(0, at))) by {
                assert(after.subrange(0, at).subrange(0, body.len() as int) =~= after.subrange(
                    0,
                    body.len() as int,
                ));
            }
            T::lemma_resolves_extends(body, after.subrange(0, at), vs[j], rs[j]);
            assert(after.subrange(at, at + size) =~= place@.subrange(j * size, j * size + size));
            T::lemma_round_trip(after, vs[j], rs[j], at);
        }
        if T::spec_copy_optimized() {
            assert forall|j: int| 0 <= j <= n implies spec_prefix_len::<T>(vs, start, j)
                == 0 by {
                lemma_prefix_zero::<T>(vs, start, j);
            }
            assert(after.subrange(start, pos as int) =~= zeros((pos - start) as nat));
            assert forall|j: int| 0 <= j < n implies #[trigger] after.subrange(
                pos + j * T::spec_size(),
                pos + j * T::spec_size() + T::spec_size(),
            ) == T::spec_resolve(vs[j], arbitrary(), 0) by {
                let at = pos + j * size;
                lemma_slot_bounds(j, n as int, size as int);
                assert(after.subrange(at, at + size) =~= place@.subrange(
                    j * size,
                    j * size + size,
                ));
                T::lemma_copy_optimized(after, vs[j], rs[j], arbitrary(), at, 0);
            }
        }
    }
    Ok(pos)
}

/// Archives a slice of copy-optimized elements by one bulk copy: aligns
/// the writer, then writes the archived forms of all elements at once.
/// Returns the position of the first slot.
pub fn serialize_slice_bulk<T: Archive>(slice: &[T], w: &mut Writer) -> (r: Result<
    usize,
    SerializeError,
>)
    requires
        old(w).wf(),
        T::spec_copy_optimized(),
    ensures
        final(w).wf(),
        final(w).spec_limit() == old(w).spec_limit(),
        r is Ok <==> old(w)@.len() + spec_slice_len::<T>(
            spec_deep_view(slice@),
            old(w)@.len() as int,
        ) <= old(w).spec_limit(),
        r matches Ok(pos) ==> spec_slice_archived::<T>(
            spec_deep_view(slice@),
            old(w)@,
            final(w)@,
            pos as int,
        ),
        r matches Err(e) ==> e == SerializeError::Writer,
{
    let n = slice.len();
    let size = T::archived_size();
    let align = T::archived_align();
    let ghost vs = spec_deep_view(slice@);
    let ghost start = w@.len() as int;
    proof {
        T::lemma_layout();
        lemma_prefix_zero::<T>(vs, start, n as int);
        lemma_padding(start, align as int);
        lemma_slot_bounds(0, n as int + 1, size as int);
    }
    let pos = match w.align(align) {
        Ok(pos) => pos,
        Err(e) => {
            return Err(e);
        },
    };
    let limit = w.limit();
    if n > (limit - pos) / size {
        proof {
            assert(n * size > limit - pos) by (nonlinear_arith)
                requires
                    n > (limit - pos) / size as int,
                    size > 0,
                    limit - pos >= 0,
            ;
        }
        return Err(SerializeError::Writer);
    }
    proof {
        assert(n * size <= limit - pos) by (nonlinear_arith)
            requires
                n <= (limit - pos) / size as int,
                size > 0,
                limit - pos >= 0,
        ;
    }
    let ghost aligned = w@;
    let mut bytes: Vec<u8> = Vec::new();
    T::copy_slice(slice, &mut bytes);
    match w.write(bytes.as_slice()) {
        Ok(()) => {},
        Err(e) => {
            return Err(e);
        },
    }
    proof {
        let after = w@;
        assert(is_prefix(old(w)@, old(w)@)) by {
            assert(old(w)@.subrange(0, start) =~= old(w)@);
        }
        lemma_append_keeps(old(w)@, old(w)@, zeros((pos - start) as nat));
        lemma_append_keeps(old(w)@, aligned, bytes@);
        assert(after.subrange(start, pos as int) =~= zeros((pos - start) as nat));
        assert forall|j: int| 0 <= j < n implies #[trigger] after.subrange(
            pos + j * T::spec_size(),
            pos + j * T::spec_size() + T::spec_size(),
        ) == T::spec_resolve(vs[j], arbitrary(), 0) by {
            lemma_slot_bounds(j, n as int, size as int);
            assert(after.subrange(pos + j * size, pos + j * size + size) =~= bytes@.subrange(
                0 + j * size,
                0 + j * size + size,
            ));
        }
        assert forall|j: int| 0 <= j < n implies #[trigger] T::spec_access(
            after,
            pos + j * T::spec_size(),
        ) == Some(vs[j]) by {
            let at = pos + j * size;
            lemma_slot_bounds(j, n as int, size as int);
            lemma_slot_aligned(pos as int, j, size as int, align as int);
            assert(after.subrange(at, at + size) == T::spec_resolve(vs[j], arbitrary(), 0));
            T::lemma_copy_optimized(
                after.subrange(0, at),
                vs[j],
                arbitrary(),
                arbitrary(),
                at,
                0,
            );
            T::lemma_round_trip(after, vs[j], arbitrary(), at);
        }
    }
    Ok(pos)
}

/// Archives a slice, keeping it out of line: by one bulk copy where the
/// element type has the copy optimization, element by element otherwise.
/// Returns the position of the first slot, which together with the
/// number of elements is all that a pointer to the slice holds.
pub fn serialize_slice<T: Archive>(slice: &[T], w: &mut Writer) -> (r: Result<
    usize,
    SerializeError,
>)
    requires
        old(w).wf(),
    ensures
        final(w).wf(),
        final(w).spec_limit() == old(w).spec_limit(),
        r is Ok <==> old(w)@.len() + spec_slice_len::<T>(
            spec_deep_view(slice@),
            old(w)@.len() as int,
        ) <= old(w).spec_limit(),
        r matches Ok(pos) ==> spec_slice_archived::<T>(
            spec_deep_view(slice@),
            old(w)@,
            final(w)@,
            pos as int,
        ),
        r matches Err(e) ==> e == SerializeError::Writer,
{
    if T::copy_optimization() {
        serialize_slice_bulk(slice, w)
    } else {
        serialize_slice_elementwise(slice, w)
    }
}

/// The copy optimization cannot be observed: for an element type that
/// has it, archiving a slice by the bulk copy and archiving it element by
/// element leave the same bytes and the same position.
pub proof fn lemma_copy_optimization_transparent<T: Archive>(
    vs: Seq<T::V>,
    before: Seq<u8>,
    bulk: Seq<u8>,
    bulk_pos: int,
    elementwise: Seq<u8>,
    elementwise_pos: int,
)
    requires
        T::spec_copy_optimized(),
        spec_slice_archived::<T>(vs, before, bulk, bulk_pos),
        spec_slice_archived::<T>(vs, before, elementwise, elementwise_pos),
    ensures
        bulk == elementwise,
        bulk_pos == elementwise_pos,
{
    let pos = bulk_pos;
    let size = T::spec_size();
    let n = vs.len() as int;
    T::lemma_layout();
    assert forall|i: int| 0 <= i < bulk.len() implies bulk[i] == elementwise[i] by {
        if i < before.len() {
            assert(bulk.subrange(0, before.len() as int)[i] == bulk[i]);
            assert(elementwise.subrange(0, before.len() as int)[i] == elementwise[i]);
        } else if i < pos {
            assert(bulk.subrange(before.len() as int, pos)[i - before.len()] == bulk[i]);
            assert(elementwise.subrange(before.len() as int, pos)[i - before.len()]
                == elementwise[i]);
        } else {
            let j = (i - pos) / size;
            let k = (i - pos) % size;
            vstd::arithmetic::div_mod::lemma_fundamental_div_mod(i - pos, size);
            vstd::arithmetic::div_mod::lemma_div_pos_is_pos(i - pos, size);
            assert(j * size == size * j) by (nonlinear_arith);
            assert(j < n) by (nonlinear_arith)
                requires
                    i - pos < n * size,
                    i - pos == j * size + k,
                    0 <= k,
                    0 < size,
            ;
            lemma_slot_bounds(j, n, size);
            assert(bulk.subrange(pos + j * size, pos + j * size + size)[k] == bulk[i]);
            assert(elementwise.subrange(pos + j * size, pos + j * size + size)[k]
                == elementwise[i]);
        }
    }
    assert(bulk =~= elementwise);
}

/// `n` well-formed archived elements stand in consecutive slots from
/// `base` on, all of them before `end`.
pub open spec fn spec_slice_valid<T: Archive>(buf: Seq<u8>, base: int, n: int, end: int) -> bool {
    &&& 0 <= base
    &&& 0 <= n
    &&& base % T::spec_align() == 0
    &&& base + n * T::spec_size() <= end
    &&& forall|i: int|
        0 <= i < n ==> (#[trigger] T::spec_access(buf, base + i * T::spec_size())) is Some
}

/// The values of the `n` archived elements that stand from `base` on.
pub open spec fn spec_slice_value<T: Archive>(buf: Seq<u8>, base: int, n: int) -> Seq<T::V> {
    Seq::new(n as nat, |i: int| T::spec_access(buf, base + i * T::spec_size()).unwrap())
}

/// The number of elements, among the first `n` of the slots from `base`
/// on, that stand before the first malformed one.
pub open spec fn spec_first_bad<T: Archive>(buf: Seq<u8>, base: int, n: int) -> int
    decreases n,
{
    if n <= 0 {
        0
    } else {
        let before = spec_first_bad::<T>(buf, base, n - 1);
        if before < n - 1 {
            before
        } else if T::spec_access(buf, base + (n - 1) * T::spec_size()) is None {
            n - 1
        } else {
            n
        }
    }
}

/// The first malformed element stays the first when more elements are
/// looked at.
pub proof fn lemma_first_bad<T: Archive>(buf: Seq<u8>, base: int, i: int, n: int)
    requires
        0 <= i < n,
        spec_first_bad::<T>(buf, base, i) == i,
        T::spec_access(buf, base + i * T::spec_size()) is None,
    ensures
        spec_first_bad::<T>(buf, base, n) == i,
    decreases n,
{
    if n > i + 1 {
        lemma_first_bad::<T>(buf, base, i, n - 1);
    }
}

/// The error that checked access to a slice gives where the slice is
/// malformed: that of its position, or that of its first malformed
/// element.
pub open spec fn spec_slice_error<T: Archive>(buf: Seq<u8>, base: int, n: int, end: int) -> AccessError {
    if base % T::spec_align() != 0 {
        AccessError::Misaligned
    } else if base > end || base + n * T::spec_size() > end {
        AccessError::OutOfBounds
    } else {
        T::spec_access_error(
            buf,
            base + spec_first_bad::<T>(buf, base, n) * T::spec_size(),
        )
    }
}

/// Checked access to a slice: decides whether `n` well-formed elements
/// stand from `base` on and end at or before `end`.
pub fn check_slice<T: Archive>(buf: &[u8], base: usize, n: usize, end: usize) -> (r: Result<
    (),
    AccessError,
>)
    ensures
        r is Ok <==> spec_slice_valid::<T>(buf@, base as int, n as int, end as int),
        r matches Err(e) ==> e == spec_slice_error::<T>(buf@, base as int, n as int, end as int),
{
    let size = T::archived_size();
    let align = T::archived_align();
    proof {
        T::lemma_layout();
    }
    if base % align != 0 {
        return Err(AccessError::Misaligned);
    }
    if base > end || n > (end - base) / size {
        proof {
            if base <= end {
                assert(n * size > end - base) by (nonlinear_arith)
                    requires
                        n > (end - base) / size as int,
                        size > 0,
                        end - base >= 0,
                ;
            } else {
                lemma_slot_bounds(0, n as int + 1, size as int);
            }
        }
        return Err(AccessError::OutOfBounds);
    }
    proof {
        assert(n * size <= end - base) by (nonlinear_arith)
            requires
                n <= (end - base) / size as int,
                size > 0,
                end - base >= 0,
        ;
    }
    let mut i: usize = 0;
    while i < n
        invariant
            i <= n,
            size == T::spec_size(),
            1 <= size,
            base + n * size <= end,
            base as int % T::spec_align() == 0,
            spec_first_bad::<T>(buf@, base as int, i as int) == i,
            forall|j: int|
                0 <= j < i ==> (#[trigger] T::spec_access(buf@, base + j * T::spec_size())) is Some,
        decreases n - i,
    {
        proof {
            lemma_slot_bounds(i as int, n as int, size as int);
        }
        match T::check(buf, base + i * size) {
            Ok(()) => {},
            Err(e) => {
                proof {
                    lemma_first_bad::<T>(buf@, base as int, i as int, n as int);
                }
                return Err(e);
            },
        }
        i = i + 1;
    }
    Ok(())
}

/// Builds the values of the `n` archived elements that stand from
/// `base` on, which the caller attests to be well formed.
pub fn deserialize_slice<T: Archive>(buf: &[u8], base: usize, n: usize) -> (v: Vec<T>)
    requires
        spec_slice_valid::<T>(buf@, base as int, n as int, buf@.len() as int),
    ensures
        v.deep_view() == spec_slice_value::<T>(buf@, base as int, n as int),
{
    let size = T::archived_size();
    let len = buf.len();
    proof {
        T::lemma_layout();
    }
    let mut v: Vec<T> = Vec::new();
    let mut i: usize = 0;
    while i < n
        invariant
            i <= n,
            size == T::spec_size(),
            1 <= size,
            spec_slice_valid::<T>(buf@, base as int, n as int, buf@.len() as int),
            buf@.len() == len,
            v@.len() == i,
            forall|j: int|
                0 <= j < i ==> Some(v@[j].deep_view()) == #[trigger] T::spec_access(
                    buf@,
                    base + j * T::spec_size(),
                ),
        decreases n - i,
    {
        proof {
            lemma_slot_bounds(i as int, n as int, size as int);
        }
        let x = T::deserialize(buf, base + i * size);
        v.push(x);
        i = i + 1;
    }
    assert(v.deep_view() =~= spec_slice_value::<T>(buf@, base as int, n as int));
    v
}

/// Reads one element of an archived slice without touching the others:
/// element `i` of the slice whose slots start at `base`, which the caller
/// attests to be well formed.
pub fn slice_get<T: Archive>(buf: &[u8], base: usize, n: usize, i: usize) -> (x: T)
    requires
        spec_slice_valid::<T>(buf@, base as int, n as int, buf@.len() as int),
        i < n,
    ensures
        x.deep_view() == spec_slice_value::<T>(buf@, base as int, n as int)[i as int],
{
    let _ = buf.len();
    proof {
        T::lemma_layout();
        lemma_slot_bounds(i as int, n as int, T::spec_size());
    }
    T::deserialize(buf, base + i * T::archived_size())
}

/// With the copy optimization no element keeps anything out of line.
pub proof fn lemma_prefix_zero<T: Archive>(vs: Seq<T::V>, start: int, k: int)
    requires
        T::spec_copy_optimized(),
    ensures
        spec_prefix_len::<T>(vs, start, k) == 0,
    decreases k,
{
    if k > 0 {
        lemma_prefix_zero::<T>(vs, start, k - 1);
        T::lemma_copy_optimized(Seq::empty(), vs[k - 1], arbitrary(), arbitrary(), start, 0);
    }
}

} // verus!
