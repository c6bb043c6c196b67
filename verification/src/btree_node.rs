//! The nodes of the search tree of an ordered container.
//!
//! A node holds the offsets of its two children, the number of entries
//! of its chunk, and the slots of up to five keys and five values. The
//! nodes of a subtree are written before the node above them.

use vstd::prelude::*;
use vstd::bytes::{lemma_auto_spec_u32_to_from_le_bytes, u32_to_le_bytes};
use vstd::slice::slice_subrange;
use crate::archive::{is_prefix, spec_deep_view, Archive};
use crate::error::AccessError;

use crate::place::lemma_overwrite_range;
use crate::primitive::{lemma_append_keeps, lemma_prefix_subrange};
use crate::rel_ptr::{
    lemma_rel_ptr_round_trip, read_u32, rel_ptr_bytes, rel_ptr_target, spec_rel_target,
    spec_u32_at,
};
use crate::ser::{lemma_padding, spec_padding, Writer, MAX_LEN};
use crate::slice::{
    check_slice, deserialize_slice, lemma_node_aligned, lemma_slot_aligned, lemma_slot_bounds,
    resolve_elements, spec_slice_at, spec_slice_valid, spec_slice_value,
};
use crate::vec::{lemma_slice_at_value, lemma_slice_extends};

verus! {

/// The number of entries that a node holds at most.
pub const CHUNK: usize = 5;

/// The alignment of a node: a multiple of every alignment of an
/// archived form.
pub const NODE_ALIGN: usize = 8;

/// The offset of the keys within a node, after the two child offsets
/// and the number of entries.
pub const KEYS_OFFSET: usize = 16;

/// The offset of the values within a node.
pub open spec fn spec_values_offset<K: Archive, V: Archive>() -> int {
    16 + 5 * K::spec_size() + spec_padding(16 + 5 * K::spec_size(), V::spec_align())
}

/// The size of a node in bytes.
pub open spec fn spec_node_size<K: Archive, V: Archive>() -> int {
    let end = spec_values_offset::<K, V>() + 5 * V::spec_size();
    end + spec_padding(end, 8)
}

/// Whether the layout of a node can be computed: a node fits the
/// largest buffer.
pub open spec fn spec_node_layout<K: Archive, V: Archive>() -> bool {
    spec_node_size::<K, V>() <= MAX_LEN
}

/// The shape of a node: the values follow the keys at an offset that is
/// a multiple of their alignment, and the size of a node is a multiple
/// of the node alignment.
pub proof fn lemma_node_layout<K: Archive, V: Archive>()
    ensures
        1 <= K::spec_size(),
        1 <= V::spec_size(),
        16 + 5 * K::spec_size() <= spec_values_offset::<K, V>(),
        spec_values_offset::<K, V>() % V::spec_align() == 0,
        spec_values_offset::<K, V>() + 5 * V::spec_size() <= spec_node_size::<K, V>(),
        spec_node_size::<K, V>() % 8 == 0,
        24 <= spec_node_size::<K, V>(),
        16int % K::spec_align() == 0,
{
    K::lemma_layout();
    V::lemma_layout();
    lemma_padding(16 + 5 * K::spec_size(), V::spec_align());
    lemma_padding(spec_values_offset::<K, V>() + 5 * V::spec_size(), 8);
}

/// The entries that pair each key with the value at the same index.
pub open spec fn spec_entries<A, B>(keys: Seq<A>, values: Seq<B>) -> Seq<(A, B)> {
    Seq::new(keys.len(), |i: int| (keys[i], values[i]))
}

/// The keys of a sequence of entries.
pub open spec fn spec_keys<A, B>(entries: Seq<(A, B)>) -> Seq<A> {
    Seq::new(entries.len(), |i: int| entries[i].0)
}

/// The values of a sequence of entries.
pub open spec fn spec_values<A, B>(entries: Seq<(A, B)>) -> Seq<B> {
    Seq::new(entries.len(), |i: int| entries[i].1)
}

/// What a lookup of `key` in `entries` gives: the value of the entry
/// with that key, or `None` where there is none.
pub open spec fn spec_lookup<A, B>(entries: Seq<(A, B)>, key: A) -> Option<B> {
    if exists|i: int| 0 <= i < entries.len() && entries[i].0 == key {
        let i = choose|i: int| 0 <= i < entries.len() && entries[i].0 == key;
        Some(entries[i].1)
    } else {
        None
    }
}

/// The entries of the chunk of the node at `node`, which holds `count`
/// entries, or `None` where a key or a value is malformed.
pub open spec fn spec_chunk<K: Archive, V: Archive>(buf: Seq<u8>, node: int, count: int) -> Option<
    Seq<(K::V, V::V)>,
> {
    if spec_slice_valid::<K>(buf, node + 16, count, buf.len() as int) && spec_slice_valid::<V>(
        buf,
        node + spec_values_offset::<K, V>(),
        count,
        buf.len() as int,
    ) {
        Some(
            spec_entries(
                spec_slice_value::<K>(buf, node + 16, count),
                spec_slice_value::<V>(buf, node + spec_values_offset::<K, V>(), count),
            ),
        )
    } else {
        None
    }
}

/// The entries, in order, of the subtree that the child offset at
/// `ptr_at` leads to, or `None` where the subtree is malformed. An offset
/// of zero stands for no subtree. Every node of the subtree lies below
/// `bound`.
#[verifier::opaque]
pub open spec fn spec_subtree<K: Archive, V: Archive>(
    buf: Seq<u8>,
    ptr_at: int,
    bound: int,
) -> Option<Seq<(K::V, V::V)>>
    decreases bound, 1int,
{
    let node = spec_rel_target(buf, ptr_at);
    if node == ptr_at {
        Some(Seq::empty())
    } else {
        spec_node::<K, V>(buf, node, bound)
    }
}

/// The entries, in order, of the subtree whose root is the node at
/// `node`: those of its left subtree, those of its chunk, and those of
/// its right subtree; or `None` where the subtree is malformed. Every
/// node of the subtree lies below `bound`.
#[verifier::opaque]
pub open spec fn spec_node<K: Archive, V: Archive>(buf: Seq<u8>, node: int, bound: int) -> Option<
    Seq<(K::V, V::V)>,
>
    decreases bound, 0int,
{
    let count = spec_u32_at(buf, node + 8) as int;
    if 0 <= node && node % 8 == 0 && node < bound && node + spec_node_size::<K, V>() <= bound
        && bound <= buf.len() && 1 <= count <= 5 {
        match (
            spec_subtree::<K, V>(buf, node, node),
            spec_chunk::<K, V>(buf, node, count),
            spec_subtree::<K, V>(buf, node + 4, node),
        ) {
            (Some(left), Some(chunk), Some(right)) => Some(left + chunk + right),
            _ => None,
        }
    } else {
        None
    }
}

/// A chunk reads the same when the buffer grows.
pub proof fn lemma_chunk_extends<K: Archive, V: Archive>(
    buf: Seq<u8>,
    longer: Seq<u8>,
    node: int,
    count: int,
)
    requires
        spec_chunk::<K, V>(buf, node, count) is Some,
        is_prefix(buf, longer),
    ensures
        spec_chunk::<K, V>(longer, node, count) == spec_chunk::<K, V>(buf, node, count),
{
    lemma_slice_extends::<K>(buf, longer, node + 16, count, buf.len() as int);
    lemma_slice_extends::<V>(
        buf,
        longer,
        node + spec_values_offset::<K, V>(),
        count,
        buf.len() as int,
    );
}

/// A subtree reads the same when the buffer grows.
pub proof fn lemma_subtree_extends<K: Archive, V: Archive>(
    buf: Seq<u8>,
    longer: Seq<u8>,
    ptr_at: int,
    bound: int,
)
    requires
        spec_subtree::<K, V>(buf, ptr_at, bound) is Some,
        is_prefix(buf, longer),
        0 <= ptr_at,
        ptr_at + 4 <= buf.len(),
    ensures
        spec_subtree::<K, V>(longer, ptr_at, bound) == spec_subtree::<K, V>(buf, ptr_at, bound),
    decreases bound, 1int,
{
    reveal(spec_subtree);
    reveal(spec_node);
    lemma_prefix_subrange(buf, longer, ptr_at, ptr_at + 4);
    let node = spec_rel_target(buf, ptr_at);
    if node != ptr_at {
        lemma_node_extends::<K, V>(buf, longer, node, bound);
    }
}

/// The subtree of a node reads the same when the buffer grows.
pub proof fn lemma_node_extends<K: Archive, V: Archive>(
    buf: Seq<u8>,
    longer: Seq<u8>,
    node: int,
    bound: int,
)
    requires
        spec_node::<K, V>(buf, node, bound) is Some,
        is_prefix(buf, longer),
    ensures
        spec_node::<K, V>(longer, node, bound) == spec_node::<K, V>(buf, node, bound),
    decreases bound, 0int,
{
    reveal(spec_subtree);
    reveal(spec_node);
    lemma_node_layout::<K, V>();
    lemma_prefix_subrange(buf, longer, node + 8, node + 8 + 4);
    lemma_subtree_extends::<K, V>(buf, longer, node, node);
    lemma_subtree_extends::<K, V>(buf, longer, node + 4, node);
    lemma_chunk_extends::<K, V>(buf, longer, node, spec_u32_at(buf, node + 8) as int);
}

/// The subtree of a node that lies below a bound lies below any larger
/// bound within the buffer.
pub proof fn lemma_node_bound<K: Archive, V: Archive>(
    buf: Seq<u8>,
    node: int,
    bound: int,
    larger: int,
)
    requires
        spec_node::<K, V>(buf, node, bound) is Some,
        bound <= larger <= buf.len(),
    ensures
        spec_node::<K, V>(buf, node, larger) == spec_node::<K, V>(buf, node, bound),
{
    reveal(spec_subtree);
    reveal(spec_node);
}

/// Computes the layout of a node: the offset of the values and the size
/// of the node, or `None` where a node would not fit the largest buffer.
pub fn node_layout<K: Archive, V: Archive>() -> (r: Option<(usize, usize)>)
    ensures
        r is Some <==> spec_node_layout::<K, V>(),
        r matches Some((values_offset, node_size)) ==> values_offset == spec_values_offset::<
            K,
            V,
        >() && node_size == spec_node_size::<K, V>(),
{
    proof {
        K::lemma_layout();
        V::lemma_layout();
        lemma_node_layout::<K, V>();
    }
    let keys_end: u64 = 16 + 5 * (K::archived_size() as u64);
    let value_align: u64 = V::archived_align() as u64;
    let rem: u64 = keys_end % value_align;
    let values_offset: u64 = if rem == 0 {
        keys_end
    } else {
        keys_end + (value_align - rem)
    };
    let end: u64 = values_offset + 5 * (V::archived_size() as u64);
    let rem8: u64 = end % 8;
    let node_size: u64 = if rem8 == 0 {
        end
    } else {
        end + (8 - rem8)
    };
    if node_size > MAX_LEN as u64 {
        None
    } else {
        Some((values_offset as usize, node_size as usize))
    }
}

/// The number of nodes of the tree over `n` entries: one node where the
/// entries fit a chunk, and otherwise one node for a chunk in the middle
/// and the nodes of the two halves of the other entries.
#[verifier::opaque]
pub open spec fn spec_node_count(n: int) -> int
    decreases n,
{
    if n <= 0 {
        0
    } else if n <= 5 {
        1
    } else {
        1 + spec_node_count((n - 5) / 2) + spec_node_count(n - 5 - (n - 5) / 2)
    }
}

/// A tree has at least one node where it has an entry, and at most as
/// many nodes as entries.
pub proof fn lemma_node_count(n: int)
    ensures
        0 <= spec_node_count(n),
        n > 0 ==> 1 <= spec_node_count(n) <= n,
        n <= 0 ==> spec_node_count(n) == 0,
    decreases n,
{
    reveal(spec_node_count);
    if n > 5 {
        lemma_node_count((n - 5) / 2);
        lemma_node_count(n - 5 - (n - 5) / 2);
    }
}

/// The nodes of a tree are its root and the nodes of its two subtrees.
pub proof fn lemma_node_count_split(n: int)
    ensures
        1 <= n <= 5 ==> spec_node_count(n) == 1,
        n > 5 ==> spec_node_count(n) == 1 + spec_node_count((n - 5) / 2) + spec_node_count(
            n - 5 - (n - 5) / 2,
        ),
{
    reveal(spec_node_count);
}

/// The nodes of a tree have room for its entries.
pub proof fn lemma_node_count_covers(n: int)
    ensures
        n <= 5 * spec_node_count(n),
    decreases n,
{
    reveal(spec_node_count);
    if n > 5 {
        lemma_node_count_covers((n - 5) / 2);
        lemma_node_count_covers(n - 5 - (n - 5) / 2);
    }
}

/// Computes the number of nodes of the tree over `n` entries.
pub fn node_count(n: usize) -> (count: usize)
    ensures
        count == spec_node_count(n as int),
    decreases n,
{
    proof {
        reveal(spec_node_count);
    }
    proof {
        lemma_node_count(n as int);
    }
    if n == 0 {
        0
    } else if n <= CHUNK {
        1
    } else {
        let left = (n - CHUNK) / 2;
        proof {
            lemma_node_count(left as int);
            lemma_node_count(n - 5 - left);
        }
        1 + node_count(left) + node_count(n - CHUNK - left)
    }
}

/// Elements that were resolved into consecutive slots are read back
/// from those slots.
pub proof fn lemma_slots_round_trip<T: Archive>(
    before: Seq<u8>,
    after: Seq<u8>,
    base: int,
    region: Seq<u8>,
    vs: Seq<T::V>,
    rs: Seq<T::Resolver>,
)
    requires
        is_prefix(before, after),
        before.len() <= base,
        base % T::spec_align() == 0,
        vs.len() == rs.len(),
        region.len() == vs.len() * T::spec_size(),
        base + region.len() <= after.len() <= MAX_LEN,
        after.subrange(base, base + region.len()) == region,
        forall|j: int| 0 <= j < vs.len() ==> #[trigger] T::spec_resolves(before, vs[j], rs[j]),
        forall|j: int|
            0 <= j < vs.len() ==> #[trigger] region.subrange(
                j * T::spec_size(),
                j * T::spec_size() + T::spec_size(),
            ) == T::spec_resolve(vs[j], rs[j], base + j * T::spec_size()),
    ensures
        spec_slice_at::<T>(after, base, vs),
{
    T::lemma_layout();
    let size = T::spec_size();
    let n = vs.len() as int;
    assert forall|j: int| 0 <= j < n implies #[trigger] T::spec_access(after, base + j * size)
        == Some(vs[j]) by {
        let at = base + j * size;
        lemma_slot_bounds(j, n, size);
        lemma_slot_aligned(base, j, size, T::spec_align());
        assert(is_prefix(before, after.subrange(0, at))) by {
            assert(after.subrange(0, at).subrange(0, before.len() as int) =~= after.subrange(
                0,
                before.len() as int,
            ));
        }
        assert(T::spec_resolves(before, vs[j], rs[j]));
        T::lemma_resolves_extends(before, after.subrange(0, at), vs[j], rs[j]);
        assert(after.subrange(at, at + size) =~= region.subrange(j * size, j * size + size));
        T::lemma_round_trip(after, vs[j], rs[j], at);
    }
}

/// The resolvers of the keys and values from `lo` up to `hi` are valid
/// in `buf`.
#[verifier::opaque]
pub open spec fn spec_all_resolved<K: Archive, V: Archive>(
    buf: Seq<u8>,
    keys: Seq<K::V>,
    values: Seq<V::V>,
    key_resolvers: Seq<K::Resolver>,
    value_resolvers: Seq<V::Resolver>,
    lo: int,
    hi: int,
) -> bool {
    &&& forall|j: int|
        lo <= j < hi ==> #[trigger] K::spec_resolves(buf, keys[j], key_resolvers[j])
    &&& forall|j: int|
        lo <= j < hi ==> #[trigger] V::spec_resolves(buf, values[j], value_resolvers[j])
}

/// Resolvers that are valid for a range are valid for a part of it.
pub proof fn lemma_all_resolved_part<K: Archive, V: Archive>(
    buf: Seq<u8>,
    keys: Seq<K::V>,
    values: Seq<V::V>,
    key_resolvers: Seq<K::Resolver>,
    value_resolvers: Seq<V::Resolver>,
    lo: int,
    hi: int,
    from: int,
    to: int,
)
    requires
        spec_all_resolved::<K, V>(buf, keys, values, key_resolvers, value_resolvers, lo, hi),
        lo <= from,
        to <= hi,
    ensures
        spec_all_resolved::<K, V>(buf, keys, values, key_resolvers, value_resolvers, from, to),
{
    reveal(spec_all_resolved);
}

/// Resolvers stay valid when the buffer grows.
pub proof fn lemma_all_resolved_extends<K: Archive, V: Archive>(
    buf: Seq<u8>,
    longer: Seq<u8>,
    keys: Seq<K::V>,
    values: Seq<V::V>,
    key_resolvers: Seq<K::Resolver>,
    value_resolvers: Seq<V::Resolver>,
    lo: int,
    hi: int,
)
    requires
        spec_all_resolved::<K, V>(buf, keys, values, key_resolvers, value_resolvers, lo, hi),
        is_prefix(buf, longer),
    ensures
        spec_all_resolved::<K, V>(longer, keys, values, key_resolvers, value_resolvers, lo, hi),
{
    reveal(spec_all_resolved);
    assert forall|j: int| lo <= j < hi implies #[trigger] K::spec_resolves(
        longer,
        keys[j],
        key_resolvers[j],
    ) by {
        assert(K::spec_resolves(buf, keys[j], key_resolvers[j]));
        K::lemma_resolves_extends(buf, longer, keys[j], key_resolvers[j]);
    }
    assert forall|j: int| lo <= j < hi implies #[trigger] V::spec_resolves(
        longer,
        values[j],
        value_resolvers[j],
    ) by {
        assert(V::spec_resolves(buf, values[j], value_resolvers[j]));
        V::lemma_resolves_extends(buf, longer, values[j], value_resolvers[j]);
    }
}

/// The slots of a chunk lie within the room for five slots.
pub proof fn lemma_chunk_bounds(count: int, size: int)
    requires
        0 <= count <= 5,
        0 <= size,
    ensures
        0 <= count * size <= 5 * size,
{
    assert(0 <= count * size <= 5 * size) by (nonlinear_arith)
        requires
            0 <= count <= 5,
            0 <= size,
    ;
}

/// Writes one node at the current position of the writer, which is a
/// multiple of 8: the offsets of the two children, where there are any,
/// the number of entries of the chunk, then the keys and the values of
/// the chunk, resolved into their slots. The chunk holds the `count`
/// entries from `from` on.
pub fn write_node<K: Archive, V: Archive>(
    keys: &[K],
    values: &[V],
    key_resolvers: &Vec<K::Resolver>,
    value_resolvers: &Vec<V::Resolver>,
    from: usize,
    count: usize,
    left: Option<usize>,
    right: Option<usize>,
    values_offset: usize,
    node_size: usize,
    w: &mut Writer,
) -> (pos: usize)
    requires
        old(w).wf(),
        spec_node_layout::<K, V>(),
        values_offset == spec_values_offset::<K, V>(),
        node_size == spec_node_size::<K, V>(),
        1 <= count <= 5,
        from + count <= keys@.len(),
        keys@.len() == values@.len(),
        keys@.len() == key_resolvers@.len(),
        keys@.len() == value_resolvers@.len(),
        old(w)@.len() % 8 == 0,
        old(w)@.len() + node_size <= old(w).spec_limit(),
        spec_all_resolved::<K, V>(
            old(w)@,
            spec_deep_view(keys@),
            spec_deep_view(values@),
            key_resolvers@,
            value_resolvers@,
            from as int,
            from + count,
        ),
        left matches Some(l) ==> l < old(w)@.len(),
        right matches Some(r) ==> r < old(w)@.len(),
    ensures
        final(w).wf(),
        final(w).spec_limit() == old(w).spec_limit(),
        final(w)@.len() == old(w)@.len() + node_size,
        final(w)@.len() % 8 == 0,
        is_prefix(old(w)@, final(w)@),
        pos == old(w)@.len(),
        spec_rel_target(final(w)@, pos as int) == (match left {
            Some(l) => l as int,
            None => pos as int,
        }),
        spec_rel_target(final(w)@, pos + 4) == (match right {
            Some(r) => r as int,
            None => pos + 4,
        }),
        spec_u32_at(final(w)@, pos + 8) == count,
        spec_chunk::<K, V>(final(w)@, pos as int, count as int) == Some(
            spec_entries(spec_deep_view(keys@), spec_deep_view(values@)).subrange(
                from as int,
                from + count,
            ),
        ),
{
    proof {
        lemma_node_layout::<K, V>();
        K::lemma_layout();
        V::lemma_layout();
        lemma_chunk_bounds(count as int, K::spec_size());
        lemma_chunk_bounds(count as int, V::spec_size());
    }
    let _ = keys.len();
    let pos = w.pos();
    let key_size = K::archived_size();
    let value_size = V::archived_size();
    let ghost ks = spec_deep_view(keys@);
    let ghost vs = spec_deep_view(values@);
    let mut place = match w.place(node_size) {
        Ok(place) => place,
        Err(_) => unreached(),
    };
    let left_target = match left {
        Some(l) => l,
        None => pos,
    };
    let right_target = match right {
        Some(r) => r,
        None => pos + 4,
    };
    let left_ptr = rel_ptr_bytes(pos, left_target);
    let right_ptr = rel_ptr_bytes(pos + 4, right_target);
    let count_bytes = u32_to_le_bytes(count as u32);
    let ghost snap0 = place@;
    place.write(0, left_ptr.as_slice());
    let ghost snap1 = place@;
    place.write(4, right_ptr.as_slice());
    let ghost snap2 = place@;
    place.write(8, count_bytes.as_slice());
    let ghost snap3 = place@;
    let chunk_keys = slice_subrange(keys, from, from + count);
    let chunk_key_resolvers = slice_subrange(key_resolvers.as_slice(), from, from + count);
    let chunk_values = slice_subrange(values, from, from + count);
    let chunk_value_resolvers = slice_subrange(value_resolvers.as_slice(), from, from + count);
    let ghost cks = spec_deep_view(chunk_keys@);
    let ghost cvs = spec_deep_view(chunk_values@);
    proof {
        reveal(spec_all_resolved);
        lemma_node_aligned(pos as int, 16, K::spec_align());
        lemma_node_aligned(pos as int, values_offset as int, V::spec_align());
        assert(cks =~= ks.subrange(from as int, from + count));
        assert(cvs =~= vs.subrange(from as int, from + count));
        assert forall|j: int| 0 <= j < count implies #[trigger] K::spec_resolves(
            old(w)@,
            cks[j],
            chunk_key_resolvers@[j],
        ) by {
            assert(K::spec_resolves(old(w)@, ks[from + j], key_resolvers@[from + j]));
        }
        assert forall|j: int| 0 <= j < count implies #[trigger] V::spec_resolves(
            old(w)@,
            cvs[j],
            chunk_value_resolvers@[j],
        ) by {
            assert(V::spec_resolves(old(w)@, vs[from + j], value_resolvers@[from + j]));
        }
    }
    let mut key_place = place.field(16, count * key_size);
    resolve_elements::<K>(chunk_keys, chunk_key_resolvers, &mut key_place);
    place.put(16, &key_place);
    let ghost snap4 = place@;
    let mut value_place = place.field(values_offset, count * value_size);
    resolve_elements::<V>(chunk_values, chunk_value_resolvers, &mut value_place);
    place.put(values_offset, &value_place);
    let ghost snap5 = place@;
    match w.commit(&place) {
        Ok(()) => {},
        Err(_) => unreached(),
    }
    proof {
        let before = old(w)@;
        let after = w@;
        let vo = values_offset as int;
        let kl = count * key_size;
        let vl = count * value_size;
        lemma_auto_spec_u32_to_from_le_bytes();
        lemma_overwrite_range(snap0, 0, left_ptr@, 0, 4);
        lemma_overwrite_range(snap1, 4, right_ptr@, 0, 4);
        lemma_overwrite_range(snap1, 4, right_ptr@, 4, 8);
        lemma_overwrite_range(snap2, 8, count_bytes@, 0, 4);
        lemma_overwrite_range(snap2, 8, count_bytes@, 4, 8);
        lemma_overwrite_range(snap2, 8, count_bytes@, 8, 12);
        lemma_overwrite_range(snap3, 16, key_place@, 0, 4);
        lemma_overwrite_range(snap3, 16, key_place@, 4, 8);
        lemma_overwrite_range(snap3, 16, key_place@, 8, 12);
        lemma_overwrite_range(snap3, 16, key_place@, 16, 16 + kl);
        lemma_overwrite_range(snap4, vo, value_place@, 0, 4);
        lemma_overwrite_range(snap4, vo, value_place@, 4, 8);
        lemma_overwrite_range(snap4, vo, value_place@, 8, 12);
        lemma_overwrite_range(snap4, vo, value_place@, 16, 16 + kl);
        lemma_overwrite_range(snap4, vo, value_place@, vo, vo + vl);
        assert(is_prefix(before, before)) by {
            assert(before.subrange(0, before.len() as int) =~= before);
        }
        lemma_append_keeps(before, before, snap5);
        assert(after.subrange(pos as int, pos + 4) =~= snap5.subrange(0, 4));
        assert(after.subrange(pos + 4, pos + 4 + 4) =~= snap5.subrange(4, 8));
        assert(after.subrange(pos + 8, pos + 8 + 4) =~= snap5.subrange(8, 12));
        assert(after.subrange(pos + 16, pos + 16 + kl) =~= snap5.subrange(16, 16 + kl));
        assert(after.subrange(pos + vo, pos + vo + vl) =~= snap5.subrange(vo, vo + vl));
        lemma_rel_ptr_round_trip(after, pos as int, left_target as int);
        lemma_rel_ptr_round_trip(after, pos + 4, right_target as int);
        lemma_slots_round_trip::<K>(
            before,
            after,
            pos + 16,
            key_place@,
            cks,
            chunk_key_resolvers@,
        );
        lemma_slots_round_trip::<V>(
            before,
            after,
            pos + vo,
            value_place@,
            cvs,
            chunk_value_resolvers@,
        );
        lemma_slice_at_value::<K>(after, pos + 16, cks, after.len() as int);
        lemma_slice_at_value::<V>(after, pos + vo, cvs, after.len() as int);
        assert(spec_entries(cks, cvs) =~= spec_entries(ks, vs).subrange(
            from as int,
            from + count,
        ));
    }
    pos
}

/// The number of bytes of `n` nodes of `size` bytes.
#[verifier::opaque]
pub open spec fn spec_span(n: int, size: int) -> int {
    n * size
}

/// The bytes of the nodes of a tree are those of its left subtree, of
/// its right subtree, and of its root.
pub proof fn lemma_span_add(left: int, right: int, size: int)
    requires
        0 <= left,
        0 <= right,
        0 <= size,
    ensures
        spec_span(left + right + 1, size) == spec_span(left, size) + spec_span(right, size)
            + size,
        0 <= spec_span(left, size),
        0 <= spec_span(right, size),
        spec_span(0, size) == 0,
        spec_span(1, size) == size,
{
    reveal(spec_span);
    assert((left + right + 1) * size == left * size + right * size + size)
        by (nonlinear_arith);
    assert(0 <= left * size) by (nonlinear_arith)
        requires
            0 <= left,
            0 <= size,
    ;
    assert(0 <= right * size) by (nonlinear_arith)
        requires
            0 <= right,
            0 <= size,
    ;
}

/// What begins a buffer begins every buffer that the buffer begins.
pub proof fn lemma_prefix_chain(a: Seq<u8>, b: Seq<u8>, c: Seq<u8>)
    requires
        is_prefix(a, b),
        is_prefix(b, c),
    ensures
        is_prefix(a, c),
{
    assert(c.subrange(0, a.len() as int) =~= c.subrange(0, b.len() as int).subrange(
        0,
        a.len() as int,
    ));
}

/// A node whose children and chunk are well formed is the root of the
/// subtree of their entries.
pub proof fn lemma_node_of_parts<K: Archive, V: Archive>(
    buf: Seq<u8>,
    node: int,
    bound: int,
    left: Seq<(K::V, V::V)>,
    chunk: Seq<(K::V, V::V)>,
    right: Seq<(K::V, V::V)>,
)
    requires
        0 <= node,
        node % 8 == 0,
        node + spec_node_size::<K, V>() <= bound <= buf.len(),
        1 <= spec_u32_at(buf, node + 8) <= 5,
        spec_subtree::<K, V>(buf, node, node) == Some(left),
        spec_chunk::<K, V>(buf, node, spec_u32_at(buf, node + 8) as int) == Some(chunk),
        spec_subtree::<K, V>(buf, node + 4, node) == Some(right),
    ensures
        spec_node::<K, V>(buf, node, bound) == Some(left + chunk + right),
{
    reveal(spec_subtree);
    reveal(spec_node);
    lemma_node_layout::<K, V>();
}

/// A child offset that leads to the root of a subtree that was written
/// before leads to the entries of that subtree, also after the buffer has
/// grown.
pub proof fn lemma_child<K: Archive, V: Archive>(
    before: Seq<u8>,
    after: Seq<u8>,
    ptr_at: int,
    child: Option<usize>,
    node: int,
    entries: Seq<(K::V, V::V)>,
)
    requires
        is_prefix(before, after),
        before.len() <= node <= ptr_at,
        node <= after.len(),
        spec_rel_target(after, ptr_at) == (match child {
            Some(c) => c as int,
            None => ptr_at,
        }),
        match child {
            Some(c) => spec_node::<K, V>(before, c as int, before.len() as int) == Some(entries),
            None => entries == Seq::<(K::V, V::V)>::empty(),
        },
    ensures
        spec_subtree::<K, V>(after, ptr_at, node) == Some(entries),
{
    reveal(spec_subtree);
    reveal(spec_node);
    lemma_node_layout::<K, V>();
    if let Some(c) = child {
        lemma_node_extends::<K, V>(before, after, c as int, before.len() as int);
        lemma_node_bound::<K, V>(after, c as int, before.len() as int, node);
    }
}

/// The larger of two heights.
pub open spec fn spec_max(a: int, b: int) -> int {
    if a >= b {
        a
    } else {
        b
    }
}

/// The height of the subtree that the child offset at `ptr_at` leads to:
/// the number of nodes on the longest way down from its root. No subtree
/// has the height 0.
#[verifier::opaque]
pub open spec fn spec_height(buf: Seq<u8>, ptr_at: int, bound: int) -> int
    decreases bound, 1int,
{
    let node = spec_rel_target(buf, ptr_at);
    if node == ptr_at {
        0
    } else {
        spec_node_height(buf, node, bound)
    }
}

/// The height of the subtree whose root is the node at `node`.
#[verifier::opaque]
pub open spec fn spec_node_height(buf: Seq<u8>, node: int, bound: int) -> int
    decreases bound, 0int,
{
    if 0 <= node && node + 8 <= bound && bound <= buf.len() {
        1 + spec_max(spec_height(buf, node, node), spec_height(buf, node + 4, node))
    } else {
        0
    }
}

/// The height of a subtree stays the same when the buffer grows.
pub proof fn lemma_height_extends(buf: Seq<u8>, longer: Seq<u8>, ptr_at: int, bound: int)
    requires
        is_prefix(buf, longer),
        0 <= ptr_at,
        ptr_at + 4 <= buf.len(),
        bound <= buf.len(),
    ensures
        spec_height(longer, ptr_at, bound) == spec_height(buf, ptr_at, bound),
        0 <= spec_height(buf, ptr_at, bound),
    decreases bound, 1int,
{
    reveal(spec_height);
    reveal(spec_node_height);
    lemma_prefix_subrange(buf, longer, ptr_at, ptr_at + 4);
    let node = spec_rel_target(buf, ptr_at);
    if node != ptr_at {
        lemma_node_height_extends(buf, longer, node, bound);
    }
}

/// The height of the subtree of a node stays the same when the buffer
/// grows.
pub proof fn lemma_node_height_extends(buf: Seq<u8>, longer: Seq<u8>, node: int, bound: int)
    requires
        is_prefix(buf, longer),
        bound <= buf.len(),
    ensures
        spec_node_height(longer, node, bound) == spec_node_height(buf, node, bound),
        0 <= spec_node_height(buf, node, bound),
    decreases bound, 0int,
{
    reveal(spec_height);
    reveal(spec_node_height);
    if 0 <= node && node + 8 <= bound {
        lemma_height_extends(buf, longer, node, node);
        lemma_height_extends(buf, longer, node + 4, node);
    }
}

/// The height of the subtree of a node that lies below a bound is the
/// same below any larger bound within the buffer.
pub proof fn lemma_node_height_bound(buf: Seq<u8>, node: int, bound: int, larger: int)
    requires
        0 <= node,
        node + 8 <= bound <= larger <= buf.len(),
    ensures
        spec_node_height(buf, node, larger) == spec_node_height(buf, node, bound),
{
    reveal(spec_height);
    reveal(spec_node_height);
}

/// The height of a subtree is at most the bound below which its nodes
/// lie.
pub proof fn lemma_node_count_bound(buf: Seq<u8>, ptr_at: int, bound: int)
    requires
        0 <= bound,
    ensures
        spec_height(buf, ptr_at, bound) <= bound,
    decreases bound, 1int,
{
    reveal(spec_height);
    reveal(spec_node_height);
    let node = spec_rel_target(buf, ptr_at);
    if node != ptr_at && 0 <= node && node + 8 <= bound && bound <= buf.len() {
        lemma_node_count_bound(buf, node, node);
        lemma_node_count_bound(buf, node + 4, node);
    }
}

/// The height of the tree over `n` entries: one where the entries fit a
/// chunk, and otherwise one more than the height of the tree over the
/// larger half of the other entries.
pub open spec fn spec_tree_height(n: int) -> int
    decreases n,
{
    if n <= 0 {
        0
    } else if n <= 5 {
        1
    } else {
        1 + spec_tree_height(n - 5 - (n - 5) / 2)
    }
}

/// A tree over more entries is no lower.
pub proof fn lemma_tree_height_monotone(a: int, b: int)
    requires
        a <= b,
    ensures
        0 <= spec_tree_height(a) <= spec_tree_height(b),
    decreases b,
{
    if b > 5 {
        if a > 5 {
            lemma_tree_height_monotone(a - 5 - (a - 5) / 2, b - 5 - (b - 5) / 2);
        } else {
            lemma_tree_height_monotone(0, b - 5 - (b - 5) / 2);
        }
    }
}

/// Two to the power of `k`.
pub open spec fn spec_pow2(k: int) -> int
    decreases k,
{
    if k <= 0 {
        1
    } else {
        2 * spec_pow2(k - 1)
    }
}

/// The tree is balanced: its height grows with the logarithm of the
/// number of its entries. A tree of the height `h` has at least
/// `5 * 2^(h - 1) - 4` entries.
pub proof fn lemma_tree_height_log(n: int)
    requires
        1 <= n,
    ensures
        1 <= spec_tree_height(n),
        5 * spec_pow2(spec_tree_height(n) - 1) <= n + 4,
    decreases n,
{
    if n > 5 {
        lemma_tree_height_log(n - 5 - (n - 5) / 2);
    }
}

/// The height of a node is one more than the larger height of its
/// children.
pub proof fn lemma_node_height_of_parts(buf: Seq<u8>, node: int, bound: int, left: int, right: int)
    requires
        0 <= node,
        node + 8 <= bound <= buf.len(),
        spec_height(buf, node, node) == left,
        spec_height(buf, node + 4, node) == right,
    ensures
        spec_node_height(buf, node, bound) == 1 + spec_max(left, right),
{
    reveal(spec_height);
    reveal(spec_node_height);
}

/// A child offset that leads to the root of a subtree that was written
/// before leads to a subtree of the height of that subtree, also after
/// the buffer has grown.
pub proof fn lemma_child_height(
    before: Seq<u8>,
    after: Seq<u8>,
    ptr_at: int,
    child: Option<usize>,
    node: int,
    height: int,
)
    requires
        is_prefix(before, after),
        before.len() <= node <= ptr_at,
        node <= after.len(),
        spec_rel_target(after, ptr_at) == (match child {
            Some(c) => c as int,
            None => ptr_at,
        }),
        match child {
            Some(c) => c + 8 <= before.len() && spec_node_height(
                before,
                c as int,
                before.len() as int,
            ) == height,
            None => height == 0,
        },
    ensures
        spec_height(after, ptr_at, node) == height,
{
    reveal(spec_height);
    reveal(spec_node_height);
    if let Some(c) = child {
        lemma_node_height_extends(before, after, c as int, before.len() as int);
        lemma_node_height_bound(after, c as int, before.len() as int, node);
    }
}

/// Writes the nodes of the balanced tree over the entries from `lo` up to
/// `hi`. Where the entries fit a chunk, they become one node. Otherwise
/// a chunk in the middle becomes the root, the entries before it its left
/// subtree and those after it its right subtree, which are written first.
/// Returns the position of the root.
pub fn build_subtree<K: Archive, V: Archive>(
    keys: &[K],
    values: &[V],
    key_resolvers: &Vec<K::Resolver>,
    value_resolvers: &Vec<V::Resolver>,
    lo: usize,
    hi: usize,
    values_offset: usize,
    node_size: usize,
    w: &mut Writer,
) -> (root: usize)
    requires
        old(w).wf(),
        spec_node_layout::<K, V>(),
        values_offset == spec_values_offset::<K, V>(),
        node_size == spec_node_size::<K, V>(),
        lo < hi <= keys@.len(),
        keys@.len() == values@.len(),
        keys@.len() == key_resolvers@.len(),
        keys@.len() == value_resolvers@.len(),
        old(w)@.len() % 8 == 0,
        old(w)@.len() + spec_span(spec_node_count(hi - lo), node_size as int) <= old(
            w,
        ).spec_limit(),
        spec_all_resolved::<K, V>(
            old(w)@,
            spec_deep_view(keys@),
            spec_deep_view(values@),
            key_resolvers@,
            value_resolvers@,
            lo as int,
            hi as int,
        ),
    ensures
        final(w).wf(),
        final(w).spec_limit() == old(w).spec_limit(),
        final(w)@.len() == old(w)@.len() + spec_span(
            spec_node_count(hi - lo),
            node_size as int,
        ),
        final(w)@.len() % 8 == 0,
        is_prefix(old(w)@, final(w)@),
        old(w)@.len() <= root,
        root + node_size == final(w)@.len(),
        spec_node::<K, V>(final(w)@, root as int, final(w)@.len() as int) == Some(
            spec_entries(spec_deep_view(keys@), spec_deep_view(values@)).subrange(
                lo as int,
                hi as int,
            ),
        ),
        spec_node_height(final(w)@, root as int, final(w)@.len() as int) == spec_tree_height(
            hi - lo,
        ),
    decreases hi - lo,
{
    let ghost ks = spec_deep_view(keys@);
    let ghost vs = spec_deep_view(values@);
    let ghost entries = spec_entries(ks, vs);
    let ghost start = old(w)@;
    let n = hi - lo;
    proof {
        lemma_node_layout::<K, V>();
        lemma_node_count_split(n as int);
    }
    if n <= CHUNK {
        proof {
            lemma_span_add(0, 0, node_size as int);
        }
        let root = write_node::<K, V>(
            keys,
            values,
            key_resolvers,
            value_resolvers,
            lo,
            n,
            None,
            None,
            values_offset,
            node_size,
            w,
        );
        proof {
            let chunk = entries.subrange(lo as int, hi as int);
            let none = Seq::<(K::V, V::V)>::empty();
            lemma_child::<K, V>(start, w@, root as int, None, root as int, none);
            lemma_child::<K, V>(start, w@, root + 4, None, root as int, none);
            lemma_node_of_parts::<K, V>(w@, root as int, w@.len() as int, none, chunk, none);
            assert(none + chunk + none =~= chunk);
            lemma_child_height(start, w@, root as int, None, root as int, 0);
            lemma_child_height(start, w@, root + 4, None, root as int, 0);
            lemma_node_height_of_parts(w@, root as int, w@.len() as int, 0, 0);
        }
        return root;
    }
    let left_len = (n - CHUNK) / 2;
    let mid = lo + left_len;
    let ghost right_len = n - 5 - left_len;
    proof {
        lemma_node_count(left_len as int);
        lemma_node_count(right_len);
        lemma_span_add(
            spec_node_count(left_len as int),
            spec_node_count(right_len),
            node_size as int,
        );
    }
    proof {
        lemma_all_resolved_part::<K, V>(
            start,
            ks,
            vs,
            key_resolvers@,
            value_resolvers@,
            lo as int,
            hi as int,
            lo as int,
            mid as int,
        );
    }
    let left = if left_len > 0 {
        Some(
            build_subtree::<K, V>(
                keys,
                values,
                key_resolvers,
                value_resolvers,
                lo,
                mid,
                values_offset,
                node_size,
                w,
            ),
        )
    } else {
        assert(start.subrange(0, start.len() as int) =~= start);
        None
    };
    let ghost after_left = w@;
    proof {
        lemma_all_resolved_extends::<K, V>(
            start,
            after_left,
            ks,
            vs,
            key_resolvers@,
            value_resolvers@,
            lo as int,
            hi as int,
        );
        lemma_all_resolved_part::<K, V>(
            after_left,
            ks,
            vs,
            key_resolvers@,
            value_resolvers@,
            lo as int,
            hi as int,
            mid + 5,
            hi as int,
        );
    }
    let right = build_subtree::<K, V>(
        keys,
        values,
        key_resolvers,
        value_resolvers,
        mid + CHUNK,
        hi,
        values_offset,
        node_size,
        w,
    );
    let ghost after_right = w@;
    proof {
        lemma_all_resolved_extends::<K, V>(
            after_left,
            after_right,
            ks,
            vs,
            key_resolvers@,
            value_resolvers@,
            lo as int,
            hi as int,
        );
        lemma_all_resolved_part::<K, V>(
            after_right,
            ks,
            vs,
            key_resolvers@,
            value_resolvers@,
            lo as int,
            hi as int,
            mid as int,
            mid + 5,
        );
    }
    let root = write_node::<K, V>(
        keys,
        values,
        key_resolvers,
        value_resolvers,
        mid,
        CHUNK,
        left,
        Some(right),
        values_offset,
        node_size,
        w,
    );
    proof {
        let after = w@;
        let pos = root as int;
        lemma_prefix_chain(start, after_left, after_right);
        lemma_prefix_chain(start, after_right, after);
        lemma_prefix_chain(after_left, after_right, after);
        let left_entries = entries.subrange(lo as int, mid as int);
        let chunk = entries.subrange(mid as int, mid + 5);
        let right_entries = entries.subrange(mid + 5, hi as int);
        if left is None {
            assert(left_entries =~= Seq::empty());
        }
        lemma_child::<K, V>(after_left, after, pos, left, pos, left_entries);
        lemma_child::<K, V>(after_right, after, pos + 4, Some(right), pos, right_entries);
        lemma_node_of_parts::<K, V>(
            after,
            pos,
            after.len() as int,
            left_entries,
            chunk,
            right_entries,
        );
        assert(left_entries + chunk + right_entries =~= entries.subrange(lo as int, hi as int));
        let left_height = spec_tree_height(left_len as int);
        let right_height = spec_tree_height(right_len);
        lemma_tree_height_monotone(left_len as int, right_len);
        lemma_child_height(after_left, after, pos, left, pos, left_height);
        lemma_child_height(after_right, after, pos + 4, Some(right), pos, right_height);
        lemma_node_height_of_parts(after, pos, after.len() as int, left_height, right_height);
    }
    root
}

/// The views of two lists, one after the other, are the views of the
/// lists one after the other.
pub proof fn lemma_deep_view_add<T: DeepView>(a: Seq<T>, b: Seq<T>)
    ensures
        spec_deep_view(a + b) == spec_deep_view(a) + spec_deep_view(b),
{
    assert(spec_deep_view(a + b) =~= spec_deep_view(a) + spec_deep_view(b));
}

/// The keys and values of entries put one after the other.
pub proof fn lemma_keys_values_add<A, B>(a: Seq<(A, B)>, b: Seq<(A, B)>)
    ensures
        spec_keys(a + b) == spec_keys(a) + spec_keys(b),
        spec_values(a + b) == spec_values(a) + spec_values(b),
{
    assert(spec_keys(a + b) =~= spec_keys(a) + spec_keys(b));
    assert(spec_values(a + b) =~= spec_values(a) + spec_values(b));
}

/// The keys and values of the entries that pair keys with values.
pub proof fn lemma_keys_values_entries<A, B>(keys: Seq<A>, values: Seq<B>)
    requires
        keys.len() == values.len(),
    ensures
        spec_keys(spec_entries(keys, values)) == keys,
        spec_values(spec_entries(keys, values)) == values,
{
    assert(spec_keys(spec_entries(keys, values)) =~= keys);
    assert(spec_values(spec_entries(keys, values)) =~= values);
}

/// Checked access to a subtree: decides whether the child offset at
/// `ptr_at` leads to a well-formed subtree of no more entries than fit
/// `limit` together with those already in `keys`, and appends the keys of
/// the subtree, in order, to `keys`.
pub fn check_subtree<K: Archive, V: Archive>(
    buf: &[u8],
    ptr_at: usize,
    bound: usize,
    values_offset: usize,
    node_size: usize,
    keys: &mut Vec<K>,
    limit: usize,
) -> (r: Result<(), AccessError>)
    requires
        spec_node_layout::<K, V>(),
        values_offset == spec_values_offset::<K, V>(),
        node_size == spec_node_size::<K, V>(),
        ptr_at + 4 <= buf@.len(),
        bound <= ptr_at,
        old(keys)@.len() <= limit,
    ensures
        r is Ok <==> (spec_subtree::<K, V>(buf@, ptr_at as int, bound as int) matches Some(es)
            && old(keys)@.len() + es.len() <= limit),
        r is Ok ==> final(keys)@.len() == old(keys)@.len() + spec_subtree::<K, V>(
            buf@,
            ptr_at as int,
            bound as int,
        ).unwrap().len() && spec_deep_view(final(keys)@) == spec_deep_view(old(keys)@)
            + spec_keys(spec_subtree::<K, V>(buf@, ptr_at as int, bound as int).unwrap()),
    decreases bound,
{
    proof {
        reveal(spec_subtree);
        reveal(spec_node);
    }
    proof {
        lemma_node_layout::<K, V>();
    }
    let len = buf.len();
    let ghost before = keys@;
    let node = match rel_ptr_target(buf, ptr_at) {
        Some(node) => node,
        None => {
            return Err(AccessError::InvalidPointer);
        },
    };
    if node == ptr_at {
        assert(spec_deep_view(keys@) =~= spec_deep_view(before) + spec_keys(
            Seq::<(K::V, V::V)>::empty(),
        ));
        return Ok(());
    }
    if node % 8 != 0 {
        return Err(AccessError::Misaligned);
    }
    if node >= bound || bound - node < node_size {
        return Err(AccessError::OutOfBounds);
    }
    let count = read_u32(buf, node + 8) as usize;
    if count < 1 || count > CHUNK {
        return Err(AccessError::InvalidStructure);
    }
    match check_subtree::<K, V>(buf, node, node, values_offset, node_size, keys, limit) {
        Ok(()) => {},
        Err(e) => {
            return Err(e);
        },
    }
    let ghost after_left = keys@;
    match check_slice::<K>(buf, node + KEYS_OFFSET, count, len) {
        Ok(()) => {},
        Err(e) => {
            return Err(e);
        },
    }
    match check_slice::<V>(buf, node + values_offset, count, len) {
        Ok(()) => {},
        Err(e) => {
            return Err(e);
        },
    }
    if limit - keys.len() < count {
        return Err(AccessError::InvalidStructure);
    }
    let mut chunk_keys = deserialize_slice::<K>(buf, node + KEYS_OFFSET, count);
    let ghost chunk_views = spec_deep_view(chunk_keys@);
    proof {
        assert(chunk_views =~= chunk_keys.deep_view());
        lemma_deep_view_add(after_left, chunk_keys@);
    }
    keys.append(&mut chunk_keys);
    let ghost after_chunk = keys@;
    match check_subtree::<K, V>(buf, node + 4, node, values_offset, node_size, keys, limit) {
        Ok(()) => {},
        Err(e) => {
            return Err(e);
        },
    }
    proof {
        let left = spec_subtree::<K, V>(buf@, node as int, node as int).unwrap();
        let right = spec_subtree::<K, V>(buf@, node + 4, node as int).unwrap();
        let chunk = spec_chunk::<K, V>(buf@, node as int, count as int).unwrap();
        lemma_keys_values_entries(
            spec_slice_value::<K>(buf@, node + 16, count as int),
            spec_slice_value::<V>(buf@, node + values_offset, count as int),
        );
        lemma_keys_values_add(left, chunk);
        lemma_keys_values_add(left + chunk, right);
        assert(spec_deep_view(keys@) =~= spec_deep_view(before) + spec_keys(
            left + chunk + right,
        ));
    }
    Ok(())
}

/// Walks a well-formed subtree in order and appends its keys and values,
/// deserialized, to `keys` and `values`.
pub fn collect_subtree<K: Archive, V: Archive>(
    buf: &[u8],
    ptr_at: usize,
    bound: usize,
    values_offset: usize,
    keys: &mut Vec<K>,
    values: &mut Vec<V>,
)
    requires
        values_offset == spec_values_offset::<K, V>(),
        spec_subtree::<K, V>(buf@, ptr_at as int, bound as int) is Some,
        ptr_at + 4 <= buf@.len(),
        bound <= ptr_at,
    ensures
        spec_deep_view(final(keys)@) == spec_deep_view(old(keys)@) + spec_keys(
            spec_subtree::<K, V>(buf@, ptr_at as int, bound as int).unwrap(),
        ),
        spec_deep_view(final(values)@) == spec_deep_view(old(values)@) + spec_values(
            spec_subtree::<K, V>(buf@, ptr_at as int, bound as int).unwrap(),
        ),
    decreases bound,
{
    proof {
        reveal(spec_subtree);
        reveal(spec_node);
    }
    proof {
        lemma_node_layout::<K, V>();
    }
    let _ = buf.len();
    let ghost keys_before = keys@;
    let ghost values_before = values@;
    let node = match rel_ptr_target(buf, ptr_at) {
        Some(node) => node,
        None => unreached(),
    };
    if node == ptr_at {
        assert(spec_deep_view(keys@) =~= spec_deep_view(keys_before) + spec_keys(
            Seq::<(K::V, V::V)>::empty(),
        ));
        assert(spec_deep_view(values@) =~= spec_deep_view(values_before) + spec_values(
            Seq::<(K::V, V::V)>::empty(),
        ));
        return ;
    }
    assert(spec_node::<K, V>(buf@, node as int, bound as int) is Some);
    let count = read_u32(buf, node + 8) as usize;
    collect_subtree::<K, V>(buf, node, node, values_offset, keys, values);
    let ghost keys_left = keys@;
    let ghost values_left = values@;
    let mut chunk_keys = deserialize_slice::<K>(buf, node + KEYS_OFFSET, count);
    let mut chunk_values = deserialize_slice::<V>(buf, node + values_offset, count);
    proof {
        assert(spec_deep_view(chunk_keys@) =~= chunk_keys.deep_view());
        assert(spec_deep_view(chunk_values@) =~= chunk_values.deep_view());
        lemma_deep_view_add(keys_left, chunk_keys@);
        lemma_deep_view_add(values_left, chunk_values@);
    }
    keys.append(&mut chunk_keys);
    values.append(&mut chunk_values);
    collect_subtree::<K, V>(buf, node + 4, node, values_offset, keys, values);
    proof {
        let left = spec_subtree::<K, V>(buf@, node as int, node as int).unwrap();
        let right = spec_subtree::<K, V>(buf@, node + 4, node as int).unwrap();
        let chunk = spec_chunk::<K, V>(buf@, node as int, count as int).unwrap();
        lemma_keys_values_entries(
            spec_slice_value::<K>(buf@, node + 16, count as int),
            spec_slice_value::<V>(buf@, node + values_offset, count as int),
        );
        lemma_keys_values_add(left, chunk);
        lemma_keys_values_add(left + chunk, right);
        assert(spec_deep_view(keys@) =~= spec_deep_view(keys_before) + spec_keys(
            left + chunk + right,
        ));
        assert(spec_deep_view(values@) =~= spec_deep_view(values_before) + spec_values(
            left + chunk + right,
        ));
    }
}

} // verus!
