//! The ordered container: a search tree laid out in the buffer.
//!
//! The entries of an ordered map are archived as the nodes of a balanced
//! search tree. A node holds a chunk of up to five entries that follow
//! each other in the order of the keys, and the offsets of two children:
//! the subtree of the entries before the chunk and the subtree of the
//! entries after it. The tree is built bottom-up from entries that are
//! already sorted: the nodes of a subtree are written before the node
//! above them, so every child offset leads back to bytes that are already
//! there. A lookup walks down from the root over the raw bytes and
//! searches the chunk of each node; nothing is decoded or rebuilt first.
//! The tree never changes once it is archived.

use vstd::prelude::*;
use vstd::bytes::{lemma_auto_spec_u32_to_from_le_bytes, spec_u32_to_le_bytes};

use crate::archive::{is_prefix, spec_deep_view, Archive};
use crate::api::{spec_archived, spec_archived_with};
use crate::btree_node::{
    lemma_height_extends, lemma_node_count_bound, lemma_node_height_bound,
    lemma_node_height_extends, lemma_tree_height_log, spec_height, spec_node_height, spec_pow2,
    spec_tree_height,
    KEYS_OFFSET, NODE_ALIGN, build_subtree, check_subtree, collect_subtree, lemma_chunk_bounds,
    lemma_node_bound, lemma_node_count, lemma_node_count_covers, lemma_node_extends,
    lemma_node_layout, lemma_subtree_extends, node_count, node_layout, spec_all_resolved,
    spec_chunk, spec_entries, spec_keys, spec_lookup, spec_node, spec_node_count, spec_node_layout,
    spec_node_size, spec_span, spec_subtree, spec_values, spec_values_offset,
};
use crate::error::{AccessError, SerializeError};
use crate::order::{spec_increasing, ArchiveOrd, KeyOrder};
use crate::place::Place;
use crate::primitive::lemma_append_keeps;
use crate::rel_ptr::{read_u32, rel_ptr_target, spec_u32_at};
use crate::ser::{lemma_padding, spec_padding, zeros, Writer, MAX_LEN};
use crate::slice::{
    lemma_prefix_len_monotone, lemma_slot_bounds, serialize_elements, spec_prefix_len,
};
use crate::vec::{
    lemma_header_extends, lemma_header_round_trip, spec_header, spec_header_readable,
    spec_unreadable_header, write_header,
};

verus! {
/// An ordered map: entries sorted by key, with no key twice. It is the
/// live counterpart of the archived search tree.
pub struct OrderedMap<K: ArchiveOrd, V: Archive> {
    keys: Vec<K>,
    values: Vec<V>,
}

impl<K: ArchiveOrd, V: Archive> DeepView for OrderedMap<K, V> {
    type V = Seq<(K::V, V::V)>;

    closed spec fn deep_view(&self) -> Seq<(K::V, V::V)> {
        spec_entries(spec_deep_view(self.keys@), spec_deep_view(self.values@))
    }
}

/// Decides whether each key comes strictly before the next.
pub fn is_increasing<K: ArchiveOrd>(keys: &Vec<K>) -> (b: bool)
    ensures
        b == spec_increasing::<K>(spec_deep_view(keys@)),
{
    let ghost ks = spec_deep_view(keys@);
    if keys.len() < 2 {
        return true;
    }
    let mut i: usize = 0;
    while i < keys.len() - 1
        invariant
            i <= keys@.len() - 1,
            ks == spec_deep_view(keys@),
            forall|j: int| 0 <= j < i ==> K::spec_lt(ks[j], #[trigger] ks[j + 1]),
        decreases keys@.len() - i,
    {
        match keys[i].key_order(&keys[i + 1]) {
            KeyOrder::Before => {},
            _ => {
                proof {
                    if spec_increasing::<K>(ks) {
                        assert(K::spec_lt(ks[i as int], ks[i + 1]));
                        K::lemma_irreflexive(ks[i as int]);
                        if K::spec_lt(ks[i + 1], ks[i as int]) {
                            K::lemma_transitive(ks[i as int], ks[i + 1], ks[i as int]);
                        }
                    }
                }
                return false;
            },
        }
        i = i + 1;
    }
    proof {
        crate::order::lemma_adjacent_increasing::<K>(ks);
    }
    true
}

impl<K: ArchiveOrd, V: Archive> OrderedMap<K, V> {
    #[verifier::type_invariant]
    closed spec fn inv(&self) -> bool {
        self.keys@.len() == self.values@.len() && spec_increasing::<K>(spec_deep_view(self.keys@))
    }

    /// The empty map.
    pub fn new() -> (m: Self)
        ensures
            m.deep_view() == Seq::<(K::V, V::V)>::empty(),
    {
        let m = OrderedMap { keys: Vec::new(), values: Vec::new() };
        assert(m.deep_view() =~= Seq::<(K::V, V::V)>::empty());
        m
    }

    /// The map of the entries that pair each key with the value at the
    /// same index, or `None` where there are not as many keys as values or
    /// the keys are not strictly increasing.
    pub fn from_sorted(keys: Vec<K>, values: Vec<V>) -> (r: Option<Self>)
        ensures
            r is Some <==> keys@.len() == values@.len() && spec_increasing::<K>(
                spec_deep_view(keys@),
            ),
            r matches Some(m) ==> m.deep_view() == spec_entries(
                spec_deep_view(keys@),
                spec_deep_view(values@),
            ),
    {
        if keys.len() != values.len() || !is_increasing(&keys) {
            None
        } else {
            Some(OrderedMap { keys, values })
        }
    }

    /// The number of entries.
    pub fn len(&self) -> (n: usize)
        ensures
            n == self.deep_view().len(),
    {
        self.keys.len()
    }

    /// The keys and the values of the map, in the order of the keys.
    pub fn into_entries(self) -> (r: (Vec<K>, Vec<V>))
        ensures
            spec_deep_view(r.0@) == spec_keys(self.deep_view()),
            spec_deep_view(r.1@) == spec_values(self.deep_view()),
            spec_increasing::<K>(spec_deep_view(r.0@)),
    {
        proof {
            use_type_invariant(&self);
            assert(spec_keys(self.deep_view()) =~= spec_deep_view(self.keys@));
            assert(spec_values(self.deep_view()) =~= spec_deep_view(self.values@));
        }
        (self.keys, self.values)
    }

    /// The keys, in increasing order.
    pub fn keys(&self) -> (keys: &Vec<K>)
        ensures
            spec_deep_view(keys@) == spec_keys(self.deep_view()),
            spec_increasing::<K>(spec_deep_view(keys@)),
    {
        proof {
            use_type_invariant(self);
            assert(spec_keys(self.deep_view()) =~= spec_deep_view(self.keys@));
        }
        &self.keys
    }

    /// The values, in the order of their keys.
    pub fn values(&self) -> (values: &Vec<V>)
        ensures
            spec_deep_view(values@) == spec_values(self.deep_view()),
    {
        proof {
            use_type_invariant(self);
            assert(spec_values(self.deep_view()) =~= spec_deep_view(self.values@));
        }
        &self.values
    }
}

/// The number of bytes that archiving the entries of a map appends to
/// a writer that stands at `start`: what keys and values keep out of
/// line, the padding that aligns the first node, and one node for each
/// entry.
pub open spec fn spec_tree_len<K: Archive, V: Archive>(
    entries: Seq<(K::V, V::V)>,
    start: int,
) -> int {
    let n = entries.len() as int;
    let key_len = spec_prefix_len::<K>(spec_keys(entries), start, n);
    let value_len = spec_prefix_len::<V>(spec_values(entries), start + key_len, n);
    let body = key_len + value_len;
    if !spec_node_layout::<K, V>() {
        MAX_LEN + 1
    } else if n == 0 {
        0
    } else {
        body + spec_padding(start + body, 8) + spec_span(
            spec_node_count(n),
            spec_node_size::<K, V>(),
        )
    }
}

/// The root of a well-formed tree with the entries `entries` is the
/// node at `root`, or there is no root and no entry.
pub open spec fn spec_tree_at<K: ArchiveOrd, V: Archive>(
    buf: Seq<u8>,
    entries: Seq<(K::V, V::V)>,
    root: Option<usize>,
) -> bool {
    &&& spec_node_layout::<K, V>()
    &&& spec_increasing::<K>(spec_keys(entries))
    &&& entries.len() <= MAX_LEN
    &&& match root {
        None => entries.len() == 0,
        Some(root) => entries.len() > 0 && spec_node::<K, V>(buf, root as int, buf.len() as int)
            == Some(entries) && spec_node_height(buf, root as int, buf.len() as int)
            == spec_tree_height(entries.len() as int),
    }
}

/// The entries of the well-formed archived map at `at`, or `None` where
/// the bytes there are no well-formed archived map.
pub open spec fn spec_tree_access<K: ArchiveOrd, V: Archive>(buf: Seq<u8>, at: int) -> Option<
    Seq<(K::V, V::V)>,
> {
    if spec_header_readable(buf, at) && spec_node_layout::<K, V>() {
        match spec_subtree::<K, V>(buf, at, at) {
            Some(entries) => if entries.len() == spec_u32_at(buf, at + 4) && spec_increasing::<K>(
                spec_keys(entries),
            ) {
                Some(entries)
            } else {
                None
            },
            None => None,
        }
    } else {
        None
    }
}

/// Archives the entries of an ordered map, which the caller gives in
/// strictly increasing key order: serializes the keys, then the values,
/// then writes the nodes of the tree. Returns the position of the root,
/// or `None` where there is no entry.
pub fn serialize_entries<K: ArchiveOrd, V: Archive>(keys: &[K], values: &[V], w: &mut Writer) -> (r:
    Result<Option<usize>, SerializeError>)
    requires
        old(w).wf(),
        keys@.len() == values@.len(),
        spec_increasing::<K>(spec_deep_view(keys@)),
    ensures
        final(w).wf(),
        final(w).spec_limit() == old(w).spec_limit(),
        r is Ok <==> old(w)@.len() + spec_tree_len::<K, V>(
            spec_entries(spec_deep_view(keys@), spec_deep_view(values@)),
            old(w)@.len() as int,
        ) <= old(w).spec_limit(),
        r matches Ok(root) ==> {
            &&& final(w)@.len() == old(w)@.len() + spec_tree_len::<K, V>(
                spec_entries(spec_deep_view(keys@), spec_deep_view(values@)),
                old(w)@.len() as int,
            )
            &&& is_prefix(old(w)@, final(w)@)
            &&& spec_tree_at::<K, V>(
                final(w)@,
                spec_entries(spec_deep_view(keys@), spec_deep_view(values@)),
                root,
            )
        },
        r matches Err(e) ==> e == SerializeError::Writer,
{
    let n = keys.len();
    let ghost ks = spec_deep_view(keys@);
    let ghost vs = spec_deep_view(values@);
    let ghost entries = spec_entries(ks, vs);
    let ghost start = w@.len() as int;
    proof {
        assert(spec_keys(entries) =~= ks);
        assert(spec_values(entries) =~= vs);
        lemma_prefix_len_monotone::<K>(ks, start, n as int, n as int);
        lemma_prefix_len_monotone::<V>(
            vs,
            start + spec_prefix_len::<K>(ks, start, n as int),
            n as int,
            n as int,
        );
        lemma_padding(
            start + spec_prefix_len::<K>(ks, start, n as int) + spec_prefix_len::<V>(
                vs,
                start + spec_prefix_len::<K>(ks, start, n as int),
                n as int,
            ),
            8,
        );
        lemma_node_layout::<K, V>();
        lemma_node_count(n as int);
        lemma_span_bounds(spec_node_count(n as int), spec_node_size::<K, V>());
    }
    let (values_offset, node_size) = match node_layout::<K, V>() {
        Some(layout) => layout,
        None => {
            return Err(SerializeError::Writer);
        },
    };
    if n == 0 {
        assert(w@.subrange(0, w@.len() as int) =~= w@);
        return Ok(None);
    }
    let key_resolvers = match serialize_elements(keys, w) {
        Ok(resolvers) => resolvers,
        Err(e) => {
            return Err(e);
        },
    };
    let ghost after_keys = w@;
    let value_resolvers = match serialize_elements(values, w) {
        Ok(resolvers) => resolvers,
        Err(e) => {
            return Err(e);
        },
    };
    let ghost body = w@;
    let pos = match w.align(NODE_ALIGN) {
        Ok(pos) => pos,
        Err(e) => {
            return Err(e);
        },
    };
    let limit = w.limit();
    let nodes = node_count(n);
    if nodes > (limit - pos) / node_size {
        proof {
            reveal(spec_span);
            assert(nodes * node_size > limit - pos) by (nonlinear_arith)
                requires
                    nodes > (limit - pos) / node_size as int,
                    node_size > 0,
                    limit - pos >= 0,
            ;
        }
        return Err(SerializeError::Writer);
    }
    proof {
        reveal(spec_span);
        reveal(spec_all_resolved);
        assert(nodes * node_size <= limit - pos) by (nonlinear_arith)
            requires
                nodes <= (limit - pos) / node_size as int,
                node_size > 0,
                limit - pos >= 0,
        ;
        lemma_node_count_covers(n as int);
        assert(n <= nodes * node_size) by (nonlinear_arith)
            requires
                n <= 5 * nodes,
                5 <= node_size,
                0 <= nodes,
        ;
        let aligned = w@;
        lemma_append_keeps(old(w)@, after_keys, body.subrange(
            after_keys.len() as int,
            body.len() as int,
        ));
        assert(after_keys + body.subrange(after_keys.len() as int, body.len() as int)
            =~= body);
        lemma_append_keeps(old(w)@, body, zeros((pos - body.len()) as nat));
        lemma_append_keeps(after_keys, body, zeros((pos - body.len()) as nat));
        assert forall|j: int| 0 <= j < n implies #[trigger] K::spec_resolves(
            aligned,
            ks[j],
            key_resolvers@[j],
        ) by {
            K::lemma_resolves_extends(after_keys, aligned, ks[j], key_resolvers@[j]);
        }
        assert forall|j: int| 0 <= j < n implies #[trigger] V::spec_resolves(
            aligned,
            vs[j],
            value_resolvers@[j],
        ) by {
            V::lemma_resolves_extends(body, aligned, vs[j], value_resolvers@[j]);
        }
    }
    let ghost aligned = w@;
    let root = build_subtree::<K, V>(
        keys,
        values,
        &key_resolvers,
        &value_resolvers,
        0,
        n,
        values_offset,
        node_size,
        w,
    );
    proof {
        lemma_append_keeps(old(w)@, aligned, w@.subrange(aligned.len() as int, w@.len() as int));
        assert(aligned + w@.subrange(aligned.len() as int, w@.len() as int) =~= w@);
        assert(entries.subrange(0, n as int) =~= entries);
    }
    Ok(Some(root))
}

/// The bytes of no node are none, and those of some nodes are not
/// negative.
pub proof fn lemma_span_bounds(n: int, size: int)
    requires
        0 <= n,
        0 <= size,
    ensures
        0 <= spec_span(n, size),
        spec_span(0, size) == 0,
{
    reveal(spec_span);
    assert(0 <= n * size) by (nonlinear_arith)
        requires
            0 <= n,
            0 <= size,
    ;
}

impl<K: ArchiveOrd, V: Archive> Archive for OrderedMap<K, V> {
    type Resolver = Option<usize>;

    open spec fn spec_size() -> int {
        8
    }

    open spec fn spec_align() -> int {
        4
    }

    open spec fn spec_serialized_len(v: Seq<(K::V, V::V)>, start: int) -> int {
        spec_tree_len::<K, V>(v, start)
    }

    open spec fn spec_resolves(buf: Seq<u8>, v: Seq<(K::V, V::V)>, r: Option<usize>) -> bool {
        spec_tree_at::<K, V>(buf, v, r)
    }

    open spec fn spec_resolve(v: Seq<(K::V, V::V)>, r: Option<usize>, at: int) -> Seq<u8> {
        spec_header(
            at,
            match r {
                Some(root) => root as int,
                None => at,
            },
            v.len() as int,
        )
    }

    open spec fn spec_access(buf: Seq<u8>, at: int) -> Option<Seq<(K::V, V::V)>> {
        spec_tree_access::<K, V>(buf, at)
    }

    open spec fn spec_access_error(buf: Seq<u8>, at: int) -> AccessError {
        if !spec_header_readable(buf, at) {
            spec_unreadable_header(buf, at)
        } else if !spec_node_layout::<K, V>() {
            AccessError::OutOfBounds
        } else {
            AccessError::InvalidStructure
        }
    }

    open spec fn spec_copy_optimized() -> bool {
        false
    }

    proof fn lemma_layout() {
    }

    proof fn lemma_copy_optimized(
        buf: Seq<u8>,
        v: Seq<(K::V, V::V)>,
        r1: Option<usize>,
        r2: Option<usize>,
        at1: int,
        at2: int,
    ) {
    }

    proof fn lemma_serialized_len(v: Seq<(K::V, V::V)>, start: int) {
        let n = v.len() as int;
        let key_len = spec_prefix_len::<K>(spec_keys(v), start, n);
        lemma_prefix_len_monotone::<K>(spec_keys(v), start, n, n);
        lemma_prefix_len_monotone::<V>(spec_values(v), start + key_len, n, n);
        lemma_node_layout::<K, V>();
        lemma_node_count(n);
        lemma_span_bounds(spec_node_count(n), spec_node_size::<K, V>());
        lemma_padding(
            start + key_len + spec_prefix_len::<V>(spec_values(v), start + key_len, n),
            8,
        );
    }

    proof fn lemma_resolve_len(v: Seq<(K::V, V::V)>, r: Option<usize>, at: int) {
        vstd::bytes::lemma_auto_spec_u32_to_from_le_bytes();
        let target = match r {
            Some(root) => root as int,
            None => at,
        };
        assert(crate::rel_ptr::spec_rel_ptr(at, target).len() == 4);
        assert(vstd::bytes::spec_u32_to_le_bytes(v.len() as u32).len() == 4);
    }

    proof fn lemma_resolves_extends(
        buf: Seq<u8>,
        longer: Seq<u8>,
        v: Seq<(K::V, V::V)>,
        r: Option<usize>,
    ) {
        if let Some(root) = r {
            reveal(spec_node);
            lemma_node_layout::<K, V>();
            lemma_node_extends::<K, V>(buf, longer, root as int, buf.len() as int);
            lemma_node_bound::<K, V>(longer, root as int, buf.len() as int, longer.len() as int);
            lemma_node_height_extends(buf, longer, root as int, buf.len() as int);
            lemma_node_height_bound(longer, root as int, buf.len() as int, longer.len() as int);
        }
    }

    proof fn lemma_access_extends(buf: Seq<u8>, longer: Seq<u8>, at: int) {
        lemma_header_extends(buf, longer, at);
        lemma_subtree_extends::<K, V>(buf, longer, at, at);
    }

    proof fn lemma_round_trip(buf: Seq<u8>, v: Seq<(K::V, V::V)>, r: Option<usize>, at: int) {
        reveal(spec_subtree);
        reveal(spec_node);
        let before = buf.subrange(0, at);
        assert(is_prefix(before, buf)) by {
            assert(buf.subrange(0, before.len() as int) =~= before);
        }
        lemma_node_layout::<K, V>();
        match r {
            Some(root) => {
                lemma_header_round_trip(buf, at, root as int, v.len() as int);
                lemma_node_extends::<K, V>(before, buf, root as int, at);
                reveal(spec_subtree);
                reveal(spec_node);
            },
            None => {
                lemma_header_round_trip(buf, at, at, v.len() as int);
                assert(v =~= Seq::empty());
                reveal(spec_subtree);
            },
        }
    }

    fn copy_optimization() -> (b: bool) {
        false
    }

    fn copy_slice(slice: &[OrderedMap<K, V>], out: &mut Vec<u8>) {
    }

    fn archived_size() -> (n: usize) {
        8
    }

    fn archived_align() -> (a: usize) {
        4
    }

    fn serialize(&self, w: &mut Writer) -> (r: Result<Option<usize>, SerializeError>) {
        proof {
            use_type_invariant(self);
        }
        serialize_entries::<K, V>(self.keys.as_slice(), self.values.as_slice(), w)
    }

    fn resolve(&self, r: Option<usize>, place: &mut Place) {
        proof {
            lemma_node_layout::<K, V>();
            reveal(spec_node);
        }
        let target = match r {
            Some(root) => root,
            None => place.pos(),
        };
        write_header(place, target, self.keys.len());
    }

    fn check(buf: &[u8], at: usize) -> (r: Result<(), AccessError>) {
        if at % 4 != 0 {
            return Err(AccessError::Misaligned);
        }
        if at > buf.len() || buf.len() - at < 8 {
            return Err(AccessError::OutOfBounds);
        }
        let (values_offset, node_size) = match node_layout::<K, V>() {
            Some(layout) => layout,
            None => {
                return Err(AccessError::OutOfBounds);
            },
        };
        let n = read_u32(buf, at + 4) as usize;
        let mut keys: Vec<K> = Vec::new();
        match check_subtree::<K, V>(buf, at, at, values_offset, node_size, &mut keys, n) {
            Ok(()) => {},
            Err(_) => {
                return Err(AccessError::InvalidStructure);
            },
        }
        proof {
            let entries = spec_subtree::<K, V>(buf@, at as int, at as int).unwrap();
            assert(spec_deep_view(keys@) =~= spec_keys(entries));
        }
        if keys.len() != n || !is_increasing(&keys) {
            return Err(AccessError::InvalidStructure);
        }
        Ok(())
    }

    fn deserialize(buf: &[u8], at: usize) -> (v: OrderedMap<K, V>) {
        let _ = buf.len();
        let mut keys: Vec<K> = Vec::new();
        let mut values: Vec<V> = Vec::new();
        proof {
            lemma_node_layout::<K, V>();
        }
        let values_offset = match node_layout::<K, V>() {
            Some((values_offset, _)) => values_offset,
            None => unreached(),
        };
        collect_subtree::<K, V>(buf, at, at, values_offset, &mut keys, &mut values);
        proof {
            let entries = spec_subtree::<K, V>(buf@, at as int, at as int).unwrap();
            assert(spec_deep_view(keys@) =~= spec_keys(entries));
            assert(spec_deep_view(values@) =~= spec_values(entries));
            assert(spec_entries(spec_deep_view(keys@), spec_deep_view(values@)) =~= entries);
        }
        OrderedMap { keys, values }
    }
}

/// In entries with strictly increasing keys, a key is looked up to the
/// value of its entry.
pub proof fn lemma_lookup_present<K: ArchiveOrd, V: Archive>(entries: Seq<(K::V, V::V)>, i: int)
    requires
        spec_increasing::<K>(spec_keys(entries)),
        0 <= i < entries.len(),
    ensures
        spec_lookup(entries, entries[i].0) == Some(entries[i].1),
{
    let key = entries[i].0;
    let j = choose|j: int| 0 <= j < entries.len() && entries[j].0 == key;
    let keys = spec_keys(entries);
    K::lemma_irreflexive(key);
    if j < i {
        assert(K::spec_lt(keys[j], keys[i]));
    } else if i < j {
        assert(K::spec_lt(keys[i], keys[j]));
    }
}

/// A key that no entry has is looked up to nothing.
pub proof fn lemma_lookup_absent<K: ArchiveOrd, V: Archive>(entries: Seq<(K::V, V::V)>, key: K::V)
    requires
        forall|i: int| 0 <= i < entries.len() ==> entries[i].0 != key,
    ensures
        spec_lookup(entries, key) is None,
{
}

/// A key that lies between two neighbours in sorted entries, or before
/// the first or after the last of a part of them, is looked up in that
/// part alone.
pub proof fn lemma_lookup_range<K: ArchiveOrd, V: Archive>(
    all: Seq<(K::V, V::V)>,
    from: int,
    to: int,
    key: K::V,
)
    requires
        spec_increasing::<K>(spec_keys(all)),
        0 <= from <= to <= all.len(),
        from > 0 ==> K::spec_lt(all[from - 1].0, key),
        to < all.len() ==> K::spec_lt(key, all[to].0),
    ensures
        spec_increasing::<K>(spec_keys(all.subrange(from, to))),
        spec_lookup(all, key) == spec_lookup(all.subrange(from, to), key),
{
    let part = all.subrange(from, to);
    let keys = spec_keys(all);
    assert forall|i: int, j: int| 0 <= i < j < part.len() implies K::spec_lt(
        spec_keys(part)[i],
        spec_keys(part)[j],
    ) by {
        assert(K::spec_lt(keys[from + i], keys[from + j]));
    }
    K::lemma_irreflexive(key);
    assert forall|j: int| 0 <= j < all.len() && !(from <= j < to) implies all[j].0 != key by {
        if j < from {
            if j < from - 1 {
                assert(K::spec_lt(keys[j], keys[from - 1]));
                K::lemma_transitive(all[j].0, all[from - 1].0, key);
            }
        } else {
            if j > to {
                assert(K::spec_lt(keys[to], keys[j]));
                K::lemma_transitive(key, all[to].0, all[j].0);
            }
        }
    }
    if exists|i: int| 0 <= i < part.len() && part[i].0 == key {
        let i = choose|i: int| 0 <= i < part.len() && part[i].0 == key;
        assert(all[from + i] == part[i]);
        lemma_lookup_present::<K, V>(all, from + i);
        lemma_lookup_present::<K, V>(part, i);
    } else {
        assert forall|j: int| 0 <= j < all.len() implies all[j].0 != key by {
            if from <= j < to {
                assert(part[j - from] == all[j]);
            }
        }
    }
}

/// Looks a key up in an archived map over the raw bytes: walks down from
/// the root and searches the chunk of each node on the way. Returns the
/// position of the archived value of the entry with that key, or `None`
/// where no entry has it, and the number of nodes visited, which is at
/// most the height of the tree. The caller attests that the map at `at`
/// is well formed.
pub fn find_counted<K: ArchiveOrd, V: Archive>(buf: &[u8], at: usize, key: &K) -> (r: (
    Option<usize>,
    usize,
))
    requires
        spec_tree_access::<K, V>(buf@, at as int) is Some,
    ensures
        r.0 is Some <==> spec_lookup(
            spec_tree_access::<K, V>(buf@, at as int).unwrap(),
            key.deep_view(),
        ) is Some,
        r.0 matches Some(pos) ==> V::spec_access(buf@, pos as int) == spec_lookup(
            spec_tree_access::<K, V>(buf@, at as int).unwrap(),
            key.deep_view(),
        ),
        r.1 <= spec_height(buf@, at as int, at as int),
{
    let len = buf.len();
    proof {
        lemma_node_layout::<K, V>();
    }
    let values_offset = match node_layout::<K, V>() {
        Some((values_offset, _)) => values_offset,
        None => unreached(),
    };
    let key_size = K::archived_size();
    let value_size = V::archived_size();
    let ghost all = spec_tree_access::<K, V>(buf@, at as int).unwrap();
    let ghost q = key.deep_view();
    let mut ptr_at = at;
    let mut bound = at;
    let mut visited: usize = 0;
    proof {
        assert(is_prefix(buf@, buf@)) by {
            assert(buf@.subrange(0, buf@.len() as int) =~= buf@);
        }
        lemma_height_extends(buf@, buf@, at as int, at as int);
        lemma_node_count_bound(buf@, at as int, at as int);
    }
    loop
        invariant
            len == buf@.len(),
            visited + spec_height(buf@, ptr_at as int, bound as int) <= spec_height(
                buf@,
                at as int,
                at as int,
            ),
            0 <= spec_height(buf@, ptr_at as int, bound as int),
            spec_height(buf@, at as int, at as int) <= len,
            values_offset == spec_values_offset::<K, V>(),
            key_size == K::spec_size(),
            value_size == V::spec_size(),
            ptr_at + 4 <= buf@.len(),
            bound <= ptr_at,
            q == key.deep_view(),
            all == spec_tree_access::<K, V>(buf@, at as int).unwrap(),
            spec_subtree::<K, V>(buf@, ptr_at as int, bound as int) is Some,
            spec_increasing::<K>(
                spec_keys(spec_subtree::<K, V>(buf@, ptr_at as int, bound as int).unwrap()),
            ),
            spec_lookup(all, q) == spec_lookup(
                spec_subtree::<K, V>(buf@, ptr_at as int, bound as int).unwrap(),
                q,
            ),
        decreases bound,
    {
        proof {
            lemma_node_layout::<K, V>();
            reveal(spec_subtree);
            reveal(spec_node);
        }
        let ghost cur = spec_subtree::<K, V>(buf@, ptr_at as int, bound as int).unwrap();
        let node = match rel_ptr_target(buf, ptr_at) {
            Some(node) => node,
            None => unreached(),
        };
        if node == ptr_at {
            return (None, visited);
        }
        assert(spec_node::<K, V>(buf@, node as int, bound as int) is Some);
        proof {
            reveal(spec_height);
            reveal(spec_node_height);
            assert(is_prefix(buf@, buf@)) by {
                assert(buf@.subrange(0, buf@.len() as int) =~= buf@);
            }
            lemma_height_extends(buf@, buf@, node as int, node as int);
            lemma_height_extends(buf@, buf@, node + 4, node as int);
        }
        visited = visited + 1;
        let count = read_u32(buf, node + 8) as usize;
        let ghost left = spec_subtree::<K, V>(buf@, node as int, node as int).unwrap();
        let ghost right = spec_subtree::<K, V>(buf@, node + 4, node as int).unwrap();
        let ghost chunk = spec_chunk::<K, V>(buf@, node as int, count as int).unwrap();
        let ghost first = left.len() as int;
        proof {
            lemma_chunk_bounds(count as int, key_size as int);
            lemma_chunk_bounds(count as int, value_size as int);
            assert(cur == left + chunk + right);
            assert(chunk.len() == count);
        }
        let mut i: usize = 0;
        let mut go_left = false;
        while i < count && !go_left
            invariant
                len == buf@.len(),
                visited <= spec_height(buf@, at as int, at as int),
                i <= count <= 5,
                values_offset == spec_values_offset::<K, V>(),
                key_size == K::spec_size(),
                value_size == V::spec_size(),
                q == key.deep_view(),
                all == spec_tree_access::<K, V>(buf@, at as int).unwrap(),
                cur == left + chunk + right,
                first == left.len(),
                chunk.len() == count,
                spec_chunk::<K, V>(buf@, node as int, count as int) == Some(chunk),
                spec_increasing::<K>(spec_keys(cur)),
                spec_lookup(all, q) == spec_lookup(cur, q),
                node + spec_node_size::<K, V>() <= buf@.len(),
                16 + 5 * key_size <= values_offset,
                values_offset + 5 * value_size <= spec_node_size::<K, V>(),
                go_left ==> i == 0 && K::spec_lt(q, chunk[0].0),
                !go_left && i > 0 ==> K::spec_lt(chunk[i - 1].0, q),
            decreases count - i + (if go_left { 0int } else { 1int }),
        {
            proof {
                lemma_slot_bounds(i as int, count as int, key_size as int);
                lemma_slot_bounds(i as int, count as int, value_size as int);
                lemma_chunk_bounds(count as int, key_size as int);
                lemma_chunk_bounds(count as int, value_size as int);
                assert(K::spec_access(buf@, node + 16 + i * K::spec_size()) is Some);
                assert(V::spec_access(buf@, node + values_offset + i * V::spec_size()) is Some);
                assert(chunk[i as int].0 == K::spec_access(
                    buf@,
                    node + 16 + i * K::spec_size(),
                ).unwrap());
                assert(chunk[i as int].1 == V::spec_access(
                    buf@,
                    node + values_offset + i * V::spec_size(),
                ).unwrap());
                assert(cur[first + i] == chunk[i as int]);
            }
            let k = K::deserialize(buf, node + KEYS_OFFSET + i * key_size);
            match key.key_order(&k) {
                KeyOrder::Same => {
                    proof {
                        lemma_lookup_present::<K, V>(cur, first + i);
                    }
                    return (Some(node + values_offset + i * value_size), visited);
                },
                KeyOrder::Before => {
                    if i == 0 {
                        go_left = true;
                    } else {
                        proof {
                            assert(cur[first + i - 1] == chunk[i - 1]);
                            lemma_lookup_range::<K, V>(cur, first + i, first + i, q);
                        }
                        return (None, visited);
                    }
                },
                KeyOrder::After => {
                    i = i + 1;
                },
            }
        }
        proof {
            if go_left {
                assert(cur[first] == chunk[0]);
                lemma_lookup_range::<K, V>(cur, 0, first, q);
                assert(cur.subrange(0, first) =~= left);
            } else {
                assert(cur[first + count - 1] == chunk[count - 1]);
                lemma_lookup_range::<K, V>(cur, first + count, cur.len() as int, q);
                assert(cur.subrange(first + count, cur.len() as int) =~= right);
            }
        }
        if go_left {
            ptr_at = node;
        } else {
            ptr_at = node + 4;
        }
        bound = node;
    }
}

/// Looks a key up in an archived map over the raw bytes. Returns the
/// position of the archived value of the entry with that key, or `None`
/// where no entry has it. The caller attests that the map at `at` is well
/// formed.
pub fn find<K: ArchiveOrd, V: Archive>(buf: &[u8], at: usize, key: &K) -> (r: Option<usize>)
    requires
        spec_tree_access::<K, V>(buf@, at as int) is Some,
    ensures
        r is Some <==> spec_lookup(
            spec_tree_access::<K, V>(buf@, at as int).unwrap(),
            key.deep_view(),
        ) is Some,
        r matches Some(pos) ==> V::spec_access(buf@, pos as int) == spec_lookup(
            spec_tree_access::<K, V>(buf@, at as int).unwrap(),
            key.deep_view(),
        ),
{
    find_counted::<K, V>(buf, at, key).0
}

/// The cost of a lookup: the tree of an archived map of `n` entries has
/// the height of the balanced tree over `n` entries, which grows with the
/// logarithm of `n`; a lookup visits at most as many nodes, and compares
/// at most five keys in each.
pub proof fn lemma_lookup_cost<K: ArchiveOrd, V: Archive>(
    v: Seq<(K::V, V::V)>,
    buf: Seq<u8>,
    pos: int,
)
    requires
        spec_archived::<OrderedMap<K, V>>(v, buf, pos),
    ensures
        spec_height(buf, pos, pos) == spec_tree_height(v.len() as int),
        v.len() >= 1 ==> 5 * spec_pow2(spec_tree_height(v.len() as int) - 1) <= v.len() + 4,
{
    let r = choose|r: Option<usize>| spec_archived_with::<OrderedMap<K, V>>(v, r, buf, pos);
    let before = buf.subrange(0, pos);
    assert(is_prefix(before, buf)) by {
        assert(buf.subrange(0, before.len() as int) =~= before);
    }
    reveal(spec_height);
    reveal(spec_node_height);
    reveal(spec_node);
    lemma_node_layout::<K, V>();
    match r {
        Some(root) => {
            lemma_header_round_trip(buf, pos, root as int, v.len() as int);
            lemma_node_height_extends(before, buf, root as int, pos);
        },
        None => {
            lemma_header_round_trip(buf, pos, pos, v.len() as int);
        },
    }
    if v.len() >= 1 {
        lemma_tree_height_log(v.len() as int);
    }
}

/// Looks a key up in an archived map and deserializes the value of its
/// entry.
pub fn get<K: ArchiveOrd, V: Archive>(buf: &[u8], at: usize, key: &K) -> (r: Option<V>)
    requires
        spec_tree_access::<K, V>(buf@, at as int) is Some,
    ensures
        r is Some <==> spec_lookup(
            spec_tree_access::<K, V>(buf@, at as int).unwrap(),
            key.deep_view(),
        ) is Some,
        r matches Some(v) ==> Some(v.deep_view()) == spec_lookup(
            spec_tree_access::<K, V>(buf@, at as int).unwrap(),
            key.deep_view(),
        ),
{
    match find::<K, V>(buf, at, key) {
        Some(pos) => Some(V::deserialize(buf, pos)),
        None => None,
    }
}

/// The number of entries of the archived map at `at`.
pub fn archived_len<K: ArchiveOrd, V: Archive>(buf: &[u8], at: usize) -> (n: usize)
    requires
        spec_tree_access::<K, V>(buf@, at as int) is Some,
    ensures
        n == spec_tree_access::<K, V>(buf@, at as int).unwrap().len(),
{
    let _ = buf.len();
    read_u32(buf, at + 4) as usize
}

/// Decides whether two lists hold the same values, one by one.
pub fn same_values<T: ArchiveOrd>(a: &Vec<T>, b: &Vec<T>) -> (same: bool)
    ensures
        same == (spec_deep_view(a@) == spec_deep_view(b@)),
{
    if a.len() != b.len() {
        assert(spec_deep_view(a@).len() != spec_deep_view(b@).len());
        return false;
    }
    let mut i: usize = 0;
    while i < a.len()
        invariant
            i <= a@.len(),
            a@.len() == b@.len(),
            forall|j: int| 0 <= j < i ==> spec_deep_view(a@)[j] == spec_deep_view(b@)[j],
        decreases a@.len() - i,
    {
        match a[i].key_order(&b[i]) {
            KeyOrder::Same => {},
            _ => {
                assert(spec_deep_view(a@)[i as int] != spec_deep_view(b@)[i as int]);
                return false;
            },
        }
        i = i + 1;
    }
    assert(spec_deep_view(a@) =~= spec_deep_view(b@));
    true
}

/// Visits the entries of an archived map in order: the keys, strictly
/// increasing, and the value of each. The caller attests that the map at
/// `at` is well formed.
pub fn entries<K: ArchiveOrd, V: Archive>(buf: &[u8], at: usize) -> (r: (Vec<K>, Vec<V>))
    requires
        spec_tree_access::<K, V>(buf@, at as int) is Some,
    ensures
        spec_deep_view(r.0@) == spec_keys(spec_tree_access::<K, V>(buf@, at as int).unwrap()),
        spec_deep_view(r.1@) == spec_values(spec_tree_access::<K, V>(buf@, at as int).unwrap()),
        spec_increasing::<K>(spec_deep_view(r.0@)),
{
    let _ = buf.len();
    let mut keys: Vec<K> = Vec::new();
    let mut values: Vec<V> = Vec::new();
    proof {
        lemma_node_layout::<K, V>();
    }
    let values_offset = match node_layout::<K, V>() {
        Some((values_offset, _)) => values_offset,
        None => unreached(),
    };
    collect_subtree::<K, V>(buf, at, at, values_offset, &mut keys, &mut values);
    proof {
        let entries = spec_subtree::<K, V>(buf@, at as int, at as int).unwrap();
        assert(spec_deep_view(keys@) =~= spec_keys(entries));
        assert(spec_deep_view(values@) =~= spec_values(entries));
    }
    (keys, values)
}

/// Decides whether an archived map holds the entries of a map: as many
/// entries, and, visiting both in order, the same key and the same value
/// at every step. The caller attests that the map at `at` is well formed.
pub fn eq<K: ArchiveOrd, V: ArchiveOrd>(buf: &[u8], at: usize, other: &OrderedMap<K, V>) -> (same:
    bool)
    requires
        spec_tree_access::<K, V>(buf@, at as int) is Some,
    ensures
        same == (spec_tree_access::<K, V>(buf@, at as int).unwrap() == other.deep_view()),
{
    let ghost mine = spec_tree_access::<K, V>(buf@, at as int).unwrap();
    let ghost theirs = other.deep_view();
    if archived_len::<K, V>(buf, at) != other.len() {
        false
    } else {
        let (keys, values) = entries::<K, V>(buf, at);
        let same_keys = same_values(&keys, other.keys());
        let same = same_keys && same_values(&values, other.values());
        proof {
            if same {
                assert(mine =~= theirs) by {
                    assert forall|i: int| 0 <= i < mine.len() implies mine[i] == theirs[i] by {
                        assert(spec_keys(mine)[i] == spec_keys(theirs)[i]);
                        assert(spec_values(mine)[i] == spec_values(theirs)[i]);
                    }
                }
            }
        }
        same
    }
}

/// An ordered set: an ordered map whose values are empty.
pub type OrderedSet<K> = OrderedMap<K, ()>;

/// The set of the keys, or `None` where the keys are not strictly
/// increasing.
pub fn set_from_sorted<K: ArchiveOrd>(keys: Vec<K>) -> (r: Option<OrderedSet<K>>)
    ensures
        r is Some <==> spec_increasing::<K>(spec_deep_view(keys@)),
        r matches Some(set) ==> spec_keys(set.deep_view()) == spec_deep_view(keys@),
{
    let mut values: Vec<()> = Vec::new();
    let mut i: usize = 0;
    while i < keys.len()
        invariant
            i <= keys@.len(),
            values@.len() == i,
        decreases keys@.len() - i,
    {
        values.push(());
        i = i + 1;
    }
    let ghost value_views = spec_deep_view(values@);
    match OrderedMap::<K, ()>::from_sorted(keys, values) {
        Some(set) => {
            assert(spec_keys(spec_entries(spec_deep_view(keys@), value_views))
                =~= spec_deep_view(keys@));
            Some(set)
        },
        None => None,
    }
}

/// Decides over the raw bytes whether an archived set holds a key. The
/// caller attests that the set at `at` is well formed.
pub fn set_contains<K: ArchiveOrd>(buf: &[u8], at: usize, key: &K) -> (b: bool)
    requires
        spec_tree_access::<K, ()>(buf@, at as int) is Some,
    ensures
        b == spec_keys(spec_tree_access::<K, ()>(buf@, at as int).unwrap()).contains(
            key.deep_view(),
        ),
{
    let ghost entries = spec_tree_access::<K, ()>(buf@, at as int).unwrap();
    let found = find::<K, ()>(buf, at, key);
    proof {
        let keys = spec_keys(entries);
        if keys.contains(key.deep_view()) {
            let i = choose|i: int| 0 <= i < keys.len() && #[trigger] keys[i] == key.deep_view();
            assert(entries[i].0 == key.deep_view());
        }
        if spec_lookup(entries, key.deep_view()) is Some {
            let i = choose|i: int| 0 <= i < entries.len() && entries[i].0 == key.deep_view();
            assert(keys[i] == key.deep_view());
        }
    }
    found.is_some()
}

} // verus!
