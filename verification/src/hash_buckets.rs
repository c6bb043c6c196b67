//! The buckets of a hashed table, as they stand in the buffer.
//!
//! A bucket is a marker, which tells whether the bucket is full, and the
//! slot of one key and one value. The buckets of a table stand one after
//! the other.

use vstd::prelude::*;
use crate::archive::{is_prefix, Archive};
use crate::place::lemma_overwrite_range;
use crate::primitive::lemma_append_keeps;
use crate::slice::{lemma_node_aligned, lemma_slot_aligned, lemma_slot_bounds};
use crate::error::{AccessError, SerializeError};

use crate::ser::{lemma_padding, spec_padding, zeros, Writer, MAX_LEN};

verus! {
/// The views of the entries of the buckets of a table.
pub open spec fn spec_slot_views<K: DeepView, V: DeepView>(slots: Seq<Option<(K, V)>>) -> Seq<
    Option<(K::V, V::V)>,
> {
    Seq::new(
        slots.len(),
        |i: int|
            match slots[i] {
                Some(entry) => Some((entry.0.deep_view(), entry.1.deep_view())),
                None => None,
            },
    )
}

/// The offset of the value within a bucket.
pub open spec fn spec_bucket_value_offset<K: Archive, V: Archive>() -> int {
    8 + K::spec_size() + spec_padding(8 + K::spec_size(), V::spec_align())
}

/// The size of a bucket in bytes.
pub open spec fn spec_bucket_size<K: Archive, V: Archive>() -> int {
    let end = spec_bucket_value_offset::<K, V>() + V::spec_size();
    end + spec_padding(end, 8)
}

/// Whether the layout of a bucket can be computed: a bucket fits the
/// largest buffer.
pub open spec fn spec_bucket_layout<K: Archive, V: Archive>() -> bool {
    spec_bucket_size::<K, V>() <= MAX_LEN
}

/// The shape of a bucket: the value follows the key at an offset that is
/// a multiple of its alignment, and the size of a bucket is a multiple
/// of 8.
pub proof fn lemma_bucket_layout<K: Archive, V: Archive>()
    ensures
        9 <= 8 + K::spec_size() <= spec_bucket_value_offset::<K, V>(),
        spec_bucket_value_offset::<K, V>() % V::spec_align() == 0,
        spec_bucket_value_offset::<K, V>() + V::spec_size() <= spec_bucket_size::<K, V>(),
        spec_bucket_size::<K, V>() % 8 == 0,
        16 <= spec_bucket_size::<K, V>(),
        8int % K::spec_align() == 0,
        8int % V::spec_align() == 0,
{
    K::lemma_layout();
    V::lemma_layout();
    lemma_padding(8 + K::spec_size(), V::spec_align());
    lemma_padding(spec_bucket_value_offset::<K, V>() + V::spec_size(), 8);
}

/// Computes the layout of a bucket: the offset of the value and the size
/// of the bucket, or `None` where a bucket would not fit the largest buffer.
pub fn bucket_layout<K: Archive, V: Archive>() -> (r: Option<(usize, usize)>)
    ensures
        r is Some <==> spec_bucket_layout::<K, V>(),
        r matches Some((value_offset, node_size)) ==> value_offset == spec_bucket_value_offset::<K, V>()
            && node_size == spec_bucket_size::<K, V>(),
{
    proof {
        K::lemma_layout();
        V::lemma_layout();
        lemma_bucket_layout::<K, V>();
    }
    let key_end: u64 = 8 + K::archived_size() as u64;
    let value_align: u64 = V::archived_align() as u64;
    let rem: u64 = key_end % value_align;
    let value_offset: u64 = if rem == 0 {
        key_end
    } else {
        key_end + (value_align - rem)
    };
    let end: u64 = value_offset + V::archived_size() as u64;
    let rem8: u64 = end % 8;
    let node_size: u64 = if rem8 == 0 {
        end
    } else {
        end + (8 - rem8)
    };
    if node_size > MAX_LEN as u64 {
        None
    } else {
        Some((value_offset as usize, node_size as usize))
    }
}

/// The marker of an empty bucket.
pub const BUCKET_EMPTY: u8 = 0;

/// The marker of a full bucket.
pub const BUCKET_FULL: u8 = 1;

/// The entry of the bucket at `at`: `Some(None)` for an empty bucket,
/// `Some(Some(..))` for a full one whose key and value are well formed,
/// and `None` for a malformed bucket.
pub open spec fn spec_bucket<K: Archive, V: Archive>(buf: Seq<u8>, at: int) -> Option<
    Option<(K::V, V::V)>,
> {
    if buf[at] == BUCKET_EMPTY {
        Some(None)
    } else if buf[at] == BUCKET_FULL {
        match (K::spec_access(buf, at + 8), V::spec_access(buf, at + spec_bucket_value_offset::<K, V>())) {
            (Some(k), Some(v)) => Some(Some((k, v))),
            _ => None,
        }
    } else {
        None
    }
}

/// The buckets of `slots` stand one after the other from `base` on.
pub open spec fn spec_buckets_at<K: Archive, V: Archive>(
    buf: Seq<u8>,
    base: int,
    slots: Seq<Option<(K::V, V::V)>>,
) -> bool {
    &&& 0 <= base
    &&& base % 8 == 0
    &&& base + slots.len() * spec_bucket_size::<K, V>() <= buf.len()
    &&& forall|i: int|
        0 <= i < slots.len() ==> #[trigger] spec_bucket::<K, V>(
            buf,
            base + i * spec_bucket_size::<K, V>(),
        ) == Some(slots[i])
}

/// `cap` well-formed buckets stand one after the other from `base` on
/// and end at or before `end`.
pub open spec fn spec_buckets_valid<K: Archive, V: Archive>(
    buf: Seq<u8>,
    base: int,
    cap: int,
    end: int,
) -> bool {
    &&& 0 <= base
    &&& 0 <= cap
    &&& base % 8 == 0
    &&& base + cap * spec_bucket_size::<K, V>() <= end
    &&& end <= buf.len()
    &&& forall|i: int|
        0 <= i < cap ==> (#[trigger] spec_bucket::<K, V>(
            buf,
            base + i * spec_bucket_size::<K, V>(),
        )) is Some
}

/// The entries of the `cap` buckets that stand from `base` on.
pub open spec fn spec_buckets<K: Archive, V: Archive>(buf: Seq<u8>, base: int, cap: int) -> Seq<
    Option<(K::V, V::V)>,
> {
    Seq::new(
        cap as nat,
        |i: int| spec_bucket::<K, V>(buf, base + i * spec_bucket_size::<K, V>()).unwrap(),
    )
}

/// A bucket reads the same when the buffer grows.
pub proof fn lemma_bucket_extends<K: Archive, V: Archive>(buf: Seq<u8>, longer: Seq<u8>, at: int)
    requires
        spec_bucket::<K, V>(buf, at) is Some,
        is_prefix(buf, longer),
        0 <= at < buf.len(),
    ensures
        spec_bucket::<K, V>(longer, at) == spec_bucket::<K, V>(buf, at),
{
    assert(longer[at] == buf[at]) by {
        assert(longer.subrange(0, buf.len() as int)[at] == longer[at]);
    }
    if buf[at] == BUCKET_FULL {
        K::lemma_access_extends(buf, longer, at + 8);
        V::lemma_access_extends(buf, longer, at + spec_bucket_value_offset::<K, V>());
    }
}

/// The number of bytes that serializing the keys and values of the
/// first `k` buckets appends to a writer that stands at `start`.
pub open spec fn spec_slots_len<K: Archive, V: Archive>(
    slots: Seq<Option<(K::V, V::V)>>,
    start: int,
    k: int,
) -> int
    decreases k,
{
    if k <= 0 {
        0
    } else {
        let before = spec_slots_len::<K, V>(slots, start, k - 1);
        match slots[k - 1] {
            Some(entry) => {
                let key_len = K::spec_serialized_len(entry.0, start + before);
                before + key_len + V::spec_serialized_len(entry.1, start + before + key_len)
            },
            None => before,
        }
    }
}

/// Serializing appends no negative number of bytes, and more buckets
/// append no fewer bytes.
pub proof fn lemma_slots_len_monotone<K: Archive, V: Archive>(
    slots: Seq<Option<(K::V, V::V)>>,
    start: int,
    j: int,
    k: int,
)
    requires
        0 <= j <= k,
    ensures
        0 <= spec_slots_len::<K, V>(slots, start, j) <= spec_slots_len::<K, V>(slots, start, k),
    decreases k,
{
    if k > 0 {
        if j < k {
            lemma_slots_len_monotone::<K, V>(slots, start, j, k - 1);
        } else {
            lemma_slots_len_monotone::<K, V>(slots, start, j - 1, k - 1);
        }
        let before = spec_slots_len::<K, V>(slots, start, k - 1);
        if let Some(entry) = slots[k - 1] {
            K::lemma_serialized_len(entry.0, start + before);
            V::lemma_serialized_len(
                entry.1,
                start + before + K::spec_serialized_len(entry.0, start + before),
            );
        }
    }
}

/// The resolvers of the keys and values of the first `k` buckets are
/// valid in `buf`.
pub open spec fn spec_slots_resolved<K: Archive, V: Archive>(
    buf: Seq<u8>,
    slots: Seq<Option<(K::V, V::V)>>,
    resolvers: Seq<Option<(K::Resolver, V::Resolver)>>,
    k: int,
) -> bool {
    forall|i: int|
        0 <= i < k ==> match (#[trigger] slots[i], resolvers[i]) {
            (Some(entry), Some(r)) => K::spec_resolves(buf, entry.0, r.0) && V::spec_resolves(
                buf,
                entry.1,
                r.1,
            ),
            (None, None) => true,
            _ => false,
        }
}

/// Resolvers stay valid when the buffer grows.
pub proof fn lemma_slots_resolved_extends<K: Archive, V: Archive>(
    buf: Seq<u8>,
    longer: Seq<u8>,
    slots: Seq<Option<(K::V, V::V)>>,
    resolvers: Seq<Option<(K::Resolver, V::Resolver)>>,
    k: int,
)
    requires
        spec_slots_resolved::<K, V>(buf, slots, resolvers, k),
        is_prefix(buf, longer),
    ensures
        spec_slots_resolved::<K, V>(longer, slots, resolvers, k),
{
    assert forall|i: int| 0 <= i < k implies match (#[trigger] slots[i], resolvers[i]) {
        (Some(entry), Some(r)) => K::spec_resolves(longer, entry.0, r.0) && V::spec_resolves(
            longer,
            entry.1,
            r.1,
        ),
        (None, None) => true,
        _ => false,
    } by {
        match (slots[i], resolvers[i]) {
            (Some(entry), Some(r)) => {
                K::lemma_resolves_extends(buf, longer, entry.0, r.0);
                V::lemma_resolves_extends(buf, longer, entry.1, r.1);
            },
            _ => {},
        }
    }
}

/// Serializes the keys and values of the full buckets, bucket by bucket,
/// and collects their resolvers: the first pass of archiving a table.
pub fn serialize_slots<K: Archive, V: Archive>(slots: &Vec<Option<(K, V)>>, w: &mut Writer) -> (r:
    Result<Vec<Option<(K::Resolver, V::Resolver)>>, SerializeError>)
    requires
        old(w).wf(),
    ensures
        final(w).wf(),
        final(w).spec_limit() == old(w).spec_limit(),
        r is Ok <==> old(w)@.len() + spec_slots_len::<K, V>(
            spec_slot_views(slots@),
            old(w)@.len() as int,
            slots@.len() as int,
        ) <= old(w).spec_limit(),
        r matches Ok(resolvers) ==> {
            &&& final(w)@.len() == old(w)@.len() + spec_slots_len::<K, V>(
                spec_slot_views(slots@),
                old(w)@.len() as int,
                slots@.len() as int,
            )
            &&& is_prefix(old(w)@, final(w)@)
            &&& resolvers@.len() == slots@.len()
            &&& spec_slots_resolved::<K, V>(
                final(w)@,
                spec_slot_views(slots@),
                resolvers@,
                slots@.len() as int,
            )
        },
        r matches Err(e) ==> e == SerializeError::Writer,
{
    let n = slots.len();
    let ghost views = spec_slot_views(slots@);
    let ghost start = w@.len() as int;
    proof {
        lemma_slots_len_monotone::<K, V>(views, start, n as int, n as int);
        assert(w@.subrange(0, w@.len() as int) =~= w@);
    }
    let mut resolvers: Vec<Option<(K::Resolver, V::Resolver)>> = Vec::new();
    let mut i: usize = 0;
    while i < n
        invariant
            i <= n,
            n == slots@.len(),
            views == spec_slot_views(slots@),
            start == old(w)@.len(),
            w.wf(),
            w.spec_limit() == old(w).spec_limit(),
            w@.len() == start + spec_slots_len::<K, V>(views, start, i as int),
            is_prefix(old(w)@, w@),
            resolvers@.len() == i,
            spec_slots_resolved::<K, V>(w@, views, resolvers@, i as int),
        decreases n - i,
    {
        let ghost before = w@;
        let ghost rs = resolvers@;
        proof {
            lemma_slots_len_monotone::<K, V>(views, start, i + 1, n as int);
        }
        match &slots[i] {
            None => {
                assert(before.subrange(0, before.len() as int) =~= before);
                resolvers.push(None);
            },
            Some(entry) => {
                let key_resolver = match entry.0.serialize(w) {
                    Ok(res) => res,
                    Err(e) => {
                        proof {
                            V::lemma_serialized_len(
                                entry.1.deep_view(),
                                before.len() + K::spec_serialized_len(
                                    entry.0.deep_view(),
                                    before.len() as int,
                                ),
                            );
                        }
                        return Err(e);
                    },
                };
                let ghost mid = w@;
                let value_resolver = match entry.1.serialize(w) {
                    Ok(res) => res,
                    Err(e) => {
                        return Err(e);
                    },
                };
                proof {
                    K::lemma_resolves_extends(mid, w@, entry.0.deep_view(), key_resolver);
                    assert(is_prefix(before, w@)) by {
                        assert(w@.subrange(0, before.len() as int) =~= mid.subrange(
                            0,
                            before.len() as int,
                        ));
                    }
                }
                resolvers.push(Some((key_resolver, value_resolver)));
            },
        }
        proof {
            assert(is_prefix(old(w)@, w@)) by {
                assert(w@.subrange(0, start) =~= before.subrange(0, start));
            }
            lemma_slots_resolved_extends::<K, V>(before, w@, views, rs, i as int);
            assert(spec_slots_resolved::<K, V>(w@, views, resolvers@, i + 1)) by {
                assert forall|j: int| 0 <= j < i + 1 implies match (
                    #[trigger] views[j],
                    resolvers@[j],
                ) {
                    (Some(entry), Some(r)) => K::spec_resolves(w@, entry.0, r.0)
                        && V::spec_resolves(w@, entry.1, r.1),
                    (None, None) => true,
                    _ => false,
                } by {
                    if j < i {
                        assert(resolvers@[j] == rs[j]);
                    }
                }
            }
        }
        i = i + 1;
    }
    Ok(resolvers)
}

/// Writes one full bucket at the current position of the writer, which
/// is a multiple of 8: the marker, then the key and the value, resolved
/// into their slots.
pub fn write_bucket<K: Archive, V: Archive>(
    key: &K,
    key_resolver: K::Resolver,
    value: &V,
    value_resolver: V::Resolver,
    value_offset: usize,
    bucket_size: usize,
    w: &mut Writer,
)
    requires
        old(w).wf(),
        spec_bucket_layout::<K, V>(),
        value_offset == spec_bucket_value_offset::<K, V>(),
        bucket_size == spec_bucket_size::<K, V>(),
        old(w)@.len() % 8 == 0,
        old(w)@.len() + bucket_size <= old(w).spec_limit(),
        K::spec_resolves(old(w)@, key.deep_view(), key_resolver),
        V::spec_resolves(old(w)@, value.deep_view(), value_resolver),
    ensures
        final(w).wf(),
        final(w).spec_limit() == old(w).spec_limit(),
        final(w)@.len() == old(w)@.len() + bucket_size,
        is_prefix(old(w)@, final(w)@),
        spec_bucket::<K, V>(final(w)@, old(w)@.len() as int) == Some(
            Some((key.deep_view(), value.deep_view())),
        ),
{
    proof {
        lemma_bucket_layout::<K, V>();
        K::lemma_layout();
        V::lemma_layout();
    }
    let pos = w.pos();
    let key_size = K::archived_size();
    let value_size = V::archived_size();
    let mut place = match w.place(bucket_size) {
        Ok(place) => place,
        Err(_) => unreached(),
    };
    let marker = vec![BUCKET_FULL];
    let ghost snap0 = place@;
    place.write(0, marker.as_slice());
    let ghost snap1 = place@;
    let mut key_place = place.field(8, key_size);
    proof {
        lemma_node_aligned(pos as int, 8, K::spec_align());
        lemma_node_aligned(pos as int, value_offset as int, V::spec_align());
    }
    key.resolve(key_resolver, &mut key_place);
    proof {
        K::lemma_resolve_len(key.deep_view(), key_resolver, pos + 8);
    }
    place.put(8, &key_place);
    let ghost snap2 = place@;
    let mut value_place = place.field(value_offset, value_size);
    value.resolve(value_resolver, &mut value_place);
    proof {
        V::lemma_resolve_len(value.deep_view(), value_resolver, pos + value_offset);
    }
    place.put(value_offset, &value_place);
    let ghost snap3 = place@;
    match w.commit(&place) {
        Ok(()) => {},
        Err(_) => unreached(),
    }
    proof {
        let before = old(w)@;
        let after = w@;
        let vo = value_offset as int;
        let ks = key_size as int;
        let vs = value_size as int;
        lemma_overwrite_range(snap0, 0, marker@, 0, 1);
        lemma_overwrite_range(snap1, 8, key_place@, 0, 1);
        lemma_overwrite_range(snap1, 8, key_place@, 8, 8 + ks);
        lemma_overwrite_range(snap2, vo, value_place@, 0, 1);
        lemma_overwrite_range(snap2, vo, value_place@, 8, 8 + ks);
        lemma_overwrite_range(snap2, vo, value_place@, vo, vo + vs);
        assert(snap3.subrange(0, 1)[0] == snap3[0]);
        assert(marker@[0] == BUCKET_FULL);
        assert(after[pos as int] == snap3[0]);
        assert(is_prefix(before, before)) by {
            assert(before.subrange(0, before.len() as int) =~= before);
        }
        lemma_append_keeps(before, before, snap3);
        assert(after.subrange(pos + 8, pos + 8 + ks) =~= snap3.subrange(8, 8 + ks));
        assert(after.subrange(pos + vo, pos + vo + vs) =~= snap3.subrange(vo, vo + vs));
        assert(is_prefix(before, after.subrange(0, pos + 8))) by {
            assert(after.subrange(0, pos + 8).subrange(0, before.len() as int) =~= before);
        }
        assert(is_prefix(before, after.subrange(0, pos + vo))) by {
            assert(after.subrange(0, pos + vo).subrange(0, before.len() as int) =~= before);
        }
        K::lemma_resolves_extends(
            before,
            after.subrange(0, pos + 8),
            key.deep_view(),
            key_resolver,
        );
        V::lemma_resolves_extends(
            before,
            after.subrange(0, pos + vo),
            value.deep_view(),
            value_resolver,
        );
        K::lemma_round_trip(after, key.deep_view(), key_resolver, pos + 8);
        V::lemma_round_trip(after, value.deep_view(), value_resolver, pos + vo);
    }
}

/// Writes the buckets of a table, one after the other, at the current
/// position of the writer, which is a multiple of 8: the second pass of
/// archiving a table.
pub fn write_buckets<K: Archive, V: Archive>(
    slots: &Vec<Option<(K, V)>>,
    resolvers: &Vec<Option<(K::Resolver, V::Resolver)>>,
    value_offset: usize,
    bucket_size: usize,
    w: &mut Writer,
)
    requires
        old(w).wf(),
        spec_bucket_layout::<K, V>(),
        value_offset == spec_bucket_value_offset::<K, V>(),
        bucket_size == spec_bucket_size::<K, V>(),
        slots@.len() == resolvers@.len(),
        old(w)@.len() % 8 == 0,
        old(w)@.len() + slots@.len() * bucket_size <= old(w).spec_limit(),
        spec_slots_resolved::<K, V>(
            old(w)@,
            spec_slot_views(slots@),
            resolvers@,
            slots@.len() as int,
        ),
    ensures
        final(w).wf(),
        final(w).spec_limit() == old(w).spec_limit(),
        final(w)@.len() == old(w)@.len() + slots@.len() * bucket_size,
        is_prefix(old(w)@, final(w)@),
        spec_buckets_at::<K, V>(final(w)@, old(w)@.len() as int, spec_slot_views(slots@)),
{
    let cap = slots.len();
    let ghost views = spec_slot_views(slots@);
    let ghost base = w@.len() as int;
    let ghost start = w@;
    proof {
        lemma_bucket_layout::<K, V>();
        assert(start.subrange(0, base) =~= start);
    }
    let mut i: usize = 0;
    while i < cap
        invariant
            i <= cap,
            cap == slots@.len(),
            cap == resolvers@.len(),
            views == spec_slot_views(slots@),
            base == old(w)@.len(),
            start == old(w)@,
            base % 8 == 0,
            spec_bucket_layout::<K, V>(),
            value_offset == spec_bucket_value_offset::<K, V>(),
            bucket_size == spec_bucket_size::<K, V>(),
            16 <= bucket_size,
            bucket_size % 8 == 0,
            base + cap * bucket_size <= w.spec_limit(),
            w.wf(),
            w.spec_limit() == old(w).spec_limit(),
            w@.len() == base + i * bucket_size,
            is_prefix(start, w@),
            spec_slots_resolved::<K, V>(w@, views, resolvers@, cap as int),
            forall|j: int|
                0 <= j < i ==> #[trigger] spec_bucket::<K, V>(w@, base + j * bucket_size) == Some(
                    views[j],
                ),
        decreases cap - i,
    {
        let ghost before = w@;
        proof {
            lemma_slot_bounds(i as int, cap as int, bucket_size as int);
            lemma_slot_aligned(base, i as int, bucket_size as int, 8);
            assert(views[i as int] == views[i as int]);
        }
        match &slots[i] {
            None => {
                match w.pad(bucket_size) {
                    Ok(()) => {},
                    Err(_) => unreached(),
                }
                proof {
                    assert(w@[base + i * bucket_size] == 0);
                    assert(is_prefix(before, before)) by {
                        assert(before.subrange(0, before.len() as int) =~= before);
                    }
                    lemma_append_keeps(before, before, zeros(bucket_size as nat));
                }
            },
            Some(entry) => {
                let r = match resolvers[i] {
                    Some(r) => r,
                    None => unreached(),
                };
                write_bucket::<K, V>(&entry.0, r.0, &entry.1, r.1, value_offset, bucket_size, w);
            },
        }
        proof {
            assert(is_prefix(start, w@)) by {
                assert(w@.subrange(0, base) =~= before.subrange(0, base));
            }
            lemma_slots_resolved_extends::<K, V>(before, w@, views, resolvers@, cap as int);
            assert forall|j: int| 0 <= j < i + 1 implies #[trigger] spec_bucket::<K, V>(
                w@,
                base + j * bucket_size,
            ) == Some(views[j]) by {
                if j < i {
                    lemma_slot_bounds(j, i as int, bucket_size as int);
                    lemma_bucket_extends::<K, V>(before, w@, base + j * bucket_size);
                }
            }
            assert((i + 1) * bucket_size == i * bucket_size + bucket_size) by (nonlinear_arith);
        }
        i = i + 1;
    }
}

/// Buckets that stand in a buffer are well formed and read as
/// themselves, also when the buffer grows.
pub proof fn lemma_buckets_extend<K: Archive, V: Archive>(
    buf: Seq<u8>,
    longer: Seq<u8>,
    base: int,
    slots: Seq<Option<(K::V, V::V)>>,
)
    requires
        spec_buckets_at::<K, V>(buf, base, slots),
        is_prefix(buf, longer),
    ensures
        spec_buckets_at::<K, V>(longer, base, slots),
        spec_buckets_valid::<K, V>(longer, base, slots.len() as int, buf.len() as int),
        spec_buckets::<K, V>(longer, base, slots.len() as int) == slots,
{
    lemma_bucket_layout::<K, V>();
    let size = spec_bucket_size::<K, V>();
    assert forall|i: int| 0 <= i < slots.len() implies #[trigger] spec_bucket::<K, V>(
        longer,
        base + i * size,
    ) == Some(slots[i]) by {
        lemma_slot_bounds(i, slots.len() as int, size);
        assert(spec_bucket::<K, V>(buf, base + i * size) == Some(slots[i]));
        lemma_bucket_extends::<K, V>(buf, longer, base + i * size);
    }
    assert(spec_buckets::<K, V>(longer, base, slots.len() as int) =~= slots);
}

/// Well-formed buckets read the same when the buffer grows.
pub proof fn lemma_buckets_valid_extend<K: Archive, V: Archive>(
    buf: Seq<u8>,
    longer: Seq<u8>,
    base: int,
    cap: int,
    end: int,
)
    requires
        spec_buckets_valid::<K, V>(buf, base, cap, end),
        is_prefix(buf, longer),
    ensures
        spec_buckets_valid::<K, V>(longer, base, cap, end),
        spec_buckets::<K, V>(longer, base, cap) == spec_buckets::<K, V>(buf, base, cap),
{
    lemma_bucket_layout::<K, V>();
    let size = spec_bucket_size::<K, V>();
    assert forall|i: int| 0 <= i < cap implies #[trigger] spec_bucket::<K, V>(
        longer,
        base + i * size,
    ) == spec_bucket::<K, V>(buf, base + i * size) by {
        lemma_slot_bounds(i, cap, size);
        assert(spec_bucket::<K, V>(buf, base + i * size) is Some);
        lemma_bucket_extends::<K, V>(buf, longer, base + i * size);
    }
    assert(spec_buckets::<K, V>(longer, base, cap) =~= spec_buckets::<K, V>(buf, base, cap));
}

/// Checked access to buckets: decides whether `cap` well-formed buckets
/// stand from `base` on and end at or before `end`.
pub fn check_buckets<K: Archive, V: Archive>(
    buf: &[u8],
    base: usize,
    cap: usize,
    end: usize,
    value_offset: usize,
    bucket_size: usize,
) -> (r: Result<(), AccessError>)
    requires
        spec_bucket_layout::<K, V>(),
        value_offset == spec_bucket_value_offset::<K, V>(),
        bucket_size == spec_bucket_size::<K, V>(),
        end <= buf@.len(),
    ensures
        r is Ok <==> spec_buckets_valid::<K, V>(buf@, base as int, cap as int, end as int),
{
    proof {
        lemma_bucket_layout::<K, V>();
        V::lemma_layout();
    }
    if base % 8 != 0 {
        return Err(AccessError::Misaligned);
    }
    if base > end || cap > (end - base) / bucket_size {
        proof {
            if base <= end {
                assert(cap * bucket_size > end - base) by (nonlinear_arith)
                    requires
                        cap > (end - base) / bucket_size as int,
                        bucket_size > 0,
                        end - base >= 0,
                ;
            } else {
                lemma_slot_bounds(0, cap as int + 1, bucket_size as int);
            }
        }
        return Err(AccessError::OutOfBounds);
    }
    proof {
        assert(cap * bucket_size <= end - base) by (nonlinear_arith)
            requires
                cap <= (end - base) / bucket_size as int,
                bucket_size > 0,
                end - base >= 0,
        ;
    }
    let mut i: usize = 0;
    while i < cap
        invariant
            i <= cap,
            value_offset == spec_bucket_value_offset::<K, V>(),
            bucket_size == spec_bucket_size::<K, V>(),
            16 <= bucket_size,
            value_offset + 1 <= bucket_size,
            base + cap * bucket_size <= end <= buf@.len(),
            forall|j: int|
                0 <= j < i ==> (#[trigger] spec_bucket::<K, V>(
                    buf@,
                    base + j * spec_bucket_size::<K, V>(),
                )) is Some,
        decreases cap - i,
    {
        proof {
            lemma_slot_bounds(i as int, cap as int, bucket_size as int);
        }
        let at = base + i * bucket_size;
        let marker = buf[at];
        let ghost bucket = spec_bucket::<K, V>(buf@, base + i * spec_bucket_size::<K, V>());
        if marker == BUCKET_FULL {
            match K::check(buf, at + 8) {
                Ok(()) => {},
                Err(e) => {
                    assert(bucket is None);
                    return Err(e);
                },
            }
            match V::check(buf, at + value_offset) {
                Ok(()) => {},
                Err(e) => {
                    assert(bucket is None);
                    return Err(e);
                },
            }
        } else if marker != BUCKET_EMPTY {
            assert(bucket is None);
            return Err(AccessError::InvalidTag);
        }
        assert(bucket is Some);
        i = i + 1;
    }
    Ok(())
}

/// Builds the entries of the `cap` buckets that stand from `base` on,
/// which the caller attests to be well formed.
pub fn read_buckets<K: Archive, V: Archive>(
    buf: &[u8],
    base: usize,
    cap: usize,
    value_offset: usize,
    bucket_size: usize,
) -> (slots: Vec<Option<(K, V)>>)
    requires
        value_offset == spec_bucket_value_offset::<K, V>(),
        bucket_size == spec_bucket_size::<K, V>(),
        spec_buckets_valid::<K, V>(buf@, base as int, cap as int, buf@.len() as int),
    ensures
        spec_slot_views(slots@) == spec_buckets::<K, V>(buf@, base as int, cap as int),
{
    proof {
        lemma_bucket_layout::<K, V>();
        V::lemma_layout();
    }
    let len = buf.len();
    let mut slots: Vec<Option<(K, V)>> = Vec::new();
    let mut i: usize = 0;
    while i < cap
        invariant
            i <= cap,
            len == buf@.len(),
            value_offset == spec_bucket_value_offset::<K, V>(),
            bucket_size == spec_bucket_size::<K, V>(),
            16 <= bucket_size,
            value_offset + 1 <= bucket_size,
            spec_buckets_valid::<K, V>(buf@, base as int, cap as int, buf@.len() as int),
            slots@.len() == i,
            forall|j: int|
                0 <= j < i ==> Some(spec_slot_views(slots@)[j]) == #[trigger] spec_bucket::<K, V>(
                    buf@,
                    base + j * spec_bucket_size::<K, V>(),
                ),
        decreases cap - i,
    {
        let ghost before = slots@;
        proof {
            lemma_slot_bounds(i as int, cap as int, bucket_size as int);
            assert(spec_bucket::<K, V>(buf@, base + i * spec_bucket_size::<K, V>()) is Some);
        }
        let at = base + i * bucket_size;
        if buf[at] == BUCKET_FULL {
            let key = K::deserialize(buf, at + 8);
            let value = V::deserialize(buf, at + value_offset);
            slots.push(Some((key, value)));
        } else {
            slots.push(None);
        }
        proof {
            assert forall|j: int| 0 <= j < i + 1 implies Some(spec_slot_views(slots@)[j])
                == #[trigger] spec_bucket::<K, V>(buf@, base + j * spec_bucket_size::<K, V>()) by {
                if j < i {
                    assert(spec_slot_views(slots@)[j] == spec_slot_views(before)[j]);
                }
            }
        }
        i = i + 1;
    }
    assert(spec_slot_views(slots@) =~= spec_buckets::<K, V>(buf@, base as int, cap as int));
    slots
}

} // verus!
