//! The hashed container: an open-addressing table laid out in the buffer.
//!
//! A table of `n` entries has `ceil(n / (7/8))` buckets: the load factor
//! is fixed at 7/8. A bucket holds a marker that tells whether it is
//! full, and the slot of one key and one value. An entry is placed in the
//! first empty bucket at or after the bucket that the hash of its key
//! names, wrapping around at the end of the table. A lookup probes the
//! buckets in the same order until it meets the key or an empty bucket.
//! The table never changes once it is built, so it is never resized.

use vstd::prelude::*;
use crate::archive::{is_prefix, spec_deep_view, Archive};
use crate::place::Place;
use crate::primitive::lemma_append_keeps;
use crate::slice::lemma_slot_bounds;
use crate::error::{AccessError, SerializeError};
use crate::rel_ptr::{read_u32, rel_ptr_target, spec_rel_target, spec_u32_at};
use crate::ser::{lemma_padding, spec_padding, zeros, Writer, MAX_LEN};
use crate::vec::{
    lemma_header_extends, lemma_header_round_trip, spec_header, spec_header_readable,
    spec_unreadable_header, write_header,
};
use crate::hash::ArchiveHash;
use crate::hash_buckets::{
    spec_slot_views, BUCKET_FULL, bucket_layout, check_buckets, lemma_bucket_layout,
    lemma_buckets_extend, lemma_buckets_valid_extend, lemma_slots_len_monotone,
    lemma_slots_resolved_extends, read_buckets, serialize_slots, spec_bucket, spec_bucket_layout,
    spec_bucket_size, spec_bucket_value_offset, spec_buckets, spec_buckets_at, spec_buckets_valid,
    spec_slots_len, write_buckets,
};

verus! {

/// The numerator of the load factor.
pub const LOAD_NUMERATOR: usize = 7;

/// The denominator of the load factor.
pub const LOAD_DENOMINATOR: usize = 8;

/// The number of buckets of a table of `n` entries: the least number of
/// which `n` is at most seven eighths.
pub open spec fn spec_capacity(n: int) -> int {
    if n <= 0 {
        0
    } else {
        (LOAD_DENOMINATOR * n + LOAD_NUMERATOR - 1) / (LOAD_NUMERATOR as int)
    }
}

/// The number of buckets is the number of entries divided by the load
/// factor and rounded up: the entries fill at most seven eighths of the
/// buckets, and one bucket less would not do. A table that holds an
/// entry has an empty bucket.
pub proof fn lemma_capacity(n: int)
    requires
        0 <= n,
    ensures
        8 * n <= 7 * spec_capacity(n) < 8 * n + 7,
        n > 0 ==> n < spec_capacity(n),
        spec_capacity(n) <= 2 * n,
{
}

/// The bucket that the probe of a key reaches at its step `t`, where
/// `home` is the bucket that the hash of the key names.
pub open spec fn spec_probe(home: int, t: int, cap: int) -> int {
    if home + t < cap {
        home + t
    } else {
        home + t - cap
    }
}

/// The step at which a probe from `home` reaches the bucket `b`.
pub open spec fn spec_dist(home: int, b: int, cap: int) -> int {
    if b >= home {
        b - home
    } else {
        b + cap - home
    }
}

/// The bucket that the hash of a key names in a table of `cap` buckets.
pub open spec fn spec_home<K: ArchiveHash>(key: K::V, cap: int) -> int {
    (K::spec_hash(key) as int) % cap
}

/// The number of full buckets among the first `k`.
pub open spec fn spec_count<A>(slots: Seq<Option<A>>, k: int) -> int
    decreases k,
{
    if k <= 0 {
        0
    } else {
        spec_count(slots, k - 1) + if slots[k - 1] is Some {
            1int
        } else {
            0int
        }
    }
}

/// Every bucket that the probe of the key in bucket `b` passes before it
/// reaches `b` is full.
pub open spec fn spec_chain<K: ArchiveHash, B>(slots: Seq<Option<(K::V, B)>>, b: int) -> bool {
    slots[b] matches Some(entry) ==> forall|t: int|
        0 <= t < spec_dist(spec_home::<K>(entry.0, slots.len() as int), b, slots.len() as int)
            ==> (#[trigger] slots[spec_probe(
            spec_home::<K>(entry.0, slots.len() as int),
            t,
            slots.len() as int,
        )]) is Some
}

/// No two buckets hold the same key.
pub open spec fn spec_distinct<A, B>(slots: Seq<Option<(A, B)>>) -> bool {
    forall|i: int, j: int|
        0 <= i < j < slots.len() && slots[i] is Some && slots[j] is Some ==> slots[i].unwrap().0
            != slots[j].unwrap().0
}

/// The buckets are those of a table of `n` entries: `n` of them are
/// full, their number is the capacity for `n` entries, no key occurs
/// twice, and the probe of every key finds it.
pub open spec fn spec_table<K: ArchiveHash, B>(slots: Seq<Option<(K::V, B)>>, n: int) -> bool {
    &&& 0 <= n
    &&& slots.len() == spec_capacity(n)
    &&& spec_count(slots, slots.len() as int) == n
    &&& spec_distinct(slots)
    &&& forall|b: int| 0 <= b < slots.len() ==> spec_chain::<K, B>(slots, b)
}

/// The bucket that holds `key`, where there is one.
pub open spec fn spec_bucket_of<A, B>(slots: Seq<Option<(A, B)>>, key: A) -> Option<int> {
    if exists|b: int| 0 <= b < slots.len() && slots[b] is Some && slots[b].unwrap().0 == key {
        Some(choose|b: int| 0 <= b < slots.len() && slots[b] is Some && slots[b].unwrap().0 == key)
    } else {
        None
    }
}

/// What a lookup of `key` gives: the value of the entry with that key,
/// or `None` where there is none.
pub open spec fn spec_get<A, B>(slots: Seq<Option<(A, B)>>, key: A) -> Option<B> {
    match spec_bucket_of(slots, key) {
        Some(b) => Some(slots[b].unwrap().1),
        None => None,
    }
}

/// The full buckets among the first `k` are at most `k`, and they are
/// `k` where all are full.
pub proof fn lemma_count_bounds<A>(slots: Seq<Option<A>>, k: int)
    requires
        0 <= k <= slots.len(),
    ensures
        0 <= spec_count(slots, k) <= k,
        (forall|b: int| 0 <= b < k ==> slots[b] is Some) ==> spec_count(slots, k) == k,
    decreases k,
{
    if k > 0 {
        lemma_count_bounds(slots, k - 1);
    }
}

/// Filling an empty bucket adds one to the number of full buckets.
pub proof fn lemma_count_fill<A>(slots: Seq<Option<A>>, b: int, entry: A, k: int)
    requires
        0 <= b < slots.len(),
        slots[b] is None,
        0 <= k <= slots.len(),
    ensures
        spec_count(slots.update(b, Some(entry)), k) == spec_count(slots, k) + if b < k {
            1int
        } else {
            0int
        },
    decreases k,
{
    if k > 0 {
        lemma_count_fill(slots, b, entry, k - 1);
    }
}

/// A table in which no bucket is full holds no entry.
pub proof fn lemma_count_empty<A>(slots: Seq<Option<A>>, k: int)
    requires
        0 <= k <= slots.len(),
        forall|b: int| 0 <= b < slots.len() ==> slots[b] is None,
    ensures
        spec_count(slots, k) == 0,
    decreases k,
{
    if k > 0 {
        lemma_count_empty(slots, k - 1);
    }
}

/// The bucket is full and holds another key than `key`.
pub open spec fn spec_other<A, B>(slot: Option<(A, B)>, key: A) -> bool {
    slot is Some && slot.unwrap().0 != key
}

/// A probe that passed `d` full buckets without meeting `key` and then
/// reached an empty one shows that no bucket holds `key`.
pub proof fn lemma_probe_absent<K: ArchiveHash, B>(
    slots: Seq<Option<(K::V, B)>>,
    key: K::V,
    d: int,
)
    requires
        slots.len() > 0,
        forall|b: int| 0 <= b < slots.len() ==> spec_chain::<K, B>(slots, b),
        0 <= d < slots.len(),
        forall|t: int|
            0 <= t < d ==> spec_other(
                #[trigger] slots[spec_probe(
                    spec_home::<K>(key, slots.len() as int),
                    t,
                    slots.len() as int,
                )],
                key,
            ),
        slots[spec_probe(spec_home::<K>(key, slots.len() as int), d, slots.len() as int)] is None,
    ensures
        spec_bucket_of(slots, key) is None,
        spec_get(slots, key) is None,
{
    let cap = slots.len() as int;
    let home = spec_home::<K>(key, cap);
    assert forall|b: int| 0 <= b < cap && slots[b] is Some implies slots[b].unwrap().0
        != key by {
        if slots[b].unwrap().0 == key {
            let e = spec_dist(home, b, cap);
            assert(spec_probe(home, e, cap) == b);
            assert(spec_chain::<K, B>(slots, b));
            if e < d {
                assert(slots[spec_probe(home, e, cap)].unwrap().0 != key);
            } else if e > d {
                assert(slots[spec_probe(home, d, cap)] is Some);
            }
        }
    }
}

/// In a table without a key twice, the bucket that holds a key is the
/// one that a lookup of the key gives.
pub proof fn lemma_bucket_unique<A, B>(slots: Seq<Option<(A, B)>>, b: int)
    requires
        spec_distinct(slots),
        0 <= b < slots.len(),
        slots[b] is Some,
    ensures
        spec_bucket_of(slots, slots[b].unwrap().0) == Some(b),
        spec_get(slots, slots[b].unwrap().0) == Some(slots[b].unwrap().1),
{
    let key = slots[b].unwrap().0;
    let c = choose|c: int| 0 <= c < slots.len() && slots[c] is Some && slots[c].unwrap().0 == key;
    if c < b {
        assert(slots[c].unwrap().0 != slots[b].unwrap().0);
    } else if b < c {
        assert(slots[b].unwrap().0 != slots[c].unwrap().0);
    }
}

/// Where the probe of a key passes only full buckets, every bucket is
/// full.
pub proof fn lemma_probe_reaches_all<A>(slots: Seq<Option<A>>, home: int)
    requires
        0 <= home < slots.len(),
        forall|t: int|
            0 <= t < slots.len() ==> (#[trigger] slots[spec_probe(home, t, slots.len() as int)])
                is Some,
    ensures
        forall|b: int| 0 <= b < slots.len() ==> slots[b] is Some,
{
    let cap = slots.len() as int;
    assert forall|b: int| 0 <= b < cap implies slots[b] is Some by {
        let t = spec_dist(home, b, cap);
        assert(spec_probe(home, t, cap) == b);
        assert(slots[spec_probe(home, t, cap)] is Some);
    }
}

/// Probes the buckets of a table for a key: from the bucket that the
/// hash names on, until the key or an empty bucket is met. Returns the
/// bucket reached, whether it holds the key, and the number of buckets
/// probed, which is at most the number of buckets.
pub fn probe<K: ArchiveHash, V: Archive>(slots: &Vec<Option<(K, V)>>, key: &K) -> (r: (
    usize,
    bool,
    usize,
))
    requires
        slots@.len() > 0,
        spec_count(spec_slot_views(slots@), slots@.len() as int) < slots@.len(),
        forall|b: int|
            0 <= b < slots@.len() ==> spec_chain::<K, V::V>(spec_slot_views(slots@), b),
    ensures
        r.0 < slots@.len(),
        1 <= r.2 <= slots@.len(),
        r.1 ==> slots@[r.0 as int] is Some && slots@[r.0 as int].unwrap().0.deep_view()
            == key.deep_view(),
        !r.1 ==> slots@[r.0 as int] is None && spec_bucket_of(
            spec_slot_views(slots@),
            key.deep_view(),
        ) is None,
        !r.1 ==> r.0 == spec_probe(
            spec_home::<K>(key.deep_view(), slots@.len() as int),
            r.2 - 1,
            slots@.len() as int,
        ),
        !r.1 ==> forall|t: int|
            0 <= t < r.2 - 1 ==> (#[trigger] spec_slot_views(slots@)[spec_probe(
                spec_home::<K>(key.deep_view(), slots@.len() as int),
                t,
                slots@.len() as int,
            )]) is Some,
{
    let cap = slots.len();
    let ghost views = spec_slot_views(slots@);
    let ghost q = key.deep_view();
    let home = (key.hash_value() % (cap as u64)) as usize;
    let mut b = home;
    let mut t: usize = 0;
    while t < cap
        invariant
            cap == slots@.len(),
            views == spec_slot_views(slots@),
            q == key.deep_view(),
            home == spec_home::<K>(q, cap as int),
            0 <= home < cap,
            t <= cap,
            t < cap ==> b == spec_probe(home as int, t as int, cap as int),
            forall|u: int|
                0 <= u < t ==> spec_other(
                    #[trigger] views[spec_probe(home as int, u, cap as int)],
                    q,
                ),
            forall|b: int| 0 <= b < cap ==> spec_chain::<K, V::V>(views, b),
        decreases cap - t,
    {
        match &slots[b] {
            None => {
                proof {
                    assert(views[b as int] is None);
                    lemma_probe_absent::<K, V::V>(views, q, t as int);
                }
                return (b, false, t + 1);
            },
            Some(entry) => {
                if entry.0.same(key) {
                    return (b, true, t + 1);
                }
                assert(spec_other(views[b as int], q));
            },
        }
        t = t + 1;
        b = if b + 1 == cap {
            0
        } else {
            b + 1
        };
    }
    proof {
        lemma_probe_reaches_all(views, home as int);
        lemma_count_bounds(views, cap as int);
    }
    unreached()
}

/// The number of buckets of a table of `n` entries, or `None` where it
/// cannot be computed.
pub fn capacity_for(n: usize) -> (r: Option<usize>)
    ensures
        r is Some <==> spec_capacity(n as int) <= usize::MAX,
        r matches Some(cap) ==> cap == spec_capacity(n as int),
{
    if n == 0 {
        Some(0)
    } else {
        let cap: u128 = ((LOAD_DENOMINATOR as u128) * (n as u128) + (LOAD_NUMERATOR as u128) - 1) / (
        LOAD_NUMERATOR as u128);
        if cap > usize::MAX as u128 {
            None
        } else {
            Some(cap as usize)
        }
    }
}

/// No key occurs twice.
pub open spec fn spec_no_duplicates<A>(keys: Seq<A>) -> bool {
    forall|i: int, j: int| 0 <= i < j < keys.len() ==> keys[i] != keys[j]
}

/// The table holds each of the entries from `lo` on.
pub open spec fn spec_holds<A, B>(
    slots: Seq<Option<(A, B)>>,
    keys: Seq<A>,
    values: Seq<B>,
    lo: int,
) -> bool {
    forall|j: int| lo <= j < keys.len() ==> #[trigger] spec_get(slots, keys[j]) == Some(values[j])
}

/// Every key of the table is one of the keys from `lo` on.
pub open spec fn spec_within<A, B>(slots: Seq<Option<(A, B)>>, keys: Seq<A>, lo: int) -> bool {
    forall|b: int|
        0 <= b < slots.len() && (#[trigger] slots[b]) is Some ==> exists|j: int|
            lo <= j < keys.len() && keys[j] == slots[b].unwrap().0
}

/// Placing an entry whose key the table does not hold into the empty
/// bucket that its probe reached gives a table that holds it and all that
/// it held before.
pub proof fn lemma_insert<K: ArchiveHash, B>(
    slots: Seq<Option<(K::V, B)>>,
    keys: Seq<K::V>,
    values: Seq<B>,
    i: int,
    c: int,
    d: int,
)
    requires
        0 <= i < keys.len() == values.len(),
        slots.len() > 0,
        0 <= c < slots.len(),
        slots[c] is None,
        0 <= d < slots.len(),
        c == spec_probe(spec_home::<K>(keys[i], slots.len() as int), d, slots.len() as int),
        forall|t: int|
            0 <= t < d ==> (#[trigger] slots[spec_probe(
                spec_home::<K>(keys[i], slots.len() as int),
                t,
                slots.len() as int,
            )]) is Some,
        spec_bucket_of(slots, keys[i]) is None,
        spec_distinct(slots),
        forall|b: int| 0 <= b < slots.len() ==> spec_chain::<K, B>(slots, b),
        spec_holds(slots, keys, values, i + 1),
        spec_within(slots, keys, i + 1),
    ensures
        spec_distinct(slots.update(c, Some((keys[i], values[i])))),
        forall|b: int|
            0 <= b < slots.len() ==> spec_chain::<K, B>(
                slots.update(c, Some((keys[i], values[i]))),
                b,
            ),
        spec_holds(slots.update(c, Some((keys[i], values[i]))), keys, values, i),
        spec_within(slots.update(c, Some((keys[i], values[i]))), keys, i),
        spec_count(slots.update(c, Some((keys[i], values[i]))), slots.len() as int) == spec_count(
            slots,
            slots.len() as int,
        ) + 1,
        forall|j: int| i < j < keys.len() ==> keys[j] != keys[i],
{
    let cap = slots.len() as int;
    let after = slots.update(c, Some((keys[i], values[i])));
    let home = spec_home::<K>(keys[i], cap);
    lemma_count_fill(slots, c, (keys[i], values[i]), cap);
    assert forall|a: int, b: int|
        0 <= a < b < cap && after[a] is Some && after[b] is Some implies after[a].unwrap().0
        != after[b].unwrap().0 by {
        if a != c && b != c {
            assert(slots[a].unwrap().0 != slots[b].unwrap().0);
        }
    }
    assert forall|b: int| 0 <= b < cap implies spec_chain::<K, B>(after, b) by {
        if after[b] is Some {
            let entry = after[b].unwrap();
            let h = spec_home::<K>(entry.0, cap);
            assert forall|t: int| 0 <= t < spec_dist(h, b, cap) implies (#[trigger] after[spec_probe(
                h,
                t,
                cap,
            )]) is Some by {
                if b == c {
                    assert(spec_dist(h, b, cap) == d);
                    assert(slots[spec_probe(h, t, cap)] is Some);
                } else {
                    assert(spec_chain::<K, B>(slots, b));
                    assert(slots[spec_probe(h, t, cap)] is Some);
                }
            }
        }
    }
    assert forall|j: int| i < j < keys.len() implies keys[j] != keys[i] by {
        assert(spec_get(slots, keys[j]) == Some(values[j]));
    }
    assert forall|j: int| i <= j < keys.len() implies #[trigger] spec_get(after, keys[j]) == Some(
        values[j],
    ) by {
        if j == i {
            lemma_bucket_unique(after, c);
        } else {
            assert(spec_get(slots, keys[j]) == Some(values[j]));
            let b = spec_bucket_of(slots, keys[j]).unwrap();
            assert(after[b] == slots[b]);
            lemma_bucket_unique(after, b);
        }
    }
    assert forall|b: int| 0 <= b < cap && (#[trigger] after[b]) is Some implies exists|j: int|
        i <= j < keys.len() && keys[j] == after[b].unwrap().0 by {
        if b == c {
            assert(keys[i] == after[b].unwrap().0);
        } else {
            assert(slots[b] is Some);
            let j = choose|j: int| i + 1 <= j < keys.len() && keys[j] == slots[b].unwrap().0;
            assert(keys[j] == after[b].unwrap().0);
        }
    }
}

/// Bucket `b` is full and holds `key`.
pub open spec fn spec_holds_key<A, B>(slots: Seq<Option<(A, B)>>, b: int, key: A) -> bool {
    slots[b] is Some && slots[b].unwrap().0 == key
}

/// A bucket from `lo` on holds `key`.
pub open spec fn spec_held_from<A, B>(slots: Seq<Option<(A, B)>>, lo: int, key: A) -> bool {
    exists|b: int| lo <= b < slots.len() && #[trigger] spec_holds_key(slots, b, key)
}

/// The keys of the full buckets from `lo` on, the last bucket first.
pub open spec fn spec_tail_keys<A, B>(slots: Seq<Option<(A, B)>>, lo: int) -> Seq<A>
    decreases slots.len() - lo,
{
    if lo < 0 || lo >= slots.len() {
        Seq::empty()
    } else if slots[lo] is Some {
        spec_tail_keys(slots, lo + 1).push(slots[lo].unwrap().0)
    } else {
        spec_tail_keys(slots, lo + 1)
    }
}

/// The keys of the full buckets from `lo` on are the keys that those
/// buckets hold, each once, and as many as those buckets are full.
pub proof fn lemma_tail_keys<A, B>(slots: Seq<Option<(A, B)>>, lo: int)
    requires
        0 <= lo <= slots.len(),
        spec_distinct(slots),
    ensures
        forall|key: A|
            spec_tail_keys(slots, lo).contains(key) <==> spec_held_from(slots, lo, key),
        spec_tail_keys(slots, lo).no_duplicates(),
        spec_tail_keys(slots, lo).len() == spec_count(slots, slots.len() as int) - spec_count(
            slots,
            lo,
        ),
    decreases slots.len() - lo,
{
    let tail = spec_tail_keys(slots, lo);
    if lo < slots.len() {
        lemma_tail_keys(slots, lo + 1);
        let rest = spec_tail_keys(slots, lo + 1);
        assert forall|key: A| tail.contains(key) <==> spec_held_from(slots, lo, key) by {
            if tail.contains(key) {
                let i = choose|i: int| 0 <= i < tail.len() && #[trigger] tail[i] == key;
                if i < rest.len() {
                    assert(rest[i] == key);
                    assert(rest.contains(key));
                    assert(spec_held_from(slots, lo + 1, key));
                    let b = choose|b: int|
                        lo + 1 <= b < slots.len() && #[trigger] spec_holds_key(slots, b, key);
                    assert(spec_holds_key(slots, b, key));
                } else {
                    assert(spec_holds_key(slots, lo, key));
                }
            }
            if spec_held_from(slots, lo, key) {
                let b = choose|b: int|
                    lo <= b < slots.len() && #[trigger] spec_holds_key(slots, b, key);
                if b == lo {
                    assert(tail[tail.len() - 1] == key);
                } else {
                    assert(spec_holds_key(slots, b, key));
                    assert(spec_held_from(slots, lo + 1, key));
                    assert(rest.contains(key));
                    let i = choose|i: int| 0 <= i < rest.len() && #[trigger] rest[i] == key;
                    assert(tail[i] == key);
                }
            }
        }
        assert forall|i: int, j: int| 0 <= i < j < tail.len() implies tail[i] != tail[j] by {
            if j < rest.len() {
                assert(rest[i] != rest[j]);
            } else {
                assert(rest[i] == tail[i]);
                assert(rest.contains(tail[i]));
                assert(spec_held_from(slots, lo + 1, tail[i]));
                let b = choose|b: int|
                    lo + 1 <= b < slots.len() && #[trigger] spec_holds_key(slots, b, tail[i]);
                assert(slots[lo].unwrap().0 != slots[b].unwrap().0);
            }
        }
    } else {
        assert forall|key: A| tail.contains(key) <==> spec_held_from(slots, lo, key) by {
            if spec_held_from(slots, lo, key) {
                let b = choose|b: int|
                    lo <= b < slots.len() && #[trigger] spec_holds_key(slots, b, key);
            }
        }
    }
}

/// A hashed map: the live counterpart of the archived table. It is built
/// once from its entries and not changed afterwards, and it keeps them
/// in the very buckets in which they are archived.
pub struct HashedMap<K: ArchiveHash, V: Archive> {
    slots: Vec<Option<(K, V)>>,
    len: usize,
}

impl<K: ArchiveHash, V: Archive> DeepView for HashedMap<K, V> {
    type V = Seq<Option<(K::V, V::V)>>;

    closed spec fn deep_view(&self) -> Seq<Option<(K::V, V::V)>> {
        spec_slot_views(self.slots@)
    }
}

impl<K: ArchiveHash, V: Archive> HashedMap<K, V> {
    #[verifier::type_invariant]
    closed spec fn inv(&self) -> bool {
        spec_table::<K, V::V>(spec_slot_views(self.slots@), self.len as int)
    }

    /// The number of entries.
    pub closed spec fn spec_len(&self) -> int {
        self.len as int
    }

    /// The map of the entries that pair each key with the value at the
    /// same index, or `None` where there are not as many keys as values,
    /// a key occurs twice, or the number of buckets cannot be computed.
    pub fn from_entries(keys: Vec<K>, values: Vec<V>) -> (r: Option<Self>)
        ensures
            r is Some <==> keys@.len() == values@.len() && spec_no_duplicates(
                spec_deep_view(keys@),
            ) && spec_capacity(keys@.len() as int) <= usize::MAX,
            r matches Some(m) ==> {
                &&& spec_table::<K, V::V>(m.deep_view(), keys@.len() as int)
                &&& m.spec_len() == keys@.len()
                &&& spec_holds(m.deep_view(), spec_deep_view(keys@), spec_deep_view(values@), 0)
                &&& spec_within(m.deep_view(), spec_deep_view(keys@), 0)
            },
    {
        let n = keys.len();
        let ghost ks = spec_deep_view(keys@);
        let ghost vs = spec_deep_view(values@);
        if n != values.len() {
            return None;
        }
        let cap = match capacity_for(n) {
            Some(cap) => cap,
            None => {
                return None;
            },
        };
        proof {
            lemma_capacity(n as int);
        }
        let mut slots: Vec<Option<(K, V)>> = Vec::new();
        let mut b: usize = 0;
        while b < cap
            invariant
                b <= cap,
                slots@.len() == b,
                forall|j: int| 0 <= j < b ==> slots@[j] is None,
            decreases cap - b,
        {
            slots.push(None);
            b = b + 1;
        }
        let mut rest_keys = keys;
        let mut rest_values = values;
        let mut i: usize = n;
        proof {
            lemma_count_empty(spec_slot_views(slots@), cap as int);
            assert(spec_deep_view(rest_keys@) =~= ks.take(n as int));
            assert(spec_deep_view(rest_values@) =~= vs.take(n as int));
        }
        while i > 0
            invariant
                i <= n,
                ks == spec_deep_view(keys@),
                vs == spec_deep_view(values@),
                n == ks.len(),
                n == vs.len(),
                cap == spec_capacity(n as int),
                n > 0 ==> n < cap,
                slots@.len() == cap,
                rest_keys@.len() == i,
                rest_values@.len() == i,
                spec_deep_view(rest_keys@) == ks.take(i as int),
                spec_deep_view(rest_values@) == vs.take(i as int),
                spec_count(spec_slot_views(slots@), cap as int) == n - i,
                spec_distinct(spec_slot_views(slots@)),
                forall|b: int|
                    0 <= b < cap ==> spec_chain::<K, V::V>(spec_slot_views(slots@), b),
                spec_holds(spec_slot_views(slots@), ks, vs, i as int),
                spec_within(spec_slot_views(slots@), ks, i as int),
                forall|a: int, b: int| i <= a < b < n ==> ks[a] != ks[b],
            decreases i,
        {
            let ghost before = spec_slot_views(slots@);
            let ghost old_keys = rest_keys@;
            let ghost old_values = rest_values@;
            let key = rest_keys.pop().unwrap();
            let value = rest_values.pop().unwrap();
            i = i - 1;
            proof {
                assert(key.deep_view() == spec_deep_view(old_keys)[i as int]);
                assert(value.deep_view() == spec_deep_view(old_values)[i as int]);
                assert(spec_deep_view(rest_keys@) =~= ks.take(i as int));
                assert(spec_deep_view(rest_values@) =~= vs.take(i as int));
            }
            let (c, found, probes) = probe::<K, V>(&slots, &key);
            if found {
                proof {
                    assert(before[c as int] is Some);
                    assert(before[c as int].unwrap().0 == ks[i as int]);
                    let j = choose|j: int|
                        i + 1 <= j < ks.len() && ks[j] == before[c as int].unwrap().0;
                    assert(ks[i as int] == ks[j]);
                    assert(!spec_no_duplicates(ks));
                }
                return None;
            }
            proof {
                lemma_insert::<K, V::V>(before, ks, vs, i as int, c as int, probes - 1);
            }
            slots.set(c, Some((key, value)));
            proof {
                assert(spec_slot_views(slots@) =~= before.update(
                    c as int,
                    Some((ks[i as int], vs[i as int])),
                ));
            }
        }
        Some(HashedMap { slots, len: n })
    }

    /// The number of entries.
    pub fn len(&self) -> (n: usize)
        ensures
            n == self.spec_len(),
            spec_table::<K, V::V>(self.deep_view(), n as int),
    {
        proof {
            use_type_invariant(self);
        }
        self.len
    }

    /// The number of buckets.
    pub fn capacity(&self) -> (cap: usize)
        ensures
            cap == spec_capacity(self.spec_len()),
            cap == self.deep_view().len(),
    {
        proof {
            use_type_invariant(self);
        }
        self.slots.len()
    }

    /// The buckets of the map: for each bucket the entry that it holds,
    /// where it is full.
    pub fn into_slots(self) -> (slots: Vec<Option<(K, V)>>)
        ensures
            spec_slot_views(slots@) == self.deep_view(),
            spec_table::<K, V::V>(spec_slot_views(slots@), self.spec_len()),
    {
        proof {
            use_type_invariant(&self);
        }
        self.slots
    }

    /// The keys of the map, from the last bucket to the first.
    pub fn into_keys(self) -> (keys: Vec<K>)
        ensures
            spec_deep_view(keys@) == spec_tail_keys(self.deep_view(), 0),
            spec_deep_view(keys@).no_duplicates(),
            keys@.len() == self.spec_len(),
            forall|key: K::V|
                spec_deep_view(keys@).contains(key) <==> spec_bucket_of(self.deep_view(), key)
                    is Some,
    {
        proof {
            use_type_invariant(&self);
        }
        let ghost views = spec_slot_views(self.slots@);
        let mut slots = self.slots;
        let mut keys: Vec<K> = Vec::new();
        let ghost cap = slots@.len() as int;
        assert(spec_deep_view(keys@) =~= spec_tail_keys(views, cap));
        while slots.len() > 0
            invariant
                cap == views.len(),
                slots@.len() <= cap,
                spec_slot_views(slots@) == views.take(slots@.len() as int),
                spec_deep_view(keys@) == spec_tail_keys(views, slots@.len() as int),
            decreases slots@.len(),
        {
            let ghost before = slots@;
            let ghost old_keys = spec_deep_view(keys@);
            let slot = slots.pop().unwrap();
            let ghost n = slots@.len() as int;
            proof {
                assert(spec_slot_views(before)[n] == views[n]);
                assert(spec_slot_views(slots@) =~= views.take(n));
            }
            match slot {
                Some(entry) => {
                    keys.push(entry.0);
                    assert(spec_deep_view(keys@) =~= old_keys.push(views[n].unwrap().0));
                },
                None => {
                    assert(spec_deep_view(keys@) =~= old_keys);
                },
            }
        }
        proof {
            lemma_tail_keys(views, 0);
            lemma_count_bounds(views, 0);
            let ks = spec_deep_view(keys@);
            assert forall|key: K::V| ks.contains(key) <==> spec_bucket_of(views, key)
                is Some by {
                if ks.contains(key) {
                    assert(spec_held_from(views, 0, key));
                    let b = choose|b: int|
                        0 <= b < views.len() && #[trigger] spec_holds_key(views, b, key);
                    lemma_bucket_unique(views, b);
                }
                if spec_bucket_of(views, key) is Some {
                    let b = spec_bucket_of(views, key).unwrap();
                    assert(spec_holds_key(views, b, key));
                    assert(spec_held_from(views, 0, key));
                }
            }
        }
        keys
    }

    /// Looks a key up: the value of the entry with that key, or `None`
    /// where no entry has it.
    pub fn get(&self, key: &K) -> (r: Option<&V>)
        ensures
            (match r {
                Some(v) => Some(v.deep_view()),
                None => None,
            }) == spec_get(self.deep_view(), key.deep_view()),
    {
        proof {
            use_type_invariant(self);
            lemma_capacity(self.len as int);
        }
        if self.slots.len() == 0 {
            return None;
        }
        let (b, found, _) = probe::<K, V>(&self.slots, key);
        if found {
            proof {
                lemma_bucket_unique(self.deep_view(), b as int);
            }
            match &self.slots[b] {
                Some(entry) => Some(&entry.1),
                None => unreached(),
            }
        } else {
            None
        }
    }
}

/// The number of bytes that archiving a table appends to a writer that
/// stands at `start`: what keys and values keep out of line, the padding
/// that aligns the first bucket, and the buckets.
pub open spec fn spec_table_len<K: Archive, V: Archive>(
    slots: Seq<Option<(K::V, V::V)>>,
    start: int,
) -> int {
    let body = spec_slots_len::<K, V>(slots, start, slots.len() as int);
    if !spec_bucket_layout::<K, V>() {
        MAX_LEN + 1
    } else if slots.len() == 0 {
        0
    } else {
        body + spec_padding(start + body, 8) + slots.len() * spec_bucket_size::<K, V>()
    }
}

/// The buckets `slots` of a well-formed table stand from `base` on, or
/// there is no base and no bucket.
pub open spec fn spec_table_at<K: ArchiveHash, V: Archive>(
    buf: Seq<u8>,
    slots: Seq<Option<(K::V, V::V)>>,
    base: Option<usize>,
) -> bool {
    &&& spec_bucket_layout::<K, V>()
    &&& spec_table::<K, V::V>(slots, spec_count(slots, slots.len() as int))
    &&& slots.len() <= MAX_LEN
    &&& match base {
        None => slots.len() == 0,
        Some(base) => slots.len() > 0 && spec_buckets_at::<K, V>(buf, base as int, slots),
    }
}

/// The buckets of the well-formed archived table at `at`, or `None`
/// where the bytes there are no well-formed archived table.
pub open spec fn spec_table_access<K: ArchiveHash, V: Archive>(buf: Seq<u8>, at: int) -> Option<
    Seq<Option<(K::V, V::V)>>,
> {
    let n = spec_u32_at(buf, at + 4) as int;
    let cap = spec_capacity(n);
    let base = spec_rel_target(buf, at);
    if spec_header_readable(buf, at) && spec_bucket_layout::<K, V>() {
        if cap == 0 {
            Some(Seq::empty())
        } else if spec_buckets_valid::<K, V>(buf, base, cap, at) && spec_table::<K, V::V>(
            spec_buckets::<K, V>(buf, base, cap),
            n,
        ) {
            Some(spec_buckets::<K, V>(buf, base, cap))
        } else {
            None
        }
    } else {
        None
    }
}

/// Archives the buckets of a table: serializes the keys and values of
/// the full buckets, aligns the writer, then writes the buckets. Returns
/// the position of the first bucket, or `None` where there is no bucket.
pub fn serialize_table<K: ArchiveHash, V: Archive>(
    slots: &Vec<Option<(K, V)>>,
    w: &mut Writer,
) -> (r: Result<Option<usize>, SerializeError>)
    requires
        old(w).wf(),
        spec_table::<K, V::V>(
            spec_slot_views(slots@),
            spec_count(spec_slot_views(slots@), slots@.len() as int),
        ),
    ensures
        final(w).wf(),
        final(w).spec_limit() == old(w).spec_limit(),
        r is Ok <==> old(w)@.len() + spec_table_len::<K, V>(
            spec_slot_views(slots@),
            old(w)@.len() as int,
        ) <= old(w).spec_limit(),
        r matches Ok(base) ==> {
            &&& final(w)@.len() == old(w)@.len() + spec_table_len::<K, V>(
                spec_slot_views(slots@),
                old(w)@.len() as int,
            )
            &&& is_prefix(old(w)@, final(w)@)
            &&& spec_table_at::<K, V>(final(w)@, spec_slot_views(slots@), base)
        },
        r matches Err(e) ==> e == SerializeError::Writer,
{
    let cap = slots.len();
    let ghost views = spec_slot_views(slots@);
    let ghost start = w@.len() as int;
    proof {
        lemma_slots_len_monotone::<K, V>(views, start, cap as int, cap as int);
        lemma_padding(start + spec_slots_len::<K, V>(views, start, cap as int), 8);
        lemma_bucket_layout::<K, V>();
        lemma_slot_bounds(0, cap as int + 1, spec_bucket_size::<K, V>());
    }
    let (value_offset, bucket_size) = match bucket_layout::<K, V>() {
        Some(layout) => layout,
        None => {
            return Err(SerializeError::Writer);
        },
    };
    if cap == 0 {
        assert(w@.subrange(0, w@.len() as int) =~= w@);
        return Ok(None);
    }
    let resolvers = match serialize_slots::<K, V>(slots, w) {
        Ok(resolvers) => resolvers,
        Err(e) => {
            return Err(e);
        },
    };
    let ghost body = w@;
    let base = match w.align(8) {
        Ok(pos) => pos,
        Err(e) => {
            return Err(e);
        },
    };
    let limit = w.limit();
    if cap > (limit - base) / bucket_size {
        proof {
            assert(cap * bucket_size > limit - base) by (nonlinear_arith)
                requires
                    cap > (limit - base) / bucket_size as int,
                    bucket_size > 0,
                    limit - base >= 0,
            ;
        }
        return Err(SerializeError::Writer);
    }
    proof {
        assert(cap * bucket_size <= limit - base) by (nonlinear_arith)
            requires
                cap <= (limit - base) / bucket_size as int,
                bucket_size > 0,
                limit - base >= 0,
        ;
        assert(cap <= cap * bucket_size) by (nonlinear_arith)
            requires
                1 <= bucket_size,
                0 <= cap,
        ;
        lemma_append_keeps(old(w)@, body, zeros((base - body.len()) as nat));
        lemma_slots_resolved_extends::<K, V>(body, w@, views, resolvers@, cap as int);
    }
    let ghost aligned = w@;
    write_buckets::<K, V>(slots, &resolvers, value_offset, bucket_size, w);
    proof {
        assert(is_prefix(old(w)@, w@)) by {
            assert(w@.subrange(0, start) =~= aligned.subrange(0, start));
        }
    }
    Ok(Some(base))
}

/// The probe of the key in bucket `b` passes only full buckets with
/// other keys before it reaches `b`.
pub open spec fn spec_clear_path<K: ArchiveHash, B>(slots: Seq<Option<(K::V, B)>>, b: int) -> bool {
    slots[b] matches Some(entry) ==> forall|t: int|
        0 <= t < spec_dist(spec_home::<K>(entry.0, slots.len() as int), b, slots.len() as int)
            ==> spec_other(
            #[trigger] slots[spec_probe(
                spec_home::<K>(entry.0, slots.len() as int),
                t,
                slots.len() as int,
            )],
            entry.0,
        )
}

/// Where the probe of every key passes only full buckets with other
/// keys, every probe finds its key and no key occurs twice; and the
/// other way round.
pub proof fn lemma_clear_paths<K: ArchiveHash, B>(slots: Seq<Option<(K::V, B)>>)
    ensures
        (forall|b: int| 0 <= b < slots.len() ==> spec_clear_path::<K, B>(slots, b)) <==> (
        spec_distinct(slots) && forall|b: int|
            0 <= b < slots.len() ==> spec_chain::<K, B>(slots, b)),
{
    let cap = slots.len() as int;
    if forall|b: int| 0 <= b < cap ==> spec_clear_path::<K, B>(slots, b) {
        assert forall|b: int| 0 <= b < cap implies spec_chain::<K, B>(slots, b) by {
            assert(spec_clear_path::<K, B>(slots, b));
            if slots[b] is Some {
                let h = spec_home::<K>(slots[b].unwrap().0, cap);
                assert forall|t: int| 0 <= t < spec_dist(h, b, cap) implies (
                #[trigger] slots[spec_probe(h, t, cap)]) is Some by {
                    assert(spec_other(slots[spec_probe(h, t, cap)], slots[b].unwrap().0));
                }
            }
        }
        assert forall|i: int, j: int|
            0 <= i < j < cap && slots[i] is Some && slots[j] is Some implies slots[i].unwrap().0
            != slots[j].unwrap().0 by {
            if slots[i].unwrap().0 == slots[j].unwrap().0 {
                let h = spec_home::<K>(slots[i].unwrap().0, cap);
                let di = spec_dist(h, i, cap);
                let dj = spec_dist(h, j, cap);
                assert(spec_probe(h, di, cap) == i);
                assert(spec_probe(h, dj, cap) == j);
                assert(spec_clear_path::<K, B>(slots, i));
                assert(spec_clear_path::<K, B>(slots, j));
                if di < dj {
                    assert(spec_other(slots[spec_probe(h, di, cap)], slots[j].unwrap().0));
                } else {
                    assert(spec_other(slots[spec_probe(h, dj, cap)], slots[i].unwrap().0));
                }
            }
        }
    }
    if spec_distinct(slots) && forall|b: int| 0 <= b < cap ==> spec_chain::<K, B>(slots, b) {
        assert forall|b: int| 0 <= b < cap implies spec_clear_path::<K, B>(slots, b) by {
            assert(spec_chain::<K, B>(slots, b));
            if slots[b] is Some {
                let key = slots[b].unwrap().0;
                let h = spec_home::<K>(key, cap);
                assert forall|t: int| 0 <= t < spec_dist(h, b, cap) implies spec_other(
                    #[trigger] slots[spec_probe(h, t, cap)],
                    key,
                ) by {
                    let c = spec_probe(h, t, cap);
                    assert(slots[c] is Some);
                    if c < b {
                        assert(slots[c].unwrap().0 != slots[b].unwrap().0);
                    } else {
                        assert(slots[b].unwrap().0 != slots[c].unwrap().0);
                    }
                }
            }
        }
    }
}

/// Decides whether buckets are those of a table of `n` entries.
pub fn is_table<K: ArchiveHash, V: Archive>(slots: &Vec<Option<(K, V)>>, n: usize) -> (b: bool)
    ensures
        b == spec_table::<K, V::V>(spec_slot_views(slots@), n as int),
{
    let cap = slots.len();
    let ghost views = spec_slot_views(slots@);
    match capacity_for(n) {
        Some(c) => {
            if c != cap {
                return false;
            }
        },
        None => {
            return false;
        },
    }
    let mut count: usize = 0;
    let mut i: usize = 0;
    while i < cap
        invariant
            i <= cap,
            cap == slots@.len(),
            views == spec_slot_views(slots@),
            count == spec_count(views, i as int),
            count <= i,
        decreases cap - i,
    {
        if slots[i].is_some() {
            count = count + 1;
        }
        i = i + 1;
    }
    if count != n {
        return false;
    }
    proof {
        lemma_clear_paths::<K, V::V>(views);
    }
    let mut b: usize = 0;
    while b < cap
        invariant
            b <= cap,
            cap == slots@.len(),
            views == spec_slot_views(slots@),
            forall|c: int| 0 <= c < b ==> spec_clear_path::<K, V::V>(views, c),
        decreases cap - b,
    {
        match &slots[b] {
            None => {},
            Some(entry) => {
                let home = (entry.0.hash_value() % (cap as u64)) as usize;
                let ghost key = entry.0.deep_view();
                let ghost dist = spec_dist(home as int, b as int, cap as int);
                let mut c = home;
                let mut t: usize = 0;
                assert(views[b as int] == Some((key, entry.1.deep_view())));
                while c != b
                    invariant
                        cap == slots@.len(),
                        views == spec_slot_views(slots@),
                        views.len() == cap,
                        0 <= home < cap,
                        b < cap,
                        c < cap,
                        home == spec_home::<K>(key, cap as int),
                        dist == spec_dist(home as int, b as int, cap as int),
                        views[b as int] is Some,
                        views[b as int].unwrap().0 == key,
                        entry.0.deep_view() == key,
                        t <= dist,
                        c == spec_probe(home as int, t as int, cap as int),
                        forall|u: int|
                            0 <= u < t ==> spec_other(
                                #[trigger] views[spec_probe(home as int, u, cap as int)],
                                key,
                            ),
                    decreases dist - t,
                {
                    let clear = match &slots[c] {
                        None => false,
                        Some(other) => !other.0.same(&entry.0),
                    };
                    if !clear {
                        proof {
                            assert(!spec_other(views[c as int], key));
                            assert(spec_probe(home as int, dist, cap as int) == b);
                            assert(t < dist);
                            if spec_clear_path::<K, V::V>(views, b as int) {
                                assert(spec_other(
                                    views[spec_probe(home as int, t as int, cap as int)],
                                    key,
                                ));
                            }
                            lemma_clear_paths::<K, V::V>(views);
                        }
                        return false;
                    }
                    assert(spec_other(views[c as int], key));
                    t = t + 1;
                    c = if c + 1 == cap {
                        0
                    } else {
                        c + 1
                    };
                }
                assert(t == dist);
            },
        }
        b = b + 1;
    }
    true
}

impl<K: ArchiveHash, V: Archive> Archive for HashedMap<K, V> {
    type Resolver = Option<usize>;

    open spec fn spec_size() -> int {
        8
    }

    open spec fn spec_align() -> int {
        4
    }

    open spec fn spec_serialized_len(v: Seq<Option<(K::V, V::V)>>, start: int) -> int {
        spec_table_len::<K, V>(v, start)
    }

    open spec fn spec_resolves(
        buf: Seq<u8>,
        v: Seq<Option<(K::V, V::V)>>,
        r: Option<usize>,
    ) -> bool {
        spec_table_at::<K, V>(buf, v, r)
    }

    open spec fn spec_resolve(v: Seq<Option<(K::V, V::V)>>, r: Option<usize>, at: int) -> Seq<
        u8,
    > {
        spec_header(
            at,
            match r {
                Some(base) => base as int,
                None => at,
            },
            spec_count(v, v.len() as int),
        )
    }

    open spec fn spec_access(buf: Seq<u8>, at: int) -> Option<Seq<Option<(K::V, V::V)>>> {
        spec_table_access::<K, V>(buf, at)
    }

    open spec fn spec_access_error(buf: Seq<u8>, at: int) -> AccessError {
        if !spec_header_readable(buf, at) {
            spec_unreadable_header(buf, at)
        } else if !spec_bucket_layout::<K, V>() {
            AccessError::OutOfBounds
        } else {
            AccessError::InvalidStructure
        }
    }

    open spec fn spec_copy_optimized() -> bool {
        false
    }

    proof fn lemma_layout() {
    }

    proof fn lemma_copy_optimized(
        buf: Seq<u8>,
        v: Seq<Option<(K::V, V::V)>>,
        r1: Option<usize>,
        r2: Option<usize>,
        at1: int,
        at2: int,
    ) {
    }

    proof fn lemma_serialized_len(v: Seq<Option<(K::V, V::V)>>, start: int) {
        let cap = v.len() as int;
        lemma_slots_len_monotone::<K, V>(v, start, cap, cap);
        lemma_bucket_layout::<K, V>();
        lemma_slot_bounds(0, cap + 1, spec_bucket_size::<K, V>());
        lemma_padding(start + spec_slots_len::<K, V>(v, start, cap), 8);
    }

    proof fn lemma_resolve_len(v: Seq<Option<(K::V, V::V)>>, r: Option<usize>, at: int) {
        vstd::bytes::lemma_auto_spec_u32_to_from_le_bytes();
        let target = match r {
            Some(base) => base as int,
            None => at,
        };
        assert(crate::rel_ptr::spec_rel_ptr(at, target).len() == 4);
        assert(vstd::bytes::spec_u32_to_le_bytes(spec_count(v, v.len() as int) as u32).len() == 4);
    }

    proof fn lemma_resolves_extends(
        buf: Seq<u8>,
        longer: Seq<u8>,
        v: Seq<Option<(K::V, V::V)>>,
        r: Option<usize>,
    ) {
        if let Some(base) = r {
            lemma_buckets_extend::<K, V>(buf, longer, base as int, v);
        }
    }

    proof fn lemma_access_extends(buf: Seq<u8>, longer: Seq<u8>, at: int) {
        lemma_header_extends(buf, longer, at);
        let n = spec_u32_at(buf, at + 4) as int;
        let cap = spec_capacity(n);
        if cap != 0 {
            lemma_buckets_valid_extend::<K, V>(buf, longer, spec_rel_target(buf, at), cap, at);
        }
    }

    proof fn lemma_round_trip(
        buf: Seq<u8>,
        v: Seq<Option<(K::V, V::V)>>,
        r: Option<usize>,
        at: int,
    ) {
        let before = buf.subrange(0, at);
        assert(is_prefix(before, buf)) by {
            assert(buf.subrange(0, before.len() as int) =~= before);
        }
        let n = spec_count(v, v.len() as int);
        lemma_count_bounds(v, v.len() as int);
        lemma_capacity(n);
        lemma_bucket_layout::<K, V>();
        lemma_slot_bounds(0, v.len() as int + 1, spec_bucket_size::<K, V>());
        match r {
            Some(base) => {
                lemma_header_round_trip(buf, at, base as int, n);
                lemma_buckets_extend::<K, V>(before, buf, base as int, v);
            },
            None => {
                lemma_header_round_trip(buf, at, at, n);
                assert(v =~= Seq::empty());
            },
        }
    }

    fn copy_optimization() -> (b: bool) {
        false
    }

    fn copy_slice(slice: &[HashedMap<K, V>], out: &mut Vec<u8>) {
    }

    fn archived_size() -> (n: usize) {
        8
    }

    fn archived_align() -> (a: usize) {
        4
    }

    fn serialize(&self, w: &mut Writer) -> (r: Result<Option<usize>, SerializeError>) {
        proof {
            use_type_invariant(self);
        }
        serialize_table::<K, V>(&self.slots, w)
    }

    fn resolve(&self, r: Option<usize>, place: &mut Place) {
        proof {
            use_type_invariant(self);
            lemma_bucket_layout::<K, V>();
            lemma_count_bounds(spec_slot_views(self.slots@), self.slots@.len() as int);
            lemma_slot_bounds(0, self.slots@.len() as int + 1, spec_bucket_size::<K, V>());
        }
        let target = match r {
            Some(base) => base,
            None => place.pos(),
        };
        write_header(place, target, self.len);
    }

    fn check(buf: &[u8], at: usize) -> (r: Result<(), AccessError>) {
        if at % 4 != 0 {
            return Err(AccessError::Misaligned);
        }
        if at > buf.len() || buf.len() - at < 8 {
            return Err(AccessError::OutOfBounds);
        }
        let (value_offset, bucket_size) = match bucket_layout::<K, V>() {
            Some(layout) => layout,
            None => {
                return Err(AccessError::OutOfBounds);
            },
        };
        let n = read_u32(buf, at + 4) as usize;
        let cap = match capacity_for(n) {
            Some(cap) => cap,
            None => {
                proof {
                    lemma_bucket_layout::<K, V>();
                    assert(spec_capacity(n as int) * spec_bucket_size::<K, V>() > usize::MAX)
                        by (nonlinear_arith)
                        requires
                            spec_capacity(n as int) > usize::MAX,
                            spec_bucket_size::<K, V>() >= 1,
                    ;
                }
                return Err(AccessError::InvalidStructure);
            },
        };
        if cap == 0 {
            return Ok(());
        }
        let base = match rel_ptr_target(buf, at) {
            Some(base) => base,
            None => {
                proof {
                    lemma_slot_bounds(0, cap as int + 1, spec_bucket_size::<K, V>());
                }
                return Err(AccessError::InvalidStructure);
            },
        };
        match check_buckets::<K, V>(buf, base, cap, at, value_offset, bucket_size) {
            Ok(()) => {},
            Err(_) => {
                return Err(AccessError::InvalidStructure);
            },
        }
        let slots = read_buckets::<K, V>(buf, base, cap, value_offset, bucket_size);
        if is_table::<K, V>(&slots, n) {
            Ok(())
        } else {
            Err(AccessError::InvalidStructure)
        }
    }

    fn deserialize(buf: &[u8], at: usize) -> (v: HashedMap<K, V>) {
        let _ = buf.len();
        proof {
            lemma_bucket_layout::<K, V>();
        }
        let (value_offset, bucket_size) = match bucket_layout::<K, V>() {
            Some(layout) => layout,
            None => unreached(),
        };
        let n = read_u32(buf, at + 4) as usize;
        let cap = match capacity_for(n) {
            Some(cap) => cap,
            None => {
                proof {
                    assert(spec_capacity(n as int) * spec_bucket_size::<K, V>() > usize::MAX)
                        by (nonlinear_arith)
                        requires
                            spec_capacity(n as int) > usize::MAX,
                            spec_bucket_size::<K, V>() >= 1,
                    ;
                }
                unreached()
            },
        };
        if cap == 0 {
            proof {
                lemma_capacity(n as int);
            }
            let slots: Vec<Option<(K, V)>> = Vec::new();
            assert(spec_slot_views(slots@) =~= Seq::empty());
            return HashedMap { slots, len: n };
        }
        let base = match rel_ptr_target(buf, at) {
            Some(base) => base,
            None => unreached(),
        };
        let slots = read_buckets::<K, V>(buf, base, cap, value_offset, bucket_size);
        HashedMap { slots, len: n }
    }
}

/// Looks a key up in an archived table over the raw bytes: probes the
/// buckets from the one that the hash names on, until the key or an empty
/// bucket is met. Returns the position of the archived value of the entry
/// with that key, or `None` where no entry has it, and the number of
/// buckets probed, which is at most the number of buckets. The caller
/// attests that the table at `at` is well formed.
pub fn find<K: ArchiveHash, V: Archive>(buf: &[u8], at: usize, key: &K) -> (r: (
    Option<usize>,
    usize,
))
    requires
        spec_table_access::<K, V>(buf@, at as int) is Some,
    ensures
        r.0 is Some <==> spec_get(
            spec_table_access::<K, V>(buf@, at as int).unwrap(),
            key.deep_view(),
        ) is Some,
        r.0 matches Some(pos) ==> V::spec_access(buf@, pos as int) == spec_get(
            spec_table_access::<K, V>(buf@, at as int).unwrap(),
            key.deep_view(),
        ),
        r.1 <= spec_table_access::<K, V>(buf@, at as int).unwrap().len(),
        r.1 <= spec_capacity(spec_u32_at(buf@, at + 4) as int),
{
    let _ = buf.len();
    proof {
        lemma_bucket_layout::<K, V>();
        V::lemma_layout();
    }
    let (value_offset, bucket_size) = match bucket_layout::<K, V>() {
        Some(layout) => layout,
        None => unreached(),
    };
    let n = read_u32(buf, at + 4) as usize;
    let ghost slots = spec_table_access::<K, V>(buf@, at as int).unwrap();
    let ghost q = key.deep_view();
    let cap = match capacity_for(n) {
        Some(cap) => cap,
        None => {
            proof {
                assert(spec_capacity(n as int) * spec_bucket_size::<K, V>() > usize::MAX)
                    by (nonlinear_arith)
                    requires
                        spec_capacity(n as int) > usize::MAX,
                        spec_bucket_size::<K, V>() >= 1,
                ;
            }
            unreached()
        },
    };
    if cap == 0 {
        return (None, 0);
    }
    let base = match rel_ptr_target(buf, at) {
        Some(base) => base,
        None => unreached(),
    };
    proof {
        lemma_capacity(n as int);
    }
    let home = (key.hash_value() % (cap as u64)) as usize;
    let mut b = home;
    let mut t: usize = 0;
    while t < cap
        invariant
            slots == spec_table_access::<K, V>(buf@, at as int).unwrap(),
            slots == spec_buckets::<K, V>(buf@, base as int, cap as int),
            spec_buckets_valid::<K, V>(buf@, base as int, cap as int, at as int),
            spec_table::<K, V::V>(slots, n as int),
            n < cap,
            cap == slots.len(),
            cap == spec_capacity(spec_u32_at(buf@, at + 4) as int),
            spec_table_access::<K, V>(buf@, at as int) is Some,
            value_offset == spec_bucket_value_offset::<K, V>(),
            bucket_size == spec_bucket_size::<K, V>(),
            16 <= bucket_size,
            value_offset + 1 <= bucket_size,
            q == key.deep_view(),
            home == spec_home::<K>(q, cap as int),
            0 <= home < cap,
            t <= cap,
            t < cap ==> b == spec_probe(home as int, t as int, cap as int),
            forall|u: int|
                0 <= u < t ==> spec_other(
                    #[trigger] slots[spec_probe(home as int, u, cap as int)],
                    q,
                ),
        decreases cap - t,
    {
        proof {
            lemma_slot_bounds(b as int, cap as int, bucket_size as int);
            assert(spec_bucket::<K, V>(buf@, base + b * spec_bucket_size::<K, V>()) is Some);
            assert(slots[b as int] == spec_bucket::<K, V>(
                buf@,
                base + b * spec_bucket_size::<K, V>(),
            ).unwrap());
        }
        let bucket = base + b * bucket_size;
        if buf[bucket] != BUCKET_FULL {
            proof {
                lemma_probe_absent::<K, V::V>(slots, q, t as int);
            }
            return (None, t + 1);
        }
        let k = K::deserialize(buf, bucket + 8);
        if k.same(key) {
            proof {
                lemma_bucket_unique(slots, b as int);
            }
            return (Some(bucket + value_offset), t + 1);
        }
        assert(spec_other(slots[b as int], q));
        t = t + 1;
        b = if b + 1 == cap {
            0
        } else {
            b + 1
        };
    }
    proof {
        lemma_probe_reaches_all(slots, home as int);
        lemma_count_bounds(slots, cap as int);
    }
    unreached()
}

/// Looks a key up in an archived table and deserializes the value of
/// its entry.
pub fn get<K: ArchiveHash, V: Archive>(buf: &[u8], at: usize, key: &K) -> (r: Option<V>)
    requires
        spec_table_access::<K, V>(buf@, at as int) is Some,
    ensures
        (match r {
            Some(v) => Some(v.deep_view()),
            None => None,
        }) == spec_get(spec_table_access::<K, V>(buf@, at as int).unwrap(), key.deep_view()),
{
    match find::<K, V>(buf, at, key).0 {
        Some(pos) => Some(V::deserialize(buf, pos)),
        None => None,
    }
}

/// The number of entries of the archived table at `at`.
pub fn archived_len<K: ArchiveHash, V: Archive>(buf: &[u8], at: usize) -> (n: usize)
    requires
        spec_table_access::<K, V>(buf@, at as int) is Some,
    ensures
        n == spec_count(
            spec_table_access::<K, V>(buf@, at as int).unwrap(),
            spec_table_access::<K, V>(buf@, at as int).unwrap().len() as int,
        ),
{
    let _ = buf.len();
    proof {
        lemma_count_empty(Seq::<Option<(K::V, V::V)>>::empty(), 0);
    }
    read_u32(buf, at + 4) as usize
}

} // verus!
