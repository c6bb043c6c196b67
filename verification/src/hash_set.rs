//! Archiving hash sets of text.
//!
//! A hash set of an outside crate is archived as a hashed table whose
//! values are empty. The set walks its items in an order of its own, so
//! the bytes of the archive are fixed only once the items are laid out in
//! a table; what is fixed whatever the order is which keys the table
//! holds.

use vstd::prelude::*;
use crate::api::serialize_and_resolve;
use crate::archive::{is_prefix, spec_archived_len, spec_deep_view, Archive};
use crate::error::SerializeError;
use crate::hash_table::{
    spec_bucket_of, spec_capacity, spec_get, spec_holds, spec_no_duplicates, spec_table,
    spec_table_access, spec_within, HashedMap,
};
use crate::ser::Writer;

verus! {

/// A hash set of strings: the set type of the crate `hashbrown`, with
/// its default hasher.
#[verifier::external_body]
pub struct StringSet {
    inner: hashbrown::HashSet<String>,
}

/// The strings that a set holds.
pub uninterp spec fn spec_set_items(set: StringSet) -> Set<Seq<char>>;

/// The items are finitely many, and `count` is their number.
pub open spec fn spec_counts(items: Set<Seq<char>>, count: int) -> bool {
    items.finite() && items.len() == count
}

/// Calls `HashSet::new`, which makes an empty set. The contract claims
/// that the set holds nothing.
#[verifier::external_body]
fn set_new() -> (set: StringSet)
    ensures
        spec_set_items(set) == Set::<Seq<char>>::empty(),
{
    StringSet { inner: hashbrown::HashSet::new() }
}

/// Calls `HashSet::len`, which counts the items of the set. The
/// contract claims that the items are finitely many and that this is
/// their number.
#[verifier::external_body]
fn set_len(set: &StringSet) -> (count: usize)
    ensures
        spec_counts(spec_set_items(*set), count as int),
{
    set.inner.len()
}

/// Calls `HashSet::insert`, which adds an item to the set and tells
/// whether the set did not hold it before. The contract claims that
/// afterwards the set holds the item and what it held before.
#[verifier::external_body]
fn set_insert(set: &mut StringSet, item: String) -> (fresh: bool)
    ensures
        spec_set_items(*final(set)) == spec_set_items(*old(set)).insert(item@),
        fresh == !spec_set_items(*old(set)).contains(item@),
{
    set.inner.insert(item)
}

/// Calls `HashSet::get`, which looks for the item of the set that is
/// equal to a string. The contract claims that an item is found exactly
/// where the set holds the string, and that it is that string.
#[verifier::external_body]
fn set_get<'a>(set: &'a StringSet, item: &str) -> (r: Option<&'a String>)
    ensures
        r is Some <==> spec_set_items(*set).contains(item@),
        r matches Some(found) ==> found@ == item@,
{
    set.inner.get(item)
}

/// Calls `HashSet::iter`, which visits the items of the set in an order
/// of its own, and copies each item. The contract claims that every item
/// of the set is handed out once and nothing else.
#[verifier::external_body]
fn set_items(set: &StringSet) -> (items: Vec<String>)
    ensures
        spec_no_duplicates(spec_deep_view(items@)),
        spec_deep_view(items@).to_set() == spec_set_items(*set),
{
    set.inner.iter().cloned().collect()
}

impl StringSet {
    /// An empty set.
    pub fn new() -> (set: StringSet)
        ensures
            spec_set_items(set) == Set::<Seq<char>>::empty(),
    {
        set_new()
    }

    /// The number of items.
    pub fn len(&self) -> (count: usize)
        ensures
            spec_counts(spec_set_items(*self), count as int),
    {
        set_len(self)
    }

    /// Adds an item and tells whether the set did not hold it before.
    pub fn insert(&mut self, item: String) -> (fresh: bool)
        ensures
            spec_set_items(*final(self)) == spec_set_items(*old(self)).insert(item@),
            fresh == !spec_set_items(*old(self)).contains(item@),
    {
        set_insert(self, item)
    }

    /// The item that is equal to a string, where the set holds one.
    pub fn get(&self, item: &str) -> (r: Option<&String>)
        ensures
            r is Some <==> spec_set_items(*self).contains(item@),
            r matches Some(found) ==> found@ == item@,
    {
        set_get(self, item)
    }

    /// The items, each once, in an order that the set chooses.
    pub fn items(&self) -> (items: Vec<String>)
        ensures
            spec_no_duplicates(spec_deep_view(items@)),
            spec_deep_view(items@).to_set() == spec_set_items(*self),
    {
        set_items(self)
    }
}

/// The keys of the full buckets of a table.
pub open spec fn spec_key_set<A, B>(slots: Seq<Option<(A, B)>>) -> Set<A> {
    Set::new(|key: A| spec_bucket_of(slots, key) is Some)
}

/// The buckets `slots` are those of a table that holds exactly the
/// items `items`.
pub open spec fn spec_laid_out(slots: Seq<Option<(Seq<char>, ())>>, items: Set<Seq<char>>) -> bool {
    spec_key_set(slots) == items && spec_table::<String, ()>(slots, items.len() as int)
}

/// A table that holds the entries of a list of keys, and no other,
/// holds the keys of the list.
pub proof fn lemma_key_set<A, B>(slots: Seq<Option<(A, B)>>, keys: Seq<A>, values: Seq<B>)
    requires
        keys.len() == values.len(),
        spec_holds(slots, keys, values, 0),
        spec_within(slots, keys, 0),
    ensures
        spec_key_set(slots) == keys.to_set(),
{
    assert forall|key: A| spec_key_set(slots).contains(key) <==> keys.to_set().contains(key) by {
        if spec_key_set(slots).contains(key) {
            let b = spec_bucket_of(slots, key).unwrap();
            assert(slots[b] is Some);
            let j = choose|j: int| 0 <= j < keys.len() && keys[j] == slots[b].unwrap().0;
            assert(keys[j] == key);
        }
        if keys.to_set().contains(key) {
            let j = choose|j: int| 0 <= j < keys.len() && keys[j] == key;
            assert(spec_get(slots, keys[j]) == Some(values[j]));
        }
    }
    assert(spec_key_set(slots) =~= keys.to_set());
}

/// As many empty values as there are keys.
pub fn units(n: usize) -> (values: Vec<()>)
    ensures
        values@.len() == n,
{
    let mut values: Vec<()> = Vec::new();
    let mut i: usize = 0;
    while i < n
        invariant
            i <= n,
            values@.len() == i,
        decreases n - i,
    {
        values.push(());
        i = i + 1;
    }
    values
}

/// Lays the items of a set out in a table, or gives `None` where the
/// number of buckets cannot be computed.
pub fn table_of_set(set: &StringSet) -> (r: Option<HashedMap<String, ()>>)
    ensures
        r is Some <==> spec_capacity(spec_set_items(*set).len() as int) <= usize::MAX,
        r matches Some(table) ==> spec_key_set(table.deep_view()) == spec_set_items(*set)
            && spec_table::<String, ()>(table.deep_view(), spec_set_items(*set).len() as int),
{
    let items = set.items();
    let values = units(items.len());
    let ghost keys = spec_deep_view(items@);
    let ghost unit_views = spec_deep_view(values@);
    proof {
        assert(keys.no_duplicates());
        keys.unique_seq_to_set();
    }
    match HashedMap::<String, ()>::from_entries(items, values) {
        Some(table) => {
            proof {
                lemma_key_set(table.deep_view(), keys, unit_views);
                assert(keys.no_duplicates());
                keys.unique_seq_to_set();
            }
            Some(table)
        },
        None => None,
    }
}

/// Archives a set as a hashed table and returns the position of the
/// archived table. Whatever the order in which the set hands out its
/// items, the table holds exactly the items of the set. Fails with a
/// layout error exactly when the number of buckets cannot be computed,
/// and otherwise only when the writer has no room.
pub fn serialize_set(set: &StringSet, w: &mut Writer) -> (r: Result<usize, SerializeError>)
    requires
        old(w).wf(),
    ensures
        final(w).wf(),
        final(w).spec_limit() == old(w).spec_limit(),
        r == Err::<usize, SerializeError>(SerializeError::Layout) <==> spec_capacity(
            spec_set_items(*set).len() as int,
        ) > usize::MAX,
        r == Err::<usize, SerializeError>(SerializeError::Writer) ==> exists|
            slots: Seq<Option<(Seq<char>, ())>>,
        |
            #[trigger] spec_laid_out(slots, spec_set_items(*set)) && old(w)@.len()
                + spec_archived_len::<HashedMap<String, ()>>(slots, old(w)@.len() as int) > old(
                w,
            ).spec_limit(),
        r matches Ok(pos) ==> {
            &&& is_prefix(old(w)@, final(w)@)
            &&& spec_table_access::<String, ()>(final(w)@, pos as int) matches Some(slots)
                && spec_laid_out(slots, spec_set_items(*set)) && final(w)@.len() == old(w)@.len()
                + spec_archived_len::<HashedMap<String, ()>>(slots, old(w)@.len() as int)
        },
{
    match table_of_set(set) {
        Some(table) => {
            assert(spec_laid_out(table.deep_view(), spec_set_items(*set)));
            serialize_and_resolve::<HashedMap<String, ()>>(&table, w)
        },
        None => Err(SerializeError::Layout),
    }
}

/// The items from `n - 1` on are the item at `n - 1` and the items from
/// `n` on.
pub proof fn lemma_skip_to_set<A>(all: Seq<A>, n: int)
    requires
        0 < n <= all.len(),
    ensures
        all.skip(n - 1).to_set() == all.skip(n).to_set().insert(all[n - 1]),
{
    let longer = all.skip(n - 1);
    let shorter = all.skip(n);
    assert forall|k: A| longer.to_set().contains(k) <==> shorter.to_set().insert(
        all[n - 1],
    ).contains(k) by {
        if longer.contains(k) {
            let j = choose|j: int| 0 <= j < longer.len() && #[trigger] longer[j] == k;
            if j > 0 {
                assert(shorter[j - 1] == k);
                assert(shorter.contains(k));
            }
        }
        if shorter.contains(k) {
            let j = choose|j: int| 0 <= j < shorter.len() && #[trigger] shorter[j] == k;
            assert(longer[j + 1] == k);
            assert(longer.contains(k));
        }
        if k == all[n - 1] {
            assert(longer[0] == k);
            assert(longer.contains(k));
        }
    }
    assert(longer.to_set() =~= shorter.to_set().insert(all[n - 1]));
}

/// The keys of a table are the keys of its full buckets.
pub proof fn lemma_keys_to_set<A, B>(slots: Seq<Option<(A, B)>>, keys: Seq<A>)
    requires
        forall|key: A| keys.contains(key) <==> spec_bucket_of(slots, key) is Some,
    ensures
        keys.to_set() == spec_key_set(slots),
{
    assert(keys.to_set() =~= spec_key_set(slots));
}

/// Builds the set of the keys of an archived table, which the caller
/// attests to be well formed.
pub fn deserialize_set(buf: &[u8], at: usize) -> (set: StringSet)
    requires
        spec_table_access::<String, ()>(buf@, at as int) is Some,
    ensures
        spec_set_items(set) == spec_key_set(
            spec_table_access::<String, ()>(buf@, at as int).unwrap(),
        ),
{
    let table: HashedMap<String, ()> = HashedMap::deserialize(buf, at);
    let ghost slots = table.deep_view();
    let mut keys = table.into_keys();
    let ghost all = spec_deep_view(keys@);
    let mut set = StringSet::new();
    proof {
        lemma_keys_to_set(slots, all);
        assert(all.skip(all.len() as int).to_set() =~= Set::<Seq<char>>::empty());
        assert(spec_deep_view(keys@) =~= all.take(keys@.len() as int));
    }
    while keys.len() > 0
        invariant
            keys@.len() <= all.len(),
            spec_deep_view(keys@) == all.take(keys@.len() as int),
            spec_set_items(set) == all.skip(keys@.len() as int).to_set(),
        decreases keys@.len(),
    {
        let ghost before = keys@;
        let key = keys.pop().unwrap();
        let ghost n = keys@.len() as int;
        proof {
            assert(key@ == spec_deep_view(before)[n]);
            assert(spec_deep_view(keys@) =~= all.take(n));
            lemma_skip_to_set(all, n + 1);
        }
        set.insert(key);
    }
    assert(all.skip(0) =~= all);
    set
}

/// Decides whether an archived table holds the items of a set: as many
/// keys, and every key an item of the set. The caller attests that the
/// table at `at` is well formed.
pub fn set_eq(buf: &[u8], at: usize, other: &StringSet) -> (same: bool)
    requires
        spec_table_access::<String, ()>(buf@, at as int) is Some,
    ensures
        same == (spec_key_set(spec_table_access::<String, ()>(buf@, at as int).unwrap())
            == spec_set_items(*other)),
{
    let table: HashedMap<String, ()> = HashedMap::deserialize(buf, at);
    let ghost slots = table.deep_view();
    let keys = table.into_keys();
    let ghost all = spec_deep_view(keys@);
    let n = other.len();
    proof {
        lemma_keys_to_set(slots, all);
        all.unique_seq_to_set();
        vstd::seq_lib::seq_to_set_is_finite(all);
    }
    if keys.len() != n {
        return false;
    }
    let mut i: usize = 0;
    while i < keys.len()
        invariant
            i <= keys@.len(),
            all == spec_deep_view(keys@),
            all.to_set() == spec_key_set(slots),
            Some(slots) == spec_table_access::<String, ()>(buf@, at as int),
            forall|j: int| 0 <= j < i ==> spec_set_items(*other).contains(all[j]),
        decreases keys@.len() - i,
    {
        if other.get(keys[i].as_str()).is_none() {
            proof {
                assert(all.contains(all[i as int]));
            }
            return false;
        }
        i = i + 1;
    }
    proof {
        assert(all.to_set().subset_of(spec_set_items(*other))) by {
            assert forall|k: Seq<char>| all.to_set().contains(k) implies spec_set_items(
                *other,
            ).contains(k) by {
                let j = choose|j: int| 0 <= j < all.len() && #[trigger] all[j] == k;
            }
        }
        vstd::set_lib::lemma_subset_equality(all.to_set(), spec_set_items(*other));
    }
    true
}

} // verus!
