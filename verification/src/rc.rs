//! Shared pointers: one payload for all owners of one value.
//!
//! When a value has several owners, it is archived once, the first time
//! one of its owners is archived, and every owner is archived as a
//! pointer to that one payload. A pool remembers, for the identity of
//! each shared value, where its payload went. On the way back a second
//! pool remembers, for the position of each payload, the allocation that
//! was made for it, so that all pointers to one payload come back as
//! handles to one allocation. Both pools live for one operation only.

use vstd::prelude::*;
use std::rc::Rc;
use crate::api::serialize_and_resolve;
use crate::archive::{is_prefix, spec_archived_len, Archive};
use crate::error::SerializeError;
use crate::ser::Writer;

verus! {

/// Calls `Rc::clone`, which makes another handle to the same
/// allocation. The contract claims that the new handle holds the same
/// value.
#[verifier::external_body]
fn rc_clone<T>(rc: &Rc<T>) -> (r: Rc<T>)
    ensures
        r == *rc,
{
    Rc::clone(rc)
}

/// The value that the entries `entries` give the key `key`: that of the
/// first entry with that key.
pub open spec fn spec_assoc<A>(entries: Seq<(u64, A)>, key: u64) -> Option<A>
    decreases entries.len(),
{
    if entries.len() == 0 {
        None
    } else if entries[0].0 == key {
        Some(entries[0].1)
    } else {
        spec_assoc(entries.drop_first(), key)
    }
}

/// A key that no entry has is given nothing, and adding an entry for it
/// at the end gives it the value of that entry and changes nothing for
/// the other keys.
pub proof fn lemma_assoc_push<A>(entries: Seq<(u64, A)>, key: u64, value: A, other: u64)
    requires
        spec_assoc(entries, key) is None,
    ensures
        spec_assoc(entries.push((key, value)), key) == Some(value),
        other != key ==> spec_assoc(entries.push((key, value)), other) == spec_assoc(
            entries,
            other,
        ),
    decreases entries.len(),
{
    if entries.len() > 0 {
        lemma_assoc_push(entries.drop_first(), key, value, other);
        assert(entries.push((key, value)).drop_first() =~= entries.drop_first().push(
            (key, value),
        ));
    } else {
        assert(entries.push((key, value)).drop_first() =~= entries);
    }
}

/// Where the entries before `i` do not have the key, the key is given
/// what the entries from `i` on give it.
pub proof fn lemma_assoc_skip<A>(entries: Seq<(u64, A)>, key: u64, i: int)
    requires
        0 <= i <= entries.len(),
        forall|j: int| 0 <= j < i ==> entries[j].0 != key,
    ensures
        spec_assoc(entries, key) == spec_assoc(entries.skip(i), key),
    decreases i,
{
    if i == 0 {
        assert(entries.skip(0) =~= entries);
    } else {
        lemma_assoc_skip(entries.drop_first(), key, i - 1);
        assert(entries.drop_first().skip(i - 1) =~= entries.skip(i));
    }
}

/// Where the entries before `i` do not have the key, the first entry
/// with the key is the first among the entries from `i` on.
pub proof fn lemma_assoc_index_skip<A>(entries: Seq<(u64, A)>, key: u64, i: int)
    requires
        0 <= i < entries.len(),
        forall|j: int| 0 <= j < i ==> entries[j].0 != key,
        entries[i].0 == key,
    ensures
        spec_assoc_index(entries, key) == Some(i),
    decreases i,
{
    if i > 0 {
        lemma_assoc_index_skip(entries.drop_first(), key, i - 1);
    }
}

/// Looks a key up in a list of entries.
fn assoc_index<A>(entries: &Vec<(u64, A)>, key: u64) -> (r: Option<usize>)
    ensures
        r is Some <==> spec_assoc(entries@, key) is Some,
        r matches Some(i) ==> i < entries@.len() && entries@[i as int].0 == key && spec_assoc(
            entries@,
            key,
        ) == Some(entries@[i as int].1) && spec_assoc_index(entries@, key) == Some(i as int),
{
    let mut i: usize = 0;
    while i < entries.len()
        invariant
            i <= entries@.len(),
            forall|j: int| 0 <= j < i ==> entries@[j].0 != key,
        decreases entries@.len() - i,
    {
        if entries[i].0 == key {
            proof {
                lemma_assoc_skip(entries@, key, i as int);
                lemma_assoc_index_skip(entries@, key, i as int);
            }
            return Some(i);
        }
        i = i + 1;
    }
    proof {
        lemma_assoc_skip(entries@, key, i as int);
    }
    None
}

/// The index of the first entry with the key `key`, where there is one.
pub open spec fn spec_assoc_index<A>(entries: Seq<(u64, A)>, key: u64) -> Option<int>
    decreases entries.len(),
{
    if entries.len() == 0 {
        None
    } else if entries[0].0 == key {
        Some(0)
    } else {
        match spec_assoc_index(entries.drop_first(), key) {
            Some(i) => Some(i + 1),
            None => None,
        }
    }
}

/// The first entry with a key is the entry whose value the key is
/// given.
pub proof fn lemma_assoc_index<A>(entries: Seq<(u64, A)>, key: u64)
    ensures
        spec_assoc_index(entries, key) is Some <==> spec_assoc(entries, key) is Some,
        spec_assoc_index(entries, key) matches Some(i) ==> 0 <= i < entries.len() && entries[i].0
            == key && spec_assoc(entries, key) == Some(entries[i].1),
    decreases entries.len(),
{
    if entries.len() > 0 && entries[0].0 != key {
        lemma_assoc_index(entries.drop_first(), key);
    }
}

/// Adding an entry at the end leaves the first entry of every key that
/// had one where it was.
pub proof fn lemma_assoc_index_push<A>(entries: Seq<(u64, A)>, entry: (u64, A), key: u64)
    ensures
        spec_assoc_index(entries, key) is Some ==> spec_assoc_index(entries.push(entry), key)
            == spec_assoc_index(entries, key),
        spec_assoc_index(entries, key) is None && entry.0 == key ==> spec_assoc_index(
            entries.push(entry),
            key,
        ) == Some(entries.len() as int),
    decreases entries.len(),
{
    if entries.len() > 0 {
        assert(entries.push(entry).drop_first() =~= entries.drop_first().push(entry));
        if entries[0].0 != key {
            lemma_assoc_index_push(entries.drop_first(), entry, key);
        }
    } else {
        assert(entries.push(entry).drop_first() =~= entries);
    }
}

/// The pool of the serialize side: for the identity of each shared value
/// that was archived, the position of its payload, in the order in which
/// they were archived.
pub struct SharePool {
    entries: Vec<(u64, usize)>,
}

impl View for SharePool {
    type V = Seq<(u64, usize)>;

    closed spec fn view(&self) -> Seq<(u64, usize)> {
        self.entries@
    }
}

impl SharePool {
    /// The position of the payload of the shared value with the identity
    /// `identity`, where it was archived.
    pub open spec fn spec_get(&self, identity: u64) -> Option<usize> {
        spec_assoc(self@, identity)
    }

    /// A pool that remembers nothing.
    pub fn new() -> (pool: SharePool)
        ensures
            pool@ == Seq::<(u64, usize)>::empty(),
    {
        SharePool { entries: Vec::new() }
    }

    /// The position of the payload of the shared value with the identity
    /// `identity`, where it was archived.
    pub fn get(&self, identity: u64) -> (r: Option<usize>)
        ensures
            r == self.spec_get(identity),
    {
        match assoc_index(&self.entries, identity) {
            Some(i) => Some(self.entries[i].1),
            None => None,
        }
    }

    /// The number of payloads that the pool remembers.
    pub fn len(&self) -> (n: usize)
        ensures
            n == self@.len(),
    {
        self.entries.len()
    }
}

/// Archives a shared value and returns the position of its payload.
/// Where the pool knows the identity, nothing is written and the
/// position of the payload that is already there is returned. Otherwise
/// the value is archived and the pool remembers where. The caller attests
/// that one identity stands for one value: what the pool holds for the
/// identity is an archive of this value.
pub fn serialize_shared<T: Archive>(
    value: &T,
    identity: u64,
    pool: &mut SharePool,
    w: &mut Writer,
) -> (r: Result<usize, SerializeError>)
    requires
        old(w).wf(),
        old(pool).spec_get(identity) matches Some(pos) ==> T::spec_access(old(w)@, pos as int)
            == Some(value.deep_view()),
    ensures
        final(w).wf(),
        final(w).spec_limit() == old(w).spec_limit(),
        old(pool).spec_get(identity) matches Some(pos) ==> {
            &&& r == Ok::<usize, SerializeError>(pos)
            &&& final(w)@ == old(w)@
            &&& final(pool)@ == old(pool)@
        },
        old(pool).spec_get(identity) is None ==> {
            &&& r is Ok <==> old(w)@.len() + spec_archived_len::<T>(
                value.deep_view(),
                old(w)@.len() as int,
            ) <= old(w).spec_limit()
            &&& r matches Ok(pos) ==> {
                &&& final(w)@.len() == old(w)@.len() + spec_archived_len::<T>(
                    value.deep_view(),
                    old(w)@.len() as int,
                )
                &&& final(pool)@ == old(pool)@.push((identity, pos))
            }
            &&& r is Err ==> final(pool)@ == old(pool)@
        },
        r matches Ok(pos) ==> is_prefix(old(w)@, final(w)@) && final(pool).spec_get(identity)
            == Some(pos) && T::spec_access(final(w)@, pos as int) == Some(value.deep_view()),
        r matches Err(e) ==> e == SerializeError::Writer,
{
    match pool.get(identity) {
        Some(pos) => {
            assert(w@.subrange(0, w@.len() as int) =~= w@);
            Ok(pos)
        },
        None => {
            match serialize_and_resolve::<T>(value, w) {
                Ok(pos) => {
                    proof {
                        lemma_assoc_push(pool.entries@, identity, pos, identity);
                    }
                    pool.entries.push((identity, pos));
                    Ok(pos)
                },
                Err(e) => Err(e),
            }
        },
    }
}

/// The pool of the deserialize side: for the position of each payload
/// that was deserialized, the allocation that was made for it, in the
/// order in which they were made.
pub struct UnsharePool<T> {
    entries: Vec<(u64, Rc<T>)>,
}

impl<T> View for UnsharePool<T> {
    type V = Seq<(u64, Rc<T>)>;

    closed spec fn view(&self) -> Seq<(u64, Rc<T>)> {
        self.entries@
    }
}

/// Every allocation holds the value of the payload that it was made
/// for.
pub open spec fn spec_pool_for<T: Archive>(entries: Seq<(u64, Rc<T>)>, buf: Seq<u8>) -> bool {
    forall|i: int|
        0 <= i < entries.len() ==> Some((#[trigger] entries[i]).1.deep_view()) == T::spec_access(
            buf,
            entries[i].0 as int,
        )
}

/// What deserializing the shared value at `at` does to the pool: where
/// the pool has an allocation for `at`, nothing; otherwise one
/// allocation is added at the end.
pub open spec fn spec_shared_step<T>(
    before: Seq<(u64, Rc<T>)>,
    after: Seq<(u64, Rc<T>)>,
    at: u64,
    handle: Rc<T>,
) -> bool {
    match spec_assoc_index(before, at) {
        Some(i) => after == before && handle == before[i].1,
        None => after == before.push((at, handle)),
    }
}

/// Shared values keep their identity: when the shared value at one
/// position is deserialized twice, the second time makes no allocation,
/// and both handles are handles to the one allocation that the pool holds
/// for the position.
pub proof fn lemma_shared_identity<T>(
    first_pool: Seq<(u64, Rc<T>)>,
    second_pool: Seq<(u64, Rc<T>)>,
    third_pool: Seq<(u64, Rc<T>)>,
    at: u64,
    first: Rc<T>,
    second: Rc<T>,
)
    requires
        spec_shared_step(first_pool, second_pool, at, first),
        spec_shared_step(second_pool, third_pool, at, second),
    ensures
        third_pool == second_pool,
        spec_assoc_index(second_pool, at) matches Some(i) && second_pool[i].1 == first
            && third_pool[i].1 == second,
{
    lemma_assoc_index(first_pool, at);
    lemma_assoc_index_push(first_pool, (at, first), at);
    lemma_assoc_index(second_pool, at);
}

impl<T: Archive> UnsharePool<T> {
    /// The allocation that was made for the payload at `pos`, where one
    /// was made.
    pub open spec fn spec_get(&self, pos: u64) -> Option<Rc<T>> {
        spec_assoc(self@, pos)
    }

    /// Every allocation of the pool holds the value of the payload that
    /// it was made for.
    pub open spec fn spec_for(&self, buf: Seq<u8>) -> bool {
        spec_pool_for::<T>(self@, buf)
    }

    /// A pool that remembers nothing.
    pub fn new() -> (pool: UnsharePool<T>)
        ensures
            pool@ == Seq::<(u64, Rc<T>)>::empty(),
    {
        UnsharePool { entries: Vec::new() }
    }

    /// The number of allocations that the pool remembers.
    pub fn len(&self) -> (n: usize)
        ensures
            n == self@.len(),
    {
        self.entries.len()
    }

    /// The index, among the allocations of the pool, of the one that was
    /// made for the payload at `pos`.
    pub fn index_of(&self, pos: usize) -> (r: Option<usize>)
        ensures
            match r {
                Some(i) => spec_assoc_index(self@, pos as u64) == Some(i as int),
                None => spec_assoc_index(self@, pos as u64) is None,
            },
    {
        proof {
            lemma_assoc_index(self.entries@, pos as u64);
        }
        assoc_index(&self.entries, pos as u64)
    }
}

/// Deserializes the shared value whose payload stands at `at`, which
/// the caller attests to be well formed. Where the pool knows the
/// payload, no allocation is made and a new handle to the one that is
/// there is returned. Otherwise the value is deserialized into a new
/// allocation, which the pool remembers once it is complete.
pub fn deserialize_shared<T: Archive>(buf: &[u8], at: usize, pool: &mut UnsharePool<T>) -> (r: Rc<
    T,
>)
    requires
        T::spec_access(buf@, at as int) is Some,
        old(pool).spec_for(buf@),
    ensures
        Some(r.deep_view()) == T::spec_access(buf@, at as int),
        final(pool).spec_for(buf@),
        final(pool).spec_get(at as u64) == Some(r),
        spec_shared_step(old(pool)@, final(pool)@, at as u64, r),
{
    proof {
        lemma_assoc_index(pool.entries@, at as u64);
    }
    match assoc_index(&pool.entries, at as u64) {
        Some(i) => rc_clone(&pool.entries[i].1),
        None => {
            let value = T::deserialize(buf, at);
            let rc = Rc::new(value);
            let handle = rc_clone(&rc);
            proof {
                lemma_assoc_push(pool.entries@, at as u64, rc, at as u64);
            }
            pool.entries.push((at as u64, rc));
            handle
        },
    }
}

} // verus!
