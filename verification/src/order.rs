//! Keys with an order: what an ordered container needs of its keys.

use vstd::prelude::*;
use vstd::string::StringSliceAdditionalSpecFns;
use crate::archive::Archive;

verus! {

/// How one key stands to another.
#[derive(Clone, Copy, Debug, PartialEq, Eq, Structural)]
pub enum KeyOrder {
    /// The first key comes before the second.
    Before,
    /// The keys are the same.
    Same,
    /// The first key comes after the second.
    After,
}

/// An archivable type whose values are totally ordered.
///
/// The order is stated over the views of the values, so that the live
/// values and the archived ones are ordered alike.
pub trait ArchiveOrd: Archive {
    /// `a` comes strictly before `b`.
    spec fn spec_lt(a: Self::V, b: Self::V) -> bool;

    /// No value comes before itself.
    proof fn lemma_irreflexive(a: Self::V)
        ensures
            !Self::spec_lt(a, a),
    ;

    /// The order is transitive.
    proof fn lemma_transitive(a: Self::V, b: Self::V, c: Self::V)
        ensures
            Self::spec_lt(a, b) && Self::spec_lt(b, c) ==> Self::spec_lt(a, c),
    ;

    /// Of two different values one comes before the other.
    proof fn lemma_total(a: Self::V, b: Self::V)
        ensures
            a == b || Self::spec_lt(a, b) || Self::spec_lt(b, a),
    ;

    /// Compares two values.
    fn key_order(&self, other: &Self) -> (o: KeyOrder)
        ensures
            o == KeyOrder::Before <==> Self::spec_lt(self.deep_view(), other.deep_view()),
            o == KeyOrder::Same <==> self.deep_view() == other.deep_view(),
            o == KeyOrder::After <==> Self::spec_lt(other.deep_view(), self.deep_view()),
    ;
}

/// The keys of a sequence are strictly increasing.
pub open spec fn spec_increasing<K: ArchiveOrd>(keys: Seq<K::V>) -> bool {
    forall|i: int, j: int| 0 <= i < j < keys.len() ==> K::spec_lt(keys[i], keys[j])
}

/// Keys of which each comes before the next are strictly increasing.
pub proof fn lemma_adjacent_increasing<K: ArchiveOrd>(keys: Seq<K::V>)
    requires
        forall|i: int| 0 <= i < keys.len() - 1 ==> K::spec_lt(keys[i], #[trigger] keys[i + 1]),
    ensures
        spec_increasing::<K>(keys),
{
    assert forall|i: int, j: int| 0 <= i < j < keys.len() implies K::spec_lt(
        keys[i],
        keys[j],
    ) by {
        lemma_adjacent_step::<K>(keys, i, j);
    }
}

/// One pair of keys of a sequence of which each comes before the next.
pub proof fn lemma_adjacent_step<K: ArchiveOrd>(keys: Seq<K::V>, i: int, j: int)
    requires
        forall|i: int| 0 <= i < keys.len() - 1 ==> K::spec_lt(keys[i], #[trigger] keys[i + 1]),
        0 <= i < j < keys.len(),
    ensures
        K::spec_lt(keys[i], keys[j]),
    decreases j - i,
{
    if j == i + 1 {
    } else {
        lemma_adjacent_step::<K>(keys, i, j - 1);
        assert(K::spec_lt(keys[j - 1], keys[j - 1 + 1]));
        K::lemma_transitive(keys[i], keys[j - 1], keys[j]);
    }
}

impl ArchiveOrd for u8 {
    open spec fn spec_lt(a: u8, b: u8) -> bool {
        a < b
    }

    proof fn lemma_irreflexive(a: u8) {
    }

    proof fn lemma_transitive(a: u8, b: u8, c: u8) {
    }

    proof fn lemma_total(a: u8, b: u8) {
    }

    fn key_order(&self, other: &u8) -> (o: KeyOrder) {
        if *self < *other {
            KeyOrder::Before
        } else if *self == *other {
            KeyOrder::Same
        } else {
            KeyOrder::After
        }
    }
}

impl ArchiveOrd for u16 {
    open spec fn spec_lt(a: u16, b: u16) -> bool {
        a < b
    }

    proof fn lemma_irreflexive(a: u16) {
    }

    proof fn lemma_transitive(a: u16, b: u16, c: u16) {
    }

    proof fn lemma_total(a: u16, b: u16) {
    }

    fn key_order(&self, other: &u16) -> (o: KeyOrder) {
        if *self < *other {
            KeyOrder::Before
        } else if *self == *other {
            KeyOrder::Same
        } else {
            KeyOrder::After
        }
    }
}

impl ArchiveOrd for u32 {
    open spec fn spec_lt(a: u32, b: u32) -> bool {
        a < b
    }

    proof fn lemma_irreflexive(a: u32) {
    }

    proof fn lemma_transitive(a: u32, b: u32, c: u32) {
    }

    proof fn lemma_total(a: u32, b: u32) {
    }

    fn key_order(&self, other: &u32) -> (o: KeyOrder) {
        if *self < *other {
            KeyOrder::Before
        } else if *self == *other {
            KeyOrder::Same
        } else {
            KeyOrder::After
        }
    }
}

impl ArchiveOrd for u64 {
    open spec fn spec_lt(a: u64, b: u64) -> bool {
        a < b
    }

    proof fn lemma_irreflexive(a: u64) {
    }

    proof fn lemma_transitive(a: u64, b: u64, c: u64) {
    }

    proof fn lemma_total(a: u64, b: u64) {
    }

    fn key_order(&self, other: &u64) -> (o: KeyOrder) {
        if *self < *other {
            KeyOrder::Before
        } else if *self == *other {
            KeyOrder::Same
        } else {
            KeyOrder::After
        }
    }
}

impl ArchiveOrd for i16 {
    open spec fn spec_lt(a: i16, b: i16) -> bool {
        a < b
    }

    proof fn lemma_irreflexive(a: i16) {
    }

    proof fn lemma_transitive(a: i16, b: i16, c: i16) {
    }

    proof fn lemma_total(a: i16, b: i16) {
    }

    fn key_order(&self, other: &i16) -> (o: KeyOrder) {
        if *self < *other {
            KeyOrder::Before
        } else if *self == *other {
            KeyOrder::Same
        } else {
            KeyOrder::After
        }
    }
}

impl ArchiveOrd for i8 {
    open spec fn spec_lt(a: i8, b: i8) -> bool {
        a < b
    }

    proof fn lemma_irreflexive(a: i8) {
    }

    proof fn lemma_transitive(a: i8, b: i8, c: i8) {
    }

    proof fn lemma_total(a: i8, b: i8) {
    }

    fn key_order(&self, other: &i8) -> (o: KeyOrder) {
        if *self < *other {
            KeyOrder::Before
        } else if *self == *other {
            KeyOrder::Same
        } else {
            KeyOrder::After
        }
    }
}

impl ArchiveOrd for i32 {
    open spec fn spec_lt(a: i32, b: i32) -> bool {
        a < b
    }

    proof fn lemma_irreflexive(a: i32) {
    }

    proof fn lemma_transitive(a: i32, b: i32, c: i32) {
    }

    proof fn lemma_total(a: i32, b: i32) {
    }

    fn key_order(&self, other: &i32) -> (o: KeyOrder) {
        if *self < *other {
            KeyOrder::Before
        } else if *self == *other {
            KeyOrder::Same
        } else {
            KeyOrder::After
        }
    }
}

impl ArchiveOrd for i64 {
    open spec fn spec_lt(a: i64, b: i64) -> bool {
        a < b
    }

    proof fn lemma_irreflexive(a: i64) {
    }

    proof fn lemma_transitive(a: i64, b: i64, c: i64) {
    }

    proof fn lemma_total(a: i64, b: i64) {
    }

    fn key_order(&self, other: &i64) -> (o: KeyOrder) {
        if *self < *other {
            KeyOrder::Before
        } else if *self == *other {
            KeyOrder::Same
        } else {
            KeyOrder::After
        }
    }
}

/// `a` comes before `b` in the order of dictionaries: at the first byte
/// where they differ `a` has the smaller one, or `a` ends first.
pub open spec fn spec_bytes_lt(a: Seq<u8>, b: Seq<u8>) -> bool
    decreases a.len(),
{
    if b.len() == 0 {
        false
    } else if a.len() == 0 {
        true
    } else if a[0] != b[0] {
        a[0] < b[0]
    } else {
        spec_bytes_lt(a.drop_first(), b.drop_first())
    }
}

/// No byte string comes before itself.
pub proof fn lemma_bytes_irreflexive(a: Seq<u8>)
    ensures
        !spec_bytes_lt(a, a),
    decreases a.len(),
{
    if a.len() > 0 {
        lemma_bytes_irreflexive(a.drop_first());
    }
}

/// The order of byte strings is transitive.
pub proof fn lemma_bytes_transitive(a: Seq<u8>, b: Seq<u8>, c: Seq<u8>)
    requires
        spec_bytes_lt(a, b),
        spec_bytes_lt(b, c),
    ensures
        spec_bytes_lt(a, c),
    decreases a.len(),
{
    if a.len() > 0 && b.len() > 0 && c.len() > 0 && a[0] == b[0] && b[0] == c[0] {
        lemma_bytes_transitive(a.drop_first(), b.drop_first(), c.drop_first());
    }
}

/// Of two different byte strings one comes before the other.
pub proof fn lemma_bytes_total(a: Seq<u8>, b: Seq<u8>)
    ensures
        a == b || spec_bytes_lt(a, b) || spec_bytes_lt(b, a),
    decreases a.len(),
{
    if a.len() == 0 || b.len() == 0 {
        if a.len() == 0 && b.len() == 0 {
            assert(a =~= b);
        }
    } else if a[0] == b[0] {
        lemma_bytes_total(a.drop_first(), b.drop_first());
        if a.drop_first() == b.drop_first() {
            assert(a =~= seq![a[0]] + a.drop_first());
            assert(b =~= seq![b[0]] + b.drop_first());
        }
    }
}

/// Byte strings that agree on their first `i` bytes compare as what
/// follows those bytes does.
pub proof fn lemma_bytes_lt_skip(a: Seq<u8>, b: Seq<u8>, i: int)
    requires
        0 <= i <= a.len(),
        i <= b.len(),
        forall|j: int| 0 <= j < i ==> a[j] == b[j],
    ensures
        spec_bytes_lt(a, b) == spec_bytes_lt(a.skip(i), b.skip(i)),
    decreases i,
{
    if i == 0 {
        assert(a.skip(0) =~= a);
        assert(b.skip(0) =~= b);
    } else {
        lemma_bytes_lt_skip(a.drop_first(), b.drop_first(), i - 1);
        assert(a.drop_first().skip(i - 1) =~= a.skip(i));
        assert(b.drop_first().skip(i - 1) =~= b.skip(i));
    }
}

/// Compares two byte strings in the order of dictionaries.
pub fn bytes_order(a: &[u8], b: &[u8]) -> (o: KeyOrder)
    ensures
        o == KeyOrder::Before <==> spec_bytes_lt(a@, b@),
        o == KeyOrder::Same <==> a@ == b@,
        o == KeyOrder::After <==> spec_bytes_lt(b@, a@),
{
    let mut i: usize = 0;
    while i < a.len() && i < b.len()
        invariant
            i <= a@.len(),
            i <= b@.len(),
            forall|j: int| 0 <= j < i ==> a@[j] == b@[j],
        decreases a@.len() - i,
    {
        if a[i] != b[i] {
            proof {
                lemma_bytes_lt_skip(a@, b@, i as int);
                lemma_bytes_lt_skip(b@, a@, i as int);
            }
            if a[i] < b[i] {
                return KeyOrder::Before;
            } else {
                return KeyOrder::After;
            }
        }
        i = i + 1;
    }
    proof {
        lemma_bytes_lt_skip(a@, b@, i as int);
        lemma_bytes_lt_skip(b@, a@, i as int);
        lemma_bytes_irreflexive(a@);
        if a@.len() == b@.len() {
            assert(a@ =~= b@);
        }
    }
    if a.len() < b.len() {
        KeyOrder::Before
    } else if a.len() > b.len() {
        KeyOrder::After
    } else {
        KeyOrder::Same
    }
}

impl ArchiveOrd for () {
    open spec fn spec_lt(a: (), b: ()) -> bool {
        false
    }

    proof fn lemma_irreflexive(a: ()) {
    }

    proof fn lemma_transitive(a: (), b: (), c: ()) {
    }

    proof fn lemma_total(a: (), b: ()) {
    }

    fn key_order(&self, other: &()) -> (o: KeyOrder) {
        KeyOrder::Same
    }
}

impl ArchiveOrd for String {
    open spec fn spec_lt(a: Seq<char>, b: Seq<char>) -> bool {
        spec_bytes_lt(vstd::utf8::encode_utf8(a), vstd::utf8::encode_utf8(b))
    }

    proof fn lemma_irreflexive(a: Seq<char>) {
        lemma_bytes_irreflexive(vstd::utf8::encode_utf8(a));
    }

    proof fn lemma_transitive(a: Seq<char>, b: Seq<char>, c: Seq<char>) {
        if Self::spec_lt(a, b) && Self::spec_lt(b, c) {
            lemma_bytes_transitive(
                vstd::utf8::encode_utf8(a),
                vstd::utf8::encode_utf8(b),
                vstd::utf8::encode_utf8(c),
            );
        }
    }

    proof fn lemma_total(a: Seq<char>, b: Seq<char>) {
        lemma_bytes_total(vstd::utf8::encode_utf8(a), vstd::utf8::encode_utf8(b));
        vstd::utf8::encode_utf8_decode_utf8(a);
        vstd::utf8::encode_utf8_decode_utf8(b);
    }

    fn key_order(&self, other: &String) -> (o: KeyOrder) {
        proof {
            vstd::utf8::encode_utf8_decode_utf8(self@);
            vstd::utf8::encode_utf8_decode_utf8(other@);
        }
        bytes_order(self.as_str().as_bytes(), other.as_str().as_bytes())
    }
}

} // verus!
