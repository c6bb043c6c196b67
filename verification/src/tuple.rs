//! Archived pairs.
//!
//! A pair is archived in line: its first part, then, after padding up to
//! the alignment of the second part, its second part, then padding up to
//! the alignment of the pair. The place of a pair is divided into the
//! places of its parts, which do not overlap.

use vstd::prelude::*;
use crate::archive::{is_prefix, Archive};
use crate::error::{AccessError, SerializeError};
use crate::place::{zeroed, Place};
use crate::ser::{lemma_padding, spec_padding, zeros, Writer, MAX_LEN};

verus! {

/// The larger of two alignments.
pub open spec fn spec_max_align(a: int, b: int) -> int {
    if a >= b {
        a
    } else {
        b
    }
}

/// The offset of the second part of a pair.
pub open spec fn spec_second_offset<A: Archive, B: Archive>() -> int {
    A::spec_size() + spec_padding(A::spec_size(), B::spec_align())
}

/// The size of a pair without the padding at its end.
pub open spec fn spec_pair_end<A: Archive, B: Archive>() -> int {
    spec_second_offset::<A, B>() + B::spec_size()
}

/// The size of a pair.
pub open spec fn spec_pair_size<A: Archive, B: Archive>() -> int {
    spec_pair_end::<A, B>() + spec_padding(
        spec_pair_end::<A, B>(),
        spec_max_align(A::spec_align(), B::spec_align()),
    )
}

/// Whether the layout of a pair can be computed: a pair fits the largest
/// buffer.
pub open spec fn spec_pair_layout<A: Archive, B: Archive>() -> bool {
    spec_pair_size::<A, B>() <= MAX_LEN
}

/// The shape of a pair: the parts lie within the pair at offsets that
/// are multiples of their alignments, and the size of the pair is a
/// multiple of its alignment.
pub proof fn lemma_pair_layout<A: Archive, B: Archive>()
    ensures
        1 <= A::spec_size() <= spec_second_offset::<A, B>(),
        spec_second_offset::<A, B>() % B::spec_align() == 0,
        spec_second_offset::<A, B>() < spec_pair_end::<A, B>() <= spec_pair_size::<A, B>(),
        spec_pair_size::<A, B>() % spec_max_align(A::spec_align(), B::spec_align()) == 0,
        spec_max_align(A::spec_align(), B::spec_align()) % A::spec_align() == 0,
        spec_max_align(A::spec_align(), B::spec_align()) % B::spec_align() == 0,
        spec_max_align(A::spec_align(), B::spec_align()) == 1 || spec_max_align(
            A::spec_align(),
            B::spec_align(),
        ) == 2 || spec_max_align(A::spec_align(), B::spec_align()) == 4 || spec_max_align(
            A::spec_align(),
            B::spec_align(),
        ) == 8,
{
    A::lemma_layout();
    B::lemma_layout();
    lemma_padding(A::spec_size(), B::spec_align());
    lemma_padding(spec_pair_end::<A, B>(), spec_max_align(A::spec_align(), B::spec_align()));
}

/// A position that is a multiple of an alignment, plus an offset that is
/// a multiple of a smaller alignment, is a multiple of the smaller one.
pub proof fn lemma_part_aligned(pos: int, offset: int, align: int, part: int)
    requires
        0 <= pos,
        0 <= offset,
        pos % align == 0,
        offset % part == 0,
        align % part == 0,
        align == 1 || align == 2 || align == 4 || align == 8,
        part == 1 || part == 2 || part == 4 || part == 8,
    ensures
        (pos + offset) % part == 0,
{
    if align == 8 {
        assert(pos % 4 == 0 && pos % 2 == 0);
    } else if align == 4 {
        assert(pos % 2 == 0);
    }
}

/// The archived form of a pair whose parts have the archived forms
/// `first` and `second`.
pub open spec fn spec_pair_bytes<A: Archive, B: Archive>(first: Seq<u8>, second: Seq<u8>) -> Seq<
    u8,
> {
    first + zeros((spec_second_offset::<A, B>() - A::spec_size()) as nat) + second + zeros(
        (spec_pair_size::<A, B>() - spec_pair_end::<A, B>()) as nat,
    )
}

/// Computes the layout of a pair: the offset of the second part and the
/// size of the pair, or `None` where a pair would not fit the largest
/// buffer.
pub fn pair_layout<A: Archive, B: Archive>() -> (r: Option<(usize, usize)>)
    ensures
        r is Some <==> spec_pair_layout::<A, B>(),
        r matches Some((offset, size)) ==> offset == spec_second_offset::<A, B>() && size
            == spec_pair_size::<A, B>(),
{
    proof {
        A::lemma_layout();
        B::lemma_layout();
        lemma_pair_layout::<A, B>();
    }
    let first: u64 = A::archived_size() as u64;
    let second_align: u64 = B::archived_align() as u64;
    let first_align: u64 = A::archived_align() as u64;
    let align: u64 = if first_align >= second_align {
        first_align
    } else {
        second_align
    };
    let rem: u64 = first % second_align;
    let offset: u64 = if rem == 0 {
        first
    } else {
        first + (second_align - rem)
    };
    let end: u64 = offset + B::archived_size() as u64;
    let rem_end: u64 = end % align;
    let size: u64 = if rem_end == 0 {
        end
    } else {
        end + (align - rem_end)
    };
    if size > MAX_LEN as u64 {
        None
    } else {
        Some((offset as usize, size as usize))
    }
}

/// The resolver of a pair: the resolvers of its parts.
#[derive(Clone, Copy, Debug)]
pub struct PairResolver<RA, RB> {
    /// The resolver of the first part.
    pub first: RA,
    /// The resolver of the second part.
    pub second: RB,
}

impl<A: Archive, B: Archive> Archive for (A, B) {
    type Resolver = PairResolver<A::Resolver, B::Resolver>;

    open spec fn spec_size() -> int {
        if spec_pair_layout::<A, B>() {
            spec_pair_size::<A, B>()
        } else {
            spec_max_align(A::spec_align(), B::spec_align())
        }
    }

    open spec fn spec_align() -> int {
        spec_max_align(A::spec_align(), B::spec_align())
    }

    open spec fn spec_serialized_len(v: (A::V, B::V), start: int) -> int {
        if !spec_pair_layout::<A, B>() {
            MAX_LEN + 1
        } else {
            A::spec_serialized_len(v.0, start) + B::spec_serialized_len(
                v.1,
                start + A::spec_serialized_len(v.0, start),
            )
        }
    }

    open spec fn spec_resolves(
        buf: Seq<u8>,
        v: (A::V, B::V),
        r: PairResolver<A::Resolver, B::Resolver>,
    ) -> bool {
        spec_pair_layout::<A, B>() && A::spec_resolves(buf, v.0, r.first) && B::spec_resolves(
            buf,
            v.1,
            r.second,
        )
    }

    open spec fn spec_resolve(v: (A::V, B::V), r: PairResolver<A::Resolver, B::Resolver>, at: int) -> Seq<
        u8,
    > {
        if !spec_pair_layout::<A, B>() {
            zeros(spec_max_align(A::spec_align(), B::spec_align()) as nat)
        } else {
            spec_pair_bytes::<A, B>(
                A::spec_resolve(v.0, r.first, at),
                B::spec_resolve(v.1, r.second, at + spec_second_offset::<A, B>()),
            )
        }
    }

    open spec fn spec_access(buf: Seq<u8>, at: int) -> Option<(A::V, B::V)> {
        if spec_pair_layout::<A, B>() && 0 <= at && at % spec_max_align(
            A::spec_align(),
            B::spec_align(),
        ) == 0 && at + spec_pair_size::<A, B>() <= buf.len() {
            match (A::spec_access(buf, at), B::spec_access(buf, at + spec_second_offset::<A, B>())) {
                (Some(a), Some(b)) => Some((a, b)),
                _ => None,
            }
        } else {
            None
        }
    }

    open spec fn spec_access_error(buf: Seq<u8>, at: int) -> AccessError {
        if !spec_pair_layout::<A, B>() {
            AccessError::OutOfBounds
        } else if at % spec_max_align(A::spec_align(), B::spec_align()) != 0 {
            AccessError::Misaligned
        } else if !(0 <= at && at + spec_pair_size::<A, B>() <= buf.len()) {
            AccessError::OutOfBounds
        } else if A::spec_access(buf, at) is None {
            A::spec_access_error(buf, at)
        } else {
            B::spec_access_error(buf, at + spec_second_offset::<A, B>())
        }
    }

    open spec fn spec_copy_optimized() -> bool {
        false
    }

    proof fn lemma_layout() {
        lemma_pair_layout::<A, B>();
    }

    proof fn lemma_copy_optimized(
        buf: Seq<u8>,
        v: (A::V, B::V),
        r1: PairResolver<A::Resolver, B::Resolver>,
        r2: PairResolver<A::Resolver, B::Resolver>,
        at1: int,
        at2: int,
    ) {
    }

    proof fn lemma_serialized_len(v: (A::V, B::V), start: int) {
        A::lemma_serialized_len(v.0, start);
        B::lemma_serialized_len(v.1, start + A::spec_serialized_len(v.0, start));
    }

    proof fn lemma_resolve_len(v: (A::V, B::V), r: PairResolver<A::Resolver, B::Resolver>, at: int) {
        lemma_pair_layout::<A, B>();
        A::lemma_resolve_len(v.0, r.first, at);
        B::lemma_resolve_len(v.1, r.second, at + spec_second_offset::<A, B>());
    }

    proof fn lemma_resolves_extends(
        buf: Seq<u8>,
        longer: Seq<u8>,
        v: (A::V, B::V),
        r: PairResolver<A::Resolver, B::Resolver>,
    ) {
        A::lemma_resolves_extends(buf, longer, v.0, r.first);
        B::lemma_resolves_extends(buf, longer, v.1, r.second);
    }

    proof fn lemma_access_extends(buf: Seq<u8>, longer: Seq<u8>, at: int) {
        A::lemma_access_extends(buf, longer, at);
        B::lemma_access_extends(buf, longer, at + spec_second_offset::<A, B>());
    }

    proof fn lemma_round_trip(
        buf: Seq<u8>,
        v: (A::V, B::V),
        r: PairResolver<A::Resolver, B::Resolver>,
        at: int,
    ) {
        lemma_pair_layout::<A, B>();
        A::lemma_layout();
        B::lemma_layout();
        let offset = spec_second_offset::<A, B>();
        let size = spec_pair_size::<A, B>();
        let align = spec_max_align(A::spec_align(), B::spec_align());
        let first = A::spec_resolve(v.0, r.first, at);
        let second = B::spec_resolve(v.1, r.second, at + offset);
        A::lemma_resolve_len(v.0, r.first, at);
        B::lemma_resolve_len(v.1, r.second, at + offset);
        let form = buf.subrange(at, at + size);
        assert(buf.subrange(at, at + A::spec_size()) =~= form.subrange(0, A::spec_size()));
        assert(form.subrange(0, A::spec_size()) =~= first);
        assert(buf.subrange(at + offset, at + offset + B::spec_size()) =~= form.subrange(
            offset,
            offset + B::spec_size(),
        ));
        assert(form.subrange(offset, offset + B::spec_size()) =~= second);
        lemma_part_aligned(at, 0, align, A::spec_align());
        lemma_part_aligned(at, offset, align, B::spec_align());
        assert(is_prefix(buf.subrange(0, at), buf.subrange(0, at + offset))) by {
            assert(buf.subrange(0, at + offset).subrange(0, at) =~= buf.subrange(0, at));
        }
        B::lemma_resolves_extends(buf.subrange(0, at), buf.subrange(0, at + offset), v.1, r.second);
        A::lemma_round_trip(buf, v.0, r.first, at);
        B::lemma_round_trip(buf, v.1, r.second, at + offset);
    }

    fn copy_optimization() -> (b: bool) {
        false
    }

    fn copy_slice(slice: &[(A, B)], out: &mut Vec<u8>) {
    }

    fn archived_size() -> (n: usize) {
        match pair_layout::<A, B>() {
            Some((_, size)) => size,
            None => Self::archived_align(),
        }
    }

    fn archived_align() -> (a: usize) {
        let first = A::archived_align();
        let second = B::archived_align();
        if first >= second {
            first
        } else {
            second
        }
    }

    fn serialize(&self, w: &mut Writer) -> (r: Result<
        PairResolver<A::Resolver, B::Resolver>,
        SerializeError,
    >) {
        let ghost before = w@;
        proof {
            A::lemma_serialized_len(self.0.deep_view(), before.len() as int);
            B::lemma_serialized_len(
                self.1.deep_view(),
                before.len() + A::spec_serialized_len(self.0.deep_view(), before.len() as int),
            );
        }
        if pair_layout::<A, B>().is_none() {
            return Err(SerializeError::Writer);
        }
        let first = match self.0.serialize(w) {
            Ok(first) => first,
            Err(e) => {
                return Err(e);
            },
        };
        let ghost mid = w@;
        let second = match self.1.serialize(w) {
            Ok(second) => second,
            Err(e) => {
                return Err(e);
            },
        };
        proof {
            A::lemma_resolves_extends(mid, w@, self.0.deep_view(), first);
            assert(is_prefix(before, w@)) by {
                assert(w@.subrange(0, before.len() as int) =~= mid.subrange(
                    0,
                    before.len() as int,
                ));
            }
        }
        Ok(PairResolver { first, second })
    }

    fn resolve(&self, r: PairResolver<A::Resolver, B::Resolver>, place: &mut Place) {
        proof {
            lemma_pair_layout::<A, B>();
            A::lemma_layout();
            B::lemma_layout();
        }
        let (offset, size) = match pair_layout::<A, B>() {
            Some(layout) => layout,
            None => unreached(),
        };
        let first_size = A::archived_size();
        let second_size = B::archived_size();
        let blank = zeroed(size);
        place.write(0, blank.as_slice());
        let ghost snap0 = place@;
        let ghost pos = place.spec_pos();
        proof {
            let align = spec_max_align(A::spec_align(), B::spec_align());
            lemma_part_aligned(pos, 0, align, A::spec_align());
            lemma_part_aligned(pos, offset as int, align, B::spec_align());
            assert(snap0 =~= zeros(size as nat));
        }
        let mut first = place.field(0, first_size);
        self.0.resolve(r.first, &mut first);
        proof {
            A::lemma_resolve_len(self.0.deep_view(), r.first, pos);
        }
        place.put(0, &first);
        let ghost snap1 = place@;
        let mut second = place.field(offset, second_size);
        self.1.resolve(r.second, &mut second);
        proof {
            B::lemma_resolve_len(self.1.deep_view(), r.second, pos + offset);
        }
        place.put(offset, &second);
        proof {
            assert(place@ =~= spec_pair_bytes::<A, B>(first@, second@));
        }
    }

    fn check(buf: &[u8], at: usize) -> (r: Result<(), AccessError>) {
        proof {
            lemma_pair_layout::<A, B>();
        }
        let (offset, size) = match pair_layout::<A, B>() {
            Some(layout) => layout,
            None => {
                return Err(AccessError::OutOfBounds);
            },
        };
        if at % Self::archived_align() != 0 {
            return Err(AccessError::Misaligned);
        }
        if at > buf.len() || buf.len() - at < size {
            return Err(AccessError::OutOfBounds);
        }
        match A::check(buf, at) {
            Ok(()) => {},
            Err(e) => {
                return Err(e);
            },
        }
        B::check(buf, at + offset)
    }

    fn deserialize(buf: &[u8], at: usize) -> (v: (A, B)) {
        let _ = buf.len();
        proof {
            lemma_pair_layout::<A, B>();
        }
        let offset = match pair_layout::<A, B>() {
            Some((offset, _)) => offset,
            None => unreached(),
        };
        (A::deserialize(buf, at), B::deserialize(buf, at + offset))
    }
}

/// The position of the second part of the archived pair at `at`: the
/// first part stands at `at` itself. The caller attests that the pair is
/// well formed.
pub fn second_position<A: Archive, B: Archive>(buf: &[u8], at: usize) -> (pos: usize)
    requires
        <(A, B) as Archive>::spec_access(buf@, at as int) is Some,
    ensures
        pos == at + spec_second_offset::<A, B>(),
        A::spec_access(buf@, at as int) == Some(
            <(A, B) as Archive>::spec_access(buf@, at as int).unwrap().0,
        ),
        B::spec_access(buf@, pos as int) == Some(
            <(A, B) as Archive>::spec_access(buf@, at as int).unwrap().1,
        ),
{
    let _ = buf.len();
    proof {
        lemma_pair_layout::<A, B>();
    }
    match pair_layout::<A, B>() {
        Some((offset, _)) => at + offset,
        None => unreached(),
    }
}

} // verus!
