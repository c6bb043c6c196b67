//! Places: the write targets of the resolve phase.

use vstd::prelude::*;
use crate::error::SerializeError;
use crate::ser::{zeros, lemma_zeros_push, Writer, MAX_LEN};

verus! {

/// A vector of `n` zero bytes.
pub fn zeroed(n: usize) -> (v: Vec<u8>)
    ensures
        v@ == zeros(n as nat),
{
    let mut v: Vec<u8> = Vec::new();
    let mut i: usize = 0;
    assert(v@ =~= zeros(0));
    while i < n
        invariant
            i <= n,
            v@ == zeros(i as nat),
        decreases n - i,
    {
        v.push(0u8);
        proof {
            lemma_zeros_push(i as nat);
        }
        i = i + 1;
    }
    v
}

/// `dst` with the bytes from `offset` on replaced by `src`.
pub open spec fn spec_overwrite(dst: Seq<u8>, offset: int, src: Seq<u8>) -> Seq<u8> {
    Seq::new(
        dst.len(),
        |i: int|
            if offset <= i < offset + src.len() {
                src[i - offset]
            } else {
                dst[i]
            },
    )
}

/// What a write into a sequence leaves: the written range holds the new
/// bytes, and a range that the write does not touch holds the old ones.
pub proof fn lemma_overwrite_range(dst: Seq<u8>, offset: int, src: Seq<u8>, from: int, to: int)
    requires
        0 <= offset,
        offset + src.len() <= dst.len(),
        0 <= from <= to <= dst.len(),
    ensures
        spec_overwrite(dst, offset, src).len() == dst.len(),
        from == offset && to == offset + src.len() ==> spec_overwrite(dst, offset, src).subrange(
            from,
            to,
        ) == src,
        to <= offset || offset + src.len() <= from ==> spec_overwrite(dst, offset, src).subrange(
            from,
            to,
        ) == dst.subrange(from, to),
{
    let out = spec_overwrite(dst, offset, src);
    if from == offset && to == offset + src.len() {
        assert(out.subrange(from, to) =~= src);
    }
    if to <= offset || offset + src.len() <= from {
        assert(out.subrange(from, to) =~= dst.subrange(from, to));
    }
}

/// The future location of one archived value: a position in the output
/// buffer and the bytes that will stand there.
///
/// A place remembers, as ghost state, the bytes of the buffer that were
/// written before it was made (its arena): the relative pointers written
/// into the place lead back into them.
pub struct Place {
    pos: usize,
    bytes: Vec<u8>,
    arena: Ghost<Seq<u8>>,
}

impl View for Place {
    type V = Seq<u8>;

    closed spec fn view(&self) -> Seq<u8> {
        self.bytes@
    }
}

impl Place {
    /// The position of the place's first byte in the output buffer.
    pub closed spec fn spec_pos(&self) -> int {
        self.pos as int
    }

    /// The bytes of the output buffer that precede the place.
    pub closed spec fn arena(&self) -> Seq<u8> {
        self.arena@
    }

    /// The arena ends before the place begins, and the place ends within
    /// the largest buffer.
    pub open spec fn wf(&self) -> bool {
        self.arena().len() <= self.spec_pos() && self.spec_pos() + self@.len() <= MAX_LEN
    }

    /// The position of the place's first byte in the output buffer.
    pub fn pos(&self) -> (p: usize)
        ensures
            p == self.spec_pos(),
    {
        self.pos
    }

    /// The number of bytes of the place.
    pub fn len(&self) -> (n: usize)
        ensures
            n == self@.len(),
    {
        self.bytes.len()
    }

    /// Writes `src` into the place, `offset` bytes from its start.
    pub fn write(&mut self, offset: usize, src: &[u8])
        requires
            offset + src@.len() <= old(self)@.len(),
        ensures
            final(self)@ == spec_overwrite(old(self)@, offset as int, src@),
            final(self).spec_pos() == old(self).spec_pos(),
            final(self).arena() == old(self).arena(),
            final(self).wf() == old(self).wf(),
    {
        let mut i: usize = 0;
        let total = self.bytes.len();
        assert(self.bytes@ =~= spec_overwrite(old(self).bytes@, offset as int, src@.take(0)));
        while i < src.len()
            invariant
                i <= src@.len(),
                offset + src@.len() <= total,
                offset + src@.len() <= old(self).bytes@.len(),
                self.pos == old(self).pos,
                self.arena@ == old(self).arena@,
                self.bytes@.len() == old(self).bytes@.len(),
                self.bytes@ == spec_overwrite(old(self).bytes@, offset as int, src@.take(i as int)),
            decreases src@.len() - i,
        {
            self.bytes[offset + i] = src[i];
            i = i + 1;
            assert(self.bytes@ =~= spec_overwrite(
                old(self).bytes@,
                offset as int,
                src@.take(i as int),
            ));
        }
        assert(src@.take(i as int) =~= src@);
    }

    /// A place for a field: `size` zero bytes that will stand `offset`
    /// bytes into this place. It shares this place's arena.
    pub fn field(&self, offset: usize, size: usize) -> (f: Place)
        requires
            self.wf(),
            offset + size <= self@.len(),
        ensures
            f.wf(),
            f@ == zeros(size as nat),
            f.spec_pos() == self.spec_pos() + offset,
            f.arena() == self.arena(),
    {
        Place { pos: self.pos + offset, bytes: zeroed(size), arena: self.arena }
    }

    /// Stores a field's bytes `offset` bytes into this place.
    pub fn put(&mut self, offset: usize, field: &Place)
        requires
            offset + field@.len() <= old(self)@.len(),
        ensures
            final(self)@ == spec_overwrite(old(self)@, offset as int, field@),
            final(self).spec_pos() == old(self).spec_pos(),
            final(self).arena() == old(self).arena(),
            final(self).wf() == old(self).wf(),
    {
        self.write(offset, field.bytes.as_slice());
    }

    /// The bytes written into the place.
    pub fn as_slice(&self) -> (s: &[u8])
        ensures
            s@ == self@,
    {
        self.bytes.as_slice()
    }
}

impl Writer {
    /// A place of `size` zero bytes at the current write position, or an
    /// error when the writer has no room for it.
    pub fn place(&self, size: usize) -> (r: Result<Place, SerializeError>)
        requires
            self.wf(),
        ensures
            r is Ok <==> self@.len() + size <= self.spec_limit(),
            r matches Ok(p) ==> {
                &&& p.wf()
                &&& p@ == zeros(size as nat)
                &&& p.spec_pos() == self@.len()
                &&& p.arena() == self@
            },
            r matches Err(e) ==> e == SerializeError::Writer,
    {
        let pos = self.pos();
        if size > self.limit() - pos {
            return Err(SerializeError::Writer);
        }
        Ok(Place { pos, bytes: zeroed(size), arena: Ghost(self@) })
    }

    /// Appends the bytes of a place that was made at the current position.
    pub fn commit(&mut self, place: &Place) -> (r: Result<(), SerializeError>)
        requires
            old(self).wf(),
        ensures
            final(self).wf(),
            final(self).spec_limit() == old(self).spec_limit(),
            r is Ok <==> old(self)@.len() + place@.len() <= old(self).spec_limit(),
            r is Ok ==> final(self)@ == old(self)@ + place@,
            r is Err ==> r == Err::<(), SerializeError>(SerializeError::Writer) && final(self)@
                == old(self)@,
    {
        self.write(place.as_slice())
    }
}

} // verus!
