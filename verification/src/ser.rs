//! The writer: an append-only sink of bounded capacity.

use vstd::prelude::*;
use crate::error::SerializeError;

verus! {

/// The largest length a buffer may reach: every offset between two
/// positions of a buffer must fit a signed 32-bit relative pointer.
pub const MAX_LEN: usize = 0x7fff_ffff;

/// The number of bytes to add to `pos` to reach the next multiple of `align`.
pub open spec fn spec_padding(pos: int, align: int) -> int {
    if align <= 0 || pos % align == 0 {
        0
    } else {
        align - pos % align
    }
}

/// `n` zero bytes.
pub open spec fn zeros(n: nat) -> Seq<u8> {
    Seq::new(n, |i: int| 0u8)
}

/// Appending `n` zero bytes one at a time gives `zeros(n)`.
pub proof fn lemma_zeros_push(n: nat)
    ensures
        zeros(n).push(0u8) == zeros(n + 1),
{
    assert(zeros(n).push(0u8) =~= zeros(n + 1));
}

/// Padding brings a position to the next multiple of the alignment and
/// is shorter than the alignment.
pub proof fn lemma_padding(pos: int, align: int)
    requires
        align > 0,
    ensures
        (pos + spec_padding(pos, align)) % align == 0,
        0 <= spec_padding(pos, align) < align,
{
    if pos % align != 0 {
        let q = pos / align;
        let r = pos % align;
        assert(pos == q * align + r) by {
            vstd::arithmetic::div_mod::lemma_fundamental_div_mod(pos, align);
            assert(q * align == align * q) by (nonlinear_arith);
        }
        assert(pos + (align - r) == (q + 1) * align) by (nonlinear_arith)
            requires
                pos == q * align + r,
        ;
        vstd::arithmetic::div_mod::lemma_mod_multiples_basic(q + 1, align);
    }
}

/// Appends `bytes` to `buf`.
pub fn append_bytes(buf: &mut Vec<u8>, bytes: &[u8])
    ensures
        final(buf)@ == old(buf)@ + bytes@,
{
    let mut i: usize = 0;
    while i < bytes.len()
        invariant
            i <= bytes@.len(),
            buf@ == old(buf)@ + bytes@.take(i as int),
        decreases bytes@.len() - i,
    {
        buf.push(bytes[i]);
        i = i + 1;
        assert(buf@ =~= old(buf)@ + bytes@.take(i as int));
    }
    assert(bytes@.take(i as int) =~= bytes@);
}

/// An append-only byte sink with a fixed capacity.
///
/// The bytes written so far are the writer's view. A write that would
/// exceed the capacity is rejected and leaves the writer unchanged.
pub struct Writer {
    buf: Vec<u8>,
    limit: usize,
}

impl View for Writer {
    type V = Seq<u8>;

    closed spec fn view(&self) -> Seq<u8> {
        self.buf@
    }
}

impl Writer {
    /// The writer holds no more than its capacity, and its capacity is at
    /// most `MAX_LEN`.
    pub open spec fn wf(&self) -> bool {
        self@.len() <= self.spec_limit() <= MAX_LEN
    }

    /// The capacity of the writer, in bytes.
    pub closed spec fn spec_limit(&self) -> nat {
        self.limit as nat
    }

    /// An empty writer that accepts up to `limit` bytes (at most `MAX_LEN`).
    pub fn new(limit: usize) -> (w: Writer)
        ensures
            w.wf(),
            w@ == Seq::<u8>::empty(),
            w.spec_limit() == if limit <= MAX_LEN { limit } else { MAX_LEN },
    {
        Writer { buf: Vec::new(), limit: if limit <= MAX_LEN { limit } else { MAX_LEN } }
    }

    /// The current write position: the number of bytes written so far.
    pub fn pos(&self) -> (p: usize)
        requires
            self.wf(),
        ensures
            p == self@.len(),
            p <= self.spec_limit() <= MAX_LEN,
    {
        self.buf.len()
    }

    /// The capacity of the writer.
    pub fn limit(&self) -> (l: usize)
        requires
            self.wf(),
        ensures
            l == self.spec_limit(),
            self@.len() <= l <= MAX_LEN,
    {
        self.limit
    }

    /// Appends `bytes`. The write is rejected, and nothing is written, when
    /// the bytes do not fit the capacity that is left.
    pub fn write(&mut self, bytes: &[u8]) -> (r: Result<(), SerializeError>)
        requires
            old(self).wf(),
        ensures
            final(self).wf(),
            final(self).spec_limit() == old(self).spec_limit(),
            r is Ok <==> old(self)@.len() + bytes@.len() <= old(self).spec_limit(),
            r is Ok ==> final(self)@ == old(self)@ + bytes@,
            r is Err ==> r == Err::<(), SerializeError>(SerializeError::Writer) && final(self)@
                == old(self)@,
    {
        if bytes.len() > self.limit - self.buf.len() {
            return Err(SerializeError::Writer);
        }
        let mut i: usize = 0;
        while i < bytes.len()
            invariant
                i <= bytes@.len(),
                self.limit == old(self).limit,
                old(self).buf@.len() + bytes@.len() <= self.limit <= MAX_LEN,
                self.buf@ == old(self).buf@ + bytes@.take(i as int),
            decreases bytes@.len() - i,
        {
            self.buf.push(bytes[i]);
            i = i + 1;
            assert(self.buf@ =~= old(self).buf@ + bytes@.take(i as int));
        }
        assert(bytes@.take(i as int) =~= bytes@);
        Ok(())
    }

    /// Appends `n` zero bytes, or rejects the write when they do not fit.
    pub fn pad(&mut self, n: usize) -> (r: Result<(), SerializeError>)
        requires
            old(self).wf(),
        ensures
            final(self).wf(),
            final(self).spec_limit() == old(self).spec_limit(),
            r is Ok <==> old(self)@.len() + n <= old(self).spec_limit(),
            r is Ok ==> final(self)@ == old(self)@ + zeros(n as nat),
            r is Err ==> r == Err::<(), SerializeError>(SerializeError::Writer) && final(self)@
                == old(self)@,
    {
        if n > self.limit - self.buf.len() {
            return Err(SerializeError::Writer);
        }
        let mut i: usize = 0;
        while i < n
            invariant
                i <= n,
                self.limit == old(self).limit,
                old(self).buf@.len() + n <= self.limit <= MAX_LEN,
                self.buf@ == old(self).buf@ + zeros(i as nat),
            decreases n - i,
        {
            self.buf.push(0u8);
            proof {
                lemma_zeros_push(i as nat);
                assert(self.buf@ =~= old(self).buf@ + zeros((i + 1) as nat));
            }
            i = i + 1;
        }
        Ok(())
    }

    /// Pads with zero bytes up to the next multiple of `align` and returns
    /// the position reached.
    pub fn align(&mut self, align: usize) -> (r: Result<usize, SerializeError>)
        requires
            old(self).wf(),
            align > 0,
        ensures
            final(self).wf(),
            final(self).spec_limit() == old(self).spec_limit(),
            r is Ok <==> old(self)@.len() + spec_padding(old(self)@.len() as int, align as int) <= old(
                self,
            ).spec_limit(),
            r matches Ok(pos) ==> {
                &&& final(self)@ == old(self)@ + zeros(
                    spec_padding(old(self)@.len() as int, align as int) as nat,
                )
                &&& pos == final(self)@.len()
                &&& pos % align == 0
            },
            r is Err ==> r == Err::<usize, SerializeError>(SerializeError::Writer) && final(self)@
                == old(self)@,
    {
        proof {
            lemma_padding(self.buf@.len() as int, align as int);
        }
        let rem = self.buf.len() % align;
        let n = if rem == 0 { 0 } else { align - rem };
        match self.pad(n) {
            Ok(()) => Ok(self.pos()),
            Err(e) => Err(e),
        }
    }

    /// Hands the bytes written over, ending the writer.
    pub fn into_bytes(self) -> (bytes: Vec<u8>)
        ensures
            bytes@ == self@,
    {
        self.buf
    }

    /// The bytes written so far.
    pub fn as_slice(&self) -> (bytes: &[u8])
        ensures
            bytes@ == self@,
    {
        self.buf.as_slice()
    }
}

} // verus!
