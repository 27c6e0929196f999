use vstd::prelude::*;
use crate::big_endian::{be_value, lemma_be_value_bound, lemma_pow256_pos, lemma_pow256_values, pow256};
use crate::error::DecodeError;

verus! {

/// A consuming cursor over a received byte buffer.
pub struct ByteReader<'a> {
    data: &'a [u8],
    pos: usize,
}

/// Values that decode from the front of a byte stream on their own.
pub trait ByteReadable: Sized {
    /// The value at the front of `data` and the number of bytes it takes, or why it cannot be read.
    spec fn spec_read(data: Seq<u8>) -> Result<(Self, nat), DecodeError>;

    /// A successful read takes at least one byte and no more than there are.
    proof fn lemma_read_within(data: Seq<u8>)
        ensures
            Self::spec_read(data) is Ok ==> 0 < Self::spec_read(data)->Ok_0.1 <= data.len(),
    ;

    fn read_from_bytes(reader: &mut ByteReader) -> (r: Result<Self, DecodeError>)
        requires
            old(reader).wf(),
        ensures
            final(reader).wf(),
            final(reader).buffer() == old(reader).buffer(),
            old(reader).position() <= final(reader).position(),
            reads_as(old(reader).remaining(), Self::spec_read(old(reader).remaining()), r),
            r is Ok ==> final(reader).position() == old(reader).position() + Self::spec_read(
                old(reader).remaining(),
            )->Ok_0.1,
    ;
}

/// Values whose decoding needs a parameter that the stream does not carry.
pub trait ByteReadableLike: Sized {
    type Param;

    /// Holds when decoding with `param` from the front of `data` may give `r` after `n` bytes.
    spec fn spec_read_like(data: Seq<u8>, param: Self::Param, r: Result<Self, DecodeError>, n: nat) -> bool;

    fn read_from_bytes_like(reader: &mut ByteReader, param: &Self::Param) -> (r: Result<
        Self,
        DecodeError,
    >)
        requires
            old(reader).wf(),
        ensures
            final(reader).wf(),
            final(reader).buffer() == old(reader).buffer(),
            old(reader).position() <= final(reader).position(),
            Self::spec_read_like(
                old(reader).remaining(),
                *param,
                r,
                (final(reader).position() - old(reader).position()) as nat,
            ),
    ;
}

/// `r` is what the outcome `spec` of a read describes.
pub open spec fn reads_as<T>(data: Seq<u8>, spec: Result<(T, nat), DecodeError>, r: Result<T, DecodeError>) -> bool {
    match spec {
        Ok((v, n)) => r == Ok::<T, DecodeError>(v),
        Err(e) => r == Err::<T, DecodeError>(e),
    }
}

/// The big-endian number in the first `n` bytes of `data`.
pub open spec fn spec_read_be(data: Seq<u8>, n: nat) -> Result<(nat, nat), DecodeError> {
    if data.len() < n {
        Err(DecodeError::BufferUnderflow)
    } else {
        Ok((be_value(data.take(n as int)), n))
    }
}

impl<'a> ByteReader<'a> {
    /// The whole buffer.
    pub closed spec fn buffer(&self) -> Seq<u8> {
        self.data@
    }

    /// How many bytes have been consumed.
    pub closed spec fn position(&self) -> nat {
        self.pos as nat
    }

    pub open spec fn wf(&self) -> bool {
        self.position() <= self.buffer().len()
    }

    /// The bytes not consumed yet.
    pub open spec fn remaining(&self) -> Seq<u8> {
        self.buffer().subrange(self.position() as int, self.buffer().len() as int)
    }

    pub fn new(data: &'a [u8]) -> (r: ByteReader<'a>)
        ensures
            r.wf(),
            r.buffer() == data@,
            r.position() == 0,
    {
        ByteReader { data, pos: 0 }
    }

    /// Whether every byte has been consumed.
    pub fn empty(&self) -> (r: bool)
        requires
            self.wf(),
        ensures
            r == (self.remaining().len() == 0),
    {
        self.pos >= self.data.len()
    }

    /// How many bytes are left.
    pub fn remaining_len(&self) -> (r: usize)
        requires
            self.wf(),
        ensures
            r == self.remaining().len(),
    {
        self.data.len() - self.pos
    }

    /// Consumes `n` bytes, at most sixteen, as one big-endian number.
    pub fn read_be(&mut self, n: usize) -> (r: Result<u128, DecodeError>)
        requires
            old(self).wf(),
            n <= 16,
        ensures
            final(self).wf(),
            final(self).buffer() == old(self).buffer(),
            match spec_read_be(old(self).remaining(), n as nat) {
                Ok((v, k)) => r is Ok && r->Ok_0 as nat == v && final(self).position() == old(
                    self,
                ).position() + k,
                Err(e) => r == Err::<u128, DecodeError>(e) && final(self).position() == old(
                    self,
                ).position(),
            },
            r is Ok ==> r->Ok_0 < pow256(n as nat),
    {
        if self.data.len() - self.pos < n {
            return Err(DecodeError::BufferUnderflow);
        }
        assert(self.data@.len() == self.data.len());
        let ghost start = self.pos as int;
        let mut acc: u128 = 0;
        let mut i: usize = 0;
        proof {
            lemma_pow256_values();
        }
        while i < n
            invariant
                self.wf(),
                self.pos == start,
                i <= n <= 16,
                start + n <= self.data@.len() <= usize::MAX,
                acc as nat == be_value(self.data@.subrange(start, start + i)),
                pow256(16) == 0x1_0000_0000_0000_0000_0000_0000_0000_0000,
            decreases n - i,
        {
            let ghost prefix = self.data@.subrange(start, start + i);
            let ghost next = self.data@.subrange(start, start + i + 1);
            proof {
                assert(next.drop_last() =~= prefix);
                lemma_be_value_bound(prefix);
                lemma_pow_mono(i as nat, 15);
                let q = pow256(i as nat);
                assert((acc as nat) * 256 + 255 < pow256(16)) by (nonlinear_arith)
                    requires
                        acc < q,
                        q <= pow256(15),
                        pow256(16) == 256 * pow256(15),
                ;
            }
            acc = acc * 256 + self.data[self.pos + i] as u128;
            i = i + 1;
        }
        proof {
            assert(self.data@.subrange(start, start + n) =~= self.remaining().take(n as int));
            lemma_be_value_bound(self.remaining().take(n as int));
        }
        self.pos = self.pos + n;
        Ok(acc)
    }

    /// Consumes `n` bytes and returns them.
    pub fn read_bytes(&mut self, n: usize) -> (r: Result<Vec<u8>, DecodeError>)
        requires
            old(self).wf(),
        ensures
            final(self).wf(),
            final(self).buffer() == old(self).buffer(),
            n <= old(self).remaining().len() ==> r is Ok && r->Ok_0@ == old(self).remaining().take(
                n as int,
            ) && final(self).position() == old(self).position() + n,
            n > old(self).remaining().len() ==> r == Err::<Vec<u8>, DecodeError>(
                DecodeError::BufferUnderflow,
            ) && final(self).position() == old(self).position(),
    {
        if self.data.len() - self.pos < n {
            return Err(DecodeError::BufferUnderflow);
        }
        assert(self.data@.len() == self.data.len());
        let mut out: Vec<u8> = Vec::with_capacity(n);
        let mut i: usize = 0;
        while i < n
            invariant
                self.wf(),
                i <= n,
                self.pos + n <= self.data@.len() <= usize::MAX,
                out@ == self.data@.subrange(self.pos as int, self.pos + i),
            decreases n - i,
        {
            out.push(self.data[self.pos + i]);
            i = i + 1;
            assert(out@ =~= self.data@.subrange(self.pos as int, self.pos + i));
        }
        assert(out@ =~= self.remaining().take(n as int));
        self.pos = self.pos + n;
        Ok(out)
    }

    pub fn read<T: ByteReadable>(&mut self) -> (r: Result<T, DecodeError>)
        requires
            old(self).wf(),
        ensures
            final(self).wf(),
            final(self).buffer() == old(self).buffer(),
            old(self).position() <= final(self).position(),
            reads_as(old(self).remaining(), T::spec_read(old(self).remaining()), r),
            r is Ok ==> final(self).position() == old(self).position() + T::spec_read(
                old(self).remaining(),
            )->Ok_0.1,
    {
        T::read_from_bytes(self)
    }

    pub fn read_like<T: ByteReadableLike>(&mut self, param: &T::Param) -> (r: Result<T, DecodeError>)
        requires
            old(self).wf(),
        ensures
            final(self).wf(),
            final(self).buffer() == old(self).buffer(),
            old(self).position() <= final(self).position(),
            T::spec_read_like(
                old(self).remaining(),
                *param,
                r,
                (final(self).position() - old(self).position()) as nat,
            ),
    {
        T::read_from_bytes_like(self, param)
    }
}

proof fn lemma_pow_mono(a: nat, b: nat)
    requires
        a <= b,
    ensures
        pow256(a) <= pow256(b),
    decreases b,
{
    if a < b {
        lemma_pow_mono(a, (b - 1) as nat);
        lemma_pow256_pos((b - 1) as nat);
    }
}

} // verus!
