use vstd::prelude::*;
use crate::error::DecodeError;
use crate::reader::{spec_read_be, ByteReadable, ByteReadableLike, ByteReader};
use crate::writer::{fits_buffer, ByteWritable, ByteWriter};

verus! {

/// An owned sequence written without a length prefix: the receiver knows the count
/// from elsewhere, or takes the rest of the buffer.
#[derive(Debug)]
pub struct RawVec<T = u8>(pub Vec<T>);

/// Joins a first part, its byte count, and the outcome of reading what follows it.
pub open spec fn join_read<T>(first: Seq<T>, used: nat, rest: Result<(Seq<T>, nat), DecodeError>) -> Result<(Seq<T>, nat), DecodeError> {
    match rest {
        Ok((vs, m)) => Ok((first + vs, used + m)),
        Err(e) => Err(e),
    }
}

/// Reading elements one after another until `data` is used up.
pub open spec fn read_all<T: ByteReadable>(data: Seq<u8>) -> Result<(Seq<T>, nat), DecodeError>
    decreases data.len(),
{
    if data.len() == 0 {
        Ok((Seq::empty(), 0))
    } else {
        match T::spec_read(data) {
            Err(e) => Err(e),
            Ok((v, n)) => if 0 < n <= data.len() {
                join_read(seq![v], n, read_all::<T>(data.subrange(n as int, data.len() as int)))
            } else {
                Err(DecodeError::BufferUnderflow)
            },
        }
    }
}

/// Reading exactly `k` elements one after another from the front of `data`.
pub open spec fn read_n<T: ByteReadable>(data: Seq<u8>, k: nat) -> Result<(Seq<T>, nat), DecodeError>
    decreases k,
{
    if k == 0 {
        Ok((Seq::empty(), 0))
    } else {
        match T::spec_read(data) {
            Err(e) => Err(e),
            Ok((v, n)) => if n <= data.len() {
                join_read(
                    seq![v],
                    n,
                    read_n::<T>(data.subrange(n as int, data.len() as int), (k - 1) as nat),
                )
            } else {
                Err(DecodeError::BufferUnderflow)
            },
        }
    }
}

/// Every element read from at least `w` bytes takes exactly `w` of them.
pub open spec fn fixed_width<T: ByteReadable>(w: nat) -> bool {
    forall|d: Seq<u8>|
        d.len() >= w ==> #[trigger] T::spec_read(d) is Ok && T::spec_read(d)->Ok_0.1 == w
}

/// An element read from at least `w` bytes depends on its first `w` bytes alone.
pub open spec fn reads_within<T: ByteReadable>(w: nat) -> bool {
    forall|d: Seq<u8>, e: Seq<u8>| d.len() == w ==> #[trigger] T::spec_read(d + e) == T::spec_read(d)
}

/// The element that chunk `i` of width `w` of `data` reads as on its own.
pub open spec fn chunk_value<T: ByteReadable>(data: Seq<u8>, w: nat, i: int) -> T {
    T::spec_read(data.subrange(i * w, i * w + w))->Ok_0.0
}

/// The first element of `data` is the one its first chunk reads as.
proof fn lemma_first_chunk<T: ByteReadable>(data: Seq<u8>, w: nat)
    requires
        reads_within::<T>(w),
        data.len() >= w,
    ensures
        chunk_value::<T>(data, w, 0) == T::spec_read(data)->Ok_0.0,
{
    assert(0int * w == 0) by (nonlinear_arith);
    let d = data.subrange(0, w as int);
    let e = data.subrange(w as int, data.len() as int);
    assert(data =~= d + e);
    assert(T::spec_read(d + e) == T::spec_read(d));
}

/// Chunk `i` of `data` is chunk `i - 1` of what follows the first chunk.
proof fn lemma_chunk_shift<T: ByteReadable>(data: Seq<u8>, w: nat, i: int)
    requires
        1 <= i,
        i * w + w <= data.len(),
    ensures
        chunk_value::<T>(data.subrange(w as int, data.len() as int), w, i - 1) == chunk_value::<T>(
            data,
            w,
            i,
        ),
{
    assert(w + (i - 1) * w == i * w) by (nonlinear_arith);
    assert((i - 1) * w >= 0) by (nonlinear_arith)
        requires
            i >= 1,
    ;
    let rest = data.subrange(w as int, data.len() as int);
    assert(rest.subrange((i - 1) * w, (i - 1) * w + w) =~= data.subrange(i * w, i * w + w));
}

proof fn lemma_join_assoc<T>(a: Seq<T>, n: nat, b: Seq<T>, m: nat, r: Result<(Seq<T>, nat), DecodeError>)
    ensures
        join_read(a, n, join_read(b, m, r)) == join_read(a + b, n + m, r),
{
    match r {
        Ok((vs, k)) => {
            assert(a + (b + vs) =~= (a + b) + vs);
        },
        Err(e) => {},
    }
}

/// With a count, elements of a fixed width `w` are read as long as `count * w` bytes
/// remain, and exactly those bytes are taken, whatever follows.
pub proof fn lemma_read_count<T: ByteReadable>(data: Seq<u8>, count: nat, w: nat)
    requires
        fixed_width::<T>(w),
        reads_within::<T>(w),
        data.len() >= count * w,
    ensures
        read_n::<T>(data, count) is Ok,
        read_n::<T>(data, count)->Ok_0.0.len() == count,
        read_n::<T>(data, count)->Ok_0.1 == count * w,
        forall|i: int|
            0 <= i < count ==> #[trigger] read_n::<T>(data, count)->Ok_0.0[i] == chunk_value::<T>(
                data,
                w,
                i,
            ),
    decreases count,
{
    if count > 0 {
        assert(data.len() >= w) by (nonlinear_arith)
            requires
                data.len() >= count * w,
                count > 0,
        ;
        assert(T::spec_read(data) is Ok);
        let rest = data.subrange(w as int, data.len() as int);
        assert(rest.len() >= (count - 1) * w) by (nonlinear_arith)
            requires
                data.len() >= count * w,
                rest.len() == data.len() - w,
        ;
        let k = (count - 1) as nat;
        lemma_read_count::<T>(rest, k, w);
        assert(w + k * w == count * w) by (nonlinear_arith)
            requires
                k == count - 1,
        ;
        let v = T::spec_read(data)->Ok_0.0;
        assert(read_n::<T>(data, count) == join_read(seq![v], w, read_n::<T>(rest, k)));
        let vs = read_n::<T>(data, count)->Ok_0.0;
        let tail = read_n::<T>(rest, k)->Ok_0.0;
        assert(vs =~= seq![v] + tail);
        lemma_first_chunk::<T>(data, w);
        assert forall|i: int| 0 <= i < count implies #[trigger] vs[i] == chunk_value::<T>(
            data,
            w,
            i,
        ) by {
            if i > 0 {
                assert(i * w + w <= count * w) by (nonlinear_arith)
                    requires
                        i < count,
                ;
                lemma_chunk_shift::<T>(data, w, i);
                assert(vs[i] == tail[i - 1]);
            }
        }
    } else {
        assert(count * w == 0) by (nonlinear_arith)
            requires
                count == 0,
        ;
    }
}

/// Without a count, a buffer of `k` elements of a fixed width `w` is read whole into
/// `k` elements.
pub proof fn lemma_read_rest<T: ByteReadable>(data: Seq<u8>, k: nat, w: nat)
    requires
        fixed_width::<T>(w),
        reads_within::<T>(w),
        w > 0,
        data.len() == k * w,
    ensures
        read_all::<T>(data) is Ok,
        read_all::<T>(data)->Ok_0.0.len() == k,
        read_all::<T>(data)->Ok_0.1 == data.len(),
        forall|i: int|
            0 <= i < k ==> #[trigger] read_all::<T>(data)->Ok_0.0[i] == chunk_value::<T>(data, w, i),
    decreases k,
{
    if k > 0 {
        assert(data.len() >= w) by (nonlinear_arith)
            requires
                data.len() == k * w,
                k > 0,
        ;
        assert(T::spec_read(data) is Ok);
        let rest = data.subrange(w as int, data.len() as int);
        assert(rest.len() == (k - 1) * w) by (nonlinear_arith)
            requires
                data.len() == k * w,
                rest.len() == data.len() - w,
        ;
        lemma_read_rest::<T>(rest, (k - 1) as nat, w);
        let v = T::spec_read(data)->Ok_0.0;
        assert(read_all::<T>(data) == join_read(seq![v], w, read_all::<T>(rest)));
        let vs = read_all::<T>(data)->Ok_0.0;
        let tail = read_all::<T>(rest)->Ok_0.0;
        assert(vs =~= seq![v] + tail);
        lemma_first_chunk::<T>(data, w);
        assert forall|i: int| 0 <= i < k implies #[trigger] vs[i] == chunk_value::<T>(data, w, i)
            by {
            if i > 0 {
                assert(i * w + w <= k * w) by (nonlinear_arith)
                    requires
                        i < k,
                ;
                lemma_chunk_shift::<T>(data, w, i);
                assert(vs[i] == tail[i - 1]);
            }
        }
    } else {
        assert(data.len() == 0) by (nonlinear_arith)
            requires
                data.len() == k * w,
                k == 0,
        ;
    }
}

impl<T> RawVec<T> {
    pub fn len(&self) -> (r: usize)
        ensures
            r == self.0@.len(),
    {
        self.0.len()
    }

    pub fn inner(self) -> (r: Vec<T>)
        ensures
            r@ == self.0@,
    {
        self.0
    }
}

impl<T: ByteReadable> RawVec<T> {
    /// Reads elements until the reader is exhausted.
    pub fn read_rest(reader: &mut ByteReader) -> (r: Result<RawVec<T>, DecodeError>)
        requires
            old(reader).wf(),
        ensures
            final(reader).wf(),
            final(reader).buffer() == old(reader).buffer(),
            match read_all::<T>(old(reader).remaining()) {
                Ok((vs, n)) => r is Ok && r->Ok_0.0@ == vs && final(reader).position() == old(
                    reader,
                ).position() + n && final(reader).remaining().len() == 0,
                Err(e) => r == Err::<RawVec<T>, DecodeError>(e),
            },
    {
        let ghost data = reader.remaining();
        let mut inner: Vec<T> = Vec::new();
        while !reader.empty()
            invariant
                reader.wf(),
                reader.buffer() == old(reader).buffer(),
                data == old(reader).remaining(),
                old(reader).position() <= reader.position(),
                reader.remaining() == data.subrange(
                    reader.position() - old(reader).position(),
                    data.len() as int,
                ),
                read_all::<T>(data) == join_read(
                    inner@,
                    (reader.position() - old(reader).position()) as nat,
                    read_all::<T>(reader.remaining()),
                ),
            decreases reader.remaining().len(),
        {
            let ghost rem = reader.remaining();
            let ghost before = reader.position();
            proof {
                T::lemma_read_within(rem);
            }
            let value: T = match reader.read::<T>() {
                Ok(v) => v,
                Err(e) => {
                    return Err(e);
                },
            };
            proof {
                let n = T::spec_read(rem)->Ok_0.1;
                assert(reader.remaining() =~= rem.subrange(n as int, rem.len() as int));
                assert(reader.remaining() =~= data.subrange(
                    reader.position() - old(reader).position(),
                    data.len() as int,
                ));
                lemma_join_assoc(
                    inner@,
                    (before - old(reader).position()) as nat,
                    seq![value],
                    n,
                    read_all::<T>(reader.remaining()),
                );
            }
            let ghost prior = inner@;
            inner.push(value);
            assert(inner@ =~= prior + seq![value]);
        }
        assert(inner@ + Seq::<T>::empty() =~= inner@);
        Ok(RawVec(inner))
    }
}

impl<T: ByteReadable> ByteReadableLike for RawVec<T> {
    type Param = usize;

    open spec fn spec_read_like(data: Seq<u8>, param: usize, r: Result<RawVec<T>, DecodeError>, n: nat) -> bool {
        match read_n::<T>(data, param as nat) {
            Ok((vs, m)) => r is Ok && r->Ok_0.0@ == vs && n == m,
            Err(e) => r == Err::<RawVec<T>, DecodeError>(e),
        }
    }

    fn read_from_bytes_like(reader: &mut ByteReader, param: &usize) -> (r: Result<RawVec<T>, DecodeError>) {
        let len = *param;
        let ghost data = reader.remaining();
        let room = reader.remaining_len();
        let mut inner: Vec<T> = Vec::with_capacity(if len < room {
            len
        } else {
            room
        });
        let mut i: usize = 0;
        while i < len
            invariant
                reader.wf(),
                reader.buffer() == old(reader).buffer(),
                data == old(reader).remaining(),
                len == *param,
                i <= len,
                inner@.len() == i,
                old(reader).position() <= reader.position(),
                reader.remaining() == data.subrange(
                    reader.position() - old(reader).position(),
                    data.len() as int,
                ),
                read_n::<T>(data, len as nat) == join_read(
                    inner@,
                    (reader.position() - old(reader).position()) as nat,
                    read_n::<T>(reader.remaining(), (len - i) as nat),
                ),
            decreases len - i,
        {
            let ghost rem = reader.remaining();
            let ghost before = reader.position();
            proof {
                T::lemma_read_within(rem);
            }
            let value: T = match reader.read::<T>() {
                Ok(v) => v,
                Err(e) => {
                    return Err(e);
                },
            };
            proof {
                let n = T::spec_read(rem)->Ok_0.1;
                assert(reader.remaining() =~= rem.subrange(n as int, rem.len() as int));
                assert(reader.remaining() =~= data.subrange(
                    reader.position() - old(reader).position(),
                    data.len() as int,
                ));
                lemma_join_assoc(
                    inner@,
                    (before - old(reader).position()) as nat,
                    seq![value],
                    n,
                    read_n::<T>(reader.remaining(), (len - i - 1) as nat),
                );
            }
            let ghost prior = inner@;
            inner.push(value);
            assert(inner@ =~= prior + seq![value]);
            i = i + 1;
        }
        assert(inner@ + Seq::<T>::empty() =~= inner@);
        Ok(RawVec(inner))
    }
}

impl From<Vec<u8>> for RawVec<u8> {
    fn from(data: Vec<u8>) -> (r: RawVec<u8>) {
        RawVec(data)
    }
}

impl vstd::std_specs::convert::FromSpecImpl<Vec<u8>> for RawVec<u8> {
    open spec fn obeys_from_spec() -> bool {
        true
    }

    open spec fn from_spec(v: Vec<u8>) -> RawVec<u8> {
        RawVec(v)
    }
}

impl ByteWritable for RawVec<u8> {
    open spec fn spec_bytes(&self) -> Seq<u8> {
        self.0@
    }

    fn write_to_bytes(self, writer: &mut ByteWriter) {
        let items = self.inner();
        let mut i: usize = 0;
        while i < items.len()
            invariant
                items@ == self.0@,
                i <= items@.len(),
                fits_buffer(old(writer).bytes().len() + items@.len()),
                writer.bytes() == old(writer).bytes() + items@.take(i as int),
            decreases items@.len() - i,
        {
            writer.write(items[i]);
            i = i + 1;
            assert(writer.bytes() =~= old(writer).bytes() + items@.take(i as int));
        }
        assert(items@.take(i as int) =~= items@);
    }
}

} // verus!

verus! {

proof fn lemma_be_prefix(n: nat)
    ensures
        forall|d: Seq<u8>, e: Seq<u8>|
            d.len() == n ==> #[trigger] spec_read_be(d + e, n) == spec_read_be(d, n),
{
    assert forall|d: Seq<u8>, e: Seq<u8>| d.len() == n implies #[trigger] spec_read_be(d + e, n)
        == spec_read_be(d, n) by {
        assert((d + e).take(n as int) =~= d.take(n as int));
    }
}

/// The fixed-width scalars each take exactly their width and look no further, so a
/// `RawVec` of them reads chunk by chunk; a boolean looks no further than its byte.
pub proof fn lemma_scalar_widths()
    ensures
        fixed_width::<u8>(1) && reads_within::<u8>(1),
        fixed_width::<u16>(2) && reads_within::<u16>(2),
        fixed_width::<i16>(2) && reads_within::<i16>(2),
        fixed_width::<u64>(8) && reads_within::<u64>(8),
        fixed_width::<u128>(16) && reads_within::<u128>(16),
        reads_within::<bool>(1),
{
    lemma_be_prefix(1);
    lemma_be_prefix(2);
    lemma_be_prefix(8);
    lemma_be_prefix(16);
    assert forall|d: Seq<u8>, e: Seq<u8>| d.len() == 1 implies #[trigger] u8::spec_read(d + e)
        == u8::spec_read(d) by {
        assert(spec_read_be(d + e, 1) == spec_read_be(d, 1));
    }
    assert forall|d: Seq<u8>, e: Seq<u8>| d.len() == 1 implies #[trigger] bool::spec_read(d + e)
        == bool::spec_read(d) by {
        assert(spec_read_be(d + e, 1) == spec_read_be(d, 1));
    }
    assert forall|d: Seq<u8>, e: Seq<u8>| d.len() == 2 implies #[trigger] u16::spec_read(d + e)
        == u16::spec_read(d) by {
        assert(spec_read_be(d + e, 2) == spec_read_be(d, 2));
    }
    assert forall|d: Seq<u8>, e: Seq<u8>| d.len() == 2 implies #[trigger] i16::spec_read(d + e)
        == i16::spec_read(d) by {
        assert(spec_read_be(d + e, 2) == spec_read_be(d, 2));
    }
    assert forall|d: Seq<u8>, e: Seq<u8>| d.len() == 8 implies #[trigger] u64::spec_read(d + e)
        == u64::spec_read(d) by {
        assert(spec_read_be(d + e, 8) == spec_read_be(d, 8));
    }
    assert forall|d: Seq<u8>, e: Seq<u8>| d.len() == 16 implies #[trigger] u128::spec_read(d + e)
        == u128::spec_read(d) by {
        assert(spec_read_be(d + e, 16) == spec_read_be(d, 16));
    }
}

} // verus!
