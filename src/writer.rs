use vstd::prelude::*;
use crate::big_endian::be_bytes;
use crate::scalars::bits_of_i16;
use bytes::{BufMut, BytesMut};

verus! {

#[verifier::external_type_specification]
#[verifier::external_body]
pub struct ExBytesMut(bytes::BytesMut);

/// The bytes held by a `BytesMut`, in order.
pub uninterp spec fn written(b: bytes::BytesMut) -> Seq<u8>;

/// Largest number of bytes a buffer may hold: an allocation is at most `isize::MAX` bytes.
pub open spec fn fits_buffer(len: nat) -> bool {
    len <= isize::MAX
}

/// Relies on `BytesMut::new`: a buffer holding no bytes.
#[verifier::external_body]
fn buffer_new() -> (r: BytesMut)
    ensures
        written(r) == Seq::<u8>::empty(),
{
    BytesMut::new()
}

/// Relies on `BufMut::put_u8` of `BytesMut`: appends the byte.
#[verifier::external_body]
fn buffer_put_u8(b: &mut BytesMut, v: u8)
    requires
        fits_buffer(written(*old(b)).len() + 1),
    ensures
        written(*final(b)) == written(*old(b)).push(v),
{
    b.put_u8(v)
}

/// Relies on `BufMut::put_u16` of `BytesMut`: appends the two big-endian bytes.
#[verifier::external_body]
fn buffer_put_u16(b: &mut BytesMut, v: u16)
    requires
        fits_buffer(written(*old(b)).len() + 2),
    ensures
        written(*final(b)) == written(*old(b)) + be_bytes(v as nat, 2),
{
    b.put_u16(v)
}

/// Relies on `BufMut::put_i16` of `BytesMut`: appends the two big-endian bytes of the
/// two's-complement form.
#[verifier::external_body]
fn buffer_put_i16(b: &mut BytesMut, v: i16)
    requires
        fits_buffer(written(*old(b)).len() + 2),
    ensures
        written(*final(b)) == written(*old(b)) + be_bytes(bits_of_i16(v), 2),
{
    b.put_i16(v)
}

/// Relies on `BufMut::put_u64` of `BytesMut`: appends the eight big-endian bytes.
#[verifier::external_body]
fn buffer_put_u64(b: &mut BytesMut, v: u64)
    requires
        fits_buffer(written(*old(b)).len() + 8),
    ensures
        written(*final(b)) == written(*old(b)) + be_bytes(v as nat, 8),
{
    b.put_u64(v)
}

/// Relies on `BufMut::put_u128` of `BytesMut`: appends the sixteen big-endian bytes.
#[verifier::external_body]
fn buffer_put_u128(b: &mut BytesMut, v: u128)
    requires
        fits_buffer(written(*old(b)).len() + 16),
    ensures
        written(*final(b)) == written(*old(b)) + be_bytes(v as nat, 16),
{
    b.put_u128(v)
}

/// Relies on `BytesMut::freeze` and the slice's `to_vec`: the same bytes, owned.
#[verifier::external_body]
fn buffer_into_vec(b: BytesMut) -> (r: Vec<u8>)
    ensures
        r@ == written(b),
{
    b.freeze().to_vec()
}

/// An append-only output buffer.
pub struct ByteWriter {
    bytes: BytesMut,
}

/// Values that encode themselves onto the end of a byte stream.
pub trait ByteWritable: Sized {
    /// The bytes this value encodes to.
    spec fn spec_bytes(&self) -> Seq<u8>;

    fn write_to_bytes(self, writer: &mut ByteWriter)
        requires
            fits_buffer(old(writer).bytes().len() + self.spec_bytes().len()),
        ensures
            final(writer).bytes() == old(writer).bytes() + self.spec_bytes(),
    ;
}

/// Values whose encoding depends on a parameter kept out of the stream.
pub trait ByteWritableLike: Sized {
    type Param;

    /// The bytes this value encodes to under `param`.
    spec fn spec_bytes_like(&self, param: Self::Param) -> Seq<u8>;

    fn write_to_bytes_like(self, writer: &mut ByteWriter, param: &Self::Param)
        requires
            fits_buffer(old(writer).bytes().len() + self.spec_bytes_like(*param).len()),
        ensures
            final(writer).bytes() == old(writer).bytes() + self.spec_bytes_like(*param),
    ;
}

impl ByteWriter {
    /// The bytes written so far.
    pub closed spec fn bytes(&self) -> Seq<u8> {
        written(self.bytes)
    }

    pub fn new() -> (r: ByteWriter)
        ensures
            r.bytes() == Seq::<u8>::empty(),
    {
        ByteWriter { bytes: buffer_new() }
    }

    pub fn write<T: ByteWritable>(&mut self, value: T) -> (r: &mut Self)
        requires
            fits_buffer(old(self).bytes().len() + value.spec_bytes().len()),
        ensures
            r.bytes() == old(self).bytes() + value.spec_bytes(),
            *final(self) == *final(r),
    {
        value.write_to_bytes(self);
        self
    }

    pub fn write_like<T: ByteWritableLike<Param = P>, P>(&mut self, value: T, param: &P) -> (r: &mut Self)
        requires
            fits_buffer(old(self).bytes().len() + value.spec_bytes_like(*param).len()),
        ensures
            r.bytes() == old(self).bytes() + value.spec_bytes_like(*param),
            *final(self) == *final(r),
    {
        value.write_to_bytes_like(self, param);
        self
    }

    /// Finishes writing and hands out the bytes.
    pub fn freeze(self) -> (r: Vec<u8>)
        ensures
            r@ == self.bytes(),
    {
        buffer_into_vec(self.bytes)
    }

    pub fn put_u8(&mut self, v: u8)
        requires
            fits_buffer(old(self).bytes().len() + 1),
        ensures
            final(self).bytes() == old(self).bytes().push(v),
    {
        buffer_put_u8(&mut self.bytes, v)
    }

    pub fn put_u16(&mut self, v: u16)
        requires
            fits_buffer(old(self).bytes().len() + 2),
        ensures
            final(self).bytes() == old(self).bytes() + be_bytes(v as nat, 2),
    {
        buffer_put_u16(&mut self.bytes, v)
    }

    pub fn put_i16(&mut self, v: i16)
        requires
            fits_buffer(old(self).bytes().len() + 2),
        ensures
            final(self).bytes() == old(self).bytes() + be_bytes(bits_of_i16(v), 2),
    {
        buffer_put_i16(&mut self.bytes, v)
    }

    pub fn put_u64(&mut self, v: u64)
        requires
            fits_buffer(old(self).bytes().len() + 8),
        ensures
            final(self).bytes() == old(self).bytes() + be_bytes(v as nat, 8),
    {
        buffer_put_u64(&mut self.bytes, v)
    }

    pub fn put_u128(&mut self, v: u128)
        requires
            fits_buffer(old(self).bytes().len() + 16),
        ensures
            final(self).bytes() == old(self).bytes() + be_bytes(v as nat, 16),
    {
        buffer_put_u128(&mut self.bytes, v)
    }
}

} // verus!
