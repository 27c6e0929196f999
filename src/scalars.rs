use vstd::prelude::*;
use crate::big_endian::{be_bytes, be_value, lemma_be_round_trip, lemma_pow256_values, pow256};
use crate::error::DecodeError;
use crate::reader::{spec_read_be, ByteReadable, ByteReader};
use crate::writer::{ByteWritable, ByteWriter};

verus! {

/// The 16-bit two's-complement pattern of `v`.
pub open spec fn bits_of_i16(v: i16) -> nat {
    if v >= 0 {
        v as nat
    } else {
        (v + 0x1_0000) as nat
    }
}

/// Reinterprets a 16-bit pattern as two's complement.
pub open spec fn i16_of_bits(v: nat) -> i16 {
    if v < 0x8000 {
        v as i16
    } else {
        (v - 0x1_0000) as i16
    }
}

/// A byte reads as itself and takes one byte.
pub proof fn lemma_read_u8(data: Seq<u8>)
    ensures
        data.len() >= 1 ==> u8::spec_read(data) == Ok::<(u8, nat), DecodeError>((data[0], 1)),
        data.len() == 0 ==> u8::spec_read(data) == Err::<(u8, nat), DecodeError>(
            DecodeError::BufferUnderflow,
        ),
{
    if data.len() >= 1 {
        let t = data.take(1);
        assert(t.drop_last() =~= Seq::<u8>::empty());
        assert(be_value(t.drop_last()) == 0);
        assert(t.last() == data[0]);
        assert(be_value(t) == data[0]);
    }
}

impl ByteReadable for u8 {
    open spec fn spec_read(data: Seq<u8>) -> Result<(u8, nat), DecodeError> {
        match spec_read_be(data, 1) {
            Ok((v, n)) => Ok((v as u8, n)),
            Err(e) => Err(e),
        }
    }

    proof fn lemma_read_within(data: Seq<u8>) {
    }

    fn read_from_bytes(reader: &mut ByteReader) -> (r: Result<u8, DecodeError>) {
        proof {
            lemma_pow256_values();
        }
        match reader.read_be(1) {
            Ok(v) => Ok(v as u8),
            Err(e) => Err(e),
        }
    }
}

impl ByteReadable for bool {
    open spec fn spec_read(data: Seq<u8>) -> Result<(bool, nat), DecodeError> {
        match spec_read_be(data, 1) {
            Ok((v, n)) => if v == 1 {
                Ok((true, n))
            } else if v == 0 {
                Ok((false, n))
            } else {
                Err(DecodeError::InvalidBool)
            },
            Err(e) => Err(e),
        }
    }

    proof fn lemma_read_within(data: Seq<u8>) {
    }

    fn read_from_bytes(reader: &mut ByteReader) -> (r: Result<bool, DecodeError>) {
        match reader.read_be(1) {
            Ok(v) => if v == 1 {
                Ok(true)
            } else if v == 0 {
                Ok(false)
            } else {
                Err(DecodeError::InvalidBool)
            },
            Err(e) => Err(e),
        }
    }
}

impl ByteReadable for u16 {
    open spec fn spec_read(data: Seq<u8>) -> Result<(u16, nat), DecodeError> {
        match spec_read_be(data, 2) {
            Ok((v, n)) => Ok((v as u16, n)),
            Err(e) => Err(e),
        }
    }

    proof fn lemma_read_within(data: Seq<u8>) {
    }

    fn read_from_bytes(reader: &mut ByteReader) -> (r: Result<u16, DecodeError>) {
        proof {
            lemma_pow256_values();
        }
        match reader.read_be(2) {
            Ok(v) => Ok(v as u16),
            Err(e) => Err(e),
        }
    }
}

impl ByteReadable for i16 {
    open spec fn spec_read(data: Seq<u8>) -> Result<(i16, nat), DecodeError> {
        match spec_read_be(data, 2) {
            Ok((v, n)) => Ok((i16_of_bits(v), n)),
            Err(e) => Err(e),
        }
    }

    proof fn lemma_read_within(data: Seq<u8>) {
    }

    fn read_from_bytes(reader: &mut ByteReader) -> (r: Result<i16, DecodeError>) {
        proof {
            lemma_pow256_values();
        }
        match reader.read_be(2) {
            Ok(v) => if v < 0x8000 {
                Ok(v as i16)
            } else {
                Ok((v as i32 - 0x1_0000) as i16)
            },
            Err(e) => Err(e),
        }
    }
}

impl ByteReadable for u64 {
    open spec fn spec_read(data: Seq<u8>) -> Result<(u64, nat), DecodeError> {
        match spec_read_be(data, 8) {
            Ok((v, n)) => Ok((v as u64, n)),
            Err(e) => Err(e),
        }
    }

    proof fn lemma_read_within(data: Seq<u8>) {
    }

    fn read_from_bytes(reader: &mut ByteReader) -> (r: Result<u64, DecodeError>) {
        proof {
            lemma_pow256_values();
        }
        match reader.read_be(8) {
            Ok(v) => Ok(v as u64),
            Err(e) => Err(e),
        }
    }
}

impl ByteReadable for u128 {
    open spec fn spec_read(data: Seq<u8>) -> Result<(u128, nat), DecodeError> {
        match spec_read_be(data, 16) {
            Ok((v, n)) => Ok((v as u128, n)),
            Err(e) => Err(e),
        }
    }

    proof fn lemma_read_within(data: Seq<u8>) {
    }

    fn read_from_bytes(reader: &mut ByteReader) -> (r: Result<u128, DecodeError>) {
        match reader.read_be(16) {
            Ok(v) => Ok(v),
            Err(e) => Err(e),
        }
    }
}

impl ByteWritable for u8 {
    open spec fn spec_bytes(&self) -> Seq<u8> {
        seq![*self]
    }

    fn write_to_bytes(self, writer: &mut ByteWriter) {
        writer.put_u8(self);
        assert(final(writer).bytes() =~= old(writer).bytes() + seq![self]);
    }
}

impl ByteWritable for bool {
    open spec fn spec_bytes(&self) -> Seq<u8> {
        seq![if *self { 1u8 } else { 0u8 }]
    }

    fn write_to_bytes(self, writer: &mut ByteWriter) {
        let val: u8 = if self {
            1
        } else {
            0
        };
        writer.put_u8(val);
        assert(final(writer).bytes() =~= old(writer).bytes() + self.spec_bytes());
    }
}

impl ByteWritable for u16 {
    open spec fn spec_bytes(&self) -> Seq<u8> {
        be_bytes(*self as nat, 2)
    }

    fn write_to_bytes(self, writer: &mut ByteWriter) {
        proof {
            lemma_be_round_trip(self as nat, 2);
        }
        writer.put_u16(self);
    }
}

impl ByteWritable for i16 {
    open spec fn spec_bytes(&self) -> Seq<u8> {
        be_bytes(bits_of_i16(*self), 2)
    }

    fn write_to_bytes(self, writer: &mut ByteWriter) {
        proof {
            lemma_be_round_trip(bits_of_i16(self), 2);
        }
        writer.put_i16(self);
    }
}

impl ByteWritable for u64 {
    open spec fn spec_bytes(&self) -> Seq<u8> {
        be_bytes(*self as nat, 8)
    }

    fn write_to_bytes(self, writer: &mut ByteWriter) {
        proof {
            lemma_be_round_trip(self as nat, 8);
        }
        writer.put_u64(self);
    }
}

impl ByteWritable for u128 {
    open spec fn spec_bytes(&self) -> Seq<u8> {
        be_bytes(*self as nat, 16)
    }

    fn write_to_bytes(self, writer: &mut ByteWriter) {
        proof {
            lemma_be_round_trip(self as nat, 16);
        }
        writer.put_u128(self);
    }
}

} // verus!

verus! {

/// Reading any fixed-width scalar from fewer bytes than its width fails with an underflow.
pub proof fn lemma_short_reads_underflow(data: Seq<u8>)
    ensures
        data.len() < 1 ==> u8::spec_read(data) == Err::<(u8, nat), DecodeError>(
            DecodeError::BufferUnderflow,
        ),
        data.len() < 1 ==> bool::spec_read(data) == Err::<(bool, nat), DecodeError>(
            DecodeError::BufferUnderflow,
        ),
        data.len() < 2 ==> u16::spec_read(data) == Err::<(u16, nat), DecodeError>(
            DecodeError::BufferUnderflow,
        ),
        data.len() < 2 ==> i16::spec_read(data) == Err::<(i16, nat), DecodeError>(
            DecodeError::BufferUnderflow,
        ),
        data.len() < 8 ==> u64::spec_read(data) == Err::<(u64, nat), DecodeError>(
            DecodeError::BufferUnderflow,
        ),
        data.len() < 16 ==> u128::spec_read(data) == Err::<(u128, nat), DecodeError>(
            DecodeError::BufferUnderflow,
        ),
{
}

proof fn lemma_read_written(v: nat, n: nat, rest: Seq<u8>)
    requires
        v < pow256(n),
    ensures
        spec_read_be(be_bytes(v, n) + rest, n) == Ok::<(nat, nat), DecodeError>((v, n)),
{
    lemma_be_round_trip(v, n);
    assert((be_bytes(v, n) + rest).take(n as int) =~= be_bytes(v, n));
    vstd::arithmetic::div_mod::lemma_small_mod(v, pow256(n));
}

/// Reading back what a scalar wrote, whatever follows it, gives the scalar and takes its width.
pub proof fn lemma_scalar_round_trip(a: u8, b: bool, c: u16, d: i16, e: u64, f: u128, rest: Seq<u8>)
    ensures
        u8::spec_read(a.spec_bytes() + rest) == Ok::<(u8, nat), DecodeError>((a, 1)),
        bool::spec_read(b.spec_bytes() + rest) == Ok::<(bool, nat), DecodeError>((b, 1)),
        u16::spec_read(c.spec_bytes() + rest) == Ok::<(u16, nat), DecodeError>((c, 2)),
        i16::spec_read(d.spec_bytes() + rest) == Ok::<(i16, nat), DecodeError>((d, 2)),
        u64::spec_read(e.spec_bytes() + rest) == Ok::<(u64, nat), DecodeError>((e, 8)),
        u128::spec_read(f.spec_bytes() + rest) == Ok::<(u128, nat), DecodeError>((f, 16)),
{
    lemma_pow256_values();
    lemma_read_u8(a.spec_bytes() + rest);
    let x: nat = if b {
        1
    } else {
        0
    };
    lemma_read_written(x, 1, rest);
    assert(be_bytes(x / 256, 0) =~= Seq::<u8>::empty());
    assert(b.spec_bytes() =~= be_bytes(x, 1));
    lemma_read_written(c as nat, 2, rest);
    lemma_read_written(bits_of_i16(d), 2, rest);
    lemma_read_written(e as nat, 8, rest);
    lemma_read_written(f as nat, 16, rest);
}

} // verus!
