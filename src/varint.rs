use vstd::prelude::*;
use crate::error::DecodeError;
use crate::reader::{ByteReadable, ByteReader};
use crate::scalars::lemma_read_u8;
use crate::writer::{fits_buffer, ByteWritable, ByteWriter};

verus! {

/// A signed 32-bit value sent as one to five bytes.
#[derive(Copy, Clone, Debug)]
pub struct VarInt(pub i32);

/// A non-negative value sent in the form of a `VarInt`.
#[derive(Copy, Clone, Debug)]
pub struct VarUInt(pub usize);

/// The 32-bit pattern of a signed value.
pub open spec fn bits_of_i32(v: i32) -> u32 {
    if v >= 0 {
        v as u32
    } else {
        (v + 0x1_0000_0000) as u32
    }
}

/// The signed value of a 32-bit pattern.
pub open spec fn i32_of_bits(u: u32) -> i32 {
    if u < 0x8000_0000 {
        u as i32
    } else {
        (u - 0x1_0000_0000) as i32
    }
}

/// The bytes that carry `u`: seven bits per byte, least significant group first, the
/// high bit set on every byte but the last.
pub open spec fn varint_groups(u: u32) -> Seq<u8>
    decreases u,
{
    if u < 128 {
        seq![u as u8]
    } else {
        seq![(u % 128 + 128) as u8] + varint_groups(u / 128)
    }
}

/// Decoding from byte `i` of `data` on, with the groups before it gathered in `acc`:
/// the pattern and the number of bytes taken up to the first byte without the high bit.
pub open spec fn varint_decode_from(data: Seq<u8>, i: nat, acc: u32) -> Result<(u32, nat), DecodeError>
    decreases 5 - i,
{
    if i >= data.len() {
        Err(DecodeError::BufferUnderflow)
    } else if i >= 5 {
        Err(DecodeError::VarIntTooLong)
    } else {
        let b = data[i as int];
        let next = acc | (((b % 128) as u32) << ((7 * i) as u32));
        if b < 128 {
            Ok((next, i + 1))
        } else {
            varint_decode_from(data, i + 1, next)
        }
    }
}

proof fn lemma_decode_within(data: Seq<u8>, i: nat, acc: u32)
    ensures
        varint_decode_from(data, i, acc) is Ok ==> i < varint_decode_from(data, i, acc)->Ok_0.1
            <= data.len(),
    decreases 5 - i,
{
    if i < data.len() && i < 5 {
        let b = data[i as int];
        let next = acc | (((b % 128) as u32) << ((7 * i) as u32));
        lemma_decode_within(data, i + 1, next);
    }
}

proof fn lemma_step_bits(acc: u32, u: u32, s: u32)
    requires
        s <= 21,
        acc >> s == 0,
        (u << s) >> s == u,
    ensures
        ((u >> 7u32) << (s + 7)) >> (s + 7) == u >> 7u32,
        (acc | ((u & 0x7Fu32) << s)) >> (s + 7) == 0,
        (acc | ((u & 0x7Fu32) << s)) | ((u >> 7u32) << (s + 7)) == acc | (u << s),
{
    assert(((u >> 7u32) << (s + 7)) >> (s + 7) == u >> 7u32) by (bit_vector)
        requires
            s <= 21,
            (u << s) >> s == u,
    ;
    assert((acc | ((u & 0x7Fu32) << s)) >> (s + 7) == 0) by (bit_vector)
        requires
            s <= 21,
            acc >> s == 0,
    ;
    assert((acc | ((u & 0x7Fu32) << s)) | ((u >> 7u32) << (s + 7)) == acc | (u << s))
        by (bit_vector)
        requires
            s <= 21,
    ;
}

proof fn lemma_div_mod_bits(u: u32)
    ensures
        u / 128 == u >> 7u32,
        u % 128 == u & 0x7Fu32,
{
    assert(u / 128 == u >> 7u32) by (bit_vector);
    assert(u % 128 == u & 0x7Fu32) by (bit_vector);
}

/// Decoding the groups of `u` placed at byte `i` finishes them with `u` put above `acc`.
proof fn lemma_decode_groups(data: Seq<u8>, i: nat, acc: u32, u: u32)
    requires
        i <= 4,
        acc >> ((7 * i) as u32) == 0,
        (u << ((7 * i) as u32)) >> ((7 * i) as u32) == u,
        i + varint_groups(u).len() <= data.len(),
        data.subrange(i as int, (i + varint_groups(u).len()) as int) == varint_groups(u),
    ensures
        varint_decode_from(data, i, acc) == Ok::<(u32, nat), DecodeError>(
            (acc | (u << ((7 * i) as u32)), i + varint_groups(u).len()),
        ),
    decreases u,
{
    let s = (7 * i) as u32;
    let g = varint_groups(u);
    assert(data[i as int] == g[0]);
    lemma_div_mod_bits(u);
    if u >= 128 {
        if i == 4 {
            assert((u << 28u32) >> 28u32 == u ==> u < 16) by (bit_vector);
        }
        assert(i <= 3);
        let rest = varint_groups(u / 128);
        assert(g =~= seq![(u % 128 + 128) as u8] + rest);
        let lo = i as int + 1;
        let hi = lo + rest.len();
        assert(data.subrange(lo, hi) =~= rest) by {
            assert(data.subrange(lo, hi) =~= data.subrange(i as int, i + g.len() as int).subrange(
                1,
                g.len() as int,
            ));
        }
        let b = data[i as int];
        assert(b % 128 == u % 128);
        let next = acc | (((b % 128) as u32) << s);
        lemma_step_bits(acc, u, s);
        assert((7 * (i + 1)) as u32 == s + 7);
        lemma_decode_groups(data, i + 1, next, u / 128);
    } else {
        assert(data[i as int] == u as u8);
    }
}

/// Decoding the encoding of any value, whatever follows it, gives the value back.
pub proof fn lemma_varint_round_trip(v: i32, rest: Seq<u8>)
    ensures
        VarInt::spec_read(VarInt(v).spec_bytes() + rest) == Ok::<(VarInt, nat), DecodeError>(
            (VarInt(v), VarInt(v).spec_bytes().len()),
        ),
{
    let u = bits_of_i32(v);
    let data = varint_groups(u) + rest;
    assert(data.subrange(0, varint_groups(u).len() as int) =~= varint_groups(u));
    assert((0u32 >> 0u32) == 0 && (u << 0u32) >> 0u32 == u && (0u32 | (u << 0u32)) == u)
        by (bit_vector);
    lemma_decode_groups(data, 0, 0, u);
}

/// Values up to 127 take one byte, the value itself; up to 16383 two, the low seven bits
/// with the continuation bit and then the rest; 16384 three; none takes more than five.
pub proof fn lemma_varint_size(v: i32)
    ensures
        0 <= v <= 127 ==> VarInt(v).spec_bytes() == seq![v as u8],
        128 <= v <= 16383 ==> VarInt(v).spec_bytes() == seq![(v % 128 + 128) as u8, (v / 128) as u8],
        0 <= v <= 127 ==> VarInt(v).spec_bytes().len() == 1,
        128 <= v <= 16383 ==> VarInt(v).spec_bytes().len() == 2,
        v == 16384 ==> VarInt(v).spec_bytes().len() == 3,
        1 <= VarInt(v).spec_bytes().len() <= 5,
{
    reveal_with_fuel(varint_groups, 6);
    if 128 <= v <= 16383 {
        let u = bits_of_i32(v);
        assert(varint_groups(u / 128) =~= seq![(u / 128) as u8]);
        assert(varint_groups(u) =~= seq![(u % 128 + 128) as u8, (u / 128) as u8]);
    }
}

/// Six bytes that all carry the continuation bit never decode.
pub proof fn lemma_varint_too_long(data: Seq<u8>)
    requires
        data.len() >= 6,
        forall|i: int| 0 <= i < 6 ==> data[i] >= 128,
    ensures
        VarInt::spec_read(data) == Err::<(VarInt, nat), DecodeError>(DecodeError::VarIntTooLong),
{
    reveal_with_fuel(varint_decode_from, 7);
}

impl VarInt {
    pub fn from_i32(input: i32) -> (r: VarInt)
        ensures
            r.0 == input,
    {
        VarInt(input)
    }

    /// Wraps a `usize`, keeping its low 32 bits as a two's-complement pattern.
    pub fn from_usize(input: usize) -> (r: VarInt)
        ensures
            r.0 == i32_of_bits((input as int % 0x1_0000_0000) as u32),
    {
        let low = (input as u64 % 0x1_0000_0000) as u32;
        VarInt::from_u32(low)
    }

    /// Wraps a `u32`, read as a two's-complement pattern.
    pub fn from_u32(input: u32) -> (r: VarInt)
        ensures
            r.0 == i32_of_bits(input),
    {
        if input < 0x8000_0000 {
            VarInt(input as i32)
        } else {
            VarInt((input as i64 - 0x1_0000_0000) as i32)
        }
    }
}

impl ByteWritable for VarInt {
    open spec fn spec_bytes(&self) -> Seq<u8> {
        varint_groups(bits_of_i32(self.0))
    }

    fn write_to_bytes(self, writer: &mut ByteWriter) {
        let mut val: u32 = if self.0 >= 0 {
            self.0 as u32
        } else {
            (self.0 as i64 + 0x1_0000_0000) as u32
        };
        proof {
            lemma_varint_size(self.0);
        }
        loop
            invariant
                fits_buffer(writer.bytes().len() + varint_groups(val).len()),
                old(writer).bytes() + varint_groups(bits_of_i32(self.0)) == writer.bytes()
                    + varint_groups(val),
            decreases val,
        {
            if val < 128 {
                writer.put_u8(val as u8);
                assert(writer.bytes() =~= old(writer).bytes() + self.spec_bytes());
                return;
            }
            let ghost before = writer.bytes();
            writer.put_u8((val % 128 + 128) as u8);
            assert(before + varint_groups(val) =~= writer.bytes() + varint_groups(val / 128));
            val = val / 128;
        }
    }
}

impl ByteReadable for VarInt {
    open spec fn spec_read(data: Seq<u8>) -> Result<(VarInt, nat), DecodeError> {
        match varint_decode_from(data, 0, 0) {
            Ok((u, n)) => Ok((VarInt(i32_of_bits(u)), n)),
            Err(e) => Err(e),
        }
    }

    proof fn lemma_read_within(data: Seq<u8>) {
        lemma_decode_within(data, 0, 0);
    }

    fn read_from_bytes(reader: &mut ByteReader) -> (r: Result<VarInt, DecodeError>) {
        let ghost data = reader.remaining();
        let ghost start = reader.position();
        let mut size: usize = 0;
        let mut val: u32 = 0;
        loop
            invariant_except_break
                varint_decode_from(data, 0, 0) == varint_decode_from(data, size as nat, val),
                size < 5,
            invariant
                reader.wf(),
                reader.buffer() == old(reader).buffer(),
                data == old(reader).remaining(),
                start == old(reader).position(),
                size <= 5,
                reader.position() == start + size,
                reader.remaining() == data.subrange(size as int, data.len() as int),
            ensures
                1 <= size <= 5,
                reader.position() == start + size,
                varint_decode_from(data, 0, 0) == Ok::<(u32, nat), DecodeError>((val, size as nat)),
            decreases 5 - size,
        {
            let b: u8 = match reader.read::<u8>() {
                Ok(b) => b,
                Err(e) => {
                    return Err(e);
                },
            };
            proof {
                lemma_read_u8(data.subrange(size as int, data.len() as int));
            }
            assert(b == data[size as int]);
            assert(reader.remaining() =~= data.subrange(size + 1, data.len() as int));
            val = val | (((b % 128) as u32) << ((7 * size) as u32));
            size = size + 1;
            if size >= 5 && b >= 128 {
                if reader.empty() {
                    return Err(DecodeError::BufferUnderflow);
                }
                return Err(DecodeError::VarIntTooLong);
            }
            if b < 128 {
                break;
            }
        }
        let r = if val < 0x8000_0000 {
            VarInt(val as i32)
        } else {
            VarInt((val as i64 - 0x1_0000_0000) as i32)
        };
        Ok(r)
    }
}

impl ByteReadable for VarUInt {
    open spec fn spec_read(data: Seq<u8>) -> Result<(VarUInt, nat), DecodeError> {
        match VarInt::spec_read(data) {
            Ok((v, n)) => if v.0 >= 0 {
                Ok((VarUInt(v.0 as usize), n))
            } else {
                Err(DecodeError::NegativeValue)
            },
            Err(e) => Err(e),
        }
    }

    proof fn lemma_read_within(data: Seq<u8>) {
        VarInt::lemma_read_within(data);
    }

    fn read_from_bytes(reader: &mut ByteReader) -> (r: Result<VarUInt, DecodeError>) {
        match reader.read::<VarInt>() {
            Ok(VarInt(contents)) => if contents >= 0 {
                Ok(VarUInt(contents as usize))
            } else {
                Err(DecodeError::NegativeValue)
            },
            Err(e) => Err(e),
        }
    }
}

} // verus!
