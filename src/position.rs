use vstd::prelude::*;
use crate::big_endian::{be_bytes, lemma_be_round_trip, lemma_pow256_values};
use crate::error::DecodeError;
use crate::reader::{spec_read_be, ByteReadable, ByteReader};
use crate::writer::{ByteWritable, ByteWriter};

verus! {

/// A block coordinate, sent packed into one 64-bit word: `x` in the top 26 bits,
/// `y` in the next 12, `z` in the low 26, each in two's complement.
#[derive(Copy, Clone, Debug)]
pub struct Position {
    pub x: i32,
    pub y: i16,
    pub z: i32,
}

/// The signed value of a field whose unsigned value is `u` and whose sign bit weighs `half`.
pub open spec fn signed_field(u: int, half: int) -> int {
    if u >= half {
        u - 2 * half
    } else {
        u
    }
}

/// The position packed in `v`.
pub open spec fn position_of_word(v: u64) -> Position {
    Position {
        x: signed_field((v >> 38u64) as int, 0x200_0000) as i32,
        y: signed_field(((v >> 26u64) & 0xFFFu64) as int, 0x800) as i16,
        z: signed_field((v & 0x3FF_FFFFu64) as int, 0x200_0000) as i32,
    }
}

/// The word that packs `p`, each field cut to its width in two's complement.
pub open spec fn word_of_position(p: Position) -> u64 {
    ((p.x as int % 0x400_0000) * 0x40_0000_0000 + (p.y as int % 0x1000) * 0x400_0000 + (p.z as int
        % 0x400_0000)) as u64
}

/// Each field lies in the range its width can hold.
pub open spec fn position_in_range(p: Position) -> bool {
    -0x200_0000 <= p.x < 0x200_0000 && -0x800 <= p.y < 0x800 && -0x200_0000 <= p.z < 0x200_0000
}

proof fn lemma_unpack(a: u64, b: u64, c: u64)
    requires
        a < 0x400_0000,
        b < 0x1000,
        c < 0x400_0000,
    ensures
        ((a * 0x40_0000_0000 + b * 0x400_0000 + c) as u64) >> 38u64 == a,
        (((a * 0x40_0000_0000 + b * 0x400_0000 + c) as u64) >> 26u64) & 0xFFFu64 == b,
        ((a * 0x40_0000_0000 + b * 0x400_0000 + c) as u64) & 0x3FF_FFFFu64 == c,
{
    assert(((a * 0x40_0000_0000 + b * 0x400_0000 + c) as u64) >> 38u64 == a) by (bit_vector)
        requires
            a < 0x400_0000,
            b < 0x1000,
            c < 0x400_0000,
    ;
    assert((((a * 0x40_0000_0000 + b * 0x400_0000 + c) as u64) >> 26u64) & 0xFFFu64 == b)
        by (bit_vector)
        requires
            a < 0x400_0000,
            b < 0x1000,
            c < 0x400_0000,
    ;
    assert(((a * 0x40_0000_0000 + b * 0x400_0000 + c) as u64) & 0x3FF_FFFFu64 == c)
        by (bit_vector)
        requires
            a < 0x400_0000,
            b < 0x1000,
            c < 0x400_0000,
    ;
}

/// Packing a position whose fields fit their widths and unpacking the word gives it back.
pub proof fn lemma_position_round_trip(p: Position)
    requires
        position_in_range(p),
    ensures
        position_of_word(word_of_position(p)) == p,
{
    let a = (p.x as int % 0x400_0000) as u64;
    let b = (p.y as int % 0x1000) as u64;
    let c = (p.z as int % 0x400_0000) as u64;
    lemma_unpack(a, b, c);
}

/// Every word unpacks to a position whose fields fit their widths.
pub proof fn lemma_decoded_in_range(v: u64)
    ensures
        position_in_range(position_of_word(v)),
{
    assert(v >> 38u64 < 0x400_0000 && (v >> 26u64) & 0xFFFu64 < 0x1000 && v & 0x3FF_FFFFu64
        < 0x400_0000) by (bit_vector);
}

/// Cuts `v` to its `2^k` residue, given as `m == 2^k`, where `2^32` is a multiple of `m`.
fn low_bits(v: i32, m: i64) -> (r: u64)
    requires
        m == 0x1000 || m == 0x400_0000,
    ensures
        r as int == v as int % m as int,
{
    if v >= 0 {
        (v as i64 % m) as u64
    } else {
        proof {
            vstd::arithmetic::div_mod::lemma_mod_multiples_vanish(
                0x1_0000_0000int / m as int,
                v as int,
                m as int,
            );
        }
        ((v as i64 + 0x1_0000_0000) % m) as u64
    }
}

impl ByteReadable for Position {
    open spec fn spec_read(data: Seq<u8>) -> Result<(Position, nat), DecodeError> {
        match spec_read_be(data, 8) {
            Ok((v, n)) => Ok((position_of_word(v as u64), n)),
            Err(e) => Err(e),
        }
    }

    proof fn lemma_read_within(data: Seq<u8>) {
    }

    fn read_from_bytes(reader: &mut ByteReader) -> (r: Result<Position, DecodeError>) {
        proof {
            lemma_pow256_values();
        }
        let val: u64 = match reader.read_be(8) {
            Ok(v) => v as u64,
            Err(e) => {
                return Err(e);
            },
        };
        let xu = val >> 38;
        let yu = (val >> 26) & 0xFFF;
        let zu = val & 0x3FF_FFFF;
        assert(xu < 0x400_0000) by (bit_vector)
            requires
                xu == val >> 38u64,
        ;
        assert(yu < 0x1000) by (bit_vector)
            requires
                yu == (val >> 26u64) & 0xFFFu64,
        ;
        assert(zu < 0x400_0000) by (bit_vector)
            requires
                zu == val & 0x3FF_FFFFu64,
        ;
        let x: i32 = if xu >= 0x200_0000 {
            xu as i32 - 0x400_0000
        } else {
            xu as i32
        };
        let y: i16 = if yu >= 0x800 {
            yu as i16 - 0x1000
        } else {
            yu as i16
        };
        let z: i32 = if zu >= 0x200_0000 {
            zu as i32 - 0x400_0000
        } else {
            zu as i32
        };
        Ok(Position { x, y, z })
    }
}

impl ByteWritable for Position {
    open spec fn spec_bytes(&self) -> Seq<u8> {
        be_bytes(word_of_position(*self) as nat, 8)
    }

    fn write_to_bytes(self, writer: &mut ByteWriter) {
        let a = low_bits(self.x, 0x400_0000);
        let b = low_bits(self.y as i32, 0x1000);
        let c = low_bits(self.z, 0x400_0000);
        let word = a * 0x40_0000_0000 + b * 0x400_0000 + c;
        proof {
            lemma_be_round_trip(word as nat, 8);
        }
        writer.put_u64(word);
    }
}

} // verus!
