use vstd::prelude::*;
use crate::error::DecodeError;
use crate::reader::{ByteReadable, ByteReader};
use crate::varint::VarInt;
use crate::writer::{ByteWritable, ByteWriter};
use vstd::string::StringSliceAdditionalSpecFns;

verus! {

/// The phase of a protocol session; packet ids are unique only within one phase.
#[derive(Copy, Clone, Eq, PartialEq, Hash, Debug, Structural)]
pub enum PacketState {
    Handshake,
    Status,
    Login,
    Play,
}

/// A concrete packet type: its id and the phase it belongs to, fixed per type.
pub trait Packet {
    fn id() -> u32;

    fn state() -> PacketState;
}

/// Eight flags taken from one byte, most significant bit first.
pub struct BitField {
    pub values: [bool; 8],
}

/// Flag `i` of `byte`: bit `7 - i`.
pub open spec fn flag_of(byte: u8, i: int) -> bool {
    (byte >> ((7 - i) as u8)) & 1u8 == 1u8
}

proof fn lemma_top_bit(byte: u8, cur: u8, i: u8)
    requires
        i < 8,
        cur == byte << i,
    ensures
        (cur & 0x80u8 != 0u8) == ((byte >> ((7 - i) as u8)) & 1u8 == 1u8),
        i < 7 ==> cur << 1u8 == byte << ((i + 1) as u8),
        i == 7 ==> cur << 1u8 == 0u8,
{
    assert((cur & 0x80u8 != 0u8) == ((byte >> ((7 - i) as u8)) & 1u8 == 1u8)) by (bit_vector)
        requires
            i < 8,
            cur == byte << i,
    ;
    assert(i < 7 ==> cur << 1u8 == byte << ((i + 1) as u8)) by (bit_vector)
        requires
            i < 8,
            cur == byte << i,
    ;
    assert(i == 7 ==> cur << 1u8 == 0u8) by (bit_vector)
        requires
            i < 8,
            cur == byte << i,
    ;
}

proof fn lemma_zero_tail(byte: u8, i: u8, j: u8)
    requires
        i <= j < 8,
        byte << i == 0u8,
    ensures
        (byte >> ((7 - j) as u8)) & 1u8 == 0u8,
{
    assert((byte >> ((7 - j) as u8)) & 1u8 == 0u8) by (bit_vector)
        requires
            i <= j < 8,
            byte << i == 0u8,
    ;
}

impl BitField {
    /// Splits `byte` into its flags.
    pub fn from_byte(byte: u8) -> (r: BitField)
        ensures
            forall|i: int| 0 <= i < 8 ==> r.values@[i] == flag_of(byte, i),
    {
        let mut values = [false; 8];
        let mut cur = byte;
        let mut i: usize = 0;
        assert(byte << 0u8 == byte) by (bit_vector);
        while cur != 0
            invariant
                i <= 8,
                i < 8 ==> cur == byte << (i as u8),
                i == 8 ==> cur == 0,
                values@.len() == 8,
                forall|j: int| 0 <= j < i ==> values@[j] == flag_of(byte, j),
                forall|j: int| i <= j < 8 ==> values@[j] == false,
            decreases 8 - i,
        {
            proof {
                lemma_top_bit(byte, cur, i as u8);
            }
            values[i] = cur & 0x80 != 0;
            cur = cur << 1;
            i = i + 1;
        }
        proof {
            if i < 8 {
                assert forall|j: int| i <= j < 8 implies values@[j] == flag_of(byte, j) by {
                    lemma_zero_tail(byte, i as u8, j as u8);
                }
            }
        }
        BitField { values }
    }
}

proof fn lemma_pack_bits(b0: u8, b1: u8, b2: u8, b3: u8, b4: u8, b5: u8, b6: u8, b7: u8, r: u8)
    requires
        b0 <= 1 && b1 <= 1 && b2 <= 1 && b3 <= 1 && b4 <= 1 && b5 <= 1 && b6 <= 1 && b7 <= 1,
        r == (b0 << 7u8) | (b1 << 6u8) | (b2 << 5u8) | (b3 << 4u8) | (b4 << 3u8) | (b5 << 2u8) | (
        b6 << 1u8) | b7,
    ensures
        (r >> 7u8) & 1u8 == b0,
        (r >> 6u8) & 1u8 == b1,
        (r >> 5u8) & 1u8 == b2,
        (r >> 4u8) & 1u8 == b3,
        (r >> 3u8) & 1u8 == b4,
        (r >> 2u8) & 1u8 == b5,
        (r >> 1u8) & 1u8 == b6,
        (r >> 0u8) & 1u8 == b7,
{
    assert((r >> 7u8) & 1u8 == b0 && (r >> 6u8) & 1u8 == b1 && (r >> 5u8) & 1u8 == b2 && (r
        >> 4u8) & 1u8 == b3 && (r >> 3u8) & 1u8 == b4 && (r >> 2u8) & 1u8 == b5 && (r >> 1u8)
        & 1u8 == b6 && (r >> 0u8) & 1u8 == b7) by (bit_vector)
        requires
            b0 <= 1 && b1 <= 1 && b2 <= 1 && b3 <= 1 && b4 <= 1 && b5 <= 1 && b6 <= 1 && b7 <= 1,
            r == (b0 << 7u8) | (b1 << 6u8) | (b2 << 5u8) | (b3 << 4u8) | (b4 << 3u8) | (b5 << 2u8)
                | (b6 << 1u8) | b7,
    ;
}

impl BitField {
    /// Packs the flags back into one byte: flag `i` becomes bit `7 - i`.
    pub fn to_byte(&self) -> (r: u8)
        ensures
            forall|i: int| 0 <= i < 8 ==> flag_of(r, i) == self.values@[i],
    {
        let b0: u8 = if self.values[0] { 1 } else { 0 };
        let b1: u8 = if self.values[1] { 1 } else { 0 };
        let b2: u8 = if self.values[2] { 1 } else { 0 };
        let b3: u8 = if self.values[3] { 1 } else { 0 };
        let b4: u8 = if self.values[4] { 1 } else { 0 };
        let b5: u8 = if self.values[5] { 1 } else { 0 };
        let b6: u8 = if self.values[6] { 1 } else { 0 };
        let b7: u8 = if self.values[7] { 1 } else { 0 };
        let r = (b0 << 7) | (b1 << 6) | (b2 << 5) | (b3 << 4) | (b4 << 3) | (b5 << 2) | (b6 << 1) | b7;
        proof {
            lemma_pack_bits(b0, b1, b2, b3, b4, b5, b6, b7, r);
            assert forall|i: int| 0 <= i < 8 implies flag_of(r, i) == self.values@[i] by {
                if i == 0 {
                } else if i == 1 {
                } else if i == 2 {
                } else if i == 3 {
                } else if i == 4 {
                } else if i == 5 {
                } else if i == 6 {
                } else {
                }
            }
        }
        r
    }
}

/// Bytes with the same flags are the same byte, so packing the flags that a byte splits
/// into gives that byte back.
pub proof fn lemma_flags_determine_byte(a: u8, b: u8)
    requires
        forall|i: int| 0 <= i < 8 ==> flag_of(a, i) == flag_of(b, i),
    ensures
        a == b,
{
    assert(flag_of(a, 0) == flag_of(b, 0) && flag_of(a, 1) == flag_of(b, 1) && flag_of(a, 2)
        == flag_of(b, 2) && flag_of(a, 3) == flag_of(b, 3) && flag_of(a, 4) == flag_of(b, 4)
        && flag_of(a, 5) == flag_of(b, 5) && flag_of(a, 6) == flag_of(b, 6) && flag_of(a, 7)
        == flag_of(b, 7));
    assert(a == b) by (bit_vector)
        requires
            ((a >> 7u8) & 1u8 == 1u8) == ((b >> 7u8) & 1u8 == 1u8),
            ((a >> 6u8) & 1u8 == 1u8) == ((b >> 6u8) & 1u8 == 1u8),
            ((a >> 5u8) & 1u8 == 1u8) == ((b >> 5u8) & 1u8 == 1u8),
            ((a >> 4u8) & 1u8 == 1u8) == ((b >> 4u8) & 1u8 == 1u8),
            ((a >> 3u8) & 1u8 == 1u8) == ((b >> 3u8) & 1u8 == 1u8),
            ((a >> 2u8) & 1u8 == 1u8) == ((b >> 2u8) & 1u8 == 1u8),
            ((a >> 1u8) & 1u8 == 1u8) == ((b >> 1u8) & 1u8 == 1u8),
            ((a >> 0u8) & 1u8 == 1u8) == ((b >> 0u8) & 1u8 == 1u8),
    ;
}

/// A 128-bit identifier, sent as one big-endian word.
#[derive(Debug, Copy, Clone)]
pub struct UUID(pub u128);

/// A 128-bit identifier, sent as text: 32 hexadecimal digits, with hyphens anywhere.
#[derive(Debug, Copy, Clone)]
pub struct UUIDHyphenated(pub u128);

/// The value of a hexadecimal digit.
pub open spec fn hex_digit(c: u8) -> Option<nat> {
    if 48 <= c <= 57 {
        Some((c - 48) as nat)
    } else if 97 <= c <= 102 {
        Some((c - 87) as nat)
    } else if 65 <= c <= 70 {
        Some((c - 55) as nat)
    } else {
        None
    }
}

/// The number written by the hexadecimal digits `s`, most significant first.
pub open spec fn hex_value(s: Seq<u8>) -> nat
    decreases s.len(),
{
    if s.len() == 0 {
        0
    } else {
        hex_value(s.drop_last()) * 16 + hex_digit(s.last()).unwrap_or(0)
    }
}

/// `s` without its hyphens.
pub open spec fn strip_hyphens(s: Seq<u8>) -> Seq<u8>
    decreases s.len(),
{
    if s.len() == 0 {
        s
    } else if s.last() == 45 {
        strip_hyphens(s.drop_last())
    } else {
        strip_hyphens(s.drop_last()).push(s.last())
    }
}

/// The identifier written by `s`: exactly 32 hexadecimal digits.
pub open spec fn uuid_of_hex(s: Seq<u8>) -> Result<u128, DecodeError> {
    if s.len() == 32 && forall|i: int| 0 <= i < 32 ==> (#[trigger] hex_digit(s[i])) is Some {
        Ok(hex_value(s) as u128)
    } else {
        Err(DecodeError::MalformedUuid)
    }
}

/// `16^n`.
pub open spec fn pow16(n: nat) -> nat
    decreases n,
{
    if n == 0 {
        1
    } else {
        16 * pow16((n - 1) as nat)
    }
}

proof fn lemma_pow16_mono(a: nat, b: nat)
    requires
        a <= b,
    ensures
        1 <= pow16(a) <= pow16(b),
    decreases b,
{
    if b > 0 {
        if a < b {
            lemma_pow16_mono(a, (b - 1) as nat);
        } else {
            lemma_pow16_mono((a - 1) as nat, (b - 1) as nat);
        }
    }
}

/// Reads the identifier written by `digits`.
fn parse_uuid_hex(digits: &[u8]) -> (r: Result<u128, DecodeError>)
    ensures
        r == uuid_of_hex(digits@),
{
    if digits.len() != 32 {
        return Err(DecodeError::MalformedUuid);
    }
    let mut acc: u128 = 0;
    let mut i: usize = 0;
    proof {
        reveal_with_fuel(pow16, 33);
        assert(pow16(32) == 0x1_0000_0000_0000_0000_0000_0000_0000_0000);
    }
    while i < 32
        invariant
            digits@.len() == 32,
            i <= 32,
            acc as nat == hex_value(digits@.take(i as int)),
            acc < pow16(i as nat),
            forall|j: int| 0 <= j < i ==> (#[trigger] hex_digit(digits@[j])) is Some,
            pow16(32) == 0x1_0000_0000_0000_0000_0000_0000_0000_0000,
        decreases 32 - i,
    {
        let c = digits[i];
        let d: u128 = if 48 <= c && c <= 57 {
            (c - 48) as u128
        } else if 97 <= c && c <= 102 {
            (c - 87) as u128
        } else if 65 <= c && c <= 70 {
            (c - 55) as u128
        } else {
            assert(hex_digit(digits@[i as int]) is None);
            return Err(DecodeError::MalformedUuid);
        };
        proof {
            let q = pow16(i as nat);
            lemma_pow16_mono((i + 1) as nat, 32);
            assert(acc * 16 + d < 16 * q) by (nonlinear_arith)
                requires
                    acc < q,
                    d < 16,
            ;
            assert(digits@.take(i + 1).drop_last() =~= digits@.take(i as int));
        }
        acc = acc * 16 + d;
        i = i + 1;
    }
    assert(digits@.take(32) =~= digits@);
    Ok(acc)
}

/// Drops every hyphen from `text`.
fn remove_hyphens(text: &[u8]) -> (r: Vec<u8>)
    ensures
        r@ == strip_hyphens(text@),
{
    let mut out: Vec<u8> = Vec::new();
    let mut i: usize = 0;
    while i < text.len()
        invariant
            i <= text@.len(),
            out@ == strip_hyphens(text@.take(i as int)),
        decreases text@.len() - i,
    {
        assert(text@.take(i + 1).drop_last() =~= text@.take(i as int));
        if text[i] != 45 {
            out.push(text[i]);
        }
        i = i + 1;
    }
    assert(text@.take(i as int) =~= text@);
    out
}

/// The identifier sent as text at the front of `data`: a varint length, then that
/// many bytes of text.
pub open spec fn spec_read_uuid_text(data: Seq<u8>) -> Result<(UUIDHyphenated, nat), DecodeError> {
    match VarInt::spec_read(data) {
        Err(e) => Err(e),
        Ok((len, k)) => if len.0 < 0 {
            Err(DecodeError::NegativeValue)
        } else if data.len() - k < len.0 {
            Err(DecodeError::BufferUnderflow)
        } else {
            match uuid_of_hex(strip_hyphens(data.subrange(k as int, k + len.0))) {
                Ok(v) => Ok((UUIDHyphenated(v), k + len.0 as nat)),
                Err(e) => Err(e),
            }
        },
    }
}

impl ByteReadable for UUIDHyphenated {
    open spec fn spec_read(data: Seq<u8>) -> Result<(UUIDHyphenated, nat), DecodeError> {
        spec_read_uuid_text(data)
    }

    proof fn lemma_read_within(data: Seq<u8>) {
        VarInt::lemma_read_within(data);
    }

    fn read_from_bytes(reader: &mut ByteReader) -> (r: Result<UUIDHyphenated, DecodeError>) {
        let ghost data = reader.remaining();
        let len = match reader.read::<VarInt>() {
            Ok(v) => v,
            Err(e) => {
                return Err(e);
            },
        };
        if len.0 < 0 {
            return Err(DecodeError::NegativeValue);
        }
        proof {
            VarInt::lemma_read_within(data);
        }
        let ghost k = VarInt::spec_read(data)->Ok_0.1;
        let text = match reader.read_bytes(len.0 as usize) {
            Ok(t) => t,
            Err(e) => {
                return Err(e);
            },
        };
        assert(text@ =~= data.subrange(k as int, k + len.0));
        let digits = remove_hyphens(text.as_slice());
        match parse_uuid_hex(digits.as_slice()) {
            Ok(v) => Ok(UUIDHyphenated(v)),
            Err(e) => Err(e),
        }
    }
}

/// The digits of plain hexadecimal text: all of it, after one leading `+` if present.
pub open spec fn hex_body(s: Seq<u8>) -> Seq<u8> {
    if s.len() > 0 && s[0] == 43 {
        s.drop_first()
    } else {
        s
    }
}

/// The number written as plain hexadecimal text: at least one digit, any number of
/// leading zeros, a value that fits 128 bits.
pub open spec fn u128_of_hex(s: Seq<u8>) -> Result<u128, DecodeError> {
    let d = hex_body(s);
    if d.len() > 0 && (forall|i: int| 0 <= i < d.len() ==> (#[trigger] hex_digit(d[i])) is Some)
        && hex_value(d) <= u128::MAX {
        Ok(hex_value(d) as u128)
    } else {
        Err(DecodeError::MalformedUuid)
    }
}

/// A longer prefix of hexadecimal text never writes a smaller number.
proof fn lemma_hex_value_grows(s: Seq<u8>, j: nat, k: nat)
    requires
        j <= k <= s.len(),
    ensures
        hex_value(s.take(j as int)) <= hex_value(s.take(k as int)),
    decreases k,
{
    if j < k {
        lemma_hex_value_grows(s, j, (k - 1) as nat);
        assert(s.take(k as int).drop_last() =~= s.take(k - 1));
    }
}

/// Reads plain hexadecimal text with no hyphens, as `u128::from_str_radix` with radix 16.
fn parse_plain_hex(text: &[u8]) -> (r: Result<u128, DecodeError>)
    ensures
        r == u128_of_hex(text@),
{
    let start: usize = if text.len() > 0 && text[0] == 43 {
        1
    } else {
        0
    };
    let ghost d = hex_body(text@);
    assert(d =~= text@.subrange(start as int, text@.len() as int));
    if text.len() == start {
        return Err(DecodeError::MalformedUuid);
    }
    let mut acc: u128 = 0;
    let mut i: usize = start;
    while i < text.len()
        invariant
            d == hex_body(text@),
            d == text@.subrange(start as int, text@.len() as int),
            start <= i <= text@.len(),
            acc as nat == hex_value(d.take(i - start)),
            forall|j: int| 0 <= j < i - start ==> (#[trigger] hex_digit(d[j])) is Some,
        decreases text@.len() - i,
    {
        let c = text[i];
        let dv: u128 = if 48 <= c && c <= 57 {
            (c - 48) as u128
        } else if 97 <= c && c <= 102 {
            (c - 87) as u128
        } else if 65 <= c && c <= 70 {
            (c - 55) as u128
        } else {
            assert(d[i - start] == c);
            assert(hex_digit(d[i - start]) is None);
            let ghost k = i - start;
            assert(!(forall|j: int| 0 <= j < d.len() ==> (#[trigger] hex_digit(d[j])) is Some))
                by {
                assert(0 <= k < d.len() && hex_digit(d[k]) is None);
            }
            return Err(DecodeError::MalformedUuid);
        };
        assert(d[i - start] == c);
        assert(hex_digit(d[i - start]) == Some(dv as nat));
        assert(d.take(i - start + 1).drop_last() =~= d.take(i - start));
        assert(hex_value(d.take(i - start + 1)) == acc * 16 + dv);
        if acc > (u128::MAX - dv) / 16 {
            proof {
                assert(acc * 16 + dv > u128::MAX) by (nonlinear_arith)
                    requires
                        acc > (u128::MAX - dv) / 16,
                        dv < 16,
                ;
                lemma_hex_value_grows(d, (i - start + 1) as nat, d.len());
                assert(d.take(d.len() as int) =~= d);
                assert(hex_value(d) > u128::MAX);
            }
            return Err(DecodeError::MalformedUuid);
        }
        proof {
            assert(acc * 16 + dv <= u128::MAX) by (nonlinear_arith)
                requires
                    acc <= (u128::MAX - dv) / 16,
                    dv < 16,
            ;
        }
        acc = acc * 16 + dv;
        i = i + 1;
    }
    assert(d.take(d.len() as int) =~= d);
    Ok(acc)
}

impl UUID {
    /// Reads plain hexadecimal text, with no hyphens: one to 32 digits, or more with
    /// leading zeros, after an optional `+`.
    pub fn from_hex(s: &str) -> (r: Result<UUID, DecodeError>)
        ensures
            match u128_of_hex(s.spec_bytes()) {
                Ok(v) => r == Ok::<UUID, DecodeError>(UUID(v)),
                Err(e) => r == Err::<UUID, DecodeError>(e),
            },
    {
        match parse_plain_hex(s.as_bytes()) {
            Ok(v) => Ok(UUID(v)),
            Err(e) => Err(e),
        }
    }
}

/// The lowercase hexadecimal digit for `d < 16`.
pub open spec fn hex_char(d: nat) -> char {
    if d < 10 {
        ((48 + d) as u8) as char
    } else {
        ((87 + d) as u8) as char
    }
}

/// The `n` low hexadecimal digits of `v`, most significant first, in lowercase.
pub open spec fn hex_text(v: nat, n: nat) -> Seq<char>
    decreases n,
{
    if n == 0 {
        Seq::empty()
    } else {
        hex_text(v / 16, (n - 1) as nat).push(hex_char(v % 16))
    }
}

/// Relies on `format!` with `{:032x}`: lowercase hexadecimal, zero-padded to 32 digits.
#[verifier::external_body]
fn format_hex32(v: u128) -> (r: String)
    ensures
        r@ == hex_text(v as nat, 32),
{
    format!("{:032x}", v)
}

impl UUID {
    /// The identifier as 32 lowercase hexadecimal digits.
    pub fn to_hex_string(&self) -> (r: String)
        ensures
            r@ == hex_text(self.0 as nat, 32),
    {
        format_hex32(self.0)
    }
}

impl From<UUIDHyphenated> for UUID {
    fn from(hyph: UUIDHyphenated) -> (r: UUID) {
        UUID(hyph.0)
    }
}

impl vstd::std_specs::convert::FromSpecImpl<UUIDHyphenated> for UUID {
    open spec fn obeys_from_spec() -> bool {
        true
    }

    open spec fn from_spec(v: UUIDHyphenated) -> UUID {
        UUID(v.0)
    }
}

impl ByteReadable for UUID {
    open spec fn spec_read(data: Seq<u8>) -> Result<(UUID, nat), DecodeError> {
        match u128::spec_read(data) {
            Ok((v, n)) => Ok((UUID(v), n)),
            Err(e) => Err(e),
        }
    }

    proof fn lemma_read_within(data: Seq<u8>) {
        u128::lemma_read_within(data);
    }

    fn read_from_bytes(reader: &mut ByteReader) -> (r: Result<UUID, DecodeError>) {
        match reader.read::<u128>() {
            Ok(v) => Ok(UUID(v)),
            Err(e) => Err(e),
        }
    }
}

impl ByteWritable for UUID {
    open spec fn spec_bytes(&self) -> Seq<u8> {
        self.0.spec_bytes()
    }

    fn write_to_bytes(self, writer: &mut ByteWriter) {
        writer.write(self.0);
    }
}

} // verus!
