use packets::{
    BitField, BlockLocation, ByteReader, ByteWriter, DecodeError, Face, MineTask, NoVehicleGoalCheck,
    Packet, PacketState, Position, RawVec, UUIDHyphenated, VarInt, VarUInt, UUID,
};

fn encode_varint(v: i32) -> Vec<u8> {
    let mut w = ByteWriter::new();
    w.write(VarInt(v));
    w.freeze()
}

fn decode_varint(bytes: &[u8]) -> Result<i32, DecodeError> {
    let mut r = ByteReader::new(bytes);
    r.read::<VarInt>().map(|v| v.0)
}

#[test]
fn varint_known_encodings() {
    assert_eq!(encode_varint(0), vec![0x00]);
    assert_eq!(encode_varint(1), vec![0x01]);
    assert_eq!(encode_varint(127), vec![0x7f]);
    assert_eq!(encode_varint(128), vec![0x80, 0x01]);
    assert_eq!(encode_varint(300), vec![0xac, 0x02]);
    assert_eq!(encode_varint(16383), vec![0xff, 0x7f]);
    assert_eq!(encode_varint(16384), vec![0x80, 0x80, 0x01]);
    assert_eq!(encode_varint(-1), vec![0xff, 0xff, 0xff, 0xff, 0x0f]);
    assert_eq!(encode_varint(i32::MAX), vec![0xff, 0xff, 0xff, 0xff, 0x07]);
    assert_eq!(encode_varint(i32::MIN), vec![0x80, 0x80, 0x80, 0x80, 0x08]);
}

#[test]
fn varint_size_classes() {
    for v in [0, 1, 64, 127] {
        assert_eq!(encode_varint(v).len(), 1);
    }
    for v in [128, 129, 8000, 16383] {
        assert_eq!(encode_varint(v).len(), 2);
    }
    assert_eq!(encode_varint(16384).len(), 3);
}

#[test]
fn varint_round_trip_values() {
    for v in [0, 1, -1, 127, 128, 255, 2097151, 2097152, -2147483648, 2147483647, 123456789, -987654] {
        let bytes = encode_varint(v);
        let mut r = ByteReader::new(&bytes);
        assert_eq!(r.read::<VarInt>().map(|x| x.0), Ok(v));
        assert!(r.empty());
    }
}

#[test]
fn varint_stops_at_last_group() {
    let bytes = [0xac, 0x02, 0x05];
    let mut r = ByteReader::new(&bytes);
    assert_eq!(r.read::<VarInt>().map(|x| x.0), Ok(300));
    assert_eq!(r.remaining_len(), 1);
}

#[test]
fn varint_six_continuation_bytes_fail() {
    assert_eq!(decode_varint(&[0x80; 6]), Err(DecodeError::VarIntTooLong));
    assert_eq!(decode_varint(&[0xff, 0xff, 0xff, 0xff, 0xff, 0x01]), Err(DecodeError::VarIntTooLong));
}

#[test]
fn varint_truncated_stream_fails() {
    assert_eq!(decode_varint(&[]), Err(DecodeError::BufferUnderflow));
    assert_eq!(decode_varint(&[0x80, 0x80]), Err(DecodeError::BufferUnderflow));
    assert_eq!(decode_varint(&[0x80; 5]), Err(DecodeError::BufferUnderflow));
}

#[test]
fn varint_conversions() {
    assert_eq!(VarInt::from_i32(-5).0, -5);
    assert_eq!(VarInt::from_usize(70000).0, 70000);
    assert_eq!(VarInt::from_usize(0xffff_ffff).0, -1);
    assert_eq!(VarInt::from_usize(0x8000_0000).0, i32::MIN);
    assert_eq!(VarInt::from_u32(0xffff_ffff).0, -1);
    assert_eq!(VarInt::from_u32(12).0, 12);
}

#[test]
fn varuint_reads_non_negative() {
    let bytes = encode_varint(300);
    let mut r = ByteReader::new(&bytes);
    assert_eq!(r.read::<VarUInt>().map(|v| v.0), Ok(300));
    let bytes = encode_varint(-3);
    let mut r = ByteReader::new(&bytes);
    assert_eq!(r.read::<VarUInt>().map(|v| v.0), Err(DecodeError::NegativeValue));
}

fn position_bytes(p: Position) -> Vec<u8> {
    let mut w = ByteWriter::new();
    w.write(p);
    w.freeze()
}

fn read_position(bytes: &[u8]) -> Position {
    let mut r = ByteReader::new(bytes);
    r.read::<Position>().unwrap()
}

#[test]
fn position_round_trip_example() {
    let p = Position { x: 1000000, y: -500, z: -1000000 };
    let bytes = position_bytes(p);
    assert_eq!(bytes.len(), 8);
    let q = read_position(&bytes);
    assert_eq!((q.x, q.y, q.z), (1000000, -500, -1000000));
}

#[test]
fn position_round_trip_extremes() {
    for (x, y, z) in [
        (0, 0, 0),
        (-1, -1, -1),
        (33554431, 2047, 33554431),
        (-33554432, -2048, -33554432),
        (12345, -2048, -7),
    ] {
        let q = read_position(&position_bytes(Position { x, y, z }));
        assert_eq!((q.x, q.y, q.z), (x, y, z));
    }
}

#[test]
fn position_layout() {
    assert_eq!(position_bytes(Position { x: 1, y: 0, z: 0 }), vec![0, 0, 0, 0x40, 0, 0, 0, 0]);
    assert_eq!(position_bytes(Position { x: 0, y: 1, z: 0 }), vec![0, 0, 0, 0, 0x04, 0, 0, 0]);
    assert_eq!(position_bytes(Position { x: 0, y: 0, z: 1 }), vec![0, 0, 0, 0, 0, 0, 0, 1]);
    assert_eq!(position_bytes(Position { x: -1, y: 0, z: 0 }), vec![0xff, 0xff, 0xff, 0xc0, 0, 0, 0, 0]);
    let q = read_position(&[0xff; 8]);
    assert_eq!((q.x, q.y, q.z), (-1, -1, -1));
}

#[test]
fn position_short_buffer_fails() {
    let bytes = [0u8; 7];
    let mut r = ByteReader::new(&bytes);
    assert!(matches!(r.read::<Position>(), Err(DecodeError::BufferUnderflow)));
}

fn text_bytes(s: &str) -> Vec<u8> {
    let mut out = encode_varint(s.len() as i32);
    out.extend_from_slice(s.as_bytes());
    out
}

#[test]
fn uuid_hyphenated_equals_plain_hex() {
    let bytes = text_bytes("123e4567-e89b-12d3-a456-426614174000");
    let mut r = ByteReader::new(&bytes);
    let h = r.read::<UUIDHyphenated>().unwrap();
    assert!(r.empty());
    let plain = UUID::from_hex("123e4567e89b12d3a456426614174000").unwrap();
    assert_eq!(UUID::from(h).0, plain.0);
    assert_eq!(plain.0, 0x123e4567_e89b_12d3_a456_426614174000);
}

#[test]
fn uuid_text_without_hyphens_reads_too() {
    let bytes = text_bytes("123E4567E89B12D3A456426614174000");
    let mut r = ByteReader::new(&bytes);
    assert_eq!(r.read::<UUIDHyphenated>().map(|h| h.0), Ok(0x123e4567_e89b_12d3_a456_426614174000));
}

#[test]
fn uuid_malformed_text_fails() {
    for s in ["123e4567-e89b-12d3-a456-42661417400", "123e4567-e89b-12d3-a456-42661417400g", "", "123e4567e89b12d3a4564266141740000"] {
        let bytes = text_bytes(s);
        let mut r = ByteReader::new(&bytes);
        assert_eq!(r.read::<UUIDHyphenated>().map(|h| h.0), Err(DecodeError::MalformedUuid));
    }
    assert!(matches!(UUID::from_hex("123e4567-e89b-12d3-a456-426614174000"), Err(DecodeError::MalformedUuid)));
}

#[test]
fn uuid_from_plain_hex_of_any_length() {
    assert_eq!(UUID::from_hex("abc").unwrap().0, 0xabc);
    assert_eq!(UUID::from_hex("0").unwrap().0, 0);
    assert_eq!(UUID::from_hex("+23e4567e89b12d3a456426614174000").unwrap().0, 0x23e4567_e89b_12d3_a456_426614174000);
    assert_eq!(UUID::from_hex("ffffffffffffffffffffffffffffffff").unwrap().0, u128::MAX);
    assert_eq!(UUID::from_hex("0000ffffffffffffffffffffffffffffffff").unwrap().0, u128::MAX);
    for bad in ["", "+", "-abc", "abg", "123e4567-e89b", "100000000000000000000000000000000"] {
        assert!(matches!(UUID::from_hex(bad), Err(DecodeError::MalformedUuid)), "{}", bad);
    }
}

#[test]
fn uuid_text_length_errors() {
    let bytes = encode_varint(-1);
    let mut r = ByteReader::new(&bytes);
    assert_eq!(r.read::<UUIDHyphenated>().map(|h| h.0), Err(DecodeError::NegativeValue));
    let mut bytes = encode_varint(36);
    bytes.extend_from_slice(b"123e4567");
    let mut r = ByteReader::new(&bytes);
    assert_eq!(r.read::<UUIDHyphenated>().map(|h| h.0), Err(DecodeError::BufferUnderflow));
}

#[test]
fn uuid_binary_round_trip() {
    let id = UUID(0x0011_2233_4455_6677_8899_aabb_ccdd_eeff);
    let mut w = ByteWriter::new();
    w.write(id);
    let bytes = w.freeze();
    assert_eq!(bytes, vec![0x00, 0x11, 0x22, 0x33, 0x44, 0x55, 0x66, 0x77, 0x88, 0x99, 0xaa, 0xbb, 0xcc, 0xdd, 0xee, 0xff]);
    let mut r = ByteReader::new(&bytes);
    assert_eq!(r.read::<UUID>().unwrap().0, id.0);
}

#[test]
fn uuid_hex_text() {
    assert_eq!(UUID(0x123e4567_e89b_12d3_a456_426614174000).to_hex_string(), "123e4567e89b12d3a456426614174000");
    assert_eq!(UUID(0xab).to_hex_string(), "000000000000000000000000000000ab");
}

#[test]
fn bitfield_examples() {
    assert_eq!(BitField::from_byte(0b1011_0000).values, [true, false, true, true, false, false, false, false]);
    assert_eq!(BitField::from_byte(0x00).values, [false; 8]);
    assert_eq!(BitField::from_byte(0xff).values, [true; 8]);
    assert_eq!(BitField::from_byte(0x01).values, [false, false, false, false, false, false, false, true]);
}

#[test]
fn raw_vec_with_count_reads_exactly_that_many() {
    let bytes = [0u8, 1, 0, 2, 0, 3, 0, 4, 9];
    let mut r = ByteReader::new(&bytes);
    let v: RawVec<u16> = r.read_like::<RawVec<u16>>(&3).unwrap();
    assert_eq!(v.len(), 3);
    assert_eq!(v.inner(), vec![1u16, 2, 3]);
    assert_eq!(r.remaining_len(), bytes.len() - 3 * 2);
    assert_eq!(r.read::<u16>(), Ok(4));
}

#[test]
fn raw_vec_with_count_short_buffer_fails() {
    let bytes = [0u8, 1, 0];
    let mut r = ByteReader::new(&bytes);
    assert!(matches!(r.read_like::<RawVec<u16>>(&2), Err(DecodeError::BufferUnderflow)));
    let mut r = ByteReader::new(&bytes);
    assert_eq!(r.read_like::<RawVec<u16>>(&0).unwrap().len(), 0);
    assert_eq!(r.remaining_len(), 3);
}

#[test]
fn raw_vec_rest_reads_whole_buffer() {
    let bytes = [0u8, 0, 0, 7, 0, 0, 0, 8, 0, 0, 1, 0];
    let mut r = ByteReader::new(&bytes[..]);
    let v = RawVec::<u16>::read_rest(&mut r).unwrap();
    assert_eq!(v.len(), bytes.len() / 2);
    assert!(r.empty());
    let mut r = ByteReader::new(&bytes[..]);
    let v = RawVec::<u8>::read_rest(&mut r).unwrap();
    assert_eq!(v.inner(), bytes.to_vec());
    assert!(r.empty());
    let mut r = ByteReader::new(&bytes[..]);
    let v = RawVec::<u64>::read_rest(&mut r);
    assert!(matches!(v, Err(DecodeError::BufferUnderflow)));
}

#[test]
fn raw_vec_rest_of_empty_buffer() {
    let bytes: [u8; 0] = [];
    let mut r = ByteReader::new(&bytes);
    assert_eq!(RawVec::<u16>::read_rest(&mut r).unwrap().len(), 0);
}

#[test]
fn raw_vec_writes_without_prefix() {
    let v = RawVec::from(vec![5u8, 6, 7]);
    let mut w = ByteWriter::new();
    w.write(1u8).write(v);
    assert_eq!(w.freeze(), vec![1, 5, 6, 7]);
}

#[test]
fn scalar_reads_underflow() {
    let one = [1u8];
    assert!(matches!(ByteReader::new(&one).read::<u16>(), Err(DecodeError::BufferUnderflow)));
    assert!(matches!(ByteReader::new(&one).read::<i16>(), Err(DecodeError::BufferUnderflow)));
    let seven = [1u8; 7];
    assert!(matches!(ByteReader::new(&seven).read::<u64>(), Err(DecodeError::BufferUnderflow)));
    let fifteen = [1u8; 15];
    assert!(matches!(ByteReader::new(&fifteen).read::<u128>(), Err(DecodeError::BufferUnderflow)));
    let empty: [u8; 0] = [];
    assert!(matches!(ByteReader::new(&empty).read::<u8>(), Err(DecodeError::BufferUnderflow)));
    assert!(matches!(ByteReader::new(&empty).read::<bool>(), Err(DecodeError::BufferUnderflow)));
}

#[test]
fn scalar_reads_big_endian() {
    let bytes = [0x12u8, 0x34, 0xff, 0xfe, 0, 0, 0, 0, 0, 0, 1, 2, 1, 0];
    let mut r = ByteReader::new(&bytes);
    assert_eq!(r.read::<u16>(), Ok(0x1234));
    assert_eq!(r.read::<i16>(), Ok(-2));
    assert_eq!(r.read::<u64>(), Ok(0x0102));
    assert_eq!(r.read::<bool>(), Ok(true));
    assert_eq!(r.read::<bool>(), Ok(false));
    assert!(r.empty());
    let two = [2u8];
    assert_eq!(ByteReader::new(&two).read::<bool>(), Err(DecodeError::InvalidBool));
}

#[test]
fn scalar_writes_big_endian() {
    let mut w = ByteWriter::new();
    w.write(true).write(false).write(0x1234u16).write(-2i16).write(0x0102_0304_0506_0708u64);
    assert_eq!(
        w.freeze(),
        vec![1, 0, 0x12, 0x34, 0xff, 0xfe, 1, 2, 3, 4, 5, 6, 7, 8]
    );
    let mut w = ByteWriter::new();
    w.write(1u128);
    let mut expected = vec![0u8; 15];
    expected.push(1);
    assert_eq!(w.freeze(), expected);
    assert_eq!(ByteWriter::new().freeze(), Vec::<u8>::new());
}

struct Handshake;

impl Packet for Handshake {
    fn id() -> u32 {
        0
    }

    fn state() -> PacketState {
        PacketState::Handshake
    }
}

#[test]
fn packet_identity() {
    assert_eq!(Handshake::id(), 0);
    assert_eq!(Handshake::state(), PacketState::Handshake);
    assert_ne!(PacketState::Login, PacketState::Play);
}

#[test]
fn mine_task_ticks() {
    let loc = BlockLocation { x: 1, y: 64, z: -3 };
    let mut task = MineTask::new(loc, 1);
    assert_eq!(task.get_face(), Face::PosY);
    task.set_face(Face::NegX);
    assert_eq!(task.get_face(), Face::NegX);
    assert_eq!(task.get_location(), loc);
    let t = task.tick();
    assert!(t.start && !t.finish);
    let t = task.tick();
    assert!(!t.start && !t.finish);
    let t = task.tick();
    assert!(!t.start && t.finish);
}

#[test]
fn goal_check() {
    let goal = BlockLocation { x: 5, y: 70, z: 5 };
    let check = NoVehicleGoalCheck::new(goal);
    assert!(check.is_goal(&BlockLocation { x: 5, y: 70, z: 5 }));
    assert!(!check.is_goal(&BlockLocation { x: 5, y: 71, z: 5 }));
}

#[test]
fn bitfield_packs_back() {
    for b in [0u8, 1, 0x80, 0b1011_0000, 0x5a, 0xff] {
        assert_eq!(BitField::from_byte(b).to_byte(), b);
    }
    let f = BitField { values: [true, false, true, true, false, false, false, false] };
    assert_eq!(f.to_byte(), 0b1011_0000);
}

#[test]
fn scalar_round_trips() {
    let mut w = ByteWriter::new();
    w.write(0xabu8).write(true).write(0xbeefu16).write(i16::MIN).write(u64::MAX).write(u128::MAX - 1);
    let bytes = w.freeze();
    assert_eq!(bytes.len(), 1 + 1 + 2 + 2 + 8 + 16);
    let mut r = ByteReader::new(&bytes);
    assert_eq!(r.read::<u8>(), Ok(0xab));
    assert_eq!(r.read::<bool>(), Ok(true));
    assert_eq!(r.read::<u16>(), Ok(0xbeef));
    assert_eq!(r.read::<i16>(), Ok(i16::MIN));
    assert_eq!(r.read::<u64>(), Ok(u64::MAX));
    assert_eq!(r.read::<u128>(), Ok(u128::MAX - 1));
    assert!(r.empty());
}

#[test]
fn read_bytes_and_read_be() {
    let bytes = [1u8, 2, 3, 4, 5];
    let mut r = ByteReader::new(&bytes);
    assert_eq!(r.read_be(3), Ok(0x010203));
    assert_eq!(r.read_bytes(2), Ok(vec![4, 5]));
    assert!(r.empty());
    assert_eq!(r.read_bytes(1), Err(DecodeError::BufferUnderflow));
}
