//! Typed binary codec for a block-game network protocol: fixed-width
//! scalars, variable-length integers, packed composite fields and
//! length-implicit trailing collections.

pub mod error;
pub mod big_endian;
pub mod reader;
pub mod writer;
pub mod scalars;
pub mod varint;
pub mod position;
pub mod raw_vec;
pub mod types;
pub mod tasks;

pub use error::DecodeError;
pub use position::Position;
pub use raw_vec::RawVec;
pub use reader::{ByteReadable, ByteReadableLike, ByteReader};
pub use tasks::{BlockLocation, Face, MineTask, MineTick, NoVehicleGoalCheck};
pub use types::{BitField, Packet, PacketState, UUIDHyphenated, UUID};
pub use varint::{VarInt, VarUInt};
pub use writer::{ByteWritable, ByteWritableLike, ByteWriter};
