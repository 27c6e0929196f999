use vstd::prelude::*;

verus! {

/// Why a decode failed.
#[derive(Clone, Copy, Debug, PartialEq, Eq, Structural)]
pub enum DecodeError {
    /// A read needs more bytes than remain in the buffer.
    BufferUnderflow,
    /// A variable-length integer carries a continuation bit on its fifth byte.
    VarIntTooLong,
    /// A boolean byte is neither `0` nor `1`.
    InvalidBool,
    /// A length prefix or an unsigned varint decodes to a negative number.
    NegativeValue,
    /// Identifier text is not exactly 32 hexadecimal digits.
    MalformedUuid,
}

} // verus!
