//! Error values reported by the wire-protocol codec.

use vstd::prelude::*;

verus! {

/// Length declared in a bulk-string or array header.  Wide enough to hold
/// every value the header parser accepts.
pub type RESPLength = i64;

/// Ways in which decoding a byte buffer can fail.
///
/// `OutOfBounds` means the buffer ends before the frame does: a streaming
/// caller treats it as "need more bytes" rather than as malformed input.
#[derive(Debug, Clone, Copy, PartialEq, Eq, Structural)]
pub enum RESPError {
    /// Text that had to be UTF-8 was not.
    FromUtf8,
    /// A declared length is negative (other than the null sentinel) or the
    /// payload it declares is not terminated by CRLF.
    IncorrectLength(RESPLength),
    /// The frame runs past the end of the buffer.
    OutOfBounds(usize),
    /// An integer or length field is not a well-formed decimal number.
    ParseInt,
    /// An internal inconsistency that decoding never actually reaches.
    Unknown,
    /// The leading byte names no known value type.
    WrongType,
}

pub type RESPResult<T> = Result<T, RESPError>;

} // verus!
