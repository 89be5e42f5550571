//! The error model shared by the parser, the field operations and the
//! serializer. Errors are values; no operation panics.

use vstd::prelude::*;

verus! {

/// Everything that can go wrong while parsing, reading, editing or emitting
/// a message. Parse failures carry the offending field position.
#[derive(Clone, Copy, Debug, PartialEq, Eq, Structural)]
pub enum IsoError {
    /// The addressed field is not present in the message.
    FieldNotSet,
    /// The destination buffer is smaller than what had to be written.
    BufferTooSmall,
    /// A payload handed to `set_field` exceeds the field's declared bounds.
    PayloadTooLong,
    /// The addressed position lies outside the message specification.
    PositionOutOfRange,
    /// A variable-length prefix at this position holds a non-digit byte, or
    /// the bitmap text is not hexadecimal.
    MalformedLengthPrefix { position: usize },
    /// Reading the field at this position would run past the buffer's end.
    TruncatedMessage { position: usize },
    /// The field at this position declares a bitmap size discipline the
    /// parser cannot honour there.
    UnsupportedCharClass { position: usize },
}

} // verus!
