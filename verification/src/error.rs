//! The errors that abort a structural decode or encode.

use vstd::prelude::*;

verus! {

/// A fatal, structural decoding error.  Semantic discrepancies between a
/// patch and a schema are not errors of this kind: they are collected and
/// reported alongside a best-effort result instead.
#[derive(Clone, Copy, Debug, PartialEq, Eq, Structural)]
pub enum Error {
    /// Fewer than 8 bytes remain where a chunk header is expected, or a
    /// fixed-size record is shorter than its layout demands.
    Truncated,
    /// A declared (or overridden) chunk length overruns the buffer.
    LengthOverrun,
    /// An envelope's declared length cannot even hold its content type id.
    EnvelopeTooShort,
    /// The byte order was not given, and the leading id is not a recognized
    /// envelope marker in either orientation.
    ByteOrderRequired,
    /// The top-level chunk matches no known (envelope, content) pair.
    FormatNotSupported,
    /// A data chunk stands where an envelope was expected, or the other way
    /// around.
    WrongChunkType,
    /// A fixed-size record has the wrong length.
    WrongLength,
    /// A fixed record carries a version number other than the one required.
    WrongVersion,
    /// A parameter value carries a tag that is neither integer nor float.
    UnsupportedValueType,
}

} // verus!
