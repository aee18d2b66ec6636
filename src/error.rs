use vstd::prelude::*;

verus! {

/// Every way in which decoding a gzip stream can fail.
#[derive(Debug, Clone, Copy, PartialEq, Eq, Structural)]
pub enum DecodeError {
    /// The input ended in the middle of a field.
    UnexpectedEnd,
    /// The member does not start with the bytes 0x1f 0x8b.
    BadMagic,
    /// The member's compression method is not DEFLATE.
    UnsupportedMethod,
    /// The header checksum does not match the header bytes.
    HeaderCrcMismatch,
    /// A zero-terminated header string runs to the end of the input.
    UnterminatedString,
    /// A block header names the reserved block type.
    ReservedBlockType,
    /// A stored block's LEN is not the complement of its NLEN.
    StoredLengthMismatch,
    /// A set of code lengths is over-subscribed or longer than 15 bits, or no code matches.
    MalformedCode,
    /// A code decodes to a symbol that the alphabet reserves.
    ReservedSymbol,
    /// A repeat-previous code length comes first.
    NoPrevLength,
    /// The code-length repeats run past the number of lengths announced.
    OverrunLengths,
    /// A back-reference has a zero length or distance, or reaches past the history.
    BadBackReference,
    /// The member's data checksum does not match the decoded bytes.
    CrcMismatch,
    /// The member's size field does not match the number of decoded bytes.
    LengthMismatch,
    /// The output sink accepted no more bytes.
    SinkFull,
}

} // verus!
