use vstd::prelude::*;

verus! {

/// Spec-level form of `DecodeError`; the field name carried by `MissingField`
/// is a character sequence.
#[verifier::ext_equal]
pub enum DecodeErr {
    MalformedEncoding,
    MalformedHeader,
    MalformedEntry,
    MissingField(Seq<char>),
}

/// An error from decoding one object out of a decompressed byte stream.
#[derive(Debug, Clone, PartialEq, Eq)]
pub enum DecodeError {
    /// Bytes that should hold UTF-8 text are not valid UTF-8.
    MalformedEncoding,
    /// The object header is not `<type> <size>` with exactly one space, or the
    /// size is not a decimal number that fits in `usize`.
    MalformedHeader,
    /// A tree entry header is not `<mode> <name>` with exactly one space, its
    /// mode is not a decimal number that fits in `u32`, or the raw hash bytes
    /// after it are truncated.
    MalformedEntry,
    /// A commit or tag payload lacks the named required header field.
    MissingField(String),
}

impl View for DecodeError {
    type V = DecodeErr;

    open spec fn view(&self) -> DecodeErr {
        match self {
            DecodeError::MalformedEncoding => DecodeErr::MalformedEncoding,
            DecodeError::MalformedHeader => DecodeErr::MalformedHeader,
            DecodeError::MalformedEntry => DecodeErr::MalformedEntry,
            DecodeError::MissingField(f) => DecodeErr::MissingField(f@),
        }
    }
}

/// An error from the object database: reading one object, or walking the
/// commit graph. Each variant names the hash that was being processed when
/// the fault arose.
#[derive(Debug, Clone, PartialEq, Eq)]
pub enum DbError {
    /// The hash does not map to a stored object.
    NotFound(String),
    /// The stored bytes for the hash could not be read, or are not a valid
    /// compressed stream.
    IoError(String),
    /// The stored bytes for the hash decompressed, but the object did not
    /// decode.
    DecodeFailure(String, DecodeError),
    /// The graph walk reached the hash, and it holds something other than a
    /// commit.
    NotACommit(String),
}

} // verus!
