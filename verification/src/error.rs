use vstd::prelude::*;

verus! {

/// Why a read from, or a seek in, the byte source failed.
#[derive(Debug, Clone, Copy, PartialEq, Eq, Structural)]
pub enum IoFailure {
    /// The source ended before the requested bytes were read.
    UnexpectedEof,
    /// A length prefix ran on past the longest encoding of an integer.
    InvalidData,
    /// A seek would have moved the position past the largest offset.
    InvalidInput,
}

/// The kind of a [`CarSplitterError`]: the error without its message.
#[derive(Debug, Clone, Copy, PartialEq, Eq, Structural)]
pub enum ErrorKind {
    InvalidFile,
    Parsing,
    InvalidSection,
    /// The byte source failed, and how.
    Io(IoFailure),
    /// A declared length is above the section limit; carries that length.
    TooLargeSection(usize),
    NotFound,
}

/// Everything that can go wrong while reading or splitting an archive.
#[derive(Debug, PartialEq, Eq)]
pub enum CarSplitterError {
    /// The archive is not one this library splits: wrong version, several
    /// roots, or a root of the wrong shape.
    InvalidFile(String),
    /// Bytes could not be decoded, or a node's links have the wrong shape.
    Parsing(String),
    /// A block's bytes were asked for by an identifier that is not indexed.
    InvalidSection(String),
    /// The byte source failed.
    Io(IoFailure),
    /// A declared length is above the section limit; carries that length.
    TooLargeSection(usize),
    /// A block's value was asked for by an identifier that is not indexed.
    NotFound(String),
}

impl CarSplitterError {
    /// The kind of this error.
    pub open spec fn spec_kind(&self) -> ErrorKind {
        match self {
            CarSplitterError::InvalidFile(_) => ErrorKind::InvalidFile,
            CarSplitterError::Parsing(_) => ErrorKind::Parsing,
            CarSplitterError::InvalidSection(_) => ErrorKind::InvalidSection,
            CarSplitterError::Io(failure) => ErrorKind::Io(*failure),
            CarSplitterError::TooLargeSection(len) => ErrorKind::TooLargeSection(*len),
            CarSplitterError::NotFound(_) => ErrorKind::NotFound,
        }
    }

    /// The kind of this error.
    #[verifier::when_used_as_spec(spec_kind)]
    pub fn kind(&self) -> (k: ErrorKind)
        ensures
            k == self.spec_kind(),
    {
        match self {
            CarSplitterError::InvalidFile(_) => ErrorKind::InvalidFile,
            CarSplitterError::Parsing(_) => ErrorKind::Parsing,
            CarSplitterError::InvalidSection(_) => ErrorKind::InvalidSection,
            CarSplitterError::Io(failure) => ErrorKind::Io(*failure),
            CarSplitterError::TooLargeSection(len) => ErrorKind::TooLargeSection(*len),
            CarSplitterError::NotFound(_) => ErrorKind::NotFound,
        }
    }
}

} // verus!
