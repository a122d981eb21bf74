//! The errors a StarDict dictionary can raise: construction-time validation
//! failures of the descriptor, index and synonym files, and per-lookup
//! failures of the payload reads.

use vstd::prelude::*;

verus! {

/// A named field of the descriptor file, carried by the descriptor's parse
/// errors.
#[derive(Debug, Clone, Copy, PartialEq, Eq, Structural)]
pub enum Field {
    Version,
    Bookname,
    Wordcount,
    Idxfilesize,
    Sametypesequence,
    Idxoffsetbits,
    Synwordcount,
}

/// An error of the dictionary engine.
///
/// Construction-time failures (`NotFound` for a required file,
/// `MissingField` and `MalformedInteger` from the descriptor, `SizeMismatch`
/// and `CountMismatch` from the index, `CorruptSynonym` from the synonym
/// table) abort construction entirely. Per-lookup failures (`NotFound` for a
/// word, `TruncatedRead`, `Utf8Decode`) are local to one call and leave the
/// engine usable.
#[derive(Debug, Clone, PartialEq, Eq)]
pub enum StardictError {
    /// A required file is absent, or a looked-up word has no entry.
    NotFound,
    /// A required descriptor field is absent.
    MissingField(Field),
    /// A descriptor field that must be an integer holds something else; the
    /// raw bytes of the offending value are carried along.
    MalformedInteger(Field, Vec<u8>),
    /// The index file's actual byte size disagrees with the descriptor.
    SizeMismatch { expected: usize, actual: usize },
    /// The number of index records disagrees with the descriptor.
    CountMismatch { expected: usize, actual: usize },
    /// A payload read reaches past the end of the payload file.
    TruncatedRead,
    /// A payload entry is not valid UTF-8.
    Utf8Decode,
    /// A synonym record is malformed or refers to no index position.
    CorruptSynonym,
}

/// The mathematical image of a [`StardictError`].
#[verifier::ext_equal]
pub ghost enum StardictErrorV {
    NotFound,
    MissingField(Field),
    MalformedInteger(Field, Seq<u8>),
    SizeMismatch { expected: nat, actual: nat },
    CountMismatch { expected: nat, actual: nat },
    TruncatedRead,
    Utf8Decode,
    CorruptSynonym,
}

impl View for StardictError {
    type V = StardictErrorV;

    open spec fn view(&self) -> StardictErrorV {
        match self {
            StardictError::NotFound => StardictErrorV::NotFound,
            StardictError::MissingField(f) => StardictErrorV::MissingField(*f),
            StardictError::MalformedInteger(f, raw) => StardictErrorV::MalformedInteger(*f, raw@),
            StardictError::SizeMismatch { expected, actual } => StardictErrorV::SizeMismatch {
                expected: *expected as nat,
                actual: *actual as nat,
            },
            StardictError::CountMismatch { expected, actual } => StardictErrorV::CountMismatch {
                expected: *expected as nat,
                actual: *actual as nat,
            },
            StardictError::TruncatedRead => StardictErrorV::TruncatedRead,
            StardictError::Utf8Decode => StardictErrorV::Utf8Decode,
            StardictError::CorruptSynonym => StardictErrorV::CorruptSynonym,
        }
    }
}

} // verus!
