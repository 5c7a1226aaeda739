//! The failures that decoding can report.

use vstd::prelude::*;

verus! {

/// The header line of a commit that a failure is about.
#[derive(Clone, Copy, Debug, PartialEq, Eq, Structural)]
pub enum CommitField {
    Tree,
    Author,
    Committer,
}

/// What is wrong with a header line of a commit.
#[derive(Clone, Copy, Debug, PartialEq, Eq, Structural)]
pub enum FieldFault {
    Missing,
    Duplicate,
    Malformed,
}

/// Every way in which a decode can fail.
#[derive(Clone, Copy, Debug, PartialEq, Eq, Structural)]
pub enum Error {
    /// A hash was not 20 bytes, or not 40 hex digits.
    MalformedHash,
    /// A zlib stream could not be inflated.
    CorruptStream,
    /// The `<type> <size>` line of an object is missing or ill-formed.
    UnrecognizedHeader,
    /// The declared size of an object is not the length of its body.
    SizeMismatch,
    /// A tree entry ends before its separator, terminator or hash.
    TruncatedTreeEntry,
    /// A header line of a commit is missing, repeated or ill-formed.
    MalformedCommit { field: CommitField, fault: FieldFault },
    /// An index or a pack has a version other than 2.
    UnsupportedVersion,
    /// The pack and its index disagree on the number of objects.
    ObjectCountMismatch,
    /// A pack entry has a type code that names no kind of entry.
    InvalidObjectType,
    /// The output of a delta is not as long as the delta declares.
    DeltaSizeMismatch,
    /// The base of a delta is not as long as the delta declares.
    DeltaBaseSizeMismatch,
    /// A chain of deltas is longer than the limit allows.
    DeltaChainTooDeep,
    /// The pack is larger than 2 GiB.
    PackTooLarge,
    /// A text field is not UTF-8.
    InvalidUtf8,
    /// The index ends early, or its tables contradict each other.
    MalformedIndex,
    /// The pack ends early, lacks its magic, or an entry points outside it.
    MalformedPack,
    /// A delta ends early or reads outside its base.
    MalformedDelta,
    /// The zlib encoder reported a failure.
    CompressFailed,
}

impl Error {
    /// The failure in words.
    pub fn message(&self) -> (res: String)
        ensures
            res@ == message_of(*self)@,
    {
        message_text(*self).to_owned()
    }
}

/// The words for a failure.
pub open spec fn message_of(e: Error) -> &'static str {
    match e {
        Error::MalformedHash => "malformed hash",
        Error::CorruptStream => "corrupt zlib stream",
        Error::UnrecognizedHeader => "unrecognized header",
        Error::SizeMismatch => "size mismatch",
        Error::TruncatedTreeEntry => "truncated tree entry",
        Error::MalformedCommit { field, fault } => match (fault, field) {
            (FieldFault::Missing, CommitField::Tree) => "missing tree",
            (FieldFault::Missing, CommitField::Author) => "missing author",
            (FieldFault::Missing, CommitField::Committer) => "missing committer",
            (FieldFault::Duplicate, CommitField::Tree) => "duplicate tree",
            (FieldFault::Duplicate, CommitField::Author) => "duplicate author",
            (FieldFault::Duplicate, CommitField::Committer) => "duplicate committer",
            (FieldFault::Malformed, CommitField::Tree) => "malformed tree",
            (FieldFault::Malformed, CommitField::Author) => "malformed author",
            (FieldFault::Malformed, CommitField::Committer) => "malformed committer",
        },
        Error::UnsupportedVersion => "unsupported version",
        Error::ObjectCountMismatch => "object count mismatch",
        Error::InvalidObjectType => "invalid pack object type",
        Error::DeltaSizeMismatch => "delta result size mismatch",
        Error::DeltaBaseSizeMismatch => "delta base size mismatch",
        Error::DeltaChainTooDeep => "delta chain too deep",
        Error::PackTooLarge => "large pack file not supported",
        Error::InvalidUtf8 => "invalid utf-8",
        Error::MalformedIndex => "malformed index",
        Error::MalformedPack => "malformed pack",
        Error::MalformedDelta => "malformed delta",
        Error::CompressFailed => "compression failed",
    }
}

/// The words for a failure.
fn message_text(e: Error) -> (res: &'static str)
    ensures
        res == message_of(e),
{
    match e {
        Error::MalformedHash => "malformed hash",
        Error::CorruptStream => "corrupt zlib stream",
        Error::UnrecognizedHeader => "unrecognized header",
        Error::SizeMismatch => "size mismatch",
        Error::TruncatedTreeEntry => "truncated tree entry",
        Error::MalformedCommit { field, fault } => match (fault, field) {
            (FieldFault::Missing, CommitField::Tree) => "missing tree",
            (FieldFault::Missing, CommitField::Author) => "missing author",
            (FieldFault::Missing, CommitField::Committer) => "missing committer",
            (FieldFault::Duplicate, CommitField::Tree) => "duplicate tree",
            (FieldFault::Duplicate, CommitField::Author) => "duplicate author",
            (FieldFault::Duplicate, CommitField::Committer) => "duplicate committer",
            (FieldFault::Malformed, CommitField::Tree) => "malformed tree",
            (FieldFault::Malformed, CommitField::Author) => "malformed author",
            (FieldFault::Malformed, CommitField::Committer) => "malformed committer",
        },
        Error::UnsupportedVersion => "unsupported version",
        Error::ObjectCountMismatch => "object count mismatch",
        Error::InvalidObjectType => "invalid pack object type",
        Error::DeltaSizeMismatch => "delta result size mismatch",
        Error::DeltaBaseSizeMismatch => "delta base size mismatch",
        Error::DeltaChainTooDeep => "delta chain too deep",
        Error::PackTooLarge => "large pack file not supported",
        Error::InvalidUtf8 => "invalid utf-8",
        Error::MalformedIndex => "malformed index",
        Error::MalformedPack => "malformed pack",
        Error::MalformedDelta => "malformed delta",
        Error::CompressFailed => "compression failed",
    }
}

} // verus!
