use vstd::prelude::*;

verus! {

/// Why an operation on CAA record data was refused.
#[derive(Debug, PartialEq, Eq)]
pub enum CaaError {
    /// The property tag is neither `issue` nor `issuewild` (in any letter case).
    NotIssueTag,
    /// The property tag is not `iodef` (in any letter case).
    NotIodefTag,
    /// The bytes are not valid UTF-8.
    InvalidUtf8,
    /// The issuer domain name does not follow the name syntax.
    InvalidName,
    /// A byte that cannot stand in a parameter tag, where one was expected.
    BadKeyCharacter(u8),
    /// A byte that cannot stand in a parameter value.
    BadValueCharacter(u8),
    /// The value ended inside a parameter tag, before its `=`.
    KeyMissingValue(String),
    /// The iodef value is not an absolute URL.
    InvalidUrl,
    /// The tag length is not in `1..=15`.
    TagLengthOutOfBounds,
    /// A tag byte is not an ASCII letter or digit, or the tag does not fit
    /// in the record data.
    TagCharacterOutOfBounds,
    /// The input ended before the record did.
    UnexpectedEnd,
    /// The tag is longer than 255 bytes.
    TagTooLong,
    /// The buffer is too small for the tag.
    InsufficientCapacity,
}

} // verus!
