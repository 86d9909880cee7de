use vstd::prelude::*;

verus! {

/// Why a sequence of bytes was not accepted.
#[derive(Debug, Clone, Copy, PartialEq, Eq, Structural)]
pub enum CodecError {
    /// A header that is not exactly twelve bytes long.
    MalformedHeader,
    /// A compression pointer that does not lead back to a well-formed name.
    InvalidPointer,
    /// The bytes end before the name does.
    TruncatedName,
    /// The bytes end before the type and class of a question.
    TruncatedQuestion,
    /// The bytes end before the fixed fields or the payload of a record.
    TruncatedRecord,
    /// A label of more than 63 bytes.
    LabelTooLong,
    /// A payload whose length does not fit the record's type.
    MalformedRData,
}

} // verus!
