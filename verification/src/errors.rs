//! The error taxonomy of the engine.
//!
//! Every failure a decoder can report is one of these kinds; the kind is the
//! stable part of the contract, the message text is not. Lookup and content
//! retrieval never fail: absence is modeled as `None`, not as an error.

use vstd::prelude::*;

verus! {

/// One terminal decoding failure.
#[derive(Clone, Copy, PartialEq, Eq, Structural, Debug)]
pub enum Error {
    /// The input is not the JSON text the decoder accepts.
    InvalidJson,
    /// The JSON document's `version` field is present but is not `3`.
    UnsupportedVersion,
    /// A group in the `mappings` field has a field count other than 1, 4
    /// or 5, or a delta-decoded field leaves the range its record holds,
    /// or an index field points past its string table.
    InvalidMappingGroup,
    /// A byte outside the base64 alphabet stands in a VLQ stream.
    MalformedVlq,
    /// A VLQ stream ends in the middle of a value (continuation bit set on
    /// its last digit).
    TruncatedVlq,
    /// A VLQ value needs more than 32 significant magnitude bits, or more
    /// than seven base64 digits.
    VlqOverflow,
    /// A memdb buffer does not begin with the magic and format version this
    /// engine writes.
    UnsupportedMemdbVersion,
    /// A memdb buffer is shorter than its declared contents, holds trailing
    /// bytes, or its records are not internally consistent.
    TruncatedMemdb,
}

impl Error {
    /// A human-readable rendering of the kind, for boundaries that need a
    /// message string.
    pub fn message(&self) -> &'static str {
        match self {
            Error::InvalidJson => "invalid JSON",
            Error::UnsupportedVersion => "unsupported source map version",
            Error::InvalidMappingGroup => "invalid mapping group",
            Error::MalformedVlq => "malformed VLQ data",
            Error::TruncatedVlq => "truncated VLQ data",
            Error::VlqOverflow => "VLQ value overflow",
            Error::UnsupportedMemdbVersion => "unsupported memdb version",
            Error::TruncatedMemdb => "truncated memdb data",
        }
    }
}

} // verus!
