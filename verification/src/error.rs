//! The ways in which encoding a value can fail.

use vstd::prelude::*;
use vstd::string::StringExecFns;

verus! {

/// A value that has no shell literal, kept for diagnostics.
#[derive(Debug, Clone, Copy, PartialEq, Eq)]
pub enum Rejected {
    /// The absent value.
    Absent,
    /// A boolean, with the flag that was offered.
    Boolean(bool),
}

/// Why a value could not be encoded. Every failure is permanent: the same
/// value into the same sink fails the same way again.
#[derive(Debug, Clone, Copy, PartialEq, Eq)]
pub enum EncodeError {
    /// The value, or an element of it, is absent or a boolean.
    UnsupportedValue(Rejected),
    /// A sequence or mapping stands where only a scalar may stand.
    NestedCompositeNotSupported,
    /// The sink did not take all of the text.
    EncodingFailure,
}

impl Rejected {
    /// The sentence that explains the rejection.
    pub open spec fn reason(self) -> Seq<char> {
        match self {
            Rejected::Absent => "none values cannot be represented"@,
            Rejected::Boolean(true) => "boolean meaning is syntax-context-dependent: true"@,
            Rejected::Boolean(false) => "boolean meaning is syntax-context-dependent: false"@,
        }
    }
}

impl EncodeError {
    /// The text of [`EncodeError::message`].
    pub open spec fn message_text(self) -> Seq<char> {
        match self {
            EncodeError::UnsupportedValue(rejected) => rejected.reason(),
            EncodeError::NestedCompositeNotSupported =>
                "a sequence or mapping nested in another is not supported"@,
            EncodeError::EncodingFailure => "the sink did not take all of the text"@,
        }
    }

    /// A description for the user, naming the offending value or shape.
    pub fn message(&self) -> (text: String)
        ensures
            text@ == self.message_text(),
    {
        match self {
            EncodeError::UnsupportedValue(Rejected::Absent) => String::from_str(
                "none values cannot be represented",
            ),
            EncodeError::UnsupportedValue(Rejected::Boolean(true)) => String::from_str(
                "boolean meaning is syntax-context-dependent: true",
            ),
            EncodeError::UnsupportedValue(Rejected::Boolean(false)) => String::from_str(
                "boolean meaning is syntax-context-dependent: false",
            ),
            EncodeError::NestedCompositeNotSupported => String::from_str(
                "a sequence or mapping nested in another is not supported",
            ),
            EncodeError::EncodingFailure => String::from_str(
                "the sink did not take all of the text",
            ),
        }
    }
}

} // verus!
