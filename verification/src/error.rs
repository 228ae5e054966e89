//! Why a speech request is refused.

use vstd::prelude::*;
use vstd::string::StringExecFns;

verus! {

/// A malformed speech request.
#[derive(Clone, Copy, Debug, PartialEq, Eq, Structural)]
pub enum SpeechError {
    /// The rate is a NaN or an infinity.
    NonFiniteRate,
    /// The rate is zero or negative.
    NonPositiveRate,
}

impl SpeechError {
    /// The text of the message for this error.
    pub open spec fn message_text(self) -> Seq<char> {
        match self {
            SpeechError::NonFiniteRate => "speech rate must be a finite number"@,
            SpeechError::NonPositiveRate => "speech rate must be greater than zero"@,
        }
    }

    /// A message that describes the error to the caller.
    pub fn message(&self) -> (text: String)
        ensures
            text@ == self.message_text(),
    {
        match self {
            SpeechError::NonFiniteRate => String::from_str("speech rate must be a finite number"),
            SpeechError::NonPositiveRate => String::from_str(
                "speech rate must be greater than zero",
            ),
        }
    }
}

} // verus!
