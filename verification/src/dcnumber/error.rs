use vstd::prelude::*;

verus! {

/// Reasons why a sequence of bytes does not denote an unsigned decimal number.
#[derive(Copy, Clone, Debug, PartialEq, Eq, Structural)]
pub enum ParseDCNumberError {
    EmptyString,
    RepeatedDot,
    InvalidDigit,
    InvalidRadix,
}

impl ParseDCNumberError {
    /// The human readable description of the error.
    pub fn message(&self) -> (m: &'static str)
        ensures
            m@ == self.spec_message(),
    {
        match self {
            ParseDCNumberError::EmptyString => "empty string",
            ParseDCNumberError::RepeatedDot => "repeated dot",
            ParseDCNumberError::InvalidDigit => "invalid digit",
            ParseDCNumberError::InvalidRadix => "invalid radix",
        }
    }

    pub open spec fn spec_message(&self) -> Seq<char> {
        match self {
            ParseDCNumberError::EmptyString => "empty string"@,
            ParseDCNumberError::RepeatedDot => "repeated dot"@,
            ParseDCNumberError::InvalidDigit => "invalid digit"@,
            ParseDCNumberError::InvalidRadix => "invalid radix"@,
        }
    }
}

} // verus!
