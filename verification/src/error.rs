use vstd::prelude::*;

verus! {

/// The ways an operation of this library can fail.
#[derive(Debug, Clone, Copy, PartialEq, Eq, Structural)]
pub enum HuffmanError {
    /// A tree was asked for, but the frequency table held no symbol.
    EmptyInput,
    /// A value other than 0 or 1 stood where a bit was expected.
    ByteConversion,
    /// Two symbols of a code table share one code.
    InvalidCodeTable,
}

impl HuffmanError {
    /// A sentence for people that names the failure.
    pub fn message(&self) -> (text: String)
        ensures
            *self == HuffmanError::EmptyInput ==> text@ == "Tree Error: Missing Left Node"@,
            *self == HuffmanError::ByteConversion ==> text@
                == "Binary String Conversion Error: Non-bit value encountered"@,
            *self == HuffmanError::InvalidCodeTable ==> text@
                == "Encoding Map Error: Two symbols share a code"@,
    {
        match self {
            HuffmanError::EmptyInput => String::from_str("Tree Error: Missing Left Node"),
            HuffmanError::ByteConversion => String::from_str(
                "Binary String Conversion Error: Non-bit value encountered",
            ),
            HuffmanError::InvalidCodeTable => String::from_str(
                "Encoding Map Error: Two symbols share a code",
            ),
        }
    }
}

} // verus!
