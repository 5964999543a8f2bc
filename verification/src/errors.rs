//! What can be wrong with a word handed to [`crate::ChemString::parse`].

use vstd::prelude::*;
use vstd::string::StringExecFns;

verus! {

/// Why a word was refused.
#[derive(Debug, Clone, Copy, PartialEq, Eq, Structural)]
pub enum ChemStringErrors {
    /// Nothing is left of the word once its whitespace is taken out.
    EmptyString,
    /// The word holds a character that is neither whitespace nor an ASCII letter.
    InvalidCharacter,
}

impl ChemStringErrors {
    /// The text that describes the error to a person.
    pub open spec fn message_text(self) -> Seq<char> {
        match self {
            ChemStringErrors::EmptyString => "Empty string provided. Provide a non-empty string."@,
            ChemStringErrors::InvalidCharacter => "The string contains invalid characters. ChemString only supports ASCII alphabetic characters."@,
        }
    }

    /// Returns the description of the error.
    pub fn message(&self) -> (text: String)
        ensures
            text@ == self.message_text(),
    {
        match self {
            ChemStringErrors::EmptyString => String::from_str(
                "Empty string provided. Provide a non-empty string.",
            ),
            ChemStringErrors::InvalidCharacter => String::from_str(
                "The string contains invalid characters. ChemString only supports ASCII alphabetic characters.",
            ),
        }
    }
}

} // verus!
