//! The ways in which the codec can fail.

use vstd::prelude::*;

verus! {

/// Why an operation of the codec did not produce a result.
#[derive(Debug, PartialEq, Eq)]
pub enum HuffmanError {
    /// A tree was asked for an empty frequency table.
    InvalidInput,
    /// The header does not consist of well-formed `symbol:count` pairs. The
    /// field is the first token that is not one; it is empty where the
    /// header is not even text.
    MalformedHeader(String),
    /// The text holds a symbol that the code table has no code for.
    UnknownSymbol(char),
    /// The text holds a symbol that the header cannot carry: the pair
    /// delimiter or the line end.
    UnsupportedSymbol(char),
    /// The bits are more than a bit sequence can hold.
    TooLarge,
}

/// A failure as contracts speak of it: the error, with the token as a
/// sequence of characters.
pub enum Failure {
    InvalidInput,
    MalformedHeader(Seq<char>),
    UnknownSymbol(char),
    UnsupportedSymbol(char),
    TooLarge,
}

impl View for HuffmanError {
    type V = Failure;

    open spec fn view(&self) -> Failure {
        match self {
            HuffmanError::InvalidInput => Failure::InvalidInput,
            HuffmanError::MalformedHeader(token) => Failure::MalformedHeader(token@),
            HuffmanError::UnknownSymbol(c) => Failure::UnknownSymbol(*c),
            HuffmanError::UnsupportedSymbol(c) => Failure::UnsupportedSymbol(*c),
            HuffmanError::TooLarge => Failure::TooLarge,
        }
    }
}

/// A short description of a failure.
pub open spec fn description(failure: Failure) -> Seq<char> {
    match failure {
        Failure::InvalidInput => "no tree can be built from an empty frequency table"@,
        Failure::MalformedHeader(_) => "the header holds a malformed token"@,
        Failure::UnknownSymbol(_) => "the text holds a symbol without a code"@,
        Failure::UnsupportedSymbol(_) => "the text holds a symbol that the header cannot carry"@,
        Failure::TooLarge => "the bits are more than a bit sequence can hold"@,
    }
}

impl HuffmanError {
    /// A short description of the failure.
    pub fn message(&self) -> (text: &'static str)
        ensures
            text@ == description(self@),
    {
        match self {
            HuffmanError::InvalidInput => "no tree can be built from an empty frequency table",
            HuffmanError::MalformedHeader(_) => "the header holds a malformed token",
            HuffmanError::UnknownSymbol(_) => "the text holds a symbol without a code",
            HuffmanError::UnsupportedSymbol(_) => "the text holds a symbol that the header cannot carry",
            HuffmanError::TooLarge => "the bits are more than a bit sequence can hold",
        }
    }
}

} // verus!
