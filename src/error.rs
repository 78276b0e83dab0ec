use vstd::prelude::*;

verus! {

/// Every way in which scanning, conversion or evaluation can fail.
#[derive(Debug)]
pub enum Error {
    Custom(String),
    MismatchedParentheses,
    ExpectedNumberOnStack,
    UnknownFunction(String),
    BadExpression,
    UnexpectedChar(char),
    ParseNumber(String),
}

/// The mathematical model of an [`Error`]: text payloads as character sequences.
pub enum SpecError {
    Custom(Seq<char>),
    MismatchedParentheses,
    ExpectedNumberOnStack,
    UnknownFunction(Seq<char>),
    BadExpression,
    UnexpectedChar(char),
    ParseNumber(Seq<char>),
}

impl View for Error {
    type V = SpecError;

    open spec fn view(&self) -> SpecError {
        match self {
            Error::Custom(m) => SpecError::Custom(m@),
            Error::MismatchedParentheses => SpecError::MismatchedParentheses,
            Error::ExpectedNumberOnStack => SpecError::ExpectedNumberOnStack,
            Error::UnknownFunction(s) => SpecError::UnknownFunction(s@),
            Error::BadExpression => SpecError::BadExpression,
            Error::UnexpectedChar(c) => SpecError::UnexpectedChar(*c),
            Error::ParseNumber(s) => SpecError::ParseNumber(s@),
        }
    }
}

/// The text that describes an error to a person.
pub open spec fn describe(e: SpecError) -> Seq<char> {
    match e {
        SpecError::Custom(m) => m,
        SpecError::MismatchedParentheses => "Mismatched parentheses"@,
        SpecError::ExpectedNumberOnStack => "Expected number on stack"@,
        SpecError::UnknownFunction(s) => "Unknown function: "@ + s,
        SpecError::BadExpression => "Bad Expression"@,
        SpecError::UnexpectedChar(c) => "Unexpected character: "@.push(c),
        SpecError::ParseNumber(s) => "Failed to parse number: "@ + s,
    }
}

/// Relies on `String::push`: it appends the character to the end of the string.
#[verifier::external_body]
pub(crate) fn push_char(s: &mut String, c: char)
    ensures
        final(s)@ == old(s)@.push(c),
{
    s.push(c)
}

impl Error {
    /// The text that describes the error to a person.
    pub fn message(&self) -> (r: String)
        ensures
            r@ == describe(self@),
    {
        match self {
            Error::Custom(m) => m.clone(),
            Error::MismatchedParentheses => String::from_str("Mismatched parentheses"),
            Error::ExpectedNumberOnStack => String::from_str("Expected number on stack"),
            Error::UnknownFunction(s) => {
                let mut r = String::from_str("Unknown function: ");
                r.append(s.as_str());
                r
            },
            Error::BadExpression => String::from_str("Bad Expression"),
            Error::UnexpectedChar(c) => {
                let mut r = String::from_str("Unexpected character: ");
                push_char(&mut r, *c);
                r
            },
            Error::ParseNumber(s) => {
                let mut r = String::from_str("Failed to parse number: ");
                r.append(s.as_str());
                r
            },
        }
    }
}

} // verus!
