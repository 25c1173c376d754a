use vstd::prelude::*;

verus! {

/// What went wrong while decoding.
#[derive(Debug, Clone, Copy, PartialEq, Eq, Structural)]
pub enum ErrorKind {
    /// The input ended where more was required.
    UnexpectedEof,
    /// A character that no production accepts at this point.
    UnexpectedToken,
    /// The input ended inside a string.
    UnterminatedString,
    /// A backslash escape outside the escape set, or a malformed `\u` escape.
    InvalidEscape,
    /// A number lexeme that breaks the number grammar.
    InvalidNumber,
    /// An object member that does not start with a string key.
    ExpectedStringKey,
    /// An object key not followed by `:`.
    ExpectedColon,
    /// An element or member not followed by `,` or the closing bracket.
    ExpectedCommaOrEnd,
    /// Arrays and objects nested deeper than the parser's limit.
    NestingTooDeep,
}

/// A decoding failure: its kind and the character offset where it was detected.
#[derive(Debug, Clone, Copy, PartialEq, Eq, Structural)]
pub struct ParseError {
    pub kind: ErrorKind,
    pub position: usize,
}

} // verus!
