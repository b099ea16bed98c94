use vstd::prelude::*;

use crate::AccessorParserSpan;

verus! {

/// Why parsing stopped, with the span of the offending text.
#[derive(Clone, Copy, Debug, PartialEq, Eq, Structural)]
pub struct AccessorParserError {
    pub kind: AccessorParserErrorKind,
    pub span: AccessorParserSpan,
}

impl AccessorParserError {
    pub fn kind(&self) -> (r: AccessorParserErrorKind)
        ensures
            r == self.kind,
    {
        self.kind
    }

    pub fn span(&self) -> (r: AccessorParserSpan)
        ensures
            r == self.span,
    {
        self.span
    }
}

#[derive(Clone, Copy, Debug, PartialEq, Eq, Structural)]
pub enum AccessorParserErrorKind {
    /// An unescaped reserved character.
    InvalidCharacter(char),
    /// A backslash followed by a character that has no escape.
    InvalidEscapeCharacter(char),
    /// A malformed `\u{HEX}` escape.
    InvalidUnicode(InvalidUnicodeError),
    /// The text does not open with `${`.
    InvalidAccessorKey,
    /// A `]` or `}` that should close a construct is missing.
    MissingClosingBracket,
    /// No key starts here: neither `.` nor `[` comes next.
    InvalidAccessor,
    /// The text between `[` and `]` is not a non-negative integer.
    NotANumber,
    /// The input ended where a delimiter was expected (a closing quote).
    Unknown,
}

#[derive(Clone, Copy, Debug, PartialEq, Eq, Structural)]
pub enum InvalidUnicodeError {
    MissingOpeningBracket,
    MissingClosingBracket,
    InvalidCodeLength,
    InvalidHexadecimal,
    InvalidCodePoint,
}

/// A failure of the key reader: `Recoverable` when no key starts at the
/// current position (the key list simply ends there), `Fatal` once a key's
/// prefix (`.` or `[`) has been read and what follows is malformed.
#[derive(Clone, Copy, Debug, PartialEq, Eq, Structural)]
pub enum ParseFailure {
    Recoverable(AccessorParserError),
    Fatal(AccessorParserError),
}

/// Why an accessor does not fit a path schema, with the span to underline.
#[derive(Clone, Debug)]
pub struct AccessorValidationError {
    pub kind: AccessorValidationErrorKind,
    pub span: AccessorParserSpan,
}

#[derive(Clone, Debug)]
pub enum AccessorValidationErrorKind {
    /// The path ends on a map, which has no text form, inside interpolation.
    NotStringRepresentable,
    /// A numeric index applied to a map.
    NumericIndexInMap,
    /// A key applied to a scalar field.
    NotIndexable,
    /// A name that the map does not hold; `possible_keys` are the names it
    /// holds, closest first.
    UnknownKey { possible_keys: Vec<String> },
}

} // verus!
