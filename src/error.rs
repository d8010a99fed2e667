use vstd::prelude::*;

verus! {

/// What the grammar would have accepted where a syntax error was found.
#[derive(Debug, Clone, Copy, PartialEq, Eq, Structural)]
pub enum Expected {
    /// The start of a value: `{`, `[`, `"`, a number, `true`, `false` or `null`.
    Value,
    /// A quoted key, at the start of an object member.
    Key,
    /// The `:` after a key.
    Colon,
    /// `,` or `}` after an object member.
    CommaOrBrace,
    /// `,` or `]` after an array element.
    CommaOrBracket,
    /// The `"` that closes a string.
    ClosingQuote,
    /// One of `"`, `\`, `/`, `b`, `f`, `n`, `r`, `t`, `u` after a backslash.
    Escape,
    /// Four hexadecimal digits after `\u`.
    HexDigit,
    /// A decimal digit in a number.
    Digit,
    /// Nothing but whitespace after the document's value.
    EndOfInput,
}

/// A token that is well formed but whose content cannot be decoded.
#[derive(Debug, Clone, Copy, PartialEq, Eq, Structural)]
pub enum DecodeProblem {
    /// A character below U+0020 written into a string without an escape.
    ControlCharacter,
    /// A `\u` escape of a surrogate that is not a high surrogate followed by
    /// a `\u` escape of a low one.
    LoneSurrogate,
    /// A number whose decimal point position lies past `MAX_POINT`: a double
    /// would hold infinity there, which has no JSON text. (Numbers below the
    /// range read as zero instead.)
    NumberOutOfRange,
}

/// Why a text is not a JSON document, and where (a character offset).
#[derive(Debug, Clone, Copy, PartialEq, Eq, Structural)]
pub enum JsonError {
    Syntax { position: usize, expected: Expected },
    Decode { position: usize, problem: DecodeProblem },
}

pub open spec fn syntax_error(position: int, expected: Expected) -> JsonError {
    JsonError::Syntax { position: position as usize, expected }
}

pub open spec fn decode_error(position: int, problem: DecodeProblem) -> JsonError {
    JsonError::Decode { position: position as usize, problem }
}

} // verus!
