//! The errors of decoding and encoding.

use vstd::prelude::*;

verus! {

/// Why a text could not be decoded. Positions are byte offsets into the
/// input.
#[derive(Debug, PartialEq, Eq)]
pub enum Error {
    /// Raised by the code that drives the codec, with its own message.
    Message(String),
    InvalidCharInString(usize, char),
    /// A backslash in a string is followed by a code point that starts no
    /// escape.
    InvalidEscape(usize, char),
    /// A `\u` or `\U` escape holds a code point that is no hex digit.
    InvalidHexEscape(usize, char),
    /// The number of a `\u` or `\U` escape is the number of no code point.
    InvalidEscapeValue(usize, u32),
    Unexpected(usize, char),
    /// The input ends inside a string.
    UnterminatedString(usize),
    /// The input ends inside `true`, `false` or `null`.
    EofWhileParsingValue(usize),
    /// Inside `true`, `false` or `null` another code point was found than
    /// the word has at that place.
    Wanted { at: usize, expected: char, found: char },
    /// A number is neither an integer of 64 bits nor a decimal float; or a
    /// value was to begin where none can.
    InvalidNumber(String),
    NumberOutOfRange,
    /// A code point that starts no token.
    NotSupportedChar(char, usize),
    /// Another token was found than the bracket or operator asked for.
    OpNotExist(String),
    JSONKeyMustBeString(),
    /// A struct was to be decoded where neither `{` nor `[` follows.
    InvalidStructString(),
    /// An enum was to be decoded where no `{` follows.
    InvalidEnumString(),
}

/// An [`Error`] with texts as sequences of code points and positions as
/// integers.
pub enum ErrorView {
    Message(Seq<char>),
    InvalidCharInString(int, char),
    InvalidEscape(int, char),
    InvalidHexEscape(int, char),
    InvalidEscapeValue(int, u32),
    Unexpected(int, char),
    UnterminatedString(int),
    EofWhileParsingValue(int),
    Wanted { at: int, expected: char, found: char },
    InvalidNumber(Seq<char>),
    NumberOutOfRange,
    NotSupportedChar(char, int),
    OpNotExist(Seq<char>),
    JSONKeyMustBeString,
    InvalidStructString,
    InvalidEnumString,
}

impl View for Error {
    type V = ErrorView;

    open spec fn view(&self) -> ErrorView {
        match *self {
            Error::Message(s) => ErrorView::Message(s@),
            Error::InvalidCharInString(at, c) => ErrorView::InvalidCharInString(at as int, c),
            Error::InvalidEscape(at, c) => ErrorView::InvalidEscape(at as int, c),
            Error::InvalidHexEscape(at, c) => ErrorView::InvalidHexEscape(at as int, c),
            Error::InvalidEscapeValue(at, v) => ErrorView::InvalidEscapeValue(at as int, v),
            Error::Unexpected(at, c) => ErrorView::Unexpected(at as int, c),
            Error::UnterminatedString(at) => ErrorView::UnterminatedString(at as int),
            Error::EofWhileParsingValue(at) => ErrorView::EofWhileParsingValue(at as int),
            Error::Wanted { at, expected, found } => ErrorView::Wanted {
                at: at as int,
                expected,
                found,
            },
            Error::InvalidNumber(s) => ErrorView::InvalidNumber(s@),
            Error::NumberOutOfRange => ErrorView::NumberOutOfRange,
            Error::NotSupportedChar(c, at) => ErrorView::NotSupportedChar(c, at as int),
            Error::OpNotExist(s) => ErrorView::OpNotExist(s@),
            Error::JSONKeyMustBeString() => ErrorView::JSONKeyMustBeString,
            Error::InvalidStructString() => ErrorView::InvalidStructString,
            Error::InvalidEnumString() => ErrorView::InvalidEnumString,
        }
    }
}

impl ErrorView {
    /// The message that an error shows.
    pub open spec fn text(self) -> Seq<char> {
        match self {
            ErrorView::Message(msg) => msg,
            _ => "unexpected end of input"@,
        }
    }
}

impl Error {
    /// An error with a message of the caller's own.
    pub fn custom(msg: String) -> (e: Error)
        ensures
            e@ == ErrorView::Message(msg@),
    {
        Error::Message(msg)
    }

    /// The message of the error: its own text where it has one.
    pub fn to_string(&self) -> (s: String)
        ensures
            s@ == self@.text(),
    {
        match self {
            Error::Message(msg) => msg.clone(),
            _ => "unexpected end of input".to_owned(),
        }
    }
}

} // verus!
