//! The tokens of a JSON text.

use vstd::prelude::*;
use crate::text::str_eq;

verus! {

/// The content of a string literal.
#[derive(Debug, PartialEq, Eq)]
pub enum MaybeString<'a> {
    /// The literal held no escape: the part of the input between its
    /// quotes, as it stands there.
    NotEscaped(&'a str),
    /// The literal held an escape: its content with every escape replaced
    /// by the code point it stands for.
    Escaped(String),
}

/// A number literal.
#[derive(Debug, PartialEq, Eq)]
pub enum ParseNumber<'a> {
    /// An integer of 64 bits.
    I64(i64),
    /// A decimal floating-point literal, as it stands in the input.
    F64(&'a str),
}

/// A token, with the bytes of the input that it spans: the offset of its
/// first byte and the offset after its last.
#[derive(Debug, PartialEq, Eq)]
pub enum Token<'a> {
    Operator(&'a str, (usize, usize)),
    Bracket(&'a str, (usize, usize)),
    Null((usize, usize)),
    Bool(bool, (usize, usize)),
    String(MaybeString<'a>, (usize, usize)),
    Number(ParseNumber<'a>, (usize, usize)),
    EOF,
}

/// A [`MaybeString`] as a sequence of code points.
pub enum StringView {
    NotEscaped(Seq<char>),
    Escaped(Seq<char>),
}

/// A [`ParseNumber`] with a mathematical integer, or the literal's text.
pub enum NumberView {
    I64(int),
    F64(Seq<char>),
}

/// A [`Token`] over sequences of code points and mathematical integers.
pub enum TokenView {
    Operator(Seq<char>, (int, int)),
    Bracket(Seq<char>, (int, int)),
    Null((int, int)),
    Bool(bool, (int, int)),
    String(StringView, (int, int)),
    Number(NumberView, (int, int)),
    EOF,
}

impl StringView {
    /// The content, whichever way it is held.
    pub open spec fn text(self) -> Seq<char> {
        match self {
            StringView::NotEscaped(s) => s,
            StringView::Escaped(s) => s,
        }
    }
}

impl TokenView {
    /// The bytes that the token spans; the end of the text spans none.
    pub open spec fn span(self) -> Option<(int, int)> {
        match self {
            TokenView::Operator(_, span) => Some(span),
            TokenView::Bracket(_, span) => Some(span),
            TokenView::Null(span) => Some(span),
            TokenView::Bool(_, span) => Some(span),
            TokenView::String(_, span) => Some(span),
            TokenView::Number(_, span) => Some(span),
            TokenView::EOF => None,
        }
    }

    /// Whether the token is the bracket or the operator `op`.
    pub open spec fn is_op(self, op: Seq<char>) -> bool {
        match self {
            TokenView::Bracket(s, _) => s == op,
            TokenView::Operator(s, _) => s == op,
            _ => false,
        }
    }
}

impl<'a> View for MaybeString<'a> {
    type V = StringView;

    open spec fn view(&self) -> StringView {
        match *self {
            MaybeString::NotEscaped(s) => StringView::NotEscaped(s@),
            MaybeString::Escaped(s) => StringView::Escaped(s@),
        }
    }
}

impl<'a> View for ParseNumber<'a> {
    type V = NumberView;

    open spec fn view(&self) -> NumberView {
        match *self {
            ParseNumber::I64(v) => NumberView::I64(v as int),
            ParseNumber::F64(s) => NumberView::F64(s@),
        }
    }
}

/// A span over mathematical integers.
pub open spec fn span_view(span: (usize, usize)) -> (int, int) {
    (span.0 as int, span.1 as int)
}

impl<'a> View for Token<'a> {
    type V = TokenView;

    open spec fn view(&self) -> TokenView {
        match *self {
            Token::Operator(s, span) => TokenView::Operator(s@, span_view(span)),
            Token::Bracket(s, span) => TokenView::Bracket(s@, span_view(span)),
            Token::Null(span) => TokenView::Null(span_view(span)),
            Token::Bool(b, span) => TokenView::Bool(b, span_view(span)),
            Token::String(s, span) => TokenView::String(s@, span_view(span)),
            Token::Number(n, span) => TokenView::Number(n@, span_view(span)),
            Token::EOF => TokenView::EOF,
        }
    }
}

impl<'a> MaybeString<'a> {
    /// The content as an owned text.
    pub fn into_string(self) -> (s: String)
        ensures
            s@ == self@.text(),
    {
        match self {
            MaybeString::NotEscaped(s) => s.to_owned(),
            MaybeString::Escaped(s) => s,
        }
    }

    /// The content as a borrowed text.
    pub fn as_str(&self) -> (s: &str)
        ensures
            s@ == self@.text(),
    {
        match self {
            MaybeString::NotEscaped(s) => s,
            MaybeString::Escaped(s) => s.as_str(),
        }
    }
}

impl<'a> Token<'a> {
    /// Whether the token is `[`.
    pub fn is_left_bracket(&self) -> (r: bool)
        ensures
            r == self@.is_op(seq!['[']),
    {
        proof {
            reveal_strlit("[");
            assert("["@ =~= seq!['[']);
        }
        self.checkOp("[")
    }

    /// Whether the token is `]`.
    pub fn is_right_bracket(&self) -> (r: bool)
        ensures
            r == self@.is_op(seq![']']),
    {
        proof {
            reveal_strlit("]");
            assert("]"@ =~= seq![']']);
        }
        self.checkOp("]")
    }

    /// Whether the token is `{`.
    pub fn is_left_curly(&self) -> (r: bool)
        ensures
            r == self@.is_op(seq!['{']),
    {
        proof {
            reveal_strlit("{");
            assert("{"@ =~= seq!['{']);
        }
        self.checkOp("{")
    }

    /// Whether the token is `}`.
    pub fn is_right_curly(&self) -> (r: bool)
        ensures
            r == self@.is_op(seq!['}']),
    {
        proof {
            reveal_strlit("}");
            assert("}"@ =~= seq!['}']);
        }
        self.checkOp("}")
    }

    /// Whether the token is `:`.
    pub fn is_colon(&self) -> (r: bool)
        ensures
            r == self@.is_op(seq![':']),
    {
        proof {
            reveal_strlit(":");
            assert(":"@ =~= seq![':']);
        }
        self.checkOp(":")
    }

    /// Whether the token is `,`.
    pub fn is_comma(&self) -> (r: bool)
        ensures
            r == self@.is_op(seq![',']),
    {
        proof {
            reveal_strlit(",");
            assert(","@ =~= seq![',']);
        }
        self.checkOp(",")
    }

    /// Whether the token is the bracket or the operator written `op`.
    #[allow(non_snake_case)]
    pub fn checkOp(&self, op: &str) -> (r: bool)
        ensures
            r == self@.is_op(op@),
    {
        match self {
            Token::Bracket(s, _) => str_eq(s, op),
            Token::Operator(s, _) => str_eq(s, op),
            _ => false,
        }
    }
}

} // verus!
