//! The decoder: what a token stream asks of the code that rebuilds a value
//! from it.
//!
//! A value is rebuilt by its own type's code, which asks the decoder for
//! one step at a time. Each step reads tokens and answers what the caller
//! has to do next; the caller comes back for the parts of a sequence, a
//! map or an enum.

use vstd::prelude::*;
use crate::error::{Error, ErrorView};
use crate::grammar::{first_position, lex};
use crate::number::{parse_integer, parse_signed, parse_unsigned};
use crate::token::{MaybeString, NumberView, ParseNumber, StringView, Token, TokenView};
use crate::tokenizer::{token_result_view, Tokenizer};

verus! {

/// What the caller has to visit for the value that starts at a token.
#[derive(Debug, PartialEq, Eq)]
pub enum Visit<'a> {
    Bool(bool),
    /// `null`.
    Unit,
    I64(i64),
    /// A float, as the decimal literal that the input holds.
    F64(&'a str),
    /// A string that held an escape, decoded.
    String(String),
    /// A string that held no escape: a part of the input.
    BorrowedStr(&'a str),
    /// A sequence, after its `[`: its elements follow.
    SeqStart,
    /// A map, after its `{`: its entries follow.
    MapStart,
}

/// A [`Visit`] over sequences of code points and mathematical integers.
pub enum VisitView {
    Bool(bool),
    Unit,
    I64(int),
    F64(Seq<char>),
    String(Seq<char>),
    BorrowedStr(Seq<char>),
    SeqStart,
    MapStart,
}

impl<'a> View for Visit<'a> {
    type V = VisitView;

    open spec fn view(&self) -> VisitView {
        match *self {
            Visit::Bool(b) => VisitView::Bool(b),
            Visit::Unit => VisitView::Unit,
            Visit::I64(v) => VisitView::I64(v as int),
            Visit::F64(s) => VisitView::F64(s@),
            Visit::String(s) => VisitView::String(s@),
            Visit::BorrowedStr(s) => VisitView::BorrowedStr(s@),
            Visit::SeqStart => VisitView::SeqStart,
            Visit::MapStart => VisitView::MapStart,
        }
    }
}

/// The key of a map entry that was asked for as an integer.
#[derive(Debug, PartialEq, Eq)]
pub enum IntegerKey<T> {
    /// The key reads as an integer of the type asked for.
    Integer(T),
    /// The key does not: its text.
    Text(String),
}

/// An [`IntegerKey`] over mathematical integers.
pub enum KeyView {
    Integer(int),
    Text(Seq<char>),
}

/// The text of `"abc"`, which the error for a token that starts no value
/// holds.
pub open spec fn no_value_text() -> Seq<char> {
    seq!['a', 'b', 'c']
}

/// What is to be visited for the value that `token` starts; `None` where
/// no value starts with it.
pub open spec fn visit_of(token: TokenView) -> Option<VisitView> {
    match token {
        TokenView::Bool(b, _) => Some(VisitView::Bool(b)),
        TokenView::Null(_) => Some(VisitView::Unit),
        TokenView::Number(NumberView::I64(v), _) => Some(VisitView::I64(v)),
        TokenView::Number(NumberView::F64(s), _) => Some(VisitView::F64(s)),
        TokenView::String(StringView::Escaped(s), _) => Some(VisitView::String(s)),
        TokenView::String(StringView::NotEscaped(s), _) => Some(VisitView::BorrowedStr(s)),
        _ => if token.is_op(seq!['[']) {
            Some(VisitView::SeqStart)
        } else if token.is_op(seq!['{']) {
            Some(VisitView::MapStart)
        } else {
            None
        },
    }
}

/// What a value that starts at the position `i` asks the caller to visit.
pub open spec fn value_at(text: Seq<char>, i: int) -> Result<VisitView, ErrorView> {
    match lex(text, i).result {
        Ok(token) => match visit_of(token) {
            Some(v) => Ok(v),
            None => Err(ErrorView::InvalidNumber(no_value_text())),
        },
        Err(e) => Err(e),
    }
}

/// Whether the token at the position `i` is the bracket or operator `op`;
/// the error of reading it, where it cannot be read.
pub open spec fn op_at(text: Seq<char>, i: int, op: Seq<char>) -> Result<bool, ErrorView> {
    match lex(text, i).result {
        Ok(token) => Ok(token.is_op(op)),
        Err(e) => Err(e),
    }
}

/// The outcome of asking for the bracket or operator `op` at `i`.
pub open spec fn expected_at(text: Seq<char>, i: int, op: Seq<char>) -> Result<(), ErrorView> {
    match op_at(text, i, op) {
        Ok(found) => if found {
            Ok(())
        } else {
            Err(ErrorView::OpNotExist(op))
        },
        Err(e) => Err(e),
    }
}

/// The key that the string token at `i` gives: its content where the token
/// is a string.
pub open spec fn key_at(text: Seq<char>, i: int) -> Result<StringView, ErrorView> {
    match lex(text, i).result {
        Ok(TokenView::String(s, _)) => Ok(s),
        Ok(_) => Err(ErrorView::JSONKeyMustBeString),
        Err(e) => Err(e),
    }
}

/// The key at `i`, asked for as an integer between `min` and `max`: the
/// integer that the key's text denotes, or the text where it denotes none.
pub open spec fn integer_key_at(
    text: Seq<char>,
    i: int,
    signed: bool,
    min: int,
    max: int,
) -> Result<KeyView, ErrorView> {
    match key_at(text, i) {
        Ok(s) => match parse_integer(s.text(), signed, min, max) {
            Some(v) => Ok(KeyView::Integer(v)),
            None => Ok(KeyView::Text(s.text())),
        },
        Err(e) => Err(e),
    }
}

/// The outcome of a step that tells what to visit, over views.
pub open spec fn visit_result_view(r: Result<Visit, Error>) -> Result<VisitView, ErrorView> {
    match r {
        Ok(v) => Ok(v@),
        Err(e) => Err(e@),
    }
}

/// The outcome of a step that gives nothing, over views.
pub open spec fn unit_result_view(r: Result<(), Error>) -> Result<(), ErrorView> {
    match r {
        Ok(_) => Ok(()),
        Err(e) => Err(e@),
    }
}

/// The outcome of a step that gives a string, over views.
pub open spec fn string_result_view(r: Result<MaybeString, Error>) -> Result<
    StringView,
    ErrorView,
> {
    match r {
        Ok(s) => Ok(s@),
        Err(e) => Err(e@),
    }
}

/// A decoder over a text.
pub struct Deserializer<'a> {
    input: &'a str,
    tokenizer: Tokenizer<'a>,
}

impl<'a> Deserializer<'a> {
    #[verifier::type_invariant]
    spec fn inv(self) -> bool {
        self.tokenizer.text() == self.input@
    }

    /// The text that is decoded.
    pub closed spec fn text(self) -> Seq<char> {
        self.tokenizer.text()
    }

    /// The position reached.
    pub closed spec fn cursor(self) -> int {
        self.tokenizer.cursor()
    }

    /// A decoder at the start of `s`, behind its byte-order mark if it
    /// starts with one.
    pub fn new(s: &'a str) -> (de: Self)
        ensures
            de.text() == s@,
            de.cursor() == first_position(s@),
    {
        Deserializer { input: s, tokenizer: Tokenizer::new(s) }
    }

    /// The text that is decoded.
    pub fn input(&self) -> (s: &'a str)
        ensures
            s@ == self.text(),
    {
        proof {
            use_type_invariant(self);
        }
        self.input
    }

    /// The next token; the position moves behind it.
    pub fn next(&mut self) -> (r: Result<Token<'a>, Error>)
        ensures
            final(self).text() == old(self).text(),
            token_result_view(r) == lex(old(self).text(), old(self).cursor()).result,
            final(self).cursor() == lex(old(self).text(), old(self).cursor()).end,
            0 <= old(self).cursor() <= final(self).cursor() <= old(self).text().len(),
    {
        proof {
            use_type_invariant(&*self);
        }
        let mut tokenizer = self.tokenizer;
        let r = tokenizer.next();
        *self = Deserializer { input: self.input, tokenizer };
        r
    }

    /// The next token; the position stays.
    pub fn peek(&self) -> (r: Result<Token<'a>, Error>)
        ensures
            token_result_view(r) == lex(self.text(), self.cursor()).result,
            0 <= self.cursor() <= self.text().len(),
    {
        self.tokenizer.peek()
    }

    /// Reads the next token, which has to be the bracket or the operator
    /// written `op`.
    pub fn expect(&mut self, op: String) -> (r: Result<(), Error>)
        ensures
            final(self).text() == old(self).text(),
            final(self).cursor() == lex(old(self).text(), old(self).cursor()).end,
            unit_result_view(r) == expected_at(old(self).text(), old(self).cursor(), op@),
            0 <= old(self).cursor() <= final(self).cursor() <= old(self).text().len(),
    {
        proof {
            use_type_invariant(&*self);
        }
        let mut tokenizer = self.tokenizer;
        let r = tokenizer.expect(op);
        *self = Deserializer { input: self.input, tokenizer };
        r
    }

    /// Reads the token that a value starts with and tells what to visit
    /// for it. For a sequence or a map the caller goes on with a
    /// [`SeqAccess`] or a [`MapAccess`].
    pub fn deserialize_any(&mut self) -> (r: Result<Visit<'a>, Error>)
        ensures
            final(self).text() == old(self).text(),
            final(self).cursor() == lex(old(self).text(), old(self).cursor()).end,
            visit_result_view(r) == value_at(old(self).text(), old(self).cursor()),
            0 <= old(self).cursor() <= final(self).cursor() <= old(self).text().len(),
    {
        match self.next() {
            Ok(token) => match token {
                Token::Bool(val, _) => Ok(Visit::Bool(val)),
                Token::Null(_) => Ok(Visit::Unit),
                Token::Number(val, _) => match val {
                    ParseNumber::I64(num) => Ok(Visit::I64(num)),
                    ParseNumber::F64(num) => Ok(Visit::F64(num)),
                },
                Token::String(val, _) => match val {
                    MaybeString::Escaped(s) => Ok(Visit::String(s)),
                    MaybeString::NotEscaped(s) => Ok(Visit::BorrowedStr(s)),
                },
                s => {
                    if s.is_left_bracket() {
                        Ok(Visit::SeqStart)
                    } else if s.is_left_curly() {
                        Ok(Visit::MapStart)
                    } else {
                        proof {
                            reveal_strlit("abc");
                            assert("abc"@ =~= no_value_text());
                        }
                        Err(Error::InvalidNumber("abc".to_owned()))
                    }
                },
            },
            Err(e) => Err(e),
        }
    }

    /// Starts a struct, which is written as a map or as a sequence: reads
    /// its `{` or `[`. Where another token follows, it is not read.
    pub fn deserialize_struct(&mut self) -> (r: Result<Visit<'a>, Error>)
        ensures
            final(self).text() == old(self).text(),
            visit_result_view(r) == (match op_at(
                old(self).text(),
                old(self).cursor(),
                seq!['{'],
            ) {
                Ok(curly) => if curly {
                    Ok(VisitView::MapStart)
                } else if op_at(old(self).text(), old(self).cursor(), seq!['[']) == Ok::<
                    bool,
                    ErrorView,
                >(true) {
                    Ok(VisitView::SeqStart)
                } else {
                    Err(ErrorView::InvalidStructString)
                },
                Err(e) => Err(e),
            }),
            final(self).cursor() == (if r is Ok {
                lex(old(self).text(), old(self).cursor()).end
            } else {
                old(self).cursor()
            }),
            0 <= old(self).cursor() <= final(self).cursor() <= old(self).text().len(),
    {
        let opens = match self.peek() {
            Ok(token) => token.is_left_curly() || token.is_left_bracket(),
            Err(e) => {
                return Err(e);
            },
        };
        if opens {
            proof {
                assert(seq!['{'][0] != seq!['['][0]);
            }
            return self.deserialize_any();
        }
        Err(Error::InvalidStructString())
    }

    /// Starts an enum, which is written as a map of one entry from the
    /// name of the variant to its content: reads its `{`. The caller goes
    /// on with a [`VariantAccess`].
    pub fn deserialize_enum(&mut self) -> (r: Result<(), Error>)
        ensures
            final(self).text() == old(self).text(),
            final(self).cursor() == lex(old(self).text(), old(self).cursor()).end,
            unit_result_view(r) == (match op_at(
                old(self).text(),
                old(self).cursor(),
                seq!['{'],
            ) {
                Ok(curly) => if curly {
                    Ok(())
                } else {
                    Err(ErrorView::InvalidEnumString)
                },
                Err(e) => Err(e),
            }),
            0 <= old(self).cursor() <= final(self).cursor() <= old(self).text().len(),
    {
        match self.next() {
            Ok(token) => {
                if token.is_left_curly() {
                    Ok(())
                } else {
                    Err(Error::InvalidEnumString())
                }
            },
            Err(e) => Err(e),
        }
    }
}

/// The walk over the entries of a map, after its `{`.
pub struct MapAccess {
    first: bool,
}

impl MapAccess {
    /// Whether no entry was asked for yet.
    pub closed spec fn is_first(self) -> bool {
        self.first
    }

    /// The walk before its first entry.
    pub fn new() -> (r: Self)
        ensures
            r.is_first(),
    {
        MapAccess { first: true }
    }

    /// Goes to the next key and tells whether there is one: reads the `}`
    /// that ends the map, or the `,` before any entry but the first. The
    /// caller then decodes the key with [`MapKey`].
    pub fn next_key_seed(&mut self, de: &mut Deserializer) -> (r: Result<bool, Error>)
        ensures
            final(de).text() == old(de).text(),
            0 <= old(de).cursor() <= final(de).cursor() <= old(de).text().len(),
            step_result_view(r) == next_part(
                old(de).text(),
                old(de).cursor(),
                seq!['}'],
                old(self).is_first(),
            ),
            final(de).cursor() == next_part_end(
                old(de).text(),
                old(de).cursor(),
                seq!['}'],
                old(self).is_first(),
            ),
            final(self).is_first() == (old(self).is_first() && r != Ok::<bool, Error>(true)),
    {
        let closes = match de.peek() {
            Ok(token) => token.is_right_curly(),
            Err(e) => {
                return Err(e);
            },
        };
        if closes {
            match de.next() {
                Ok(_) => {},
                Err(e) => {
                    return Err(e);
                },
            }
            return Ok(false);
        }
        if self.first {
            self.first = false
        } else {
            proof {
                reveal_strlit(",");
                assert(","@ =~= seq![',']);
            }
            match de.expect(",".to_owned()) {
                Ok(_) => {},
                Err(e) => {
                    return Err(e);
                },
            }
        }
        Ok(true)
    }

    /// Goes from a key to its value: reads the `:` between them. The
    /// caller then decodes the value.
    pub fn next_value_seed(&mut self, de: &mut Deserializer) -> (r: Result<(), Error>)
        ensures
            final(de).text() == old(de).text(),
            final(de).cursor() == lex(old(de).text(), old(de).cursor()).end,
            unit_result_view(r) == expected_at(old(de).text(), old(de).cursor(), seq![':']),
            0 <= old(de).cursor() <= final(de).cursor() <= old(de).text().len(),
            final(self).is_first() == old(self).is_first(),
    {
        proof {
            reveal_strlit(":");
            assert(":"@ =~= seq![':']);
        }
        de.expect(":".to_owned())
    }
}

/// Whether a sequence or a map, read at the position `i`, has a further
/// part: `Ok(false)` where the bracket `close` stands there; else
/// `Ok(true)`, for any part but the first only behind a `,`.
pub open spec fn next_part(text: Seq<char>, i: int, close: Seq<char>, first: bool) -> Result<
    bool,
    ErrorView,
> {
    match op_at(text, i, close) {
        Ok(closes) => if closes {
            Ok(false)
        } else if first {
            Ok(true)
        } else {
            match expected_at(text, i, seq![',']) {
                Ok(_) => Ok(true),
                Err(e) => Err(e),
            }
        },
        Err(e) => Err(e),
    }
}

/// The position after the step that [`next_part`] describes: the token at
/// `i` is read, unless it cannot be read or starts the first part.
pub open spec fn next_part_end(text: Seq<char>, i: int, close: Seq<char>, first: bool) -> int {
    match op_at(text, i, close) {
        Ok(closes) => if closes || !first {
            lex(text, i).end
        } else {
            i
        },
        Err(_) => i,
    }
}

/// The outcome of a step to a further part, over views.
pub open spec fn step_result_view(r: Result<bool, Error>) -> Result<bool, ErrorView> {
    match r {
        Ok(b) => Ok(b),
        Err(e) => Err(e@),
    }
}

/// The walk over the elements of a sequence, after its `[`.
pub struct SeqAccess {
    first: bool,
}

impl SeqAccess {
    /// Whether no element was asked for yet.
    pub closed spec fn is_first(self) -> bool {
        self.first
    }

    /// The walk before its first element.
    pub fn new() -> (r: Self)
        ensures
            r.is_first(),
    {
        SeqAccess { first: true }
    }

    /// Goes to the next element and tells whether there is one: reads the
    /// `]` that ends the sequence, or the `,` before any element but the
    /// first. The caller then decodes the element.
    pub fn next_element_seed(&mut self, de: &mut Deserializer) -> (r: Result<bool, Error>)
        ensures
            final(de).text() == old(de).text(),
            0 <= old(de).cursor() <= final(de).cursor() <= old(de).text().len(),
            step_result_view(r) == next_part(
                old(de).text(),
                old(de).cursor(),
                seq![']'],
                old(self).is_first(),
            ),
            final(de).cursor() == next_part_end(
                old(de).text(),
                old(de).cursor(),
                seq![']'],
                old(self).is_first(),
            ),
            final(self).is_first() == (old(self).is_first() && r != Ok::<bool, Error>(true)),
    {
        let closes = match de.peek() {
            Ok(token) => token.is_right_bracket(),
            Err(e) => {
                return Err(e);
            },
        };
        if closes {
            match de.next() {
                Ok(_) => {},
                Err(e) => {
                    return Err(e);
                },
            }
            return Ok(false);
        }
        if self.first {
            self.first = false;
        } else {
            proof {
                reveal_strlit(",");
                assert(","@ =~= seq![',']);
            }
            match de.expect(",".to_owned()) {
                Ok(_) => {},
                Err(e) => {
                    return Err(e);
                },
            }
        }
        Ok(true)
    }
}

/// An integer key or its text, with the integer given by `value`.
pub open spec fn key_result_view<T>(
    r: Result<IntegerKey<T>, Error>,
    value: spec_fn(T) -> int,
) -> Result<KeyView, ErrorView> {
    match r {
        Ok(IntegerKey::Integer(v)) => Ok(KeyView::Integer(value(v))),
        Ok(IntegerKey::Text(s)) => Ok(KeyView::Text(s@)),
        Err(e) => Err(e@),
    }
}

/// The outcome of a step that gives a text, over views.
pub open spec fn text_result_view(r: Result<String, Error>) -> Result<Seq<char>, ErrorView> {
    match r {
        Ok(s) => Ok(s@),
        Err(e) => Err(e@),
    }
}

/// The content of the key at `i`.
pub open spec fn key_text_at(text: Seq<char>, i: int) -> Result<Seq<char>, ErrorView> {
    match key_at(text, i) {
        Ok(s) => Ok(s.text()),
        Err(e) => Err(e),
    }
}

/// The decoding of the key of a map entry. The keys of a JSON text are
/// strings; a key that is asked for as an integer is read from the
/// string's content.
pub struct MapKey {}

impl MapKey {
    /// Decodes a key: reads the string that holds it.
    pub fn deserialize_any<'a>(de: &mut Deserializer<'a>) -> (r: Result<MaybeString<'a>, Error>)
        ensures
            final(de).text() == old(de).text(),
            final(de).cursor() == lex(old(de).text(), old(de).cursor()).end,
            0 <= old(de).cursor() <= final(de).cursor() <= old(de).text().len(),
            string_result_view(r) == key_at(old(de).text(), old(de).cursor()),
    {
        match de.next() {
            Ok(token) => match token {
                Token::String(s, _) => Ok(s),
                _ => Err(Error::JSONKeyMustBeString()),
            },
            Err(e) => Err(e),
        }
    }

    /// Reads the string that holds a key and gives its content.
    fn key_text<'a>(de: &mut Deserializer<'a>) -> (r: Result<String, Error>)
        ensures
            final(de).text() == old(de).text(),
            final(de).cursor() == lex(old(de).text(), old(de).cursor()).end,
            0 <= old(de).cursor() <= final(de).cursor() <= old(de).text().len(),
            text_result_view(r) == key_text_at(old(de).text(), old(de).cursor()),
    {
        match MapKey::deserialize_any(de) {
            Ok(s) => Ok(s.into_string()),
            Err(e) => Err(e),
        }
    }

    /// Decodes a key that is asked for as an `i8`.
    pub fn deserialize_i8<'a>(de: &mut Deserializer<'a>) -> (r: Result<IntegerKey<i8>, Error>)
        ensures
            final(de).text() == old(de).text(),
            final(de).cursor() == lex(old(de).text(), old(de).cursor()).end,
            0 <= old(de).cursor() <= final(de).cursor() <= old(de).text().len(),
            key_result_view(r, |v: i8| v as int) == integer_key_at(
                old(de).text(),
                old(de).cursor(),
                true,
                i8::MIN as int,
                i8::MAX as int,
            ),
    {
        match MapKey::key_text(de) {
            Ok(tmp) => match parse_signed(tmp.as_str(), i8::MIN as i128, i8::MAX as i128) {
                Some(v) => Ok(IntegerKey::Integer(v as i8)),
                None => Ok(IntegerKey::Text(tmp)),
            },
            Err(e) => Err(e),
        }
    }

    /// Decodes a key that is asked for as an `i16`.
    pub fn deserialize_i16<'a>(de: &mut Deserializer<'a>) -> (r: Result<IntegerKey<i16>, Error>)
        ensures
            final(de).text() == old(de).text(),
            final(de).cursor() == lex(old(de).text(), old(de).cursor()).end,
            0 <= old(de).cursor() <= final(de).cursor() <= old(de).text().len(),
            key_result_view(r, |v: i16| v as int) == integer_key_at(
                old(de).text(),
                old(de).cursor(),
                true,
                i16::MIN as int,
                i16::MAX as int,
            ),
    {
        match MapKey::key_text(de) {
            Ok(tmp) => match parse_signed(tmp.as_str(), i16::MIN as i128, i16::MAX as i128) {
                Some(v) => Ok(IntegerKey::Integer(v as i16)),
                None => Ok(IntegerKey::Text(tmp)),
            },
            Err(e) => Err(e),
        }
    }

    /// Decodes a key that is asked for as an `i32`.
    pub fn deserialize_i32<'a>(de: &mut Deserializer<'a>) -> (r: Result<IntegerKey<i32>, Error>)
        ensures
            final(de).text() == old(de).text(),
            final(de).cursor() == lex(old(de).text(), old(de).cursor()).end,
            0 <= old(de).cursor() <= final(de).cursor() <= old(de).text().len(),
            key_result_view(r, |v: i32| v as int) == integer_key_at(
                old(de).text(),
                old(de).cursor(),
                true,
                i32::MIN as int,
                i32::MAX as int,
            ),
    {
        match MapKey::key_text(de) {
            Ok(tmp) => match parse_signed(tmp.as_str(), i32::MIN as i128, i32::MAX as i128) {
                Some(v) => Ok(IntegerKey::Integer(v as i32)),
                None => Ok(IntegerKey::Text(tmp)),
            },
            Err(e) => Err(e),
        }
    }

    /// Decodes a key that is asked for as an `i64`.
    pub fn deserialize_i64<'a>(de: &mut Deserializer<'a>) -> (r: Result<IntegerKey<i64>, Error>)
        ensures
            final(de).text() == old(de).text(),
            final(de).cursor() == lex(old(de).text(), old(de).cursor()).end,
            0 <= old(de).cursor() <= final(de).cursor() <= old(de).text().len(),
            key_result_view(r, |v: i64| v as int) == integer_key_at(
                old(de).text(),
                old(de).cursor(),
                true,
                i64::MIN as int,
                i64::MAX as int,
            ),
    {
        match MapKey::key_text(de) {
            Ok(tmp) => match parse_signed(tmp.as_str(), i64::MIN as i128, i64::MAX as i128) {
                Some(v) => Ok(IntegerKey::Integer(v as i64)),
                None => Ok(IntegerKey::Text(tmp)),
            },
            Err(e) => Err(e),
        }
    }

    /// Decodes a key that is asked for as an `i128`.
    pub fn deserialize_i128<'a>(de: &mut Deserializer<'a>) -> (r: Result<IntegerKey<i128>, Error>)
        ensures
            final(de).text() == old(de).text(),
            final(de).cursor() == lex(old(de).text(), old(de).cursor()).end,
            0 <= old(de).cursor() <= final(de).cursor() <= old(de).text().len(),
            key_result_view(r, |v: i128| v as int) == integer_key_at(
                old(de).text(),
                old(de).cursor(),
                true,
                i128::MIN as int,
                i128::MAX as int,
            ),
    {
        match MapKey::key_text(de) {
            Ok(tmp) => match parse_signed(tmp.as_str(), i128::MIN, i128::MAX) {
                Some(v) => Ok(IntegerKey::Integer(v)),
                None => Ok(IntegerKey::Text(tmp)),
            },
            Err(e) => Err(e),
        }
    }

    /// Decodes a key that is asked for as a `u8`.
    pub fn deserialize_u8<'a>(de: &mut Deserializer<'a>) -> (r: Result<IntegerKey<u8>, Error>)
        ensures
            final(de).text() == old(de).text(),
            final(de).cursor() == lex(old(de).text(), old(de).cursor()).end,
            0 <= old(de).cursor() <= final(de).cursor() <= old(de).text().len(),
            key_result_view(r, |v: u8| v as int) == integer_key_at(
                old(de).text(),
                old(de).cursor(),
                false,
                0,
                u8::MAX as int,
            ),
    {
        match MapKey::key_text(de) {
            Ok(tmp) => match parse_unsigned(tmp.as_str(), u8::MAX as u128) {
                Some(v) => Ok(IntegerKey::Integer(v as u8)),
                None => Ok(IntegerKey::Text(tmp)),
            },
            Err(e) => Err(e),
        }
    }

    /// Decodes a key that is asked for as a `u16`.
    pub fn deserialize_u16<'a>(de: &mut Deserializer<'a>) -> (r: Result<IntegerKey<u16>, Error>)
        ensures
            final(de).text() == old(de).text(),
            final(de).cursor() == lex(old(de).text(), old(de).cursor()).end,
            0 <= old(de).cursor() <= final(de).cursor() <= old(de).text().len(),
            key_result_view(r, |v: u16| v as int) == integer_key_at(
                old(de).text(),
                old(de).cursor(),
                false,
                0,
                u16::MAX as int,
            ),
    {
        match MapKey::key_text(de) {
            Ok(tmp) => match parse_unsigned(tmp.as_str(), u16::MAX as u128) {
                Some(v) => Ok(IntegerKey::Integer(v as u16)),
                None => Ok(IntegerKey::Text(tmp)),
            },
            Err(e) => Err(e),
        }
    }

    /// Decodes a key that is asked for as a `u32`.
    pub fn deserialize_u32<'a>(de: &mut Deserializer<'a>) -> (r: Result<IntegerKey<u32>, Error>)
        ensures
            final(de).text() == old(de).text(),
            final(de).cursor() == lex(old(de).text(), old(de).cursor()).end,
            0 <= old(de).cursor() <= final(de).cursor() <= old(de).text().len(),
            key_result_view(r, |v: u32| v as int) == integer_key_at(
                old(de).text(),
                old(de).cursor(),
                false,
                0,
                u32::MAX as int,
            ),
    {
        match MapKey::key_text(de) {
            Ok(tmp) => match parse_unsigned(tmp.as_str(), u32::MAX as u128) {
                Some(v) => Ok(IntegerKey::Integer(v as u32)),
                None => Ok(IntegerKey::Text(tmp)),
            },
            Err(e) => Err(e),
        }
    }

    /// Decodes a key that is asked for as a `u64`.
    pub fn deserialize_u64<'a>(de: &mut Deserializer<'a>) -> (r: Result<IntegerKey<u64>, Error>)
        ensures
            final(de).text() == old(de).text(),
            final(de).cursor() == lex(old(de).text(), old(de).cursor()).end,
            0 <= old(de).cursor() <= final(de).cursor() <= old(de).text().len(),
            key_result_view(r, |v: u64| v as int) == integer_key_at(
                old(de).text(),
                old(de).cursor(),
                false,
                0,
                u64::MAX as int,
            ),
    {
        match MapKey::key_text(de) {
            Ok(tmp) => match parse_unsigned(tmp.as_str(), u64::MAX as u128) {
                Some(v) => Ok(IntegerKey::Integer(v as u64)),
                None => Ok(IntegerKey::Text(tmp)),
            },
            Err(e) => Err(e),
        }
    }

    /// Decodes a key that is asked for as a `u128`.
    pub fn deserialize_u128<'a>(de: &mut Deserializer<'a>) -> (r: Result<IntegerKey<u128>, Error>)
        ensures
            final(de).text() == old(de).text(),
            final(de).cursor() == lex(old(de).text(), old(de).cursor()).end,
            0 <= old(de).cursor() <= final(de).cursor() <= old(de).text().len(),
            key_result_view(r, |v: u128| v as int) == integer_key_at(
                old(de).text(),
                old(de).cursor(),
                false,
                0,
                u128::MAX as int,
            ),
    {
        match MapKey::key_text(de) {
            Ok(tmp) => match parse_unsigned(tmp.as_str(), u128::MAX) {
                Some(v) => Ok(IntegerKey::Integer(v)),
                None => Ok(IntegerKey::Text(tmp)),
            },
            Err(e) => Err(e),
        }
    }
}

/// The walk through an enum, after its `{`: the name of the variant, a
/// `:`, the content of the variant and the `}`.
pub struct VariantAccess {}

impl VariantAccess {
    /// Goes from the name of the variant, which the caller has decoded as
    /// a value, to its content: reads the `:` between them.
    pub fn variant_seed(de: &mut Deserializer) -> (r: Result<(), Error>)
        ensures
            final(de).text() == old(de).text(),
            final(de).cursor() == lex(old(de).text(), old(de).cursor()).end,
            unit_result_view(r) == expected_at(old(de).text(), old(de).cursor(), seq![':']),
            0 <= old(de).cursor() <= final(de).cursor() <= old(de).text().len(),
    {
        proof {
            reveal_strlit(":");
            assert(":"@ =~= seq![':']);
        }
        de.expect(":".to_owned())
    }

    /// Ends the enum behind the content of its variant: reads the `}`.
    pub fn end(de: &mut Deserializer) -> (r: Result<(), Error>)
        ensures
            final(de).text() == old(de).text(),
            final(de).cursor() == lex(old(de).text(), old(de).cursor()).end,
            unit_result_view(r) == expected_at(old(de).text(), old(de).cursor(), seq!['}']),
            0 <= old(de).cursor() <= final(de).cursor() <= old(de).text().len(),
    {
        proof {
            reveal_strlit("}");
            assert("}"@ =~= seq!['}']);
        }
        de.expect("}".to_owned())
    }
}

} // verus!
