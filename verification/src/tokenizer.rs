//! The tokenizer: reads a text token by token.

use vstd::prelude::*;
use vstd::string::StringExecFns;
use crate::error::{Error, ErrorView};
use crate::grammar::{
    first_position, hex_digit_value, hex_run, hex_value, lemma_escape_end, lemma_hex_run_bounds,
    lex, lex_bool, lex_null, lex_number, lex_string, matched, number_char, number_end,
    scan_escape, scan_hex, scan_ident, scan_string, skip_whitespace, span, whitespace_char,
    Scanned,
};
use crate::number::{is_float_text, parse_signed};
use crate::text::{byte_offset, lemma_offset_step, slice, CharCursor};
use crate::token::{MaybeString, ParseNumber, Token, TokenView};

verus! {

/// The outcome of reading a token, over views.
pub open spec fn token_result_view(r: Result<Token, Error>) -> Result<TokenView, ErrorView> {
    match r {
        Ok(t) => Ok(t@),
        Err(e) => Err(e@),
    }
}

/// Whether a scan for something that carries no value ended as `r` did.
pub open spec fn same_outcome<T>(r: Result<(), Error>, scanned: Scanned<T>) -> bool {
    match r {
        Ok(_) => scanned.result is Ok,
        Err(e) => scanned.result == Err::<T, ErrorView>(e@),
    }
}

/// 16 to the power `k`.
spec fn pow16(k: nat) -> nat
    decreases k,
{
    if k == 0 {
        1
    } else {
        16 * pow16((k - 1) as nat)
    }
}

/// A text and a position in it.
#[derive(Clone, Copy)]
pub struct Tokenizer<'a> {
    input: &'a str,
    chars: CharCursor<'a>,
}

impl<'a> Tokenizer<'a> {
    #[verifier::type_invariant]
    spec fn inv(self) -> bool {
        let i = self.input@.len() - self.chars.remaining().len();
        &&& 0 <= i
        &&& self.chars.remaining() == self.input@.skip(i)
        &&& self.chars.position() == byte_offset(self.input@, i)
    }

    /// The text that is read.
    pub closed spec fn text(self) -> Seq<char> {
        self.input@
    }

    /// The position reached: the index of the next code point.
    pub closed spec fn cursor(self) -> int {
        self.input@.len() - self.chars.remaining().len()
    }

    /// A tokenizer at the start of `input`, behind its byte-order mark if
    /// it starts with one.
    pub fn new(input: &'a str) -> (t: Tokenizer<'a>)
        ensures
            t.text() == input@,
            t.cursor() == first_position(input@),
    {
        proof {
            assert(input@.skip(0) =~= input@);
            assert(input@.take(0) =~= Seq::<char>::empty());
        }
        let mut t = Tokenizer { input, chars: CharCursor::new(input) };
        t.eatc('\u{feff}');
        t
    }

    /// The next token; the position moves behind it.
    pub fn next(&mut self) -> (r: Result<Token<'a>, Error>)
        ensures
            final(self).text() == old(self).text(),
            token_result_view(r) == lex(old(self).text(), old(self).cursor()).result,
            final(self).cursor() == lex(old(self).text(), old(self).cursor()).end,
            0 <= old(self).cursor() <= final(self).cursor() <= old(self).text().len(),
    {
        proof {
            reveal(lex);
        }
        self.eat_whitespace();
        match self.next_char() {
            Some((start, c)) => {
                if c == '[' || c == ']' || c == '{' || c == '}' {
                    self.bracket_token(start)
                } else if c == ',' || c == ':' {
                    self.operator_token(start)
                } else if c == 't' {
                    self.bool_token(start, true)
                } else if c == 'f' {
                    self.bool_token(start, false)
                } else if c == 'n' {
                    self.null_token(start)
                } else if (c >= '0' && c <= '9') || c == '-' {
                    self.number_token(start)
                } else if c == '"' {
                    let mut s = String::new();
                    self.string_token(start, &mut s)
                } else {
                    Err(Error::NotSupportedChar(c, start))
                }
            },
            None => Ok(Token::EOF),
        }
    }

    /// The next token; the position stays.
    pub fn peek(&self) -> (r: Result<Token<'a>, Error>)
        ensures
            token_result_view(r) == lex(self.text(), self.cursor()).result,
            0 <= self.cursor() <= self.text().len(),
    {
        let mut ahead: Tokenizer<'a> = *self;
        ahead.next()
    }

    fn bracket_token(&self, start: usize) -> (r: Result<Token<'a>, Error>)
        requires
            self.cursor() >= 1,
            start == byte_offset(self.text(), self.cursor() - 1),
            utf8_width_one(self.text()[self.cursor() - 1]),
        ensures
            token_result_view(r) == Ok::<TokenView, ErrorView>(
                TokenView::Bracket(
                    seq![self.text()[self.cursor() - 1]],
                    span(self.text(), self.cursor() - 1, self.cursor()),
                ),
            ),
    {
        proof {
            use_type_invariant(self);
            lemma_offset_step(self.text(), self.cursor() - 1);
        }
        let end = self.current();
        let s = slice(self.input, start, end, Ghost(self.cursor() - 1), Ghost(self.cursor()));
        proof {
            assert(s@ =~= seq![self.text()[self.cursor() - 1]]);
        }
        Ok(Token::Bracket(s, (start, end)))
    }

    fn operator_token(&self, start: usize) -> (r: Result<Token<'a>, Error>)
        requires
            self.cursor() >= 1,
            start == byte_offset(self.text(), self.cursor() - 1),
            utf8_width_one(self.text()[self.cursor() - 1]),
        ensures
            token_result_view(r) == Ok::<TokenView, ErrorView>(
                TokenView::Operator(
                    seq![self.text()[self.cursor() - 1]],
                    span(self.text(), self.cursor() - 1, self.cursor()),
                ),
            ),
    {
        proof {
            use_type_invariant(self);
            lemma_offset_step(self.text(), self.cursor() - 1);
        }
        let end = self.current();
        let s = slice(self.input, start, end, Ghost(self.cursor() - 1), Ghost(self.cursor()));
        proof {
            assert(s@ =~= seq![self.text()[self.cursor() - 1]]);
        }
        Ok(Token::Operator(s, (start, end)))
    }

    fn bool_token(&mut self, start: usize, val: bool) -> (r: Result<Token<'a>, Error>)
        requires
            old(self).cursor() >= 1,
            start == byte_offset(old(self).text(), old(self).cursor() - 1),
        ensures
            final(self).text() == old(self).text(),
            token_result_view(r) == lex_bool(old(self).text(), old(self).cursor() - 1, val).result,
            final(self).cursor() == lex_bool(old(self).text(), old(self).cursor() - 1, val).end,
            old(self).cursor() <= final(self).cursor() <= old(self).text().len(),
    {
        let word = if val {
            self.parse_ident("rue")
        } else {
            self.parse_ident("alse")
        };
        match word {
            Ok(_) => Ok(Token::Bool(val, (start, self.current()))),
            Err(e) => Err(e),
        }
    }

    fn null_token(&mut self, start: usize) -> (r: Result<Token<'a>, Error>)
        requires
            old(self).cursor() >= 1,
            start == byte_offset(old(self).text(), old(self).cursor() - 1),
        ensures
            final(self).text() == old(self).text(),
            token_result_view(r) == lex_null(old(self).text(), old(self).cursor() - 1).result,
            final(self).cursor() == lex_null(old(self).text(), old(self).cursor() - 1).end,
            old(self).cursor() <= final(self).cursor() <= old(self).text().len(),
    {
        match self.parse_ident("ull") {
            Ok(_) => Ok(Token::Null((start, self.current()))),
            Err(e) => Err(e),
        }
    }

    fn number_token(&mut self, start: usize) -> (r: Result<Token<'a>, Error>)
        requires
            old(self).cursor() >= 1,
            start == byte_offset(old(self).text(), old(self).cursor() - 1),
        ensures
            final(self).text() == old(self).text(),
            token_result_view(r) == lex_number(old(self).text(), old(self).cursor() - 1).result,
            final(self).cursor() == lex_number(old(self).text(), old(self).cursor() - 1).end,
            old(self).cursor() <= final(self).cursor() <= old(self).text().len(),
    {
        let ghost text = self.text();
        let ghost first = self.cursor();
        loop
            invariant
                self.text() == text,
                1 <= first <= self.cursor() <= text.len(),
                number_end(text, self.cursor()) == number_end(text, first),
            ensures
                self.text() == text,
                1 <= first <= self.cursor() <= text.len(),
                self.cursor() == number_end(text, first),
            decreases text.len() - self.cursor(),
        {
            match self.peek_char() {
                Some((_, ch)) => {
                    if is_digit_char(ch) {
                        self.next_char();
                    } else {
                        break;
                    }
                },
                None => break,
            }
        }
        proof {
            use_type_invariant(&*self);
        }
        let end = self.current();
        let s = slice(self.input, start, end, Ghost(first - 1), Ghost(self.cursor()));
        match parse_signed(s, i64::MIN as i128, i64::MAX as i128) {
            Some(num) => Ok(Token::Number(ParseNumber::I64(num as i64), (start, end))),
            None => {
                if is_float_text(s) {
                    Ok(Token::Number(ParseNumber::F64(s), (start, end)))
                } else {
                    Err(Error::InvalidNumber(s.to_owned()))
                }
            },
        }
    }

    /// Reads the word `expected`, one code point after the other.
    fn parse_ident(&mut self, expected: &str) -> (r: Result<(), Error>)
        ensures
            final(self).text() == old(self).text(),
            same_outcome(r, scan_ident(old(self).text(), old(self).cursor(), expected@)),
            final(self).cursor() == scan_ident(old(self).text(), old(self).cursor(), expected@).end,
            0 <= old(self).cursor() <= final(self).cursor() <= old(self).text().len(),
    {
        let ghost text = self.text();
        let ghost from = self.cursor();
        let ghost mut k: nat = 0;
        let mut chars = CharCursor::new(expected);
        proof {
            use_type_invariant(&*self);
            assert(expected@.skip(0) =~= expected@);
        }
        loop
            invariant
                self.text() == text,
                text == old(self).text(),
                from == old(self).cursor(),
                0 <= from,
                from + k == self.cursor(),
                self.cursor() <= text.len(),
                k <= expected@.len(),
                chars.remaining() == expected@.skip(k as int),
                matched(text, from, expected@, k) == matched(text, from, expected@, 0),
            decreases expected@.len() - k,
        {
            match chars.next() {
                Some((_, ex)) => {
                    match self.next_char() {
                        Some((at, ch)) => {
                            if ch != ex {
                                return Err(Error::Wanted { at, expected: ex, found: ch });
                            }
                            proof {
                                assert(expected@.skip(k as int).drop_first() =~= expected@.skip(
                                    k as int + 1,
                                ));
                                k = k + 1;
                            }
                        },
                        None => {
                            let at = self.current();
                            proof {
                                assert(text.take(text.len() as int) =~= text);
                            }
                            return Err(Error::EofWhileParsingValue(at));
                        },
                    }
                },
                None => {
                    return Ok(());
                },
            }
        }
    }

    /// Reads an escape behind its backslash, which stands at the byte
    /// offset `start`, and appends the code point it stands for.
    fn parse_escape(&mut self, start: usize, scratch: &mut String) -> (r: Result<(), Error>)
        requires
            old(self).cursor() >= 1,
            start == byte_offset(old(self).text(), old(self).cursor() - 1),
        ensures
            final(self).text() == old(self).text(),
            final(self).cursor() == scan_escape(old(self).text(), old(self).cursor() - 1).end,
            old(self).cursor() <= final(self).cursor() <= old(self).text().len(),
            match r {
                Ok(_) => scan_escape(old(self).text(), old(self).cursor() - 1).result matches Ok(c)
                    && final(scratch)@ == old(scratch)@.push(c),
                Err(e) => scan_escape(old(self).text(), old(self).cursor() - 1).result == Err::<
                    char,
                    ErrorView,
                >(e@),
            },
    {
        proof {
            use_type_invariant(&*self);
            if self.cursor() + 1 <= self.text().len() {
                lemma_hex_run_bounds(self.text(), self.cursor() + 1, 4, 0);
                lemma_hex_run_bounds(self.text(), self.cursor() + 1, 8, 0);
            }
        }
        match self.next_char() {
            Some((i, c)) => {
                if c == '"' {
                    scratch.push('"');
                } else if c == '\\' {
                    scratch.push('\\');
                } else if c == '/' {
                    scratch.push('/');
                } else if c == 'b' {
                    scratch.push('\u{8}');
                } else if c == 'f' {
                    scratch.push('\u{c}');
                } else if c == 'n' {
                    scratch.push('\n');
                } else if c == 'r' {
                    scratch.push('\r');
                } else if c == 't' {
                    scratch.push('\t');
                } else if c == 'u' || c == 'U' {
                    let len: usize = if c == 'u' {
                        4
                    } else {
                        8
                    };
                    match self.hex(start, i, len) {
                        Ok(decoded) => {
                            scratch.push(decoded);
                        },
                        Err(e) => {
                            return Err(e);
                        },
                    }
                } else {
                    return Err(Error::InvalidEscape(i, c));
                }
                Ok(())
            },
            None => Err(Error::UnterminatedString(start)),
        }
    }

    /// Reads a string literal behind its opening quote, which stands at
    /// the byte offset `start`.
    fn string_token(&mut self, start: usize, scratch: &mut String) -> (r: Result<Token<'a>, Error>)
        requires
            old(self).cursor() >= 1,
            start == byte_offset(old(self).text(), old(self).cursor() - 1),
            old(scratch)@.len() == 0,
        ensures
            final(self).text() == old(self).text(),
            token_result_view(r) == lex_string(old(self).text(), old(self).cursor() - 1).result,
            final(self).cursor() == lex_string(old(self).text(), old(self).cursor() - 1).end,
            old(self).cursor() <= final(self).cursor() <= old(self).text().len(),
    {
        let ghost text = self.text();
        let ghost quote = self.cursor() - 1;
        let content_start = self.current();
        let mut escaped = false;
        loop
            invariant
                self.text() == text,
                text == old(self).text(),
                quote == old(self).cursor() - 1,
                0 <= quote < self.cursor() <= text.len(),
                start == byte_offset(text, quote),
                content_start == byte_offset(text, quote + 1),
                !escaped ==> scratch@.len() == 0,
                scan_string(
                    text,
                    quote,
                    self.cursor(),
                    if escaped {
                        Some(scratch@)
                    } else {
                        None
                    },
                ) == lex_string(text, quote),
            decreases text.len() - self.cursor(),
        {
            let ghost i = self.cursor();
            match self.next_char() {
                Some((cur, c)) => {
                    if c == '\\' {
                        if !escaped {
                            proof {
                                use_type_invariant(&*self);
                            }
                            let prefix = slice(
                                self.input,
                                content_start,
                                cur,
                                Ghost(quote + 1),
                                Ghost(i),
                            );
                            scratch.append(prefix);
                            proof {
                                assert(scratch@ =~= prefix@);
                            }
                            escaped = true;
                        }
                        proof {
                            lemma_escape_end(text, i);
                        }
                        match self.parse_escape(cur, scratch) {
                            Ok(_) => {},
                            Err(e) => {
                                return Err(e);
                            },
                        }
                    } else if c == '"' {
                        let end = self.current();
                        if escaped {
                            return Ok(
                                Token::String(MaybeString::Escaped(scratch.clone()), (start, end)),
                            );
                        } else {
                            proof {
                                use_type_invariant(&*self);
                            }
                            let content = slice(
                                self.input,
                                content_start,
                                cur,
                                Ghost(quote + 1),
                                Ghost(i),
                            );
                            return Ok(
                                Token::String(MaybeString::NotEscaped(content), (start, end)),
                            );
                        }
                    } else {
                        if escaped {
                            scratch.push(c);
                        }
                    }
                },
                None => {
                    return Err(Error::UnterminatedString(start));
                },
            }
        }
    }

    /// Reads `len` hex digits and gives the code point with their number.
    /// `start` is the byte offset of the backslash of the escape and `i`
    /// that of the letter after it.
    fn hex(&mut self, start: usize, i: usize, len: usize) -> (r: Result<char, Error>)
        requires
            len <= 8,
        ensures
            final(self).text() == old(self).text(),
            final(self).cursor() == scan_hex(
                old(self).text(),
                old(self).cursor(),
                len as nat,
                start as int,
                i as int,
            ).end,
            0 <= old(self).cursor() <= final(self).cursor() <= old(self).text().len(),
            match r {
                Ok(c) => scan_hex(
                    old(self).text(),
                    old(self).cursor(),
                    len as nat,
                    start as int,
                    i as int,
                ).result == Ok::<char, ErrorView>(c),
                Err(e) => scan_hex(
                    old(self).text(),
                    old(self).cursor(),
                    len as nat,
                    start as int,
                    i as int,
                ).result == Err::<char, ErrorView>(e@),
            },
    {
        let ghost text = self.text();
        let ghost from = self.cursor();
        let mut val: u64 = 0;
        let mut k: usize = 0;
        proof {
            use_type_invariant(&*self);
            assert(text.subrange(from, from) =~= Seq::<char>::empty());
        }
        while k < len
            invariant
                self.text() == text,
                text == old(self).text(),
                from == old(self).cursor(),
                0 <= from,
                from + k == self.cursor(),
                self.cursor() <= text.len(),
                k <= len <= 8,
                hex_run(text, from, len as nat, k as nat) == hex_run(text, from, len as nat, 0),
                val == hex_value(text.subrange(from, from + k)),
                val < pow16(k as nat),
            decreases len - k,
        {
            match self.next_char() {
                Some((at, ch)) => {
                    let digit: u64 = if ch >= '0' && ch <= '9' {
                        (ch as u32 - '0' as u32) as u64
                    } else if ch >= 'a' && ch <= 'f' {
                        (ch as u32 - 'a' as u32 + 10) as u64
                    } else if ch >= 'A' && ch <= 'F' {
                        (ch as u32 - 'A' as u32 + 10) as u64
                    } else {
                        return Err(Error::InvalidHexEscape(at, ch));
                    };
                    proof {
                        lemma_pow16_bounds(k as nat);
                        lemma_pow16_bounds(8);
                        lemma_pow16_monotonic(k as nat, 8);
                        assert(text.subrange(from, from + k + 1).drop_last() =~= text.subrange(
                            from,
                            from + k,
                        ));
                        assert(digit == hex_digit_value(ch));
                    }
                    val = val * 16 + digit;
                    k += 1;
                },
                None => {
                    return Err(Error::UnterminatedString(start));
                },
            }
        }
        proof {
            lemma_pow16_bounds(8);
            lemma_pow16_monotonic(len as nat, 8);
        }
        let v: u32 = val as u32;
        match char::from_u32(v) {
            Some(ch) => Ok(ch),
            None => Err(Error::InvalidEscapeValue(i, v)),
        }
    }

    /// The byte offset of the next code point; at the end, the length of
    /// the text in bytes.
    fn current(&self) -> (r: usize)
        ensures
            r == byte_offset(self.text(), self.cursor()),
            0 <= self.cursor() <= self.text().len(),
    {
        proof {
            use_type_invariant(self);
        }
        self.chars.offset()
    }

    /// Passes the whitespace at the position.
    pub fn eat_whitespace(&mut self)
        ensures
            final(self).text() == old(self).text(),
            final(self).cursor() == skip_whitespace(old(self).text(), old(self).cursor()),
            0 <= old(self).cursor() <= final(self).cursor() <= old(self).text().len(),
    {
        let ghost text = self.text();
        let ghost from = self.cursor();
        proof {
            use_type_invariant(&*self);
        }
        loop
            invariant
                self.text() == text,
                0 <= from <= self.cursor() <= text.len(),
                skip_whitespace(text, self.cursor()) == skip_whitespace(text, from),
            ensures
                self.text() == text,
                0 <= from <= self.cursor() <= text.len(),
                self.cursor() == skip_whitespace(text, from),
            decreases text.len() - self.cursor(),
        {
            match self.peek_char() {
                Some((_, ch)) => {
                    if is_whitespace_char(ch) {
                        self.next_char();
                    } else {
                        break;
                    }
                },
                None => break,
            }
        }
    }

    /// Passes the next code point where it is `ch`; tells whether it was.
    fn eatc(&mut self, ch: char) -> (r: bool)
        ensures
            final(self).text() == old(self).text(),
            r == (old(self).cursor() < old(self).text().len() && old(self).text()[old(
                self,
            ).cursor()] == ch),
            final(self).cursor() == (if r {
                old(self).cursor() + 1
            } else {
                old(self).cursor()
            }),
            0 <= old(self).cursor() <= old(self).text().len(),
    {
        match self.peek_char() {
            Some((_, c)) => {
                if c == ch {
                    self.next_char();
                    true
                } else {
                    false
                }
            },
            None => false,
        }
    }

    /// The next code point and its byte offset; the position stays.
    fn peek_char(&self) -> (r: Option<(usize, char)>)
        ensures
            0 <= self.cursor() <= self.text().len(),
            match r {
                Some((at, c)) => {
                    &&& self.cursor() < self.text().len()
                    &&& at == byte_offset(self.text(), self.cursor())
                    &&& c == self.text()[self.cursor()]
                },
                None => self.cursor() == self.text().len(),
            },
    {
        proof {
            use_type_invariant(self);
        }
        self.chars.peek()
    }

    /// The next code point and its byte offset; the position moves behind
    /// it.
    pub fn next_char(&mut self) -> (r: Option<(usize, char)>)
        ensures
            final(self).text() == old(self).text(),
            0 <= old(self).cursor() <= old(self).text().len(),
            match r {
                Some((at, c)) => {
                    &&& old(self).cursor() < old(self).text().len()
                    &&& at == byte_offset(old(self).text(), old(self).cursor())
                    &&& c == old(self).text()[old(self).cursor()]
                    &&& final(self).cursor() == old(self).cursor() + 1
                },
                None => {
                    &&& old(self).cursor() == old(self).text().len()
                    &&& final(self).cursor() == old(self).cursor()
                },
            },
    {
        proof {
            use_type_invariant(&*self);
            let text = self.text();
            let i = self.cursor();
            if i < text.len() {
                lemma_offset_step(text, i);
                assert(text.skip(i).drop_first() =~= text.skip(i + 1));
            }
        }
        let input = self.input;
        let mut chars = self.chars;
        let r = chars.next();
        *self = Tokenizer { input, chars };
        r
    }

    /// Reads the next token, which has to be the bracket or the operator
    /// written `s`.
    pub fn expect(&mut self, s: String) -> (r: Result<(), Error>)
        ensures
            final(self).text() == old(self).text(),
            final(self).cursor() == lex(old(self).text(), old(self).cursor()).end,
            0 <= old(self).cursor() <= final(self).cursor() <= old(self).text().len(),
            match lex(old(self).text(), old(self).cursor()).result {
                Ok(token) => if token.is_op(s@) {
                    r is Ok
                } else {
                    r matches Err(e) && e@ == ErrorView::OpNotExist(s@)
                },
                Err(error) => r matches Err(e) && e@ == error,
            },
    {
        match self.next() {
            Ok(token) => {
                if token.checkOp(s.as_str()) {
                    Ok(())
                } else {
                    Err(Error::OpNotExist(s))
                }
            },
            Err(e) => Err(e),
        }
    }
}

/// Whether `c` takes one byte.
pub open spec fn utf8_width_one(c: char) -> bool {
    (c as u32) < 0x80
}

proof fn lemma_pow16_bounds(k: nat)
    ensures
        pow16(k) > 0,
        k == 8 ==> pow16(k) == 0x1_0000_0000,
        pow16(k + 1) == 16 * pow16(k),
    decreases k,
{
    reveal_with_fuel(pow16, 10);
    if k > 0 {
        lemma_pow16_bounds((k - 1) as nat);
    }
}

proof fn lemma_pow16_monotonic(j: nat, k: nat)
    requires
        j <= k,
    ensures
        pow16(j) <= pow16(k),
    decreases k - j,
{
    if j < k {
        lemma_pow16_monotonic(j, (k - 1) as nat);
        lemma_pow16_bounds((k - 1) as nat);
    }
}

/// Whether `ch` can stand in a number literal.
pub fn is_digit_char(ch: char) -> (r: bool)
    ensures
        r == number_char(ch),
{
    (ch >= '0' && ch <= '9') || ch == '.' || ch == 'e' || ch == 'E' || ch == '-' || ch == '+'
}

/// Whether `ch` is whitespace between tokens.
pub fn is_whitespace_char(ch: char) -> (r: bool)
    ensures
        r == whitespace_char(ch),
{
    ch == ' ' || ch == '\t' || ch == '\r' || ch == '\n'
}

} // verus!
