//! The lexical grammar: which token a text holds at a position.
//!
//! A text is a sequence of code points and a position is an index into it.
//! The spans of tokens and the positions in errors are byte offsets, as
//! [`byte_offset`] gives them.

use vstd::prelude::*;
use vstd::utf8::is_scalar;
use crate::error::ErrorView;
use crate::number::{is_decimal_float, is_digit, parse_integer};
use crate::text::{byte_offset, utf8_len};
use crate::token::{NumberView, StringView, TokenView};

verus! {

/// What a scan found, and the position after what it read.
pub struct Scanned<T> {
    pub result: Result<T, ErrorView>,
    pub end: int,
}

/// The whitespace that may stand between tokens.
pub open spec fn whitespace_char(c: char) -> bool {
    c == ' ' || c == '\t' || c == '\r' || c == '\n'
}

/// The code points that a number literal is made of.
pub open spec fn number_char(c: char) -> bool {
    is_digit(c) || c == '.' || c == 'e' || c == 'E' || c == '-' || c == '+'
}

/// The brackets of sequences and maps.
pub open spec fn bracket_char(c: char) -> bool {
    c == '[' || c == ']' || c == '{' || c == '}'
}

/// The signs between the parts of sequences and maps.
pub open spec fn operator_char(c: char) -> bool {
    c == ',' || c == ':'
}

/// The first position at or after `i` that holds no whitespace.
pub open spec fn skip_whitespace(text: Seq<char>, i: int) -> int
    decreases text.len() - i,
{
    if 0 <= i < text.len() && whitespace_char(text[i]) {
        skip_whitespace(text, i + 1)
    } else {
        i
    }
}

/// The first position at or after `i` that holds no part of a number.
pub open spec fn number_end(text: Seq<char>, i: int) -> int
    decreases text.len() - i,
{
    if 0 <= i < text.len() && number_char(text[i]) {
        number_end(text, i + 1)
    } else {
        i
    }
}

/// How many code points of `expected` the text holds from `i` on, one
/// after the other, given that it holds the first `k`.
pub open spec fn matched(text: Seq<char>, i: int, expected: Seq<char>, k: nat) -> nat
    decreases expected.len() - k,
{
    if k < expected.len() && 0 <= i + k < text.len() && text[i + k] == expected[k as int] {
        matched(text, i, expected, k + 1)
    } else {
        k
    }
}

/// Reads the word `expected` at `i`. Where the text differs from the word,
/// the error names the place, the code point that the word has there and
/// the one found, which is passed; where the text ends first, the error
/// holds the length of the text.
pub open spec fn scan_ident(text: Seq<char>, i: int, expected: Seq<char>) -> Scanned<()> {
    let k = matched(text, i, expected, 0);
    if k >= expected.len() {
        Scanned { result: Ok(()), end: i + k }
    } else if i + k >= text.len() {
        Scanned {
            result: Err(ErrorView::EofWhileParsingValue(utf8_len(text) as int)),
            end: text.len() as int,
        }
    } else {
        Scanned {
            result: Err(
                ErrorView::Wanted {
                    at: byte_offset(text, i + k) as int,
                    expected: expected[k as int],
                    found: text[i + k],
                },
            ),
            end: i + k + 1,
        }
    }
}

/// The span in bytes of the code points from `start` up to `end`.
pub open spec fn span(text: Seq<char>, start: int, end: int) -> (int, int) {
    (byte_offset(text, start) as int, byte_offset(text, end) as int)
}

/// `true` or `false` at `start`, after its first letter was seen there.
pub open spec fn lex_bool(text: Seq<char>, start: int, value: bool) -> Scanned<TokenView> {
    let word = scan_ident(
        text,
        start + 1,
        if value {
            "rue"@
        } else {
            "alse"@
        },
    );
    Scanned {
        result: match word.result {
            Ok(_) => Ok(TokenView::Bool(value, span(text, start, word.end))),
            Err(e) => Err(e),
        },
        end: word.end,
    }
}

/// `null` at `start`, after its first letter was seen there.
pub open spec fn lex_null(text: Seq<char>, start: int) -> Scanned<TokenView> {
    let word = scan_ident(text, start + 1, "ull"@);
    Scanned {
        result: match word.result {
            Ok(_) => Ok(TokenView::Null(span(text, start, word.end))),
            Err(e) => Err(e),
        },
        end: word.end,
    }
}

/// The number at `start`: the longest run of number code points. It is an
/// integer where it reads as one of 64 bits, else a float where it is a
/// decimal float, else an error that holds the run.
pub open spec fn lex_number(text: Seq<char>, start: int) -> Scanned<TokenView> {
    let end = number_end(text, start + 1);
    let lexeme = text.subrange(start, end);
    Scanned {
        result: match parse_integer(lexeme, true, i64::MIN as int, i64::MAX as int) {
            Some(v) => Ok(TokenView::Number(NumberView::I64(v), span(text, start, end))),
            None => if is_decimal_float(lexeme) {
                Ok(TokenView::Number(NumberView::F64(lexeme), span(text, start, end)))
            } else {
                Err(ErrorView::InvalidNumber(lexeme))
            },
        },
        end,
    }
}

/// The digits of base 16, in either case.
pub open spec fn hex_digit(c: char) -> bool {
    is_digit(c) || ('a' <= c <= 'f') || ('A' <= c <= 'F')
}

/// The number that a hex digit denotes.
pub open spec fn hex_digit_value(c: char) -> nat {
    if is_digit(c) {
        (c as u32 - '0' as u32) as nat
    } else if 'a' <= c <= 'f' {
        (c as u32 - 'a' as u32 + 10) as nat
    } else {
        (c as u32 - 'A' as u32 + 10) as nat
    }
}

/// The number that a run of hex digits denotes.
pub open spec fn hex_value(digits: Seq<char>) -> nat
    decreases digits.len(),
{
    if digits.len() == 0 {
        0
    } else {
        hex_value(digits.drop_last()) * 16 + hex_digit_value(digits.last())
    }
}

/// How many hex digits, up to `n`, the text holds from `i` on, given that
/// it holds `k`.
pub open spec fn hex_run(text: Seq<char>, i: int, n: nat, k: nat) -> nat
    decreases n - k,
{
    if k < n && 0 <= i + k < text.len() && hex_digit(text[i + k]) {
        hex_run(text, i, n, k + 1)
    } else {
        k
    }
}

/// The code point that the `n` hex digits at `i` give. `escape_at` is the
/// byte offset of the backslash of the escape and `marker_at` that of the
/// letter after it.
pub open spec fn scan_hex(
    text: Seq<char>,
    i: int,
    n: nat,
    escape_at: int,
    marker_at: int,
) -> Scanned<char> {
    let k = hex_run(text, i, n, 0);
    if k >= n {
        let v = hex_value(text.subrange(i, i + n)) as u32;
        Scanned {
            result: if is_scalar(v) {
                Ok(v as char)
            } else {
                Err(ErrorView::InvalidEscapeValue(marker_at, v))
            },
            end: i + n,
        }
    } else if i + k >= text.len() {
        Scanned { result: Err(ErrorView::UnterminatedString(escape_at)), end: text.len() as int }
    } else {
        Scanned {
            result: Err(ErrorView::InvalidHexEscape(byte_offset(text, i + k) as int, text[i + k])),
            end: i + k + 1,
        }
    }
}

/// The code point that a backslash and the one letter `c` stand for.
pub open spec fn simple_escape(c: char) -> Option<char> {
    if c == '"' || c == '\\' || c == '/' {
        Some(c)
    } else if c == 'b' {
        Some('\u{8}')
    } else if c == 'f' {
        Some('\u{c}')
    } else if c == 'n' {
        Some('\n')
    } else if c == 'r' {
        Some('\r')
    } else if c == 't' {
        Some('\t')
    } else {
        None
    }
}

/// The code point that the escape at `i` stands for, where `i` holds its
/// backslash: one of the simple escapes, or `u` with four hex digits, or
/// `U` with eight.
pub open spec fn scan_escape(text: Seq<char>, i: int) -> Scanned<char> {
    let at = byte_offset(text, i) as int;
    if i + 1 >= text.len() {
        Scanned { result: Err(ErrorView::UnterminatedString(at)), end: text.len() as int }
    } else {
        let c = text[i + 1];
        let marker_at = byte_offset(text, i + 1) as int;
        match simple_escape(c) {
            Some(decoded) => Scanned { result: Ok(decoded), end: i + 2 },
            None => if c == 'u' {
                scan_hex(text, i + 2, 4, at, marker_at)
            } else if c == 'U' {
                scan_hex(text, i + 2, 8, at, marker_at)
            } else {
                Scanned { result: Err(ErrorView::InvalidEscape(marker_at, c)), end: i + 2 }
            },
        }
    }
}

/// A run of hex digits holds hex digits only, lies in the text and ends
/// where the text ends, the run is full or another code point follows.
pub proof fn lemma_hex_run_bounds(text: Seq<char>, i: int, n: nat, k: nat)
    requires
        k <= n,
        0 <= i,
        i + k <= text.len(),
    ensures
        k <= hex_run(text, i, n, k) <= n,
        i + hex_run(text, i, n, k) <= text.len(),
        forall|j: int| k <= j < hex_run(text, i, n, k) ==> hex_digit(#[trigger] text[i + j]),
        hex_run(text, i, n, k) < n && i + hex_run(text, i, n, k) < text.len() ==> !hex_digit(
            text[i + hex_run(text, i, n, k)],
        ),
    decreases n - k,
{
    if k < n && i + k < text.len() && hex_digit(text[i + k]) {
        lemma_hex_run_bounds(text, i, n, k + 1);
    }
}

/// An escape ends after its backslash and within the text.
pub proof fn lemma_escape_end(text: Seq<char>, i: int)
    requires
        0 <= i < text.len(),
    ensures
        i < scan_escape(text, i).end <= text.len(),
{
    if i + 1 < text.len() {
        lemma_hex_run_bounds(text, i + 2, 4, 0);
        lemma_hex_run_bounds(text, i + 2, 8, 0);
    }
}

/// The content of a string literal before the position `i`, given what
/// was decoded so far: `decoded` is `None` as long as no escape was met.
pub open spec fn content_so_far(
    text: Seq<char>,
    start: int,
    i: int,
    decoded: Option<Seq<char>>,
) -> Seq<char> {
    match decoded {
        Some(d) => d,
        None => text.subrange(start + 1, i),
    }
}

/// The string literal whose opening quote is at `start`, read from `i` on.
/// A quote ends it; a backslash starts an escape, from which on the
/// content is held decoded; any other code point stands for itself. Where
/// the text ends first, the error holds the offset of the opening quote.
pub open spec fn scan_string(
    text: Seq<char>,
    start: int,
    i: int,
    decoded: Option<Seq<char>>,
) -> Scanned<TokenView>
    decreases text.len() - i,
{
    if i < 0 || i >= text.len() {
        Scanned {
            result: Err(ErrorView::UnterminatedString(byte_offset(text, start) as int)),
            end: text.len() as int,
        }
    } else if text[i] == '"' {
        Scanned {
            result: Ok(
                TokenView::String(
                    match decoded {
                        Some(d) => StringView::Escaped(d),
                        None => StringView::NotEscaped(text.subrange(start + 1, i)),
                    },
                    span(text, start, i + 1),
                ),
            ),
            end: i + 1,
        }
    } else if text[i] == '\\' {
        let escape = scan_escape(text, i);
        match escape.result {
            Ok(c) => {
                proof {
                    lemma_escape_end(text, i);
                }
                scan_string(
                    text,
                    start,
                    escape.end,
                    Some(content_so_far(text, start, i, decoded).push(c)),
                )
            },
            Err(e) => Scanned { result: Err(e), end: escape.end },
        }
    } else {
        scan_string(
            text,
            start,
            i + 1,
            match decoded {
                Some(d) => Some(d.push(text[i])),
                None => None,
            },
        )
    }
}

/// The string literal whose opening quote is at `start`.
pub open spec fn lex_string(text: Seq<char>, start: int) -> Scanned<TokenView> {
    scan_string(text, start, start + 1, None)
}

/// The token that starts at `s`, where no whitespace stands, and the
/// position after it; the end of the text is a token too.
pub open spec fn token_at(text: Seq<char>, s: int) -> Scanned<TokenView> {
    if s < 0 || s >= text.len() {
        Scanned { result: Ok(TokenView::EOF), end: s }
    } else {
        let c = text[s];
        if bracket_char(c) {
            Scanned { result: Ok(TokenView::Bracket(seq![c], span(text, s, s + 1))), end: s + 1 }
        } else if operator_char(c) {
            Scanned { result: Ok(TokenView::Operator(seq![c], span(text, s, s + 1))), end: s + 1 }
        } else if c == 't' {
            lex_bool(text, s, true)
        } else if c == 'f' {
            lex_bool(text, s, false)
        } else if c == 'n' {
            lex_null(text, s)
        } else if is_digit(c) || c == '-' {
            lex_number(text, s)
        } else if c == '"' {
            lex_string(text, s)
        } else {
            Scanned {
                result: Err(ErrorView::NotSupportedChar(c, byte_offset(text, s) as int)),
                end: s + 1,
            }
        }
    }
}

/// The token that the text holds at or after `i`, behind any whitespace,
/// and the position after it.
#[verifier::opaque]
pub open spec fn lex(text: Seq<char>, i: int) -> Scanned<TokenView> {
    token_at(text, skip_whitespace(text, i))
}

/// Where a text is first read: behind a byte-order mark, if it starts
/// with one.
pub open spec fn first_position(text: Seq<char>) -> int {
    if text.len() > 0 && text[0] == '\u{feff}' {
        1
    } else {
        0
    }
}

proof fn lemma_skip_whitespace_bounds(text: Seq<char>, i: int)
    requires
        0 <= i <= text.len(),
    ensures
        i <= skip_whitespace(text, i) <= text.len(),
    decreases text.len() - i,
{
    if i < text.len() && whitespace_char(text[i]) {
        lemma_skip_whitespace_bounds(text, i + 1);
    }
}

proof fn lemma_number_end_bounds(text: Seq<char>, i: int)
    requires
        0 <= i <= text.len(),
    ensures
        i <= number_end(text, i) <= text.len(),
    decreases text.len() - i,
{
    if i < text.len() && number_char(text[i]) {
        lemma_number_end_bounds(text, i + 1);
    }
}

proof fn lemma_matched_bounds(text: Seq<char>, i: int, expected: Seq<char>, k: nat)
    requires
        0 <= i,
        i + k <= text.len(),
    ensures
        k <= matched(text, i, expected, k),
        i + matched(text, i, expected, k) <= text.len(),
    decreases expected.len() - k,
{
    if k < expected.len() && i + k < text.len() && text[i + k] == expected[k as int] {
        lemma_matched_bounds(text, i, expected, k + 1);
    }
}

proof fn lemma_scan_string_span(text: Seq<char>, start: int, i: int, decoded: Option<Seq<char>>)
    requires
        0 <= start < i <= text.len(),
    ensures
        i <= scan_string(text, start, i, decoded).end <= text.len(),
        scan_string(text, start, i, decoded).result matches Ok(t) ==> t.span() == Some(
            span(text, start, scan_string(text, start, i, decoded).end),
        ),
    decreases text.len() - i,
{
    if i < text.len() && text[i] != '"' {
        if text[i] == '\\' {
            lemma_escape_end(text, i);
            let escape = scan_escape(text, i);
            match escape.result {
                Ok(c) => {
                    lemma_scan_string_span(
                        text,
                        start,
                        escape.end,
                        Some(content_so_far(text, start, i, decoded).push(c)),
                    );
                },
                Err(_) => {},
            }
        } else {
            lemma_scan_string_span(
                text,
                start,
                i + 1,
                match decoded {
                    Some(d) => Some(d.push(text[i])),
                    None => None,
                },
            );
        }
    }
}

/// A token is found behind the whitespace at the position asked for, and
/// the position after it lies in the text. It spans the bytes from its
/// first code point up to that position; only the end of the text spans
/// none.
pub proof fn lemma_token_span(text: Seq<char>, i: int)
    requires
        0 <= i <= text.len(),
    ensures
        i <= skip_whitespace(text, i) <= lex(text, i).end <= text.len(),
        lex(text, i).result matches Ok(t) ==> (if skip_whitespace(text, i) == text.len() {
            t == TokenView::EOF
        } else {
            &&& t.span() == Some(span(text, skip_whitespace(text, i), lex(text, i).end))
            &&& skip_whitespace(text, i) < lex(text, i).end
        }),
{
    reveal(lex);
    lemma_skip_whitespace_bounds(text, i);
    let s = skip_whitespace(text, i);
    if s < text.len() {
        let c = text[s];
        lemma_matched_bounds(text, s + 1, "rue"@, 0);
        lemma_matched_bounds(text, s + 1, "alse"@, 0);
        lemma_matched_bounds(text, s + 1, "ull"@, 0);
        lemma_number_end_bounds(text, s + 1);
        if c == '"' {
            lemma_scan_string_span(text, s, s + 1, None);
        }
    }
}

} // verus!
