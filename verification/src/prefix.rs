//! Reading a text behind a prefix.
//!
//! What the text holds at a position depends on the code points from that
//! position on only: behind a prefix the same tokens are found, with every
//! position moved by the length of the prefix. Whitespace before a token,
//! and a byte-order mark at the very start, are such prefixes that are
//! passed over.

use vstd::prelude::*;
use crate::de::{value_at, visit_of};
use crate::error::ErrorView;
use crate::grammar::{
    content_so_far, first_position, hex_digit, hex_run, lemma_escape_end, lemma_hex_run_bounds,
    lex, lex_bool, lex_null, lex_number, matched, number_char, number_end, scan_escape,
    scan_hex, scan_ident, scan_string, skip_whitespace, token_at, whitespace_char, Scanned,
};
use crate::number::is_digit;
use crate::text::{byte_offset, lemma_utf8_len_concat, utf8_len};
use crate::token::TokenView;

verus! {

impl ErrorView {
    /// The error with its position moved by `by` bytes.
    pub open spec fn shifted(self, by: int) -> ErrorView {
        match self {
            ErrorView::InvalidCharInString(at, c) => ErrorView::InvalidCharInString(at + by, c),
            ErrorView::InvalidEscape(at, c) => ErrorView::InvalidEscape(at + by, c),
            ErrorView::InvalidHexEscape(at, c) => ErrorView::InvalidHexEscape(at + by, c),
            ErrorView::InvalidEscapeValue(at, v) => ErrorView::InvalidEscapeValue(at + by, v),
            ErrorView::Unexpected(at, c) => ErrorView::Unexpected(at + by, c),
            ErrorView::UnterminatedString(at) => ErrorView::UnterminatedString(at + by),
            ErrorView::EofWhileParsingValue(at) => ErrorView::EofWhileParsingValue(at + by),
            ErrorView::Wanted { at, expected, found } => ErrorView::Wanted {
                at: at + by,
                expected,
                found,
            },
            ErrorView::NotSupportedChar(c, at) => ErrorView::NotSupportedChar(c, at + by),
            other => other,
        }
    }
}

impl TokenView {
    /// The token with its span moved by `by` bytes.
    pub open spec fn shifted(self, by: int) -> TokenView {
        match self {
            TokenView::Operator(s, span) => TokenView::Operator(s, (span.0 + by, span.1 + by)),
            TokenView::Bracket(s, span) => TokenView::Bracket(s, (span.0 + by, span.1 + by)),
            TokenView::Null(span) => TokenView::Null((span.0 + by, span.1 + by)),
            TokenView::Bool(b, span) => TokenView::Bool(b, (span.0 + by, span.1 + by)),
            TokenView::String(s, span) => TokenView::String(s, (span.0 + by, span.1 + by)),
            TokenView::Number(n, span) => TokenView::Number(n, (span.0 + by, span.1 + by)),
            TokenView::EOF => TokenView::EOF,
        }
    }
}

/// A scan for something that holds no position, moved by `chars` code
/// points, which are `bytes` bytes.
pub open spec fn shift_scanned<T>(s: Scanned<T>, chars: int, bytes: int) -> Scanned<T> {
    Scanned {
        result: match s.result {
            Ok(v) => Ok(v),
            Err(e) => Err(e.shifted(bytes)),
        },
        end: s.end + chars,
    }
}

/// A scan for a token, moved by `chars` code points, which are `bytes`
/// bytes.
pub open spec fn shift_lexed(s: Scanned<TokenView>, chars: int, bytes: int) -> Scanned<TokenView> {
    Scanned {
        result: match s.result {
            Ok(t) => Ok(t.shifted(bytes)),
            Err(e) => Err(e.shifted(bytes)),
        },
        end: s.end + chars,
    }
}

proof fn lemma_offset_behind(prefix: Seq<char>, text: Seq<char>, i: int)
    requires
        0 <= i <= text.len(),
    ensures
        byte_offset(prefix + text, prefix.len() + i) == utf8_len(prefix) + byte_offset(text, i),
        utf8_len(prefix + text) == utf8_len(prefix) + utf8_len(text),
{
    assert((prefix + text).take(prefix.len() + i) =~= prefix + text.take(i));
    lemma_utf8_len_concat(prefix, text.take(i));
    lemma_utf8_len_concat(prefix, text);
}

proof fn lemma_skip_whitespace_behind(prefix: Seq<char>, text: Seq<char>, i: int)
    requires
        0 <= i <= text.len(),
    ensures
        skip_whitespace(prefix + text, prefix.len() + i) == prefix.len() + skip_whitespace(text, i),
        i <= skip_whitespace(text, i) <= text.len(),
    decreases text.len() - i,
{
    if i < text.len() && whitespace_char(text[i]) {
        lemma_skip_whitespace_behind(prefix, text, i + 1);
    }
}

proof fn lemma_number_end_behind(prefix: Seq<char>, text: Seq<char>, i: int)
    requires
        0 <= i <= text.len(),
    ensures
        number_end(prefix + text, prefix.len() + i) == prefix.len() + number_end(text, i),
        i <= number_end(text, i) <= text.len(),
    decreases text.len() - i,
{
    if i < text.len() && number_char(text[i]) {
        lemma_number_end_behind(prefix, text, i + 1);
    }
}

proof fn lemma_matched_behind(
    prefix: Seq<char>,
    text: Seq<char>,
    i: int,
    expected: Seq<char>,
    k: nat,
)
    requires
        0 <= i,
        i + k <= text.len(),
    ensures
        matched(prefix + text, prefix.len() + i, expected, k) == matched(text, i, expected, k),
        i + matched(text, i, expected, k) <= text.len(),
    decreases expected.len() - k,
{
    if k < expected.len() && i + k < text.len() && text[i + k] == expected[k as int] {
        lemma_matched_behind(prefix, text, i, expected, k + 1);
    }
}

proof fn lemma_scan_ident_behind(prefix: Seq<char>, text: Seq<char>, i: int, expected: Seq<char>)
    requires
        0 <= i <= text.len(),
    ensures
        scan_ident(prefix + text, prefix.len() + i, expected) == shift_scanned(
            scan_ident(text, i, expected),
            prefix.len() as int,
            utf8_len(prefix) as int,
        ),
        i <= scan_ident(text, i, expected).end <= text.len(),
{
    lemma_matched_behind(prefix, text, i, expected, 0);
    let k = matched(text, i, expected, 0);
    lemma_offset_behind(prefix, text, i + k);
}

proof fn lemma_hex_run_behind(prefix: Seq<char>, text: Seq<char>, i: int, n: nat, k: nat)
    requires
        0 <= i,
        i + k <= text.len(),
    ensures
        hex_run(prefix + text, prefix.len() + i, n, k) == hex_run(text, i, n, k),
    decreases n - k,
{
    if k < n && i + k < text.len() && hex_digit(text[i + k]) {
        lemma_hex_run_behind(prefix, text, i, n, k + 1);
    }
}

proof fn lemma_scan_hex_behind(
    prefix: Seq<char>,
    text: Seq<char>,
    i: int,
    n: nat,
    escape_at: int,
    marker_at: int,
)
    requires
        0 <= i <= text.len(),
    ensures
        scan_hex(
            prefix + text,
            prefix.len() + i,
            n,
            escape_at + utf8_len(prefix),
            marker_at + utf8_len(prefix),
        ) == shift_scanned(
            scan_hex(text, i, n, escape_at, marker_at),
            prefix.len() as int,
            utf8_len(prefix) as int,
        ),
{
    lemma_hex_run_behind(prefix, text, i, n, 0);
    lemma_hex_run_bounds(text, i, n, 0);
    let k = hex_run(text, i, n, 0);
    lemma_offset_behind(prefix, text, i + k);
    if k >= n {
        assert((prefix + text).subrange(prefix.len() + i, prefix.len() + i + n) =~= text.subrange(
            i,
            i + n,
        ));
    }
}

proof fn lemma_scan_escape_behind(prefix: Seq<char>, text: Seq<char>, i: int)
    requires
        0 <= i < text.len(),
    ensures
        scan_escape(prefix + text, prefix.len() + i) == shift_scanned(
            scan_escape(text, i),
            prefix.len() as int,
            utf8_len(prefix) as int,
        ),
{
    lemma_offset_behind(prefix, text, i);
    if i + 1 < text.len() {
        lemma_offset_behind(prefix, text, i + 1);
        lemma_scan_hex_behind(
            prefix,
            text,
            i + 2,
            4,
            byte_offset(text, i) as int,
            byte_offset(text, i + 1) as int,
        );
        lemma_scan_hex_behind(
            prefix,
            text,
            i + 2,
            8,
            byte_offset(text, i) as int,
            byte_offset(text, i + 1) as int,
        );
    }
}

proof fn lemma_scan_string_behind(
    prefix: Seq<char>,
    text: Seq<char>,
    start: int,
    i: int,
    decoded: Option<Seq<char>>,
)
    requires
        0 <= start < i <= text.len(),
    ensures
        scan_string(prefix + text, prefix.len() + start, prefix.len() + i, decoded) == shift_lexed(
            scan_string(text, start, i, decoded),
            prefix.len() as int,
            utf8_len(prefix) as int,
        ),
    decreases text.len() - i,
{
    let n = prefix.len() as int;
    let whole = prefix + text;
    lemma_offset_behind(prefix, text, start);
    if i < text.len() {
        assert(whole.subrange(n + start + 1, n + i) =~= text.subrange(start + 1, i));
        if text[i] == '"' {
            lemma_offset_behind(prefix, text, i + 1);
        } else if text[i] == '\\' {
            lemma_scan_escape_behind(prefix, text, i);
            lemma_escape_end(text, i);
            let escape = scan_escape(text, i);
            match escape.result {
                Ok(c) => {
                    lemma_scan_string_behind(
                        prefix,
                        text,
                        start,
                        escape.end,
                        Some(content_so_far(text, start, i, decoded).push(c)),
                    );
                },
                Err(_) => {},
            }
        } else {
            lemma_scan_string_behind(
                prefix,
                text,
                start,
                i + 1,
                match decoded {
                    Some(d) => Some(d.push(text[i])),
                    None => None,
                },
            );
        }
    }
}

proof fn lemma_lex_bool_behind(prefix: Seq<char>, text: Seq<char>, s: int, value: bool)
    requires
        0 <= s < text.len(),
    ensures
        lex_bool(prefix + text, prefix.len() + s, value) == shift_lexed(
            lex_bool(text, s, value),
            prefix.len() as int,
            utf8_len(prefix) as int,
        ),
{
    let word = if value {
        "rue"@
    } else {
        "alse"@
    };
    lemma_scan_ident_behind(prefix, text, s + 1, word);
    lemma_offset_behind(prefix, text, s);
    lemma_offset_behind(prefix, text, scan_ident(text, s + 1, word).end);
}

proof fn lemma_lex_null_behind(prefix: Seq<char>, text: Seq<char>, s: int)
    requires
        0 <= s < text.len(),
    ensures
        lex_null(prefix + text, prefix.len() + s) == shift_lexed(
            lex_null(text, s),
            prefix.len() as int,
            utf8_len(prefix) as int,
        ),
{
    lemma_scan_ident_behind(prefix, text, s + 1, "ull"@);
    lemma_offset_behind(prefix, text, s);
    lemma_offset_behind(prefix, text, scan_ident(text, s + 1, "ull"@).end);
}

proof fn lemma_lex_number_behind(prefix: Seq<char>, text: Seq<char>, s: int)
    requires
        0 <= s < text.len(),
    ensures
        lex_number(prefix + text, prefix.len() + s) == shift_lexed(
            lex_number(text, s),
            prefix.len() as int,
            utf8_len(prefix) as int,
        ),
{
    let n = prefix.len() as int;
    lemma_number_end_behind(prefix, text, s + 1);
    let e = number_end(text, s + 1);
    lemma_offset_behind(prefix, text, s);
    lemma_offset_behind(prefix, text, e);
    assert((prefix + text).subrange(n + s, n + e) =~= text.subrange(s, e));
}

proof fn lemma_token_behind(prefix: Seq<char>, text: Seq<char>, s: int)
    requires
        0 <= s <= text.len(),
    ensures
        token_at(prefix + text, prefix.len() + s) == shift_lexed(
            token_at(text, s),
            prefix.len() as int,
            utf8_len(prefix) as int,
        ),
{
    if s < text.len() {
        let c = text[s];
        assert((prefix + text)[prefix.len() + s] == c);
        lemma_offset_behind(prefix, text, s);
        lemma_offset_behind(prefix, text, s + 1);
        if c == 't' {
            lemma_lex_bool_behind(prefix, text, s, true);
        } else if c == 'f' {
            lemma_lex_bool_behind(prefix, text, s, false);
        } else if c == 'n' {
            lemma_lex_null_behind(prefix, text, s);
        } else if is_digit(c) || c == '-' {
            lemma_lex_number_behind(prefix, text, s);
        } else if c == '"' {
            lemma_scan_string_behind(prefix, text, s, s + 1, None);
        }
    }
}

/// Behind a prefix a text holds the tokens that it holds alone, with all
/// positions moved by the length of the prefix.
pub proof fn lemma_lex_behind_prefix(prefix: Seq<char>, text: Seq<char>, i: int)
    requires
        0 <= i <= text.len(),
    ensures
        lex(prefix + text, prefix.len() + i) == shift_lexed(
            lex(text, i),
            prefix.len() as int,
            utf8_len(prefix) as int,
        ),
{
    reveal(lex);
    lemma_skip_whitespace_behind(prefix, text, i);
    lemma_token_behind(prefix, text, skip_whitespace(text, i));
}

/// Whitespace before a token changes nothing: the same token is found
/// from any position that only whitespace parts from it.
pub proof fn lemma_lex_behind_whitespace(text: Seq<char>, i: int, j: int)
    requires
        0 <= i <= j <= text.len(),
        forall|k: int| i <= k < j ==> whitespace_char(#[trigger] text[k]),
    ensures
        lex(text, i) == lex(text, j),
    decreases j - i,
{
    reveal(lex);
    if i < j {
        lemma_lex_behind_whitespace(text, i + 1, j);
    }
}

/// A text that starts with whitespace is read as the text without it,
/// with all positions moved by the length of the whitespace.
pub proof fn lemma_whitespace_prefix(space: Seq<char>, text: Seq<char>, i: int)
    requires
        forall|k: int| 0 <= k < space.len() ==> whitespace_char(#[trigger] space[k]),
        first_position(text) == 0,
        0 <= i <= text.len(),
    ensures
        first_position(space + text) == 0,
        lex(space + text, first_position(space + text)) == shift_lexed(
            lex(text, first_position(text)),
            space.len() as int,
            utf8_len(space) as int,
        ),
        lex(space + text, space.len() + i) == shift_lexed(
            lex(text, i),
            space.len() as int,
            utf8_len(space) as int,
        ),
        value_at(text, i) is Ok ==> value_at(space + text, space.len() + i) == value_at(text, i),
{
    let whole = space + text;
    if space.len() > 0 {
        assert(whitespace_char(space[0]));
        assert(whole[0] == space[0]);
    } else {
        assert(whole =~= text);
    }
    assert forall|k: int| 0 <= k < space.len() implies whitespace_char(#[trigger] whole[k]) by {
        assert(whole[k] == space[k]);
    }
    lemma_lex_behind_whitespace(whole, 0, space.len() as int);
    lemma_lex_behind_prefix(space, text, 0);
    lemma_lex_behind_prefix(space, text, i);
    lemma_shifted_visit(lex(text, i), space.len() as int, utf8_len(space) as int);
}

/// A text that starts with one byte-order mark is read as the text
/// without it, with all positions moved by the mark.
pub proof fn lemma_byte_order_mark_prefix(text: Seq<char>, i: int)
    requires
        first_position(text) == 0,
        0 <= i <= text.len(),
    ensures
        first_position(seq!['\u{feff}'] + text) == 1,
        lex(seq!['\u{feff}'] + text, 1 + i) == shift_lexed(
            lex(text, i),
            1,
            utf8_len(seq!['\u{feff}']) as int,
        ),
        utf8_len(seq!['\u{feff}']) == 3,
        value_at(text, i) is Ok ==> value_at(seq!['\u{feff}'] + text, 1 + i) == value_at(text, i),
{
    let mark = seq!['\u{feff}'];
    assert((mark + text)[0] == '\u{feff}');
    lemma_lex_behind_prefix(mark, text, i);
    assert(mark.drop_last() =~= Seq::<char>::empty());
    assert(utf8_len(mark) == 3) by {
        reveal_with_fuel(utf8_len, 2);
    }
    lemma_shifted_visit(lex(text, i), 1, 3);
}

/// What a token asks to visit does not depend on where the token stands.
proof fn lemma_shifted_visit(s: Scanned<TokenView>, chars: int, bytes: int)
    ensures
        s.result matches Ok(t) ==> visit_of(t.shifted(bytes)) == visit_of(t),
{
}

} // verus!
