//! Writing a value and reading it back.
//!
//! The codec holds no values: a value is written and rebuilt by the code
//! of its own type. What that code writes and reads is stated here over a
//! model of the values it can hand over, [`Value`]: [`written`] is the
//! text after the encoder's calls for a value, and [`decodes`] tells
//! whether the decoder's steps, taken in the order that the shape of the
//! value asks for, give the value back.

use vstd::prelude::*;
use crate::de::{expected_at, key_at, next_part, next_part_end, op_at, value_at, VisitView};
use crate::error::ErrorView;
use crate::grammar::{
    bracket_char, first_position, lex, matched, number_char, number_end, operator_char,
    scan_string, span, Scanned,
};
use crate::number::{
    decimal_digits, decimal_text, is_digit, lemma_decimal_digits, lemma_parse_decimal_text,
};
use crate::ser::{bool_text, quoted, separated, variant_head};
use crate::token::{StringView, TokenView};

verus! {

/// A value as the codec sees it.
pub enum Value {
    /// `null`: a unit, or an option that holds nothing.
    Unit,
    Bool(bool),
    Int(int),
    Str(Seq<char>),
    /// A sequence or a tuple.
    List(Seq<Value>),
    /// A map with strings as keys, or a struct: the keys and, at the same
    /// places, the values.
    Record(Seq<Seq<char>>, Seq<Value>),
    /// A variant of an enum: its name and its content, which is `Unit`
    /// for a variant without one.
    Variant(Seq<char>, Box<Value>),
}

/// Whether `s` can stand between quotes as it is: it holds no quote and
/// no backslash.
pub open spec fn plain(s: Seq<char>) -> bool {
    forall|i: int| 0 <= i < s.len() ==> #[trigger] s[i] != '"' && s[i] != '\\'
}

/// Whether a value is written so that it is read back: its integers have
/// 64 bits and its strings, keys and names are [`plain`].
pub open spec fn supported(v: Value) -> bool
    decreases v,
{
    match v {
        Value::Unit => true,
        Value::Bool(_) => true,
        Value::Int(n) => i64::MIN <= n <= i64::MAX,
        Value::Str(s) => plain(s),
        Value::List(items) => forall|k: int|
            0 <= k < items.len() ==> supported(#[trigger] items[k]),
        Value::Record(keys, values) => {
            &&& keys.len() == values.len()
            &&& forall|k: int| 0 <= k < keys.len() ==> plain(#[trigger] keys[k])
            &&& forall|k: int| 0 <= k < values.len() ==> supported(#[trigger] values[k])
        },
        Value::Variant(name, content) => plain(name) && supported(*content),
    }
}

/// The JSON text of a value.
pub open spec fn render(v: Value) -> Seq<char>
    decreases v, 0nat,
{
    match v {
        Value::Unit => "null"@,
        Value::Bool(b) => bool_text(b),
        Value::Int(n) => decimal_text(n),
        Value::Str(s) => quoted(s),
        Value::List(items) => seq!['['] + render_items(items, items.len()) + seq![']'],
        Value::Record(keys, values) => seq!['{'] + render_fields(keys, values, values.len())
            + seq!['}'],
        Value::Variant(name, content) => variant_head(name) + render(*content) + seq!['}'],
    }
}

/// The texts of the first `n` of `items`, with a `,` between two of them.
pub open spec fn render_items(items: Seq<Value>, n: nat) -> Seq<char>
    decreases items, n,
{
    if n == 0 || n > items.len() {
        Seq::empty()
    } else if n == 1 {
        render(items[0])
    } else {
        render_items(items, (n - 1) as nat).push(',') + render(items[n - 1])
    }
}

/// The text of a field: its quoted name, a `:` and the text of its value.
pub open spec fn render_field(key: Seq<char>, value: Seq<char>) -> Seq<char> {
    quoted(key) + seq![':'] + value
}

/// The texts of the first `n` fields, with a `,` between two of them.
pub open spec fn render_fields(keys: Seq<Seq<char>>, values: Seq<Value>, n: nat) -> Seq<char>
    decreases values, n,
{
    if n == 0 || n > values.len() {
        Seq::empty()
    } else if n == 1 {
        render_field(keys[0], render(values[0]))
    } else {
        render_fields(keys, values, (n - 1) as nat).push(',') + render_field(
            keys[n - 1],
            render(values[n - 1]),
        )
    }
}

/// The text after the encoder's calls for `v`, where `out` was written
/// before: each part is appended by the call that the encoder has for it,
/// and before each element or field the encoder itself decides on the
/// `,`.
pub open spec fn written(out: Seq<char>, v: Value) -> Seq<char>
    decreases v, 0nat,
{
    match v {
        Value::Unit => out + "null"@,
        Value::Bool(b) => out + bool_text(b),
        Value::Int(n) => out + decimal_text(n),
        Value::Str(s) => out + quoted(s),
        Value::List(items) => written_items(out.push('['), items, items.len()).push(']'),
        Value::Record(keys, values) => written_fields(
            out.push('{'),
            keys,
            values,
            values.len(),
        ).push('}'),
        Value::Variant(name, content) => written(out + variant_head(name), *content).push('}'),
    }
}

/// The text after the encoder's calls for the first `n` of `items`.
pub open spec fn written_items(out: Seq<char>, items: Seq<Value>, n: nat) -> Seq<char>
    decreases items, n,
{
    if n == 0 || n > items.len() {
        out
    } else {
        written(separated(written_items(out, items, (n - 1) as nat), '['), items[n - 1])
    }
}

/// The text after the encoder's calls for the first `n` fields.
pub open spec fn written_fields(
    out: Seq<char>,
    keys: Seq<Seq<char>>,
    values: Seq<Value>,
    n: nat,
) -> Seq<char>
    decreases values, n,
{
    if n == 0 || n > values.len() {
        out
    } else {
        written(
            separated(written_fields(out, keys, values, (n - 1) as nat), '{') + quoted(keys[n - 1])
                + seq![':'],
            values[n - 1],
        )
    }
}

/// The text of a value is not empty and ends neither with `[` nor with
/// `{`: behind it the encoder writes a `,` before a further part.
pub proof fn lemma_render_end(v: Value)
    ensures
        render(v).len() > 0,
        render(v).last() != '[',
        render(v).last() != '{',
    decreases v,
{
    match v {
        Value::Unit => {
            reveal_strlit("null");
        },
        Value::Bool(b) => {
            reveal_strlit("true");
            reveal_strlit("false");
        },
        Value::Int(n) => {
            lemma_decimal_digits((if n < 0 {
                -n
            } else {
                n
            }) as nat);
            let d = decimal_text(n);
            assert(is_digit(d[d.len() - 1])) by {
                let digits = decimal_digits((if n < 0 {
                    -n
                } else {
                    n
                }) as nat);
                assert(is_digit(digits[digits.len() - 1]));
            }
        },
        Value::Str(s) => {},
        Value::List(items) => {},
        Value::Record(keys, values) => {},
        Value::Variant(name, content) => {},
    }
}

/// The encoder's calls for a value append the text of the value.
pub proof fn lemma_written_is_rendered(out: Seq<char>, v: Value)
    ensures
        written(out, v) == out + render(v),
    decreases v, 0nat,
{
    match v {
        Value::List(items) => {
            lemma_written_items(out.push('['), items, items.len());
            assert(written(out, v) =~= out + render(v));
        },
        Value::Record(keys, values) => {
            lemma_written_fields(out.push('{'), keys, values, values.len());
            assert(written(out, v) =~= out + render(v));
        },
        Value::Variant(name, content) => {
            lemma_written_is_rendered(out + variant_head(name), *content);
            assert(written(out, v) =~= out + render(v));
        },
        _ => {},
    }
}

/// The encoder's calls for a variant without content, with a sequence or
/// with fields as its content write the variant with `Unit`, a `List` or
/// a `Record` as its content.
pub proof fn lemma_variants_written(
    out: Seq<char>,
    name: Seq<char>,
    items: Seq<Value>,
    keys: Seq<Seq<char>>,
    values: Seq<Value>,
)
    ensures
        written(out, Value::Variant(name, Box::new(Value::Unit))) == out + variant_head(name)
            + "null"@ + seq!['}'],
        written(out, Value::Variant(name, Box::new(Value::List(items)))) == written_items(
            (out + variant_head(name)).push('['),
            items,
            items.len(),
        ).push(']').push('}'),
        written(out, Value::Variant(name, Box::new(Value::Record(keys, values))))
            == written_fields(
            (out + variant_head(name)).push('{'),
            keys,
            values,
            values.len(),
        ).push('}').push('}'),
{
    reveal_with_fuel(written, 2);
    assert((out + variant_head(name) + "null"@).push('}') =~= out + variant_head(name) + "null"@
        + seq!['}']);
}

proof fn lemma_written_items(out: Seq<char>, items: Seq<Value>, n: nat)
    requires
        n <= items.len(),
        out.len() > 0,
        out.last() == '[',
    ensures
        written_items(out, items, n) == out + render_items(items, n),
        n > 0 ==> render_items(items, n).len() > 0 && render_items(items, n).last() != '[',
    decreases items, n,
{
    if n == 0 {
        assert(out + render_items(items, 0) =~= out);
    } else {
        lemma_written_items(out, items, (n - 1) as nat);
        let before = written_items(out, items, (n - 1) as nat);
        lemma_written_is_rendered(separated(before, '['), items[n - 1]);
        lemma_render_end(items[n - 1]);
        if n == 1 {
            assert(before =~= out);
        } else {
            assert(before.last() == render_items(items, (n - 1) as nat).last());
            assert(before.push(',') + render(items[n - 1]) =~= out + render_items(items, n));
        }
    }
}

proof fn lemma_written_fields(out: Seq<char>, keys: Seq<Seq<char>>, values: Seq<Value>, n: nat)
    requires
        n <= values.len(),
        out.len() > 0,
        out.last() == '{',
    ensures
        written_fields(out, keys, values, n) == out + render_fields(keys, values, n),
        n > 0 ==> render_fields(keys, values, n).len() > 0 && render_fields(
            keys,
            values,
            n,
        ).last() != '{',
    decreases values, n,
{
    if n == 0 {
        assert(out + render_fields(keys, values, 0) =~= out);
    } else {
        lemma_written_fields(out, keys, values, (n - 1) as nat);
        let before = written_fields(out, keys, values, (n - 1) as nat);
        let head = separated(before, '{') + quoted(keys[n - 1]) + seq![':'];
        lemma_written_is_rendered(head, values[n - 1]);
        lemma_render_end(values[n - 1]);
        if n == 1 {
            assert(before =~= out);
            assert(head + render(values[0]) =~= out + render_fields(keys, values, 1));
        } else {
            assert(before.last() == render_fields(keys, values, (n - 1) as nat).last());
            assert(head + render(values[n - 1]) =~= out + render_fields(keys, values, n));
        }
    }
}

/// Whether the text holds `x` at the position `i`.
pub open spec fn holds(text: Seq<char>, i: int, x: Seq<char>) -> bool {
    0 <= i && i + x.len() <= text.len() && text.subrange(i, i + x.len()) == x
}

/// Whether a number that ends before the position `i` ends there: no
/// code point that a number is made of follows.
pub open spec fn number_stops(text: Seq<char>, i: int) -> bool {
    i >= text.len() || !number_char(text[i])
}

proof fn lemma_holds_at(text: Seq<char>, i: int, x: Seq<char>, k: int)
    requires
        holds(text, i, x),
        0 <= k < x.len(),
    ensures
        text[i + k] == x[k],
{
    assert(text.subrange(i, i + x.len())[k] == text[i + k]);
}

/// A part of what the text holds is held too.
proof fn lemma_holds_part(text: Seq<char>, i: int, x: Seq<char>, from: int, to: int)
    requires
        holds(text, i, x),
        0 <= from <= to <= x.len(),
    ensures
        holds(text, i + from, x.subrange(from, to)),
{
    assert(text.subrange(i + from, i + to) =~= text.subrange(i, i + x.len()).subrange(from, to));
}

/// A bracket or an operator at `i` is the token there.
pub proof fn lemma_lex_bracket(text: Seq<char>, i: int)
    requires
        0 <= i < text.len(),
        bracket_char(text[i]) || operator_char(text[i]),
    ensures
        lex(text, i).end == i + 1,
        lex(text, i).result matches Ok(t) && t.is_op(seq![text[i]]) && forall|c: char|
            c != text[i] ==> !t.is_op(#[trigger] seq![c]),
{
    reveal(lex);
    let t = lex(text, i).result->Ok_0;
    assert forall|c: char| c != text[i] implies !t.is_op(#[trigger] seq![c]) by {
        assert(seq![c][0] != seq![text[i]][0]);
    }
}

proof fn lemma_matched_all(text: Seq<char>, i: int, word: Seq<char>, k: nat)
    requires
        holds(text, i, word),
        k <= word.len(),
    ensures
        matched(text, i, word, k) == word.len(),
    decreases word.len() - k,
{
    if k < word.len() {
        lemma_holds_at(text, i, word, k as int);
        lemma_matched_all(text, i, word, k + 1);
    }
}

/// `null` at `i` is read as the unit.
pub proof fn lemma_lex_null(text: Seq<char>, i: int)
    requires
        holds(text, i, "null"@),
    ensures
        lex(text, i).end == i + 4,
        value_at(text, i) == Ok::<VisitView, ErrorView>(VisitView::Unit),
        lex(text, i).result matches Ok(t) && forall|op: Seq<char>| !t.is_op(op),
{
    reveal(lex);
    reveal_strlit("null");
    reveal_strlit("ull");
    lemma_holds_at(text, i, "null"@, 0);
    lemma_holds_part(text, i, "null"@, 1, 4);
    assert("null"@.subrange(1, 4) =~= "ull"@);
    lemma_matched_all(text, i + 1, "ull"@, 0);
}

/// `true` or `false` at `i` is read as that.
pub proof fn lemma_lex_bool(text: Seq<char>, i: int, value: bool)
    requires
        holds(text, i, bool_text(value)),
    ensures
        lex(text, i).end == i + bool_text(value).len(),
        value_at(text, i) == Ok::<VisitView, ErrorView>(VisitView::Bool(value)),
        lex(text, i).result matches Ok(t) && forall|op: Seq<char>| !t.is_op(op),
{
    reveal(lex);
    reveal_strlit("true");
    reveal_strlit("rue");
    reveal_strlit("false");
    reveal_strlit("alse");
    lemma_holds_at(text, i, bool_text(value), 0);
    if value {
        lemma_holds_part(text, i, "true"@, 1, 4);
        assert("true"@.subrange(1, 4) =~= "rue"@);
        lemma_matched_all(text, i + 1, "rue"@, 0);
    } else {
        lemma_holds_part(text, i, "false"@, 1, 5);
        assert("false"@.subrange(1, 5) =~= "alse"@);
        lemma_matched_all(text, i + 1, "alse"@, 0);
    }
}

proof fn lemma_number_end(text: Seq<char>, from: int, end: int)
    requires
        0 <= from <= end <= text.len(),
        forall|k: int| from <= k < end ==> number_char(#[trigger] text[k]),
        number_stops(text, end),
    ensures
        number_end(text, from) == end,
    decreases end - from,
{
    if from < end {
        lemma_number_end(text, from + 1, end);
    }
}

/// The decimal text of an integer of 64 bits at `i`, behind which the
/// number stops, is read as that integer.
pub proof fn lemma_lex_integer(text: Seq<char>, i: int, n: int)
    requires
        holds(text, i, decimal_text(n)),
        number_stops(text, i + decimal_text(n).len()),
        i64::MIN <= n <= i64::MAX,
    ensures
        lex(text, i).end == i + decimal_text(n).len(),
        value_at(text, i) == Ok::<VisitView, ErrorView>(VisitView::I64(n)),
        lex(text, i).result matches Ok(t) && forall|op: Seq<char>| !t.is_op(op),
{
    reveal(lex);
    let d = decimal_text(n);
    let magnitude = (if n < 0 {
        -n
    } else {
        n
    }) as nat;
    lemma_decimal_digits(magnitude);
    assert forall|k: int| 0 <= k < d.len() implies number_char(#[trigger] d[k]) && (k == 0
        ==> is_digit(d[k]) || d[k] == '-') by {
        if n < 0 {
            if k > 0 {
                assert(d[k] == decimal_digits(magnitude)[k - 1]);
            }
        } else {
            assert(d[k] == decimal_digits(magnitude)[k]);
        }
    }
    assert forall|k: int| i <= k < i + d.len() implies number_char(#[trigger] text[k]) by {
        lemma_holds_at(text, i, d, k - i);
    }
    lemma_holds_at(text, i, d, 0);
    lemma_number_end(text, i + 1, i + d.len());
    lemma_parse_decimal_text(n, true, i64::MIN as int, i64::MAX as int);
}

proof fn lemma_scan_plain(text: Seq<char>, start: int, s: Seq<char>, j: int)
    requires
        holds(text, start, quoted(s)),
        plain(s),
        start + 1 <= j <= start + 1 + s.len(),
    ensures
        scan_string(text, start, j, None) == (Scanned {
            result: Ok::<TokenView, ErrorView>(
                TokenView::String(
                    StringView::NotEscaped(s),
                    span(text, start, start + s.len() + 2),
                ),
            ),
            end: start + s.len() + 2,
        }),
    decreases start + 1 + s.len() - j,
{
    let q = quoted(s);
    lemma_holds_at(text, start, q, j - start);
    if j < start + 1 + s.len() {
        assert(q[j - start] == s[j - start - 1]);
        lemma_scan_plain(text, start, s, j + 1);
    } else {
        lemma_holds_part(text, start, q, 1, s.len() as int + 1);
        assert(q.subrange(1, s.len() as int + 1) =~= s);
    }
}

/// A plain string between quotes at `i` is read as that string, as it
/// stands in the text.
pub proof fn lemma_lex_string(text: Seq<char>, i: int, s: Seq<char>)
    requires
        holds(text, i, quoted(s)),
        plain(s),
    ensures
        lex(text, i).end == i + s.len() + 2,
        quoted(s).len() == s.len() + 2,
        value_at(text, i) == Ok::<VisitView, ErrorView>(VisitView::BorrowedStr(s)),
        key_at(text, i) == Ok::<StringView, ErrorView>(StringView::NotEscaped(s)),
        lex(text, i).result matches Ok(t) && forall|op: Seq<char>| !t.is_op(op),
{
    reveal(lex);
    lemma_holds_at(text, i, quoted(s), 0);
    lemma_scan_plain(text, i, s, i + 1);
}

/// Whether the value that starts at `i` is visited as the string `s`.
pub open spec fn string_at(text: Seq<char>, i: int, s: Seq<char>) -> bool {
    value_at(text, i) == Ok::<VisitView, ErrorView>(VisitView::BorrowedStr(s)) || value_at(text, i)
        == Ok::<VisitView, ErrorView>(VisitView::String(s))
}

/// The position behind the value at `i`, where the decoder's steps for a
/// value of the shape of `v` give `v`; `None` where a step fails or gives
/// another value. The steps are those of the decoder: a value is started
/// by `deserialize_any`, or an enum by `deserialize_enum`; the parts of a
/// sequence or a map are asked for one after the other until there is
/// none left; a key is read as a string; an enum is a name, a `:`, the
/// content and a `}`.
pub open spec fn decodes(text: Seq<char>, i: int, v: Value) -> Option<int>
    decreases v, 0nat,
{
    let end = lex(text, i).end;
    match v {
        Value::Unit => if value_at(text, i) == Ok::<VisitView, ErrorView>(VisitView::Unit) {
            Some(end)
        } else {
            None
        },
        Value::Bool(b) => if value_at(text, i) == Ok::<VisitView, ErrorView>(VisitView::Bool(b)) {
            Some(end)
        } else {
            None
        },
        Value::Int(n) => if value_at(text, i) == Ok::<VisitView, ErrorView>(VisitView::I64(n)) {
            Some(end)
        } else {
            None
        },
        Value::Str(s) => if string_at(text, i, s) {
            Some(end)
        } else {
            None
        },
        Value::List(items) => if value_at(text, i) == Ok::<VisitView, ErrorView>(
            VisitView::SeqStart,
        ) {
            decodes_items(text, end, items, 0)
        } else {
            None
        },
        Value::Record(keys, values) => if value_at(text, i) == Ok::<VisitView, ErrorView>(
            VisitView::MapStart,
        ) {
            decodes_fields(text, end, keys, values, 0)
        } else {
            None
        },
        Value::Variant(name, content) => {
            let colon = lex(text, end).end;
            if op_at(text, i, seq!['{']) == Ok::<bool, ErrorView>(true) && string_at(
                text,
                end,
                name,
            ) && expected_at(text, colon, seq![':']) is Ok {
                match decodes(text, lex(text, colon).end, *content) {
                    Some(close) => if expected_at(text, close, seq!['}']) is Ok {
                        Some(lex(text, close).end)
                    } else {
                        None
                    },
                    None => None,
                }
            } else {
                None
            }
        },
    }
}

/// The position behind a sequence, read from `i` on where `k` of its
/// elements were read, where the steps give the further `items`.
pub open spec fn decodes_items(text: Seq<char>, i: int, items: Seq<Value>, k: nat) -> Option<int>
    decreases items, items.len() - k,
{
    let at = next_part_end(text, i, seq![']'], k == 0);
    match next_part(text, i, seq![']'], k == 0) {
        Ok(more) => if more {
            if k < items.len() {
                match decodes(text, at, items[k as int]) {
                    Some(behind) => decodes_items(text, behind, items, k + 1),
                    None => None,
                }
            } else {
                None
            }
        } else if k == items.len() {
            Some(at)
        } else {
            None
        },
        Err(_) => None,
    }
}

/// The position behind a map, read from `i` on where `k` of its fields
/// were read, where the steps give the further keys and values.
pub open spec fn decodes_fields(
    text: Seq<char>,
    i: int,
    keys: Seq<Seq<char>>,
    values: Seq<Value>,
    k: nat,
) -> Option<int>
    decreases values, values.len() - k,
{
    let at = next_part_end(text, i, seq!['}'], k == 0);
    match next_part(text, i, seq!['}'], k == 0) {
        Ok(more) => if more {
            let colon = lex(text, at).end;
            if k < values.len() && k < keys.len() && (key_at(text, at) matches Ok(key)
                && key.text() == keys[k as int]) && expected_at(text, colon, seq![':']) is Ok {
                match decodes(text, lex(text, colon).end, values[k as int]) {
                    Some(behind) => decodes_fields(text, behind, keys, values, k + 1),
                    None => None,
                }
            } else {
                None
            }
        } else if k == values.len() {
            Some(at)
        } else {
            None
        },
        Err(_) => None,
    }
}

/// Where the `k`-th of `n` items stands in their text, and what stands
/// before and behind it.
proof fn lemma_item_place(items: Seq<Value>, k: nat, n: nat)
    requires
        k < n <= items.len(),
    ensures
        ({
            let body = render_items(items, n);
            let before = render_items(items, k).len();
            let from = before + (if k > 0 {
                1nat
            } else {
                0nat
            });
            let to = render_items(items, k + 1).len();
            &&& to == from + render(items[k as int]).len()
            &&& to <= body.len()
            &&& body.subrange(from as int, to as int) == render(items[k as int])
            &&& k > 0 ==> body[before as int] == ','
            &&& k + 1 < n ==> to < body.len() && body[to as int] == ','
            &&& k + 1 == n ==> to == body.len()
        }),
    decreases n,
{
    let body = render_items(items, n);
    let last = render(items[n - 1]);
    if k + 1 == n {
        if n == 1 {
            assert(body.subrange(0, body.len() as int) =~= body);
        } else {
            let init = render_items(items, (n - 1) as nat);
            assert(body =~= init.push(',') + last);
            assert(body.subrange(init.len() as int + 1, body.len() as int) =~= last);
        }
    } else {
        lemma_item_place(items, k, (n - 1) as nat);
        let init = render_items(items, (n - 1) as nat);
        assert(body =~= init.push(',') + last);
        let before = render_items(items, k).len();
        let from = before + (if k > 0 {
            1nat
        } else {
            0nat
        });
        let to = render_items(items, k + 1).len();
        assert(body.subrange(from as int, to as int) =~= init.subrange(from as int, to as int));
        if k + 2 == n {
            assert(body[to as int] == ',');
        } else {
            assert(body[to as int] == init[to as int]);
        }
        if k > 0 {
            assert(body[before as int] == init[before as int]);
        }
    }
}

/// Where the `k`-th of `n` fields stands in their text, and what stands
/// before and behind it.
proof fn lemma_field_place(keys: Seq<Seq<char>>, values: Seq<Value>, k: nat, n: nat)
    requires
        k < n <= values.len(),
    ensures
        ({
            let body = render_fields(keys, values, n);
            let before = render_fields(keys, values, k).len();
            let from = before + (if k > 0 {
                1nat
            } else {
                0nat
            });
            let to = render_fields(keys, values, k + 1).len();
            let field = render_field(keys[k as int], render(values[k as int]));
            &&& to == from + field.len()
            &&& to <= body.len()
            &&& body.subrange(from as int, to as int) == field
            &&& k > 0 ==> body[before as int] == ','
            &&& k + 1 < n ==> to < body.len() && body[to as int] == ','
            &&& k + 1 == n ==> to == body.len()
        }),
    decreases n,
{
    let body = render_fields(keys, values, n);
    let last = render_field(keys[n - 1], render(values[n - 1]));
    if k + 1 == n {
        if n == 1 {
            assert(body.subrange(0, body.len() as int) =~= body);
        } else {
            let init = render_fields(keys, values, (n - 1) as nat);
            assert(body =~= init.push(',') + last);
            assert(body.subrange(init.len() as int + 1, body.len() as int) =~= last);
        }
    } else {
        lemma_field_place(keys, values, k, (n - 1) as nat);
        let init = render_fields(keys, values, (n - 1) as nat);
        assert(body =~= init.push(',') + last);
        let before = render_fields(keys, values, k).len();
        let from = before + (if k > 0 {
            1nat
        } else {
            0nat
        });
        let to = render_fields(keys, values, k + 1).len();
        assert(body.subrange(from as int, to as int) =~= init.subrange(from as int, to as int));
        if k + 2 == n {
            assert(body[to as int] == ',');
        } else {
            assert(body[to as int] == init[to as int]);
        }
        if k > 0 {
            assert(body[before as int] == init[before as int]);
        }
    }
}

/// Whether the token at `i` starts a value: it can be read and is none
/// of `]`, `}` and `,`.
pub open spec fn starts_value(text: Seq<char>, i: int) -> bool {
    lex(text, i).result matches Ok(t) && !t.is_op(seq![']']) && !t.is_op(seq!['}']) && !t.is_op(
        seq![','],
    )
}

/// Where a text holds the text of a supported value, and no number goes
/// on behind it, the decoder's steps for the shape of the value give the
/// value and end behind its text.
pub proof fn lemma_decodes_rendered(text: Seq<char>, i: int, v: Value)
    requires
        supported(v),
        holds(text, i, render(v)),
        number_stops(text, i + render(v).len()),
    ensures
        decodes(text, i, v) == Some(i + render(v).len()),
        starts_value(text, i),
    decreases v, 0nat,
{
    let r = render(v);
    match v {
        Value::Unit => {
            lemma_lex_null(text, i);
            reveal_strlit("null");
        },
        Value::Bool(b) => {
            lemma_lex_bool(text, i, b);
        },
        Value::Int(n) => {
            lemma_lex_integer(text, i, n);
        },
        Value::Str(s) => {
            lemma_lex_string(text, i, s);
        },
        Value::List(items) => {
            lemma_holds_at(text, i, r, 0);
            lemma_lex_bracket(text, i);
            lemma_decodes_items(text, i, items, 0);
            assert(render_items(items, 0).len() == 0);
        },
        Value::Record(keys, values) => {
            lemma_holds_at(text, i, r, 0);
            lemma_lex_bracket(text, i);
            lemma_decodes_fields(text, i, keys, values, 0);
            assert(render_fields(keys, values, 0).len() == 0);
        },
        Value::Variant(name, content) => {
            let inner = render(*content);
            let head = variant_head(name);
            assert(head.len() == name.len() + 4);
            assert(r.len() == head.len() + inner.len() + 1);
            lemma_holds_at(text, i, r, 0);
            lemma_lex_bracket(text, i);
            lemma_holds_part(text, i, r, 1, name.len() as int + 4);
            assert(r.subrange(1, name.len() as int + 4) =~= quoted(name) + seq![':']);
            lemma_key_and_colon(text, i + 1, name);
            lemma_holds_part(text, i, r, head.len() as int, head.len() as int + inner.len());
            assert(r.subrange(head.len() as int, head.len() as int + inner.len()) =~= inner);
            lemma_holds_at(text, i, r, head.len() as int + inner.len());
            lemma_decodes_rendered(text, i + head.len(), *content);
            lemma_lex_bracket(text, i + head.len() + inner.len());
        },
    }
}

/// At the bracket that closes it, a sequence or a map has no further
/// part.
proof fn lemma_part_closes(text: Seq<char>, at: int, close: char, first: bool)
    requires
        0 <= at < text.len(),
        text[at] == close,
        close == ']' || close == '}',
    ensures
        next_part(text, at, seq![close], first) == Ok::<bool, ErrorView>(false),
        next_part_end(text, at, seq![close], first) == at + 1,
{
    lemma_lex_bracket(text, at);
}

/// The first part of a sequence or a map starts where a value starts.
proof fn lemma_part_first(text: Seq<char>, at: int, close: char)
    requires
        starts_value(text, at),
        close == ']' || close == '}',
    ensures
        next_part(text, at, seq![close], true) == Ok::<bool, ErrorView>(true),
        next_part_end(text, at, seq![close], true) == at,
{
}

/// A further part of a sequence or a map starts behind a `,`.
proof fn lemma_part_next(text: Seq<char>, at: int, close: char)
    requires
        0 <= at < text.len(),
        text[at] == ',',
        close == ']' || close == '}',
    ensures
        next_part(text, at, seq![close], false) == Ok::<bool, ErrorView>(true),
        next_part_end(text, at, seq![close], false) == at + 1,
{
    lemma_lex_bracket(text, at);
}

/// A quoted plain key and the `:` behind it are read as that key and the
/// step to its value.
proof fn lemma_key_and_colon(text: Seq<char>, from: int, key: Seq<char>)
    requires
        holds(text, from, quoted(key) + seq![':']),
        plain(key),
    ensures
        key_at(text, from) == Ok::<StringView, ErrorView>(StringView::NotEscaped(key)),
        string_at(text, from, key),
        lex(text, from).end == from + key.len() + 2,
        expected_at(text, from + key.len() + 2, seq![':']) is Ok,
        lex(text, from + key.len() + 2).end == from + key.len() + 3,
        starts_value(text, from),
{
    let head = quoted(key) + seq![':'];
    lemma_holds_part(text, from, head, 0, key.len() as int + 2);
    assert(head.subrange(0, key.len() as int + 2) =~= quoted(key));
    lemma_lex_string(text, from, key);
    lemma_holds_at(text, from, head, key.len() as int + 2);
    lemma_lex_bracket(text, from + key.len() + 2);
}

/// Where the `k`-th item of a sequence stands in a text that holds the
/// sequence at `base`.
proof fn lemma_item_in_text(text: Seq<char>, base: int, items: Seq<Value>, k: nat)
    requires
        holds(text, base, render(Value::List(items))),
        k <= items.len(),
    ensures
        ({
            let at = base + 1 + render_items(items, k).len();
            let from = at + (if k > 0 {
                1int
            } else {
                0int
            });
            &&& 0 <= at < text.len()
            &&& k == items.len() ==> text[at] == ']' && at + 1 == base + render(
                Value::List(items),
            ).len()
            &&& k < items.len() ==> {
                &&& k > 0 ==> text[at] == ','
                &&& holds(text, from, render(items[k as int]))
                &&& from + render(items[k as int]).len() == base + 1 + render_items(
                    items,
                    k + 1,
                ).len()
                &&& number_stops(text, from + render(items[k as int]).len())
            }
        }),
{
    let n = items.len();
    let body = render_items(items, n);
    let r = render(Value::List(items));
    let at = base + 1 + render_items(items, k).len();
    assert(r.len() == body.len() + 2);
    lemma_holds_part(text, base, r, 1, body.len() as int + 1);
    assert(r.subrange(1, body.len() as int + 1) =~= body);
    lemma_holds_at(text, base, r, body.len() as int + 1);
    if k < n {
        lemma_item_place(items, k, n);
        let from = at + (if k > 0 {
            1int
        } else {
            0int
        });
        let to = base + 1 + render_items(items, k + 1).len();
        lemma_holds_part(text, base + 1, body, from - base - 1, to - base - 1);
        if k + 1 < n {
            lemma_holds_at(text, base + 1, body, to - base - 1);
        }
        if k > 0 {
            lemma_holds_at(text, base + 1, body, at - base - 1);
        }
    }
}

/// Where the `k`-th field of a map stands in a text that holds the map at
/// `base`.
proof fn lemma_field_in_text(
    text: Seq<char>,
    base: int,
    keys: Seq<Seq<char>>,
    values: Seq<Value>,
    k: nat,
)
    requires
        holds(text, base, render(Value::Record(keys, values))),
        k <= values.len(),
    ensures
        ({
            let at = base + 1 + render_fields(keys, values, k).len();
            let from = at + (if k > 0 {
                1int
            } else {
                0int
            });
            &&& 0 <= at < text.len()
            &&& k == values.len() ==> text[at] == '}' && at + 1 == base + render(
                Value::Record(keys, values),
            ).len()
            &&& k < values.len() ==> {
                let key = keys[k as int];
                let value = render(values[k as int]);
                &&& k > 0 ==> text[at] == ','
                &&& holds(text, from, quoted(key) + seq![':'])
                &&& holds(text, from + key.len() + 3, value)
                &&& from + key.len() + 3 + value.len() == base + 1 + render_fields(
                    keys,
                    values,
                    k + 1,
                ).len()
                &&& number_stops(text, from + key.len() + 3 + value.len())
            }
        }),
{
    let n = values.len();
    let body = render_fields(keys, values, n);
    let r = render(Value::Record(keys, values));
    let at = base + 1 + render_fields(keys, values, k).len();
    assert(r.len() == body.len() + 2);
    lemma_holds_part(text, base, r, 1, body.len() as int + 1);
    assert(r.subrange(1, body.len() as int + 1) =~= body);
    lemma_holds_at(text, base, r, body.len() as int + 1);
    if k < n {
        lemma_field_place(keys, values, k, n);
        let key = keys[k as int];
        let value = render(values[k as int]);
        let field = render_field(key, value);
        let from = at + (if k > 0 {
            1int
        } else {
            0int
        });
        let to = base + 1 + render_fields(keys, values, k + 1).len();
        lemma_holds_part(text, base + 1, body, from - base - 1, to - base - 1);
        if k + 1 < n {
            lemma_holds_at(text, base + 1, body, to - base - 1);
        }
        if k > 0 {
            lemma_holds_at(text, base + 1, body, at - base - 1);
        }
        assert(field.len() == key.len() + 3 + value.len());
        lemma_holds_part(text, from, field, 0, key.len() as int + 3);
        assert(field.subrange(0, key.len() as int + 3) =~= quoted(key) + seq![':']);
        lemma_holds_part(text, from, field, key.len() as int + 3, field.len() as int);
        assert(field.subrange(key.len() as int + 3, field.len() as int) =~= value);
    }
}

proof fn lemma_decodes_items(text: Seq<char>, base: int, items: Seq<Value>, k: nat)
    requires
        supported(Value::List(items)),
        holds(text, base, render(Value::List(items))),
        k <= items.len(),
    ensures
        decodes_items(text, base + 1 + render_items(items, k).len(), items, k) == Some(
            base + render(Value::List(items)).len(),
        ),
    decreases items, items.len() - k,
{
    let at = base + 1 + render_items(items, k).len();
    lemma_item_in_text(text, base, items, k);
    if k == items.len() {
        lemma_part_closes(text, at, ']', k == 0);
    } else {
        let from = at + (if k > 0 {
            1int
        } else {
            0int
        });
        lemma_decodes_rendered(text, from, items[k as int]);
        if k > 0 {
            lemma_part_next(text, at, ']');
        } else {
            lemma_part_first(text, at, ']');
        }
        lemma_decodes_items(text, base, items, k + 1);
    }
}

proof fn lemma_decodes_fields(
    text: Seq<char>,
    base: int,
    keys: Seq<Seq<char>>,
    values: Seq<Value>,
    k: nat,
)
    requires
        supported(Value::Record(keys, values)),
        holds(text, base, render(Value::Record(keys, values))),
        k <= values.len(),
    ensures
        decodes_fields(
            text,
            base + 1 + render_fields(keys, values, k).len(),
            keys,
            values,
            k,
        ) == Some(base + render(Value::Record(keys, values)).len()),
    decreases values, values.len() - k,
{
    let at = base + 1 + render_fields(keys, values, k).len();
    lemma_field_in_text(text, base, keys, values, k);
    if k == values.len() {
        lemma_part_closes(text, at, '}', k == 0);
    } else {
        let from = at + (if k > 0 {
            1int
        } else {
            0int
        });
        let key = keys[k as int];
        lemma_key_and_colon(text, from, key);
        lemma_decodes_rendered(text, from + key.len() + 3, values[k as int]);
        if k > 0 {
            lemma_part_next(text, at, '}');
        } else {
            lemma_part_first(text, at, '}');
        }
        lemma_decodes_fields(text, base, keys, values, k + 1);
    }
}

/// What the encoder writes for a supported value, the decoder reads back
/// as that value, from the start of the text to its end.
pub proof fn lemma_round_trip(v: Value)
    requires
        supported(v),
    ensures
        decodes(written(Seq::empty(), v), first_position(written(Seq::empty(), v)), v) == Some(
            written(Seq::empty(), v).len() as int,
        ),
{
    let text = written(Seq::empty(), v);
    lemma_written_is_rendered(Seq::empty(), v);
    assert(text =~= render(v));
    assert(text.subrange(0, text.len() as int) =~= text);
    lemma_decodes_rendered(text, 0, v);
    lemma_render_end(v);
    reveal(lex);
}

} // verus!
