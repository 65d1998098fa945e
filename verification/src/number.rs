//! Numbers as text: what an integer literal denotes, which literals are
//! decimal floats, and the decimal text of an integer.

use vstd::prelude::*;
use crate::text::CharCursor;

verus! {

/// The decimal digits.
pub open spec fn is_digit(c: char) -> bool {
    '0' <= c <= '9'
}

/// The number that a decimal digit denotes.
pub open spec fn digit_value(c: char) -> nat {
    (c as u32 - '0' as u32) as nat
}

/// Whether `s` is made of decimal digits only.
pub open spec fn all_digits(s: Seq<char>) -> bool {
    forall|i: int| 0 <= i < s.len() ==> is_digit(#[trigger] s[i])
}

/// The number that a run of decimal digits denotes.
pub open spec fn decimal_value(digits: Seq<char>) -> nat
    decreases digits.len(),
{
    if digits.len() == 0 {
        0
    } else {
        decimal_value(digits.drop_last()) * 10 + digit_value(digits.last())
    }
}

/// The signs of a number.
pub open spec fn is_sign(c: char) -> bool {
    c == '+' || c == '-'
}

/// What the text `s` denotes as an integer between `min` and `max`: an
/// optional sign, then one or more decimal digits and nothing else. A
/// leading `-` is read as a sign only where `signed` holds. `None` where
/// the text has another form or the number lies outside the bounds.
pub open spec fn parse_integer(s: Seq<char>, signed: bool, min: int, max: int) -> Option<int> {
    let negative = signed && s.len() > 0 && s[0] == '-';
    let digits = if s.len() > 0 && (s[0] == '+' || negative) {
        s.drop_first()
    } else {
        s
    };
    let value = if negative {
        -(decimal_value(digits) as int)
    } else {
        decimal_value(digits) as int
    };
    if digits.len() > 0 && all_digits(digits) && min <= value <= max {
        Some(value)
    } else {
        None
    }
}

/// Number of decimal digits that `s` starts with.
pub open spec fn leading_digits(s: Seq<char>) -> nat
    decreases s.len(),
{
    if s.len() > 0 && is_digit(s[0]) {
        1 + leading_digits(s.drop_first())
    } else {
        0
    }
}

/// Whether `e` is the exponent of a decimal float, after its `e`: an
/// optional sign and one or more digits.
pub open spec fn is_exponent(e: Seq<char>) -> bool {
    let digits = if e.len() > 0 && is_sign(e[0]) {
        e.drop_first()
    } else {
        e
    };
    digits.len() > 0 && all_digits(digits)
}

/// Whether `s` is a decimal floating-point literal: an optional sign, a
/// mantissa of digits with at most one `.` and at least one digit, and an
/// optional exponent `e` or `E` with an optional sign and one or more
/// digits. These are the texts that the float parser of the standard
/// library reads as numbers, besides the names of infinity and of what is
/// no number.
pub open spec fn is_decimal_float(s: Seq<char>) -> bool {
    let body = if s.len() > 0 && is_sign(s[0]) {
        s.drop_first()
    } else {
        s
    };
    let int_digits = leading_digits(body);
    let after_int = body.skip(int_digits as int);
    let dot = after_int.len() > 0 && after_int[0] == '.';
    let after_dot = if dot {
        after_int.drop_first()
    } else {
        after_int
    };
    let frac_digits = if dot {
        leading_digits(after_dot)
    } else {
        0
    };
    let tail = after_dot.skip(frac_digits as int);
    &&& int_digits + frac_digits > 0
    &&& tail.len() == 0 || ((tail[0] == 'e' || tail[0] == 'E') && is_exponent(tail.drop_first()))
}

/// The decimal digit that denotes `d`.
pub open spec fn digit_char(d: nat) -> char
    recommends
        d < 10,
{
    ((d + '0' as u32) as u32) as char
}

/// The decimal digits of `n`, without leading zeros.
pub open spec fn decimal_digits(n: nat) -> Seq<char>
    decreases n,
{
    if n < 10 {
        seq![digit_char(n)]
    } else {
        decimal_digits(n / 10).push(digit_char(n % 10))
    }
}

/// The decimal text of `v`: its digits, after a `-` where it is negative.
pub open spec fn decimal_text(v: int) -> Seq<char> {
    if v < 0 {
        seq!['-'] + decimal_digits((-v) as nat)
    } else {
        decimal_digits(v as nat)
    }
}

/// A run of `k` digits that ends in a code point that is no digit, or at
/// the end of the text, is the whole leading run.
pub proof fn lemma_leading_digits(s: Seq<char>, k: int)
    requires
        0 <= k <= s.len(),
        forall|j: int| 0 <= j < k ==> is_digit(#[trigger] s[j]),
        k < s.len() ==> !is_digit(s[k]),
    ensures
        leading_digits(s) == k,
    decreases k,
{
    if k > 0 {
        let t = s.drop_first();
        assert forall|j: int| 0 <= j < k - 1 implies is_digit(#[trigger] t[j]) by {
            assert(t[j] == s[j + 1]);
        }
        lemma_leading_digits(t, k - 1);
    }
}

/// A text starts with as many digits as it is long just where it is made
/// of digits only.
pub proof fn lemma_leading_digits_bound(s: Seq<char>)
    ensures
        leading_digits(s) <= s.len(),
        leading_digits(s) == s.len() <==> all_digits(s),
    decreases s.len(),
{
    if s.len() > 0 && is_digit(s[0]) {
        let t = s.drop_first();
        lemma_leading_digits_bound(t);
        if all_digits(t) {
            assert forall|j: int| 0 <= j < s.len() implies is_digit(#[trigger] s[j]) by {
                if j > 0 {
                    assert(s[j] == t[j - 1]);
                }
            }
        }
        if all_digits(s) {
            assert forall|j: int| 0 <= j < t.len() implies is_digit(#[trigger] t[j]) by {
                assert(t[j] == s[j + 1]);
            }
        }
    } else if s.len() > 0 {
        assert(!is_digit(s[0]));
    }
}

/// The first digits of a run denote no more than the run does.
pub proof fn lemma_decimal_value_prefix(digits: Seq<char>, k: int)
    requires
        0 <= k <= digits.len(),
    ensures
        decimal_value(digits.take(k)) <= decimal_value(digits),
    decreases digits.len() - k,
{
    if k < digits.len() {
        lemma_decimal_value_prefix(digits, k + 1);
        assert(digits.take(k + 1).drop_last() =~= digits.take(k));
    } else {
        assert(digits.take(k) =~= digits);
    }
}

/// The decimal digits of a number are digits, start with no sign and
/// denote the number.
pub proof fn lemma_decimal_digits(n: nat)
    ensures
        decimal_digits(n).len() > 0,
        all_digits(decimal_digits(n)),
        decimal_value(decimal_digits(n)) == n,
        !is_sign(decimal_digits(n)[0]),
    decreases n,
{
    if n < 10 {
        let s = decimal_digits(n);
        assert(s.drop_last() =~= Seq::<char>::empty());
        assert(decimal_value(s) == n) by {
            reveal_with_fuel(decimal_value, 2);
        }
    } else {
        lemma_decimal_digits(n / 10);
        let s = decimal_digits(n);
        assert(s.drop_last() =~= decimal_digits(n / 10));
    }
}

/// Reading the decimal text of a number gives the number back.
pub proof fn lemma_parse_decimal_text(v: int, signed: bool, min: int, max: int)
    requires
        min <= v <= max,
        v < 0 ==> signed,
    ensures
        parse_integer(decimal_text(v), signed, min, max) == Some(v),
{
    if v < 0 {
        let d = decimal_digits((-v) as nat);
        lemma_decimal_digits((-v) as nat);
        assert(decimal_text(v).drop_first() =~= d);
    } else {
        lemma_decimal_digits(v as nat);
    }
}

/// Passes the decimal digits that the rest of the text starts with; tells
/// whether there was one.
fn eat_digits(cur: &mut CharCursor) -> (any: bool)
    ensures
        final(cur).remaining() == old(cur).remaining().skip(
            leading_digits(old(cur).remaining()) as int,
        ),
        any == (leading_digits(old(cur).remaining()) > 0),
        leading_digits(old(cur).remaining()) <= old(cur).remaining().len(),
{
    let ghost start = cur.remaining();
    let ghost mut k: int = 0;
    let mut any = false;
    proof {
        assert(start.skip(0) =~= start);
    }
    loop
        invariant
            0 <= k <= start.len(),
            cur.remaining() == start.skip(k),
            forall|j: int| 0 <= j < k ==> is_digit(#[trigger] start[j]),
            any == (k > 0),
        ensures
            0 <= k <= start.len(),
            cur.remaining() == start.skip(k),
            any == (k > 0),
            leading_digits(start) == k,
        decreases start.len() - k,
    {
        match cur.peek() {
            Some((_, c)) => {
                if c >= '0' && c <= '9' {
                    cur.next();
                    proof {
                        assert(start.skip(k).drop_first() =~= start.skip(k + 1));
                        k = k + 1;
                    }
                    any = true;
                } else {
                    proof {
                        lemma_leading_digits(start, k);
                    }
                    break;
                }
            },
            None => {
                proof {
                    lemma_leading_digits(start, k);
                }
                break;
            },
        }
    }
    any
}

/// Whether `s` is a decimal floating-point literal.
pub fn is_float_text(s: &str) -> (r: bool)
    ensures
        r == is_decimal_float(s@),
{
    let mut cur = CharCursor::new(s);
    match cur.peek() {
        Some((_, c)) => {
            if c == '+' || c == '-' {
                cur.next();
            }
        },
        None => {},
    }
    let ghost body = cur.remaining();
    let any_int = eat_digits(&mut cur);
    let ghost after_int = cur.remaining();
    proof {
        assert(after_int.skip(0) =~= after_int);
    }
    let mut any_frac = false;
    match cur.peek() {
        Some((_, c)) => {
            if c == '.' {
                cur.next();
                any_frac = eat_digits(&mut cur);
            }
        },
        None => {},
    }
    if !any_int && !any_frac {
        return false;
    }
    match cur.next() {
        None => true,
        Some((_, c)) => {
            if c == 'e' || c == 'E' {
                match cur.peek() {
                    Some((_, sign)) => {
                        if sign == '+' || sign == '-' {
                            cur.next();
                        }
                    },
                    None => {},
                }
                let ghost digits = cur.remaining();
                let any = eat_digits(&mut cur);
                proof {
                    lemma_leading_digits_bound(digits);
                }
                match cur.peek() {
                    None => any,
                    Some(_) => false,
                }
            } else {
                false
            }
        },
    }
}

/// Reads `s` as an integer between `-neg_limit` and `pos_limit`; gives
/// its sign and its magnitude.
pub fn parse_integer_text(s: &str, signed: bool, neg_limit: u128, pos_limit: u128) -> (r: Option<
    (bool, u128),
>)
    ensures
        match r {
            Some((negative, magnitude)) => {
                &&& parse_integer(s@, signed, -(neg_limit as int), pos_limit as int) == Some(
                    if negative {
                        -(magnitude as int)
                    } else {
                        magnitude as int
                    },
                )
                &&& negative ==> signed && magnitude <= neg_limit
                &&& !negative ==> magnitude <= pos_limit
            },
            None => parse_integer(s@, signed, -(neg_limit as int), pos_limit as int) is None,
        },
{
    let mut cur = CharCursor::new(s);
    let mut negative = false;
    match cur.peek() {
        Some((_, c)) => {
            if c == '+' {
                cur.next();
            } else if c == '-' && signed {
                cur.next();
                negative = true;
            }
        },
        None => {},
    }
    let limit: u128 = if negative {
        neg_limit
    } else {
        pos_limit
    };
    let ghost digits = cur.remaining();
    let ghost mut k: int = 0;
    let mut value: u128 = 0;
    let mut any = false;
    proof {
        assert(digits.skip(0) =~= digits);
        assert(digits.take(0) =~= Seq::<char>::empty());
    }
    loop
        invariant
            0 <= k <= digits.len(),
            cur.remaining() == digits.skip(k),
            all_digits(digits.take(k)),
            value == decimal_value(digits.take(k)),
            value <= limit,
            any == (k > 0),
            negative == (signed && s@.len() > 0 && s@[0] == '-'),
            digits == (if s@.len() > 0 && (s@[0] == '+' || negative) {
                s@.drop_first()
            } else {
                s@
            }),
            limit == (if negative {
                neg_limit
            } else {
                pos_limit
            }),
        ensures
            k == digits.len(),
            all_digits(digits),
            value == decimal_value(digits),
            value <= limit,
            any == (k > 0),
        decreases digits.len() - k,
    {
        match cur.next() {
            None => {
                proof {
                    assert(digits.take(k) =~= digits);
                }
                break;
            },
            Some((_, c)) => {
                if !(c >= '0' && c <= '9') {
                    proof {
                        assert(digits[k] == c);
                    }
                    return None;
                }
                let d: u128 = (c as u32 - 48) as u128;
                proof {
                    assert(digits.skip(k).drop_first() =~= digits.skip(k + 1));
                    assert(digits.take(k + 1).drop_last() =~= digits.take(k));
                    assert(digits.take(k + 1).last() == c);
                    lemma_decimal_value_prefix(digits, k + 1);
                }
                let next = match value.checked_mul(10) {
                    Some(m) => match m.checked_add(d) {
                        Some(n) => n,
                        None => {
                            return None;
                        },
                    },
                    None => {
                        return None;
                    },
                };
                if next > limit {
                    return None;
                }
                value = next;
                any = true;
                proof {
                    k = k + 1;
                }
            },
        }
    }
    if any {
        Some((negative, value))
    } else {
        None
    }
}

/// Reads `s` as an integer between `min` and `max`, with an optional sign.
pub fn parse_signed(s: &str, min: i128, max: i128) -> (r: Option<i128>)
    ensures
        match r {
            Some(v) => parse_integer(s@, true, min as int, max as int) == Some(v as int),
            None => parse_integer(s@, true, min as int, max as int) is None,
        },
{
    let value = match parse_integer_text(
        s,
        true,
        0x8000_0000_0000_0000_0000_0000_0000_0000u128,
        i128::MAX as u128,
    ) {
        Some((negative, magnitude)) => {
            if !negative {
                magnitude as i128
            } else if magnitude == 0x8000_0000_0000_0000_0000_0000_0000_0000u128 {
                i128::MIN
            } else {
                -(magnitude as i128)
            }
        },
        None => {
            return None;
        },
    };
    if min <= value && value <= max {
        Some(value)
    } else {
        None
    }
}

/// Reads `s` as an integer between 0 and `max`; a `-` is no part of it.
pub fn parse_unsigned(s: &str, max: u128) -> (r: Option<u128>)
    ensures
        match r {
            Some(v) => parse_integer(s@, false, 0, max as int) == Some(v as int),
            None => parse_integer(s@, false, 0, max as int) is None,
        },
{
    match parse_integer_text(s, false, 0, max) {
        Some((_, magnitude)) => Some(magnitude),
        None => None,
    }
}

/// Appends the decimal digits of `v` to `out`.
pub fn push_decimal(out: &mut String, v: u128)
    ensures
        final(out)@ == old(out)@ + decimal_digits(v as nat),
    decreases v,
{
    if v >= 10 {
        push_decimal(out, v / 10);
    }
    let d: u8 = (v % 10) as u8;
    let c: char = (48 + d) as char;
    out.push(c);
    proof {
        assert(c == digit_char((v % 10) as nat));
        if v < 10 {
            assert(old(out)@.push(c) =~= old(out)@ + decimal_digits(v as nat));
        } else {
            assert((old(out)@ + decimal_digits((v / 10) as nat)).push(c) =~= old(out)@
                + decimal_digits(v as nat));
        }
    }
}

/// Appends the decimal text of a number, given by its sign and magnitude,
/// to `out`.
pub fn push_integer(out: &mut String, negative: bool, magnitude: u128)
    ensures
        final(out)@ == old(out)@ + decimal_text(
            if negative {
                -(magnitude as int)
            } else {
                magnitude as int
            },
        ),
{
    let minus = negative && magnitude > 0;
    if minus {
        out.push('-');
    }
    push_decimal(out, magnitude);
    proof {
        if minus {
            assert(old(out)@.push('-') + decimal_digits(magnitude as nat) =~= old(out)@ + (seq!['-']
                + decimal_digits(magnitude as nat)));
        }
    }
}

} // verus!
