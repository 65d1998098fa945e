//! Text positions: the input is a sequence of code points, while the
//! positions that are reported to callers count UTF-8 bytes.

use vstd::prelude::*;
use vstd::utf8::*;
use vstd::string::*;

verus! {

/// Number of bytes that `c` takes in UTF-8.
pub open spec fn utf8_width(c: char) -> nat {
    if (c as u32) < 0x80 {
        1
    } else if (c as u32) < 0x800 {
        2
    } else if (c as u32) < 0x10000 {
        3
    } else {
        4
    }
}

/// Number of bytes that `s` takes in UTF-8.
pub open spec fn utf8_len(s: Seq<char>) -> nat
    decreases s.len(),
{
    if s.len() == 0 {
        0
    } else {
        utf8_len(s.drop_last()) + utf8_width(s.last())
    }
}

/// Byte offset of the code point with index `i` in `text`; for
/// `i == text.len()` the length of the text in bytes.
pub open spec fn byte_offset(text: Seq<char>, i: int) -> nat {
    utf8_len(text.take(i))
}

/// A code point takes as many bytes as its encoding has, between one and
/// four.
pub proof fn lemma_width_is_encoded_len(c: char)
    ensures
        encode_scalar(c as u32).len() == utf8_width(c),
        1 <= utf8_width(c) <= 4,
{
    char_is_scalar(c);
}

/// Two texts, one after the other, are encoded as the one and then the
/// other.
pub proof fn lemma_encode_concat(a: Seq<char>, b: Seq<char>)
    ensures
        encode_utf8(a + b) == encode_utf8(a) + encode_utf8(b),
    decreases a.len(),
{
    if a.len() == 0 {
        assert(a + b =~= b);
        assert(encode_utf8(a) + encode_utf8(b) =~= encode_utf8(b));
    } else {
        assert((a + b).drop_first() =~= a.drop_first() + b);
        lemma_encode_concat(a.drop_first(), b);
        assert(encode_utf8(a + b) =~= encode_utf8(a) + encode_utf8(b));
    }
}

/// A text takes as many bytes as its encoding has.
pub proof fn lemma_utf8_len_is_encoded_len(s: Seq<char>)
    ensures
        utf8_len(s) == encode_utf8(s).len(),
    decreases s.len(),
{
    if s.len() > 0 {
        let head = s.drop_last();
        let tail = seq![s.last()];
        assert(s =~= head + tail);
        lemma_encode_concat(head, tail);
        lemma_utf8_len_is_encoded_len(head);
        lemma_width_is_encoded_len(s.last());
        assert(tail.drop_first() =~= Seq::<char>::empty());
        assert(encode_utf8(tail) =~= encode_scalar(s.last() as u32)) by {
            reveal_with_fuel(encode_utf8, 2);
        }
    }
}

/// Two texts, one after the other, take the bytes of both.
pub proof fn lemma_utf8_len_concat(a: Seq<char>, b: Seq<char>)
    ensures
        utf8_len(a + b) == utf8_len(a) + utf8_len(b),
{
    lemma_encode_concat(a, b);
    lemma_utf8_len_is_encoded_len(a);
    lemma_utf8_len_is_encoded_len(b);
    lemma_utf8_len_is_encoded_len(a + b);
}

/// Offsets grow with the index, by the width of each code point passed.
pub proof fn lemma_offset_step(text: Seq<char>, i: int)
    requires
        0 <= i < text.len(),
    ensures
        byte_offset(text, i + 1) == byte_offset(text, i) + utf8_width(text[i]),
        byte_offset(text, i) < byte_offset(text, i + 1) <= utf8_len(text),
{
    assert(text.take(i + 1).drop_last() =~= text.take(i));
    assert(text.take(i + 1).last() == text[i]);
    assert(text =~= text.take(i + 1) + text.skip(i + 1));
    lemma_utf8_len_concat(text.take(i + 1), text.skip(i + 1));
}

proof fn lemma_boundary(a: Seq<char>, b: Seq<char>)
    ensures
        is_char_boundary(encode_utf8(a + b), encode_utf8(a).len() as int),
    decreases a.len(),
{
    let bytes = encode_utf8(a + b);
    encode_utf8_valid_utf8(a + b);
    if a.len() > 0 {
        let rest = a.drop_first();
        assert((a + b).drop_first() =~= rest + b);
        encode_utf8_first_scalar(a + b);
        lemma_width_is_encoded_len(a[0]);
        assert(pop_first_scalar(bytes) =~= encode_utf8(rest + b));
        lemma_boundary(rest, b);
        lemma_encode_concat(a, b);
        assert(encode_utf8(a).len() == encode_scalar(a[0] as u32).len() + encode_utf8(rest).len());
    }
}

/// The part of `s` from the code point with index `i` on, which starts at
/// the byte offset `pos`.
pub(crate) fn tail_at<'a>(s: &'a str, pos: usize, Ghost(i): Ghost<int>) -> (r: &'a str)
    requires
        0 <= i <= s@.len(),
        pos == byte_offset(s@, i),
    ensures
        r@ == s@.skip(i),
{
    proof {
        let a = s@.take(i);
        let b = s@.skip(i);
        assert(s@ =~= a + b);
        lemma_encode_concat(a, b);
        lemma_boundary(a, b);
        lemma_utf8_len_is_encoded_len(a);
    }
    let (_, tail) = s.split_at(pos);
    proof {
        let a = s@.take(i);
        let b = s@.skip(i);
        assert(tail.spec_bytes() =~= encode_utf8(b));
        encode_utf8_decode_utf8(tail@);
        encode_utf8_decode_utf8(b);
    }
    tail
}

/// The part of `s` before the code point with index `i`, which starts at
/// the byte offset `pos`.
pub(crate) fn head_to<'a>(s: &'a str, pos: usize, Ghost(i): Ghost<int>) -> (r: &'a str)
    requires
        0 <= i <= s@.len(),
        pos == byte_offset(s@, i),
    ensures
        r@ == s@.take(i),
{
    proof {
        let a = s@.take(i);
        let b = s@.skip(i);
        assert(s@ =~= a + b);
        lemma_encode_concat(a, b);
        lemma_boundary(a, b);
        lemma_utf8_len_is_encoded_len(a);
    }
    let (head, _) = s.split_at(pos);
    proof {
        let a = s@.take(i);
        assert(head.spec_bytes() =~= encode_utf8(a));
        encode_utf8_decode_utf8(head@);
        encode_utf8_decode_utf8(a);
    }
    head
}

/// The code points `i..j` of `s`, which lie at the bytes `from..to`.
pub(crate) fn slice<'a>(
    s: &'a str,
    from: usize,
    to: usize,
    Ghost(i): Ghost<int>,
    Ghost(j): Ghost<int>,
) -> (r: &'a str)
    requires
        0 <= i <= j <= s@.len(),
        from == byte_offset(s@, i),
        to == byte_offset(s@, j),
    ensures
        r@ == s@.subrange(i, j),
{
    let head = head_to(s, to, Ghost(j));
    proof {
        assert(head@.take(i) =~= s@.take(i));
    }
    let r = tail_at(head, from, Ghost(i));
    proof {
        assert(s@.take(j).skip(i) =~= s@.subrange(i, j));
    }
    r
}

/// Width of `c` in UTF-8.
pub fn char_width(c: char) -> (w: usize)
    ensures
        w == utf8_width(c),
{
    let v: u32 = c as u32;
    if v < 0x80 {
        1
    } else if v < 0x800 {
        2
    } else if v < 0x10000 {
        3
    } else {
        4
    }
}

/// The first code point of `s`, if it has one.
pub fn first_char(s: &str) -> (r: Option<char>)
    ensures
        r == (if s@.len() > 0 {
            Some(s@[0])
        } else {
            None
        }),
{
    broadcast use vstd::string::group_string_axioms;
    let mut it = s.chars();
    it.next()
}

/// `String::push`: the text grows at its end by the one code point `ch`.
pub assume_specification[ std::string::String::push ](s: &mut std::string::String, ch: char)
    ensures
        final(s)@ == old(s)@.push(ch),
;

/// `char::from_u32`: the code point with the number `i`, where `i` is the
/// number of one, that is below 0xD800 or from 0xE000 to 0x10FFFF.
pub assume_specification[ char::from_u32 ](i: u32) -> (r: Option<char>)
    ensures
        r == (if is_scalar(i) {
            Some(i as char)
        } else {
            None
        }),
;

/// Whether two texts hold the same code points.
pub fn str_eq(a: &str, b: &str) -> (r: bool)
    ensures
        r == (a@ == b@),
{
    let x = a.as_bytes();
    let y = b.as_bytes();
    proof {
        encode_utf8_decode_utf8(a@);
        encode_utf8_decode_utf8(b@);
    }
    if x.len() != y.len() {
        return false;
    }
    let mut i: usize = 0;
    while i < x.len()
        invariant
            i <= x@.len(),
            x@.len() == y@.len(),
            x@ == encode_utf8(a@),
            y@ == encode_utf8(b@),
            forall|k: int| 0 <= k < i ==> x@[k] == y@[k],
        decreases x@.len() - i,
    {
        if x[i] != y[i] {
            return false;
        }
        i += 1;
    }
    proof {
        assert(x@ =~= y@);
        encode_utf8_decode_utf8(a@);
        encode_utf8_decode_utf8(b@);
    }
    true
}

proof fn lemma_last_byte(c: u32, b: u8)
    by (bit_vector)
    requires
        b < 0x80,
    ensures
        c <= 0x7F ==> (((c & 0x7F) as u8 == b) <==> c == b as u32),
        (0x80 | (c & 0x3F) as u8) != b,
{
}

/// Whether `s` ends with the code point whose number is `b`, which takes
/// one byte: the last byte of any longer code point is none of these.
pub(crate) fn ends_with_ascii(s: &str, b: u8) -> (r: bool)
    requires
        b < 0x80,
    ensures
        r == (s@.len() > 0 && s@.last() as u32 == b as u32),
{
    let bytes = s.as_bytes();
    proof {
        if s@.len() > 0 {
            let init = s@.drop_last();
            let c = s@.last();
            let tail = seq![c];
            assert(s@ =~= init + tail);
            lemma_encode_concat(init, tail);
            assert(tail.drop_first() =~= Seq::<char>::empty());
            assert(encode_utf8(tail) =~= encode_scalar(c as u32)) by {
                reveal_with_fuel(encode_utf8, 2);
            }
            char_is_scalar(c);
            lemma_last_byte(c as u32, b);
            assert(encode_utf8(s@).last() == encode_scalar(c as u32).last());
        }
    }
    match bytes.last() {
        Some(last) => *last == b,
        None => false,
    }
}

/// A walk over the code points of a text, which keeps the byte offset of
/// the next one.
#[derive(Clone, Copy)]
pub struct CharCursor<'a> {
    rest: &'a str,
    offset: usize,
}

impl<'a> CharCursor<'a> {
    #[verifier::type_invariant]
    spec fn inv(self) -> bool {
        self.offset + utf8_len(self.rest@) <= usize::MAX
    }

    /// The code points not yet passed.
    pub closed spec fn remaining(self) -> Seq<char> {
        self.rest@
    }

    /// The byte offset of the next code point.
    pub closed spec fn position(self) -> nat {
        self.offset as nat
    }

    /// A walk at the start of `s`.
    pub fn new(s: &'a str) -> (r: Self)
        ensures
            r.remaining() == s@,
            r.position() == 0,
    {
        let n = s.as_bytes().len();
        proof {
            lemma_utf8_len_is_encoded_len(s@);
        }
        CharCursor { rest: s, offset: 0 }
    }

    /// The next code point and its byte offset, without passing it.
    pub fn peek(&self) -> (r: Option<(usize, char)>)
        ensures
            match r {
                Some((at, c)) => self.remaining().len() > 0 && at == self.position() && c
                    == self.remaining()[0],
                None => self.remaining().len() == 0,
            },
    {
        match first_char(self.rest) {
            Some(c) => Some((self.offset, c)),
            None => None,
        }
    }

    /// The next code point and its byte offset; the walk passes it.
    pub fn next(&mut self) -> (r: Option<(usize, char)>)
        ensures
            match r {
                Some((at, c)) => old(self).remaining().len() > 0 && at == old(self).position() && c
                    == old(self).remaining()[0],
                None => old(self).remaining().len() == 0,
            },
            final(self).remaining() == (if old(self).remaining().len() > 0 {
                old(self).remaining().drop_first()
            } else {
                old(self).remaining()
            }),
            final(self).position() == old(self).position() + (if old(self).remaining().len() > 0 {
                utf8_width(old(self).remaining()[0])
            } else {
                0
            }),
    {
        proof {
            use_type_invariant(&*self);
        }
        match first_char(self.rest) {
            Some(c) => {
                let at = self.offset;
                let w = char_width(c);
                proof {
                    let text = self.rest@;
                    assert(text.take(1) =~= seq![c]);
                    assert(text.take(1).drop_last() =~= Seq::<char>::empty());
                    assert(byte_offset(text, 1) == w) by {
                        reveal_with_fuel(utf8_len, 2);
                    }
                    assert(text =~= text.take(1) + text.skip(1));
                    lemma_utf8_len_concat(text.take(1), text.skip(1));
                }
                let rest = tail_at(self.rest, w, Ghost(1));
                *self = CharCursor { rest, offset: at + w };
                Some((at, c))
            },
            None => None,
        }
    }

    /// The byte offset of the next code point, or the length of the text.
    pub fn offset(&self) -> (r: usize)
        ensures
            r == self.position(),
    {
        self.offset
    }
}

} // verus!
