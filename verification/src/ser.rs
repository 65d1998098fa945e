//! The encoder: writes JSON text, one part of a value at a time.
//!
//! A value is written by its own type's code, which calls the encoder for
//! each of its parts in turn. Every call appends to the text written so
//! far.

use vstd::prelude::*;
use vstd::string::StringExecFns;
use vstd::utf8::char_u32_cast;
use crate::error::Error;
use crate::number::{decimal_text, is_digit, lemma_decimal_digits, push_decimal, push_integer};
use crate::text::ends_with_ascii;

verus! {

/// `s` between double quotes, as it stands: nothing in it is escaped.
pub open spec fn quoted(s: Seq<char>) -> Seq<char> {
    seq!['"'] + s + seq!['"']
}

/// `true` or `false`.
pub open spec fn bool_text(v: bool) -> Seq<char> {
    if v {
        "true"@
    } else {
        "false"@
    }
}

/// The text `out` made ready for a further part of the sequence or map
/// that `opener` began: a `,` is added unless `out` ends with `opener`,
/// which is the case before the first part.
pub open spec fn separated(out: Seq<char>, opener: char) -> Seq<char> {
    if out.len() > 0 && out.last() == opener {
        out
    } else {
        out.push(',')
    }
}

/// The head of an enum variant with a content: `{`, the quoted name and
/// `:`.
pub open spec fn variant_head(variant: Seq<char>) -> Seq<char> {
    seq!['{'] + quoted(variant) + seq![':']
}

/// The decimal texts of the first `n` bytes of `v`, with a `,` between
/// two of them.
pub open spec fn bytes_body(v: Seq<u8>, n: nat) -> Seq<char>
    decreases n,
{
    if n == 0 {
        Seq::empty()
    } else if n == 1 {
        decimal_text(v[0] as int)
    } else {
        bytes_body(v, (n - 1) as nat).push(',') + decimal_text(v[n - 1] as int)
    }
}

/// The bytes `v` as a sequence of numbers.
pub open spec fn bytes_text(v: Seq<u8>) -> Seq<char> {
    seq!['['] + bytes_body(v, v.len()) + seq![']']
}

/// A writer of JSON text.
pub struct Serializer {
    output: String,
}

impl View for Serializer {
    type V = Seq<char>;

    /// The text written so far.
    closed spec fn view(&self) -> Seq<char> {
        self.output@
    }
}

impl Serializer {
    /// A writer that has written nothing.
    pub fn new() -> (s: Self)
        ensures
            s@ == Seq::<char>::empty(),
    {
        Serializer { output: String::new() }
    }

    /// The text written.
    pub fn into_string(self) -> (s: String)
        ensures
            s@ == self@,
    {
        self.output
    }

    /// Writes `true` or `false`.
    pub fn serialize_bool(&mut self, v: bool) -> (r: Result<(), Error>)
        ensures
            r is Ok,
            final(self)@ == old(self)@ + bool_text(v),
    {
        self.output.append(
            if v {
                "true"
            } else {
                "false"
            },
        );
        Ok(())
    }

    /// Writes `v` in decimal.
    pub fn serialize_i8(&mut self, v: i8) -> (r: Result<(), Error>)
        ensures
            r is Ok,
            final(self)@ == old(self)@ + decimal_text(v as int),
    {
        self.serialize_i64(v as i64)
    }

    /// Writes `v` in decimal.
    pub fn serialize_i16(&mut self, v: i16) -> (r: Result<(), Error>)
        ensures
            r is Ok,
            final(self)@ == old(self)@ + decimal_text(v as int),
    {
        self.serialize_i64(v as i64)
    }

    /// Writes `v` in decimal.
    pub fn serialize_i32(&mut self, v: i32) -> (r: Result<(), Error>)
        ensures
            r is Ok,
            final(self)@ == old(self)@ + decimal_text(v as int),
    {
        self.serialize_i64(v as i64)
    }

    /// Writes `v` in decimal.
    pub fn serialize_i64(&mut self, v: i64) -> (r: Result<(), Error>)
        ensures
            r is Ok,
            final(self)@ == old(self)@ + decimal_text(v as int),
    {
        if v < 0 {
            let magnitude: u128 = (-(v as i128)) as u128;
            push_integer(&mut self.output, true, magnitude);
        } else {
            push_integer(&mut self.output, false, v as u128);
        }
        Ok(())
    }

    /// Writes `v` in decimal.
    pub fn serialize_u8(&mut self, v: u8) -> (r: Result<(), Error>)
        ensures
            r is Ok,
            final(self)@ == old(self)@ + decimal_text(v as int),
    {
        self.serialize_u64(v as u64)
    }

    /// Writes `v` in decimal.
    pub fn serialize_u16(&mut self, v: u16) -> (r: Result<(), Error>)
        ensures
            r is Ok,
            final(self)@ == old(self)@ + decimal_text(v as int),
    {
        self.serialize_u64(v as u64)
    }

    /// Writes `v` in decimal.
    pub fn serialize_u32(&mut self, v: u32) -> (r: Result<(), Error>)
        ensures
            r is Ok,
            final(self)@ == old(self)@ + decimal_text(v as int),
    {
        self.serialize_u64(v as u64)
    }

    /// Writes `v` in decimal.
    pub fn serialize_u64(&mut self, v: u64) -> (r: Result<(), Error>)
        ensures
            r is Ok,
            final(self)@ == old(self)@ + decimal_text(v as int),
    {
        push_decimal(&mut self.output, v as u128);
        Ok(())
    }

    /// Writes a float, which the caller hands over as its decimal text.
    pub fn serialize_f64(&mut self, text: &str) -> (r: Result<(), Error>)
        ensures
            r is Ok,
            final(self)@ == old(self)@ + text@,
    {
        self.output.append(text);
        Ok(())
    }

    /// Writes `v` as a string of the one code point.
    pub fn serialize_char(&mut self, v: char) -> (r: Result<(), Error>)
        ensures
            r is Ok,
            final(self)@ == old(self)@ + quoted(seq![v]),
    {
        self.output.push('"');
        self.output.push(v);
        self.output.push('"');
        proof {
            assert(self.output@ =~= old(self)@ + quoted(seq![v]));
        }
        Ok(())
    }

    /// Writes `v` between quotes, as it stands.
    pub fn serialize_str(&mut self, v: &str) -> (r: Result<(), Error>)
        ensures
            r is Ok,
            final(self)@ == old(self)@ + quoted(v@),
    {
        self.output.push('"');
        self.output.append(v);
        self.output.push('"');
        proof {
            assert(self.output@ =~= old(self)@ + quoted(v@));
        }
        Ok(())
    }

    /// Writes `v` as a sequence of numbers, one for each byte.
    pub fn serialize_bytes(&mut self, v: &[u8]) -> (r: Result<(), Error>)
        ensures
            r is Ok,
            final(self)@ == old(self)@ + bytes_text(v@),
    {
        let _ = self.serialize_seq(Some(v.len()));
        let ghost before = self@;
        let mut i: usize = 0;
        proof {
            assert(before =~= old(self)@ + seq!['['] + bytes_body(v@, 0));
        }
        while i < v.len()
            invariant
                i <= v@.len(),
                self@ == old(self)@ + seq!['['] + bytes_body(v@, i as nat),
            decreases v@.len() - i,
        {
            let ghost so_far = self@;
            proof {
                if i > 0 {
                    lemma_bytes_body_end(v@, i as nat);
                }
            }
            let _ = self.serialize_element();
            let _ = self.serialize_u8(v[i]);
            proof {
                if i == 0 {
                    assert(so_far.last() == '[');
                    assert(self@ =~= old(self)@ + seq!['['] + bytes_body(v@, 1));
                } else {
                    assert(self@ =~= old(self)@ + seq!['['] + bytes_body(v@, (i + 1) as nat));
                }
            }
            i += 1;
        }
        let _ = self.end();
        proof {
            assert(self@ =~= old(self)@ + bytes_text(v@));
        }
        Ok(())
    }

    /// Writes an option that holds nothing, as `null`.
    pub fn serialize_none(&mut self) -> (r: Result<(), Error>)
        ensures
            r is Ok,
            final(self)@ == old(self)@ + "null"@,
    {
        self.serialize_unit()
    }

    /// Writes `null`.
    pub fn serialize_unit(&mut self) -> (r: Result<(), Error>)
        ensures
            r is Ok,
            final(self)@ == old(self)@ + "null"@,
    {
        self.output.append("null");
        Ok(())
    }

    /// Writes a struct without fields, as `null`.
    pub fn serialize_unit_struct(&mut self, name: &str) -> (r: Result<(), Error>)
        ensures
            r is Ok,
            final(self)@ == old(self)@ + "null"@,
    {
        self.serialize_unit()
    }

    /// Writes a variant without content, as every variant is written: a
    /// map of one entry from its name, here to `null`.
    pub fn serialize_unit_variant(&mut self, name: &str, variant_index: u32, variant: &str) -> (r:
        Result<(), Error>)
        ensures
            r is Ok,
            final(self)@ == old(self)@ + variant_head(variant@) + "null"@ + seq!['}'],
    {
        self.variant_head(variant);
        self.output.append("null");
        self.output.push('}');
        Ok(())
    }

    /// Starts a variant with one value as its content, which the caller
    /// writes next; [`Self::end_newtype_variant`] ends it.
    pub fn serialize_newtype_variant(
        &mut self,
        name: &str,
        variant_index: u32,
        variant: &str,
    ) -> (r: Result<(), Error>)
        ensures
            r is Ok,
            final(self)@ == old(self)@ + variant_head(variant@),
    {
        self.variant_head(variant);
        Ok(())
    }

    /// Ends a variant behind the one value that is its content.
    pub fn end_newtype_variant(&mut self) -> (r: Result<(), Error>)
        ensures
            r is Ok,
            final(self)@ == old(self)@.push('}'),
    {
        self.output.push('}');
        Ok(())
    }

    /// Starts a sequence; [`Self::serialize_element`] goes before each
    /// element and [`Self::end`] ends it.
    pub fn serialize_seq(&mut self, len: Option<usize>) -> (r: Result<(), Error>)
        ensures
            r is Ok,
            final(self)@ == old(self)@.push('['),
    {
        self.output.push('[');
        Ok(())
    }

    /// Starts a tuple, which is written as a sequence.
    pub fn serialize_tuple(&mut self, len: usize) -> (r: Result<(), Error>)
        ensures
            r is Ok,
            final(self)@ == old(self)@.push('['),
    {
        self.serialize_seq(Some(len))
    }

    /// Starts a tuple struct, which is written as a sequence.
    pub fn serialize_tuple_struct(&mut self, name: &str, len: usize) -> (r: Result<(), Error>)
        ensures
            r is Ok,
            final(self)@ == old(self)@.push('['),
    {
        self.serialize_seq(Some(len))
    }

    /// Starts a variant with a sequence as its content;
    /// [`Self::serialize_element`] goes before each element and
    /// [`Self::end_tuple_variant`] ends it.
    pub fn serialize_tuple_variant(
        &mut self,
        name: &str,
        variant_index: u32,
        variant: &str,
        len: usize,
    ) -> (r: Result<(), Error>)
        ensures
            r is Ok,
            final(self)@ == (old(self)@ + variant_head(variant@)).push('['),
    {
        self.variant_head(variant);
        self.output.push('[');
        Ok(())
    }

    /// Starts a map; [`Self::serialize_key`] goes before each key,
    /// [`Self::serialize_value`] before each value and [`Self::end_map`]
    /// ends it.
    pub fn serialize_map(&mut self, len: Option<usize>) -> (r: Result<(), Error>)
        ensures
            r is Ok,
            final(self)@ == old(self)@.push('{'),
    {
        self.output.push('{');
        Ok(())
    }

    /// Starts a struct, which is written as a map from the names of its
    /// fields; [`Self::serialize_field`] goes before the value of each.
    pub fn serialize_struct(&mut self, name: &str, len: usize) -> (r: Result<(), Error>)
        ensures
            r is Ok,
            final(self)@ == old(self)@.push('{'),
    {
        self.serialize_map(Some(len))
    }

    /// Starts a variant with fields as its content;
    /// [`Self::serialize_field`] goes before the value of each and
    /// [`Self::end_struct_variant`] ends it.
    pub fn serialize_struct_variant(
        &mut self,
        name: &str,
        variant_index: u32,
        variant: &str,
        len: usize,
    ) -> (r: Result<(), Error>)
        ensures
            r is Ok,
            final(self)@ == (old(self)@ + variant_head(variant@)).push('{'),
    {
        self.variant_head(variant);
        self.output.push('{');
        Ok(())
    }

    /// Goes to the next element of a sequence: writes a `,` before any
    /// but the first.
    pub fn serialize_element(&mut self) -> (r: Result<(), Error>)
        ensures
            r is Ok,
            final(self)@ == separated(old(self)@, '['),
    {
        proof {
            lemma_ascii_char(self.output@, '[', 0x5B);
        }
        if !ends_with_ascii(self.output.as_str(), 0x5B) {
            self.output.push(',');
        }
        Ok(())
    }

    /// Ends a sequence.
    pub fn end(&mut self) -> (r: Result<(), Error>)
        ensures
            r is Ok,
            final(self)@ == old(self)@.push(']'),
    {
        self.output.push(']');
        Ok(())
    }

    /// Ends a variant with a sequence as its content.
    pub fn end_tuple_variant(&mut self) -> (r: Result<(), Error>)
        ensures
            r is Ok,
            final(self)@ == old(self)@.push(']').push('}'),
    {
        self.output.push(']');
        self.output.push('}');
        Ok(())
    }

    /// Goes to the value of the field `key` of a struct: writes a `,`
    /// before any field but the first, then the quoted name and a `:`.
    pub fn serialize_field(&mut self, key: &str) -> (r: Result<(), Error>)
        ensures
            r is Ok,
            final(self)@ == separated(old(self)@, '{') + quoted(key@) + seq![':'],
    {
        proof {
            lemma_ascii_char(self.output@, '{', 0x7B);
        }
        if !ends_with_ascii(self.output.as_str(), 0x7B) {
            self.output.push(',');
        }
        let _ = self.serialize_str(key);
        self.output.push(':');
        proof {
            assert(self.output@ =~= separated(old(self)@, '{') + quoted(key@) + seq![':']);
        }
        Ok(())
    }

    /// Goes to the next key of a map: writes a `,` before any but the
    /// first.
    pub fn serialize_key(&mut self) -> (r: Result<(), Error>)
        ensures
            r is Ok,
            final(self)@ == separated(old(self)@, '{'),
    {
        proof {
            lemma_ascii_char(self.output@, '{', 0x7B);
        }
        if !ends_with_ascii(self.output.as_str(), 0x7B) {
            self.output.push(',');
        }
        Ok(())
    }

    /// Goes from a key of a map to its value: writes the `:`.
    pub fn serialize_value(&mut self) -> (r: Result<(), Error>)
        ensures
            r is Ok,
            final(self)@ == old(self)@.push(':'),
    {
        self.output.push(':');
        Ok(())
    }

    /// Ends a map or a struct.
    pub fn end_map(&mut self) -> (r: Result<(), Error>)
        ensures
            r is Ok,
            final(self)@ == old(self)@.push('}'),
    {
        self.output.push('}');
        Ok(())
    }

    /// Ends a variant with fields as its content.
    pub fn end_struct_variant(&mut self) -> (r: Result<(), Error>)
        ensures
            r is Ok,
            final(self)@ == old(self)@.push('}').push('}'),
    {
        self.output.push('}');
        self.output.push('}');
        Ok(())
    }

    /// Writes the head of a variant with a content.
    fn variant_head(&mut self, variant: &str)
        ensures
            final(self)@ == old(self)@ + variant_head(variant@),
    {
        self.output.push('{');
        let _ = self.serialize_str(variant);
        self.output.push(':');
        proof {
            assert(self.output@ =~= old(self)@ + variant_head(variant@));
        }
    }
}

proof fn lemma_ascii_char(out: Seq<char>, c: char, b: u8)
    requires
        c as u32 == b as u32,
    ensures
        (out.len() > 0 && out.last() as u32 == b as u32) <==> (out.len() > 0 && out.last() == c),
{
    if out.len() > 0 {
        char_u32_cast(out.last(), out.last() as u32);
        char_u32_cast(c, c as u32);
    }
}

/// The text of some bytes, if there are any, ends with a digit.
pub proof fn lemma_bytes_body_end(v: Seq<u8>, n: nat)
    requires
        0 < n <= v.len(),
    ensures
        bytes_body(v, n).len() > 0,
        '0' <= bytes_body(v, n).last() <= '9',
{
    lemma_decimal_digits(v[n - 1] as nat);
    let d = decimal_text(v[n - 1] as int);
    assert(is_digit(d[d.len() - 1]));
}

} // verus!
