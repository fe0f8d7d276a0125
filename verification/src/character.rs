//! Characters, and the constructors of text and of byte buffers.
//!
//! A buffer is either a flat sequence of bytes or a sequence of Unicode
//! scalar values stored as UTF-8. Which of the two is built is the caller's
//! choice at construction.
use vstd::prelude::*;
use vstd::utf8::{is_scalar, encode_scalar, encode_utf8};
use crate::error::ConversionError;

verus! {

/// The largest Unicode scalar value.
pub const MAX_UNICODE: usize = 0x10_FFFF;

/// The largest character code where codes beyond Unicode stand for raw bytes.
pub const MAX_CHARACTER: usize = 0x3F_FFFF;

/// Whether an integer is a Unicode scalar value: a code point that is not a
/// surrogate.
pub open spec fn is_character(v: int) -> bool {
    0 <= v <= 0xD7FF || 0xE000 <= v <= 0x10_FFFF
}

/// Whether an integer is a byte.
pub open spec fn is_byte(v: int) -> bool {
    0 <= v <= 255
}

/// The number of bytes that the UTF-8 encoding of a scalar value takes.
pub open spec fn utf8_width(v: int) -> nat
    recommends
        is_character(v),
{
    if v <= 0x7F {
        1
    } else if v <= 0x7FF {
        2
    } else if v <= 0xFFFF {
        3
    } else {
        4
    }
}

/// A buffer of text or of bytes.
#[derive(Debug, PartialEq, Eq)]
pub enum TextValue {
    /// Unicode scalar values, stored as UTF-8.
    Multibyte(String),
    /// Bytes.
    Unibyte(Vec<u8>),
}

/// What a buffer holds.
pub enum TextView {
    Multibyte(Seq<char>),
    Unibyte(Seq<u8>),
}

impl View for TextValue {
    type V = TextView;

    open spec fn view(&self) -> TextView {
        match self {
            TextValue::Multibyte(s) => TextView::Multibyte(s@),
            TextValue::Unibyte(b) => TextView::Unibyte(b@),
        }
    }
}

/// `char::from_u32`: the character of a Unicode scalar value, and none for
/// any other number.
pub assume_specification[ char::from_u32 ](i: u32) -> (r: Option<char>)
    ensures
        r == (if is_scalar(i) {
            Some(i as char)
        } else {
            None
        }),
;

/// `String::with_capacity`: an empty string. It panics on a capacity beyond
/// `isize::MAX`, which the precondition leaves out.
pub assume_specification[ String::with_capacity ](capacity: usize) -> (s: String)
    requires
        capacity <= isize::MAX,
    ensures
        s@ == Seq::<char>::empty(),
;

/// `String::push`: the string with the character appended.
pub assume_specification[ String::push ](s: &mut String, ch: char)
    ensures
        final(s)@ == old(s)@.push(ch),
;

/// The width this module states is that of the encoding.
pub proof fn lemma_utf8_width(c: char)
    ensures
        is_character(c as int),
        encode_scalar(c as u32).len() == utf8_width(c as int),
        1 <= utf8_width(c as int) <= 4,
{
    vstd::utf8::char_is_scalar(c);
}

/// The UTF-8 encoding of `n` copies of a character is `n` times as long as
/// the encoding of one.
pub proof fn lemma_repeated_encoding(c: char, n: nat)
    ensures
        encode_utf8(Seq::new(n, |i: int| c)).len() == n * utf8_width(c as int),
    decreases n,
{
    lemma_utf8_width(c);
    let s = Seq::new(n, |i: int| c);
    if n > 0 {
        lemma_repeated_encoding(c, (n - 1) as nat);
        assert(s.drop_first() =~= Seq::new((n - 1) as nat, |i: int| c));
        assert(n * utf8_width(c as int) == utf8_width(c as int) + (n - 1) * utf8_width(c as int))
            by (nonlinear_arith);
    }
}

/// The largest character code: that of Unicode where `unicode` is set, and
/// else the larger one that leaves room for raw bytes.
pub fn max_char(unicode: bool) -> (r: usize)
    ensures
        r == (if unicode {
            MAX_UNICODE
        } else {
            MAX_CHARACTER
        }),
{
    if unicode {
        MAX_UNICODE
    } else {
        MAX_CHARACTER
    }
}

/// The character with the scalar value `value`, where it is one.
pub fn int_to_char(value: i64) -> (r: Option<char>)
    ensures
        r == (if is_character(value as int) {
            Some(value as char)
        } else {
            None
        }),
{
    if value < 0 || value > 0x10_FFFF {
        None
    } else {
        char::from_u32(value as u32)
    }
}

/// Whether the integer is a character, that is a Unicode scalar value.
pub fn characterp(value: i64) -> (r: bool)
    ensures
        r == is_character(value as int),
{
    int_to_char(value).is_some()
}

/// Whether every integer of the sequence is a Unicode scalar value.
pub open spec fn all_characters(s: Seq<i64>) -> bool {
    forall|i: int| 0 <= i < s.len() ==> is_character(#[trigger] s[i] as int)
}

/// Whether every integer of the sequence is a byte.
pub open spec fn all_bytes(s: Seq<i64>) -> bool {
    forall|i: int| 0 <= i < s.len() ==> is_byte(#[trigger] s[i] as int)
}

/// The text made of the characters with the given scalar values, in order.
/// The first value that is not a Unicode scalar value fails the whole, and
/// the failure names its place.
pub fn string(characters: &[i64]) -> (r: Result<String, ConversionError>)
    ensures
        match r {
            Ok(text) => all_characters(characters@) && text@ == characters@.map_values(
                |v: i64| v as char,
            ),
            Err(e) => e matches ConversionError::InvalidCodePoint { index } && index
                < characters@.len() && !is_character(characters@[index as int] as int)
                && all_characters(characters@.take(index as int)),
        },
{
    let mut out = String::new();
    let mut i: usize = 0;
    while i < characters.len()
        invariant
            i <= characters.len(),
            all_characters(characters@.take(i as int)),
            out@ == characters@.take(i as int).map_values(|v: i64| v as char),
        decreases characters.len() - i,
    {
        match int_to_char(characters[i]) {
            Some(c) => {
                out.push(c);
            },
            None => {
                return Err(ConversionError::InvalidCodePoint { index: i });
            },
        }
        proof {
            let before = characters@.take(i as int);
            let after = characters@.take(i + 1);
            assert(after =~= before.push(characters@[i as int]));
            assert(after.map_values(|v: i64| v as char) =~= before.map_values(
                |v: i64| v as char,
            ).push(characters@[i as int] as char));
            assert forall|k: int| 0 <= k < after.len() implies is_character(
                #[trigger] after[k] as int,
            ) by {
                if k < i {
                    assert(before[k] == after[k]);
                }
            }
        }
        i = i + 1;
    }
    proof {
        assert(characters@.take(i as int) =~= characters@);
    }
    Ok(out)
}

/// The byte buffer made of the given integers, in order. The first value
/// that is not a byte fails the whole, and the failure names its place.
pub fn unibyte_string(bytes: &[i64]) -> (r: Result<Vec<u8>, ConversionError>)
    ensures
        match r {
            Ok(buffer) => all_bytes(bytes@) && buffer@ == bytes@.map_values(|v: i64| v as u8),
            Err(e) => e matches ConversionError::ByteOutOfRange { index } && index < bytes@.len()
                && !is_byte(bytes@[index as int] as int) && all_bytes(bytes@.take(index as int)),
        },
{
    let mut out: Vec<u8> = Vec::with_capacity(bytes.len());
    let mut i: usize = 0;
    while i < bytes.len()
        invariant
            i <= bytes.len(),
            all_bytes(bytes@.take(i as int)),
            out@ == bytes@.take(i as int).map_values(|v: i64| v as u8),
        decreases bytes.len() - i,
    {
        let value: i64 = bytes[i];
        if value < 0 || value > 255 {
            return Err(ConversionError::ByteOutOfRange { index: i });
        }
        out.push(value as u8);
        proof {
            let before = bytes@.take(i as int);
            let after = bytes@.take(i + 1);
            assert(after =~= before.push(bytes@[i as int]));
            assert(after.map_values(|v: i64| v as u8) =~= before.map_values(|v: i64| v as u8).push(
                value as u8,
            ));
            assert forall|k: int| 0 <= k < after.len() implies is_byte(
                #[trigger] after[k] as int,
            ) by {
                if k < i {
                    assert(before[k] == after[k]);
                }
            }
        }
        i = i + 1;
    }
    proof {
        assert(bytes@.take(i as int) =~= bytes@);
    }
    Ok(out)
}

/// The number of bytes of the UTF-8 encoding of a character.
pub fn len_utf8(c: char) -> (r: usize)
    ensures
        r == utf8_width(c as int),
        r == encode_scalar(c as u32).len(),
        1 <= r <= 4,
{
    proof {
        lemma_utf8_width(c);
    }
    let v: u32 = c as u32;
    if v <= 0x7F {
        1
    } else if v <= 0x7FF {
        2
    } else if v <= 0xFFFF {
        3
    } else {
        4
    }
}

/// Whether a buffer of `length` copies of `init` stays within what one
/// allocation can hold.
pub open spec fn fits_in_memory(length: usize, init: usize, multibyte: bool) -> bool {
    if multibyte {
        is_character(init as int) ==> length * utf8_width(init as int) <= isize::MAX
    } else {
        is_byte(init as int) ==> length <= isize::MAX
    }
}

/// A buffer of `length` copies of `init`: of the character with that scalar
/// value where `multibyte` is set, and else of that byte. The buffer is given
/// its full size before it is filled.
pub fn make_string(length: usize, init: usize, multibyte: bool) -> (r: Result<
    TextValue,
    ConversionError,
>)
    requires
        fits_in_memory(length, init, multibyte),
    ensures
        match r {
            Ok(text) => if multibyte {
                &&& is_character(init as int)
                &&& text@ == TextView::Multibyte(Seq::new(length as nat, |i: int| init as char))
                &&& text matches TextValue::Multibyte(s) && encode_utf8(s@).len() == length
                    * utf8_width(init as int)
            } else {
                is_byte(init as int) && text@ == TextView::Unibyte(
                    Seq::new(length as nat, |i: int| init as u8),
                )
            },
            Err(e) => if multibyte {
                !is_character(init as int) && e == (ConversionError::InvalidCodePoint { index: 0 })
            } else {
                !is_byte(init as int) && e == (ConversionError::ByteOutOfRange { index: 0 })
            },
        },
{
    if multibyte {
        if init > MAX_UNICODE {
            return Err(ConversionError::InvalidCodePoint { index: 0 });
        }
        let c: char = match int_to_char(init as i64) {
            Some(c) => c,
            None => {
                return Err(ConversionError::InvalidCodePoint { index: 0 });
            },
        };
        let size: usize = len_utf8(c);
        let mut text = String::with_capacity(length * size);
        let mut i: usize = 0;
        while i < length
            invariant
                i <= length,
                text@ == Seq::new(i as nat, |k: int| c),
            decreases length - i,
        {
            text.push(c);
            i = i + 1;
            assert(text@ =~= Seq::new(i as nat, |k: int| c));
        }
        proof {
            assert(text@ =~= Seq::new(length as nat, |i: int| init as char));
            assert(text@ =~= Seq::new(length as nat, |i: int| c));
            lemma_repeated_encoding(c, length as nat);
        }
        Ok(TextValue::Multibyte(text))
    } else {
        if init > 255 {
            return Err(ConversionError::ByteOutOfRange { index: 0 });
        }
        let byte: u8 = init as u8;
        let mut buffer: Vec<u8> = Vec::with_capacity(length);
        let mut i: usize = 0;
        while i < length
            invariant
                i <= length,
                buffer@ == Seq::new(i as nat, |k: int| byte),
            decreases length - i,
        {
            buffer.push(byte);
            i = i + 1;
            assert(buffer@ =~= Seq::new(i as nat, |k: int| byte));
        }
        assert(buffer@ =~= Seq::new(length as nat, |i: int| init as u8));
        Ok(TextValue::Unibyte(buffer))
    }
}

} // verus!
