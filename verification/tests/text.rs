use lisp_prims::character::{
    characterp, int_to_char, len_utf8, make_string, max_char, string, unibyte_string, TextValue,
};
use lisp_prims::error::ConversionError;

#[test]
fn max_char_has_two_ceilings() {
    assert_eq!(max_char(true), 0x10FFFF);
    assert_eq!(max_char(true), char::MAX as usize);
    assert_eq!(max_char(false), 0x3FFFFF);
}

#[test]
fn characterp_accepts_unicode_scalars() {
    assert!(characterp(0));
    assert!(characterp(65));
    assert!(characterp(0xD7FF));
    assert!(!characterp(0xD800));
    assert!(!characterp(0xDFFF));
    assert!(characterp(0xE000));
    assert!(characterp(0x10FFFF));
    assert!(!characterp(0x110000));
    assert!(!characterp(-1));
    assert!(!characterp(i64::MAX));
    assert!(!characterp(0x1_0000_0041));
}

#[test]
fn int_to_char_converts_scalars() {
    assert_eq!(int_to_char(65), Some('A'));
    assert_eq!(int_to_char(0x1F600), Some('\u{1F600}'));
    assert_eq!(int_to_char(0xD800), None);
    assert_eq!(int_to_char(-65), None);
}

#[test]
fn string_from_code_points() {
    assert_eq!(string(&[65, 66, 67]), Ok(String::from("ABC")));
    assert_eq!(string(&[]), Ok(String::new()));
    assert_eq!(string(&[0x3BB, 0x1F600]), Ok(String::from("\u{3BB}\u{1F600}")));
}

#[test]
fn string_fails_on_the_first_invalid_code_point() {
    assert_eq!(string(&[-1]), Err(ConversionError::InvalidCodePoint { index: 0 }));
    assert_eq!(string(&[65, 0xD800, -1]), Err(ConversionError::InvalidCodePoint { index: 1 }));
    assert_eq!(string(&[65, 66, 0x110000]), Err(ConversionError::InvalidCodePoint { index: 2 }));
}

#[test]
fn unibyte_string_from_integers() {
    assert_eq!(unibyte_string(&[254, 255]), Ok(vec![254u8, 255u8]));
    assert_eq!(unibyte_string(&[]), Ok(Vec::new()));
    assert_eq!(unibyte_string(&[0, 65, 128]), Ok(vec![0u8, 65u8, 128u8]));
}

#[test]
fn unibyte_string_fails_on_the_first_value_out_of_range() {
    assert_eq!(unibyte_string(&[258, 255]), Err(ConversionError::ByteOutOfRange { index: 0 }));
    assert_eq!(unibyte_string(&[255, 256, -1]), Err(ConversionError::ByteOutOfRange { index: 1 }));
    assert_eq!(unibyte_string(&[1, 2, -1]), Err(ConversionError::ByteOutOfRange { index: 2 }));
}

#[test]
fn len_utf8_matches_the_encoding() {
    for c in ['\0', 'A', '\u{7F}', '\u{80}', '\u{7FF}', '\u{800}', '\u{FFFF}', '\u{10000}', '\u{10FFFF}'] {
        assert_eq!(len_utf8(c), c.len_utf8());
    }
}

#[test]
fn make_string_of_bytes() {
    assert_eq!(make_string(3, 65, false), Ok(TextValue::Unibyte(vec![65, 65, 65])));
    assert_eq!(make_string(0, 65, false), Ok(TextValue::Unibyte(Vec::new())));
    assert_eq!(make_string(2, 255, false), Ok(TextValue::Unibyte(vec![255, 255])));
    assert_eq!(make_string(3, 256, false), Err(ConversionError::ByteOutOfRange { index: 0 }));
}

#[test]
fn make_string_of_characters() {
    match make_string(2, 0x1F600, true) {
        Ok(TextValue::Multibyte(text)) => {
            assert_eq!(text.len(), 2 * '\u{1F600}'.len_utf8());
            assert_eq!(text.as_bytes(), [0xF0, 0x9F, 0x98, 0x80, 0xF0, 0x9F, 0x98, 0x80]);
            assert!(text.capacity() >= 8);
        }
        other => panic!("expected text, got {:?}", other),
    }
    assert_eq!(make_string(3, 65, true), Ok(TextValue::Multibyte(String::from("AAA"))));
    assert_eq!(make_string(0, 65, true), Ok(TextValue::Multibyte(String::new())));
    assert_eq!(make_string(1, 0xD800, true), Err(ConversionError::InvalidCodePoint { index: 0 }));
    assert_eq!(make_string(1, 0x110000, true), Err(ConversionError::InvalidCodePoint { index: 0 }));
    assert_eq!(make_string(1, usize::MAX, true), Err(ConversionError::InvalidCodePoint { index: 0 }));
}
