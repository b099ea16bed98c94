use accessor_parser::error::{
    AccessorParserError, AccessorParserErrorKind, InvalidUnicodeError, ParseFailure,
};
use accessor_parser::parser::{
    take_char, take_escaped_char, take_key, take_numeric_key, take_spanned_accessor,
    take_spanned_key, take_spanned_keys, take_string_key, take_string_with_escape_until,
    take_unicode, to_chars,
};
use accessor_parser::{AccessorKey, AccessorParserSpan, SpannedAccessorKey};

const NONE: [char; 0] = [];

fn rest_of(input: &[char], pos: usize) -> String {
    input[pos..].iter().collect()
}

fn span(start: usize, end: usize) -> AccessorParserSpan {
    AccessorParserSpan { start, end }
}

fn error(kind: AccessorParserErrorKind, start: usize, end: usize) -> AccessorParserError {
    AccessorParserError { kind, span: span(start, end) }
}

fn is_text(key: &AccessorKey, text: &str) -> bool {
    matches!(key, AccessorKey::String(s) if s.as_str() == text)
}

#[test]
fn should_take_single_char() {
    let input = to_chars("abcd");
    let (rest, ch) = take_char(&input, 0, &NONE).unwrap();
    assert_eq!('a', ch);
    assert_eq!("bcd", rest_of(&input, rest));
    assert_eq!(1, rest);
}

#[test]
fn should_fail_to_take_reserved_char() {
    let input = to_chars(".bcd");
    let err = take_char(&input, 0, &['.']).unwrap_err();
    assert_eq!(err, error(AccessorParserErrorKind::InvalidCharacter('.'), 0, 1));
}

#[test]
fn should_take_multiple_chars() {
    let input = to_chars("abcd");
    let (pos, ch1) = take_char(&input, 0, &NONE).unwrap();
    let (rest, ch2) = take_char(&input, pos, &NONE).unwrap();
    assert_eq!('a', ch1);
    assert_eq!('b', ch2);
    assert_eq!("cd", rest_of(&input, rest));
    assert_eq!(2, rest);
}

#[test]
fn should_take_only_first_chars() {
    let input = to_chars("a.cd");
    let (pos, ch1) = take_char(&input, 0, &['.']).unwrap();
    let err = take_char(&input, pos, &['.']).unwrap_err();
    assert_eq!('a', ch1);
    assert_eq!(err, error(AccessorParserErrorKind::InvalidCharacter('.'), 1, 2));
}

#[test]
fn should_parse_correct_unicode() {
    let input = to_chars("{61}bcd");
    let (rest, ch) = take_unicode(&input, 0).unwrap();
    assert_eq!('a', ch);
    assert_eq!("bcd", rest_of(&input, rest));
    assert_eq!(4, rest);
}

#[test]
fn should_fail_to_parse_unicode_on_to_short_code() {
    let kind = AccessorParserErrorKind::InvalidUnicode(InvalidUnicodeError::InvalidCodeLength);
    let err = take_unicode(&to_chars("{6}bcd"), 0).unwrap_err();
    assert_eq!(err, error(kind, 1, 2));

    let err = take_unicode(&to_chars("{123456789}bcd"), 0).unwrap_err();
    assert_eq!(err, error(kind, 1, 10));
}

#[test]
fn should_fail_to_parse_unicode_on_missing_opening_bracket() {
    let err = take_unicode(&to_chars("6}bcd"), 0).unwrap_err();
    let kind = AccessorParserErrorKind::InvalidUnicode(InvalidUnicodeError::MissingOpeningBracket);
    assert_eq!(err, error(kind, 0, 1));
}

#[test]
fn should_fail_to_parse_unicode_on_missing_closing_bracket() {
    let err = take_unicode(&to_chars("{6bcd"), 0).unwrap_err();
    let kind = AccessorParserErrorKind::InvalidUnicode(InvalidUnicodeError::MissingClosingBracket);
    assert_eq!(err, error(kind, 1, 5));
}

#[test]
fn should_fail_to_parse_unicode_on_invalid_hex() {
    let err = take_unicode(&to_chars("{xx}"), 0).unwrap_err();
    let kind = AccessorParserErrorKind::InvalidUnicode(InvalidUnicodeError::InvalidHexadecimal);
    assert_eq!(err, error(kind, 1, 3));
}

#[test]
fn should_fail_to_parse_unicode_on_invalid_code_point() {
    let err = take_unicode(&to_chars("{10ffffff}"), 0).unwrap_err();
    let kind = AccessorParserErrorKind::InvalidUnicode(InvalidUnicodeError::InvalidCodePoint);
    assert_eq!(err, error(kind, 1, 9));
}

#[test]
fn should_parse_escape_characters() {
    let input = to_chars("\\nopq");
    let (rest, ch) = take_escaped_char(&input, 0, &NONE).unwrap();
    assert_eq!('\n', ch);
    assert_eq!("opq", rest_of(&input, rest));
    assert_eq!(2, rest);

    let input = to_chars("\\.opq");
    let (rest, ch) = take_escaped_char(&input, 0, &['.']).unwrap();
    assert_eq!('.', ch);
    assert_eq!("opq", rest_of(&input, rest));
    assert_eq!(2, rest);

    let input = to_chars("\\u{61}bcd");
    let (rest, ch) = take_escaped_char(&input, 0, &NONE).unwrap();
    assert_eq!('a', ch);
    assert_eq!("bcd", rest_of(&input, rest));
    assert_eq!(6, rest);
}

#[test]
fn should_fail_to_parse_unknown_escape_sequence() {
    let err = take_escaped_char(&to_chars("\\abcd"), 0, &NONE).unwrap_err();
    assert_eq!(err, error(AccessorParserErrorKind::InvalidEscapeCharacter('a'), 0, 2));
}

#[test]
fn should_take_string() {
    let input = to_chars("\\u{61}bcd\\\\");
    let (rest, string) = take_string_with_escape_until(&input, 0, &NONE, &['\\']).unwrap();
    assert_eq!("abcd\\", string.as_str());
    assert_eq!("", rest_of(&input, rest));
    assert_eq!(11, rest);
}

#[test]
fn should_take_string_until() {
    let input = to_chars("\\u{61}bcd\\\\");
    let (rest, string) = take_string_with_escape_until(&input, 0, &['c'], &NONE).unwrap();
    assert_eq!("ab", string.as_str());
    assert_eq!("cd\\\\", rest_of(&input, rest));
    assert_eq!(7, rest);
}

#[test]
fn should_fail_to_take_string_on_reserved_character() {
    let input = to_chars("ab.c");
    let err = take_string_with_escape_until(&input, 0, &NONE, &['.']).unwrap_err();
    assert_eq!(err, error(AccessorParserErrorKind::InvalidCharacter('.'), 2, 3));
}

#[test]
fn should_fail_to_take_string_on_invalid_escape_char() {
    let input = to_chars("ab\\c");
    let err = take_string_with_escape_until(&input, 0, &NONE, &NONE).unwrap_err();
    assert_eq!(err, error(AccessorParserErrorKind::InvalidEscapeCharacter('c'), 2, 4));
}

#[test]
fn should_take_string_key() {
    let input = to_chars(".key");
    let (rest, key) = take_string_key(&input, 0).unwrap();
    assert_eq!("", rest_of(&input, rest));
    assert_eq!(4, rest);
    assert!(is_text(&key, "key"), "{:?}", key);
}

#[test]
fn should_take_first_string_key() {
    let input = to_chars(".key.key");
    let (rest, key) = take_string_key(&input, 0).unwrap();
    assert_eq!(".key", rest_of(&input, rest));
    assert_eq!(4, rest);
    assert!(is_text(&key, "key"), "{:?}", key);
}

#[test]
fn should_take_rawstring_key() {
    let input = to_chars(".\"key\"");
    let (rest, key) = take_string_key(&input, 0).unwrap();
    assert_eq!("", rest_of(&input, rest));
    assert_eq!(6, rest);
    assert!(is_text(&key, "key"), "{:?}", key);

    let input = to_chars(".\"key.same\"");
    let (rest, key) = take_string_key(&input, 0).unwrap();
    assert_eq!("", rest_of(&input, rest));
    assert_eq!(11, rest);
    assert!(is_text(&key, "key.same"), "{:?}", key);
}

#[test]
fn should_take_first_key() {
    let input = to_chars(".key[1234]");
    let (rest, key) = take_string_key(&input, 0).unwrap();
    assert_eq!("[1234]", rest_of(&input, rest));
    assert_eq!(4, rest);
    assert!(is_text(&key, "key"), "{:?}", key);
}

#[test]
fn should_take_last_string_key() {
    let input = to_chars(".key}");
    let (rest, key) = take_string_key(&input, 0).unwrap();
    assert_eq!("}", rest_of(&input, rest));
    assert_eq!(4, rest);
    assert!(is_text(&key, "key"), "{:?}", key);
}

#[test]
fn should_fail_to_take_string_key_without_prefix() {
    let err = take_string_key(&to_chars("key"), 0).unwrap_err();
    assert_eq!(
        err,
        ParseFailure::Recoverable(error(AccessorParserErrorKind::InvalidAccessor, 0, 3))
    );
}

#[test]
fn should_fail_to_take_string_key_without_prefix_and_trailing_key() {
    let expected = ParseFailure::Recoverable(error(AccessorParserErrorKind::InvalidAccessor, 0, 3));
    let err = take_string_key(&to_chars("key.key"), 0).unwrap_err();
    assert_eq!(err, expected);

    let err = take_string_key(&to_chars("key[1234]"), 0).unwrap_err();
    assert_eq!(err, expected);

    let err = take_string_key(&to_chars("key} ---"), 0).unwrap_err();
    assert_eq!(err, expected);
}

#[test]
fn should_take_numeric_key() {
    let input = to_chars("[1234]");
    let (rest, key) = take_numeric_key(&input, 0).unwrap();
    assert_eq!("", rest_of(&input, rest));
    assert_eq!(6, rest);
    assert!(matches!(key, AccessorKey::Numeric(1234)), "{:?}", key);
}

#[test]
fn should_take_first_numeric_key() {
    let input = to_chars("[1234].key");
    let (rest, key) = take_numeric_key(&input, 0).unwrap();
    assert_eq!(".key", rest_of(&input, rest));
    assert_eq!(6, rest);
    assert!(matches!(key, AccessorKey::Numeric(1234)), "{:?}", key);
}

#[test]
fn should_fail_to_take_numeric_key_on_missing_opening_bracket() {
    let err = take_numeric_key(&to_chars("1234]"), 0).unwrap_err();
    assert_eq!(
        err,
        ParseFailure::Recoverable(error(AccessorParserErrorKind::InvalidAccessor, 0, 5))
    );
}

#[test]
fn should_fail_to_take_numeric_key_on_missing_closing_bracket() {
    let err = take_numeric_key(&to_chars("[1234"), 0).unwrap_err();
    assert_eq!(
        err,
        ParseFailure::Fatal(error(AccessorParserErrorKind::MissingClosingBracket, 0, 1))
    );
}

#[test]
fn should_fail_to_take_numeric_key_on_not_a_number() {
    let err = take_numeric_key(&to_chars("[abc]"), 0).unwrap_err();
    assert_eq!(err, ParseFailure::Fatal(error(AccessorParserErrorKind::NotANumber, 1, 4)));
}

#[test]
fn should_take_multiple_keys() {
    let input = to_chars(".key1[1234].\"key2.same\"");
    let (rest, keys) = take_spanned_keys(&input, 0).unwrap();
    assert_eq!("", rest_of(&input, rest));
    assert_eq!(23, rest);
    let keys: Vec<&AccessorKey> = keys.iter().map(|k| k.key()).collect();
    match keys.as_slice() {
        [key1, AccessorKey::Numeric(1234), key2]
            if is_text(key1, "key1") && is_text(key2, "key2.same") => {}
        err => unreachable!("{:?}", err),
    }

    let input = to_chars(".key\\u{31}[1234].key\\u{32}");
    let (rest, keys) = take_spanned_keys(&input, 0).unwrap();
    assert_eq!("", rest_of(&input, rest));
    assert_eq!(26, rest);
    let keys: Vec<&AccessorKey> = keys.iter().map(|k| k.key()).collect();
    match keys.as_slice() {
        [key1, AccessorKey::Numeric(1234), key2] if is_text(key1, "key1") && is_text(key2, "key2") => {}
        err => unreachable!("{:?}", err),
    }
}

#[test]
fn should_take_key_with_span() {
    let input = to_chars(".key");
    let (rest, key) = take_spanned_key(&input, 0).unwrap();
    assert_eq!("", rest_of(&input, rest));
    assert_eq!(4, rest);
    assert!(is_text(key.key(), "key"), "{:?}", key);
    assert_eq!(span(0, 4), key.span());
}

#[test]
fn should_take_multiple_keys_with_span() {
    let input = to_chars(".key1[1234].key2");
    let (rest, keys) = take_spanned_keys(&input, 0).unwrap();
    assert_eq!("", rest_of(&input, rest));
    assert_eq!(16, rest);
    match keys.as_slice() {
        [SpannedAccessorKey { key: key1, span: AccessorParserSpan { start: 0, end: 5 } }, SpannedAccessorKey {
            key: AccessorKey::Numeric(1234),
            span: AccessorParserSpan { start: 5, end: 11 },
        }, SpannedAccessorKey { key: key2, span: AccessorParserSpan { start: 11, end: 16 } }]
            if is_text(key1, "key1") && is_text(key2, "key2") => {}
        err => unreachable!("{:?}", err),
    }
}

#[test]
fn should_return_accessor_with_root() {
    let input = to_chars("${key}");
    let (rest, accessor) = take_spanned_accessor(&input, 0).unwrap();
    assert_eq!("", rest_of(&input, rest));
    assert_eq!(6, rest);
    assert_eq!(1, accessor.keys().len());
    assert_eq!((0, 6), (accessor.span().start(), accessor.span().end()));
    match accessor.keys() {
        [SpannedAccessorKey { key, span: AccessorParserSpan { start: 2, end: 5 } }]
            if is_text(key, "key") => {}
        err => unreachable!("{:?}", err),
    }
}

#[test]
fn should_return_accessor_with_multiple_keys() {
    let input = to_chars("${key1[1234].key2}");
    let (rest, accessor) = take_spanned_accessor(&input, 0).unwrap();
    assert_eq!("", rest_of(&input, rest));
    assert_eq!(18, rest);
    assert_eq!((0, 18), (accessor.span().start(), accessor.span().end()));
    match accessor.keys() {
        [SpannedAccessorKey { key: key1, span: AccessorParserSpan { start: 2, end: 6 } }, SpannedAccessorKey {
            key: AccessorKey::Numeric(1234),
            span: AccessorParserSpan { start: 6, end: 12 },
        }, SpannedAccessorKey { key: key2, span: AccessorParserSpan { start: 12, end: 17 } }]
            if is_text(key1, "key1") && is_text(key2, "key2") => {}
        err => unreachable!("{:?}", err),
    }
}

#[test]
fn should_fail_to_create_accessor_on_missing_closing_bracket() {
    let err = take_spanned_accessor(&to_chars("${key1[1234].key2"), 0).unwrap_err();
    assert_eq!(err, error(AccessorParserErrorKind::MissingClosingBracket, 0, 2));
}

#[test]
fn unicode_code_with_sign_is_not_hexadecimal() {
    let err = take_unicode(&to_chars("{+61}"), 0).unwrap_err();
    let kind = AccessorParserErrorKind::InvalidUnicode(InvalidUnicodeError::InvalidHexadecimal);
    assert_eq!(err, error(kind, 1, 4));
}

#[test]
fn take_key_falls_back_to_numeric_key() {
    let input = to_chars("[7].a");
    let (rest, key) = take_key(&input, 0).unwrap();
    assert_eq!(3, rest);
    assert!(matches!(key, AccessorKey::Numeric(7)));
}
