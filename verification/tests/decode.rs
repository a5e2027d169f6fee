//! Whole-decode behavior: values, whitespace, and the error taxonomy.

use fast_json::decoder::decode_naive;
use fast_json::error::Error;
use fast_json::value::JsonValue;

fn bytes(s: &str) -> Vec<u8> {
    s.as_bytes().to_vec()
}

#[test]
fn empty_object_decodes() {
    assert_eq!(decode_naive(bytes("{}")), Ok(JsonValue::Object(vec![])));
}

#[test]
fn array_of_scalars_decodes() {
    assert_eq!(
        decode_naive(bytes("[1, 2.5, true, null, \"x\"]")),
        Ok(JsonValue::Array(vec![
            JsonValue::Int(1),
            JsonValue::Float(bytes("2.5")),
            JsonValue::Bool(true),
            JsonValue::Null,
            JsonValue::Str(bytes("x")),
        ]))
    );
}

#[test]
fn nested_object_decodes() {
    assert_eq!(
        decode_naive(bytes("{\"a\":{\"b\":[1,2]}}")),
        Ok(JsonValue::Object(vec![(
            bytes("a"),
            JsonValue::Object(vec![(
                bytes("b"),
                JsonValue::Array(vec![JsonValue::Int(1), JsonValue::Int(2)]),
            )]),
        )]))
    );
}

#[test]
fn truncated_object_fails_at_input_length() {
    assert_eq!(
        decode_naive(bytes("{\"a\":1")),
        Err(Error::UnexpectedEndOfInput { offset: 6 })
    );
}

#[test]
fn trailing_comma_fails_at_bracket() {
    assert_eq!(
        decode_naive(bytes("[1,]")),
        Err(Error::UnexpectedToken { byte: b']', offset: 3 })
    );
}

#[test]
fn whitespace_around_integer_ignored() {
    assert_eq!(decode_naive(bytes("  123  ")), Ok(JsonValue::Int(123)));
}

#[test]
fn empty_input_fails() {
    assert_eq!(
        decode_naive(bytes("")),
        Err(Error::UnexpectedEndOfInput { offset: 0 })
    );
}

#[test]
fn only_whitespace_fails() {
    assert_eq!(
        decode_naive(bytes(" \t\r\n")),
        Err(Error::UnexpectedEndOfInput { offset: 4 })
    );
}

#[test]
fn trailing_data_rejected() {
    assert_eq!(
        decode_naive(bytes("1 2")),
        Err(Error::TrailingData { offset: 2 })
    );
}

#[test]
fn duplicate_keys_last_write_wins_first_position() {
    assert_eq!(
        decode_naive(bytes("{\"b\":0,\"a\":1,\"a\":2}")),
        Ok(JsonValue::Object(vec![
            (bytes("b"), JsonValue::Int(0)),
            (bytes("a"), JsonValue::Int(2)),
        ]))
    );
}

#[test]
fn string_escapes_substituted() {
    assert_eq!(
        decode_naive(bytes("\"a\\n\\t\\\"\\\\\\/\\b\\f\\rz\"")),
        Ok(JsonValue::Str(vec![
            b'a', 10, 9, b'"', b'\\', b'/', 8, 12, 13, b'z'
        ]))
    );
}

#[test]
fn unicode_escape_unsupported() {
    assert_eq!(
        decode_naive(bytes("\"\\u0041\"")),
        Err(Error::UnsupportedEscape { offset: 2 })
    );
}

#[test]
fn invalid_escape_rejected() {
    assert_eq!(
        decode_naive(bytes("\"\\q\"")),
        Err(Error::InvalidEscapeCharacter { offset: 2 })
    );
}

#[test]
fn unterminated_string_fails_at_input_length() {
    assert_eq!(
        decode_naive(bytes("\"abc")),
        Err(Error::UnterminatedString { offset: 4 })
    );
}

#[test]
fn raw_control_character_rejected() {
    assert_eq!(
        decode_naive(vec![b'"', b'a', 9, b'b', b'"']),
        Err(Error::UnexpectedControlCharacter { offset: 2 })
    );
}

#[test]
fn c1_control_sequence_rejected() {
    // 0xC2 0x85 encodes U+0085 (NEL), a C1 control character
    assert_eq!(
        decode_naive(vec![b'"', 0xC2, 0x85, b'"']),
        Err(Error::UnexpectedControlCharacter { offset: 1 })
    );
}

#[test]
fn two_byte_utf8_passes_through() {
    // 0xC3 0xA9 encodes U+00E9, not a control character
    assert_eq!(
        decode_naive(vec![b'"', 0xC3, 0xA9, b'"']),
        Ok(JsonValue::Str(vec![0xC3, 0xA9]))
    );
}

#[test]
fn unmatched_close_brace() {
    assert_eq!(
        decode_naive(bytes("}")),
        Err(Error::UnmatchedBrace { offset: 0 })
    );
}

#[test]
fn unmatched_close_bracket() {
    assert_eq!(
        decode_naive(bytes("]")),
        Err(Error::UnmatchedBracket { offset: 0 })
    );
}

#[test]
fn brace_cannot_continue_an_open_array() {
    assert_eq!(
        decode_naive(bytes("{\"a\":[1}")),
        Err(Error::ExpectedCommaOrBracket { offset: 7 })
    );
}

#[test]
fn brace_cannot_close_an_array_value() {
    assert_eq!(
        decode_naive(bytes("[1,}")),
        Err(Error::UnmatchedBrace { offset: 3 })
    );
}

#[test]
fn missing_comma_in_object() {
    assert_eq!(
        decode_naive(bytes("{\"a\":1 2}")),
        Err(Error::ExpectedCommaOrBrace { offset: 7 })
    );
}

#[test]
fn missing_comma_in_array() {
    assert_eq!(
        decode_naive(bytes("[1 2]")),
        Err(Error::ExpectedCommaOrBracket { offset: 3 })
    );
}

#[test]
fn object_trailing_comma_rejected() {
    assert_eq!(
        decode_naive(bytes("{\"a\":1,}")),
        Err(Error::UnexpectedToken { byte: b'}', offset: 7 })
    );
}

#[test]
fn literals_decode() {
    assert_eq!(decode_naive(bytes("true")), Ok(JsonValue::Bool(true)));
    assert_eq!(decode_naive(bytes("false")), Ok(JsonValue::Bool(false)));
    assert_eq!(decode_naive(bytes("null")), Ok(JsonValue::Null));
}

#[test]
fn partial_literal_rejected() {
    assert_eq!(
        decode_naive(bytes("tru")),
        Err(Error::UnexpectedToken { byte: b't', offset: 0 })
    );
}

#[test]
fn plus_cannot_start_a_value() {
    assert_eq!(
        decode_naive(bytes("+5")),
        Err(Error::UnexpectedToken { byte: b'+', offset: 0 })
    );
}

#[test]
fn integer_bounds() {
    assert_eq!(
        decode_naive(bytes("9223372036854775807")),
        Ok(JsonValue::Int(i64::MAX))
    );
    assert_eq!(
        decode_naive(bytes("-9223372036854775808")),
        Ok(JsonValue::Int(i64::MIN))
    );
}

#[test]
fn integer_overflow_rejected() {
    assert_eq!(
        decode_naive(bytes("9223372036854775808")),
        Err(Error::InvalidNumber { offset: 19 })
    );
    assert_eq!(
        decode_naive(bytes("-9223372036854775809")),
        Err(Error::InvalidNumber { offset: 20 })
    );
}

#[test]
fn leading_zeros_accepted_as_integer() {
    assert_eq!(decode_naive(bytes("007")), Ok(JsonValue::Int(7)));
}

#[test]
fn float_lexemes_kept_verbatim() {
    assert_eq!(
        decode_naive(bytes("1e5")),
        Ok(JsonValue::Float(bytes("1e5")))
    );
    assert_eq!(
        decode_naive(bytes("-2.5E+10")),
        Ok(JsonValue::Float(bytes("-2.5E+10")))
    );
    assert_eq!(decode_naive(bytes("5.")), Ok(JsonValue::Float(bytes("5."))));
}

#[test]
fn malformed_numbers_rejected() {
    assert_eq!(
        decode_naive(bytes("1.2.3")),
        Err(Error::InvalidNumber { offset: 5 })
    );
    assert_eq!(
        decode_naive(bytes("--5")),
        Err(Error::InvalidNumber { offset: 3 })
    );
    assert_eq!(
        decode_naive(bytes("1e")),
        Err(Error::InvalidNumber { offset: 2 })
    );
    assert_eq!(
        decode_naive(bytes("1e+")),
        Err(Error::InvalidNumber { offset: 3 })
    );
    assert_eq!(
        decode_naive(bytes("[1+2]")),
        Err(Error::InvalidNumber { offset: 4 })
    );
}

#[test]
fn error_offset_accessor() {
    assert_eq!(Error::TrailingData { offset: 5 }.offset(), Some(5));
    assert_eq!(Error::Busy.offset(), None);
}

#[test]
fn deep_nesting_decodes() {
    assert_eq!(
        decode_naive(bytes("[[[[]]]]")),
        Ok(JsonValue::Array(vec![JsonValue::Array(vec![JsonValue::Array(
            vec![JsonValue::Array(vec![])]
        )])]))
    );
}

#[test]
fn whitespace_everywhere_ignored() {
    assert_eq!(
        decode_naive(bytes(" { \"a\" : [ 1 , 2 ] } ")),
        Ok(JsonValue::Object(vec![(
            bytes("a"),
            JsonValue::Array(vec![JsonValue::Int(1), JsonValue::Int(2)]),
        )]))
    );
}

#[test]
fn mixed_empties_decode() {
    assert_eq!(
        decode_naive(bytes("[[],{}]")),
        Ok(JsonValue::Array(vec![
            JsonValue::Array(vec![]),
            JsonValue::Object(vec![]),
        ]))
    );
}

#[test]
fn escaped_quote_in_key() {
    assert_eq!(
        decode_naive(bytes("{\"a\\\"b\":1}")),
        Ok(JsonValue::Object(vec![(
            vec![b'a', b'"', b'b'],
            JsonValue::Int(1),
        )]))
    );
}

#[test]
fn lone_minus_rejected() {
    assert_eq!(
        decode_naive(bytes("-")),
        Err(Error::InvalidNumber { offset: 1 })
    );
}

#[test]
fn dot_cannot_start_a_value() {
    assert_eq!(
        decode_naive(bytes(".5")),
        Err(Error::UnexpectedToken { byte: b'.', offset: 0 })
    );
}

#[test]
fn leading_zero_float_kept() {
    assert_eq!(
        decode_naive(bytes("00.5")),
        Ok(JsonValue::Float(bytes("00.5")))
    );
}
