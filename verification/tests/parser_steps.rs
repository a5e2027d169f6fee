//! The parser and sink pieces, driven one call at a time.

use fast_json::error::Error;
use fast_json::parser::is_whitespace;
use fast_json::parser::Parser;
use fast_json::sink::TermSink;
use fast_json::sink::ValueSink;
use fast_json::value::JsonValue;

fn bytes(s: &str) -> Vec<u8> {
    s.as_bytes().to_vec()
}

#[test]
fn whitespace_set_is_exact() {
    assert!(is_whitespace(b'\t'));
    assert!(is_whitespace(b'\r'));
    assert!(is_whitespace(b'\n'));
    assert!(is_whitespace(b' '));
    assert!(!is_whitespace(b'a'));
    assert!(!is_whitespace(0x0B)); // vertical tab is not skipped
    assert!(!is_whitespace(0xA0)); // no other Unicode whitespace
}

#[test]
fn one_step_per_value_then_done() {
    let mut parser = Parser::new(bytes("[1,2]"));
    let mut sink = TermSink::new(vec![]);
    assert_eq!(parser.parse(&mut sink), Ok(false));
    assert_eq!(parser.parse(&mut sink), Ok(false));
    assert_eq!(parser.parse(&mut sink), Ok(true));
    assert_eq!(
        sink.pop(),
        JsonValue::Array(vec![JsonValue::Int(1), JsonValue::Int(2)])
    );
}

#[test]
fn scalar_completes_in_one_step() {
    let mut parser = Parser::new(bytes("true"));
    let mut sink = TermSink::new(vec![]);
    assert_eq!(parser.parse(&mut sink), Ok(true));
    assert_eq!(sink.pop(), JsonValue::Bool(true));
}

#[test]
fn empty_object_completes_in_one_step() {
    let mut parser = Parser::new(bytes(" { } "));
    let mut sink = TermSink::new(vec![]);
    assert_eq!(parser.parse(&mut sink), Ok(true));
    assert_eq!(sink.pop(), JsonValue::Object(vec![]));
}

#[test]
fn parse_string_consumes_literal() {
    let mut parser = Parser::new(bytes("\"hi\\n\" rest"));
    assert_eq!(parser.parse_string(), Ok(vec![b'h', b'i', 10]));
    assert!(!parser.at_end());
    parser.skip_ws();
    assert_eq!(parser.peek_next_byte(), b'r');
}

#[test]
fn parse_key_consumes_separator() {
    let mut parser = Parser::new(bytes("  \"k\" : 1"));
    assert_eq!(parser.parse_key(), Ok(bytes("k")));
    parser.skip_ws();
    assert_eq!(parser.peek_next_byte(), b'1');
}

#[test]
fn parse_key_demands_a_string() {
    let mut parser = Parser::new(bytes("  1: 2"));
    assert_eq!(
        parser.parse_key(),
        Err(Error::UnexpectedToken { byte: b'1', offset: 2 })
    );
}

#[test]
fn finish_skips_trailing_whitespace_only() {
    let mut parser = Parser::new(bytes("  "));
    assert_eq!(parser.finish(), Ok(()));
    let mut parser = Parser::new(bytes(" x"));
    assert_eq!(parser.finish(), Err(Error::TrailingData { offset: 1 }));
}

#[test]
fn skip_ws_stops_at_content() {
    let mut parser = Parser::new(bytes("\t\r\n 7"));
    parser.skip_ws();
    assert!(!parser.at_end());
    assert_eq!(parser.peek_next_byte(), b'7');
}

#[test]
fn sink_builds_object_with_overwrite() {
    let mut sink = TermSink::new(vec![]);
    sink.push_map();
    sink.push_integer(1);
    sink.pop_insert_map(bytes("a"));
    sink.push_integer(2);
    sink.pop_insert_map(bytes("b"));
    sink.push_integer(3);
    sink.pop_insert_map(bytes("a"));
    sink.finalize_map();
    assert_eq!(
        sink.pop(),
        JsonValue::Object(vec![
            (bytes("a"), JsonValue::Int(3)),
            (bytes("b"), JsonValue::Int(2)),
        ])
    );
}

#[test]
fn sink_builds_array_in_order() {
    let mut sink = TermSink::new(vec![]);
    sink.push_array();
    sink.push_string(bytes("s"));
    sink.pop_insert_array();
    sink.push_nil();
    sink.pop_insert_array();
    sink.push_bool(false);
    sink.pop_insert_array();
    sink.push_float(bytes("1.5"));
    sink.pop_insert_array();
    sink.finalize_array();
    let stack = sink.to_stack();
    assert_eq!(
        stack,
        vec![JsonValue::Array(vec![
            JsonValue::Str(bytes("s")),
            JsonValue::Null,
            JsonValue::Bool(false),
            JsonValue::Float(bytes("1.5")),
        ])]
    );
}

#[test]
fn stack_compatibility_tracks_frame_kinds() {
    let mut parser = Parser::new(bytes("{\"a\":[1,2]}"));
    let mut sink = TermSink::new(vec![]);
    // first step: opens the object and the array, produces and stores 1
    assert_eq!(parser.parse(&mut sink), Ok(false));
    let stack = sink.to_stack();
    assert!(parser.stack_compatible(&stack));
    assert!(!parser.stack_compatible(&vec![]));
    let swapped = vec![JsonValue::Array(vec![]), JsonValue::Object(vec![])];
    assert!(!parser.stack_compatible(&swapped));
}
