//! The resumable protocol: budgeted slices, resubmission, and mutual
//! exclusion on the parser handle.

use fast_json::decoder::decode_init;
use fast_json::decoder::decode_iter;
use fast_json::decoder::decode_naive;
use fast_json::decoder::DecodeProgress;
use fast_json::decoder::ParserResource;
use fast_json::error::Error;
use fast_json::value::JsonValue;

fn bytes(s: &str) -> Vec<u8> {
    s.as_bytes().to_vec()
}

/// Run a resumable decode to completion, `budget` steps per slice.
fn decode_resumable(data: Vec<u8>, budget: u64) -> Result<JsonValue, Error> {
    let (mut resource, mut progress) = decode_init(data, budget);
    loop {
        match progress {
            DecodeProgress::Done(v) => return Ok(v),
            DecodeProgress::Failed(e) => return Err(e),
            DecodeProgress::More(stack) => {
                assert!(resource.compatible(&stack));
                progress = decode_iter(&mut resource, stack, budget);
            }
        }
    }
}

#[test]
fn zero_budget_suspends_without_progress() {
    let (mut resource, progress) = decode_init(bytes("[1,2]"), 0);
    assert_eq!(progress, DecodeProgress::More(vec![]));
    let resumed = decode_iter(&mut resource, vec![], 100);
    assert_eq!(
        resumed,
        DecodeProgress::Done(JsonValue::Array(vec![
            JsonValue::Int(1),
            JsonValue::Int(2),
        ]))
    );
}

#[test]
fn single_step_schedule_agrees_with_unbounded_decode() {
    let text = "{\"a\":{\"b\":[1,2.5,null]},\"c\":[true,false,\"x\"]}";
    let unbounded = decode_naive(bytes(text));
    let sliced = decode_resumable(bytes(text), 1);
    assert_eq!(sliced, unbounded);
}

#[test]
fn single_step_schedule_agrees_on_errors() {
    let text = "{\"a\":[1,2,3,]}";
    let unbounded = decode_naive(bytes(text));
    let sliced = decode_resumable(bytes(text), 1);
    assert!(unbounded.is_err());
    assert_eq!(sliced, unbounded);
}

#[test]
fn mixed_budget_schedule_agrees_with_unbounded_decode() {
    let text = "[[1,2],[3,[4,{\"k\":5}]],6]";
    let unbounded = decode_naive(bytes(text));
    let (mut resource, mut progress) = decode_init(bytes(text), 2);
    let mut slice: u64 = 1;
    let sliced = loop {
        match progress {
            DecodeProgress::Done(v) => break Ok(v),
            DecodeProgress::Failed(e) => break Err(e),
            DecodeProgress::More(stack) => {
                assert!(resource.compatible(&stack));
                progress = decode_iter(&mut resource, stack, slice);
                slice = (slice % 3) + 1;
            }
        }
    };
    assert_eq!(sliced, unbounded);
}

#[test]
fn suspension_stack_holds_partial_values() {
    // one step of "[7,8]" produces 7 and stores it into the open array
    let (resource, progress) = decode_init(bytes("[7,8]"), 1);
    match progress {
        DecodeProgress::More(stack) => {
            assert_eq!(stack, vec![JsonValue::Array(vec![JsonValue::Int(7)])]);
            assert!(resource.compatible(&stack));
        }
        other => panic!("expected a suspension, got {:?}", other),
    }
}

#[test]
fn second_acquire_returns_busy() {
    let mut resource = ParserResource::new(bytes("[1]"));
    let parser = resource.acquire().expect("first acquire succeeds");
    assert!(matches!(resource.acquire(), Err(Error::Busy)));
    resource.release(parser);
    assert!(resource.acquire().is_ok());
}

#[test]
fn iterate_on_taken_handle_fails_busy() {
    let mut resource = ParserResource::new(bytes("[1]"));
    let parser = resource.acquire().expect("first acquire succeeds");
    let progress = decode_iter(&mut resource, vec![], 10);
    assert_eq!(progress, DecodeProgress::Failed(Error::Busy));
    resource.release(parser);
    let progress = decode_iter(&mut resource, vec![], 10);
    assert_eq!(
        progress,
        DecodeProgress::Done(JsonValue::Array(vec![JsonValue::Int(1)]))
    );
}

#[test]
fn compatibility_check_rejects_wrong_stack() {
    let (resource, progress) = decode_init(bytes("[7,8]"), 1);
    let stack = match progress {
        DecodeProgress::More(stack) => stack,
        other => panic!("expected a suspension, got {:?}", other),
    };
    // the saved stack resumes; an empty or scalar-topped one does not
    assert!(resource.compatible(&stack));
    assert!(!resource.compatible(&vec![]));
    assert!(!resource.compatible(&vec![JsonValue::Int(7)]));
}

#[test]
fn error_offset_unaffected_by_slicing() {
    let text = "  [1, 2, oops]";
    let unbounded = decode_naive(bytes(text));
    assert_eq!(
        unbounded,
        Err(Error::UnexpectedToken { byte: b'o', offset: 9 })
    );
    assert_eq!(decode_resumable(bytes(text), 1), unbounded);
}

#[test]
fn oversized_budget_finishes_in_first_slice() {
    let (_resource, progress) = decode_init(bytes("{\"k\": [1,2,3]}"), 1000);
    assert_eq!(
        progress,
        DecodeProgress::Done(JsonValue::Object(vec![(
            bytes("k"),
            JsonValue::Array(vec![
                JsonValue::Int(1),
                JsonValue::Int(2),
                JsonValue::Int(3),
            ]),
        )]))
    );
}
