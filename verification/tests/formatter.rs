//! Formatting one pair of fragment and value: which call is asked for, and
//! what becomes of its outcome.

use strprintf::argument::{Argument, NativeRepr};
use strprintf::native::{decode_text, terminate, NativeCall, NativeResult, INITIAL_BUFFER_SIZE};
use strprintf::{fmt_arg, fmt_arg_with_buffer_size, Formatting};

/// The outcome of a call that wrote `text` into a buffer of `capacity` bytes.
fn wrote(text: &[u8], capacity: usize) -> NativeResult {
    let mut buffer = vec![0u8; capacity];
    let kept = text.len().min(capacity.saturating_sub(1));
    buffer[..kept].copy_from_slice(&text[..kept]);
    NativeResult { count: i32::try_from(text.len()).unwrap(), buffer }
}

fn call(format: &[u8], value: NativeRepr, capacity: usize) -> NativeCall {
    NativeCall { format: format.to_vec(), value, capacity }
}

#[test]
fn initial_buffer_size_is_1024() {
    assert_eq!(INITIAL_BUFFER_SIZE, 1024);
}

#[test]
fn terminate_appends_the_terminator() {
    assert_eq!(terminate(b""), Some(vec![0]));
    assert_eq!(terminate(b"%i"), Some(vec![b'%', b'i', 0]));
}

#[test]
fn terminate_refuses_a_terminator_inside() {
    assert_eq!(terminate(b"\0"), None);
    assert_eq!(terminate(b"a\0b"), None);
    assert_eq!(terminate(b"ab\0"), None);
}

#[test]
fn decode_text_reads_utf8() {
    assert_eq!(decode_text(b""), Some(String::new()));
    assert_eq!(decode_text("größe ✓".as_bytes()), Some(String::from("größe ✓")));
}

#[test]
fn decode_text_refuses_what_is_not_utf8() {
    assert_eq!(decode_text(&[0xff]), None);
    assert_eq!(decode_text(&[b'a', 0xc3]), None);
    assert_eq!(decode_text(&[0xc0, 0x80]), None);
    assert_eq!(decode_text(&[0xed, 0xa0, 0x80]), None);
    assert_eq!(decode_text(&[0xf4, 0x90, 0x80, 0x80]), None);
}

#[test]
fn text_that_fits_is_returned() {
    assert_eq!(fmt_arg_with_buffer_size(&wrote(b"42", 1024), 1024), Ok(String::from("42")));
    assert_eq!(fmt_arg_with_buffer_size(&wrote(b"", 1024), 1024), Ok(String::new()));
}

#[test]
fn only_the_reported_count_is_read() {
    let result = NativeResult { count: 2, buffer: b"42xyz".to_vec() };
    assert_eq!(fmt_arg_with_buffer_size(&result, 1024), Ok(String::from("42")));
    let result = NativeResult { count: 3, buffer: b"a\0b\0".to_vec() };
    assert_eq!(fmt_arg_with_buffer_size(&result, 1024), Ok(String::from("a\0b")));
}

#[test]
fn text_of_one_byte_less_than_the_buffer_fits() {
    let text = "x".repeat(1023);
    assert_eq!(fmt_arg_with_buffer_size(&wrote(text.as_bytes(), 1024), 1024), Ok(text));
}

#[test]
fn text_as_long_as_the_buffer_asks_for_one_byte_more() {
    let text = "x".repeat(1024);
    assert_eq!(fmt_arg_with_buffer_size(&wrote(text.as_bytes(), 1024), 1024), Err(1025));
}

#[test]
fn longer_text_asks_for_its_length_and_the_terminator() {
    let text = "x".repeat(5000);
    assert_eq!(fmt_arg_with_buffer_size(&wrote(text.as_bytes(), 1024), 1024), Err(5001));
    let result = NativeResult { count: i32::MAX, buffer: Vec::new() };
    assert_eq!(fmt_arg_with_buffer_size(&result, 1024), Err(2147483648));
}

#[test]
fn a_buffer_without_room_asks_for_more() {
    assert_eq!(fmt_arg_with_buffer_size(&wrote(b"", 0), 0), Err(1));
    assert_eq!(fmt_arg_with_buffer_size(&wrote(b"ab", 0), 0), Err(3));
}

#[test]
fn an_error_of_the_formatter_asks_for_nothing() {
    let result = NativeResult { count: -1, buffer: vec![0; 1024] };
    assert_eq!(fmt_arg_with_buffer_size(&result, 1024), Err(0));
    let result = NativeResult { count: i32::MIN, buffer: vec![0; 1024] };
    assert_eq!(fmt_arg_with_buffer_size(&result, 1024), Err(0));
}

#[test]
fn output_that_does_not_decode_asks_for_nothing() {
    assert_eq!(fmt_arg_with_buffer_size(&wrote(&[b'a', 0xff, b'b'], 1024), 1024), Err(0));
}

#[test]
fn output_that_is_not_there_asks_for_nothing() {
    let result = NativeResult { count: 5, buffer: b"abc".to_vec() };
    assert_eq!(fmt_arg_with_buffer_size(&result, 1024), Err(0));
}

#[test]
fn fmt_arg_asks_for_a_first_call_with_the_initial_buffer() {
    assert_eq!(
        fmt_arg("a %i", &Argument::Int(42)),
        Formatting::Pending {
            call: call(b"a %i\0", NativeRepr::Int(42), 1024),
            retried: false,
        }
    );
}

#[test]
fn fmt_arg_hands_text_over_with_its_terminator() {
    assert_eq!(
        fmt_arg("%s", &Argument::Text(String::from("hé"))),
        Formatting::Pending {
            call: call(b"%s\0", NativeRepr::Text(vec![b'h', 0xc3, 0xa9, 0]), 1024),
            retried: false,
        }
    );
}

#[test]
fn fmt_arg_calls_for_the_empty_fragment_too() {
    assert_eq!(
        fmt_arg("", &Argument::Int(42)),
        Formatting::Pending { call: call(b"\0", NativeRepr::Int(42), 1024), retried: false }
    );
}

#[test]
fn fmt_arg_gives_nothing_for_a_fragment_with_a_terminator() {
    assert_eq!(fmt_arg("a\0%i", &Argument::Int(42)), Formatting::Finished(None));
}

#[test]
fn fmt_arg_gives_nothing_for_text_with_a_terminator() {
    let argument = Argument::Text(String::from("Hello\0world"));
    assert_eq!(fmt_arg("%s", &argument), Formatting::Finished(None));
}

#[test]
fn resume_ends_with_the_text_that_fitted() {
    let state = fmt_arg("%i", &Argument::Int(42));
    assert_eq!(
        state.resume(&wrote(b"42", 1024)),
        Formatting::Finished(Some(String::from("42")))
    );
}

#[test]
fn resume_asks_once_more_with_the_exact_size() {
    let text = "x".repeat(3000);
    let state = fmt_arg("%s", &Argument::Text(text.clone()));
    let value = match &state {
        Formatting::Pending { call, .. } => call.value.clone(),
        Formatting::Finished(_) => panic!("a call is due"),
    };
    let state = state.resume(&wrote(text.as_bytes(), 1024));
    assert_eq!(state, Formatting::Pending { call: call(b"%s\0", value, 3001), retried: true });
    assert_eq!(state.resume(&wrote(text.as_bytes(), 3001)), Formatting::Finished(Some(text)));
}

#[test]
fn resume_gives_up_after_the_second_call() {
    let text = "x".repeat(3000);
    let state = fmt_arg("%s", &Argument::Text(text.clone()));
    let state = state.resume(&wrote(text.as_bytes(), 1024));
    assert_eq!(state.resume(&wrote(text.as_bytes(), 1024)), Formatting::Finished(None));
}

#[test]
fn resume_gives_nothing_on_an_error() {
    let failed = NativeResult { count: -1, buffer: vec![0; 1024] };
    let state = fmt_arg("%i", &Argument::Int(42));
    assert_eq!(state.resume(&failed), Formatting::Finished(None));

    let text = "x".repeat(3000);
    let state = fmt_arg("%s", &Argument::Text(text.clone()));
    let state = state.resume(&wrote(text.as_bytes(), 1024));
    assert_eq!(state.resume(&failed), Formatting::Finished(None));
}

#[test]
fn resume_gives_nothing_when_the_output_does_not_decode() {
    let state = fmt_arg("%c", &Argument::Int(255));
    assert_eq!(state.resume(&wrote(&[0xff], 1024)), Formatting::Finished(None));
}

#[test]
fn resume_leaves_a_finished_pair_as_it_is() {
    let done = Formatting::Finished(Some(String::from("42")));
    assert_eq!(done.clone().resume(&wrote(b"13", 1024)), done);
    assert_eq!(Formatting::Finished(None).resume(&wrote(b"13", 1024)), Formatting::Finished(None));
}
