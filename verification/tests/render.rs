//! Renders format strings from start to end.
//!
//! The library says which calls of the native formatter are due; here they
//! are answered by `native`, a stand-in written in Rust that covers the
//! directives these tests use and that cuts its output to the buffer it is
//! offered, as the C formatter does.

use strprintf::argument::{Argument, NativeRepr};
use strprintf::native::{NativeCall, NativeResult};
use strprintf::render::Render;

fn exponent_form(value: f64, precision: usize) -> String {
    let text = format!("{:.*e}", precision, value);
    let (mantissa, exponent) = text.split_once('e').unwrap();
    let exponent: i32 = exponent.parse().unwrap();
    let sign = if exponent < 0 { '-' } else { '+' };
    format!("{}e{}{:02}", mantissa, sign, exponent.abs())
}

fn number(value: f64, conversion: u8, precision: Option<usize>) -> String {
    let precision = precision.unwrap_or(6);
    let lower = if value.is_nan() {
        String::from(if value.is_sign_negative() { "-nan" } else { "nan" })
    } else if value.is_infinite() {
        String::from(if value < 0.0 { "-inf" } else { "inf" })
    } else if conversion == b'f' || conversion == b'F' {
        format!("{:.*}", precision, value)
    } else {
        exponent_form(value, precision)
    };
    if conversion == b'F' || conversion == b'E' {
        lower.to_uppercase()
    } else {
        lower
    }
}

fn directive(conversion: u8, precision: Option<usize>, value: &NativeRepr) -> Vec<u8> {
    match (conversion, value) {
        (b'd' | b'i', NativeRepr::Int(v)) => v.to_string().into_bytes(),
        (b'd' | b'i', NativeRepr::LongLong(v)) => v.to_string().into_bytes(),
        (b'u', NativeRepr::Unsigned(v)) => v.to_string().into_bytes(),
        (b'u', NativeRepr::UnsignedLongLong(v)) => v.to_string().into_bytes(),
        (b's', NativeRepr::Text(buffer)) => buffer[..buffer.len() - 1].to_vec(),
        (b'p', NativeRepr::Pointer(0)) => b"(nil)".to_vec(),
        (b'p', NativeRepr::Pointer(address)) => format!("{:#x}", address).into_bytes(),
        (b'f' | b'F' | b'e' | b'E', NativeRepr::Double(bits)) => {
            number(f64::from_bits(*bits), conversion, precision).into_bytes()
        }
        _ => panic!("a directive that the stand-in does not cover"),
    }
}

fn expand(format: &[u8], value: &NativeRepr) -> Vec<u8> {
    let mut out = Vec::new();
    let mut i = 0;
    while i < format.len() {
        if format[i] != b'%' {
            out.push(format[i]);
            i += 1;
            continue;
        }
        if format.get(i + 1) == Some(&b'%') {
            out.push(b'%');
            i += 2;
            continue;
        }
        let mut at = i + 1;
        while at < format.len() && b"-+ #0123456789".contains(&format[at]) {
            at += 1;
        }
        let mut precision = None;
        if format.get(at) == Some(&b'.') {
            at += 1;
            let mut digits = 0;
            while at < format.len() && format[at].is_ascii_digit() {
                digits = digits * 10 + usize::from(format[at] - b'0');
                at += 1;
            }
            precision = Some(digits);
        }
        while at < format.len() && b"hlLjzt".contains(&format[at]) {
            at += 1;
        }
        out.extend(directive(format[at], precision, value));
        i = at + 1;
    }
    out
}

fn native(call: &NativeCall) -> NativeResult {
    let (terminator, format) = call.format.split_last().unwrap();
    assert_eq!(*terminator, 0);
    assert!(!format.contains(&0));
    let text = expand(format, &call.value);
    let mut buffer = vec![0u8; call.capacity];
    let kept = text.len().min(call.capacity - 1);
    buffer[..kept].copy_from_slice(&text[..kept]);
    NativeResult { count: i32::try_from(text.len()).unwrap(), buffer }
}

/// Renders `format` with `arguments` and counts the native calls on the way.
fn fmt_counting(format: &str, arguments: Vec<Argument>) -> (String, usize) {
    let mut render = Render::new(format, arguments);
    let mut calls = 0;
    loop {
        let result = match render.pending() {
            Some(call) => native(call),
            None => {
                assert!(render.is_finished());
                return (render.into_output(), calls);
            }
        };
        assert!(!render.is_finished());
        calls += 1;
        render = render.supply(&result);
    }
}

fn fmt(format: &str, arguments: Vec<Argument>) -> String {
    fmt_counting(format, arguments).0
}

fn text(value: &str) -> Argument {
    Argument::Text(String::from(value))
}

#[test]
fn returns_first_argument_if_it_is_the_only_one() {
    let input = String::from("Hello, world!");
    assert_eq!(fmt(&input, vec![]), input);
}

#[test]
fn replaces_printf_format_with_text_representation_of_an_argument() {
    assert_eq!(fmt("%i", vec![Argument::Int(42)]), "42");
    assert_eq!(fmt("%i", vec![Argument::Int(-13)]), "-13");
    assert_eq!(fmt("%.3f", vec![Argument::Double(3.1416f64.to_bits())]), "3.142");
    assert_eq!(fmt("%i %i", vec![Argument::Int(100500), Argument::Int(-191)]), "100500 -191");
}

#[test]
fn formats_i32() {
    assert_eq!(fmt("%i", vec![Argument::Int(42i32)]), "42");
    assert_eq!(fmt("%i", vec![Argument::Int(std::i32::MIN)]), "-2147483648");
    assert_eq!(fmt("%i", vec![Argument::Int(std::i32::MAX)]), "2147483647");
}

#[test]
fn formats_u32() {
    assert_eq!(fmt("%u", vec![Argument::Unsigned(42u32)]), "42");
    assert_eq!(fmt("%u", vec![Argument::Unsigned(0u32)]), "0");
    assert_eq!(fmt("%u", vec![Argument::Unsigned(std::u32::MAX)]), "4294967295");
}

#[test]
fn formats_i64() {
    assert_eq!(fmt("%li", vec![Argument::Long(42i64)]), "42");
    assert_eq!(fmt("%li", vec![Argument::Long(i64::from(std::i32::MIN) - 1)]), "-2147483649");
    assert_eq!(fmt("%li", vec![Argument::Long(i64::from(std::i32::MAX) + 1)]), "2147483648");

    assert_eq!(fmt("%lli", vec![Argument::Long(42i64)]), "42");
    assert_eq!(fmt("%lli", vec![Argument::Long(std::i64::MIN)]), "-9223372036854775808");
    assert_eq!(fmt("%lli", vec![Argument::Long(std::i64::MAX)]), "9223372036854775807");
}

#[test]
fn formats_u64() {
    assert_eq!(fmt("%lu", vec![Argument::UnsignedLong(42u64)]), "42");
    assert_eq!(fmt("%lu", vec![Argument::UnsignedLong(0u64)]), "0");
    assert_eq!(fmt("%lu", vec![Argument::UnsignedLong(std::u64::MAX)]), "18446744073709551615");

    assert_eq!(fmt("%llu", vec![Argument::UnsignedLong(42u64)]), "42");
    assert_eq!(fmt("%llu", vec![Argument::UnsignedLong(0u64)]), "0");
    assert_eq!(fmt("%llu", vec![Argument::UnsignedLong(std::u64::MAX)]), "18446744073709551615");
}

#[test]
fn formats_void_ptr() {
    let x = 42i64;
    let ptr = std::ptr::from_ref(&x);
    assert_ne!(fmt("%p", vec![Argument::Address(ptr.addr())]), "");
    assert_ne!(fmt("%p", vec![Argument::Address(ptr.addr())]), "(nil)");
}

#[test]
fn formats_null_ptr() {
    assert_eq!(fmt("%p", vec![Argument::Address(std::ptr::null::<i32>().addr())]), "(nil)");
    assert_eq!(fmt("%p", vec![Argument::Address(std::ptr::null::<u32>().addr())]), "(nil)");
    assert_eq!(fmt("%p", vec![Argument::Address(std::ptr::null::<i64>().addr())]), "(nil)");
    assert_eq!(fmt("%p", vec![Argument::Address(std::ptr::null::<u64>().addr())]), "(nil)");
    assert_eq!(fmt("%p", vec![Argument::Address(std::ptr::null::<f32>().addr())]), "(nil)");
    assert_eq!(fmt("%p", vec![Argument::Address(std::ptr::null::<f64>().addr())]), "(nil)");
}

fn single(value: f32) -> Argument {
    Argument::Float(value.to_bits())
}

fn double(value: f64) -> Argument {
    Argument::Double(value.to_bits())
}

#[test]
fn formats_float() {
    let x = 42.0f32;
    assert_eq!(fmt("%f", vec![single(x)]), "42.000000");
    assert_eq!(fmt("%.3f", vec![single(x)]), "42.000");

    let y = 42e3f32;
    assert_eq!(fmt("%e", vec![single(y)]), "4.200000e+04");
    assert_eq!(fmt("%.3e", vec![single(y)]), "4.200e+04");

    assert_eq!(fmt("%f", vec![single(std::f32::INFINITY)]), "inf");
    assert_eq!(fmt("%F", vec![single(std::f32::INFINITY)]), "INF");

    assert_eq!(fmt("%f", vec![single(std::f32::NEG_INFINITY)]), "-inf");
    assert_eq!(fmt("%F", vec![single(std::f32::NEG_INFINITY)]), "-INF");

    assert_eq!(fmt("%f", vec![single(std::f32::NAN)]), "nan");
    assert_eq!(fmt("%F", vec![single(std::f32::NAN)]), "NAN");
}

#[test]
fn formats_double() {
    let x = 42.0f64;
    assert_eq!(fmt("%f", vec![double(x)]), "42.000000");
    assert_eq!(fmt("%.3f", vec![double(x)]), "42.000");

    let y = 42e138f64;
    assert_eq!(fmt("%e", vec![double(y)]), "4.200000e+139");
    assert_eq!(fmt("%.3e", vec![double(y)]), "4.200e+139");

    assert_eq!(fmt("%f", vec![double(std::f64::INFINITY)]), "inf");
    assert_eq!(fmt("%F", vec![double(std::f64::INFINITY)]), "INF");

    assert_eq!(fmt("%f", vec![double(std::f64::NEG_INFINITY)]), "-inf");
    assert_eq!(fmt("%F", vec![double(std::f64::NEG_INFINITY)]), "-INF");

    assert_eq!(fmt("%f", vec![double(std::f64::NAN)]), "nan");
    assert_eq!(fmt("%F", vec![double(std::f64::NAN)]), "NAN");
}

#[test]
fn formats_str_slice() {
    let input = "Hello, world!";
    assert_eq!(fmt("%s", vec![text(input)]), input);
}

#[test]
fn formats_borrowed_string() {
    let input = String::from("Hello, world!");
    assert_eq!(fmt("%s", vec![text(&input)]), input);
}

#[test]
fn formats_moved_string() {
    let input = String::from("Hello, world!");
    assert_eq!(fmt("%s", vec![Argument::Text(input.clone())]), input);
}

#[test]
fn formats_2_megabyte_string() {
    let spacer = String::from(" ").repeat(1024 * 1024);
    let format = {
        let mut result = spacer.clone();
        result.push_str("%i");
        result.push_str(&spacer);
        result.push_str("%i");
        result
    };
    let expected = {
        let mut result = spacer.clone();
        result.push_str("42");
        result.push_str(&spacer);
        result.push_str("100500");
        result
    };
    assert_eq!(fmt(&format, vec![Argument::Int(42), Argument::Int(100500)]), expected);
}

#[test]
fn plain_text_of_two_megabytes_is_returned_as_it_is() {
    let input = String::from("100% of %s and %").repeat(128 * 1024);
    let (output, calls) = fmt_counting(&input, vec![]);
    assert_eq!(output, input);
    assert_eq!(calls, 0);
}

#[test]
fn without_arguments_percent_signs_stay() {
    assert_eq!(fmt("%i and 100%% and %", vec![]), "%i and 100%% and %");
    assert_eq!(fmt("", vec![]), "");
}

#[test]
fn text_with_a_terminator_is_left_out() {
    let arguments = vec![Argument::Int(1), text("Hello\0world"), Argument::Int(3)];
    assert_eq!(fmt("a %i, b %s, c %i", arguments), "a 1, c 3");
}

#[test]
fn fragment_with_a_terminator_is_left_out() {
    let arguments = vec![Argument::Int(1), Argument::Int(2), Argument::Int(3)];
    assert_eq!(fmt("a %i, b\0 %i, c %i", arguments), "a 1, c 3");
}

#[test]
fn a_pair_that_fits_takes_one_call() {
    let (output, calls) = fmt_counting("%s", vec![text(&"x".repeat(1023))]);
    assert_eq!(output, "x".repeat(1023));
    assert_eq!(calls, 1);
}

#[test]
fn a_pair_that_fills_the_buffer_takes_a_second_call() {
    let (output, calls) = fmt_counting("%s", vec![text(&"x".repeat(1024))]);
    assert_eq!(output, "x".repeat(1024));
    assert_eq!(calls, 2);
}

#[test]
fn more_arguments_than_specifiers_pair_with_the_empty_text() {
    let (output, calls) = fmt_counting("%i tail", vec![Argument::Int(1), Argument::Int(2)]);
    assert_eq!(output, "1");
    assert_eq!(calls, 2);
}

#[test]
fn text_after_the_last_specifier_is_paired_with_nothing() {
    assert_eq!(fmt("%i tail", vec![Argument::Int(1)]), "1");
}

#[test]
fn more_specifiers_than_arguments_are_left_alone() {
    assert_eq!(fmt("%i, %i, %i", vec![Argument::Int(1)]), "1");
}

#[test]
fn escaped_percent_is_literal_text_of_its_fragment() {
    assert_eq!(fmt("100%% of %i%%%s", vec![Argument::Int(7), text("!")]), "100% of 7%!");
}

#[test]
fn consecutive_specifiers_keep_their_order() {
    let arguments = vec![text("a"), Argument::Unsigned(2), text("c")];
    assert_eq!(fmt("%s%u%s", arguments), "a2c");
}

#[test]
fn text_beyond_ascii_passes_through() {
    assert_eq!(fmt("größe: %s → %i", vec![text("weiß"), Argument::Int(3)]), "größe: weiß → 3");
}

#[test]
fn non_null_address_differs_from_nil() {
    let output = fmt("%p", vec![Argument::Address(0x1000)]);
    assert!(!output.is_empty());
    assert_ne!(output, "(nil)");
}

#[test]
fn no_pair_takes_more_than_two_calls() {
    let long = "x".repeat(5000);
    let arguments = vec![
        text(&long),
        Argument::Int(1),
        text("a\0b"),
        text(&long),
        Argument::Int(2),
        text(&long),
    ];
    let (output, calls) = fmt_counting("%s|%i|%s|%s|%i|", arguments);
    assert_eq!(output, format!("{}|1|{}|2", long, long));
    assert_eq!(calls, 2 + 1 + 0 + 2 + 1 + 1);
}

#[test]
fn output_grows_by_the_text_of_each_pair() {
    let mut render = Render::new("a %i, b %i", vec![Argument::Int(1), Argument::Int(2)]);
    let mut outputs = Vec::new();
    while let Some(call) = render.pending() {
        let result = native(call);
        render = render.supply(&result);
        outputs.push(String::from(render.output()));
    }
    assert_eq!(outputs, vec!["a 1", "a 1, b 2"]);
}
