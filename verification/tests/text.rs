use rkwhisper::float_bits::F32;
use rkwhisper::text::{
    chars_of, contains_text, decode_text, parse_u32, same_text, split_text, trim_text,
    with_number, with_text, NumberFault,
};

fn f(value: f32) -> F32 {
    F32::from_bits(value.to_bits())
}

#[test]
fn texts_are_compared_and_searched() {
    assert!(same_text("Größe", "Größe") && !same_text("a", "b") && !same_text("a", "ab"));
    assert!(contains_text("a client window queue full b", "client window queue full"));
    assert!(contains_text("aab", "ab") && contains_text("x", "") && contains_text("", ""));
    assert!(!contains_text("aab", "abb") && !contains_text("a", "aa"));
    assert_eq!(chars_of("aß"), vec!['a', 'ß']);
}

#[test]
fn white_space_is_trimmed() {
    assert_eq!(trim_text(" \t a b\u{a0}\n"), "a b");
    assert_eq!(trim_text("  "), "");
    assert_eq!(trim_text("\u{200b}x"), "\u{200b}x");
}

#[test]
fn numbers_are_read_and_written() {
    assert_eq!(parse_u32("0"), Ok(0));
    assert_eq!(parse_u32("+42"), Ok(42));
    assert_eq!(parse_u32("4294967295"), Ok(u32::MAX));
    assert_eq!(parse_u32("0000000000001"), Ok(1));
    assert_eq!(parse_u32(""), Err(NumberFault::Empty));
    assert_eq!(parse_u32("+"), Err(NumberFault::InvalidDigit));
    assert_eq!(parse_u32("-1"), Err(NumberFault::InvalidDigit));
    assert_eq!(parse_u32("4294967296"), Err(NumberFault::TooLarge));
    for text in ["", "+", "-1", "-", "4294967296", "1 ", "\u{663}", "99999999999x", "4294967295x", "++1"] {
        let fault = parse_u32(text).unwrap_err();
        let reason = text.parse::<u32>().unwrap_err().to_string();
        assert_eq!(fault.message(), reason, "{}", text);
    }
    assert_eq!(with_number("n=", 0), "n=0");
    assert_eq!(with_number("n=", u64::MAX), "n=18446744073709551615");
    assert_eq!(with_text("a", "b"), "ab");
}

#[test]
fn texts_are_split() {
    assert_eq!(split_text("a,,b", ','), vec!["a", "", "b"]);
    assert_eq!(split_text("", ','), vec![""]);
}

#[test]
fn only_utf8_is_text() {
    assert_eq!(decode_text("aß€".as_bytes()), Some("aß€".to_string()));
    assert_eq!(decode_text(&[0xc3]), None);
    assert_eq!(decode_text(&[0xed, 0xa0, 0x80]), None);
}

#[test]
fn bit_patterns_are_ordered_like_numbers() {
    let values = [f32::NEG_INFINITY, -2.0, -0.0, 0.0, 1e-40, 1.5, f32::INFINITY, f32::NAN];
    for a in values {
        for b in values {
            assert_eq!(f(a).at_least(f(b)), a >= b, "{} {}", a, b);
            assert_eq!(f(a).greater_than(f(b)), a > b, "{} {}", a, b);
        }
        assert_eq!(f(a).not_a_number(), a.is_nan());
    }
}
