use rkwhisper::float_bits::F32;
use rkwhisper::suppression::{default_suppress_tokens, SuppressTokens, TokenSuppressor};

#[test]
fn parses_suppression_modes() {
    assert_eq!(SuppressTokens::parse("default").unwrap(), SuppressTokens::Default);
    assert_eq!(SuppressTokens::parse("none").unwrap(), SuppressTokens::Nothing);
    assert_eq!(SuppressTokens::parse("1, 2,3").unwrap(), SuppressTokens::Ids(vec![1, 2, 3]));
}

fn f(value: f32) -> F32 {
    F32::from_bits(value.to_bits())
}

#[test]
fn bad_token_ids_are_refused() {
    assert_eq!(SuppressTokens::parse("").unwrap(), SuppressTokens::Ids(vec![]));
    assert_eq!(SuppressTokens::parse(" none ").unwrap(), SuppressTokens::Nothing);
    assert_eq!(SuppressTokens::parse("+7").unwrap(), SuppressTokens::Ids(vec![7]));
    for text in ["1,,2", "1,x", "-1", "4294967296", "1.0"] {
        assert!(SuppressTokens::parse(text).is_err(), "{}", text);
    }
    let error = SuppressTokens::parse("1, zwei").unwrap_err();
    assert_eq!(error.part, " zwei");
    let message = error.message();
    assert!(message.contains("zwei") && message.ends_with(": invalid digit found in string"));
    let empty = SuppressTokens::parse("1,,2").unwrap_err().message();
    assert!(empty.ends_with(": cannot parse integer from empty string"));
    let large = SuppressTokens::parse("4294967296").unwrap_err().message();
    assert!(large.ends_with(": number too large to fit in target type"));
}

#[test]
fn suppressed_logits_are_low() {
    let rules = TokenSuppressor::from_ids(
        2,
        Some(5),
        Some(6),
        None,
        3,
        true,
        &SuppressTokens::Ids(vec![0, 100]),
    )
    .unwrap();
    let mut logits = vec![f(1.0); 9];
    rules.apply(3, &mut logits);
    let low = f(-10000.0);
    let expected =
        vec![low, f(1.0), low, f(1.0), f(1.0), low, low, low, low];
    assert_eq!(logits, expected);
    // Once something has been generated, the end of the text is allowed.
    let mut logits = vec![f(1.0); 9];
    rules.apply(4, &mut logits);
    assert_eq!(logits[2], f(1.0));
}

#[test]
fn default_mode_suppresses_symbols_and_silence() {
    let ids = default_suppress_tokens();
    assert_eq!(ids.first(), Some(&1));
    assert_eq!(ids.last(), Some(&50362));
    let rules = TokenSuppressor::from_ids(
        50257,
        Some(50258),
        Some(50363),
        Some(50361),
        3,
        false,
        &SuppressTokens::Default,
    )
    .unwrap();
    assert_eq!(rules.ids.len(), ids.len() + 1);
    let missing =
        TokenSuppressor::from_ids(1, None, Some(2), None, 3, false, &SuppressTokens::Nothing);
    assert_eq!(
        missing.unwrap_err().message(),
        "tokenizer is missing required token \"<|startoftranscript|>\""
    );
}
