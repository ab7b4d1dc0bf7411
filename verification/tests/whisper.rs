use rkwhisper::float_bits::F32;
use rkwhisper::suppression::SuppressTokens;
use rkwhisper::whisper::{
    argmax_token, find_last_timestamp, is_blank, join_windows, keep_text_tokens, repeats_pattern,
    GreedyPass, TranscribeOptions, WindowDecoding, WindowTranscription,
};

fn f(value: f32) -> F32 {
    F32::from_bits(value.to_bits())
}

fn floats(values: &[f32]) -> Vec<F32> {
    values.iter().map(|&v| f(v)).collect()
}

#[test]
fn argmax_takes_the_first_greatest() {
    assert_eq!(argmax_token(&floats(&[1.0, 3.0, 3.0, 2.0])), 1);
    assert_eq!(argmax_token(&floats(&[-5.0, -2.0, -3.0])), 1);
    assert_eq!(argmax_token(&floats(&[f32::NAN, 1.0, f32::NAN])), 1);
    assert_eq!(argmax_token(&floats(&[0.0, -0.0])), 0);
    assert_eq!(argmax_token(&[]), 0);
}

#[test]
fn four_tokens_twice_are_a_repetition() {
    assert!(repeats_pattern(&vec![9, 1, 2, 3, 4, 1, 2, 3, 4]));
    assert!(!repeats_pattern(&vec![1, 2, 3, 4, 1, 2, 3, 5]));
    assert!(!repeats_pattern(&vec![1, 2, 3, 1, 2, 3]));
}

#[test]
fn greedy_pass_stops_at_the_end_of_text() {
    let mut pass = GreedyPass::new(10);
    assert!(pass.wants_token());
    assert_eq!(pass.choose_token(&floats(&[0.0, 5.0, 1.0]), 2), Some(1));
    assert_eq!(pass.choose_token(&floats(&[0.0, 1.0, 5.0]), 2), None);
    assert!(!pass.wants_token());
    assert_eq!(pass.generated, vec![1]);
}

#[test]
fn greedy_pass_stops_at_its_limit_and_at_repetitions() {
    let mut short = GreedyPass::new(1);
    assert_eq!(short.choose_token(&floats(&[0.0, 5.0]), 9), Some(1));
    assert!(!short.wants_token());

    let mut pass = GreedyPass::new(100);
    let mut fed = 0;
    while pass.wants_token() {
        if pass.choose_token(&floats(&[0.0, 5.0]), 9).is_some() {
            fed += 1;
        }
    }
    assert_eq!(fed, 7);
    assert_eq!(pass.generated, vec![1; 8]);
}

#[test]
fn last_timestamp_of_tokens() {
    assert_eq!(find_last_timestamp(&[100, 1, 105, 2], 100), Some(105));
    assert_eq!(find_last_timestamp(&[1, 2], 100), None);
    assert_eq!(keep_text_tokens(&[100, 1, 105, 2], 100), vec![1, 2]);
}

#[test]
fn window_is_gone_over_until_it_is_covered() {
    let mut decoding = WindowDecoding::new(vec![1, 2, 3], 448, 1000, 1500);
    assert_eq!(decoding.next_prompt(), Some(vec![1, 2, 3]));
    decoding.finish_pass(&[1000, 7, 1400]);
    // The next pass goes on from what is there.
    assert_eq!(decoding.next_prompt(), Some(vec![1, 2, 3, 1000, 7, 1400]));
    decoding.finish_pass(&[1400, 8, 2600]);
    // The window's end is reached.
    assert_eq!(decoding.next_prompt(), None);
    assert_eq!(decoding.accumulated, vec![1000, 7, 1400, 1400, 8, 2600]);
}

#[test]
fn window_without_progress_is_done() {
    let mut decoding = WindowDecoding::new(vec![1], 448, 1000, 1500);
    decoding.next_prompt().unwrap();
    decoding.finish_pass(&[1000, 7, 1400]);
    decoding.next_prompt().unwrap();
    decoding.finish_pass(&[1300]);
    assert_eq!(decoding.next_prompt(), None);

    let mut untimed = WindowDecoding::new(vec![1], 448, 1000, 1500);
    untimed.next_prompt().unwrap();
    untimed.finish_pass(&[7, 8]);
    assert_eq!(untimed.next_prompt(), None);
}

#[test]
fn passes_are_limited() {
    let mut decoding = WindowDecoding::new(vec![1], 448, 1000, 1500);
    let mut passes = 0;
    while decoding.next_prompt().is_some() {
        passes += 1;
        decoding.finish_pass(&[1000 + passes]);
    }
    assert_eq!(passes, 16);
    // No room for generation.
    let mut tight = WindowDecoding::new(vec![1; 4], 20, 1000, 1500);
    assert_eq!(tight.next_prompt(), None);
}

#[test]
fn prompts_leave_room_for_generation() {
    let mut decoding = WindowDecoding::new(vec![1, 2], 100, 1000, 1500);
    decoding.next_prompt().unwrap();
    let mut tokens = vec![5u32; 60];
    tokens.push(1010);
    decoding.finish_pass(&tokens);
    let prompt = decoding.next_prompt().unwrap();
    // 100 - 64 - 2 tokens of the window are kept.
    assert_eq!(prompt.len(), 36);
    assert_eq!(&prompt[..2], &[1, 2]);
    assert_eq!(prompt.last(), Some(&1010));
}

#[test]
fn blank_text() {
    assert!(is_blank(""));
    assert!(is_blank(" \t\n\u{3000}"));
    assert!(!is_blank(" a "));
}

#[test]
fn windows_are_joined_with_spaces() {
    let window = |index: usize, text: &str| WindowTranscription {
        window_index: index,
        absolute_start_sec: f(0.0),
        text: text.to_string(),
        segments: Vec::new(),
    };
    let whole = join_windows(vec![window(0, " one"), window(1, "two ")], Vec::new());
    assert_eq!(whole.text, "one two");
    assert_eq!(join_windows(Vec::new(), Vec::new()).text, "");
}

#[test]
fn options_hold_what_they_are_given() {
    let options = TranscribeOptions::new(
        "de".to_string(),
        "translate".to_string(),
        true,
        7,
        3,
        SuppressTokens::Nothing,
    );
    assert_eq!(options.lang, "de");
    assert_eq!(options.task, "translate");
    assert!(options.notimestamps);
    assert_eq!((options.max_new_tokens, options.beam_size), (7, 3));
    assert!(options.uses_beams());
    assert_eq!(options.suppress_tokens, SuppressTokens::Nothing);
}
