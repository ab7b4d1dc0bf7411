use rkwhisper::decoder::WhisperDecoderState;
use rkwhisper::float_bits::F32;
use rkwhisper::spec::WhisperTiny;
use rkwhisper::suppression::{SuppressTokens, TokenSuppressor};
use rkwhisper::whisper::WindowDecoding;
use rkwhisper::window_pass::{BeamWindow, GreedyWindow};

const EOT: u32 = 9;
const TIMESTAMPS: u32 = 20;

/// Logits that are greatest at one token.
fn peak(token: usize) -> Vec<F32> {
    let mut logits = vec![F32::from_bits(0); 30];
    logits[token] = F32::from_bits(1.0f32.to_bits());
    logits
}

fn rules() -> TokenSuppressor {
    TokenSuppressor::from_ids(
        EOT,
        Some(10),
        Some(19),
        None,
        0,
        false,
        &SuppressTokens::Nothing,
    )
    .unwrap()
}

fn greedy(max_new_tokens: usize, window_steps: u32) -> GreedyWindow {
    let window = WindowDecoding::new(vec![10, 11], 100, TIMESTAMPS, window_steps);
    GreedyWindow::new(window, rules(), max_new_tokens)
}

fn feed_prompt(greedy: &mut GreedyWindow) -> Vec<u32> {
    let mut fed = Vec::new();
    while let Some(token) = greedy.next_prompt_token() {
        fed.push(token);
    }
    fed
}

#[test]
fn window_is_decoded_in_passes() {
    let mut greedy = greedy(8, 8);
    assert!(greedy.start_pass());
    assert_eq!(feed_prompt(&mut greedy), vec![10, 11]);
    // The text may not end before it has begun: the first of the other tokens is taken.
    assert_eq!(greedy.next_token(peak(EOT as usize)), Some(0));
    assert_eq!(greedy.next_token(peak(23)), Some(23));
    // A control token is never taken.
    assert_eq!(greedy.next_token(peak(12)), Some(0));
    assert_eq!(greedy.next_token(peak(EOT as usize)), None);
    assert_eq!(greedy.window.accumulated, vec![0, 23, 0]);

    // The timestamp lies before the window's end, so there is another pass.
    assert!(greedy.start_pass());
    assert_eq!(feed_prompt(&mut greedy), vec![10, 11, 0, 23, 0]);
    assert_eq!(greedy.next_token(peak(28)), Some(28));
    assert_eq!(greedy.next_token(peak(EOT as usize)), None);
    assert!(!greedy.start_pass());
    assert_eq!(greedy.window.accumulated, vec![0, 23, 0, 28]);
}

#[test]
fn passes_end_at_their_limit_and_at_repetitions() {
    let mut short = greedy(2, 8);
    assert!(short.start_pass());
    feed_prompt(&mut short);
    assert_eq!(short.next_token(peak(1)), Some(1));
    assert_eq!(short.next_token(peak(2)), Some(2));
    assert_eq!(short.next_token(peak(3)), None);
    assert_eq!(short.window.accumulated, vec![1, 2]);
    assert!(!short.start_pass());

    let mut stuck = greedy(100, 8);
    assert!(stuck.start_pass());
    feed_prompt(&mut stuck);
    let mut fed = 0;
    while stuck.next_token(peak(5)).is_some() {
        fed += 1;
    }
    assert_eq!(fed, 7);
    assert_eq!(stuck.window.accumulated, vec![5; 8]);
}

#[test]
fn beams_are_searched_in_passes() {
    let window = WindowDecoding::new(vec![10, 11], 100, TIMESTAMPS, 8);
    let mut beams = BeamWindow::new(window, rules(), 2);
    let zero = F32::from_bits(0);
    assert!(beams.start_pass());
    assert_eq!((beams.rules.prompt_len, beams.steps_left), (2, 2));
    assert_eq!((beams.next_prompt_token(), beams.next_prompt_token()), (Some(10), Some(11)));
    assert_eq!(beams.next_prompt_token(), None);
    let state = WhisperDecoderState::new::<WhisperTiny>();
    let mut search = beams.begin_search::<WhisperTiny>(3, state, peak(5), zero);
    assert_eq!((search.size, search.beams.len()), (3, 1));
    assert_eq!(search.beams[0].tokens, vec![10, 11]);
    assert_eq!(search.beams[0].last_logits, peak(5));
    // Two steps may be taken, and none where no beam goes on.
    assert!(beams.take_step(&search) && beams.take_step(&search));
    assert!(!beams.take_step(&search));
    assert_eq!(beams.steps_left, 0);
    beams.finish_pass(Some(vec![10, 11, 0, 23]));
    assert_eq!(beams.window.accumulated, vec![0, 23]);

    assert!(beams.start_pass());
    assert_eq!(beams.prompt, vec![10, 11, 0, 23]);
    assert_eq!((beams.rules.prompt_len, beams.fed, beams.steps_left), (4, 0, 2));
    search.take_parents();
    assert!(!beams.take_step(&search));
    assert_eq!(beams.steps_left, 2);
    // A sequence without anything behind the prompt ends the window.
    beams.finish_pass(None);
    assert!(!beams.start_pass());
    assert_eq!(beams.window.accumulated, vec![0, 23]);
}
