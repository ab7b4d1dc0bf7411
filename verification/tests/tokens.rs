use rkwhisper::float_bits::F32;
use rkwhisper::spec::{WhisperSpec, WhisperTiny};
use rkwhisper::suppression::{SuppressTokens, TokenSuppressor};
use rkwhisper::token_decoders::{decoder_steps, is_strippable, steps_take, DecoderStep};
use rkwhisper::tokens::{
    assemble_prompt, can_decode, control_prompt, control_token_text, decode_text_or_empty,
    timestamp_begin, tokens_to_decode, TokenizerError,
};
use rkwhisper::whisper::{
    checked_window_transcription, tokens_to_segments, window_transcription, TimeMark,
};
use tokenizers::Tokenizer;

const BYTE_LEVEL: &str =
    r#"{"type":"ByteLevel","add_prefix_space":true,"trim_offsets":true,"use_regex":true}"#;

/// A tokenizer with three words (ids 0 to 2), a blank (3) and the given control tokens behind them.
fn tokenizer(control: &[&str], decoder: &str) -> Tokenizer {
    let mut added = Vec::new();
    for (i, name) in control.iter().enumerate() {
        added.push(format!(
            r#"{{"id":{},"content":"{}","single_word":false,"lstrip":false,"rstrip":false,"normalized":false,"special":true}}"#,
            4 + i,
            name
        ));
    }
    let json = format!(
        r#"{{"version":"1.0","truncation":null,"padding":null,"added_tokens":[{}],"normalizer":null,"pre_tokenizer":null,"post_processor":null,"decoder":{},"model":{{"type":"WordLevel","vocab":{{"Hello":0,"Ġworld":1,"Ġagain":2,"Ġ":3}},"unk_token":"Hello"}}}}"#,
        added.join(","),
        decoder
    );
    Tokenizer::from_bytes(json.as_bytes()).unwrap()
}

const CONTROL: [&str; 5] =
    ["<|startoftranscript|>", "<|en|>", "<|transcribe|>", "<|nospeech|>", "<|notimestamps|>"];

#[test]
fn prompts_name_language_and_task() {
    let tok = tokenizer(&CONTROL, BYTE_LEVEL);
    assert_eq!(control_prompt(&tok, "en", "transcribe", false).unwrap(), vec![4, 5, 6]);
    assert_eq!(control_prompt(&tok, "en", "transcribe", true).unwrap(), vec![4, 5, 6, 8]);
    let error = control_prompt(&tok, "xx", "transcribe", false).unwrap_err();
    assert_eq!(error.message(), "tokenizer missing language token <|xx|>");
    let error = control_prompt(&tok, "en", "translate", false).unwrap_err();
    assert_eq!(error.message(), "tokenizer missing task token <|translate|>");
    let without_start = tokenizer(&CONTROL[1..], BYTE_LEVEL);
    let error = control_prompt(&without_start, "en", "transcribe", false).unwrap_err();
    assert_eq!(error.message(), "tokenizer missing <|startoftranscript|>");
    let without_last = tokenizer(&CONTROL[..4], BYTE_LEVEL);
    let error = control_prompt(&without_last, "en", "transcribe", false).unwrap_err();
    assert_eq!(error.message(), "tokenizer missing <|notimestamps|>");
    assert_eq!(control_token_text("de"), "<|de|>");
    let plain = assemble_prompt(Some(1), Some(2), Some(3), Some(4), true, "en", "transcribe");
    assert_eq!(plain.unwrap(), vec![1, 2, 3, 4]);
}

#[test]
fn timestamps_follow_the_last_control_token() {
    let tok = tokenizer(&CONTROL, BYTE_LEVEL);
    assert_eq!(timestamp_begin(&tok).unwrap(), 9);
    let without = tokenizer(&CONTROL[..4], BYTE_LEVEL);
    assert!(matches!(timestamp_begin(&without).unwrap_err(), TokenizerError::Missing { .. }));
    assert_eq!(TokenizerError::NoTimestamps.message(), "tokenizer has no timestamp tokens");
}

#[test]
fn ids_become_text() {
    let tok = tokenizer(&CONTROL, BYTE_LEVEL);
    assert_eq!(decode_text_or_empty(&tok, &[4, 0, 1, 8, 2]), "Hello world again");
    assert_eq!(decode_text_or_empty(&tok, &[]), "");
}

#[test]
fn tokens_become_segments() {
    let tok = tokenizer(&CONTROL, BYTE_LEVEL);
    let segments = tokens_to_segments(&tok, &[9, 0, 1, 19, 3, 24, 2], 7, 9);
    // The run that is only a blank is left out.
    assert_eq!(segments.len(), 2);
    assert_eq!(segments[0].text, "Hello world");
    assert_eq!(segments[0].start, TimeMark::Step { steps: 0 });
    assert_eq!(segments[0].end, TimeMark::Step { steps: 10 });
    assert_eq!(segments[0].tokens, vec![0, 1]);
    assert_eq!(segments[0].window_index, 7);
    assert_eq!(segments[1].text, " again");
    assert_eq!(segments[1].start, TimeMark::Step { steps: 15 });
    assert_eq!(segments[1].end, TimeMark::WindowEndOrStep { steps: 15 });

    let untimed = tokens_to_segments(&tok, &[0, 2], 0, 9);
    assert_eq!(untimed.len(), 1);
    assert_eq!(untimed[0].text, "Hello again");
    assert!(tokens_to_segments(&tok, &[9, 3, 19], 0, 9).is_empty());
}

#[test]
fn window_transcription_holds_text_and_segments() {
    let tok = tokenizer(&CONTROL, BYTE_LEVEL);
    let start = F32::from_bits(30.0f32.to_bits());
    let window = window_transcription(&tok, &[0, 1], 2, start, 9).unwrap();
    assert_eq!(window.window_index, 2);
    assert_eq!(window.absolute_start_sec, start);
    assert_eq!(window.text, "Hello world");
    assert_eq!(window.segments.len(), 1);
}

const BPE: &str = r#"{"type":"BPEDecoder","suffix":"</w>"}"#;
const CTC: &str =
    r#"{"type":"CTC","pad_token":"<pad>","word_delimiter_token":"|","cleanup":false}"#;
const FUSE: &str = r#"{"type":"Fuse"}"#;
const REPLACE: &str = r#"{"type":"Replace","pattern":{"String":"Ġ"},"content":" "}"#;
const REPLACE_REGEX: &str = r#"{"type":"Replace","pattern":{"Regex":"Ġ+"},"content":" "}"#;
const STRIP_START: &str = r#"{"type":"Strip","content":"Ġ","start":1,"stop":0}"#;
const STRIP_BOTH: &str = r#"{"type":"Strip","content":"Ġ","start":1,"stop":1}"#;

fn sequence(parts: &[&str]) -> String {
    format!(r#"{{"type":"Sequence","decoders":[{}]}}"#, parts.join(","))
}

#[test]
fn decoders_are_used_on_what_they_take() {
    let start = F32::from_bits(0);
    let text = |decoder: &str, ids: &[u32]| {
        checked_window_transcription(&tokenizer(&CONTROL, decoder), ids, 0, start, 9)
            .map(|window| window.text)
    };
    assert_eq!(text(BYTE_LEVEL, &[]).as_deref(), Some(""));
    assert_eq!(text("null", &[0, 1]).as_deref(), Some("Hello Ġworld"));
    // Nothing is left where there are special tokens only.
    assert_eq!(text(BPE, &[0, 1]).as_deref(), Some("HelloĠworld"));
    assert_eq!(text(BPE, &[4]), None);
    assert_eq!(text(BPE, &[]), None);
    assert_eq!(text(REPLACE, &[0, 1]).as_deref(), Some("Hello world"));
    assert_eq!(text(REPLACE_REGEX, &[0, 1]), None);
    assert_eq!(text(STRIP_START, &[0, 1, 3]).as_deref(), Some("Helloworld"));
    assert_eq!(text(STRIP_BOTH, &[0, 1]).as_deref(), Some("Helloworld"));
    // The token that is only one blank would be cut off twice.
    assert_eq!(text(STRIP_BOTH, &[0, 3]), None);
}

#[test]
fn sequences_are_used_if_their_parts_are() {
    let start = F32::from_bits(0);
    let usable = |parts: &[&str], ids: &[u32]| {
        let tok = tokenizer(&CONTROL, &sequence(parts));
        let window = checked_window_transcription(&tok, ids, 0, start, 9);
        assert_eq!(window.is_some(), can_decode(&tok, ids, true));
        window.is_some()
    };
    assert!(usable(&[], &[0]));
    let good = tokenizer(&CONTROL, &sequence(&[BYTE_LEVEL, FUSE]));
    let window = checked_window_transcription(&good, &[9, 0, 1, 19], 3, start, 9).unwrap();
    assert_eq!(window.text, "Hello world");
    assert_eq!(window.segments.len(), 1);
    assert_eq!(window.segments[0].text, "Hello world");
    // Tokens that are made one are not nothing; tokens that may be dropped may be.
    assert!(usable(&[FUSE, BPE], &[]));
    assert!(!usable(&[CTC, BPE], &[0]));
    assert!(usable(&[CTC, FUSE, BPE], &[0]));
    assert!(usable(&[REPLACE, BPE], &[0]) && !usable(&[REPLACE, BPE], &[4]));
    assert!(usable(&[REPLACE, STRIP_START], &[0]) && !usable(&[REPLACE, STRIP_BOTH], &[0]));
    assert!(!usable(&[REPLACE_REGEX, BYTE_LEVEL], &[0]));
    // A sequence inside a sequence counts with its parts.
    let inner = sequence(&[REPLACE, &sequence(&[]), FUSE]);
    let nested = tokenizer(&CONTROL, &sequence(&[&inner, STRIP_START]));
    assert_eq!(
        decoder_steps(&nested),
        vec![
            DecoderStep::Replace { literal: true },
            DecoderStep::Fuse,
            DecoderStep::Strip { content: 'Ġ', start: 1, stop: 0 },
        ]
    );
    assert!(usable(&[&inner, STRIP_START], &[0, 1]));
    let bad = sequence(&[&sequence(&[REPLACE_REGEX])]);
    assert!(!usable(&[&bad], &[0]));
    assert!(decoder_steps(&tokenizer(&CONTROL, "null")).is_empty());
}

#[test]
fn special_and_unknown_tokens_are_not_decoded() {
    let tok = tokenizer(&CONTROL, BYTE_LEVEL);
    assert_eq!(tokens_to_decode(&tok, &[4, 0, 77, 2], true), vec!["Hello", "Ġagain"]);
    assert_eq!(
        tokens_to_decode(&tok, &[4, 0, 77], false),
        vec!["<|startoftranscript|>", "Hello"]
    );
}

#[test]
fn tokens_are_cut_where_there_is_enough() {
    assert!(is_strippable("", 'x', 3, 0));
    assert!(!is_strippable("", 'x', 0, 1));
    assert!(is_strippable("xxx", 'x', 1, 2));
    assert!(!is_strippable("xxx", 'x', 2, 2));
    assert!(!is_strippable("xxx", 'x', 0, 4));
    assert!(is_strippable("xax", 'x', 9, 9));
    let strip = DecoderStep::Strip { content: 'x', start: 0, stop: 1 };
    assert!(steps_take(&[strip], &["ax".to_string()]));
    assert!(!steps_take(&[strip], &["ax".to_string(), String::new()]));
    assert!(!steps_take(&[DecoderStep::Sequence], &[]));
}

#[test]
fn suppressor_looks_its_tokens_up() {
    let tok = tokenizer(&CONTROL, BYTE_LEVEL);
    let rules =
        TokenSuppressor::new::<WhisperTiny>(&tok, 3, false, &SuppressTokens::Default).unwrap();
    assert_eq!(rules.sot, 4);
    assert_eq!(rules.notimestamps_id, 8);
    assert_eq!(rules.eot, WhisperTiny::TOKEN_EOT);
    assert_eq!(rules.ids.last(), Some(&7));
    let without = tokenizer(&CONTROL[..4], BYTE_LEVEL);
    let error = TokenSuppressor::new::<WhisperTiny>(&without, 3, false, &SuppressTokens::Nothing)
        .unwrap_err();
    assert_eq!(error.message(), "tokenizer is missing required token \"<|notimestamps|>\"");
}
