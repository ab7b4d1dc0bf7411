use rkwhisper::daemon::{
    default_beam_size, default_lang, default_max_new_tokens, default_mode, default_suppress_tokens,
    default_task, join_path, model_is_enabled, model_kind, pcm_frame_length, pcm_s16le_samples,
    read_header_line, read_pcm_frame, read_request_body, resolve_enabled_model_files,
    resolve_model_files, validate_concurrency_config, validate_config, validate_model_id,
    ConcurrencyConfig, ConfigError, DaemonConfig, DaemonRequest, FoundFiles, HeaderLine, Limit,
    ModelError, ModelFile, ModelKind, PcmError, RequestError, RequestHeader,
};
use rkwhisper::float_bits::F32;

fn audio_of(samples: &[i16]) -> Vec<f32> {
    samples.iter().map(|&s| s as f32 / 32767.0).collect()
}

#[test]
fn daemon_converts_s16le_pcm() {
    let mut pcm = Vec::new();
    pcm.extend_from_slice(&i16::MIN.to_le_bytes());
    pcm.extend_from_slice(&0i16.to_le_bytes());
    pcm.extend_from_slice(&i16::MAX.to_le_bytes());

    let samples = pcm_s16le_samples(&pcm).unwrap();
    assert_eq!(samples, vec![i16::MIN, 0, i16::MAX]);
    let audio = audio_of(&samples);
    assert!((audio[0] + 32768.0 / 32767.0).abs() < 0.0001);
    assert_eq!(audio[1], 0.0);
    assert_eq!(audio[2], 1.0);
}

fn all_found() -> FoundFiles {
    FoundFiles {
        dir: true,
        tokenizer: true,
        mel: true,
        encoder: true,
        enc_kv: true,
        decoder: true,
        vad: false,
    }
}

#[test]
fn daemon_resolves_fixed_model_layout() {
    let files = resolve_model_files("/models", "whisper-small-30s", &all_found()).unwrap();
    assert_eq!(files.kind, ModelKind::Small);
    assert_eq!(files.tokenizer, "/models/whisper-small-30s/tokenizer.json");
    assert_eq!(files.dir, "/models/whisper-small-30s");
    assert_eq!(files.decoder, "/models/whisper-small-30s/decoder.rknn");
    assert_eq!(files.vad, None);
    let with_vad = FoundFiles { vad: true, ..all_found() };
    let files = resolve_model_files("/models/", "whisper-tiny", &with_vad).unwrap();
    assert_eq!(files.vad, Some("/models/whisper-tiny/vad.rknn".to_string()));
}

/// A configuration as its text says, before it is checked.
fn read_config(text: &str) -> DaemonConfig {
    let table: toml::Table = text.parse().unwrap();
    let models = table["models"]
        .as_array()
        .unwrap()
        .iter()
        .map(|id| id.as_str().unwrap().to_string())
        .collect();
    let mut concurrency = ConcurrencyConfig::default();
    if let Some(limits) = table.get("concurrency") {
        let number = |name: &str, or: usize| match limits.get(name) {
            Some(value) => value.as_integer().unwrap() as usize,
            None => or,
        };
        concurrency = ConcurrencyConfig {
            model_queue_depth: number("model_queue_depth", 1),
            max_active_jobs_per_model: number("max_active_jobs_per_model", 1),
            max_in_flight_windows_per_job: number("max_in_flight_windows_per_job", 1),
            client_window_queue_depth: number("client_window_queue_depth", 4),
            client_response_queue_depth: number("client_response_queue_depth", 16),
        };
    }
    DaemonConfig { models, concurrency }
}

fn parse_config(text: &str) -> Result<DaemonConfig, ConfigError> {
    let config = read_config(text);
    validate_config(&config)?;
    Ok(config)
}

#[test]
fn daemon_parses_valid_config() {
    let config = parse_config(
        r#"
models = [
  "whisper-small-30s",
  "whisper-medium-30s",
]
"#,
    )
    .unwrap();

    assert!(model_is_enabled(&config, "whisper-small-30s"));
    assert!(model_is_enabled(&config, "whisper-medium-30s"));
    assert!(!model_is_enabled(&config, "whisper-base-30s"));
    assert_eq!(config.concurrency.model_queue_depth, 1);
    assert_eq!(config.concurrency.max_active_jobs_per_model, 1);
    assert_eq!(config.concurrency.max_in_flight_windows_per_job, 1);
    assert_eq!(config.concurrency.client_window_queue_depth, 4);
    assert_eq!(config.concurrency.client_response_queue_depth, 16);
}

#[test]
fn parses_concurrency_config() {
    let config = parse_config(
        r#"
models = ["whisper-small-30s"]

[concurrency]
model_queue_depth = 2
max_active_jobs_per_model = 3
max_in_flight_windows_per_job = 2
client_window_queue_depth = 8
client_response_queue_depth = 32
"#,
    )
    .unwrap();

    assert_eq!(config.concurrency.model_queue_depth, 2);
    assert_eq!(config.concurrency.max_active_jobs_per_model, 3);
    assert_eq!(config.concurrency.max_in_flight_windows_per_job, 2);
    assert_eq!(config.concurrency.client_window_queue_depth, 8);
    assert_eq!(config.concurrency.client_response_queue_depth, 32);
}

#[test]
fn daemon_rejects_bad_configs() {
    assert!(parse_config("models = []").is_err());
    assert!(
        parse_config(
            r#"
models = [
  "whisper-small-30s",
  "whisper-small-30s",
]
"#
        )
        .unwrap_err()
        .message()
        .contains("duplicate")
    );
    assert!(
        parse_config(r#"models = ["../whisper-small-30s"]"#)
            .unwrap_err()
            .message()
            .contains("invalid model id")
    );
    assert!(
        parse_config(r#"models = ["whisper-unknown-30s"]"#)
            .unwrap_err()
            .message()
            .contains("unsupported model id")
    );
    assert!(
        parse_config(
            r#"
models = ["whisper-small-30s"]

[concurrency]
model_queue_depth = 0
"#
        )
        .unwrap_err()
        .message()
        .contains("model_queue_depth")
    );
    assert!(
        parse_config(
            r#"
models = ["whisper-small-30s"]

[concurrency]
max_active_jobs_per_model = 0
"#
        )
        .unwrap_err()
        .message()
        .contains("max_active_jobs_per_model")
    );
    assert!(
        parse_config(
            r#"
models = ["whisper-small-30s"]

[concurrency]
max_in_flight_windows_per_job = 0
"#
        )
        .unwrap_err()
        .message()
        .contains("max_in_flight_windows_per_job")
    );
}

#[test]
fn daemon_resolves_only_enabled_models() {
    let config = parse_config(r#"models = ["whisper-small-30s"]"#).unwrap();

    let files =
        resolve_enabled_model_files("/models", &config, "whisper-small-30s", &all_found()).unwrap();
    assert_eq!(files.kind, ModelKind::Small);

    let err = resolve_enabled_model_files("/models", &config, "whisper-medium-30s", &all_found())
        .unwrap_err()
        .message();
    assert_eq!(err, "model not found");
}

#[test]
fn daemon_listed_model_missing_file_reports_missing_file() {
    let config = parse_config(r#"models = ["whisper-small-30s"]"#).unwrap();
    let found = FoundFiles {
        dir: true,
        tokenizer: true,
        mel: false,
        encoder: false,
        enc_kv: false,
        decoder: false,
        vad: false,
    };

    let err = resolve_enabled_model_files("/models", &config, "whisper-small-30s", &found)
        .unwrap_err()
        .message();
    assert!(err.contains("model file missing: mel.rknn"));
}

/// A header as its JSON says, with the defaults for what is not there.
fn parse_header(text: &str) -> RequestHeader {
    let json: serde_json::Value = serde_json::from_str(text).unwrap();
    let word = |name: &str, or: String| match json.get(name) {
        Some(value) => value.as_str().unwrap().to_string(),
        None => or,
    };
    let number = |name: &str, or: usize| match json.get(name) {
        Some(value) => value.as_u64().unwrap() as usize,
        None => or,
    };
    RequestHeader {
        model: json["model"].as_str().unwrap().to_string(),
        mode: word("mode", default_mode()),
        lang: word("lang", default_lang()),
        task: word("task", default_task()),
        max_new_tokens: number("max_new_tokens", default_max_new_tokens()),
        beam_size: number("beam_size", default_beam_size()),
        notimestamps: json.get("notimestamps").map_or(false, |v| v.as_bool().unwrap()),
        suppress_tokens: word("suppress_tokens", default_suppress_tokens()),
        vad_threshold: json
            .get("vad_threshold")
            .map(|v| F32::from_bits((v.as_f64().unwrap() as f32).to_bits())),
        vad_min_speech_ms: None,
        vad_min_silence_ms: None,
        vad_speech_pad_ms: None,
        vad_window_samples: None,
    }
}

fn read_request(bytes: &[u8]) -> Result<DaemonRequest, RequestError> {
    let mut reader = bytes;
    let line = read_header_line(&mut reader)?;
    read_request_body(parse_header(&line), &mut reader)
}

#[test]
fn reads_framed_batch_request() {
    let mut bytes = br#"{"model":"whisper-small-30s","beam_size":2,"mode":"batch"}"#.to_vec();
    bytes.push(b'\n');
    bytes.extend_from_slice(&4i32.to_le_bytes());
    bytes.extend_from_slice(&0i16.to_le_bytes());
    bytes.extend_from_slice(&i16::MAX.to_le_bytes());

    let request = read_request(&bytes).unwrap();
    assert_eq!(request.header.model, "whisper-small-30s");
    assert_eq!(request.header.beam_size, 2);
    assert_eq!(audio_of(&request.audio), vec![0.0, 1.0]);
}

#[test]
fn reads_framed_stream_request() {
    let mut bytes = br#"{"model":"whisper-small-30s","mode":"stream"}"#.to_vec();
    bytes.push(b'\n');
    bytes.extend_from_slice(&2i32.to_le_bytes());
    bytes.extend_from_slice(&0i16.to_le_bytes());

    let request = read_request(&bytes).unwrap();
    assert_eq!(request.header.mode, "stream");
    assert_eq!(audio_of(&request.audio), vec![0.0]);
}

#[test]
fn rejects_invalid_pcm_lengths() {
    let mut negative = br#"{"model":"whisper-small-30s"}"#.to_vec();
    negative.push(b'\n');
    negative.extend_from_slice(&(-1i32).to_le_bytes());
    assert!(read_request(&negative).is_err());

    let mut odd = br#"{"model":"whisper-small-30s"}"#.to_vec();
    odd.push(b'\n');
    odd.extend_from_slice(&1i32.to_le_bytes());
    odd.push(0);
    assert!(read_request(&odd).is_err());
}

#[test]
fn rejects_truncated_frames() {
    let missing_newline = br#"{"model":"whisper-small-30s"}"#.to_vec();
    assert!(read_request(&missing_newline).is_err());

    let mut short_body = br#"{"model":"whisper-small-30s"}"#.to_vec();
    short_body.push(b'\n');
    short_body.extend_from_slice(&4i32.to_le_bytes());
    short_body.extend_from_slice(&0i16.to_le_bytes());
    assert!(read_request(&short_body).is_err());
}

#[test]
fn rejects_zero_beam_size() {
    let mut bytes = br#"{"model":"whisper-small-30s","beam_size":0}"#.to_vec();
    bytes.push(b'\n');
    bytes.extend_from_slice(&2i32.to_le_bytes());
    bytes.extend_from_slice(&0i16.to_le_bytes());

    let err = read_request(&bytes).unwrap_err().message();
    assert!(err.contains("beam_size"));
}

#[test]
fn header_defaults() {
    let header = parse_header(r#"{"model":"m"}"#);
    assert_eq!(header.mode, "batch");
    assert_eq!(header.lang, "en");
    assert_eq!(header.task, "transcribe");
    assert_eq!(header.max_new_tokens, 128);
    assert_eq!(header.beam_size, 5);
    assert_eq!(header.suppress_tokens, "default");
}

#[test]
fn request_errors_say_what_is_wrong() {
    let bad_mode = parse_header(r#"{"model":"m","mode":"a\tb"}"#);
    let mut nothing: &[u8] = &[];
    let error = read_request_body(bad_mode, &mut nothing).unwrap_err();
    assert_eq!(error.message(), "unsupported mode \"a\\tb\"");

    let mut zero: &[u8] = &[0, 0, 0, 0];
    let error = read_request_body(parse_header(r#"{"model":"m"}"#), &mut zero).unwrap_err();
    assert_eq!(error.message(), "empty audio");

    let mut not_text: &[u8] = &[0xc3, 0x28, b'\n'];
    let error = read_header_line(&mut not_text).unwrap_err();
    assert_eq!(error.message(), "JSON header is not valid UTF-8");

    let mut open: &[u8] = b"{";
    let error = read_header_line(&mut open).unwrap_err();
    assert_eq!(error.message(), "connection closed before JSON header newline");

    let long = vec![b' '; 65_537];
    let mut reader = long.as_slice();
    let error = read_header_line(&mut reader).unwrap_err();
    assert_eq!(error.message(), "JSON header exceeds 65536 bytes");
}

#[test]
fn header_lines_are_read_byte_by_byte() {
    let mut line = HeaderLine::new();
    for byte in "ä{}".bytes() {
        assert!(!line.push(byte).unwrap());
    }
    assert!(line.push(b'\n').unwrap());
    assert_eq!(line.text().unwrap(), "ä{}");
    let mut reader: &[u8] = b"one\ntwo";
    assert_eq!(read_header_line(&mut reader).unwrap(), "one");
    assert_eq!(reader, b"two");
}

#[test]
fn pcm_frames() {
    assert_eq!(pcm_frame_length(&6i32.to_le_bytes()).unwrap(), Some(6));
    assert_eq!(pcm_frame_length(&0i32.to_le_bytes()).unwrap(), None);
    assert!(pcm_frame_length(&(-1i32).to_le_bytes()).is_err());
    assert_eq!(pcm_s16le_samples(&[1]).unwrap_err(), PcmError::OddLength);
    let mut reader: &[u8] = &[2, 0, 0, 0, 0xff, 0xff, 5];
    assert_eq!(read_pcm_frame(&mut reader).unwrap(), Some(vec![-1]));
    assert_eq!(reader, &[5]);
}

#[test]
fn model_ids() {
    assert!(validate_model_id("whisper-small-30s"));
    for id in ["", "a/b", "..", ".", "a b", "ü"] {
        assert!(!validate_model_id(id), "{}", id);
    }
    assert_eq!(model_kind("whisper-tiny-30s"), Some(ModelKind::Tiny));
    assert_eq!(model_kind("whisper-base"), Some(ModelKind::Base));
    assert_eq!(model_kind("whisper-large-v3-turbo-30s"), Some(ModelKind::LargeV3Turbo));
    assert_eq!(model_kind("small"), None);
    assert_eq!(join_path("/a", "b"), "/a/b");
    assert_eq!(join_path("", "b"), "b");
}

#[test]
fn models_that_cannot_be_used() {
    let bad = resolve_model_files("/m", "../x", &all_found()).unwrap_err();
    assert_eq!(bad, ModelError::InvalidModelId);
    let none = FoundFiles { dir: false, ..all_found() };
    let missing = resolve_model_files("/m", "whisper-tiny", &none).unwrap_err();
    assert_eq!(missing, ModelError::NotFound);
    let no_decoder = FoundFiles { decoder: false, ..all_found() };
    let missing = resolve_model_files("/m", "whisper-tiny", &no_decoder).unwrap_err();
    assert_eq!(missing, ModelError::MissingFile { file: ModelFile::Decoder });
}

#[test]
fn limits_must_not_be_zero() {
    let mut limits = ConcurrencyConfig::default();
    validate_concurrency_config(&limits).unwrap();
    limits.client_response_queue_depth = 0;
    assert_eq!(
        validate_concurrency_config(&limits).unwrap_err(),
        Limit::ClientResponseQueueDepth
    );
    limits.client_window_queue_depth = 0;
    assert_eq!(validate_concurrency_config(&limits).unwrap_err(), Limit::ClientWindowQueueDepth);
}
