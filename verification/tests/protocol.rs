use rkwhisper::float_bits::F32;
use rkwhisper::protocol::{
    decode_client_hello, decode_response, encode_client_hello, encode_response, frame_length,
    read_client_hello, read_frame, supported_audio_format, validate_client_hello, write_frame,
    write_response, ClientHello, ProtocolError, Response, ServerHello, VadOptions,
    FRAME_MAX_BYTES, SAMPLE_FORMAT_S16LE,
};
use rkwhisper::wire::{
    field_fixed32, field_message, field_string, field_varint, varint, ProtoInput, WireError,
};

fn f(value: f32) -> F32 {
    F32::from_bits(value.to_bits())
}

#[test]
fn decodes_client_hello() {
    let mut audio = Vec::new();
    field_varint(&mut audio, 1, 16_000);
    field_varint(&mut audio, 2, 1);
    field_varint(&mut audio, 3, SAMPLE_FORMAT_S16LE as u64);

    let mut vad = Vec::new();
    field_fixed32(&mut vad, 1, f(0.6));
    field_varint(&mut vad, 2, 300);

    let mut msg = Vec::new();
    field_string(&mut msg, 1, "whisper-small-30s");
    field_string(&mut msg, 2, "stream");
    field_varint(&mut msg, 6, 2);
    field_message(&mut msg, 9, &audio);
    field_message(&mut msg, 10, &vad);

    let hello = decode_client_hello(&msg).unwrap();
    assert_eq!(hello.model, "whisper-small-30s");
    assert_eq!(hello.mode, "stream");
    assert_eq!(hello.beam_size, 2);
    assert_eq!(hello.audio_format.sample_rate, 16_000);
    assert_eq!(hello.vad.min_speech_ms, Some(300));
    assert_eq!(hello.vad.threshold, Some(f(0.6)));
}

#[test]
fn validates_audio_format() {
    let mut hello = ClientHello {
        model: "whisper-small-30s".to_string(),
        ..ClientHello::default()
    };
    validate_client_hello(&hello).unwrap();
    hello.audio_format.sample_rate = 48_000;
    assert!(validate_client_hello(&hello).is_err());
}

#[test]
fn hello_checks_are_made_in_order() {
    let mut hello = ClientHello::default();
    hello.mode = "live \"now\"".to_string();
    hello.beam_size = 0;
    hello.audio_format.channels = 2;
    let error = validate_client_hello(&hello).unwrap_err();
    assert_eq!(error.message(), r#"unsupported mode "live \"now\"""#);
    hello.mode = "batch".to_string();
    let error = validate_client_hello(&hello).unwrap_err();
    assert_eq!(error.message(), "beam_size must be at least 1");
    hello.beam_size = 1;
    let error = validate_client_hello(&hello).unwrap_err();
    assert_eq!(error.message(), "unsupported audio format; expected 16 kHz mono s16le");
    hello.audio_format = supported_audio_format();
    validate_client_hello(&hello).unwrap();
}

#[test]
fn default_hello_is_a_batch_request_in_english() {
    let hello = ClientHello::default();
    assert_eq!(hello.model, "");
    assert_eq!(hello.mode, "batch");
    assert_eq!(hello.lang, "en");
    assert_eq!(hello.task, "transcribe");
    assert_eq!(hello.max_new_tokens, 128);
    assert_eq!(hello.beam_size, 5);
    assert!(!hello.notimestamps);
    assert_eq!(hello.suppress_tokens, "default");
}

#[test]
fn hello_round_trip() {
    let hello = ClientHello {
        model: "whisper-größe".to_string(),
        mode: "stream".to_string(),
        lang: "de".to_string(),
        task: "translate".to_string(),
        max_new_tokens: 300,
        beam_size: 1,
        notimestamps: true,
        suppress_tokens: "1,2".to_string(),
        audio_format: supported_audio_format(),
        vad: VadOptions {
            threshold: Some(f(0.25)),
            min_speech_ms: None,
            min_silence_ms: Some(0),
            speech_pad_ms: Some(u32::MAX),
            window_samples: Some(512),
        },
    };
    let bytes = encode_client_hello(&hello);
    let back = decode_client_hello(&bytes).unwrap();
    assert_eq!(format!("{:?}", back), format!("{:?}", hello));

    let mut stream = Vec::new();
    write_frame(&mut stream, &bytes).unwrap();
    stream.push(7);
    let mut reader = stream.as_slice();
    let read = read_client_hello(&mut reader).unwrap();
    assert_eq!(read.model, "whisper-größe");
    assert_eq!(reader, &[7]);
}

fn all_responses() -> Vec<Response> {
    vec![
        Response::ServerHello(ServerHello {
            audio_format: supported_audio_format(),
            ring_capacity_bytes: 3_840_000,
            ring_header_bytes: 32,
        }),
        Response::Segment { text: "hallo".to_string(), begin: f(0.5), end: f(1.25) },
        Response::Done { audio_s: f(3.0), rtf: f(0.5) },
        Response::Error { error: "no".to_string() },
        Response::Cancelled {
            audio_s: f(1.0),
            rtf: f(2.0),
            windows_dispatched: u64::MAX,
            windows_completed: 3,
        },
        Response::BackOff { reason: "busy".to_string(), retry_after_ms: 250 },
    ]
}

#[test]
fn responses_round_trip() {
    for response in all_responses() {
        let shown = format!("{:?}", response);
        let mut stream = Vec::new();
        write_response(&mut stream, response).unwrap();
        let mut reader = stream.as_slice();
        let frame = read_frame(&mut reader).unwrap();
        assert!(reader.is_empty());
        let back = decode_response(&frame).unwrap();
        assert_eq!(format!("{:?}", back), shown);
    }
}

#[test]
fn back_off_bytes() {
    let bytes = encode_response(Response::BackOff { reason: "b".to_string(), retry_after_ms: 250 });
    let back = decode_response(&bytes).unwrap();
    assert!(matches!(back, Response::BackOff { retry_after_ms: 250, .. }));
    // A length-delimited field that holds a string and a varint.
    assert_eq!(bytes[1] as usize, bytes.len() - 2);
    assert_eq!(&bytes[2..], &[0x0a, 1, b'b', 0x10, 0xfa, 0x01]);
}

#[test]
fn frames_are_refused() {
    let mut short: &[u8] = &[1, 0, 0];
    assert!(matches!(
        read_frame(&mut short).unwrap_err(),
        ProtocolError::FrameLengthUnavailable
    ));
    let mut cut: &[u8] = &[3, 0, 0, 0, 9, 9];
    assert!(matches!(read_frame(&mut cut).unwrap_err(), ProtocolError::FrameBodyUnavailable));
    let long = ((FRAME_MAX_BYTES + 1) as u32).to_le_bytes();
    let error = frame_length(&long).unwrap_err();
    assert_eq!(error.message(), "protobuf frame exceeds 1048576 bytes");
    assert_eq!(frame_length(&(FRAME_MAX_BYTES as u32).to_le_bytes()).unwrap(), FRAME_MAX_BYTES);
    let mut out = Vec::new();
    let body = vec![0u8; FRAME_MAX_BYTES + 1];
    assert!(matches!(write_frame(&mut out, &body).unwrap_err(), ProtocolError::FrameTooLarge));
    assert!(out.is_empty());
}

#[test]
fn broken_messages_are_refused() {
    assert_eq!(decode_client_hello(&[]).unwrap_err().message(), "client hello missing model");
    let mut unknown = Vec::new();
    field_message(&mut unknown, 99, &[]);
    let error = decode_response(&unknown).unwrap_err();
    assert_eq!(error.message(), "unknown response field 99");
    let mut plain = Vec::new();
    field_varint(&mut plain, 1, 5);
    let error = decode_response(&plain).unwrap_err();
    assert_eq!(error.message(), "invalid response wire type 0");

    let text = |bytes: &[u8]| decode_client_hello(bytes).unwrap_err().message();
    assert_eq!(text(&[0x0a, 0x80]), "truncated protobuf varint");
    assert_eq!(text(&[0x0a, 5, b'a']), "truncated protobuf length-delimited field");
    assert_eq!(text(&[0x0a, 1, 0xff]), "protobuf string is not valid UTF-8");
    assert_eq!(text(&[0xfb, 0x01]), "unsupported protobuf wire type 3");
    let too_long = [0xffu8; 11];
    assert_eq!(text(&too_long), "protobuf varint too long");
    let mut vad = Vec::new();
    field_message(&mut vad, 10, &[0x0d, 1, 2]);
    assert_eq!(text(&vad), "truncated protobuf fixed32");
    assert_eq!(text(&[0xf9, 0x01, 1, 2]), "truncated protobuf field");
}

#[test]
fn unknown_fields_are_skipped() {
    let mut msg = Vec::new();
    field_varint(&mut msg, 50, 7);
    field_fixed32(&mut msg, 51, f(1.0));
    field_message(&mut msg, 52, &[1, 2, 3]);
    field_string(&mut msg, 1, "m");
    assert_eq!(decode_client_hello(&msg).unwrap().model, "m");
}

#[test]
fn varints_take_seven_bits_a_byte() {
    let mut out = Vec::new();
    varint(&mut out, 300);
    assert_eq!(out, vec![0xac, 0x02]);
    let mut input = ProtoInput::new(&out);
    assert_eq!(input.varint().unwrap(), 300);
    assert!(input.is_empty());
    assert_eq!(input.varint().unwrap_err(), WireError::TruncatedVarint);
    for value in [0, 1, 127, 128, u32::MAX as u64, u64::MAX] {
        let mut out = Vec::new();
        varint(&mut out, value);
        assert_eq!(ProtoInput::new(&out).varint().unwrap(), value);
    }
}

#[test]
fn unknown_fields_change_nothing_wherever_they_stand() {
    let mut before = Vec::new();
    field_string(&mut before, 1, "m");
    field_varint(&mut before, 6, 3);
    let mut behind = Vec::new();
    field_string(&mut behind, 3, "de");
    let plain = decode_client_hello(&[before.clone(), behind.clone()].concat()).unwrap();
    let mut unknown: Vec<Vec<u8>> = vec![Vec::new(); 4];
    field_varint(&mut unknown[0], 11, 7);
    field_string(&mut unknown[1], 6, "9");
    field_fixed32(&mut unknown[2], 1, f(1.0));
    unknown[3].extend_from_slice(&[12 * 8 + 1, 1, 2, 3, 4, 5, 6, 7, 8]);
    for field in unknown {
        let bytes = [before.clone(), field, behind.clone()].concat();
        let hello = decode_client_hello(&bytes).unwrap();
        assert_eq!((&hello.model, &hello.lang), (&plain.model, &plain.lang));
        assert_eq!(hello.beam_size, 3);
        assert_eq!(encode_client_hello(&hello), encode_client_hello(&plain));
    }
}
