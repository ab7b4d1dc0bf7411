use rkwhisper::client::{
    checked_response, event_for, recv_response, samples_to_pcm, send_audio, AudioProgress, Error,
    Event, Handshake, HandshakeStep, SendStep, TranscriptCollector,
};
use rkwhisper::daemon::pcm_s16le_samples;
use rkwhisper::float_bits::F32;
use rkwhisper::protocol::{encode_response, supported_audio_format, Response, ServerHello};
use rkwhisper::ring::SharedAudioRing;

fn f(value: f32) -> F32 {
    F32::from_bits(value.to_bits())
}

fn back_off() -> Response {
    Response::BackOff { reason: "busy".to_string(), retry_after_ms: 250 }
}

fn hello() -> Response {
    Response::ServerHello(ServerHello {
        audio_format: supported_audio_format(),
        ring_capacity_bytes: 64,
        ring_header_bytes: 32,
    })
}

#[test]
fn busy_daemon_is_tried_again_five_times() {
    let mut handshake = Handshake::new();
    for _ in 0..5 {
        let step = handshake.on_response(back_off(), false);
        assert!(matches!(step, HandshakeStep::RetryAfter { millis: 250 }));
    }
    match handshake.on_response(back_off(), false) {
        HandshakeStep::Fail(error) => assert_eq!(
            error.message(),
            "handshake failed: too many retries after backoff: busy"
        ),
        other => panic!("{:?}", other),
    }
    assert_eq!(handshake.retries, 5);
}

#[test]
fn handshake_answers() {
    let mut handshake = Handshake::new();
    let step = handshake.on_response(hello(), true);
    assert!(matches!(step, HandshakeStep::Attach { ring_capacity_bytes: 64 }));
    match handshake.on_response(hello(), false) {
        HandshakeStep::Fail(error) => {
            assert_eq!(error.message(), "handshake failed: no file descriptor received")
        }
        other => panic!("{:?}", other),
    }
    let refused = Response::Error { error: "model not found".to_string() };
    match handshake.on_response(refused, false) {
        HandshakeStep::Fail(error) => {
            assert_eq!(error.message(), "handshake failed: model not found")
        }
        other => panic!("{:?}", other),
    }
    let step = handshake.on_response(Response::Done { audio_s: f(0.0), rtf: f(0.0) }, false);
    assert!(matches!(step, HandshakeStep::Unexpected(Response::Done { .. })));
    assert_eq!(handshake.retries, 0);
}

#[test]
fn samples_become_bytes_and_back() {
    let samples = vec![0, 1, -1, 256, i16::MIN, i16::MAX];
    let pcm = samples_to_pcm(&samples);
    assert_eq!(pcm, vec![0, 0, 1, 0, 0xff, 0xff, 0, 1, 0, 0x80, 0xff, 0x7f]);
    assert_eq!(pcm_s16le_samples(&pcm).unwrap(), samples);
}

#[test]
fn audio_goes_through_a_small_ring() {
    let mut ring = SharedAudioRing::create(4).unwrap();
    let pcm = vec![1, 2, 3, 4, 5, 6];
    let mut progress = AudioProgress::new(pcm.len());
    let mut received = Vec::new();
    assert_eq!(
        send_audio(&mut ring, &pcm, &mut progress).unwrap(),
        SendStep::Signal { signal: 1 }
    );
    assert_eq!(
        send_audio(&mut ring, &pcm, &mut progress).unwrap(),
        SendStep::Wait { millis: 10 }
    );
    ring.drain_available(&mut received).unwrap();
    assert_eq!(received, vec![1, 2, 3, 4]);
    assert!(!progress.is_done());
    send_audio(&mut ring, &pcm, &mut progress).unwrap();
    assert!(progress.is_done());
    assert_eq!(send_audio(&mut ring, &pcm, &mut progress).unwrap(), SendStep::Done);
    ring.drain_available(&mut received).unwrap();
    assert_eq!(received, pcm);
}

#[test]
fn errors_and_cancellation_are_errors() {
    let error = Response::Error { error: "no".to_string() };
    assert_eq!(checked_response(error).unwrap_err().message(), "server error: no");
    let cancelled = Response::Cancelled {
        audio_s: f(0.0),
        rtf: f(0.0),
        windows_dispatched: 0,
        windows_completed: 0,
    };
    let frame = encode_response(cancelled);
    let error = recv_response(&frame).unwrap_err();
    assert_eq!(error.message(), "session cancelled");
    let done = encode_response(Response::Done { audio_s: f(2.0), rtf: f(0.5) });
    assert!(matches!(recv_response(&done).unwrap(), Response::Done { .. }));
    let broken = recv_response(&[0xff]).unwrap_err();
    assert_eq!(broken.message(), "protocol error: truncated protobuf varint");
    assert_eq!(Error::Connection("x".to_string()).message(), "connection failed: x");
    assert_eq!(Error::Other("x".to_string()).message(), "internal error: x");
}

#[test]
fn transcript_is_gathered() {
    let mut collector = TranscriptCollector::new();
    let segment = |text: &str, begin: f32| Response::Segment {
        text: text.to_string(),
        begin: f(begin),
        end: f(begin + 1.0),
    };
    assert!(!collector.accept(segment(" one", 0.0)));
    assert!(!collector.accept(back_off()));
    assert!(!collector.accept(segment("two", 1.0)));
    assert!(collector.accept(Response::Done { audio_s: f(2.0), rtf: f(0.5) }));
    let transcription = collector.finish();
    assert_eq!(transcription.text, "one two");
    assert_eq!(transcription.segments.len(), 2);
    assert_eq!(transcription.segments[1].text, "two");
    assert_eq!(transcription.segments[1].start_sec, f(1.0));
    assert_eq!(transcription.segments[1].end_sec, f(2.0));
}

#[test]
fn events_of_a_session() {
    let segment = Response::Segment { text: "a".to_string(), begin: f(0.0), end: f(1.0) };
    let event = event_for(Ok(segment)).unwrap();
    assert!(!event.is_last());
    let done = event_for(Ok(Response::Done { audio_s: f(1.0), rtf: f(1.0) })).unwrap();
    assert!(matches!(done, Event::Done { .. }) && done.is_last());
    assert_eq!(event_for(Ok(hello())).unwrap_err(), "unexpected server hello");
    assert_eq!(event_for(Ok(back_off())).unwrap_err(), "server backoff: busy");
    assert_eq!(event_for(Err(Error::Cancelled)).unwrap_err(), "session cancelled");
}
