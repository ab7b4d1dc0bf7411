use rkwhisper::daemon::RequestHeader;
use rkwhisper::daemon_stream::{ReadOutcome, StreamReadStats};
use rkwhisper::float_bits::F32;
use rkwhisper::parallel::LiveTranscriptionStats;
use rkwhisper::protocol::{ClientHello, ProtocolError, Response};
use rkwhisper::scheduler::{
    send_live_window, submission, window_delivery, DeferredJobs, ModelSchedulers, SendOutcome,
    SubmitError,
};
use rkwhisper::session::{
    accept_hello, batch_response, final_response, is_batch, lost_response, reader_lost_response,
    response_delivery, server_hello, session_step, submit_response, JobResponse, SessionStep,
};
use tokio::sync::mpsc;

fn test_header(model: &str) -> RequestHeader {
    RequestHeader {
        model: model.to_string(),
        mode: "stream".to_string(),
        lang: "en".to_string(),
        task: "transcribe".to_string(),
        max_new_tokens: 128,
        beam_size: 5,
        notimestamps: false,
        suppress_tokens: "default".to_string(),
        vad_threshold: None,
        vad_min_speech_ms: None,
        vad_min_silence_ms: None,
        vad_speech_pad_ms: None,
        vad_window_samples: None,
    }
}

#[test]
fn rkwhisperd_scheduler_submit_reports_unknown_model() {
    let schedulers: ModelSchedulers<RequestHeader> = ModelSchedulers::new();
    let header = test_header("missing-model");
    let model = header.model.clone();
    let error = schedulers.submit(&model, header).unwrap_err();
    assert!(matches!(error, SubmitError::UnknownModel));
}

#[test]
fn rkwhisperd_scheduler_submit_reports_queue_full() {
    let (job_tx, _job_rx) = mpsc::channel(1);
    let mut schedulers = ModelSchedulers::new();
    schedulers.insert("whisper-small-30s".to_string(), job_tx);

    schedulers.submit("whisper-small-30s", test_header("whisper-small-30s")).unwrap();

    let error =
        schedulers.submit("whisper-small-30s", test_header("whisper-small-30s")).unwrap_err();
    assert!(matches!(error, SubmitError::QueueFull(_)));
}

#[test]
fn stopped_schedulers_are_reported() {
    let (job_tx, job_rx) = mpsc::channel::<u8>(1);
    let mut schedulers = ModelSchedulers::new();
    schedulers.insert("m".to_string(), job_tx);
    assert!(schedulers.contains_model("m") && !schedulers.contains_model("n"));
    assert_eq!(schedulers.len(), 1);
    drop(job_rx);
    match schedulers.submit("m", 1).unwrap_err() {
        SubmitError::SchedulerStopped(reason) => assert_eq!(reason, "model scheduler stopped"),
        other => panic!("{:?}", other),
    }
    // A new queue takes the place of the old one.
    let (job_tx, mut job_rx) = mpsc::channel::<u8>(1);
    schedulers.insert("m".to_string(), job_tx);
    assert_eq!(schedulers.len(), 1);
    schedulers.submit("m", 7).unwrap();
    assert_eq!(job_rx.try_recv().unwrap(), 7);
}

#[test]
fn full_window_queues_fail_at_once() {
    let (tx, rx) = mpsc::channel(1);
    send_live_window(&tx, 1).unwrap();
    assert_eq!(send_live_window(&tx, 2).unwrap_err(), "client window queue full");
    drop(rx);
    assert_eq!(send_live_window(&tx, 3).unwrap_err(), "live stream worker stopped");
    assert!(window_delivery(SendOutcome::Accepted).is_ok());
    assert!(submission(SendOutcome::Accepted).is_ok());
}

#[test]
fn jobs_are_put_off_in_order() {
    let mut deferred = DeferredJobs::new();
    assert_eq!(deferred.take_id(), 1);
    assert_eq!(deferred.take_id(), 2);
    deferred.put_off("a");
    deferred.put_off("b");
    assert_eq!(deferred.next(), Some("a"));
    assert_eq!(deferred.next(), Some("b"));
    assert_eq!(deferred.next(), None);
}

fn schedulers_with(model: &str) -> ModelSchedulers<u8> {
    let (tx, _rx) = mpsc::channel(1);
    let mut schedulers = ModelSchedulers::new();
    schedulers.insert(model.to_string(), tx);
    schedulers
}

fn error_of(response: Response) -> String {
    match response {
        Response::Error { error } => error,
        other => panic!("{:?}", other),
    }
}

#[test]
fn hellos_are_answered() {
    let schedulers = schedulers_with("m");
    let hello = || ClientHello { model: "m".to_string(), ..ClientHello::default() };
    let header = accept_hello(Ok(hello()), &schedulers).unwrap();
    assert_eq!(header.model, "m");
    assert_eq!(header.beam_size, 5);
    assert!(is_batch(&header));

    let mut other = hello();
    other.model = "n".to_string();
    assert_eq!(error_of(accept_hello(Ok(other), &schedulers).unwrap_err()), "model not found");
    let mut other = hello();
    other.mode = "x".to_string();
    let refused = accept_hello(Ok(other), &schedulers).unwrap_err();
    assert_eq!(error_of(refused), "unsupported mode \"x\"");
    let mut other = hello();
    other.beam_size = 0;
    let refused = accept_hello(Ok(other), &schedulers).unwrap_err();
    assert_eq!(error_of(refused), "beam_size must be at least 1");
    let refused = accept_hello(Err(ProtocolError::MissingModel), &schedulers).unwrap_err();
    assert_eq!(error_of(refused), "client hello missing model");
    match server_hello(3_840_000) {
        Response::ServerHello(server) => {
            assert_eq!(server.ring_capacity_bytes, 3_840_000);
            assert_eq!(server.ring_header_bytes, 32);
            assert_eq!(server.audio_format.sample_rate, 16_000);
        }
        other => panic!("{:?}", other),
    }
}

#[test]
fn refused_jobs_are_answered() {
    match submit_response(SubmitError::QueueFull("model queue full".to_string())) {
        Response::BackOff { reason, retry_after_ms } => {
            assert_eq!(reason, "model queue full");
            assert_eq!(retry_after_ms, 250);
        }
        other => panic!("{:?}", other),
    }
    assert_eq!(error_of(submit_response(SubmitError::UnknownModel)), "model not found");
    let stopped = SubmitError::SchedulerStopped("gone".to_string());
    assert_eq!(error_of(submit_response(stopped)), "gone");
    assert_eq!(
        response_delivery(SendOutcome::Full).unwrap_err(),
        "client response queue full"
    );
    assert_eq!(
        response_delivery(SendOutcome::Closed).unwrap_err(),
        "client response channel closed"
    );
}

#[test]
fn session_steps() {
    let zero = F32::from_bits(0);
    let segment = JobResponse::Segment { text: "a".to_string(), begin: zero, end: zero };
    assert!(matches!(
        session_step(Some(segment)),
        SessionStep::Send(Response::Segment { .. })
    ));
    let one = F32::from_bits(1.0f32.to_bits());
    match session_step(Some(JobResponse::SpeechStarted { begin: one })) {
        SessionStep::SpeechStarted { begin } => assert_eq!(begin, one),
        other => panic!("{:?}", other),
    }
    match session_step(Some(JobResponse::SpeechEnded { end: one })) {
        SessionStep::SpeechEnded { end } => assert_eq!(end, one),
        other => panic!("{:?}", other),
    }
    let finished = JobResponse::Finished(Err("e".to_string()));
    assert!(matches!(session_step(Some(finished)), SessionStep::Finish(Err(_))));
    assert!(matches!(session_step(None), SessionStep::Lost));
    assert_eq!(error_of(lost_response()), "model scheduler thread exited unexpectedly");
    assert_eq!(error_of(reader_lost_response()), "live stream reader thread panicked");
}

#[test]
fn last_answers() {
    let audio_s = F32::from_bits(1.0f32.to_bits());
    let rtf = F32::from_bits(0.5f32.to_bits());
    let stats = LiveTranscriptionStats { windows_dispatched: 3, windows_completed: 2 };
    let read = StreamReadStats { total_samples: 16_000, total_windows: 3 };

    let done = final_response(Ok(ReadOutcome::Completed(read)), Ok(stats), audio_s, rtf);
    assert!(matches!(done, Response::Done { audio_s: a, rtf: r } if a == audio_s && r == rtf));
    let cancelled = final_response(Ok(ReadOutcome::Cancelled(read)), Ok(stats), audio_s, rtf);
    assert!(matches!(
        cancelled,
        Response::Cancelled { windows_dispatched: 3, windows_completed: 2, .. }
    ));
    let failed =
        final_response(Ok(ReadOutcome::Completed(read)), Err("npu".to_string()), audio_s, rtf);
    assert_eq!(error_of(failed), "npu");
    let full = "send: client window queue full!".to_string();
    let back_off = final_response(Err(full), Err("npu".to_string()), audio_s, rtf);
    assert!(matches!(back_off, Response::BackOff { retry_after_ms: 250, .. }));
    let broken = final_response(Err("read".to_string()), Ok(stats), audio_s, rtf);
    assert_eq!(error_of(broken), "read");

    assert!(matches!(batch_response(Ok(stats), audio_s, rtf), Response::Done { .. }));
    assert_eq!(error_of(batch_response(Err("x".to_string()), audio_s, rtf)), "x");
}

#[test]
fn jobs_go_to_the_queue_of_their_model() {
    let (first_tx, mut first_rx) = mpsc::channel::<u8>(1);
    let (second_tx, mut second_rx) = mpsc::channel::<u8>(1);
    let mut schedulers = ModelSchedulers::new();
    schedulers.insert("a".to_string(), first_tx);
    schedulers.insert("b".to_string(), second_tx.clone());
    assert!(schedulers.queue_of("c").is_none());
    assert!(schedulers.queue_of("b").unwrap().same_channel(&second_tx));
    schedulers.submit("b", 7).unwrap();
    assert!(first_rx.try_recv().is_err());
    assert_eq!(second_rx.try_recv().unwrap(), 7);
}
