use rkwhisper::daemon::{ConcurrencyConfig, RequestHeader};
use rkwhisper::daemon_stream::{
    batch_signal, stream_signal, unsupported_signal, PcmChunker, ReadOutcome, SignalAction,
    StreamReadStats,
};
use rkwhisper::float_bits::F32;
use rkwhisper::live_jobs::{
    batch_options, batch_stats, live_options, vad_config_for, ActiveLiveJob, LiveJobs,
};
use rkwhisper::suppression::SuppressTokens;
use rkwhisper::whisper::WindowTranscription;

fn f(value: f32) -> F32 {
    F32::from_bits(value.to_bits())
}

fn header() -> RequestHeader {
    RequestHeader {
        model: "m".to_string(),
        mode: "stream".to_string(),
        lang: "en".to_string(),
        task: "transcribe".to_string(),
        max_new_tokens: 128,
        beam_size: 5,
        notimestamps: false,
        suppress_tokens: "default".to_string(),
        vad_threshold: None,
        vad_min_speech_ms: None,
        vad_min_silence_ms: None,
        vad_speech_pad_ms: None,
        vad_window_samples: None,
    }
}

fn result(window_index: usize) -> WindowTranscription {
    WindowTranscription {
        window_index,
        absolute_start_sec: f(0.0),
        text: String::new(),
        segments: Vec::new(),
    }
}

#[test]
fn detector_settings_come_from_the_header() {
    let mut wanted = header();
    wanted.vad_threshold = Some(f(0.7));
    wanted.vad_speech_pad_ms = Some(30);
    let config = vad_config_for(&wanted);
    assert_eq!(config.threshold, f(0.7));
    assert_eq!(config.min_speech_ms, 250);
    assert_eq!(config.min_silence_ms, 100);
    assert_eq!(config.speech_pad_ms, 30);
    assert_eq!(config.window_samples, 512);
}

#[test]
fn options_come_from_the_header() {
    let mut wanted = header();
    wanted.suppress_tokens = "none".to_string();
    assert_eq!(live_options(&wanted).suppress_tokens, SuppressTokens::Nothing);
    assert_eq!(batch_options(&wanted).unwrap().max_new_tokens, 128);
    wanted.suppress_tokens = "x".to_string();
    assert_eq!(live_options(&wanted).suppress_tokens, SuppressTokens::Default);
    assert_eq!(batch_options(&wanted).unwrap_err().part, "x");
}

#[test]
fn batch_windows_are_counted() {
    assert_eq!(batch_stats(0).windows_dispatched, 0);
    assert_eq!(batch_stats(1).windows_dispatched, 1);
    assert_eq!(batch_stats(480_000).windows_completed, 1);
    assert_eq!(batch_stats(480_001).windows_completed, 2);
}

#[test]
fn undetected_stream_is_cut_every_thirty_seconds() {
    let mut job = ActiveLiveJob::new(4, &header(), false);
    assert!(job.windows_to_score(512).is_empty());
    assert!(job.accept_samples(&vec![1; 479_999], &[]));
    assert!(job.take_window().is_none());
    assert!(job.accept_samples(&[2, 3, 4], &[]));
    let window = job.take_window().unwrap();
    assert_eq!((window.job_id, window.window_index, window.start_sample), (4, 0, 0));
    assert_eq!(window.samples.len(), 480_000);
    assert_eq!(window.samples.last(), Some(&2));
    assert!(window.speech_events.is_empty());
    job.confirm_dispatch();
    assert!(job.take_window().is_none());
    job.close();
    let window = job.take_window().unwrap();
    assert_eq!((window.window_index, window.start_sample), (1, 480_000));
    assert_eq!(window.samples, vec![3, 4]);
    job.confirm_dispatch();
    assert!(!job.is_complete());
    assert!(job.handle_result(result(1)).is_empty());
    assert_eq!(job.handle_result(result(0)).len(), 2);
    assert!(job.is_complete());
    assert_eq!((job.stats.windows_dispatched, job.stats.windows_completed), (2, 2));
}

/// Takes a stretch of audio in chunks of one detector window.
fn feed(job: &mut ActiveLiveJob, windows: usize, probability: f32) {
    for _ in 0..windows {
        assert_eq!(job.windows_to_score(512), vec![(0, 512)]);
        assert!(job.accept_samples(&[5; 512], &[f(probability)]));
    }
}

#[test]
fn detected_speech_goes_out_after_silence() {
    let mut job = ActiveLiveJob::new(1, &header(), true);
    feed(&mut job, 10, 0.0);
    feed(&mut job, 20, 0.9);
    assert!(job.next_dispatch_plan().is_none());
    // Speech 5120..15360, with 1600 samples of padding; two seconds of silence are 32000 samples.
    feed(&mut job, 65, 0.0);
    assert!(job.next_dispatch_plan().is_none());
    feed(&mut job, 1, 0.0);
    let plan = job.next_dispatch_plan().unwrap();
    assert_eq!((plan.start_sample, plan.end_sample), (3520, 16_960));
    assert_eq!(plan.speech_events, vec![(3520, 16_960)]);
    let window = job.take_window().unwrap();
    assert_eq!(window.start_sample, 3520);
    assert_eq!(window.samples.len(), 16_960 - 3520);
    assert_eq!(window.speech_events, vec![(3520, 16_960)]);
    assert_eq!(job.absolute_offset_samples, 16_960);
    assert_eq!(job.audio_buffer.len(), 96 * 512 - 16_960);
    assert!(job.probs.iter().all(|(start, _)| *start < job.audio_buffer.len()));
    // What is left is silence and is dropped at the end.
    job.close();
    assert!(job.take_window().is_none());
    assert!(!job.is_complete());
    job.refresh_speech_state();
    assert!(job.is_complete());
    assert_eq!(job.absolute_offset_samples, 96 * 512);
}

#[test]
fn long_speech_is_cut_at_thirty_seconds() {
    let mut job = ActiveLiveJob::new(1, &header(), true);
    feed(&mut job, 1000, 0.9);
    let window = job.take_window().unwrap();
    assert_eq!(window.samples.len(), 480_000);
    assert_eq!(window.speech_events, vec![(0, 480_000)]);
    assert_eq!(job.audio_buffer.len(), 512_000 - 480_000);
}

#[test]
fn failing_detector_closes_the_stream() {
    let mut job = ActiveLiveJob::new(1, &header(), true);
    assert!(job.wants_chunks(1));
    assert_eq!(job.windows_to_score(1000), vec![(0, 512), (512, 1000)]);
    assert!(!job.accept_samples(&[0; 1000], &[f(0.1)]));
    assert!(!job.wants_chunks(1));
    assert_eq!(job.probs, vec![(0, f(0.1))]);
}

fn full_job(job_id: usize) -> ActiveLiveJob {
    let mut job = ActiveLiveJob::new(job_id, &header(), false);
    job.accept_samples(&vec![0; 960_000], &[]);
    job
}

#[test]
fn streams_take_turns_with_the_workers() {
    let config = ConcurrencyConfig {
        max_active_jobs_per_model: 2,
        max_in_flight_windows_per_job: 9,
        ..ConcurrencyConfig::default()
    };
    let mut live = LiveJobs::new(full_job(10), &config);
    // No more windows of one stream than there are workers.
    assert_eq!(live.max_in_flight, 3);
    assert!(live.may_accept_job(true) && !live.may_accept_job(false));
    live.add_job(full_job(20));
    assert!(!live.may_accept_job(true));
    assert!(live.next_assignment().is_none());
    for worker in 0..5 {
        live.worker_ready(worker);
    }
    let mut order = Vec::new();
    while let Some(assignment) = live.next_assignment() {
        order.push((assignment.worker_id, assignment.window.job_id));
        live.confirm_dispatch(assignment.job);
    }
    assert_eq!(order, vec![(0, 10), (1, 20), (2, 10), (3, 20)]);
    assert!(live.wants_results());
    assert_eq!(live.find_job(20), Some(1));
    assert!(live.handle_result(30, result(0)).is_none());
    let (job, released) = live.handle_result(20, result(0)).unwrap();
    assert_eq!((job, released.len()), (1, 1));
    live.jobs[0].close();
    live.refresh_speech_state();
    assert!(live.remove_completed_jobs().is_empty());
    live.handle_result(10, result(0)).unwrap();
    live.handle_result(10, result(1)).unwrap();
    let removed = live.remove_completed_jobs();
    assert_eq!(removed.len(), 1);
    assert_eq!(removed[0].job_id, 10);
    assert_eq!(live.jobs.len(), 1);
    let failed = live.fail_all();
    assert_eq!(failed.len(), 1);
    assert!(live.jobs.is_empty());
}

#[test]
fn streams_wait_for_their_windows() {
    let mut live = LiveJobs::new(full_job(1), &ConcurrencyConfig::default());
    assert_eq!(live.max_in_flight, 1);
    live.worker_ready(0);
    live.worker_ready(1);
    let first = live.next_assignment().unwrap();
    live.confirm_dispatch(first.job);
    // One window is being worked on, so the next one waits.
    assert!(live.next_assignment().is_none());
    live.handle_result(1, result(0)).unwrap();
    assert_eq!(live.next_assignment().unwrap().worker_id, 1);
}

#[test]
fn signals() {
    assert_eq!(stream_signal(Some(1)), SignalAction::Drain);
    assert_eq!(stream_signal(Some(2)), SignalAction::DrainAndFinish);
    assert_eq!(stream_signal(Some(3)), SignalAction::Cancel);
    assert_eq!(stream_signal(None), SignalAction::Finish);
    assert_eq!(stream_signal(Some(9)), SignalAction::Refuse { signal: 9 });
    assert_eq!(batch_signal(Some(9)), SignalAction::Ignore);
    assert_eq!(batch_signal(Some(2)), SignalAction::DrainAndFinish);
    assert_eq!(unsupported_signal(9), "unsupported shared-memory signal 9");
}

#[test]
fn bytes_are_cut_into_pieces() {
    let mut chunker = PcmChunker::new(4);
    chunker.pcm = vec![1, 0, 2, 0, 3, 0];
    assert_eq!(chunker.next_chunk(false).unwrap().unwrap().samples, vec![1, 2]);
    assert!(chunker.next_chunk(false).unwrap().is_none());
    assert_eq!(chunker.next_chunk(true).unwrap().unwrap().samples, vec![3]);
    assert!(chunker.next_chunk(true).unwrap().is_none());
    assert_eq!(chunker.stats, StreamReadStats { total_samples: 3, total_windows: 2 });
    assert_eq!(ReadOutcome::Cancelled(chunker.stats).stats(), chunker.stats);
    chunker.pcm = vec![1];
    assert!(chunker.next_chunk(true).is_err());
}

#[test]
fn turns_are_kept_when_nothing_is_ready() {
    let config = ConcurrencyConfig {
        max_active_jobs_per_model: 3,
        max_in_flight_windows_per_job: 3,
        ..ConcurrencyConfig::default()
    };
    let mut live = LiveJobs::new(full_job(1), &config);
    live.add_job(full_job(2));
    live.worker_ready(0);
    let first = live.next_assignment().unwrap();
    assert_eq!(first.window.job_id, 1);
    live.confirm_dispatch(first.job);
    // No worker is ready: the turn stays with the second stream.
    assert!(live.next_assignment().is_none());
    assert_eq!(live.dispatch_cursor, 1);
    live.worker_ready(0);
    let second = live.next_assignment().unwrap();
    assert_eq!(second.window.job_id, 2);
    live.confirm_dispatch(second.job);
    let (place, windows) = live.handle_result(2, result(0)).unwrap();
    assert_eq!((place, windows.len()), (1, 1));
    assert_eq!(live.jobs[1].next_window_index, 1);
    assert_eq!(live.jobs[1].stats.windows_dispatched, 1);
    assert_eq!(live.jobs[1].stats.windows_completed, 1);
}
