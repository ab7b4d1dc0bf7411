use rkwhisper::float_bits::F32;
use rkwhisper::parallel::{
    collect_ordered, live_window, LiveTranscription, OrderedResults, ParallelError,
    ParallelModelPaths, WindowDispatch, NPU_WORKERS,
};
use rkwhisper::whisper::WindowTranscription;
use rkwhisper::windows::fixed_audio_windows;
use rkwhisper::N_SAMPLES;

fn window_result(window_index: usize, text: &str) -> WindowTranscription {
    WindowTranscription {
        window_index,
        absolute_start_sec: F32::from_bits(0),
        text: text.to_string(),
        segments: Vec::new(),
    }
}

#[test]
fn collect_ordered_reorders_results() {
    let arrivals = vec![
        window_result(2, "three"),
        window_result(0, "one"),
        window_result(1, "two"),
    ];
    let transcription = collect_ordered(arrivals, 3, Vec::new()).unwrap();
    assert_eq!(transcription.text, "one two three");
}

#[test]
fn collect_ordered_reports_early_close() {
    let error = collect_ordered(Vec::new(), 1, Vec::new()).unwrap_err();
    assert!(error.message().contains("result channel closed"));
}

#[test]
fn results_go_out_by_their_index() {
    let mut ordered: OrderedResults<&str> = OrderedResults::new();
    assert!(ordered.accept(1, "b").is_empty());
    assert!(ordered.accept(3, "d").is_empty());
    assert_eq!(ordered.accept(0, "a"), vec!["a", "b"]);
    assert_eq!(ordered.accept(2, "c"), vec!["c", "d"]);
    assert_eq!(ordered.next, 4);
}

#[test]
fn parallel_errors_say_what_is_wrong() {
    assert_eq!(ParallelError::WorkersStopped.message(), "all NPU workers stopped");
    assert_eq!(ParallelError::InvalidWorker { worker_id: 12 }.message(), "invalid worker id 12");
    assert_eq!(
        ParallelError::WorkerStopped { worker_id: 0 }.message(),
        "worker 0 stopped before accepting a job"
    );
}

#[test]
fn live_windows_follow_each_other() {
    let window = live_window(2, vec![1, 2, 3]);
    assert_eq!(window.index, 2);
    assert_eq!(window.start_sample, 2 * N_SAMPLES);
    assert_eq!(window.end_sample, 2 * N_SAMPLES + 3);
    assert_eq!(window.samples, vec![1, 2, 3]);
}

#[test]
fn live_stream_is_transcribed_in_order() {
    let mut live = LiveTranscription::new(NPU_WORKERS);
    live.window_arrived(live_window(0, vec![1]));
    live.window_arrived(live_window(1, vec![2]));
    assert!(live.next_assignment().unwrap().is_none());
    live.worker_ready(2);
    live.worker_ready(0);
    let (worker, window) = live.next_assignment().unwrap().unwrap();
    assert_eq!((worker, window.index), (2, 0));
    let (worker, window) = live.next_assignment().unwrap().unwrap();
    assert_eq!((worker, window.index), (0, 1));
    assert!(live.next_assignment().unwrap().is_none());
    live.windows_closed();
    assert!(!live.wants_window() && !live.wants_worker() && live.wants_result());
    assert!(!live.is_finished());
    assert_eq!(live.result_arrived(window_result(1, "two")), 0);
    assert_eq!(live.result_arrived(window_result(0, "one")), 2);
    assert!(live.is_finished());
    let (transcription, stats) = live.finish();
    assert_eq!(transcription.text, "one two");
    assert_eq!((stats.windows_dispatched, stats.windows_completed), (2, 2));
}

#[test]
fn unknown_workers_are_errors() {
    let mut live = LiveTranscription::new(1);
    live.window_arrived(live_window(0, vec![1]));
    live.worker_ready(1);
    assert_eq!(
        live.next_assignment().unwrap_err(),
        ParallelError::InvalidWorker { worker_id: 1 }
    );
    let mut dispatch = WindowDispatch::new(2, fixed_audio_windows(N_SAMPLES + 1));
    assert!(dispatch.wants_worker());
    let (worker, window) = dispatch.assign(Some(1)).unwrap();
    assert_eq!((worker, window.index), (1, 0));
    assert_eq!(dispatch.assign(None).unwrap_err(), ParallelError::WorkersStopped);
    assert!(!dispatch.wants_worker());
}

#[test]
fn model_paths_are_kept() {
    let paths = ParallelModelPaths::new(
        "m".to_string(),
        "e".to_string(),
        "k".to_string(),
        "d".to_string(),
    );
    assert_eq!(paths.mel + &paths.encoder + &paths.enc_kv + &paths.decoder, "mekd");
}

#[test]
fn later_results_for_a_waiting_window_replace_earlier_ones() {
    let arrivals = vec![
        window_result(1, "old"),
        window_result(2, "three"),
        window_result(1, "two"),
        window_result(0, "one"),
        window_result(0, "late"),
    ];
    // Window 2 is in turn together with the last one that is waited for.
    assert_eq!(collect_ordered(arrivals, 2, Vec::new()).unwrap().text, "one two three");
    let gap = vec![window_result(0, "one"), window_result(0, "one"), window_result(2, "three")];
    assert_eq!(collect_ordered(gap, 3, Vec::new()).unwrap_err(), ParallelError::ResultsClosed);
    assert_eq!(collect_ordered(vec![window_result(0, "x")], 0, Vec::new()).unwrap().text, "");
}

#[test]
fn new_live_transcription_holds_nothing() {
    let live = LiveTranscription::new(3);
    assert!(live.collector.ordered.pending.is_empty());
    let (transcription, stats) = live.finish();
    assert_eq!(transcription.text, "");
    assert_eq!((stats.windows_dispatched, stats.windows_completed), (0, 0));
}
