use rkwhisper::vad::VadSegment;
use rkwhisper::whisper::{timestamp_token_steps, token_runs, TimeMark};
use rkwhisper::windows::{
    can_be_grouped, fixed_audio_windows, transcription_windows, vad_audio_windows, AudioWindow,
};
use rkwhisper::N_SAMPLES;

// Returns true iff every sample in every VAD segment is contained in some window.
// Advances through windows in sorted order to keep this O(segs * windows).
fn all_speech_covered(segs: &[VadSegment], windows: &[AudioWindow]) -> bool {
    for seg in segs {
        let mut pos = seg.start_sample;
        'advance: while pos < seg.end_sample {
            for w in windows {
                if w.start_sample <= pos && pos < w.end_sample {
                    pos = w.end_sample;
                    continue 'advance;
                }
            }
            return false;
        }
    }
    true
}

fn seg(start: usize, end: usize) -> VadSegment {
    VadSegment { start_sample: start, end_sample: end }
}

#[test]
fn coverage_single_short_segment() {
    let segs = vec![seg(100, 200)];
    let wins = vad_audio_windows(&segs);
    assert!(all_speech_covered(&segs, &wins), "short segment not fully covered");
}

#[test]
fn coverage_single_segment_exactly_n_samples() {
    let segs = vec![seg(0, N_SAMPLES)];
    let wins = vad_audio_windows(&segs);
    assert!(all_speech_covered(&segs, &wins), "exact-window segment not fully covered");
}

#[test]
fn coverage_single_long_segment() {
    let segs = vec![seg(50, 50 + N_SAMPLES + 999)];
    let wins = vad_audio_windows(&segs);
    assert!(
        all_speech_covered(&segs, &wins),
        "long segment spanning two windows not fully covered"
    );
}

#[test]
fn coverage_two_short_segments_fit_in_one_window() {
    let segs = vec![seg(0, 1000), seg(5000, 6000)];
    let wins = vad_audio_windows(&segs);
    assert_eq!(wins.len(), 1);
    assert!(all_speech_covered(&segs, &wins));
}

#[test]
fn coverage_two_segments_forced_into_separate_windows() {
    // Second segment ends > N_SAMPLES after first segment's start.
    let segs = vec![seg(0, 1000), seg(N_SAMPLES - 100, N_SAMPLES + 200)];
    let wins = vad_audio_windows(&segs);
    assert!(
        all_speech_covered(&segs, &wins),
        "segments split across window boundary not fully covered"
    );
}

#[test]
fn coverage_segment_starting_far_into_audio() {
    let segs = vec![seg(N_SAMPLES + 300, N_SAMPLES + 800)];
    let wins = vad_audio_windows(&segs);
    assert!(all_speech_covered(&segs, &wins));
}

#[test]
fn coverage_many_small_segments_spanning_multiple_windows() {
    let segs: Vec<VadSegment> = (0..200).map(|i| seg(i * 1000, i * 1000 + 100)).collect();
    let wins = vad_audio_windows(&segs);
    assert!(all_speech_covered(&segs, &wins));
}

#[test]
fn coverage_segments_spanning_three_windows() {
    // Three consecutive 35-second segments: forces 6 windows total.
    let s = 16000usize * 35;
    let segs = vec![
        seg(0, s),
        seg(s + 500, 2 * s + 500),
        seg(2 * s + 1000, 3 * s + 1000),
    ];
    let wins = vad_audio_windows(&segs);
    assert!(
        all_speech_covered(&segs, &wins),
        "three 35-second segments not fully covered"
    );
    assert_eq!(wins.len(), 6);
}

#[test]
fn whisper_fixed_windows_cover_audio() {
    let windows = fixed_audio_windows(N_SAMPLES + 10);
    assert_eq!(windows.len(), 2);
    assert_eq!(windows[0].start_sample, 0);
    assert_eq!(windows[0].end_sample, N_SAMPLES);
    assert_eq!(windows[1].start_sample, N_SAMPLES);
    assert_eq!(windows[1].end_sample, N_SAMPLES + 10);
}

#[test]
fn whisper_vad_windows_split_long_segments() {
    let vad_segments = vec![VadSegment { start_sample: 100, end_sample: 100 + N_SAMPLES + 20 }];
    let windows = vad_audio_windows(&vad_segments);
    assert_eq!(windows.len(), 2);
    assert_eq!(windows[0].start_sample, 100);
    assert_eq!(windows[0].end_sample, 100 + N_SAMPLES);
    assert_eq!(windows[1].end_sample, 100 + N_SAMPLES + 20);
}

#[test]
fn whisper_vad_with_no_speech_has_no_windows() {
    assert!(vad_audio_windows(&[]).is_empty());
}

#[test]
fn vad_windows_accumulates_short_segments() {
    // Two 5-second segments separated by 2 seconds of silence
    // Combined (0-12s) should fit in one 30s window.
    let vad_segments = vec![
        VadSegment { start_sample: 0, end_sample: 16000 * 5 },
        VadSegment { start_sample: 16000 * 7, end_sample: 16000 * 12 },
    ];
    let windows = vad_audio_windows(&vad_segments);
    assert_eq!(windows.len(), 1);
    assert_eq!(windows[0].start_sample, 0);
    assert_eq!(windows[0].end_sample, 16000 * 12);
}

#[test]
fn vad_windows_splits_long_segments_correctly() {
    // One 35-second segment should result in two windows.
    let vad_segments = vec![VadSegment { start_sample: 0, end_sample: 16000 * 35 }];
    let windows = vad_audio_windows(&vad_segments);
    assert_eq!(windows.len(), 2);
    assert_eq!(windows[0].start_sample, 0);
    assert_eq!(windows[0].end_sample, N_SAMPLES);
    assert_eq!(windows[1].start_sample, N_SAMPLES);
    assert_eq!(windows[1].end_sample, 16000 * 35);
}

#[test]
fn vad_speech_duration_packing_ignores_inter_segment_silence() {
    let ten_s = 16000 * 10;
    let segs = vec![seg(0, ten_s), seg(16000 * 35, 16000 * 35 + ten_s)];
    let wins = vad_audio_windows(&segs);
    assert!(
        all_speech_covered(&segs, &wins),
        "speech not covered with speech-duration packing"
    );
    // Each window must not exceed N_SAMPLES.
    for w in &wins {
        assert!(w.end_sample - w.start_sample <= N_SAMPLES, "window exceeds N_SAMPLES");
    }
}

#[test]
fn vad_speech_budget_triggers_split_before_wallclock() {
    let seg_speech = N_SAMPLES / 4; // 7.5s each
    let seg_gap = 1000; // tiny gap between them
    let segs: Vec<VadSegment> = (0..5)
        .map(|i| {
            let start = i * (seg_speech + seg_gap);
            seg(start, start + seg_speech)
        })
        .collect();
    let wins = vad_audio_windows(&segs);
    // 5 * 7.5s = 37.5s of speech, so must be at least 2 windows.
    assert!(wins.len() >= 2, "expected split on speech budget");
    for w in &wins {
        assert!(w.end_sample - w.start_sample <= N_SAMPLES);
    }
    assert!(all_speech_covered(&segs, &wins));
}

#[test]
fn whisper_timestamp_tokens_are_20ms_steps() {
    let sec = |token: u32, begin: u32| timestamp_token_steps(token, begin) as f32 * 0.02;
    assert_eq!(sec(50364, 50364), 0.0);
    assert!((sec(50369, 50364) - 0.1).abs() < 0.0001);
}

#[test]
fn windows_are_numbered_from_zero() {
    let fixed = transcription_windows(2 * N_SAMPLES + 1, &[]);
    assert_eq!(fixed.len(), 3);
    for (i, window) in fixed.iter().enumerate() {
        assert_eq!(window.index, i);
    }
    let around_speech = transcription_windows(5 * N_SAMPLES, &[seg(10, 20)]);
    assert_eq!(around_speech.len(), 1);
    assert_eq!(around_speech[0].start_sample, 10);
    assert_eq!(around_speech[0].end_sample, 20);
    assert!(transcription_windows(0, &[]).is_empty());
}

#[test]
fn timestamps_end_runs_of_text() {
    let (runs, rest) = token_runs(&[50364, 1, 2, 50374, 50380, 3, 50370, 4], 50364);
    assert_eq!(runs.len(), 2);
    assert_eq!(runs[0].start, 0);
    assert_eq!(runs[0].end, TimeMark::Step { steps: 10 });
    assert_eq!(runs[0].tokens, vec![1, 2]);
    assert_eq!(runs[1].start, 16);
    // A timestamp before the run's start ends the run where it starts.
    assert_eq!(runs[1].end, TimeMark::Step { steps: 16 });
    let rest = rest.unwrap();
    assert_eq!(rest.start, 6);
    assert_eq!(rest.end, TimeMark::WindowEndOrStep { steps: 6 });
    assert_eq!(rest.tokens, vec![4]);
}

#[test]
fn segments_that_go_back_cannot_be_grouped() {
    assert!(can_be_grouped(&[]));
    assert!(can_be_grouped(&[seg(0, 100), seg(10, 50)]));
    assert!(can_be_grouped(&[seg(500, 600), seg(0, N_SAMPLES + 1), seg(1, 2)]));
    assert!(!can_be_grouped(&[seg(10, 5)]));
    assert!(!can_be_grouped(&[seg(500, 600), seg(0, 100)]));
}
