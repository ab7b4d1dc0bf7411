use rkwhisper::float_bits::F32;
use rkwhisper::vad::{
    chunk_bounds, ms_to_samples, pad_window, segments_from_probs, VadConfig, VadSegment,
};

fn f(value: f32) -> F32 {
    F32::from_bits(value.to_bits())
}

fn config(speech: u32, silence: u32, pad: u32, window_samples: usize) -> VadConfig {
    VadConfig {
        threshold: f(0.5),
        min_speech_ms: speech,
        min_silence_ms: silence,
        speech_pad_ms: pad,
        window_samples,
    }
}

fn segments(audio_len: usize, probs: &[(usize, f32)], config: &VadConfig) -> Vec<VadSegment> {
    let probs: Vec<(usize, F32)> = probs.iter().map(|&(start, p)| (start, f(p))).collect();
    segments_from_probs(audio_len, &probs, config)
}

#[test]
fn merges_speech_across_short_silence_and_adds_padding() {
    let config = config(10, 100, 10, 160);
    let probs = vec![
        (0, 0.0),
        (160, 0.9),
        (320, 0.0),
        (480, 0.8),
        (640, 0.0),
        (2400, 0.0),
    ];
    let segments = segments(3200, &probs, &config);
    assert_eq!(segments.len(), 1);
    assert_eq!(segments[0].start_sample, 0);
    assert_eq!(segments[0].end_sample, 800);
}

#[test]
fn drops_short_speech() {
    let config = config(100, 10, 0, 160);
    let probs = vec![(0, 0.9), (160, 0.0), (320, 0.0)];
    let segments = segments(1000, &probs, &config);
    assert!(segments.is_empty());
}

#[test]
fn captures_speech_at_end_of_audio_with_no_trailing_silence() {
    let config = config(10, 100, 0, 160);
    let probs = vec![(0, 0.0), (160, 0.9), (320, 0.9)];
    let audio_len = 480;
    let segments = segments(audio_len, &probs, &config);
    assert_eq!(segments.len(), 1);
    assert_eq!(segments[0].start_sample, 160);
    assert_eq!(segments[0].end_sample, audio_len);
}

#[test]
fn captures_single_speech_window_at_start() {
    let config = config(10, 200, 0, 512);
    let probs = vec![(0, 0.9), (512, 0.0), (1024, 0.0), (1536, 0.0), (2048, 0.0)];
    let audio_len = 2560;
    let segments = segments(audio_len, &probs, &config);
    assert_eq!(segments.len(), 1);
    assert_eq!(segments[0].start_sample, 0);
    assert_eq!(segments[0].end_sample, 512);
}

#[test]
fn captures_speech_only_in_last_window() {
    let config = config(10, 100, 0, 512);
    let audio_len = 512;
    let probs = vec![(0, 0.9)];
    let segments = segments(audio_len, &probs, &config);
    assert_eq!(segments.len(), 1);
    assert_eq!(segments[0].start_sample, 0);
    assert_eq!(segments[0].end_sample, 512);
}

#[test]
fn two_speech_bursts_separated_by_exact_min_silence() {
    let config = config(10, 100, 0, 512);
    let probs = vec![
        (0, 0.9),
        (512, 0.0),
        (1024, 0.0),
        (1536, 0.0),
        (2048, 0.0),
        (2560, 0.0),
        (3072, 0.9),
        (3584, 0.0),
        (4096, 0.0),
        (4608, 0.0),
        (5120, 0.0),
        (5632, 0.0),
    ];
    let audio_len = 6144;
    let segments = segments(audio_len, &probs, &config);
    assert_eq!(segments.len(), 2, "expected two separate speech segments");
    assert_eq!(segments[0].start_sample, 0);
    assert_eq!(segments[0].end_sample, 512);
    assert_eq!(segments[1].start_sample, 3072);
    assert_eq!(segments[1].end_sample, 3584);
}

#[test]
fn default_detector_settings() {
    let config = VadConfig::default();
    assert_eq!(f32::from_bits(config.threshold.bits), 0.5);
    assert_eq!(config.min_speech_ms, 250);
    assert_eq!(config.min_silence_ms, 100);
    assert_eq!(config.speech_pad_ms, 100);
    assert_eq!(config.window_samples, 512);
}

#[test]
fn milliseconds_are_sixteen_samples() {
    assert_eq!(ms_to_samples(0), 0);
    assert_eq!(ms_to_samples(1), 16);
    assert_eq!(ms_to_samples(250), 4000);
    assert_eq!(ms_to_samples(u32::MAX), 68_719_476_720);
}

#[test]
fn probability_at_the_threshold_is_speech() {
    let config = config(0, 0, 0, 100);
    let found = segments(300, &[(0, 0.49), (100, 0.5), (200, f32::NAN)], &config);
    assert_eq!(found, vec![VadSegment { start_sample: 100, end_sample: 200 }]);
}

#[test]
fn padded_segments_that_touch_are_joined() {
    let config = config(0, 10, 10, 160);
    let probs = [(0, 0.9), (160, 0.0), (320, 0.0), (480, 0.9), (640, 0.0)];
    let found = segments(1600, &probs, &config);
    assert_eq!(found, vec![VadSegment { start_sample: 0, end_sample: 800 }]);
}

#[test]
fn segments_lie_inside_the_audio_and_apart() {
    let config = config(0, 10, 5, 160);
    let probs: Vec<(usize, f32)> =
        (0..50).map(|i| (i * 160, if i % 7 < 2 { 0.8 } else { 0.1 })).collect();
    let found = segments(8000, &probs, &config);
    assert!(found.len() > 1);
    for pair in found.windows(2) {
        assert!(pair[0].end_sample < pair[1].start_sample);
    }
    for segment in &found {
        assert!(segment.start_sample <= segment.end_sample && segment.end_sample <= 8000);
    }
    for (start, p) in &probs {
        if *p >= 0.5 {
            assert!(found.iter().any(|s| s.start_sample <= *start && start + 160 <= s.end_sample));
        }
    }
}

#[test]
fn pieces_cover_a_length() {
    assert_eq!(chunk_bounds(1100, 512), vec![(0, 512), (512, 1024), (1024, 1100)]);
    assert_eq!(chunk_bounds(1024, 512), vec![(0, 512), (512, 1024)]);
    assert!(chunk_bounds(0, 512).is_empty());
}

#[test]
fn short_detector_windows_are_padded_with_zeros() {
    let padded = pad_window(&[f(1.0), f(2.0)], 4);
    assert_eq!(padded, vec![f(1.0), f(2.0), f(0.0), f(0.0)]);
    assert_eq!(pad_window(&[f(1.0), f(2.0)], 1), vec![f(1.0)]);
}

#[test]
fn lower_threshold_keeps_speech() {
    let probs = [(0, 0.2), (160, 0.6), (320, 0.4), (480, 0.7), (640, 0.1), (800, 0.45), (960, 0.1)];
    let inside = |sample: usize, found: &[VadSegment]| {
        found.iter().any(|s| s.start_sample <= sample && sample < s.end_sample)
    };
    let high = segments(1120, &probs, &config(10, 5, 1, 160));
    let low = segments(1120, &probs, &VadConfig { threshold: f(0.4), ..config(10, 5, 1, 160) });
    assert_ne!(high, low);
    for sample in 0..1120 {
        assert!(!inside(sample, &high) || inside(sample, &low));
    }
}
