use vstd::prelude::*;

pub mod beam;
pub mod cache;
pub mod client;
pub mod daemon;
pub mod daemon_stream;
pub mod decoder;
pub mod decoding_laws;
pub mod float_bits;
pub mod format_laws;
pub mod frontend;
pub mod grid;
pub mod layout_laws;
pub mod live_jobs;
pub mod live_laws;
pub mod markers;
pub mod parallel;
pub mod protocol;
pub mod protocol_fields;
pub mod protocol_laws;
pub mod ring;
pub mod scheduler;
pub mod service_laws;
pub mod session;
pub mod spec;
pub mod suppression;
pub mod text;
pub mod token_decoders;
pub mod tokens;
pub mod vad;
pub mod vad_laws;
pub mod whisper;
pub mod window_laws;
pub mod window_pass;
pub mod windows;
pub mod wire;

verus! {

/// Samples per second of all audio that is handled.
pub const SAMPLE_RATE: u32 = 16_000;
/// Samples in one encoder window: thirty seconds.
pub const N_SAMPLES: usize = 480_000;
/// Samples of one Fourier frame.
pub const N_FFT: usize = 400;
/// Samples between Fourier frames.
pub const HOP_LENGTH: usize = 160;
/// Mel bands.
pub const N_MELS: usize = 80;
/// Mel frames of a window.
pub const N_FRAMES: usize = 3000;
/// Samples of a window with half a Fourier frame on each side.
pub const TARGET: usize = 480_400;

} // verus!
