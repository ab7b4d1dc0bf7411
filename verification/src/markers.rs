//! Types that carry units and shapes.
use std::marker::PhantomData;
use vstd::prelude::*;

use crate::float_bits::F32;

verus! {

/// A frequency.
pub struct Hz<const N: u32>;

/// A number of mel bands.
pub struct MelBands<const M: usize>;

/// A number of frames.
pub struct Frames<const T: usize>;

/// A number of seconds.
pub struct Sec<const S: u32>;

/// One channel.
pub struct Mono;

/// Audio of a sample rate.
pub struct SampleRate<const N: u32>(pub PhantomData<Hz<N>>);

/// Audio with channels.
#[verifier::reject_recursive_types(C)]
pub struct Channels<C>(pub PhantomData<C>);

/// 16 kHz.
pub type SR16K = SampleRate<16_000>;

/// Samples with their rate and channels in the type.
#[verifier::reject_recursive_types(C)]
pub struct Audio<const S: u32, C> {
    pub pcm: Vec<F32>,
    pub sr: SampleRate<S>,
    pub ch: Channels<C>,
}

impl<const S: u32, C> Audio<S, C> {
    /// Samples of a rate and channels.
    pub fn new(pcm: Vec<F32>) -> (audio: Audio<S, C>)
        ensures
            audio.pcm == pcm,
    {
        Audio { pcm, sr: SampleRate(PhantomData), ch: Channels(PhantomData) }
    }
}

/// A log-mel spectrogram, band by band.
pub struct LogMel<const M: usize, const T: usize> {
    pub data: Vec<F32>,
    pub mel: PhantomData<MelBands<M>>,
    pub frames: PhantomData<Frames<T>>,
}

/// What goes into the encoder.
pub struct EncoderIn<const M: usize, const T: usize>(pub LogMel<M, T>);

/// What comes out of the encoder, step by step.
pub struct EncoderOut<const S: usize, const H: usize> {
    pub data: Vec<F32>,
}

/// Logits, step by step.
pub struct Logits<const S: usize, const VOCAB_SIZE: usize> {
    pub data: Vec<F32>,
}

} // verus!
