//! The dimensions of the supported models.
use vstd::prelude::*;

verus! {

/// The dimensions of a model.
pub trait WhisperSpec {
    /// Mel bands of the frontend.
    const MEL_BINS: usize;
    /// Mel frames of a window.
    const FRAMES: usize;
    /// Steps of the encoder's output.
    const ENC_SEQ: usize;
    /// Width of the encoder's output.
    const HIDDEN: usize;
    /// Decoder layers.
    const N_LAYERS: usize;
    /// Attention heads.
    const N_HEADS: usize;
    /// Numbers per head.
    const D_HEAD: usize;
    /// Steps that the self-attention cache holds.
    const T_CACHE: usize;
    /// Tokens of the vocabulary.
    const VOCAB: usize;
    /// The end-of-text token.
    const TOKEN_EOT: u32;
}

/// Whisper tiny.
pub struct WhisperTiny;

impl WhisperSpec for WhisperTiny {
    const MEL_BINS: usize = 80;
    const FRAMES: usize = 3000;
    const ENC_SEQ: usize = 1500;
    const HIDDEN: usize = 384;
    const N_LAYERS: usize = 4;
    const N_HEADS: usize = 6;
    const D_HEAD: usize = 64;
    const T_CACHE: usize = 448;
    const VOCAB: usize = 51865;
    const TOKEN_EOT: u32 = 50257;
}

/// Whisper base.
pub struct WhisperBase;

impl WhisperSpec for WhisperBase {
    const MEL_BINS: usize = 80;
    const FRAMES: usize = 3000;
    const ENC_SEQ: usize = 1500;
    const HIDDEN: usize = 512;
    const N_LAYERS: usize = 6;
    const N_HEADS: usize = 8;
    const D_HEAD: usize = 64;
    const T_CACHE: usize = 448;
    const VOCAB: usize = 51865;
    const TOKEN_EOT: u32 = 50257;
}

/// Whisper large-v3-turbo.
pub struct WhisperLargeV3Turbo;

impl WhisperSpec for WhisperLargeV3Turbo {
    const MEL_BINS: usize = 128;
    const FRAMES: usize = 3000;
    const ENC_SEQ: usize = 1500;
    const HIDDEN: usize = 1280;
    const N_LAYERS: usize = 4;
    const N_HEADS: usize = 20;
    const D_HEAD: usize = 64;
    const T_CACHE: usize = 400;
    const VOCAB: usize = 51866;
    const TOKEN_EOT: u32 = 50257;
}

/// Whisper medium.
pub struct WhisperMedium;

impl WhisperSpec for WhisperMedium {
    const MEL_BINS: usize = 80;
    const FRAMES: usize = 3000;
    const ENC_SEQ: usize = 1500;
    const HIDDEN: usize = 1024;
    const N_LAYERS: usize = 24;
    const N_HEADS: usize = 16;
    const D_HEAD: usize = 64;
    const T_CACHE: usize = 448;
    const VOCAB: usize = 51865;
    const TOKEN_EOT: u32 = 50257;
}

/// Whisper small.
pub struct WhisperSmall;

impl WhisperSpec for WhisperSmall {
    const MEL_BINS: usize = 80;
    const FRAMES: usize = 3000;
    const ENC_SEQ: usize = 1500;
    const HIDDEN: usize = 768;
    const N_LAYERS: usize = 12;
    const N_HEADS: usize = 12;
    const D_HEAD: usize = 64;
    const T_CACHE: usize = 448;
    const VOCAB: usize = 51865;
    const TOKEN_EOT: u32 = 50257;
}

/// How many groups of eight a number of channels needs.
pub open spec fn groups_of_eight(channels: int) -> int {
    (channels + 7) / 8
}

/// Numbers in a tensor of `channels` by `height` by `width`, with the channels in groups of eight.
pub open spec fn nc1hwc2_size(channels: int, height: int, width: int) -> int {
    groups_of_eight(channels) * height * width * 8
}

/// True of dimensions whose tensors have a size that memory can hold.
pub open spec fn fits<S: WhisperSpec>() -> bool {
    &&& S::T_CACHE > 0
    &&& S::D_HEAD > 0
    &&& S::N_HEADS > 0
    &&& S::N_HEADS <= 0xffff
    &&& S::D_HEAD <= 0xffff
    &&& S::N_LAYERS <= 0xffff
    &&& S::ENC_SEQ <= 0xffff
    &&& S::T_CACHE <= 0xffff
    &&& nc1hwc2_size(S::N_HEADS as int, S::T_CACHE as int, S::D_HEAD as int) <= usize::MAX
    &&& nc1hwc2_size(S::ENC_SEQ as int, S::N_HEADS as int, S::D_HEAD as int) <= usize::MAX
    &&& S::ENC_SEQ * S::N_HEADS * S::D_HEAD <= usize::MAX
    &&& S::MEL_BINS * S::FRAMES <= usize::MAX
    &&& S::ENC_SEQ * S::HIDDEN <= usize::MAX
}

/// All supported models fit.
pub proof fn supported_models_fit()
    ensures
        fits::<WhisperTiny>(),
        fits::<WhisperBase>(),
        fits::<WhisperSmall>(),
        fits::<WhisperMedium>(),
        fits::<WhisperLargeV3Turbo>(),
{
}

} // verus!
