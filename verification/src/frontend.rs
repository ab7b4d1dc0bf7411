//! The audio frontend: which WAV files are read, and how samples are laid out for the mel model.
use vstd::prelude::*;

use crate::float_bits::F32;
use crate::grid::{in_grid, position, row_and_column, row_in_grid};
use crate::text::{decimal, with_number, with_text};
use crate::vad::pad_window;
use crate::N_SAMPLES;

verus! {

/// Why a WAV file is not read.
#[derive(Clone, Copy, Debug, PartialEq, Eq, Structural)]
pub enum WavError {
    /// It has more than one channel.
    NotMono { channels: u16 },
    /// It has another sample rate than 16 kHz.
    WrongSampleRate { sample_rate: u32 },
    /// Its whole-number samples have a size that is not known.
    UnsupportedBitDepth { bits: u16 },
}

impl WavError {
    /// What the error says.
    pub open spec fn spec_message(self) -> Seq<char> {
        match self {
            WavError::NotMono { channels } => "Expected mono audio, got "@ + decimal(
                channels as nat,
            ) + " channels"@,
            WavError::WrongSampleRate { sample_rate } => "Expected 16 kHz sample rate, got "@
                + decimal(sample_rate as nat),
            WavError::UnsupportedBitDepth { bits } => "unsupported PCM bit depth: "@ + decimal(
                bits as nat,
            ),
        }
    }

    /// What the error says.
    pub fn message(&self) -> (text: String)
        ensures
            text@ == self.spec_message(),
    {
        match self {
            WavError::NotMono { channels } => with_text(
                with_number("Expected mono audio, got ", *channels as u64).as_str(),
                " channels",
            ),
            WavError::WrongSampleRate { sample_rate } => with_number(
                "Expected 16 kHz sample rate, got ",
                *sample_rate as u64,
            ),
            WavError::UnsupportedBitDepth { bits } => with_number(
                "unsupported PCM bit depth: ",
                *bits as u64,
            ),
        }
    }
}

/// The greatest whole-number sample of a size.
pub open spec fn full_scale(bits: u16) -> Option<u32> {
    if bits == 8 {
        Some(127)
    } else if bits == 16 {
        Some(32_767)
    } else if bits == 24 {
        Some(8_388_607)
    } else if bits == 32 {
        Some(2_147_483_647)
    } else {
        None
    }
}

/// Checks that a WAV file holds mono audio at 16 kHz, and tells what its samples are divided by once
/// they are bounded: the greatest sample for whole numbers, nothing for floating-point ones.
pub fn wav_scale(channels: u16, sample_rate: u32, float_samples: bool, bits: u16) -> (out: Result<
    Option<u32>,
    WavError,
>)
    ensures
        out == (if channels != 1 {
            Err(WavError::NotMono { channels })
        } else if sample_rate != 16_000 {
            Err(WavError::WrongSampleRate { sample_rate })
        } else if float_samples {
            Ok(None)
        } else {
            match full_scale(bits) {
                Some(scale) => Ok(Some(scale)),
                None => Err(WavError::UnsupportedBitDepth { bits }),
            }
        }),
{
    if channels != 1 {
        return Err(WavError::NotMono { channels });
    }
    if sample_rate != 16_000 {
        return Err(WavError::WrongSampleRate { sample_rate });
    }
    if float_samples {
        return Ok(None);
    }
    if bits == 8 {
        Ok(Some(127))
    } else if bits == 16 {
        Ok(Some(32_767))
    } else if bits == 24 {
        Ok(Some(8_388_607))
    } else if bits == 32 {
        Ok(Some(2_147_483_647))
    } else {
        Err(WavError::UnsupportedBitDepth { bits })
    }
}

/// A whole-number sample as it is divided by `scale`: the least sample of a size, which is larger
/// than the greatest one, is raised so that the quotient is not below -1.
pub fn bounded_sample(sample: i32, scale: u32) -> (out: i32)
    requires
        0 < scale <= 0x7fff_ffff,
    ensures
        out == (if sample < -(scale as int) {
            -(scale as int)
        } else {
            sample as int
        }),
{
    let least: i32 = -(scale as i32);
    if sample < least {
        least
    } else {
        sample
    }
}

/// Whole-number samples are normalized: a sample of a size that a file can have, once it is bounded,
/// is no larger than what it is divided by, so that the quotient lies between -1 and 1.
pub proof fn samples_are_normalized(bits: u16, scale: u32, sample: int, bounded: int)
    requires
        full_scale(bits) == Some(scale),
        -(scale + 1) <= sample <= scale,
        bounded == (if sample < -(scale as int) {
            -(scale as int)
        } else {
            sample
        }),
    ensures
        0 < scale <= 0x7fff_ffff,
        -(scale as int) <= bounded <= scale,
        sample >= -(scale as int) ==> bounded == sample,
{
}

/// Samples that are mirrored in front of and behind the audio.
pub const REFLECT_PAD: usize = 200;
/// Channels of the polyphase layout.
pub const POLYPHASE_CHANNELS: usize = 80;

/// The length of the padded audio: both pads, filled up to whole groups of channels.
pub open spec fn padded_len(n: int) -> int {
    (n + 2 * REFLECT_PAD + POLYPHASE_CHANNELS - 1) / (POLYPHASE_CHANNELS as int)
        * POLYPHASE_CHANNELS
}

/// Sample `i` of the padded audio: the beginning mirrored at the first sample, the audio, the end
/// mirrored at the last sample, then zeros. Where the audio is too short to be mirrored, its last
/// sample stands in front and its first one behind.
pub open spec fn padded_sample(input: Seq<F32>, i: int) -> F32 {
    let n = input.len() as int;
    if i < REFLECT_PAD {
        let back = REFLECT_PAD - i;
        if back < n {
            input[back]
        } else {
            input[n - 1]
        }
    } else if i < REFLECT_PAD + n {
        input[i - REFLECT_PAD]
    } else if i < REFLECT_PAD + n + REFLECT_PAD {
        let k = i - REFLECT_PAD - n;
        if n > 1 + k {
            input[n - 2 - k]
        } else {
            input[0]
        }
    } else {
        F32 { bits: 0 }
    }
}

/// The polyphase layout of audio: channel `c` holds every eightieth sample of the padded audio,
/// from sample `c` on, and the channels stand one behind the other.
pub open spec fn polyphase(input: Seq<F32>) -> Seq<F32> {
    let len = padded_len(input.len() as int);
    let steps = len / (POLYPHASE_CHANNELS as int);
    Seq::new(
        len as nat,
        |j: int| padded_sample(input, (j % steps) * POLYPHASE_CHANNELS + j / steps),
    )
}

/// Sample `i` of the padded audio.
fn padded_at(input: &[F32], i: usize) -> (sample: F32)
    requires
        input@.len() > 0,
        input@.len() + 2 * REFLECT_PAD + POLYPHASE_CHANNELS <= usize::MAX,
    ensures
        sample == padded_sample(input@, i as int),
{
    let n: usize = input.len();
    if i < REFLECT_PAD {
        let back: usize = REFLECT_PAD - i;
        if back < n {
            input[back]
        } else {
            input[n - 1]
        }
    } else if i < REFLECT_PAD + n {
        input[i - REFLECT_PAD]
    } else if i < REFLECT_PAD + n + REFLECT_PAD {
        let k: usize = i - REFLECT_PAD - n;
        if n > 1 + k {
            input[n - 2 - k]
        } else {
            input[0]
        }
    } else {
        F32 { bits: 0 }
    }
}

/// Pads audio by mirroring, fills it up to a multiple of 80 samples, and lays it out in 80 channels.
pub fn polyphase_pre_process(input: &[F32]) -> (output: Vec<F32>)
    requires
        input@.len() > 0,
        input@.len() + 2 * REFLECT_PAD + POLYPHASE_CHANNELS <= usize::MAX,
    ensures
        output@ == polyphase(input@),
{
    let wanted: usize = REFLECT_PAD + input.len() + REFLECT_PAD;
    let rem: usize = wanted % POLYPHASE_CHANNELS;
    let align_pad: usize = if rem > 0 {
        POLYPHASE_CHANNELS - rem
    } else {
        0
    };
    let len: usize = wanted + align_pad;
    let steps: usize = len / POLYPHASE_CHANNELS;
    assert(len == padded_len(input@.len() as int));
    let mut output: Vec<F32> = Vec::new();
    let mut c: usize = 0;
    while c < POLYPHASE_CHANNELS
        invariant
            c <= POLYPHASE_CHANNELS,
            input@.len() > 0,
            input@.len() + 2 * REFLECT_PAD + POLYPHASE_CHANNELS <= usize::MAX,
            len == padded_len(input@.len() as int),
            steps == len / POLYPHASE_CHANNELS,
            len == steps * POLYPHASE_CHANNELS,
            output@.len() == c * steps,
            forall|j: int| 0 <= j < output@.len() ==> #[trigger] output@[j] == polyphase(input@)[j],
        decreases POLYPHASE_CHANNELS - c,
    {
        let mut t: usize = 0;
        while t < steps
            invariant
                t <= steps,
                c < POLYPHASE_CHANNELS,
                input@.len() > 0,
                input@.len() + 2 * REFLECT_PAD + POLYPHASE_CHANNELS <= usize::MAX,
                len == padded_len(input@.len() as int),
                steps == len / POLYPHASE_CHANNELS,
                len == steps * POLYPHASE_CHANNELS,
                output@.len() == c * steps + t,
                forall|j: int|
                    0 <= j < output@.len() ==> #[trigger] output@[j] == polyphase(input@)[j],
            decreases steps - t,
        {
            proof {
                let s = steps as int;
                in_grid(t as int, c as int, s, POLYPHASE_CHANNELS as int);
                in_grid(c as int, t as int, POLYPHASE_CHANNELS as int, s);
                row_and_column(c as int, t as int, s);
                assert(s * 80 == 80 * s) by (nonlinear_arith);
            }
            output.push(padded_at(input, t * POLYPHASE_CHANNELS + c));
            t = t + 1;
        }
        proof {
            let s = steps as int;
            let cc = c as int;
            assert((cc + 1) * s == cc * s + s) by (nonlinear_arith);
        }
        c = c + 1;
    }
    proof {
        let s = steps as int;
        assert(80 * s == s * 80) by (nonlinear_arith);
    }
    assert(output@ =~= polyphase(input@));
    output
}

/// The polyphase layout loses nothing: each padded sample stands in its channel at its step.
pub proof fn polyphase_keeps_all(input: Seq<F32>, i: int)
    requires
        0 <= i < padded_len(input.len() as int),
    ensures
        ({
            let steps = padded_len(input.len() as int) / (POLYPHASE_CHANNELS as int);
            let channel = i % (POLYPHASE_CHANNELS as int);
            let step = i / (POLYPHASE_CHANNELS as int);
            &&& 0 <= channel * steps + step < padded_len(input.len() as int)
            &&& polyphase(input)[channel * steps + step] == padded_sample(input, i)
        }),
{
    let len = padded_len(input.len() as int);
    let steps = len / 80;
    assert(len == steps * 80);
    row_in_grid(i, steps, 80);
    position(i, 80);
    in_grid(i % 80, i / 80, 80, steps);
    row_and_column(i % 80, i / 80, steps);
    assert(80 * steps == steps * 80) by (nonlinear_arith);
}

/// The samples of a window, filled up with zeros to thirty seconds and laid out for the mel model.
pub fn mel_input(audio: &[F32]) -> (wave: Vec<F32>)
    requires
        audio@.len() <= N_SAMPLES,
    ensures
        wave@ == polyphase(
            Seq::new(
                N_SAMPLES as nat,
                |i: int|
                    if i < audio@.len() {
                        audio@[i]
                    } else {
                        (F32 { bits: 0 })
                    },
            ),
        ),
{
    let padded = pad_window(audio, N_SAMPLES);
    assert(padded@ =~= Seq::new(
        N_SAMPLES as nat,
        |i: int|
            if i < audio@.len() {
                audio@[i]
            } else {
                (F32 { bits: 0 })
            },
    ));
    polyphase_pre_process(padded.as_slice())
}

} // verus!
