//! Voice activity: from speech probabilities of short windows to segments of speech.
use vstd::prelude::*;

use crate::float_bits::F32;

verus! {

/// Numbers in the detector's recurrent state.
pub const VAD_STATE_LEN: usize = 256;

/// How probabilities become segments.
#[derive(Clone, Copy, Debug, PartialEq, Eq, Structural)]
pub struct VadConfig {
    pub threshold: F32,
    pub min_speech_ms: u32,
    pub min_silence_ms: u32,
    pub speech_pad_ms: u32,
    pub window_samples: usize,
}

impl Default for VadConfig {
    /// A threshold of one half, at least 250 ms of speech, 100 ms of silence and of padding, and
    /// windows of 512 samples.
    fn default() -> (config: VadConfig)
        ensures
            config.threshold.bits == 0x3f00_0000,
            config.min_speech_ms == 250,
            config.min_silence_ms == 100,
            config.speech_pad_ms == 100,
            config.window_samples == 512,
    {
        VadConfig {
            threshold: F32 { bits: 0x3f00_0000 },
            min_speech_ms: 250,
            min_silence_ms: 100,
            speech_pad_ms: 100,
            window_samples: 512,
        }
    }
}

/// A run of samples that hold speech.
#[derive(Clone, Copy, Debug, PartialEq, Eq, Structural)]
pub struct VadSegment {
    pub start_sample: usize,
    pub end_sample: usize,
}

/// The smaller of two numbers.
pub open spec fn least(a: int, b: int) -> int {
    if a <= b {
        a
    } else {
        b
    }
}

/// The greater of two numbers.
pub open spec fn greatest(a: int, b: int) -> int {
    if a >= b {
        a
    } else {
        b
    }
}

/// The samples in a number of milliseconds at 16 kHz.
pub open spec fn samples_in_ms(ms: int) -> int {
    ms * 16_000 / 1000
}

/// The samples in a number of milliseconds.
pub fn ms_to_samples(ms: u32) -> (samples: u64)
    ensures
        samples == samples_in_ms(ms as int),
{
    (ms as u64) * 16_000 / 1000
}

/// How many pieces of at most `size` a length has.
pub open spec fn chunk_count(len: int, size: int) -> int {
    (len + size - 1) / size
}

/// Piece `i` of a length: where it starts and ends. All pieces but the last have `size`.
pub open spec fn chunk(len: int, size: int, i: int) -> (int, int) {
    (i * size, least(i * size + size, len))
}

/// Cuts a length into pieces of `size`, from the start; the last piece may be shorter.
pub fn chunk_bounds(len: usize, size: usize) -> (chunks: Vec<(usize, usize)>)
    requires
        size > 0,
    ensures
        chunks@.len() == chunk_count(len as int, size as int),
        forall|i: int|
            0 <= i < chunks@.len() ==> (#[trigger] chunks@[i]).0 == chunk(
                len as int,
                size as int,
                i,
            ).0 && chunks@[i].1 == chunk(len as int, size as int, i).1,
{
    let mut chunks: Vec<(usize, usize)> = Vec::new();
    let mut start: usize = 0;
    proof {
        let sz = size as int;
        assert(0 * sz == 0) by (nonlinear_arith);
        if len == 0 {
            lemma_chunk_count(0, sz, 0);
        }
    }
    while start < len
        invariant
            size > 0,
            start <= len,
            start < len ==> start == chunks@.len() * size,
            start == len ==> chunks@.len() == chunk_count(len as int, size as int),
            forall|i: int|
                0 <= i < chunks@.len() ==> (#[trigger] chunks@[i]).0 == chunk(
                    len as int,
                    size as int,
                    i,
                ).0 && chunks@[i].1 == chunk(len as int, size as int, i).1,
        decreases len - start,
    {
        let end: usize = if size < len - start {
            start + size
        } else {
            len
        };
        let ghost n = chunks@.len() as int;
        let ghost sz = size as int;
        chunks.push((start, end));
        proof {
            assert((n + 1) * sz == n * sz + sz) by (nonlinear_arith);
            if end == len {
                lemma_chunk_count(len as int, sz, n + 1);
            }
        }
        start = end;
    }
    chunks
}

proof fn lemma_chunk_count(len: int, size: int, n: int)
    requires
        size > 0,
        0 <= n,
        n * size - size < len <= n * size,
    ensures
        chunk_count(len, size) == n,
{
    let r = len + size - 1 - n * size;
    vstd::arithmetic::div_mod::lemma_fundamental_div_mod_converse(len + size - 1, size, n, r);
}

/// A window of exactly `window_samples` samples: cut off, or filled up with zeros.
pub fn pad_window(window: &[F32], window_samples: usize) -> (padded: Vec<F32>)
    ensures
        padded@.len() == window_samples,
        forall|i: int|
            0 <= i < window_samples ==> #[trigger] padded@[i] == (if i < window@.len() {
                window@[i]
            } else {
                (F32 { bits: 0 })
            }),
{
    let mut padded: Vec<F32> = Vec::new();
    let mut i: usize = 0;
    while i < window_samples
        invariant
            i <= window_samples,
            padded@.len() == i,
            forall|j: int|
                0 <= j < i ==> #[trigger] padded@[j] == (if j < window@.len() {
                    window@[j]
                } else {
                    (F32 { bits: 0 })
                }),
        decreases window_samples - i,
    {
        if i < window.len() {
            padded.push(window[i]);
        } else {
            padded.push(F32 { bits: 0 });
        }
        i = i + 1;
    }
    padded
}

////////////////////////////////////////////////////////////////////////////////
// Runs of speech
////////////////////////////////////////////////////////////////////////////////

/// What is known after some windows: the runs that have ended, where the open run began, and
/// where speech was last heard.
pub struct Scan {
    pub runs: Seq<(int, int)>,
    pub open: Option<int>,
    pub last_end: int,
}

/// The runs of speech in the windows of `probs`: a window is speech when its probability reaches
/// the threshold, and a run ends at a window without speech that starts `min_silence` samples or
/// more behind the run's last speech.
pub open spec fn scan(
    probs: Seq<(usize, F32)>,
    audio_len: int,
    window_samples: int,
    threshold: F32,
    min_silence: int,
) -> Scan
    decreases probs.len(),
{
    if probs.len() == 0 {
        Scan { runs: Seq::empty(), open: None, last_end: 0 }
    } else {
        let before = scan(probs.drop_last(), audio_len, window_samples, threshold, min_silence);
        let (start, prob) = probs.last();
        if prob.spec_ge(threshold) {
            Scan {
                runs: before.runs,
                open: Some(
                    match before.open {
                        Some(run) => run,
                        None => start as int,
                    },
                ),
                last_end: least(start + window_samples, audio_len),
            }
        } else if before.open is Some && greatest(start - before.last_end, 0) >= min_silence {
            Scan {
                runs: before.runs.push((before.open->0, before.last_end)),
                open: None,
                last_end: before.last_end,
            }
        } else {
            before
        }
    }
}

/// All runs of a scan; one that is still open ends where speech was last heard.
pub open spec fn all_runs(s: Scan) -> Seq<(int, int)> {
    match s.open {
        Some(run) => s.runs.push((run, greatest(s.last_end, run))),
        None => s.runs,
    }
}

/// The segments that runs lead to: runs shorter than `min_speech` are dropped, the others are
/// widened by `pad` on both sides, and those that then touch the one before are joined to it.
pub open spec fn joined(runs: Seq<(int, int)>, audio_len: int, min_speech: int, pad: int) -> Seq<
    (int, int),
>
    decreases runs.len(),
{
    if runs.len() == 0 {
        Seq::empty()
    } else {
        let before = joined(runs.drop_last(), audio_len, min_speech, pad);
        let (start, end) = runs.last();
        if greatest(end - start, 0) < min_speech {
            before
        } else {
            let wide = (greatest(start - pad, 0), least(end + pad, audio_len));
            if before.len() > 0 && wide.0 <= before.last().1 {
                before.drop_last().push((before.last().0, greatest(before.last().1, wide.1)))
            } else {
                before.push(wide)
            }
        }
    }
}

/// The segments of speech that probabilities lead to.
pub open spec fn speech_segments(audio_len: int, probs: Seq<(usize, F32)>, config: VadConfig) -> Seq<
    (int, int),
> {
    joined(
        all_runs(
            scan(
                probs,
                audio_len,
                config.window_samples as int,
                config.threshold,
                samples_in_ms(config.min_silence_ms as int),
            ),
        ),
        audio_len,
        samples_in_ms(config.min_speech_ms as int),
        samples_in_ms(config.speech_pad_ms as int),
    )
}

/// Segments as pairs of numbers.
pub open spec fn bounds(segments: Seq<VadSegment>) -> Seq<(int, int)> {
    segments.map_values(|s: VadSegment| (s.start_sample as int, s.end_sample as int))
}

/// Pairs as pairs of numbers.
pub open spec fn pair_bounds(pairs: Seq<(usize, usize)>) -> Seq<(int, int)> {
    pairs.map_values(|p: (usize, usize)| (p.0 as int, p.1 as int))
}

/// The runs of speech, before short ones are dropped.
fn speech_runs(audio_len: usize, probs: &[(usize, F32)], config: &VadConfig) -> (runs: Vec<
    (usize, usize),
>)
    ensures
        pair_bounds(runs@) == all_runs(
            scan(
                probs@,
                audio_len as int,
                config.window_samples as int,
                config.threshold,
                samples_in_ms(config.min_silence_ms as int),
            ),
        ),
        forall|i: int| 0 <= i < runs@.len() ==> (#[trigger] runs@[i]).1 <= usize::MAX,
{
    let min_silence: u64 = ms_to_samples(config.min_silence_ms);
    let mut runs: Vec<(usize, usize)> = Vec::new();
    let mut current_start: Option<usize> = None;
    let mut last_speech_end: usize = 0;
    let mut i: usize = 0;
    assert(pair_bounds(runs@) =~= Seq::<(int, int)>::empty());
    while i < probs.len()
        invariant
            i <= probs@.len(),
            min_silence == samples_in_ms(config.min_silence_ms as int),
            ({
                let s = scan(
                    probs@.take(i as int),
                    audio_len as int,
                    config.window_samples as int,
                    config.threshold,
                    min_silence as int,
                );
                &&& s.runs == pair_bounds(runs@)
                &&& s.last_end == last_speech_end
                &&& s.open == (match current_start {
                    Some(start) => Some(start as int),
                    None => None,
                })
            }),
        decreases probs@.len() - i,
    {
        let (start, prob) = probs[i];
        proof {
            assert(probs@.take(i + 1).drop_last() =~= probs@.take(i as int));
        }
        if prob.at_least(config.threshold) {
            if current_start.is_none() {
                current_start = Some(start);
            }
            last_speech_end = if start >= audio_len || config.window_samples >= audio_len - start {
                audio_len
            } else {
                start + config.window_samples
            };
        } else if let Some(segment_start) = current_start {
            let silence: usize = if start > last_speech_end {
                start - last_speech_end
            } else {
                0
            };
            if silence as u64 >= min_silence {
                let ghost before = runs@;
                runs.push((segment_start, last_speech_end));
                assert(pair_bounds(runs@) =~= pair_bounds(before).push(
                    (segment_start as int, last_speech_end as int),
                ));
                current_start = None;
            }
        }
        i = i + 1;
    }
    assert(probs@.take(i as int) =~= probs@);
    if let Some(segment_start) = current_start {
        let end: usize = if last_speech_end > segment_start {
            last_speech_end
        } else {
            segment_start
        };
        let ghost before = runs@;
        runs.push((segment_start, end));
        assert(pair_bounds(runs@) =~= pair_bounds(before).push((segment_start as int, end as int)));
    }
    runs
}

/// The segments of speech that the probabilities of consecutive windows lead to. Each entry of
/// `probs` is the first sample of a window and the probability that it holds speech.
pub fn segments_from_probs(audio_len: usize, probs: &[(usize, F32)], config: &VadConfig) -> (segments:
    Vec<VadSegment>)
    ensures
        bounds(segments@) == speech_segments(audio_len as int, probs@, *config),
{
    let min_speech: u64 = ms_to_samples(config.min_speech_ms);
    let speech_pad: u64 = ms_to_samples(config.speech_pad_ms);
    let runs = speech_runs(audio_len, probs, config);
    let mut merged: Vec<VadSegment> = Vec::new();
    let mut i: usize = 0;
    assert(bounds(merged@) =~= Seq::<(int, int)>::empty());
    while i < runs.len()
        invariant
            i <= runs@.len(),
            min_speech == samples_in_ms(config.min_speech_ms as int),
            speech_pad == samples_in_ms(config.speech_pad_ms as int),
            bounds(merged@) == joined(
                pair_bounds(runs@).take(i as int),
                audio_len as int,
                min_speech as int,
                speech_pad as int,
            ),
        decreases runs@.len() - i,
    {
        let (start, end) = runs[i];
        let ghost before = merged@;
        proof {
            assert(pair_bounds(runs@).take(i + 1).drop_last() =~= pair_bounds(runs@).take(i as int));
        }
        let length: usize = if end > start {
            end - start
        } else {
            0
        };
        if length as u64 >= min_speech {
            let padded_start: usize = if (start as u64) > speech_pad {
                start - speech_pad as usize
            } else {
                0
            };
            let padded_end: usize = if end >= audio_len || speech_pad >= (audio_len - end) as u64 {
                audio_len
            } else {
                end + speech_pad as usize
            };
            let n: usize = merged.len();
            if n > 0 && padded_start <= merged[n - 1].end_sample {
                if padded_end > merged[n - 1].end_sample {
                    let first: usize = merged[n - 1].start_sample;
                    merged.set(n - 1, VadSegment { start_sample: first, end_sample: padded_end });
                }
                assert(bounds(merged@) =~= bounds(before).drop_last().push(
                    (
                        bounds(before).last().0,
                        greatest(bounds(before).last().1, padded_end as int),
                    ),
                ));
            } else {
                merged.push(VadSegment { start_sample: padded_start, end_sample: padded_end });
                assert(bounds(merged@) =~= bounds(before).push(
                    (padded_start as int, padded_end as int),
                ));
            }
        }
        i = i + 1;
    }
    assert(pair_bounds(runs@).take(i as int) =~= pair_bounds(runs@));
    merged
}

////////////////////////////////////////////////////////////////////////////////
// Laws
////////////////////////////////////////////////////////////////////////////////

/// Segments come in order and never touch, and none reaches beyond the audio.
pub proof fn segments_are_apart(runs: Seq<(int, int)>, audio_len: int, min_speech: int, pad: int)
    ensures
        ({
            let segments = joined(runs, audio_len, min_speech, pad);
            &&& forall|i: int| 0 <= i < segments.len() - 1 ==> (#[trigger] segments[i]).1 < segments[i + 1].0
            &&& forall|i: int| 0 <= i < segments.len() ==> (#[trigger] segments[i]).1 <= audio_len
            &&& forall|i: int| 0 <= i < segments.len() ==> (#[trigger] segments[i]).0 >= 0
        }),
    decreases runs.len(),
{
    if runs.len() > 0 {
        segments_are_apart(runs.drop_last(), audio_len, min_speech, pad);
        let before = joined(runs.drop_last(), audio_len, min_speech, pad);
        let segments = joined(runs, audio_len, min_speech, pad);
        assert forall|i: int| 0 <= i < segments.len() - 1 implies (#[trigger] segments[i]).1
            < segments[i + 1].0 by {
            if i < before.len() - 1 {
                assert(before[i].1 < before[i + 1].0);
            }
        }
        assert forall|i: int| 0 <= i < segments.len() implies (#[trigger] segments[i]).1 <= audio_len
            && segments[i].0 >= 0 by {
            if i < before.len() {
                assert(before[i].1 <= audio_len && before[i].0 >= 0);
            }
        }
    }
}

/// True where a pair lies inside a segment.
pub open spec fn inside_some(pair: (int, int), segments: Seq<(int, int)>) -> bool {
    exists|k: int|
        0 <= k < segments.len() && (#[trigger] segments[k]).0 <= pair.0 && pair.1 <= segments[k].1
}

/// Every run that is long enough lies, with its padding, inside a segment.
pub proof fn long_runs_are_kept(runs: Seq<(int, int)>, audio_len: int, min_speech: int, pad: int, i: int)
    requires
        0 <= i < runs.len(),
        greatest(runs[i].1 - runs[i].0, 0) >= min_speech,
        forall|j: int, k: int| 0 <= j <= k < runs.len() ==> (#[trigger] runs[j]).0 <= (#[trigger] runs[k]).0,
    ensures
        inside_some(
            (greatest(runs[i].0 - pad, 0), least(runs[i].1 + pad, audio_len)),
            joined(runs, audio_len, min_speech, pad),
        ),
    decreases runs.len(),
{
    let less = runs.drop_last();
    let before = joined(less, audio_len, min_speech, pad);
    let after = joined(runs, audio_len, min_speech, pad);
    let wide = (greatest(runs[i].0 - pad, 0), least(runs[i].1 + pad, audio_len));
    lemma_starts_bounded(less, audio_len, min_speech, pad, runs.last().0);
    if i < less.len() {
        assert(less[i] == runs[i]);
        long_runs_are_kept(less, audio_len, min_speech, pad, i);
        let k = choose|k: int|
            0 <= k < before.len() && (#[trigger] before[k]).0 <= wide.0 && wide.1 <= before[k].1;
        assert(after[k].0 <= wide.0 && wide.1 <= after[k].1);
    } else {
        let k = after.len() - 1;
        assert(after[k].0 <= wide.0 && wide.1 <= after[k].1);
    }
}

/// No segment starts behind a bound that no run starts behind.
proof fn lemma_starts_bounded(
    runs: Seq<(int, int)>,
    audio_len: int,
    min_speech: int,
    pad: int,
    bound: int,
)
    requires
        forall|j: int| 0 <= j < runs.len() ==> (#[trigger] runs[j]).0 <= bound,
    ensures
        ({
            let segments = joined(runs, audio_len, min_speech, pad);
            forall|i: int|
                0 <= i < segments.len() ==> (#[trigger] segments[i]).0 <= greatest(bound - pad, 0)
        }),
    decreases runs.len(),
{
    if runs.len() > 0 {
        lemma_starts_bounded(runs.drop_last(), audio_len, min_speech, pad, bound);
        let before = joined(runs.drop_last(), audio_len, min_speech, pad);
        let segments = joined(runs, audio_len, min_speech, pad);
        assert(runs[runs.len() - 1].0 <= bound);
        assert forall|i: int| 0 <= i < segments.len() implies (#[trigger] segments[i]).0 <= greatest(
            bound - pad,
            0,
        ) by {
            if i < before.len() {
                assert(before[i].0 <= greatest(bound - pad, 0));
            }
        }
    }
}

/// True of windows in order of time that start inside the audio.
pub open spec fn in_order(probs: Seq<(usize, F32)>, audio_len: int) -> bool {
    &&& forall|i: int, j: int| 0 <= i <= j < probs.len() ==> (#[trigger] probs[i]).0 <= (#[trigger] probs[j]).0
    &&& forall|i: int| 0 <= i < probs.len() ==> (#[trigger] probs[i]).0 <= audio_len
}

/// The runs of windows in order start in order, and each window with speech lies in a run.
pub proof fn lemma_scan(
    probs: Seq<(usize, F32)>,
    audio_len: int,
    window_samples: int,
    threshold: F32,
    min_silence: int,
)
    requires
        in_order(probs, audio_len),
        window_samples >= 0,
    ensures
        ({
            let s = scan(probs, audio_len, window_samples, threshold, min_silence);
            &&& forall|j: int, k: int| 0 <= j <= k < s.runs.len() ==> (#[trigger] s.runs[j]).0 <= (#[trigger] s.runs[k]).0
            &&& forall|j: int|
                0 <= j < s.runs.len() ==> probs.len() > 0 && (#[trigger] s.runs[j]).0 <= probs.last().0
            &&& s.open is Some ==> probs.len() > 0 && s.open->0 <= probs.last().0 && s.open->0
                <= s.last_end && forall|j: int| 0 <= j < s.runs.len() ==> (#[trigger] s.runs[j]).0 <= s.open->0
            &&& probs.len() > 0 ==> s.last_end <= least(
                probs.last().0 + window_samples,
                audio_len,
            )
            &&& probs.len() == 0 ==> s.last_end == 0
            &&& forall|j: int|
                0 <= j < s.runs.len() ==> 0 <= (#[trigger] s.runs[j]).0 <= s.runs[j].1 <= audio_len
            &&& s.open is Some ==> 0 <= s.open->0
            &&& forall|i: int|
                0 <= i < probs.len() && (#[trigger] probs[i]).1.spec_ge(threshold) ==> {
                    let w = (
                        probs[i].0 as int,
                        least(probs[i].0 + window_samples, audio_len),
                    );
                    inside_some(w, s.runs) || (s.open is Some && s.open->0 <= w.0 && w.1
                        <= s.last_end)
                }
        }),
    decreases probs.len(),
{
    if probs.len() > 0 {
        let less = probs.drop_last();
        let before = scan(less, audio_len, window_samples, threshold, min_silence);
        let s = scan(probs, audio_len, window_samples, threshold, min_silence);
        assert forall|i: int, j: int| 0 <= i <= j < less.len() implies (#[trigger] less[i]).0 <= (
        #[trigger] less[j]).0 by {
            assert(probs[i].0 <= probs[j].0);
        }
        assert forall|i: int| 0 <= i < less.len() implies (#[trigger] less[i]).0 <= audio_len by {
            assert(probs[i].0 <= audio_len);
        }
        lemma_scan(less, audio_len, window_samples, threshold, min_silence);
        if less.len() > 0 {
            assert(probs[less.len() - 1].0 <= probs[probs.len() - 1].0);
        }
        assert(probs[probs.len() - 1].0 <= audio_len);
        assert forall|i: int| 0 <= i < probs.len() && (#[trigger] probs[i]).1.spec_ge(threshold) implies ({
            let w = (probs[i].0 as int, least(probs[i].0 + window_samples, audio_len));
            inside_some(w, s.runs) || (s.open is Some && s.open->0 <= w.0 && w.1 <= s.last_end)
        }) by {
            let w = (probs[i].0 as int, least(probs[i].0 + window_samples, audio_len));
            if i < less.len() {
                assert(less[i] == probs[i]);
                assert(probs[i].0 <= probs[probs.len() - 1].0);
                if inside_some(w, before.runs) {
                    let k = choose|k: int|
                        0 <= k < before.runs.len() && (#[trigger] before.runs[k]).0 <= w.0 && w.1
                            <= before.runs[k].1;
                    assert(s.runs[k] == before.runs[k]);
                } else if s.open is None {
                    assert(s.runs[s.runs.len() - 1] == (before.open->0, before.last_end));
                }
            }
        }
    }
}

proof fn lemma_joined_lengths(runs: Seq<(int, int)>, audio_len: int, min_speech: int, pad: int)
    requires
        forall|j: int| 0 <= j < runs.len() ==> 0 <= (#[trigger] runs[j]).0 <= runs[j].1 <= audio_len,
        audio_len >= 0,
        pad >= 0,
    ensures
        ({
            let segments = joined(runs, audio_len, min_speech, pad);
            forall|i: int| 0 <= i < segments.len() ==> (#[trigger] segments[i]).0 <= segments[i].1
        }),
    decreases runs.len(),
{
    if runs.len() > 0 {
        let less = runs.drop_last();
        assert forall|j: int| 0 <= j < less.len() implies 0 <= (#[trigger] less[j]).0
            <= less[j].1 <= audio_len by {
            assert(less[j] == runs[j]);
        }
        lemma_joined_lengths(less, audio_len, min_speech, pad);
        let before = joined(less, audio_len, min_speech, pad);
        let segments = joined(runs, audio_len, min_speech, pad);
        assert(runs[runs.len() - 1].0 <= runs[runs.len() - 1].1);
        assert forall|i: int| 0 <= i < segments.len() implies (#[trigger] segments[i]).0
            <= segments[i].1 by {
            if i < before.len() {
                assert(before[i].0 <= before[i].1);
            }
        }
    }
}

/// The segments of windows in order are in order of time, and none ends before it starts.
pub proof fn segments_are_ordered(audio_len: int, probs: Seq<(usize, F32)>, config: VadConfig)
    requires
        in_order(probs, audio_len),
        audio_len >= 0,
    ensures
        ({
            let segments = speech_segments(audio_len, probs, config);
            &&& forall|i: int| 0 <= i < segments.len() ==> (#[trigger] segments[i]).0 <= segments[i].1
            &&& forall|i: int, j: int|
                0 <= i < j < segments.len() ==> (#[trigger] segments[i]).1 < (#[trigger] segments[j]).0
        }),
{
    let ws = config.window_samples as int;
    let silence = samples_in_ms(config.min_silence_ms as int);
    let speech = samples_in_ms(config.min_speech_ms as int);
    let pad = samples_in_ms(config.speech_pad_ms as int);
    let runs = all_runs(scan(probs, audio_len, ws, config.threshold, silence));
    let segments = joined(runs, audio_len, speech, pad);
    lemma_scan(probs, audio_len, ws, config.threshold, silence);
    if probs.len() > 0 {
        assert(probs[probs.len() - 1].0 <= audio_len);
    }
    lemma_joined_lengths(runs, audio_len, speech, pad);
    segments_are_apart(runs, audio_len, speech, pad);
    assert forall|i: int, j: int| 0 <= i < j < segments.len() implies (#[trigger] segments[i]).1 < (
    #[trigger] segments[j]).0 by {
        lemma_apart(segments, i, j);
    }
}

proof fn lemma_run_ends(
    probs: Seq<(usize, F32)>,
    audio_len: int,
    window_samples: int,
    threshold: F32,
    min_silence: int,
)
    requires
        window_samples > 0,
        audio_len > 0,
    ensures
        ({
            let s = scan(probs, audio_len, window_samples, threshold, min_silence);
            &&& s.open is Some ==> s.last_end > 0
            &&& forall|j: int| 0 <= j < s.runs.len() ==> (#[trigger] s.runs[j]).1 > 0
        }),
    decreases probs.len(),
{
    if probs.len() > 0 {
        lemma_run_ends(probs.drop_last(), audio_len, window_samples, threshold, min_silence);
    }
}

proof fn lemma_joined_ends(runs: Seq<(int, int)>, audio_len: int, min_speech: int, pad: int)
    requires
        forall|j: int| 0 <= j < runs.len() ==> (#[trigger] runs[j]).1 > 0,
        audio_len > 0,
        pad >= 0,
    ensures
        ({
            let segments = joined(runs, audio_len, min_speech, pad);
            forall|i: int| 0 <= i < segments.len() ==> (#[trigger] segments[i]).1 > 0
        }),
    decreases runs.len(),
{
    if runs.len() > 0 {
        let less = runs.drop_last();
        assert forall|j: int| 0 <= j < less.len() implies (#[trigger] less[j]).1 > 0 by {
            assert(less[j] == runs[j]);
        }
        lemma_joined_ends(less, audio_len, min_speech, pad);
        let before = joined(less, audio_len, min_speech, pad);
        let segments = joined(runs, audio_len, min_speech, pad);
        assert(runs[runs.len() - 1].1 > 0);
        assert forall|i: int| 0 <= i < segments.len() implies (#[trigger] segments[i]).1 > 0 by {
            if i < before.len() {
                assert(before[i].1 > 0);
            }
        }
    }
}

/// No segment ends where the audio starts.
pub proof fn segments_end_later(audio_len: int, probs: Seq<(usize, F32)>, config: VadConfig, i: int)
    requires
        audio_len > 0,
        config.window_samples > 0,
        0 <= i < speech_segments(audio_len, probs, config).len(),
    ensures
        speech_segments(audio_len, probs, config)[i].1 > 0,
{
    let ws = config.window_samples as int;
    let silence = samples_in_ms(config.min_silence_ms as int);
    lemma_run_ends(probs, audio_len, ws, config.threshold, silence);
    lemma_joined_ends(
        all_runs(scan(probs, audio_len, ws, config.threshold, silence)),
        audio_len,
        samples_in_ms(config.min_speech_ms as int),
        samples_in_ms(config.speech_pad_ms as int),
    );
}

proof fn lemma_apart(segments: Seq<(int, int)>, i: int, j: int)
    requires
        0 <= i < j < segments.len(),
        forall|k: int| 0 <= k < segments.len() - 1 ==> (#[trigger] segments[k]).1 < segments[k + 1].0,
        forall|k: int| 0 <= k < segments.len() ==> (#[trigger] segments[k]).0 <= segments[k].1,
    ensures
        segments[i].1 < segments[j].0,
    decreases j - i,
{
    if i + 1 < j {
        lemma_apart(segments, i, j - 1);
        assert(segments[j - 1].1 < segments[j - 1 + 1].0);
    }
}

/// No speech is lost: each window with speech lies in a run, and if that run is long enough to
/// count as speech, the window lies inside a segment.
pub proof fn speech_is_kept(audio_len: int, probs: Seq<(usize, F32)>, config: VadConfig, i: int)
    requires
        in_order(probs, audio_len),
        0 <= i < probs.len(),
        probs[i].1.spec_ge(config.threshold),
    ensures
        ({
            let runs = all_runs(
                scan(
                    probs,
                    audio_len,
                    config.window_samples as int,
                    config.threshold,
                    samples_in_ms(config.min_silence_ms as int),
                ),
            );
            let w = (
                probs[i].0 as int,
                least(probs[i].0 + config.window_samples, audio_len),
            );
            exists|k: int|
                0 <= k < runs.len() && (#[trigger] runs[k]).0 <= w.0 && w.1 <= runs[k].1 && (
                runs[k].1 - runs[k].0 >= samples_in_ms(config.min_speech_ms as int) ==> inside_some(
                    w,
                    speech_segments(audio_len, probs, config),
                ))
        }),
{
    let ws = config.window_samples as int;
    let silence = samples_in_ms(config.min_silence_ms as int);
    let speech = samples_in_ms(config.min_speech_ms as int);
    let pad = samples_in_ms(config.speech_pad_ms as int);
    let s = scan(probs, audio_len, ws, config.threshold, silence);
    let runs = all_runs(s);
    let segments = joined(runs, audio_len, speech, pad);
    let w = (probs[i].0 as int, least(probs[i].0 + ws, audio_len));
    lemma_scan(probs, audio_len, ws, config.threshold, silence);
    let k = if inside_some(w, s.runs) {
        choose|k: int| 0 <= k < s.runs.len() && (#[trigger] s.runs[k]).0 <= w.0 && w.1 <= s.runs[k].1
    } else {
        s.runs.len() as int
    };
    assert(runs[k].0 <= w.0 && w.1 <= runs[k].1);
    if runs[k].1 - runs[k].0 >= speech {
        long_runs_are_kept(runs, audio_len, speech, pad, k);
        let wide = (greatest(runs[k].0 - pad, 0), least(runs[k].1 + pad, audio_len));
        let m = choose|m: int|
            0 <= m < segments.len() && (#[trigger] segments[m]).0 <= wide.0 && wide.1 <= segments[m].1;
        assert(segments[m].0 <= w.0 && w.1 <= segments[m].1);
    }
}

/// True where a run lies in a run of a scan.
spec fn in_run(run: (int, int), s: Scan) -> bool {
    inside_some(run, s.runs) || (s.open is Some && s.open->0 <= run.0 && run.1 <= s.last_end)
}

/// A lower threshold leads to runs that hold those of the higher one.
proof fn lemma_lower_scan(
    probs: Seq<(usize, F32)>,
    audio_len: int,
    window_samples: int,
    low: F32,
    high: F32,
    min_silence: int,
)
    requires
        in_order(probs, audio_len),
        window_samples >= 0,
        high.spec_ge(low),
    ensures
        ({
            let h = scan(probs, audio_len, window_samples, high, min_silence);
            let l = scan(probs, audio_len, window_samples, low, min_silence);
            &&& h.open is Some ==> l.open is Some && l.open->0 <= h.open->0
            &&& h.last_end <= l.last_end
            &&& forall|j: int| 0 <= j < h.runs.len() ==> in_run(#[trigger] h.runs[j], l)
        }),
    decreases probs.len(),
{
    if probs.len() > 0 {
        let less = probs.drop_last();
        let (start, prob) = probs.last();
        assert forall|i: int, j: int| 0 <= i <= j < less.len() implies (#[trigger] less[i]).0 <= (
        #[trigger] less[j]).0 by {
            assert(probs[i].0 <= probs[j].0);
        }
        assert forall|i: int| 0 <= i < less.len() implies (#[trigger] less[i]).0 <= audio_len by {
            assert(probs[i].0 <= audio_len);
        }
        if less.len() > 0 {
            assert(probs[less.len() - 1].0 <= probs[probs.len() - 1].0);
        }
        assert(probs[probs.len() - 1].0 <= audio_len);
        lemma_scan(less, audio_len, window_samples, low, min_silence);
        lemma_scan(less, audio_len, window_samples, high, min_silence);
        lemma_lower_scan(less, audio_len, window_samples, low, high, min_silence);
        let h0 = scan(less, audio_len, window_samples, high, min_silence);
        let l0 = scan(less, audio_len, window_samples, low, min_silence);
        let h = scan(probs, audio_len, window_samples, high, min_silence);
        let l = scan(probs, audio_len, window_samples, low, min_silence);
        assert(prob.spec_ge(high) ==> prob.spec_ge(low));
        assert forall|j: int| 0 <= j < h.runs.len() implies in_run(#[trigger] h.runs[j], l) by {
            let run = h.runs[j];
            if j < h0.runs.len() {
                assert(run == h0.runs[j]);
                assert(in_run(run, l0));
            } else {
                assert(run == (h0.open->0, h0.last_end));
            }
            if inside_some(run, l0.runs) {
                let k = choose|k: int|
                    0 <= k < l0.runs.len() && (#[trigger] l0.runs[k]).0 <= run.0 && run.1
                        <= l0.runs[k].1;
                assert(l.runs[k] == l0.runs[k]);
            } else if l.open is None {
                assert(l.runs[l.runs.len() - 1] == (l0.open->0, l0.last_end));
            }
        }
    }
}

/// True where a sample lies in a segment.
pub open spec fn heard(sample: int, segments: Seq<(int, int)>) -> bool {
    exists|k: int| 0 <= k < segments.len() && (#[trigger] segments[k]).0 <= sample < segments[k].1
}

/// A sample in a segment lies in a run that is long enough, or in its padding.
pub proof fn lemma_heard_in_run(
    runs: Seq<(int, int)>,
    audio_len: int,
    min_speech: int,
    pad: int,
    sample: int,
) -> (j: int)
    requires
        heard(sample, joined(runs, audio_len, min_speech, pad)),
    ensures
        0 <= j < runs.len(),
        greatest(runs[j].1 - runs[j].0, 0) >= min_speech,
        greatest(runs[j].0 - pad, 0) <= sample < least(runs[j].1 + pad, audio_len),
    decreases runs.len(),
{
    let less = runs.drop_last();
    let before = joined(less, audio_len, min_speech, pad);
    let segments = joined(runs, audio_len, min_speech, pad);
    if heard(sample, before) {
        let j = lemma_heard_in_run(less, audio_len, min_speech, pad, sample);
        assert(less[j] == runs[j]);
        j
    } else {
        let k = choose|k: int|
            0 <= k < segments.len() && (#[trigger] segments[k]).0 <= sample < segments[k].1;
        if k < before.len() {
            assert(!(before[k].0 <= sample < before[k].1));
        }
        if before.len() > 0 {
            assert(!(before[before.len() - 1].0 <= sample < before[before.len() - 1].1));
        }
        runs.len() - 1
    }
}

/// Lowering the threshold never loses speech: every sample in a segment of the higher threshold
/// lies in a segment of the lower one.
pub proof fn lower_threshold_keeps_speech(
    audio_len: int,
    probs: Seq<(usize, F32)>,
    lower: VadConfig,
    higher: VadConfig,
    sample: int,
)
    requires
        in_order(probs, audio_len),
        higher.threshold.spec_ge(lower.threshold),
        higher == (VadConfig { threshold: higher.threshold, ..lower }),
        heard(sample, speech_segments(audio_len, probs, higher)),
    ensures
        heard(sample, speech_segments(audio_len, probs, lower)),
{
    let ws = lower.window_samples as int;
    let silence = samples_in_ms(lower.min_silence_ms as int);
    let speech = samples_in_ms(lower.min_speech_ms as int);
    let pad = samples_in_ms(lower.speech_pad_ms as int);
    let h = scan(probs, audio_len, ws, higher.threshold, silence);
    let l = scan(probs, audio_len, ws, lower.threshold, silence);
    let runs = all_runs(l);
    let segments = joined(runs, audio_len, speech, pad);
    lemma_scan(probs, audio_len, ws, higher.threshold, silence);
    lemma_scan(probs, audio_len, ws, lower.threshold, silence);
    lemma_lower_scan(probs, audio_len, ws, lower.threshold, higher.threshold, silence);
    let j = lemma_heard_in_run(all_runs(h), audio_len, speech, pad, sample);
    let run = all_runs(h)[j];
    assert(in_run(run, l)) by {
        if j < h.runs.len() {
            assert(run == h.runs[j]);
        }
    }
    let k = if inside_some(run, l.runs) {
        choose|k: int|
            0 <= k < l.runs.len() && (#[trigger] l.runs[k]).0 <= run.0 && run.1 <= l.runs[k].1
    } else {
        l.runs.len() as int
    };
    assert(runs[k].0 <= run.0 && run.1 <= runs[k].1);
    long_runs_are_kept(runs, audio_len, speech, pad, k);
    let wide = (greatest(runs[k].0 - pad, 0), least(runs[k].1 + pad, audio_len));
    let m = choose|m: int|
        0 <= m < segments.len() && (#[trigger] segments[m]).0 <= wide.0 && wide.1 <= segments[m].1;
    assert(segments[m].0 <= sample < segments[m].1);
}

} // verus!
