//! Live streams of one model: cutting each stream into windows, and sharing the workers out.
use std::collections::VecDeque;
use vstd::prelude::*;
use vstd::slice::*;

use crate::daemon::{ConcurrencyConfig, RequestHeader};
use crate::float_bits::F32;
use crate::parallel::{releases, LiveTranscriptionStats, OrderedResults, NPU_WORKERS};
use crate::suppression::{parsed_mode, InvalidTokenId, SuppressTokens, SuppressView};
use crate::text::{denotes_u32, trimmed};
use crate::vad::{
    all_runs, bounds, chunk, chunk_bounds, chunk_count, greatest, in_order, least, pair_bounds, samples_in_ms, scan,
    segments_are_apart, segments_are_ordered, segments_end_later, segments_from_probs,
    speech_segments, VadConfig,
};
use crate::whisper::{TranscribeOptions, WindowTranscription};

verus! {

/// Samples of the longest window: thirty seconds.
pub const DISPATCH_SAMPLES: usize = 480_000;
/// Samples of silence behind speech after which it is not waited for more: two seconds.
pub const SILENCE_TIMEOUT_SAMPLES: usize = 32_000;

////////////////////////////////////////////////////////////////////////////////
// What a request asks for
////////////////////////////////////////////////////////////////////////////////

/// The value where there is one, else the default.
pub open spec fn or_default<V>(value: Option<V>, default: V) -> V {
    match value {
        Some(v) => v,
        None => default,
    }
}

/// How speech is detected for a request: as the header says, and by default where it says nothing.
pub fn vad_config_for(header: &RequestHeader) -> (config: VadConfig)
    ensures
        config.threshold == or_default(header.vad_threshold, F32 { bits: 0x3f00_0000 }),
        config.min_speech_ms == or_default(header.vad_min_speech_ms, 250),
        config.min_silence_ms == or_default(header.vad_min_silence_ms, 100),
        config.speech_pad_ms == or_default(header.vad_speech_pad_ms, 100),
        config.window_samples == or_default(header.vad_window_samples, 512),
{
    let defaults = VadConfig::default();
    VadConfig {
        threshold: match header.vad_threshold {
            Some(threshold) => threshold,
            None => defaults.threshold,
        },
        min_speech_ms: match header.vad_min_speech_ms {
            Some(ms) => ms,
            None => defaults.min_speech_ms,
        },
        min_silence_ms: match header.vad_min_silence_ms {
            Some(ms) => ms,
            None => defaults.min_silence_ms,
        },
        speech_pad_ms: match header.vad_speech_pad_ms {
            Some(ms) => ms,
            None => defaults.speech_pad_ms,
        },
        window_samples: match header.vad_window_samples {
            Some(samples) => samples,
            None => defaults.window_samples,
        },
    }
}

/// True of options that say what a header says, whatever the tokens to suppress are.
pub open spec fn options_follow(options: TranscribeOptions, header: RequestHeader) -> bool {
    &&& options.lang == header.lang
    &&& options.task == header.task
    &&& options.notimestamps == header.notimestamps
    &&& options.max_new_tokens == header.max_new_tokens
    &&& options.beam_size == header.beam_size
}

/// The options of a live stream. Tokens to suppress that cannot be read are taken for the default.
pub fn live_options(header: &RequestHeader) -> (options: TranscribeOptions)
    ensures
        options_follow(options, *header),
        options.suppress_tokens@ == or_default(
            parsed_mode(header.suppress_tokens@),
            SuppressView::Default,
        ),
{
    let suppress_tokens = match SuppressTokens::parse(header.suppress_tokens.as_str()) {
        Ok(mode) => mode,
        Err(_) => SuppressTokens::Default,
    };
    TranscribeOptions::new(
        header.lang.clone(),
        header.task.clone(),
        header.notimestamps,
        header.max_new_tokens,
        header.beam_size,
        suppress_tokens,
    )
}

/// The options of a batch request. Tokens to suppress that cannot be read are an error.
pub fn batch_options(header: &RequestHeader) -> (out: Result<TranscribeOptions, InvalidTokenId>)
    ensures
        match parsed_mode(header.suppress_tokens@) {
            Some(mode) => out matches Ok(options) && options_follow(options, *header)
                && options.suppress_tokens@ == mode,
            None => out is Err && !denotes_u32(trimmed(out->Err_0.part@)),
        },
{
    match SuppressTokens::parse(header.suppress_tokens.as_str()) {
        Ok(mode) => Ok(
            TranscribeOptions::new(
                header.lang.clone(),
                header.task.clone(),
                header.notimestamps,
                header.max_new_tokens,
                header.beam_size,
                mode,
            ),
        ),
        Err(error) => Err(error),
    }
}

/// The counts of a batch request: its windows of thirty seconds, all of them done.
pub fn batch_stats(audio_len: usize) -> (stats: LiveTranscriptionStats)
    ensures
        stats.windows_dispatched == (audio_len + 480_000 - 1) / 480_000,
        stats.windows_completed == stats.windows_dispatched,
{
    let whole: usize = audio_len / DISPATCH_SAMPLES;
    let windows: usize = if audio_len % DISPATCH_SAMPLES > 0 {
        whole + 1
    } else {
        whole
    };
    LiveTranscriptionStats { windows_dispatched: windows, windows_completed: windows }
}

////////////////////////////////////////////////////////////////////////////////
// When a window is ready
////////////////////////////////////////////////////////////////////////////////

/// The part of what is buffered that makes the next window, and the speech in it.
#[derive(Debug)]
pub struct DispatchPlan {
    pub start_sample: usize,
    pub end_sample: usize,
    pub speech_events: Vec<(usize, usize)>,
}

/// The view of a `DispatchPlan`.
pub struct PlanView {
    pub start: int,
    pub end: int,
    pub events: Seq<(int, int)>,
}

impl View for DispatchPlan {
    type V = PlanView;

    open spec fn view(&self) -> PlanView {
        PlanView {
            start: self.start_sample as int,
            end: self.end_sample as int,
            events: pair_bounds(self.speech_events@),
        }
    }
}

/// The last segment that fits into one window with the first one and all between, when those up
/// to `from` do.
pub open spec fn last_fitting(segments: Seq<(int, int)>, from: int) -> int
    decreases segments.len() - from,
{
    if from + 1 < segments.len() && segments[from + 1].1 - segments[0].0 <= DISPATCH_SAMPLES {
        last_fitting(segments, from + 1)
    } else {
        from
    }
}

/// The speech in a window that ends at `end`: the first segments, cut off there.
pub open spec fn speech_in(segments: Seq<(int, int)>, count: int, end: int) -> Seq<(int, int)> {
    Seq::new(count as nat, |i: int| (segments[i].0, least(segments[i].1, end)))
}

/// The next window of `buffered` samples with these segments of speech; `None` for the segments
/// stands for no detection. With detection a window is ready when more speech than it can hold is
/// there, when it is full, when two seconds of silence follow it, or when nothing more comes.
/// Without, it is ready when it is full or nothing more comes.
pub open spec fn planned(
    buffered: int,
    segments: Option<Seq<(int, int)>>,
    closed: bool,
) -> Option<PlanView> {
    match segments {
        None => if buffered >= DISPATCH_SAMPLES || closed && buffered > 0 {
            Some(
                PlanView {
                    start: 0,
                    end: least(DISPATCH_SAMPLES as int, buffered),
                    events: Seq::empty(),
                },
            )
        } else {
            None
        },
        Some(segments) => if segments.len() == 0 {
            None
        } else {
            let last = last_fitting(segments, 0);
            let full = segments[last].1 - segments[0].0 >= DISPATCH_SAMPLES;
            let end = if full {
                segments[0].0 + DISPATCH_SAMPLES
            } else {
                segments[last].1
            };
            if last + 1 < segments.len() || full || buffered - segments[last].1
                >= SILENCE_TIMEOUT_SAMPLES || closed && buffered > 0 {
                Some(
                    PlanView {
                        start: segments[0].0,
                        end,
                        events: speech_in(segments, last + 1, end),
                    },
                )
            } else {
                None
            }
        },
    }
}

/// True of segments in order that lie inside `buffered` samples.
pub open spec fn segments_within(segments: Seq<(int, int)>, buffered: int) -> bool {
    &&& forall|i: int|
        0 <= i < segments.len() ==> 0 <= (#[trigger] segments[i]).0 <= segments[i].1 <= buffered
    &&& forall|i: int, j: int|
        0 <= i < j < segments.len() ==> (#[trigger] segments[i]).1 < (#[trigger] segments[j]).0
}

proof fn lemma_last_fitting(segments: Seq<(int, int)>, from: int)
    requires
        0 <= from < segments.len(),
    ensures
        from <= last_fitting(segments, from) < segments.len(),
        forall|i: int|
            from < i <= last_fitting(segments, from) ==> (#[trigger] segments[i]).1 - segments[0].0
                <= DISPATCH_SAMPLES,
        ({
            let next = last_fitting(segments, from) + 1;
            next < segments.len() ==> segments[next].1 - segments[0].0 > DISPATCH_SAMPLES
        }),
    decreases segments.len() - from,
{
    if from + 1 < segments.len() && segments[from + 1].1 - segments[0].0 <= DISPATCH_SAMPLES {
        lemma_last_fitting(segments, from + 1);
    }
}

/// A window lies inside what is buffered and holds at most thirty seconds. It starts with the first
/// segment of speech, so none comes before it, and it holds the segments up to some one whole, or,
/// where it is full, up to its end; the segments behind those come after it.
pub proof fn plan_keeps_speech(buffered: int, segments: Seq<(int, int)>, closed: bool)
    requires
        segments_within(segments, buffered),
        planned(buffered, Some(segments), closed) is Some,
    ensures
        ({
            let plan = planned(buffered, Some(segments), closed)->0;
            &&& 0 <= plan.start <= plan.end <= buffered
            &&& plan.end - plan.start <= DISPATCH_SAMPLES
            &&& 0 < plan.events.len() <= segments.len()
            &&& forall|i: int| 0 <= i < segments.len() ==> plan.start <= (#[trigger] segments[i]).0
            &&& forall|i: int|
                0 <= i < plan.events.len() ==> (#[trigger] plan.events[i]).0 == segments[i].0
                    && plan.events[i].1 <= plan.end
            &&& forall|i: int|
                0 <= i < plan.events.len() ==> (#[trigger] plan.events[i]).1 == segments[i].1
                    || plan.events[i].1 == plan.end && plan.end - plan.start == DISPATCH_SAMPLES
            &&& forall|i: int|
                plan.events.len() <= i < segments.len() ==> plan.end <= (#[trigger] segments[i]).0
        }),
{
    lemma_last_fitting(segments, 0);
    let last = last_fitting(segments, 0);
    let plan = planned(buffered, Some(segments), closed)->0;
    assert forall|i: int| 0 <= i < segments.len() implies plan.start <= (#[trigger] segments[i]).0 by {
        if 0 < i {
            assert(segments[0].1 < segments[i].0);
        }
    }
    assert(segments[0].0 <= segments[last].0);
    assert forall|i: int| plan.events.len() <= i < segments.len() implies plan.end <= (
    #[trigger] segments[i]).0 by {
        assert(segments[last].1 < segments[i].0);
    }
}

////////////////////////////////////////////////////////////////////////////////
// One live stream
////////////////////////////////////////////////////////////////////////////////

/// A live stream that is being transcribed.
pub struct ActiveLiveJob {
    pub job_id: usize,
    /// How speech is detected, if it is.
    pub vad_config: Option<VadConfig>,
    pub options: TranscribeOptions,
    /// Samples that have come and have not gone into a window.
    pub audio_buffer: Vec<i16>,
    /// Where in the stream the buffer starts.
    pub absolute_offset_samples: usize,
    /// Where in the buffer each window of the detector starts, and its probability of speech.
    pub probs: Vec<(usize, F32)>,
    pub producer_closed: bool,
    pub stats: LiveTranscriptionStats,
    pub in_flight: usize,
    pub next_window_index: usize,
    pub results: OrderedResults<WindowTranscription>,
}

/// A window that goes to a worker, with the places in the stream where its speech starts and ends.
#[derive(Debug)]
pub struct LiveDispatch {
    pub job_id: usize,
    pub window_index: usize,
    pub start_sample: usize,
    pub samples: Vec<i16>,
    pub speech_events: Vec<(usize, usize)>,
}

/// The probabilities of the windows that start at `end` or behind it, counted from there.
pub open spec fn moved(probs: Seq<(usize, F32)>, end: int) -> Seq<(usize, F32)>
    decreases probs.len(),
{
    if probs.len() == 0 {
        Seq::empty()
    } else if probs.last().0 >= end {
        moved(probs.drop_last(), end).push(((probs.last().0 - end) as usize, probs.last().1))
    } else {
        moved(probs.drop_last(), end)
    }
}

/// The probabilities of pieces of `size` samples that start at `first`.
pub open spec fn scored(first: int, size: int, probabilities: Seq<F32>) -> Seq<(usize, F32)> {
    Seq::new(probabilities.len(), |i: int| ((first + i * size) as usize, probabilities[i]))
}

proof fn lemma_moved(probs: Seq<(usize, F32)>, end: int, bound: int)
    requires
        forall|i: int, j: int|
            0 <= i <= j < probs.len() ==> (#[trigger] probs[i]).0 <= (#[trigger] probs[j]).0,
        forall|i: int| 0 <= i < probs.len() ==> (#[trigger] probs[i]).0 <= bound,
        0 <= end,
    ensures
        ({
            let after = moved(probs, end);
            &&& forall|i: int, j: int|
                0 <= i <= j < after.len() ==> (#[trigger] after[i]).0 <= (#[trigger] after[j]).0
            &&& forall|i: int| 0 <= i < after.len() ==> (#[trigger] after[i]).0 + end <= bound
        }),
    decreases probs.len(),
{
    if probs.len() > 0 {
        let last = probs.last();
        let rest = probs.drop_last();
        assert(last == probs[probs.len() - 1]);
        assert forall|i: int| 0 <= i < rest.len() implies (#[trigger] rest[i]).0 <= last.0 by {
            assert(rest[i] == probs[i]);
        }
        lemma_moved(rest, end, last.0 as int);
        let before = moved(rest, end);
        let after = moved(probs, end);
        assert forall|i: int, j: int| 0 <= i <= j < after.len() implies (#[trigger] after[i]).0 <= (
        #[trigger] after[j]).0 by {
            if i < before.len() {
                assert(after[i] == before[i]);
                if j < before.len() {
                    assert(after[j] == before[j]);
                }
            }
        }
        assert forall|i: int| 0 <= i < after.len() implies (#[trigger] after[i]).0 + end <= bound by {
            if i < before.len() {
                assert(after[i] == before[i]);
            }
        }
    }
}

proof fn lemma_piece_start(len: int, size: int, i: int)
    requires
        size > 0,
        0 <= i < chunk_count(len, size),
    ensures
        0 <= i * size < len,
{
    assert(0 <= i * size < len) by (nonlinear_arith)
        requires
            size > 0,
            0 <= i < (len + size - 1) / size,
    ;
}

impl ActiveLiveJob {
    /// The windows of the detector start inside the buffer, in order, and positions in the stream
    /// are numbers that the machine has.
    pub open spec fn wf(&self) -> bool {
        &&& in_order(self.probs@, self.audio_buffer@.len() as int)
        &&& forall|i: int|
            0 <= i < self.probs@.len() ==> (#[trigger] self.probs@[i]).0 < self.audio_buffer@.len()
        &&& self.absolute_offset_samples + self.audio_buffer@.len() <= usize::MAX
        &&& self.results.wf()
    }

    /// Every window that was handed out is being worked on or has come back.
    pub open spec fn balanced(&self) -> bool {
        self.stats.windows_dispatched == self.in_flight + self.stats.windows_completed
    }

    /// True where two states belong to the same stream.
    pub open spec fn same_job(&self, other: &ActiveLiveJob) -> bool {
        &&& self.job_id == other.job_id
        &&& self.vad_config == other.vad_config
        &&& self.options == other.options
    }

    /// True where two states hold the same audio.
    pub open spec fn same_audio(&self, other: &ActiveLiveJob) -> bool {
        &&& self.audio_buffer@ == other.audio_buffer@
        &&& self.absolute_offset_samples == other.absolute_offset_samples
        &&& self.probs@ == other.probs@
    }

    /// True where the same windows have been handed out and have come back.
    pub open spec fn same_work(&self, other: &ActiveLiveJob) -> bool {
        &&& self.stats == other.stats
        &&& self.in_flight == other.in_flight
        &&& self.next_window_index == other.next_window_index
        &&& self.results == other.results
    }

    /// The segments of speech in the buffer, if speech is detected.
    pub open spec fn segments(&self) -> Option<Seq<(int, int)>> {
        match self.vad_config {
            Some(config) => Some(
                speech_segments(self.audio_buffer@.len() as int, self.probs@, config),
            ),
            None => None,
        }
    }

    /// The next window.
    pub open spec fn plan(&self) -> Option<PlanView> {
        planned(self.audio_buffer@.len() as int, self.segments(), self.producer_closed)
    }

    /// True where a chunk of `len` samples can be taken.
    pub open spec fn has_room(&self, len: int) -> bool {
        &&& self.absolute_offset_samples + self.audio_buffer@.len() + len <= usize::MAX
        &&& self.vad_config matches Some(config) ==> config.window_samples > 0
    }

    /// A stream of which nothing has come.
    pub fn new(job_id: usize, header: &RequestHeader, vad_enabled: bool) -> (job: ActiveLiveJob)
        ensures
            job.wf(),
            job.balanced(),
            job.job_id == job_id,
            job.vad_config is Some <==> vad_enabled,
            job.vad_config matches Some(config) ==> ({
                &&& config.threshold == or_default(header.vad_threshold, F32 { bits: 0x3f00_0000 })
                &&& config.min_speech_ms == or_default(header.vad_min_speech_ms, 250)
                &&& config.min_silence_ms == or_default(header.vad_min_silence_ms, 100)
                &&& config.speech_pad_ms == or_default(header.vad_speech_pad_ms, 100)
                &&& config.window_samples == or_default(header.vad_window_samples, 512)
            }),
            options_follow(job.options, *header),
            job.options.suppress_tokens@ == or_default(
                parsed_mode(header.suppress_tokens@),
                SuppressView::Default,
            ),
            job.audio_buffer@.len() == 0,
            job.absolute_offset_samples == 0,
            job.probs@.len() == 0,
            !job.producer_closed,
            job.in_flight == 0,
            job.stats.windows_dispatched == 0,
            job.next_window_index == 0,
            job.results.pending@ == Map::<usize, WindowTranscription>::empty(),
            job.results.next == 0,
    {
        let vad_config = if vad_enabled {
            Some(vad_config_for(header))
        } else {
            None
        };
        ActiveLiveJob {
            job_id,
            vad_config,
            options: live_options(header),
            audio_buffer: Vec::new(),
            absolute_offset_samples: 0,
            probs: Vec::new(),
            producer_closed: false,
            stats: LiveTranscriptionStats::default(),
            in_flight: 0,
            next_window_index: 0,
            results: OrderedResults::new(),
        }
    }

    /// True when the whole stream has been transcribed.
    pub open spec fn spec_complete(&self) -> bool {
        self.producer_closed && self.audio_buffer@.len() == 0 && self.in_flight == 0
    }

    /// Whether the whole stream has been transcribed.
    pub fn is_complete(&self) -> (complete: bool)
        ensures
            complete == self.spec_complete(),
    {
        self.producer_closed && self.audio_buffer.len() == 0 && self.in_flight == 0
    }

    /// Whether more audio is to be taken: not while as many windows as allowed are worked on.
    pub fn wants_chunks(&self, max_in_flight: usize) -> (wants: bool)
        ensures
            wants == (!self.producer_closed && self.in_flight < max_in_flight),
    {
        !self.producer_closed && self.in_flight < max_in_flight
    }

    /// The pieces of a chunk of `len` samples of which the detector is to give probabilities.
    pub fn windows_to_score(&self, len: usize) -> (pieces: Vec<(usize, usize)>)
        requires
            self.vad_config matches Some(config) ==> config.window_samples > 0,
        ensures
            match self.vad_config {
                None => pieces@.len() == 0,
                Some(config) => {
                    &&& pieces@.len() == chunk_count(len as int, config.window_samples as int)
                    &&& forall|i: int|
                        0 <= i < pieces@.len() ==> (#[trigger] pieces@[i]).0 == chunk(
                            len as int,
                            config.window_samples as int,
                            i,
                        ).0 && pieces@[i].1 == chunk(len as int, config.window_samples as int, i).1
                },
            },
    {
        match self.vad_config {
            Some(config) => chunk_bounds(len, config.window_samples),
            None => Vec::new(),
        }
    }

    /// Takes a chunk with the probabilities of its pieces. Where there are fewer than pieces, the
    /// detector has failed: nothing more is taken then, and the answer is `false`.
    pub fn accept_samples(&mut self, samples: &[i16], probabilities: &[F32]) -> (sound: bool)
        requires
            old(self).wf(),
            old(self).has_room(samples@.len() as int),
            match old(self).vad_config {
                None => probabilities@.len() == 0,
                Some(config) => probabilities@.len() <= chunk_count(
                    samples@.len() as int,
                    config.window_samples as int,
                ),
            },
        ensures
            final(self).wf(),
            final(self).same_job(old(self)),
            final(self).same_work(old(self)),
            final(self).audio_buffer@ == old(self).audio_buffer@ + samples@,
            final(self).absolute_offset_samples == old(self).absolute_offset_samples,
            match old(self).vad_config {
                None => sound && final(self).probs@ == old(self).probs@,
                Some(config) => {
                    &&& final(self).probs@ == old(self).probs@ + scored(
                        old(self).audio_buffer@.len() as int,
                        config.window_samples as int,
                        probabilities@,
                    )
                    &&& sound == (probabilities@.len() == chunk_count(
                        samples@.len() as int,
                        config.window_samples as int,
                    ))
                },
            },
            final(self).producer_closed == (old(self).producer_closed || !sound),
    {
        let pieces = self.windows_to_score(samples.len());
        let first: usize = self.audio_buffer.len();
        let ghost before = self.probs@;
        let ghost len = samples@.len() as int;
        let ghost size = match self.vad_config {
            Some(config) => config.window_samples as int,
            None => 1,
        };
        self.audio_buffer.extend_from_slice(samples);
        assert(self.audio_buffer@ =~= old(self).audio_buffer@ + samples@);
        let mut i: usize = 0;
        assert(self.probs@ =~= before + scored(first as int, size, probabilities@.take(0)));
        while i < probabilities.len()
            invariant
                self.wf(),
                self.same_job(old(self)),
                self.same_work(old(self)),
                self.audio_buffer@ == old(self).audio_buffer@ + samples@,
                self.absolute_offset_samples == old(self).absolute_offset_samples,
                self.producer_closed == old(self).producer_closed,
                i <= probabilities@.len() <= pieces@.len(),
                size > 0,
                len == samples@.len(),
                pieces@.len() > 0 ==> pieces@.len() == chunk_count(len, size),
                forall|j: int|
                    0 <= j < pieces@.len() ==> (#[trigger] pieces@[j]).0 == chunk(len, size, j).0,
                first == old(self).audio_buffer@.len(),
                first + len <= usize::MAX,
                before == old(self).probs@,
                old(self).wf(),
                self.probs@ == before + scored(first as int, size, probabilities@.take(i as int)),
            decreases probabilities@.len() - i,
        {
            let ghost at = self.probs@;
            let ghost k = i as int;
            proof {
                lemma_piece_start(len, size, k);
                assert(pieces@[k].0 == chunk(len, size, k).0);
                if k > 0 {
                    assert((k - 1) * size < k * size) by (nonlinear_arith)
                        requires
                            size > 0,
                    ;
                    assert(at[at.len() - 1] == scored(first as int, size, probabilities@.take(k))[k
                        - 1]);
                    lemma_piece_start(len, size, k - 1);
                } else {
                    assert(at =~= before);
                }
            }
            self.probs.push((first + pieces[i].0, probabilities[i]));
            proof {
                let now = self.probs@;
                assert forall|j: int| 0 <= j < now.len() implies (#[trigger] now[j]).0
                    < self.audio_buffer@.len() && now[j].0 <= now[now.len() - 1].0 by {
                    if j < at.len() {
                        assert(now[j] == at[j]);
                        assert(at[j].0 <= at[at.len() - 1].0);
                    }
                }
                assert forall|a: int, b: int| 0 <= a <= b < now.len() implies (#[trigger] now[a]).0 <= (
                #[trigger] now[b]).0 by {
                    if b < at.len() {
                        assert(now[a] == at[a] && now[b] == at[b]);
                    }
                }
            }
            i = i + 1;
            assert(self.probs@ =~= before + scored(
                first as int,
                size,
                probabilities@.take(i as int),
            ));
        }
        assert(probabilities@.take(probabilities@.len() as int) =~= probabilities@);
        if probabilities.len() < pieces.len() {
            self.producer_closed = true;
            return false;
        }
        assert(self.vad_config is None ==> self.probs@ =~= before);
        true
    }

    /// Nothing more comes: the stream has ended or has failed.
    pub fn close(&mut self)
        requires
            old(self).wf(),
        ensures
            final(self).wf(),
            final(self).same_job(old(self)),
            final(self).same_audio(old(self)),
            final(self).same_work(old(self)),
            final(self).producer_closed,
    {
        self.producer_closed = true;
    }

    /// The segments of speech in the buffer lie in it, in order.
    proof fn lemma_segments(&self)
        requires
            self.wf(),
        ensures
            self.segments() matches Some(segments) ==> segments_within(
                segments,
                self.audio_buffer@.len() as int,
            ),
    {
        match self.vad_config {
            Some(config) => {
                let len = self.audio_buffer@.len() as int;
                segments_are_ordered(len, self.probs@, config);
                let runs = all_runs(
                    scan(
                        self.probs@,
                        len,
                        config.window_samples as int,
                        config.threshold,
                        samples_in_ms(config.min_silence_ms as int),
                    ),
                );
                segments_are_apart(
                    runs,
                    len,
                    samples_in_ms(config.min_speech_ms as int),
                    samples_in_ms(config.speech_pad_ms as int),
                );
            },
            None => {},
        }
    }

    /// Drops what is buffered when nothing more comes and there is no speech in it.
    pub fn refresh_speech_state(&mut self)
        requires
            old(self).wf(),
        ensures
            final(self).wf(),
            final(self).same_job(old(self)),
            final(self).same_work(old(self)),
            final(self).producer_closed == old(self).producer_closed,
            if old(self).producer_closed && old(self).segments() == Some(Seq::<(int, int)>::empty()) {
                &&& final(self).audio_buffer@.len() == 0
                &&& final(self).absolute_offset_samples == old(self).absolute_offset_samples
                    + old(self).audio_buffer@.len()
                &&& final(self).probs@.len() == 0
            } else {
                final(self).same_audio(old(self))
            },
    {
        proof {
            if self.audio_buffer@.len() == 0 {
                assert(self.probs@.len() == 0) by {
                    if self.probs@.len() > 0 {
                        assert(self.probs@[0].0 < self.audio_buffer@.len());
                    }
                }
            }
        }
        if self.audio_buffer.len() == 0 {
            return;
        }
        match self.vad_config {
            Some(config) => {
                let segments = segments_from_probs(
                    self.audio_buffer.len(),
                    self.probs.as_slice(),
                    &config,
                );
                let ghost found = bounds(segments@);
                assert(found.len() == segments@.len());
                if segments.len() == 0 && self.producer_closed {
                    assert(found =~= Seq::<(int, int)>::empty());
                    self.absolute_offset_samples = self.absolute_offset_samples
                        + self.audio_buffer.len();
                    self.audio_buffer.clear();
                    self.probs.clear();
                }
            },
            None => {},
        }
    }

    /// The next window, if one is ready.
    pub fn next_dispatch_plan(&self) -> (out: Option<DispatchPlan>)
        requires
            self.wf(),
        ensures
            match self.plan() {
                Some(plan) => out is Some && out->0@ == plan,
                None => out is None,
            },
    {
        let buffered: usize = self.audio_buffer.len();
        let closed: bool = self.producer_closed && buffered > 0;
        match self.vad_config {
            Some(config) => {
                let segments = segments_from_probs(buffered, self.probs.as_slice(), &config);
                let ghost spans = bounds(segments@);
                proof {
                    self.lemma_segments();
                    assert(spans.len() == segments@.len());
                    assert forall|i: int| 0 <= i < spans.len() implies (#[trigger] spans[i]).0
                        == segments@[i].start_sample && spans[i].1 == segments@[i].end_sample by {}
                }
                let count: usize = segments.len();
                if count == 0 {
                    return None;
                }
                let start_sample: usize = segments[0].start_sample;
                let mut last: usize = 0;
                proof {
                    assert(spans[0].0 == start_sample);
                    assert forall|i: int| 0 <= i < segments@.len() implies (#[trigger] segments@[i]).end_sample
                        >= start_sample by {
                        if i > 0 {
                            assert(spans[0].1 < spans[i].0);
                        }
                        assert(spans[i].1 == segments@[i].end_sample);
                    }
                }
                while last + 1 < count && segments[last + 1].end_sample - start_sample
                    <= DISPATCH_SAMPLES
                    invariant
                        last < count == segments@.len() == spans.len(),
                        start_sample == spans[0].0,
                        forall|i: int|
                            0 <= i < spans.len() ==> (#[trigger] spans[i]).0
                                == segments@[i].start_sample && spans[i].1
                                == segments@[i].end_sample,
                        segments_within(spans, buffered as int),
                        last_fitting(spans, last as int) == last_fitting(spans, 0),
                        forall|i: int|
                            0 <= i < segments@.len() ==> (#[trigger] segments@[i]).end_sample
                                >= start_sample,
                    decreases count - last,
                {
                    assert(spans[last + 1].1 == segments@[last + 1].end_sample);
                    last = last + 1;
                }
                let last_end: usize = segments[last].end_sample;
                let full: bool = last_end - start_sample >= DISPATCH_SAMPLES;
                let timed_out: bool = buffered - last_end >= SILENCE_TIMEOUT_SAMPLES;
                if last + 1 < count || full || timed_out || closed {
                    let end_sample: usize = if full {
                        start_sample + DISPATCH_SAMPLES
                    } else {
                        last_end
                    };
                    let mut speech_events: Vec<(usize, usize)> = Vec::new();
                    let mut i: usize = 0;
                    let ghost events = speech_in(spans, last + 1, end_sample as int);
                    assert(pair_bounds(speech_events@) =~= events.take(0));
                    while i < last + 1
                        invariant
                            i <= last + 1 <= count == segments@.len() == spans.len(),
                            forall|i: int|
                                0 <= i < spans.len() ==> (#[trigger] spans[i]).0
                                    == segments@[i].start_sample && spans[i].1
                                    == segments@[i].end_sample,
                            events == speech_in(spans, last + 1, end_sample as int),
                            pair_bounds(speech_events@) == events.take(i as int),
                        decreases last + 1 - i,
                    {
                        let end: usize = if segments[i].end_sample <= end_sample {
                            segments[i].end_sample
                        } else {
                            end_sample
                        };
                        let ghost before = speech_events@;
                        assert(spans[i as int].0 == segments@[i as int].start_sample);
                        speech_events.push((segments[i].start_sample, end));
                        i = i + 1;
                        assert(pair_bounds(speech_events@) =~= pair_bounds(before).push(
                            events[i - 1],
                        ));
                        assert(events.take(i as int) =~= events.take(i - 1).push(events[i - 1]));
                    }
                    assert(events.take(events.len() as int) =~= events);
                    return Some(DispatchPlan { start_sample, end_sample, speech_events });
                }
                None
            },
            None => {
                if buffered >= DISPATCH_SAMPLES || closed {
                    let end_sample: usize = if buffered < DISPATCH_SAMPLES {
                        buffered
                    } else {
                        DISPATCH_SAMPLES
                    };
                    let speech_events: Vec<(usize, usize)> = Vec::new();
                    assert(pair_bounds(speech_events@) =~= Seq::<(int, int)>::empty());
                    return Some(DispatchPlan { start_sample: 0, end_sample, speech_events });
                }
                None
            },
        }
    }

    /// The probabilities of the windows that start at `end` or behind it, counted from there.
    fn move_probs(&mut self, end: usize)
        ensures
            final(self).probs@ == moved(old(self).probs@, end as int),
            final(self).same_job(old(self)),
            final(self).same_work(old(self)),
            final(self).audio_buffer == old(self).audio_buffer,
            final(self).absolute_offset_samples == old(self).absolute_offset_samples,
            final(self).producer_closed == old(self).producer_closed,
    {
        let ghost all = self.probs@;
        let mut kept: Vec<(usize, F32)> = Vec::new();
        let mut i: usize = 0;
        assert(all.take(0) =~= Seq::<(usize, F32)>::empty());
        while i < self.probs.len()
            invariant
                *self == *old(self),
                all == self.probs@,
                i <= all.len(),
                kept@ == moved(all.take(i as int), end as int),
            decreases all.len() - i,
        {
            let (start, prob) = self.probs[i];
            if start >= end {
                kept.push((start - end, prob));
            }
            i = i + 1;
            assert(all.take(i as int).drop_last() =~= all.take(i - 1));
            assert(all.take(i as int).last() == all[i - 1]);
        }
        assert(all.take(all.len() as int) =~= all);
        self.probs = kept;
    }

    /// Takes the next window off the buffer, if one is ready. What stands before its first speech
    /// is dropped with it; what stands behind it stays.
    pub fn take_window(&mut self) -> (out: Option<LiveDispatch>)
        requires
            old(self).wf(),
        ensures
            final(self).wf(),
            final(self).same_job(old(self)),
            final(self).same_work(old(self)),
            final(self).producer_closed == old(self).producer_closed,
            match old(self).plan() {
                None => out is None && final(self).same_audio(old(self)),
                Some(plan) => {
                    &&& out matches Some(window) && window.job_id == old(self).job_id
                        && window.window_index == old(self).next_window_index && window.start_sample
                        == old(self).absolute_offset_samples + plan.start && window.samples@
                        == old(self).audio_buffer@.subrange(plan.start, plan.end) && pair_bounds(
                        window.speech_events@,
                    ) == later_by(plan.events, old(self).absolute_offset_samples as int)
                    &&& final(self).audio_buffer@ == old(self).audio_buffer@.skip(plan.end)
                    &&& final(self).absolute_offset_samples == old(self).absolute_offset_samples
                        + plan.end
                    &&& final(self).probs@ == moved(old(self).probs@, plan.end)
                },
            },
    {
        let plan = match self.next_dispatch_plan() {
            Some(plan) => plan,
            None => {
                return None;
            },
        };
        let ghost view = plan@;
        let ghost buffered = self.audio_buffer@;
        let ghost probs = self.probs@;
        let offset: usize = self.absolute_offset_samples;
        let start: usize = plan.start_sample;
        let end: usize = plan.end_sample;
        proof {
            self.lemma_segments();
            match self.segments() {
                Some(segments) => {
                    plan_keeps_speech(buffered.len() as int, segments, self.producer_closed);
                    assert forall|i: int| 0 <= i < view.events.len() implies 0 <= (
                    #[trigger] view.events[i]).0 <= buffered.len() && 0 <= view.events[i].1
                        <= buffered.len() by {
                        assert(segments[i].0 <= segments[i].1);
                    }
                },
                None => {},
            }
            assert(0 <= start <= end <= buffered.len());
        }
        let mut speech_events: Vec<(usize, usize)> = Vec::new();
        let mut i: usize = 0;
        let ghost events = later_by(view.events, offset as int);
        assert(pair_bounds(speech_events@) =~= events.take(0));
        while i < plan.speech_events.len()
            invariant
                i <= plan.speech_events@.len(),
                view == plan@,
                events == later_by(view.events, offset as int),
                pair_bounds(speech_events@) == events.take(i as int),
                offset + buffered.len() <= usize::MAX,
                forall|i: int|
                    0 <= i < view.events.len() ==> 0 <= (#[trigger] view.events[i]).0
                        <= buffered.len() && 0 <= view.events[i].1 <= buffered.len(),
            decreases plan.speech_events@.len() - i,
        {
            let (from, to) = plan.speech_events[i];
            assert(view.events[i as int].0 == from && view.events[i as int].1 == to);
            let ghost before = speech_events@;
            speech_events.push((offset + from, offset + to));
            i = i + 1;
            assert(pair_bounds(speech_events@) =~= pair_bounds(before).push(events[i - 1]));
            assert(events.take(i as int) =~= events.take(i - 1).push(events[i - 1]));
        }
        assert(events.take(events.len() as int) =~= events);
        let samples: Vec<i16> = slice_to_vec(
            slice_subrange(self.audio_buffer.as_slice(), start, end),
        );
        let rest: Vec<i16> = slice_to_vec(
            slice_subrange(self.audio_buffer.as_slice(), end, self.audio_buffer.len()),
        );
        self.move_probs(end);
        self.audio_buffer = rest;
        self.absolute_offset_samples = offset + end;
        proof {
            assert(self.audio_buffer@ =~= buffered.skip(end as int));
            assert forall|i: int| 0 <= i < probs.len() implies (#[trigger] probs[i]).0
                <= buffered.len() - 1 by {
                assert(probs[i].0 < buffered.len());
            }
            lemma_moved(probs, end as int, buffered.len() - 1);
        }
        Some(
            LiveDispatch {
                job_id: self.job_id,
                window_index: self.next_window_index,
                start_sample: offset + start,
                samples,
                speech_events,
            },
        )
    }

    /// A worker has taken the last window.
    pub fn confirm_dispatch(&mut self)
        requires
            old(self).wf(),
            old(self).in_flight < usize::MAX,
            old(self).stats.windows_dispatched < usize::MAX,
            old(self).next_window_index < usize::MAX,
        ensures
            final(self).wf(),
            final(self).same_job(old(self)),
            final(self).same_audio(old(self)),
            final(self).producer_closed == old(self).producer_closed,
            final(self).results == old(self).results,
            final(self).in_flight == old(self).in_flight + 1,
            final(self).stats.windows_dispatched == old(self).stats.windows_dispatched + 1,
            final(self).stats.windows_completed == old(self).stats.windows_completed,
            final(self).next_window_index == old(self).next_window_index + 1,
            old(self).balanced() ==> final(self).balanced(),
    {
        self.in_flight = self.in_flight + 1;
        self.stats.windows_dispatched = self.stats.windows_dispatched + 1;
        self.next_window_index = self.next_window_index + 1;
    }

    /// A window has come back. Gives out the windows that are now in turn.
    pub fn handle_result(&mut self, result: WindowTranscription) -> (out: Vec<WindowTranscription>)
        requires
            old(self).wf(),
            old(self).stats.windows_completed < usize::MAX,
            result.window_index < usize::MAX,
        ensures
            final(self).wf(),
            final(self).same_job(old(self)),
            final(self).same_audio(old(self)),
            final(self).producer_closed == old(self).producer_closed,
            final(self).next_window_index == old(self).next_window_index,
            final(self).in_flight == (if old(self).in_flight > 0 {
                old(self).in_flight - 1
            } else {
                0
            }),
            final(self).stats.windows_dispatched == old(self).stats.windows_dispatched,
            final(self).stats.windows_completed == old(self).stats.windows_completed + 1,
            old(self).balanced() && old(self).in_flight > 0 ==> final(self).balanced(),
            releases(
                old(self).results.pending@.insert(result.window_index, result),
                old(self).results.next as int,
                out@,
                final(self).results.pending@,
                final(self).results.next as int,
            ),
    {
        self.in_flight = if self.in_flight > 0 {
            self.in_flight - 1
        } else {
            0
        };
        self.stats.windows_completed = self.stats.windows_completed + 1;
        let index: usize = result.window_index;
        self.results.accept(index, result)
    }
}

/// Places in the audio, counted from `offset` earlier.
pub open spec fn later_by(events: Seq<(int, int)>, offset: int) -> Seq<(int, int)> {
    Seq::new(events.len(), |i: int| (events[i].0 + offset, events[i].1 + offset))
}

/// Taking a window off keeps what was detected behind it: each piece that starts at `end` or behind
/// it stays, with its probability, at the same place counted from there; no other piece is there;
/// and they keep their order.
pub proof fn detection_behind_a_window_stays(probs: Seq<(usize, F32)>, end: int)
    requires
        0 <= end,
    ensures
        moved(probs, end) == probs.filter(|p: (usize, F32)| p.0 >= end).map_values(
            |p: (usize, F32)| ((p.0 - end) as usize, p.1),
        ),
        forall|i: int|
            0 <= i < probs.len() && (#[trigger] probs[i]).0 >= end ==> moved(probs, end).contains(
                ((probs[i].0 - end) as usize, probs[i].1),
            ),
        forall|j: int|
            0 <= j < moved(probs, end).len() ==> exists|i: int|
                0 <= i < probs.len() && (#[trigger] probs[i]).0 == (#[trigger] moved(
                    probs,
                    end,
                )[j]).0 + end && probs[i].1 == moved(probs, end)[j].1,
    decreases probs.len(),
{
    reveal(Seq::filter);
    let after = moved(probs, end);
    let keep = |p: (usize, F32)| p.0 >= end;
    let shift = |p: (usize, F32)| ((p.0 - end) as usize, p.1);
    if probs.len() > 0 {
        let rest = probs.drop_last();
        let before = moved(rest, end);
        let n = probs.len() - 1;
        detection_behind_a_window_stays(rest, end);
        assert(after =~= probs.filter(keep).map_values(shift));
        assert forall|i: int| 0 <= i < probs.len() && (#[trigger] probs[i]).0 >= end implies after.contains(
            ((probs[i].0 - end) as usize, probs[i].1),
        ) by {
            let p = ((probs[i].0 - end) as usize, probs[i].1);
            if i < n {
                assert(rest[i] == probs[i]);
                assert(before.contains(p));
                let j = choose|j: int| 0 <= j < before.len() && before[j] == p;
                assert(after[j] == p);
            } else {
                assert(after[after.len() - 1] == p);
            }
        }
        assert forall|j: int| 0 <= j < after.len() implies exists|i: int|
            0 <= i < probs.len() && (#[trigger] probs[i]).0 == (#[trigger] after[j]).0 + end
                && probs[i].1 == after[j].1 by {
            if j < before.len() {
                assert(after[j] == before[j]);
                let i = choose|i: int|
                    0 <= i < rest.len() && (#[trigger] rest[i]).0 == before[j].0 + end && rest[i].1
                        == before[j].1;
                assert(probs[i] == rest[i]);
            } else {
                assert(probs[n].0 == after[j].0 + end);
            }
        }
    } else {
        assert(after =~= probs.filter(keep).map_values(shift));
    }
}

/// Without detection no sample is lost: a window is the start of what was buffered, and what stays
/// follows it.
pub proof fn undetected_windows_lose_nothing(
    received: Seq<i16>,
    sent: Seq<i16>,
    before: ActiveLiveJob,
    plan: PlanView,
)
    requires
        received == sent + before.audio_buffer@,
        before.vad_config is None,
        before.plan() == Some(plan),
    ensures
        received == sent + before.audio_buffer@.subrange(plan.start, plan.end)
            + before.audio_buffer@.skip(plan.end),
        0 < plan.end - plan.start <= DISPATCH_SAMPLES,
{
    let buffered = before.audio_buffer@;
    assert(plan.start == 0 && plan.end <= buffered.len());
    assert(buffered =~= buffered.subrange(plan.start, plan.end) + buffered.skip(plan.end));
    assert(received =~= sent + buffered.subrange(plan.start, plan.end) + buffered.skip(plan.end));
}

/// A stream that has ended comes to an end: as long as something is buffered, either there is no
/// speech in it and it is dropped, or a window is ready that takes at least one sample off it.
pub proof fn ended_streams_drain(job: ActiveLiveJob)
    requires
        job.wf(),
        job.vad_config matches Some(config) ==> config.window_samples > 0,
        job.producer_closed,
        job.audio_buffer@.len() > 0,
    ensures
        job.segments() == Some(Seq::<(int, int)>::empty()) || (job.plan() is Some && 0
            < job.plan()->0.end <= job.audio_buffer@.len()),
{
    job.lemma_segments();
    match job.vad_config {
        Some(config) => {
            let len = job.audio_buffer@.len() as int;
            let segments = job.segments()->0;
            if segments.len() > 0 {
                lemma_last_fitting(segments, 0);
                plan_keeps_speech(len, segments, true);
                segments_end_later(len, job.probs@, config, last_fitting(segments, 0));
            } else {
                assert(segments =~= Seq::<(int, int)>::empty());
            }
        },
        None => {},
    }
}

////////////////////////////////////////////////////////////////////////////////
// Several live streams
////////////////////////////////////////////////////////////////////////////////

/// The live streams of a model and the workers that wait for windows.
pub struct LiveJobs {
    pub max_active_jobs: usize,
    pub max_in_flight: usize,
    pub jobs: Vec<ActiveLiveJob>,
    pub ready_workers: VecDeque<usize>,
    /// The stream whose turn it is.
    pub dispatch_cursor: usize,
}

/// A window and the worker that it goes to.
#[derive(Debug)]
pub struct Assignment {
    pub worker_id: usize,
    pub job: usize,
    pub window: LiveDispatch,
}

/// The stream whose turn comes after `k` others.
pub open spec fn turn(cursor: int, count: int, k: int) -> int {
    (cursor + k) % count
}

/// True where a window of a stream may go to a worker.
pub open spec fn dispatchable(job: ActiveLiveJob, max_in_flight: usize) -> bool {
    job.in_flight < max_in_flight && job.plan() is Some
}

/// True where stream `i` is the next one in turn of which a window may go to a worker.
pub open spec fn selects(jobs: Seq<ActiveLiveJob>, max_in_flight: usize, cursor: int, i: int) -> bool {
    exists|k: int|
        0 <= k < jobs.len() && i == #[trigger] turn(cursor, jobs.len() as int, k) && dispatchable(
            jobs[i],
            max_in_flight,
        ) && forall|m: int|
            0 <= m < k ==> !dispatchable(
                jobs[#[trigger] turn(cursor, jobs.len() as int, m)],
                max_in_flight,
            )
}

impl LiveJobs {
    /// All streams are well formed.
    pub open spec fn wf(&self) -> bool {
        forall|i: int| 0 <= i < self.jobs@.len() ==> (#[trigger] self.jobs@[i]).wf()
    }

    /// One stream. A stream never has more windows worked on than there are workers.
    pub fn new(first: ActiveLiveJob, config: &ConcurrencyConfig) -> (live: LiveJobs)
        requires
            first.wf(),
        ensures
            live.wf(),
            live.jobs@ == seq![first],
            live.max_active_jobs == config.max_active_jobs_per_model,
            live.max_in_flight == least(
                config.max_in_flight_windows_per_job as int,
                NPU_WORKERS as int,
            ),
            live.ready_workers@.len() == 0,
            live.dispatch_cursor == 0,
    {
        let max_in_flight: usize = if config.max_in_flight_windows_per_job < NPU_WORKERS {
            config.max_in_flight_windows_per_job
        } else {
            NPU_WORKERS
        };
        let mut jobs: Vec<ActiveLiveJob> = Vec::new();
        jobs.push(first);
        assert(jobs@ =~= seq![first]);
        LiveJobs {
            max_active_jobs: config.max_active_jobs_per_model,
            max_in_flight,
            jobs,
            ready_workers: VecDeque::new(),
            dispatch_cursor: 0,
        }
    }

    /// Whether another job is to be taken: not while one is put off, and not while as many streams
    /// as allowed are there.
    pub fn may_accept_job(&self, none_deferred: bool) -> (may: bool)
        ensures
            may == (none_deferred && self.jobs@.len() < self.max_active_jobs),
    {
        none_deferred && self.jobs.len() < self.max_active_jobs
    }

    /// Whether results are to be waited for.
    pub fn wants_results(&self) -> (wants: bool)
        ensures
            wants == exists|i: int| 0 <= i < self.jobs@.len() && (#[trigger] self.jobs@[i]).in_flight > 0,
    {
        let mut i: usize = 0;
        while i < self.jobs.len()
            invariant
                i <= self.jobs@.len(),
                forall|j: int| 0 <= j < i ==> (#[trigger] self.jobs@[j]).in_flight == 0,
            decreases self.jobs@.len() - i,
        {
            if self.jobs[i].in_flight > 0 {
                return true;
            }
            i = i + 1;
        }
        false
    }

    /// The stream with an id.
    pub fn find_job(&self, job_id: usize) -> (found: Option<usize>)
        ensures
            match found {
                Some(i) => i < self.jobs@.len() && self.jobs@[i as int].job_id == job_id && forall|
                    j: int,
                |
                    0 <= j < i ==> (#[trigger] self.jobs@[j]).job_id != job_id,
                None => forall|j: int|
                    0 <= j < self.jobs@.len() ==> (#[trigger] self.jobs@[j]).job_id != job_id,
            },
    {
        let mut i: usize = 0;
        while i < self.jobs.len()
            invariant
                i <= self.jobs@.len(),
                forall|j: int| 0 <= j < i ==> (#[trigger] self.jobs@[j]).job_id != job_id,
            decreases self.jobs@.len() - i,
        {
            if self.jobs[i].job_id == job_id {
                return Some(i);
            }
            i = i + 1;
        }
        None
    }

    /// The next stream in turn of which a window may go to a worker. The turn moves on behind it,
    /// and comes round to where it was if there is none.
    pub fn select_job(&mut self) -> (selected: Option<usize>)
        requires
            old(self).wf(),
            old(self).jobs@.len() > 0,
        ensures
            final(self).wf(),
            final(self).jobs == old(self).jobs,
            final(self).ready_workers == old(self).ready_workers,
            final(self).max_active_jobs == old(self).max_active_jobs,
            final(self).max_in_flight == old(self).max_in_flight,
            match selected {
                Some(i) => {
                    &&& i < old(self).jobs@.len()
                    &&& selects(
                        old(self).jobs@,
                        old(self).max_in_flight,
                        old(self).dispatch_cursor as int,
                        i as int,
                    )
                    &&& final(self).dispatch_cursor == (i + 1) % (old(self).jobs@.len() as int)
                },
                None => {
                    &&& forall|i: int|
                        0 <= i < old(self).jobs@.len() ==> !dispatchable(
                            #[trigger] old(self).jobs@[i],
                            old(self).max_in_flight,
                        )
                    &&& final(self).dispatch_cursor == old(self).dispatch_cursor % (old(
                        self).jobs@.len() as usize)
                },
            },
    {
        let count: usize = self.jobs.len();
        let ghost n = count as int;
        let ghost cursor = self.dispatch_cursor as int;
        let mut at: usize = self.dispatch_cursor % count;
        let mut tried: usize = 0;
        assert(at == turn(cursor, n, 0));
        while tried < count
            invariant
                *self == *old(self),
                self.wf(),
                count == self.jobs@.len() == n,
                n > 0,
                tried <= count,
                at < count,
                cursor == old(self).dispatch_cursor,
                at == turn(cursor, n, tried as int),
                forall|m: int|
                    0 <= m < tried ==> !dispatchable(
                        self.jobs@[#[trigger] turn(cursor, n, m)],
                        self.max_in_flight,
                    ),
            decreases count - tried,
        {
            let idx: usize = at;
            assert(self.jobs@[idx as int].wf());
            let eligible: bool = self.jobs[idx].in_flight < self.max_in_flight
                && self.jobs[idx].next_dispatch_plan().is_some();
            at = if idx + 1 == count {
                0
            } else {
                idx + 1
            };
            proof {
                lemma_turn(cursor, n, tried as int);
            }
            if eligible {
                self.dispatch_cursor = at;
                return Some(idx);
            }
            tried = tried + 1;
        }
        proof {
            assert forall|i: int| 0 <= i < n implies !dispatchable(
                #[trigger] self.jobs@[i],
                self.max_in_flight,
            ) by {
                let m = turns_until(cursor, n, i);
                lemma_turns_until(cursor, n, i);
                assert(turn(cursor, n, m) == i);
            }
            lemma_full_turn(cursor, n);
        }
        self.dispatch_cursor = at;
        None
    }
}

/// The streams that are complete, or those that are not, in order.
pub open spec fn with_completion(jobs: Seq<ActiveLiveJob>, complete: bool) -> Seq<ActiveLiveJob> {
    jobs.filter(|job: ActiveLiveJob| job.spec_complete() == complete)
}

impl LiveJobs {
    /// True where only the streams can differ.
    pub open spec fn same_limits(&self, other: &LiveJobs) -> bool {
        &&& self.max_active_jobs == other.max_active_jobs
        &&& self.max_in_flight == other.max_in_flight
    }

    /// Another stream has come.
    pub fn add_job(&mut self, job: ActiveLiveJob)
        requires
            old(self).wf(),
            job.wf(),
        ensures
            final(self).wf(),
            final(self).same_limits(old(self)),
            final(self).jobs@ == old(self).jobs@.push(job),
            final(self).ready_workers == old(self).ready_workers,
            final(self).dispatch_cursor == old(self).dispatch_cursor,
    {
        self.jobs.push(job);
    }

    /// A worker is ready.
    pub fn worker_ready(&mut self, worker_id: usize)
        requires
            old(self).wf(),
        ensures
            final(self).wf(),
            final(self).same_limits(old(self)),
            final(self).jobs == old(self).jobs,
            final(self).ready_workers@ == old(self).ready_workers@.push(worker_id),
            final(self).dispatch_cursor == old(self).dispatch_cursor,
    {
        self.ready_workers.push_back(worker_id);
    }

    /// Hands a window of the next stream in turn to the first worker that is ready, if a worker is
    /// ready and a window is.
    pub fn next_assignment(&mut self) -> (out: Option<Assignment>)
        requires
            old(self).wf(),
        ensures
            final(self).wf(),
            final(self).same_limits(old(self)),
            final(self).jobs@.len() == old(self).jobs@.len(),
            match out {
                None => {
                    &&& final(self).jobs == old(self).jobs
                    &&& final(self).ready_workers == old(self).ready_workers
                    &&& final(self).dispatch_cursor == (if old(self).ready_workers@.len() == 0
                        || old(self).jobs@.len() == 0 {
                        old(self).dispatch_cursor as int
                    } else {
                        (old(self).dispatch_cursor as int) % (old(self).jobs@.len() as int)
                    })
                    &&& old(self).ready_workers@.len() == 0 || forall|i: int|
                        0 <= i < old(self).jobs@.len() ==> !dispatchable(
                            #[trigger] old(self).jobs@[i],
                            old(self).max_in_flight,
                        )
                },
                Some(assignment) => {
                    let i = assignment.job as int;
                    let job = old(self).jobs@[i];
                    let plan = job.plan()->0;
                    let window = assignment.window;
                    let after = final(self).jobs@[i];
                    &&& 0 <= i < old(self).jobs@.len()
                    &&& selects(
                        old(self).jobs@,
                        old(self).max_in_flight,
                        old(self).dispatch_cursor as int,
                        i,
                    )
                    &&& final(self).dispatch_cursor == (i + 1) % (old(self).jobs@.len() as int)
                    &&& assignment.worker_id == old(self).ready_workers@.first()
                    &&& final(self).ready_workers@ == old(self).ready_workers@.drop_first()
                    &&& forall|j: int|
                        0 <= j < old(self).jobs@.len() && j != i ==> #[trigger] final(
                            self).jobs@[j] == old(self).jobs@[j]
                    &&& window.job_id == job.job_id
                    &&& window.window_index == job.next_window_index
                    &&& window.start_sample == job.absolute_offset_samples + plan.start
                    &&& window.samples@ == job.audio_buffer@.subrange(plan.start, plan.end)
                    &&& pair_bounds(window.speech_events@) == later_by(
                        plan.events,
                        job.absolute_offset_samples as int,
                    )
                    &&& after.same_job(&job)
                    &&& after.same_work(&job)
                    &&& after.producer_closed == job.producer_closed
                    &&& after.audio_buffer@ == job.audio_buffer@.skip(plan.end)
                    &&& after.absolute_offset_samples == job.absolute_offset_samples + plan.end
                    &&& after.probs@ == moved(job.probs@, plan.end)
                },
            },
    {
        if self.ready_workers.len() == 0 || self.jobs.len() == 0 {
            return None;
        }
        let selected = match self.select_job() {
            Some(selected) => selected,
            None => {
                return None;
            },
        };
        let ghost jobs = self.jobs@;
        assert(jobs[selected as int].wf());
        match self.ready_workers.pop_front() {
            Some(worker_id) => {
                assert(self.ready_workers@ =~= old(self).ready_workers@.drop_first());
                match self.jobs[selected].take_window() {
                    Some(window) => Some(Assignment { worker_id, job: selected, window }),
                    None => None,
                }
            },
            None => None,
        }
    }

    /// The worker has taken the window that was handed to it.
    pub fn confirm_dispatch(&mut self, job: usize)
        requires
            old(self).wf(),
            job < old(self).jobs@.len(),
            old(self).jobs@[job as int].in_flight < usize::MAX,
            old(self).jobs@[job as int].stats.windows_dispatched < usize::MAX,
            old(self).jobs@[job as int].next_window_index < usize::MAX,
        ensures
            final(self).wf(),
            final(self).same_limits(old(self)),
            final(self).ready_workers == old(self).ready_workers,
            final(self).dispatch_cursor == old(self).dispatch_cursor,
            final(self).jobs@.len() == old(self).jobs@.len(),
            forall|j: int|
                0 <= j < old(self).jobs@.len() && j != job ==> #[trigger] final(self).jobs@[j] == old(
                    self).jobs@[j],
            ({
                let before = old(self).jobs@[job as int];
                let after = final(self).jobs@[job as int];
                &&& after.same_job(&before)
                &&& after.same_audio(&before)
                &&& after.producer_closed == before.producer_closed
                &&& after.results == before.results
                &&& after.in_flight == before.in_flight + 1
                &&& after.stats.windows_dispatched == before.stats.windows_dispatched + 1
                &&& after.stats.windows_completed == before.stats.windows_completed
                &&& after.next_window_index == before.next_window_index + 1
                &&& before.balanced() ==> after.balanced()
            }),
    {
        let ghost jobs = self.jobs@;
        assert(jobs[job as int].wf());
        self.jobs[job].confirm_dispatch();
    }

    /// A window has come back. Gives out the windows of its stream that are now in turn, with the
    /// place of the stream; nothing where the stream is no longer there.
    pub fn handle_result(&mut self, job_id: usize, result: WindowTranscription) -> (out: Option<
        (usize, Vec<WindowTranscription>),
    >)
        requires
            old(self).wf(),
            result.window_index < usize::MAX,
            forall|i: int|
                0 <= i < old(self).jobs@.len() ==> (#[trigger] old(
                    self).jobs@[i]).stats.windows_completed < usize::MAX,
        ensures
            final(self).wf(),
            final(self).same_limits(old(self)),
            final(self).ready_workers == old(self).ready_workers,
            final(self).dispatch_cursor == old(self).dispatch_cursor,
            final(self).jobs@.len() == old(self).jobs@.len(),
            match out {
                None => final(self).jobs == old(self).jobs && forall|j: int|
                    0 <= j < old(self).jobs@.len() ==> (#[trigger] old(self).jobs@[j]).job_id != job_id,
                Some((i, released)) => {
                    let before = old(self).jobs@[i as int];
                    let after = final(self).jobs@[i as int];
                    &&& i < old(self).jobs@.len()
                    &&& before.job_id == job_id
                    &&& forall|j: int| 0 <= j < i ==> (#[trigger] old(self).jobs@[j]).job_id != job_id
                    &&& forall|j: int|
                        0 <= j < old(self).jobs@.len() && j != i ==> #[trigger] final(
                            self).jobs@[j] == old(self).jobs@[j]
                    &&& after.same_job(&before)
                    &&& after.same_audio(&before)
                    &&& after.producer_closed == before.producer_closed
                    &&& after.next_window_index == before.next_window_index
                    &&& after.stats.windows_dispatched == before.stats.windows_dispatched
                    &&& after.stats.windows_completed == before.stats.windows_completed + 1
                    &&& after.in_flight == greatest(before.in_flight - 1, 0)
                    &&& before.balanced() && before.in_flight > 0 ==> after.balanced()
                    &&& releases(
                        before.results.pending@.insert(result.window_index, result),
                        before.results.next as int,
                        released@,
                        after.results.pending@,
                        after.results.next as int,
                    )
                },
            },
    {
        match self.find_job(job_id) {
            Some(i) => {
                let ghost jobs = self.jobs@;
                assert(jobs[i as int].wf());
                let released = self.jobs[i].handle_result(result);
                Some((i, released))
            },
            None => None,
        }
    }

    /// Drops what is buffered of every stream that has ended without speech in it.
    pub fn refresh_speech_state(&mut self)
        requires
            old(self).wf(),
        ensures
            final(self).wf(),
            final(self).same_limits(old(self)),
            final(self).ready_workers == old(self).ready_workers,
            final(self).dispatch_cursor == old(self).dispatch_cursor,
            final(self).jobs@.len() == old(self).jobs@.len(),
            forall|i: int|
                0 <= i < old(self).jobs@.len() ==> refreshed(
                    old(self).jobs@[i],
                    #[trigger] final(self).jobs@[i],
                ),
    {
        let mut i: usize = 0;
        while i < self.jobs.len()
            invariant
                self.wf(),
                self.same_limits(old(self)),
                self.ready_workers == old(self).ready_workers,
                self.dispatch_cursor == old(self).dispatch_cursor,
                i <= self.jobs@.len() == old(self).jobs@.len(),
                forall|j: int|
                    0 <= j < i ==> refreshed(old(self).jobs@[j], #[trigger] self.jobs@[j]),
                forall|j: int| i <= j < self.jobs@.len() ==> #[trigger] self.jobs@[j] == old(self).jobs@[j],
            decreases self.jobs@.len() - i,
        {
            let ghost jobs = self.jobs@;
            assert(jobs[i as int].wf());
            self.jobs[i].refresh_speech_state();
            i = i + 1;
        }
    }

    /// Takes out the streams that are complete, in order; the others stay, in order.
    pub fn remove_completed_jobs(&mut self) -> (removed: Vec<ActiveLiveJob>)
        requires
            old(self).wf(),
        ensures
            final(self).wf(),
            final(self).same_limits(old(self)),
            final(self).ready_workers == old(self).ready_workers,
            final(self).dispatch_cursor == old(self).dispatch_cursor,
            final(self).jobs@ == with_completion(old(self).jobs@, false),
            removed@ == with_completion(old(self).jobs@, true),
    {
        let ghost all = self.jobs@;
        let ghost mut seen: int = 0;
        let mut removed: Vec<ActiveLiveJob> = Vec::new();
        let mut i: usize = 0;
        proof {
            assert(all.take(0) =~= Seq::<ActiveLiveJob>::empty());
            reveal(Seq::filter);
            assert(all.skip(0) =~= all);
            assert(self.jobs@.skip(0) =~= all);
        }
        while i < self.jobs.len()
            invariant
                self.wf(),
                self.same_limits(old(self)),
                self.ready_workers == old(self).ready_workers,
                self.dispatch_cursor == old(self).dispatch_cursor,
                all == old(self).jobs@,
                0 <= seen <= all.len(),
                i <= self.jobs@.len(),
                self.jobs@.take(i as int) == with_completion(all.take(seen), false),
                removed@ == with_completion(all.take(seen), true),
                self.jobs@.skip(i as int) == all.skip(seen),
            decreases self.jobs@.len() - i,
        {
            let ghost jobs = self.jobs@;
            let ghost job = jobs[i as int];
            proof {
                assert(job == jobs.skip(i as int)[0]);
                assert(all.skip(seen).len() > 0);
                assert(job == all[seen]);
                assert(all.take(seen + 1) =~= all.take(seen).push(job));
                lemma_filter_push(all.take(seen), job);
            }
            if self.jobs[i].is_complete() {
                let done = self.jobs.remove(i);
                removed.push(done);
                assert(self.jobs@.take(i as int) =~= jobs.take(i as int));
                assert(self.jobs@.skip(i as int) =~= jobs.skip(i as int).skip(1));
            } else {
                i = i + 1;
                assert(self.jobs@.take(i as int) =~= jobs.take(i - 1).push(job));
                assert(self.jobs@.skip(i as int) =~= jobs.skip(i - 1).skip(1));
            }
            proof {
                assert(all.skip(seen).skip(1) =~= all.skip(seen + 1));
                seen = seen + 1;
            }
        }
        proof {
            assert(self.jobs@.take(i as int) =~= self.jobs@);
            assert(all.skip(seen).len() == 0);
            assert(all.take(seen) =~= all);
        }
        removed
    }

    /// A worker has failed: every stream fails with it. Gives out the streams.
    pub fn fail_all(&mut self) -> (failed: Vec<ActiveLiveJob>)
        requires
            old(self).wf(),
        ensures
            final(self).wf(),
            final(self).same_limits(old(self)),
            final(self).jobs@.len() == 0,
            final(self).ready_workers == old(self).ready_workers,
            final(self).dispatch_cursor == old(self).dispatch_cursor,
            failed@ == old(self).jobs@,
    {
        let mut failed: Vec<ActiveLiveJob> = Vec::new();
        failed.append(&mut self.jobs);
        assert(failed@ =~= old(self).jobs@);
        failed
    }
}

/// What refreshing makes of a stream: one that has ended and has no speech buffered is emptied.
pub open spec fn refreshed(before: ActiveLiveJob, after: ActiveLiveJob) -> bool {
    &&& after.same_job(&before)
    &&& after.same_work(&before)
    &&& after.producer_closed == before.producer_closed
    &&& if before.producer_closed && before.segments() == Some(Seq::<(int, int)>::empty()) {
        &&& after.audio_buffer@.len() == 0
        &&& after.absolute_offset_samples == before.absolute_offset_samples
            + before.audio_buffer@.len()
        &&& after.probs@.len() == 0
    } else {
        after.same_audio(&before)
    }
}

proof fn lemma_filter_push(jobs: Seq<ActiveLiveJob>, job: ActiveLiveJob)
    ensures
        with_completion(jobs.push(job), true) == (if job.spec_complete() {
            with_completion(jobs, true).push(job)
        } else {
            with_completion(jobs, true)
        }),
        with_completion(jobs.push(job), false) == (if job.spec_complete() {
            with_completion(jobs, false)
        } else {
            with_completion(jobs, false).push(job)
        }),
{
    reveal(Seq::filter);
    assert(jobs.push(job).drop_last() =~= jobs);
}

/// No stream is passed over for another: when a window of one stream has gone to a worker, the
/// next one is not of the same stream as long as another stream has a window ready.
pub proof fn streams_take_turns(
    jobs: Seq<ActiveLiveJob>,
    max_in_flight: usize,
    last: int,
    other: int,
    next: int,
)
    requires
        0 <= last < jobs.len(),
        0 <= other < jobs.len(),
        other != last,
        dispatchable(jobs[other], max_in_flight),
        selects(jobs, max_in_flight, (last + 1) % (jobs.len() as int), next),
    ensures
        next != last,
{
    let n = jobs.len() as int;
    let cursor = (last + 1) % n;
    vstd::arithmetic::div_mod::lemma_mod_bound(last + 1, n);
    let k = choose|k: int|
        0 <= k < n && next == #[trigger] turn(cursor, n, k) && dispatchable(
            jobs[next],
            max_in_flight,
        ) && forall|m: int|
            0 <= m < k ==> !dispatchable(jobs[#[trigger] turn(cursor, n, m)], max_in_flight);
    if next == last {
        let m = turns_until(cursor, n, other);
        lemma_turns_until(cursor, n, other);
        assert(k == n - 1) by {
            vstd::arithmetic::div_mod::lemma_add_mod_noop_right(k, last + 1, n);
            assert((last + 1 + k) % n == last);
            vstd::arithmetic::div_mod::lemma_fundamental_div_mod(last + 1 + k, n);
            let q = (last + 1 + k) / n;
            assert(k + 1 == n * q);
            assert(k + 1 == n) by (nonlinear_arith)
                requires
                    k + 1 == n * q,
                    0 <= k < n,
            ;
        }
        if m == n - 1 {
            assert(turn(cursor, n, m) == turn(cursor, n, k));
        }
        assert(!dispatchable(jobs[turn(cursor, n, m)], max_in_flight));
    }
}

/// How many turns pass until stream `i` is in turn.
pub open spec fn turns_until(cursor: int, count: int, i: int) -> int {
    (i - cursor % count) % count
}

proof fn lemma_turn(cursor: int, count: int, k: int)
    requires
        count > 0,
        cursor >= 0,
        k >= 0,
    ensures
        0 <= turn(cursor, count, k) < count,
        turn(cursor, count, k + 1) == (if turn(cursor, count, k) + 1 == count {
            0
        } else {
            turn(cursor, count, k) + 1
        }),
        turn(cursor, count, k + 1) == (turn(cursor, count, k) + 1) % count,
{
    vstd::arithmetic::div_mod::lemma_mod_bound(cursor + k, count);
    vstd::arithmetic::div_mod::lemma_add_mod_noop_right(1, cursor + k, count);
    let t = turn(cursor, count, k);
    if t + 1 == count {
        vstd::arithmetic::div_mod::lemma_mod_self_0(count);
    } else {
        vstd::arithmetic::div_mod::lemma_small_mod((t + 1) as nat, count as nat);
    }
}

proof fn lemma_turns_until(cursor: int, count: int, i: int)
    requires
        count > 0,
        cursor >= 0,
        0 <= i < count,
    ensures
        0 <= turns_until(cursor, count, i) < count,
        turn(cursor, count, turns_until(cursor, count, i)) == i,
{
    let c = cursor % count;
    let q = cursor / count;
    vstd::arithmetic::div_mod::lemma_mod_bound(i - c, count);
    vstd::arithmetic::div_mod::lemma_add_mod_noop_right(cursor, i - c, count);
    vstd::arithmetic::div_mod::lemma_fundamental_div_mod(cursor, count);
    vstd::arithmetic::div_mod::lemma_mod_multiples_vanish(q, i, count);
    vstd::arithmetic::div_mod::lemma_small_mod(i as nat, count as nat);
}

proof fn lemma_full_turn(cursor: int, count: int)
    requires
        count > 0,
        cursor >= 0,
    ensures
        turn(cursor, count, count) == cursor % count,
{
    vstd::arithmetic::div_mod::lemma_mod_add_multiples_vanish(cursor, count);
}

} // verus!
