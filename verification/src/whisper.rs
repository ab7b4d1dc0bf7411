//! Transcribing one window: choosing tokens, going over the window until it is covered, and
//! cutting the tokens into segments.
use tokenizers::Tokenizer;
use vstd::prelude::*;
use vstd::string::*;

use crate::float_bits::F32;
use crate::suppression::SuppressTokens;
use crate::text::{trim_text, trimmed};
use crate::tokens::{
    can_decode, decode_ids, decode_text_or_empty, decodes, decodings, joined_ids_decode, text_of,
};
use crate::vad::VadSegment;

verus! {

/// How a transcription is made.
#[derive(Clone, Debug)]
pub struct TranscribeOptions {
    pub lang: String,
    pub task: String,
    pub notimestamps: bool,
    pub max_new_tokens: usize,
    pub beam_size: usize,
    pub suppress_tokens: SuppressTokens,
}

impl TranscribeOptions {
    /// Whether windows are decoded by beam search: with one beam they are decoded greedily.
    pub fn uses_beams(&self) -> (beams: bool)
        ensures
            beams == (self.beam_size > 1),
    {
        self.beam_size > 1
    }

    /// Options with the given values.
    pub fn new(
        lang: String,
        task: String,
        notimestamps: bool,
        max_new_tokens: usize,
        beam_size: usize,
        suppress_tokens: SuppressTokens,
    ) -> (options: TranscribeOptions)
        ensures
            options.lang == lang,
            options.task == task,
            options.notimestamps == notimestamps,
            options.max_new_tokens == max_new_tokens,
            options.beam_size == beam_size,
            options.suppress_tokens == suppress_tokens,
    {
        TranscribeOptions {
            lang,
            task,
            notimestamps,
            max_new_tokens,
            beam_size,
            suppress_tokens,
        }
    }
}

////////////////////////////////////////////////////////////////////////////////
// Choosing a token
////////////////////////////////////////////////////////////////////////////////

/// Minus infinity.
pub open spec fn minus_infinity() -> F32 {
    F32 { bits: 0xff80_0000 }
}

/// True of the place of the greatest logit; of equal ones it is the first. What is not a number
/// does not count, and if nothing is greater than minus infinity it is the first place.
pub open spec fn is_argmax(logits: Seq<F32>, best: int) -> bool {
    ||| best == 0 && forall|i: int|
        0 <= i < logits.len() ==> !(#[trigger] logits[i]).spec_gt(minus_infinity())
    ||| 0 <= best < logits.len() && logits[best].spec_gt(minus_infinity()) && forall|j: int|
        0 <= j < logits.len() && !(#[trigger] logits[j]).is_nan() ==> logits[j].rank()
            <= logits[best].rank() && (j < best ==> logits[j].rank() < logits[best].rank())
}

/// There is only one such place.
pub proof fn argmax_is_unique(logits: Seq<F32>, a: int, b: int)
    requires
        is_argmax(logits, a),
        is_argmax(logits, b),
    ensures
        a == b,
{
    if 0 <= a < logits.len() && 0 <= b < logits.len() {
        assert(logits[a] == logits[a] && logits[b] == logits[b]);
    }
}

/// The token with the greatest logit.
pub fn argmax_token(logits: &[F32]) -> (token: u32)
    ensures
        exists|best: int| #[trigger] is_argmax(logits@, best) && token == best as u32,
{
    let mut best_i: usize = 0;
    let mut best_v: F32 = F32 { bits: 0xff80_0000 };
    let mut i: usize = 0;
    while i < logits.len()
        invariant
            i <= logits@.len(),
            !best_v.is_nan(),
            best_v == minus_infinity() ==> best_i == 0,
            best_v != minus_infinity() ==> best_i < i && best_v == logits@[best_i as int]
                && best_v.spec_gt(minus_infinity()),
            forall|j: int|
                0 <= j < i && !(#[trigger] logits@[j]).is_nan() ==> logits@[j].rank() <= best_v.rank()
                    && (j < best_i ==> logits@[j].rank() < best_v.rank()),
        decreases logits@.len() - i,
    {
        let v: F32 = logits[i];
        if v.greater_than(best_v) {
            best_v = v;
            best_i = i;
        }
        i = i + 1;
    }
    assert(is_argmax(logits@, best_i as int));
    best_i as u32
}

/// True where the last four tokens are the four before them.
pub open spec fn repeats(tokens: Seq<u32>) -> bool {
    let n = tokens.len() as int;
    n >= 8 && tokens.subrange(n - 8, n - 4) == tokens.subrange(n - 4, n)
}

/// Whether the last four tokens are the four before them.
pub fn repeats_pattern(tokens: &Vec<u32>) -> (repeated: bool)
    ensures
        repeated == repeats(tokens@),
{
    let n: usize = tokens.len();
    if n < 8 {
        return false;
    }
    let ghost first = tokens@.subrange(n - 8, n - 4);
    let ghost second = tokens@.subrange(n - 4, n as int);
    let mut i: usize = 0;
    while i < 4
        invariant
            i <= 4,
            n == tokens@.len(),
            n >= 8,
            first == tokens@.subrange(n - 8, n - 4),
            second == tokens@.subrange(n - 4, n as int),
            forall|j: int| 0 <= j < i ==> first[j] == second[j],
        decreases 4 - i,
    {
        if tokens[n - 8 + i] != tokens[n - 4 + i] {
            assert(first[i as int] != second[i as int]);
            return false;
        }
        assert(first[i as int] == second[i as int]);
        i = i + 1;
    }
    assert(first =~= second);
    true
}

/// Greedy decoding of one pass: the tokens generated so far, and how many times the model may
/// still be asked.
#[derive(Debug)]
pub struct GreedyPass {
    pub generated: Vec<u32>,
    pub steps_left: usize,
    pub stopped: bool,
}

impl GreedyPass {
    /// A pass that generates at most `max_new_tokens` tokens.
    pub fn new(max_new_tokens: usize) -> (pass: GreedyPass)
        ensures
            pass.generated@ == Seq::<u32>::empty(),
            pass.steps_left == max_new_tokens,
            !pass.stopped,
    {
        GreedyPass { generated: Vec::new(), steps_left: max_new_tokens, stopped: false }
    }

    /// Whether another token is to be chosen.
    pub fn wants_token(&self) -> (wants: bool)
        ensures
            wants == (!self.stopped && self.steps_left > 0),
    {
        !self.stopped && self.steps_left > 0
    }

    /// Takes the token with the greatest of the suppressed logits. The end of the text stops the
    /// pass; so does a token that makes the last four tokens repeat the four before, after it has
    /// been taken. Any other token is given back, to be fed to the decoder.
    pub fn choose_token(&mut self, logits: &[F32], eot: u32) -> (feed: Option<u32>)
        requires
            !old(self).stopped,
            old(self).steps_left > 0,
        ensures
            final(self).steps_left == old(self).steps_left - 1,
            exists|best: int| #[trigger]
                is_argmax(logits@, best) && {
                    let token = best as u32;
                    let more = old(self).generated@.push(token);
                    if token == eot {
                        feed is None && final(self).stopped && final(self).generated@ == old(self).generated@
                    } else if repeats(more) {
                        feed is None && final(self).stopped && final(self).generated@ == more
                    } else {
                        feed == Some(token) && !final(self).stopped && final(self).generated@ == more
                    }
                },
    {
        self.steps_left = self.steps_left - 1;
        let token: u32 = argmax_token(logits);
        if token == eot {
            self.stopped = true;
            return None;
        }
        self.generated.push(token);
        if repeats_pattern(&self.generated) {
            self.stopped = true;
            return None;
        }
        Some(token)
    }
}

////////////////////////////////////////////////////////////////////////////////
// Going over a window
////////////////////////////////////////////////////////////////////////////////

/// How often a window is gone over at most.
pub const MAX_SEEK_PASSES: usize = 16;
/// Tokens of the cache that a prompt leaves for generation.
pub const GENERATION_RESERVE: usize = 64;
/// Tokens of the cache that must be left for a pass to be worth it.
pub const MIN_GENERATION: usize = 16;

/// How many accumulated tokens a prompt has room for.
pub open spec fn prompt_budget(t_cache: int, base_len: int) -> int {
    if t_cache > base_len + GENERATION_RESERVE {
        t_cache - (base_len + GENERATION_RESERVE)
    } else {
        0
    }
}

/// The prompt of a pass: the control tokens, and the last of the tokens that earlier passes gave,
/// as many as there is room for.
pub open spec fn pass_prompt(base: Seq<u32>, accumulated: Seq<u32>, t_cache: int) -> Seq<u32> {
    let budget = prompt_budget(t_cache, base.len() as int);
    base + accumulated.skip(
        if accumulated.len() > budget {
            accumulated.len() - budget
        } else {
            0
        },
    )
}

/// The last timestamp among tokens.
pub open spec fn last_timestamp(tokens: Seq<u32>, timestamp_begin: u32) -> Option<u32>
    decreases tokens.len(),
{
    if tokens.len() == 0 {
        None
    } else if tokens.last() >= timestamp_begin {
        Some(tokens.last())
    } else {
        last_timestamp(tokens.drop_last(), timestamp_begin)
    }
}

/// The last timestamp among tokens.
pub fn find_last_timestamp(tokens: &[u32], timestamp_begin: u32) -> (found: Option<u32>)
    ensures
        found == last_timestamp(tokens@, timestamp_begin),
{
    let mut n: usize = tokens.len();
    assert(tokens@.take(n as int) =~= tokens@);
    while n > 0
        invariant
            n <= tokens@.len(),
            last_timestamp(tokens@, timestamp_begin) == last_timestamp(
                tokens@.take(n as int),
                timestamp_begin,
            ),
        decreases n,
    {
        if tokens[n - 1] >= timestamp_begin {
            return Some(tokens[n - 1]);
        }
        assert(tokens@.take(n as int).drop_last() =~= tokens@.take(n - 1));
        n = n - 1;
    }
    None
}

/// True where a pass that gave `new_tokens` calls for another: it gave a timestamp, which lies
/// behind the last one before, and the window is not covered yet.
pub open spec fn seeks_on(
    accumulated: Seq<u32>,
    new_tokens: Seq<u32>,
    timestamp_begin: u32,
    window_end_token: int,
) -> bool {
    match last_timestamp(new_tokens, timestamp_begin) {
        Some(last) => (match last_timestamp(accumulated, timestamp_begin) {
            Some(previous) => last > previous,
            None => true,
        }) && last < window_end_token,
        None => false,
    }
}

/// The state of the passes over a window.
#[derive(Debug)]
pub struct WindowDecoding {
    pub base_prompt: Vec<u32>,
    pub t_cache: usize,
    pub timestamp_begin: u32,
    pub window_end_token: u64,
    pub passes: usize,
    pub finished: bool,
    pub accumulated: Vec<u32>,
}

impl WindowDecoding {
    /// Starts with a window. `window_steps` is how many timestamp steps of 20 ms the window has.
    pub fn new(base_prompt: Vec<u32>, t_cache: usize, timestamp_begin: u32, window_steps: u32) -> (decoding:
        WindowDecoding)
        ensures
            decoding.base_prompt == base_prompt,
            decoding.t_cache == t_cache,
            decoding.timestamp_begin == timestamp_begin,
            decoding.window_end_token == timestamp_begin + window_steps,
            decoding.passes == 0,
            !decoding.finished,
            decoding.accumulated@ == Seq::<u32>::empty(),
    {
        WindowDecoding {
            base_prompt,
            t_cache,
            timestamp_begin,
            window_end_token: timestamp_begin as u64 + window_steps as u64,
            passes: 0,
            finished: false,
            accumulated: Vec::new(),
        }
    }

    /// What does not change from pass to pass.
    pub open spec fn same_window(&self, other: &WindowDecoding) -> bool {
        &&& self.base_prompt == other.base_prompt
        &&& self.t_cache == other.t_cache
        &&& self.timestamp_begin == other.timestamp_begin
        &&& self.window_end_token == other.window_end_token
    }

    /// True where another pass is made.
    pub open spec fn goes_on(&self) -> bool {
        !self.finished && self.passes < MAX_SEEK_PASSES && pass_prompt(
            self.base_prompt@,
            self.accumulated@,
            self.t_cache as int,
        ).len() + MIN_GENERATION < self.t_cache
    }

    /// The prompt of the next pass. There is none when the window is done, when it has been gone
    /// over sixteen times, or when the cache has no room for generation.
    pub fn next_prompt(&mut self) -> (prompt: Option<Vec<u32>>)
        ensures
            final(self).same_window(old(self)),
            final(self).accumulated == old(self).accumulated,
            old(self).goes_on() ==> prompt is Some && prompt->0@ == pass_prompt(
                old(self).base_prompt@,
                old(self).accumulated@,
                old(self).t_cache as int,
            ) && final(self).passes == old(self).passes + 1 && final(self).finished == old(self).finished,
            !old(self).goes_on() ==> prompt is None && final(self).finished && final(self).passes
                == old(self).passes,
    {
        if self.finished || self.passes >= MAX_SEEK_PASSES {
            self.finished = true;
            return None;
        }
        let base_len: usize = self.base_prompt.len();
        let budget: usize = if self.t_cache > GENERATION_RESERVE && self.t_cache - GENERATION_RESERVE
            > base_len {
            self.t_cache - GENERATION_RESERVE - base_len
        } else {
            0
        };
        let start: usize = if self.accumulated.len() > budget {
            self.accumulated.len() - budget
        } else {
            0
        };
        let mut prompt: Vec<u32> = Vec::new();
        prompt.extend_from_slice(self.base_prompt.as_slice());
        prompt.extend_from_slice(
            vstd::slice::slice_subrange(self.accumulated.as_slice(), start, self.accumulated.len()),
        );
        assert(prompt@ =~= pass_prompt(
            self.base_prompt@,
            self.accumulated@,
            self.t_cache as int,
        ));
        if self.t_cache <= MIN_GENERATION || prompt.len() >= self.t_cache - MIN_GENERATION {
            self.finished = true;
            return None;
        }
        self.passes = self.passes + 1;
        Some(prompt)
    }

    /// Takes the tokens of a pass and decides whether there is another. A pass without tokens
    /// ends the window; so does one that does not get on, and one that reaches the window's end.
    pub fn finish_pass(&mut self, new_tokens: &[u32])
        ensures
            final(self).same_window(old(self)),
            final(self).passes == old(self).passes,
            final(self).accumulated@ == old(self).accumulated@ + new_tokens@,
            final(self).finished == (old(self).finished || !seeks_on(
                old(self).accumulated@,
                new_tokens@,
                old(self).timestamp_begin,
                old(self).window_end_token as int,
            )),
    {
        let previous = find_last_timestamp(self.accumulated.as_slice(), self.timestamp_begin);
        let last = find_last_timestamp(new_tokens, self.timestamp_begin);
        self.accumulated.extend_from_slice(new_tokens);
        assert(self.accumulated@ =~= old(self).accumulated@ + new_tokens@);
        let goes_on: bool = match last {
            Some(last) => {
                let advanced: bool = match previous {
                    Some(previous) => last > previous,
                    None => true,
                };
                advanced && (last as u64) < self.window_end_token
            },
            None => false,
        };
        if !goes_on {
            self.finished = true;
        }
    }
}

/// Going over a window gets on: as long as passes follow, the last timestamp of the window grows.
pub proof fn seeking_advances(
    accumulated: Seq<u32>,
    new_tokens: Seq<u32>,
    timestamp_begin: u32,
    window_end_token: int,
)
    requires
        seeks_on(accumulated, new_tokens, timestamp_begin, window_end_token),
    ensures
        ({
            let after = last_timestamp(accumulated + new_tokens, timestamp_begin);
            &&& after is Some
            &&& after == last_timestamp(new_tokens, timestamp_begin)
            &&& after->0 < window_end_token
            &&& last_timestamp(accumulated, timestamp_begin) matches Some(previous) ==> previous
                < after->0
        }),
{
    lemma_last_timestamp(accumulated, new_tokens, timestamp_begin);
}

proof fn lemma_last_timestamp(a: Seq<u32>, b: Seq<u32>, timestamp_begin: u32)
    requires
        last_timestamp(b, timestamp_begin) is Some,
    ensures
        last_timestamp(a + b, timestamp_begin) == last_timestamp(b, timestamp_begin),
    decreases b.len(),
{
    assert((a + b).last() == b.last());
    if b.last() < timestamp_begin {
        assert((a + b).drop_last() =~= a + b.drop_last());
        lemma_last_timestamp(a, b.drop_last(), timestamp_begin);
    }
}

/// Without timestamps a window is gone over once.
pub proof fn one_pass_without_timestamps(
    accumulated: Seq<u32>,
    new_tokens: Seq<u32>,
    timestamp_begin: u32,
    window_end_token: int,
)
    requires
        forall|i: int| 0 <= i < new_tokens.len() ==> #[trigger] new_tokens[i] < timestamp_begin,
    ensures
        !seeks_on(accumulated, new_tokens, timestamp_begin, window_end_token),
{
    lemma_no_timestamp(new_tokens, timestamp_begin);
}

proof fn lemma_no_timestamp(tokens: Seq<u32>, timestamp_begin: u32)
    requires
        forall|i: int| 0 <= i < tokens.len() ==> #[trigger] tokens[i] < timestamp_begin,
    ensures
        last_timestamp(tokens, timestamp_begin) is None,
    decreases tokens.len(),
{
    if tokens.len() > 0 {
        assert(tokens[tokens.len() - 1] < timestamp_begin);
        lemma_no_timestamp(tokens.drop_last(), timestamp_begin);
    }
}

////////////////////////////////////////////////////////////////////////////////
// Segments
////////////////////////////////////////////////////////////////////////////////

/// Samples in one timestamp step of 20 ms.
pub const TIMESTAMP_STEP_SAMPLES: usize = 320;

/// A moment in a window.
#[derive(Clone, Copy, Debug, PartialEq, Eq, Structural)]
pub enum TimeMark {
    /// So many timestamp steps behind the start of the window.
    Step { steps: u32 },
    /// The end of the window.
    WindowEnd,
    /// The later of the end of the window and so many steps behind its start.
    WindowEndOrStep { steps: u32 },
}

/// The steps of 20 ms that a timestamp token stands for.
pub fn timestamp_token_steps(token: u32, timestamp_begin: u32) -> (steps: u32)
    requires
        token >= timestamp_begin,
    ensures
        steps == token - timestamp_begin,
{
    token - timestamp_begin
}

/// A stretch of text tokens between timestamps.
#[derive(Debug)]
pub struct TokenRun {
    pub start: u32,
    pub end: TimeMark,
    pub tokens: Vec<u32>,
}

/// The model of a `TokenRun`.
pub struct TokenRunView {
    pub start: u32,
    pub end: TimeMark,
    pub tokens: Seq<u32>,
}

impl View for TokenRun {
    type V = TokenRunView;

    open spec fn view(&self) -> TokenRunView {
        TokenRunView { start: self.start, end: self.end, tokens: self.tokens@ }
    }
}

/// The models of runs.
pub open spec fn run_views(runs: Seq<TokenRun>) -> Seq<TokenRunView> {
    runs.map_values(|r: TokenRun| r@)
}

/// What is known after some tokens: the runs that a timestamp has ended, the tokens of the run
/// that is open, and the steps of the last timestamp.
pub struct RunScan {
    pub runs: Seq<TokenRunView>,
    pub current: Seq<u32>,
    pub last: Option<u32>,
}

/// Where a run that follows a timestamp starts; without one, at the start of the window.
pub open spec fn run_start(last: Option<u32>) -> u32 {
    match last {
        Some(steps) => steps,
        None => 0,
    }
}

/// The greater of two step counts.
pub open spec fn later(a: u32, b: u32) -> u32 {
    if a >= b {
        a
    } else {
        b
    }
}

/// Tokens read one after the other.
pub open spec fn scan_tokens(tokens: Seq<u32>, timestamp_begin: u32) -> RunScan
    decreases tokens.len(),
{
    if tokens.len() == 0 {
        RunScan { runs: Seq::empty(), current: Seq::empty(), last: None }
    } else {
        let before = scan_tokens(tokens.drop_last(), timestamp_begin);
        let token = tokens.last();
        if token < timestamp_begin {
            RunScan { current: before.current.push(token), ..before }
        } else {
            let steps = (token - timestamp_begin) as u32;
            let start = run_start(before.last);
            RunScan {
                runs: if before.current.len() > 0 {
                    before.runs.push(
                        TokenRunView {
                            start,
                            end: TimeMark::Step { steps: later(steps, start) },
                            tokens: before.current,
                        },
                    )
                } else {
                    before.runs
                },
                current: Seq::empty(),
                last: Some(steps),
            }
        }
    }
}

/// The runs that timestamps have ended, and the one that the window's end ends, if there is one.
pub fn token_runs(tokens: &[u32], timestamp_begin: u32) -> (out: (Vec<TokenRun>, Option<TokenRun>))
    ensures
        ({
            let s = scan_tokens(tokens@, timestamp_begin);
            &&& run_views(out.0@) == s.runs
            &&& out.1 is Some <==> s.current.len() > 0
            &&& out.1 is Some ==> out.1->0@ == (TokenRunView {
                start: run_start(s.last),
                end: TimeMark::WindowEndOrStep { steps: run_start(s.last) },
                tokens: s.current,
            })
        }),
{
    let mut runs: Vec<TokenRun> = Vec::new();
    let mut current: Vec<u32> = Vec::new();
    let mut last: Option<u32> = None;
    let mut i: usize = 0;
    assert(tokens@.take(0) =~= Seq::<u32>::empty());
    assert(run_views(runs@) =~= Seq::<TokenRunView>::empty());
    while i < tokens.len()
        invariant
            i <= tokens@.len(),
            ({
                let s = scan_tokens(tokens@.take(i as int), timestamp_begin);
                &&& run_views(runs@) == s.runs
                &&& current@ == s.current
                &&& last == s.last
            }),
        decreases tokens@.len() - i,
    {
        let token: u32 = tokens[i];
        proof {
            assert(tokens@.take(i + 1).drop_last() =~= tokens@.take(i as int));
        }
        if token >= timestamp_begin {
            let steps: u32 = timestamp_token_steps(token, timestamp_begin);
            if current.len() > 0 {
                let start: u32 = match last {
                    Some(steps) => steps,
                    None => 0,
                };
                let end: u32 = if steps >= start {
                    steps
                } else {
                    start
                };
                let ghost before = runs@;
                let run = TokenRun { start, end: TimeMark::Step { steps: end }, tokens: current };
                runs.push(run);
                assert(run_views(runs@) =~= run_views(before).push(run@));
                current = Vec::new();
            }
            assert(current@ =~= Seq::<u32>::empty());
            last = Some(steps);
        } else {
            current.push(token);
        }
        i = i + 1;
    }
    assert(tokens@.take(i as int) =~= tokens@);
    if current.len() > 0 {
        let start: u32 = match last {
            Some(steps) => steps,
            None => 0,
        };
        return (
            runs,
            Some(
                TokenRun {
                    start,
                    end: TimeMark::WindowEndOrStep { steps: start },
                    tokens: current,
                },
            ),
        );
    }
    (runs, None)
}

/// A stretch of transcribed text.
#[derive(Clone, Debug)]
pub struct TranscriptSegment {
    pub start: TimeMark,
    pub end: TimeMark,
    pub text: String,
    pub tokens: Vec<u32>,
    pub window_index: usize,
}

/// The model of a `TranscriptSegment`.
pub struct SegmentView {
    pub start: TimeMark,
    pub end: TimeMark,
    pub text: Seq<char>,
    pub tokens: Seq<u32>,
    pub window_index: usize,
}

impl View for TranscriptSegment {
    type V = SegmentView;

    open spec fn view(&self) -> SegmentView {
        SegmentView {
            start: self.start,
            end: self.end,
            text: self.text@,
            tokens: self.tokens@,
            window_index: self.window_index,
        }
    }
}

/// The models of segments.
pub open spec fn segment_views(segments: Seq<TranscriptSegment>) -> Seq<SegmentView> {
    segments.map_values(|s: TranscriptSegment| s@)
}

/// A run with its text as a segment.
pub open spec fn run_segment(run: TokenRunView, text: Seq<char>, window_index: usize) -> SegmentView {
    SegmentView {
        start: TimeMark::Step { steps: run.start },
        end: run.end,
        text,
        tokens: run.tokens,
        window_index,
    }
}

/// The segments of runs with their texts; runs whose text is only white space are left out.
pub open spec fn spoken_segments(
    runs: Seq<TokenRunView>,
    texts: Seq<Seq<char>>,
    window_index: usize,
) -> Seq<SegmentView>
    decreases runs.len(),
{
    if runs.len() == 0 {
        Seq::empty()
    } else {
        let before = spoken_segments(runs.drop_last(), texts, window_index);
        let text = texts[runs.len() - 1];
        if trimmed(text).len() == 0 {
            before
        } else {
            before.push(run_segment(runs.last(), text, window_index))
        }
    }
}

/// The text tokens among tokens.
pub open spec fn text_tokens(tokens: Seq<u32>, timestamp_begin: u32) -> Seq<u32>
    decreases tokens.len(),
{
    if tokens.len() == 0 {
        Seq::empty()
    } else if tokens.last() < timestamp_begin {
        text_tokens(tokens.drop_last(), timestamp_begin).push(tokens.last())
    } else {
        text_tokens(tokens.drop_last(), timestamp_begin)
    }
}

/// The segments of a window's tokens, where `text_of` gives the text of a run: the spoken runs
/// between timestamps, and the last one to the end of the window, whatever its text. If that is
/// none, all text tokens together are tried as one segment of the whole window.
pub open spec fn window_segments(
    tokens: Seq<u32>,
    timestamp_begin: u32,
    window_index: usize,
    text_of: spec_fn(Seq<u32>) -> Seq<char>,
) -> Seq<SegmentView> {
    let s = scan_tokens(tokens, timestamp_begin);
    let texts = Seq::new(s.runs.len(), |i: int| text_of(s.runs[i].tokens));
    let spoken = spoken_segments(s.runs, texts, window_index);
    let found = if s.current.len() > 0 {
        let start = run_start(s.last);
        spoken.push(
            SegmentView {
                start: TimeMark::Step { steps: start },
                end: TimeMark::WindowEndOrStep { steps: start },
                text: text_of(s.current),
                tokens: s.current,
                window_index,
            },
        )
    } else {
        spoken
    };
    let all = text_tokens(tokens, timestamp_begin);
    if found.len() == 0 && all.len() > 0 && trimmed(text_of(all)).len() > 0 {
        seq![
            SegmentView {
                start: TimeMark::Step { steps: 0 },
                end: TimeMark::WindowEnd,
                text: text_of(all),
                tokens: all,
                window_index,
            },
        ]
    } else {
        found
    }
}

/// Whether a text is only white space.
pub fn is_blank(text: &str) -> (blank: bool)
    ensures
        blank == (trimmed(text@).len() == 0),
{
    trim_text(text).as_str().is_empty()
}

/// The text tokens among tokens.
pub fn keep_text_tokens(tokens: &[u32], timestamp_begin: u32) -> (kept: Vec<u32>)
    ensures
        kept@ == text_tokens(tokens@, timestamp_begin),
{
    let mut kept: Vec<u32> = Vec::new();
    let mut i: usize = 0;
    assert(tokens@.take(0) =~= Seq::<u32>::empty());
    while i < tokens.len()
        invariant
            i <= tokens@.len(),
            kept@ == text_tokens(tokens@.take(i as int), timestamp_begin),
        decreases tokens@.len() - i,
    {
        assert(tokens@.take(i + 1).drop_last() =~= tokens@.take(i as int));
        if tokens[i] < timestamp_begin {
            kept.push(tokens[i]);
        }
        i = i + 1;
    }
    assert(tokens@.take(i as int) =~= tokens@);
    kept
}

/// Appends a run with its text as a segment, unless the text is only white space.
pub fn push_spoken(
    segments: &mut Vec<TranscriptSegment>,
    run: &TokenRun,
    text: String,
    window_index: usize,
)
    ensures
        segment_views(final(segments)@) == (if trimmed(text@).len() == 0 {
            segment_views(old(segments)@)
        } else {
            segment_views(old(segments)@).push(run_segment(run@, text@, window_index))
        }),
{
    if !is_blank(text.as_str()) {
        let mut tokens: Vec<u32> = Vec::new();
        tokens.extend_from_slice(run.tokens.as_slice());
        assert(tokens@ =~= run.tokens@);
        let segment = TranscriptSegment {
            start: TimeMark::Step { steps: run.start },
            end: run.end,
            text,
            tokens,
            window_index,
        };
        segments.push(segment);
        assert(segment_views(segments@) =~= segment_views(old(segments)@).push(segment@));
    }
}

/// True where a tokenizer can be asked for the text of each run of a window's tokens.
pub open spec fn decodes_runs(tokenizer: Tokenizer, tokens: Seq<u32>, timestamp_begin: u32) -> bool {
    let s = scan_tokens(tokens, timestamp_begin);
    &&& forall|i: int|
        0 <= i < s.runs.len() ==> decodes(tokenizer, (#[trigger] s.runs[i]).tokens, true)
    &&& s.current.len() > 0 ==> decodes(tokenizer, s.current, true)
}

/// The tokens of runs, joined.
pub open spec fn run_tokens(runs: Seq<TokenRunView>) -> Seq<u32>
    decreases runs.len(),
{
    if runs.len() == 0 {
        Seq::empty()
    } else {
        run_tokens(runs.drop_last()) + runs.last().tokens
    }
}

/// No text token is lost, doubled or moved: the tokens of the runs, joined in order, are the text
/// tokens, and no run is empty.
pub proof fn runs_hold_the_text(tokens: Seq<u32>, timestamp_begin: u32)
    ensures
        ({
            let s = scan_tokens(tokens, timestamp_begin);
            &&& run_tokens(s.runs) + s.current == text_tokens(tokens, timestamp_begin)
            &&& forall|i: int| 0 <= i < s.runs.len() ==> (#[trigger] s.runs[i]).tokens.len() > 0
        }),
    decreases tokens.len(),
{
    let s = scan_tokens(tokens, timestamp_begin);
    if tokens.len() > 0 {
        let before = scan_tokens(tokens.drop_last(), timestamp_begin);
        runs_hold_the_text(tokens.drop_last(), timestamp_begin);
        if tokens.last() >= timestamp_begin && before.current.len() > 0 {
            assert(s.runs.drop_last() =~= before.runs);
        }
    }
    assert(run_tokens(s.runs) + s.current =~= text_tokens(tokens, timestamp_begin));
}

/// A tokenizer that can be asked for the texts of runs can be asked for the text of all of them.
proof fn lemma_joined_runs_decode(tokenizer: Tokenizer, runs: Seq<TokenRunView>)
    requires
        runs.len() > 0,
        forall|i: int| 0 <= i < runs.len() ==> decodes(tokenizer, (#[trigger] runs[i]).tokens, true),
    ensures
        decodes(tokenizer, run_tokens(runs), true),
    decreases runs.len(),
{
    let before = runs.drop_last();
    assert(decodes(tokenizer, runs[runs.len() - 1].tokens, true));
    if before.len() == 0 {
        assert(run_tokens(before) =~= Seq::<u32>::empty());
        assert(run_tokens(runs) =~= runs.last().tokens);
    } else {
        assert forall|i: int| 0 <= i < before.len() implies decodes(
            tokenizer,
            (#[trigger] before[i]).tokens,
            true,
        ) by {
            assert(decodes(tokenizer, runs[i].tokens, true));
        }
        lemma_joined_runs_decode(tokenizer, before);
        joined_ids_decode(tokenizer, run_tokens(before), runs.last().tokens, true);
    }
}

/// Whether a tokenizer can be asked for the text of each run of a window's tokens.
pub fn can_decode_runs(tokenizer: &Tokenizer, tokens: &[u32], timestamp_begin: u32) -> (can: bool)
    ensures
        can == decodes_runs(*tokenizer, tokens@, timestamp_begin),
{
    let ghost s = scan_tokens(tokens@, timestamp_begin);
    let (runs, rest) = token_runs(tokens, timestamp_begin);
    let mut i: usize = 0;
    while i < runs.len()
        invariant
            i <= runs@.len(),
            run_views(runs@) == s.runs,
            s == scan_tokens(tokens@, timestamp_begin),
            forall|j: int| 0 <= j < i ==> decodes(*tokenizer, (#[trigger] s.runs[j]).tokens, true),
        decreases runs@.len() - i,
    {
        assert(runs@[i as int]@ == s.runs[i as int]);
        if !can_decode(tokenizer, runs[i].tokens.as_slice(), true) {
            return false;
        }
        i = i + 1;
    }
    match rest {
        Some(run) => can_decode(tokenizer, run.tokens.as_slice(), true),
        None => true,
    }
}

/// The segments of a window's tokens.
pub fn tokens_to_segments(
    tokenizer: &Tokenizer,
    tokens: &[u32],
    window_index: usize,
    timestamp_begin: u32,
) -> (segments: Vec<TranscriptSegment>)
    requires
        decodes_runs(*tokenizer, tokens@, timestamp_begin),
    ensures
        segment_views(segments@) == window_segments(
            tokens@,
            timestamp_begin,
            window_index,
            |ids: Seq<u32>| text_of(*tokenizer, ids),
        ),
{
    let ghost text = |ids: Seq<u32>| text_of(*tokenizer, ids);
    let ghost s = scan_tokens(tokens@, timestamp_begin);
    let ghost texts = Seq::new(s.runs.len(), |i: int| text(s.runs[i].tokens));
    let (runs, rest) = token_runs(tokens, timestamp_begin);
    let mut segments: Vec<TranscriptSegment> = Vec::new();
    let mut i: usize = 0;
    assert(segment_views(segments@) =~= Seq::<SegmentView>::empty());
    while i < runs.len()
        invariant
            decodes_runs(*tokenizer, tokens@, timestamp_begin),
            s == scan_tokens(tokens@, timestamp_begin),
            i <= runs@.len(),
            text == (|ids: Seq<u32>| text_of(*tokenizer, ids)),
            run_views(runs@) == s.runs,
            texts == Seq::new(s.runs.len(), |i: int| text(s.runs[i].tokens)),
            segment_views(segments@) == spoken_segments(
                s.runs.take(i as int),
                texts,
                window_index,
            ),
        decreases runs@.len() - i,
    {
        assert(runs@[i as int]@ == s.runs[i as int]);
        let run_text = decode_text_or_empty(tokenizer, runs[i].tokens.as_slice());
        proof {
            assert(run_text@ == texts[i as int]);
            assert(s.runs.take(i + 1).drop_last() =~= s.runs.take(i as int));
        }
        push_spoken(&mut segments, &runs[i], run_text, window_index);
        i = i + 1;
    }
    assert(s.runs.take(i as int) =~= s.runs);
    if let Some(run) = rest {
        let run_text = decode_text_or_empty(tokenizer, run.tokens.as_slice());
        let ghost before = segments@;
        let segment = TranscriptSegment {
            start: TimeMark::Step { steps: run.start },
            end: run.end,
            text: run_text,
            tokens: run.tokens,
            window_index,
        };
        segments.push(segment);
        assert(segment_views(segments@) =~= segment_views(before).push(segment@));
    }
    if segments.len() == 0 {
        let all = keep_text_tokens(tokens, timestamp_begin);
        if all.len() > 0 {
            proof {
                runs_hold_the_text(tokens@, timestamp_begin);
                assert(run_tokens(s.runs) + s.current =~= run_tokens(s.runs));
                lemma_joined_runs_decode(*tokenizer, s.runs);
            }
            let all_text = decode_text_or_empty(tokenizer, all.as_slice());
            if !is_blank(all_text.as_str()) {
                let segment = TranscriptSegment {
                    start: TimeMark::Step { steps: 0 },
                    end: TimeMark::WindowEnd,
                    text: all_text,
                    tokens: all,
                    window_index,
                };
                segments.push(segment);
                assert(segment_views(segments@) =~= seq![segment@]);
            }
        }
    }
    segments
}

////////////////////////////////////////////////////////////////////////////////
// Transcriptions
////////////////////////////////////////////////////////////////////////////////

/// What was transcribed of a window that starts at `absolute_start_sec` in the audio.
#[derive(Clone, Debug)]
pub struct WindowTranscription {
    pub window_index: usize,
    pub absolute_start_sec: F32,
    pub text: String,
    pub segments: Vec<TranscriptSegment>,
}

/// The transcription of a window from its tokens. `None` where the tokenizer has no text for them.
pub fn window_transcription(
    tokenizer: &Tokenizer,
    tokens: &[u32],
    window_index: usize,
    absolute_start_sec: F32,
    timestamp_begin: u32,
) -> (out: Option<WindowTranscription>)
    requires
        decodes(*tokenizer, tokens@, true),
        decodings(*tokenizer).contains_key((tokens@, true)) ==> decodes_runs(
            *tokenizer,
            tokens@,
            timestamp_begin,
        ),
    ensures
        out is Some <==> decodings(*tokenizer).contains_key((tokens@, true)),
        out matches Some(w) ==> w.window_index == window_index && w.absolute_start_sec
            == absolute_start_sec && w.text@ == decodings(*tokenizer)[(tokens@, true)]
            && segment_views(w.segments@) == window_segments(
            tokens@,
            timestamp_begin,
            window_index,
            |ids: Seq<u32>| text_of(*tokenizer, ids),
        ),
{
    let text = match decode_ids(tokenizer, tokens, true) {
        Some(text) => text,
        None => return None,
    };
    let segments = tokens_to_segments(tokenizer, tokens, window_index, timestamp_begin);
    Some(WindowTranscription { window_index, absolute_start_sec, text, segments })
}

/// The transcription of a window from its tokens, for any tokenizer. `None` where the tokenizer
/// cannot be asked for the text of the tokens or of one of their runs, or has none for the tokens.
pub fn checked_window_transcription(
    tokenizer: &Tokenizer,
    tokens: &[u32],
    window_index: usize,
    absolute_start_sec: F32,
    timestamp_begin: u32,
) -> (out: Option<WindowTranscription>)
    ensures
        out is Some <==> decodes(*tokenizer, tokens@, true) && decodes_runs(
            *tokenizer,
            tokens@,
            timestamp_begin,
        ) && decodings(*tokenizer).contains_key((tokens@, true)),
        out matches Some(w) ==> w.window_index == window_index && w.absolute_start_sec
            == absolute_start_sec && w.text@ == decodings(*tokenizer)[(tokens@, true)]
            && segment_views(w.segments@) == window_segments(
            tokens@,
            timestamp_begin,
            window_index,
            |ids: Seq<u32>| text_of(*tokenizer, ids),
        ),
{
    if !can_decode(tokenizer, tokens, true) || !can_decode_runs(
        tokenizer,
        tokens,
        timestamp_begin,
    ) {
        return None;
    }
    window_transcription(tokenizer, tokens, window_index, absolute_start_sec, timestamp_begin)
}

/// The texts of windows, each followed by a space.
pub open spec fn joined_texts(windows: Seq<WindowTranscription>) -> Seq<char>
    decreases windows.len(),
{
    if windows.len() == 0 {
        Seq::empty()
    } else {
        joined_texts(windows.drop_last()) + windows.last().text@ + " "@
    }
}

/// The segments of windows, in order.
pub open spec fn joined_segments(windows: Seq<WindowTranscription>) -> Seq<SegmentView>
    decreases windows.len(),
{
    if windows.len() == 0 {
        Seq::empty()
    } else {
        joined_segments(windows.drop_last()) + segment_views(windows.last().segments@)
    }
}

/// A whole transcription.
#[derive(Clone, Debug)]
pub struct Transcription {
    pub text: String,
    pub segments: Vec<TranscriptSegment>,
    pub vad_segments: Vec<VadSegment>,
}

/// Puts the transcriptions of windows together, in the order in which they are given.
pub fn join_windows(windows: Vec<WindowTranscription>, vad_segments: Vec<VadSegment>) -> (out:
    Transcription)
    ensures
        out.text@ == trimmed(joined_texts(windows@)),
        segment_views(out.segments@) == joined_segments(windows@),
        out.vad_segments@ == vad_segments@,
{
    let ghost all = windows@;
    let mut full_text = String::new();
    let mut segments: Vec<TranscriptSegment> = Vec::new();
    assert(segment_views(segments@) =~= Seq::<SegmentView>::empty());
    assert(all.take(0) =~= Seq::<WindowTranscription>::empty());
    for window in it: windows
        invariant
            it.seq() == all,
            full_text@ == joined_texts(all.take(it.index())),
            segment_views(segments@) == joined_segments(all.take(it.index())),
    {
        let ghost i = it.index();
        proof {
            assert(window == all[i]);
            assert(all.take(i + 1).drop_last() =~= all.take(i));
        }
        let mut window: WindowTranscription = window;
        full_text.append(window.text.as_str());
        full_text.append(" ");
        let ghost before = segments@;
        let ghost added = window.segments@;
        segments.append(&mut window.segments);
        assert(segment_views(segments@) =~= segment_views(before) + segment_views(added));
    }
    assert(all.take(all.len() as int) =~= all);
    Transcription { text: trim_text(full_text.as_str()), segments, vad_segments }
}

/// Windows are put together in the order in which they are given: what a list of windows says is what
/// its first part says, followed by what the rest says, text as well as segments. One window says
/// its text with a space behind it, and its segments in their order.
pub proof fn windows_are_joined_in_order(
    first: Seq<WindowTranscription>,
    second: Seq<WindowTranscription>,
    window: WindowTranscription,
)
    ensures
        joined_texts(first + second) == joined_texts(first) + joined_texts(second),
        joined_segments(first + second) == joined_segments(first) + joined_segments(second),
        joined_texts(seq![window]) == window.text@ + seq![' '],
        joined_segments(seq![window]).len() == window.segments@.len(),
        forall|k: int|
            0 <= k < window.segments@.len() ==> #[trigger] joined_segments(seq![window])[k]
                == window.segments@[k]@,
    decreases second.len(),
{
    if second.len() == 0 {
        assert(first + second =~= first);
        assert(joined_texts(first) + joined_texts(second) =~= joined_texts(first));
        assert(joined_segments(first) + joined_segments(second) =~= joined_segments(first));
    } else {
        windows_are_joined_in_order(first, second.drop_last(), window);
        assert((first + second).drop_last() =~= first + second.drop_last());
        assert((first + second).last() == second.last());
        assert(joined_texts(first + second) =~= joined_texts(first) + joined_texts(second));
        assert(joined_segments(first + second) =~= joined_segments(first) + joined_segments(second));
    }
    reveal_strlit(" ");
    reveal_with_fuel(joined_texts, 2);
    reveal_with_fuel(joined_segments, 2);
    let one = seq![window];
    assert(one.drop_last() =~= Seq::<WindowTranscription>::empty());
    assert(one.last() == window);
    assert(joined_texts(one) =~= window.text@ + seq![' ']);
    assert(joined_segments(one) =~= segment_views(window.segments@));
}

/// How many segments the first `n` windows have.
pub open spec fn segments_before(windows: Seq<WindowTranscription>, n: int) -> int
    decreases n,
{
    if n <= 0 {
        0
    } else {
        segments_before(windows, n - 1) + windows[n - 1].segments@.len()
    }
}

/// Each segment of each window comes out once, behind all segments of earlier windows and behind the
/// earlier ones of its own, and nothing else comes out.
pub proof fn segments_come_out_in_order(windows: Seq<WindowTranscription>, i: int, k: int)
    requires
        0 <= i < windows.len(),
        0 <= k < windows[i].segments@.len(),
    ensures
        segments_before(windows, i) + k < joined_segments(windows).len(),
        joined_segments(windows)[segments_before(windows, i) + k] == windows[i].segments@[k]@,
        joined_segments(windows).len() == segments_before(windows, windows.len() as int),
        segments_before(windows, i) + windows[i].segments@.len() == segments_before(windows, i + 1),
        segments_before(windows, i) >= 0,
{
    lemma_joined_length(windows, windows.len() as int);
    lemma_joined_length(windows, i);
    lemma_joined_length(windows, i + 1);
    assert(windows.take(windows.len() as int) =~= windows);
    let first = windows.take(i + 1);
    windows_are_joined_in_order(first, windows.skip(i + 1), windows[i]);
    assert(first + windows.skip(i + 1) =~= windows);
    assert(first.drop_last() =~= windows.take(i));
    assert(first.last() == windows[i]);
    let views = segment_views(windows[i].segments@);
    assert(joined_segments(first) == joined_segments(windows.take(i)) + views);
    assert(joined_segments(first)[segments_before(windows, i) + k] == views[k]);
}

proof fn lemma_joined_length(windows: Seq<WindowTranscription>, n: int)
    requires
        0 <= n <= windows.len(),
    ensures
        joined_segments(windows.take(n)).len() == segments_before(windows, n),
        segments_before(windows, n) >= 0,
    decreases n,
{
    if n > 0 {
        lemma_joined_length(windows, n - 1);
        assert(windows.take(n).drop_last() =~= windows.take(n - 1));
        assert(windows.take(n).last() == windows[n - 1]);
    }
}

/// Where the segments of each window carry its index, and the windows are in order of their indexes,
/// the segments come out in order of their windows.
pub proof fn joined_segments_keep_their_order(windows: Seq<WindowTranscription>, a: int, b: int)
    requires
        forall|i: int, k: int|
            0 <= i < windows.len() && 0 <= k < windows[i].segments@.len() ==> (
            #[trigger] windows[i].segments@[k]).window_index == windows[i].window_index,
        forall|i: int, j: int|
            0 <= i <= j < windows.len() ==> (#[trigger] windows[i]).window_index <= (
            #[trigger] windows[j]).window_index,
        0 <= a <= b < joined_segments(windows).len(),
    ensures
        joined_segments(windows)[a].window_index <= joined_segments(windows)[b].window_index,
    decreases windows.len(),
{
    let less = windows.drop_last();
    let n = windows.len() - 1;
    let views = segment_views(windows.last().segments@);
    if b < joined_segments(less).len() {
        assert forall|i: int, k: int|
            0 <= i < less.len() && 0 <= k < less[i].segments@.len() implies (
        #[trigger] less[i].segments@[k]).window_index == less[i].window_index by {
            assert(windows[i].segments@[k].window_index == windows[i].window_index);
        }
        assert forall|i: int, j: int| 0 <= i <= j < less.len() implies (
        #[trigger] less[i]).window_index <= (#[trigger] less[j]).window_index by {
            assert(windows[i].window_index <= windows[j].window_index);
        }
        joined_segments_keep_their_order(less, a, b);
    } else {
        let kb = b - joined_segments(less).len();
        assert(joined_segments(windows)[b] == views[kb]);
        assert(windows[n].segments@[kb].window_index == windows[n].window_index);
        if a < joined_segments(less).len() {
            let i = lemma_segment_window(less, a);
            assert(windows[i].window_index <= windows[n].window_index);
        } else {
            let ka = a - joined_segments(less).len();
            assert(joined_segments(windows)[a] == views[ka]);
            assert(windows[n].segments@[ka].window_index == windows[n].window_index);
        }
    }
}

proof fn lemma_segment_window(windows: Seq<WindowTranscription>, a: int) -> (i: int)
    requires
        0 <= a < joined_segments(windows).len(),
        forall|i: int, k: int|
            0 <= i < windows.len() && 0 <= k < windows[i].segments@.len() ==> (
            #[trigger] windows[i].segments@[k]).window_index == windows[i].window_index,
    ensures
        0 <= i < windows.len(),
        joined_segments(windows)[a].window_index == windows[i].window_index,
    decreases windows.len(),
{
    let less = windows.drop_last();
    let n = windows.len() - 1;
    if a < joined_segments(less).len() {
        assert forall|i: int, k: int|
            0 <= i < less.len() && 0 <= k < less[i].segments@.len() implies (
        #[trigger] less[i].segments@[k]).window_index == less[i].window_index by {
            assert(windows[i].segments@[k].window_index == windows[i].window_index);
        }
        lemma_segment_window(less, a)
    } else {
        let k = a - joined_segments(less).len();
        assert(joined_segments(windows)[a] == segment_views(windows.last().segments@)[k]);
        assert(windows[n].segments@[k].window_index == windows[n].window_index);
        n
    }
}

} // verus!
