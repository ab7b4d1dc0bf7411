//! Laws of decoding: which tokens are chosen, how a window is gone over, and which segments its tokens
//! make.
use tokenizers::Tokenizer;
use vstd::prelude::*;

use crate::beam::{
    behind_prompt, best_expansions, candidate_keys, expands, is_top, Beam, BeamSearch, Candidate,
    Expansion,
};
use crate::float_bits::F32;
use crate::format_laws::decimals_are_read_back;
use crate::spec::WhisperSpec;
use crate::suppression::{
    default_suppressed, id_values, mode_ids, parsed_mode, SuppressView, TokenSuppressor,
};
use crate::text::{decimal, denotes_u32, digits_value, split, trimmed, unsigned_digits};
use crate::token_decoders::{
    can_strip, some_left, steps_in, steps_in_parts, DecoderStep, DecoderTree,
};
use crate::tokens::{
    decoded_tokens, prompt_error, prompt_of, special_tokens, token_texts, TokenizerError,
};
use crate::whisper::{
    is_argmax, last_timestamp, minus_infinity, pass_prompt, repeats, scan_tokens, seeks_on,
    spoken_segments, text_tokens, window_segments, SegmentView, TimeMark, TokenRunView,
    WindowDecoding,
};
use crate::window_pass::{gone_over, same_rules, suppressed};

verus! {

////////////////////////////////////////////////////////////////////////////////
// Choosing a token
////////////////////////////////////////////////////////////////////////////////

/// Bit patterns are ordered as the numbers that they stand for: among numbers without a sign bit the
/// greater pattern is the greater number, among those with one the smaller, and any without one is
/// greater than any with one, except that both zeros are equal. What is not a number is neither
/// greater nor equal nor less.
pub proof fn numbers_are_in_order(a: F32, b: F32)
    ensures
        a.bits <= 0x7f80_0000 && b.bits <= 0x7f80_0000 ==> (a.spec_ge(b) <==> a.bits >= b.bits) && (
        a.spec_gt(b) <==> a.bits > b.bits),
        0x8000_0000 <= a.bits <= 0xff80_0000 && 0x8000_0000 <= b.bits <= 0xff80_0000 ==> (a.spec_ge(
            b,
        ) <==> a.bits <= b.bits) && (a.spec_gt(b) <==> a.bits < b.bits),
        a.bits <= 0x7f80_0000 && 0x8000_0000 <= b.bits <= 0xff80_0000 ==> a.spec_ge(b) && (
        a.spec_gt(b) <==> a.bits != 0 || b.bits != 0x8000_0000) && (b.spec_ge(a) <==> a.bits == 0
            && b.bits == 0x8000_0000) && !b.spec_gt(a),
        0x7f80_0000 < a.bits < 0x8000_0000 || a.bits > 0xff80_0000 ==> !a.spec_ge(b) && !a.spec_gt(b)
            && !b.spec_ge(a) && !b.spec_gt(a),
{
}

/// The token that is chosen is the most probable one: no logit is greater than its logit, and an
/// earlier token has a smaller one.
pub proof fn chosen_tokens_are_most_probable(logits: Seq<F32>, best: int, other: int)
    requires
        is_argmax(logits, best),
        0 <= other < logits.len(),
    ensures
        logits[other].spec_gt(F32 { bits: 0xff80_0000 }) ==> 0 <= best < logits.len()
            && logits[best].spec_ge(logits[other]),
        0 <= best < logits.len() ==> !logits[other].spec_gt(logits[best]) || best == 0 && !(
        logits[other].spec_gt(F32 { bits: 0xff80_0000 })),
        other < best ==> !logits[other].spec_ge(logits[best]),
{
}

/// True of a token that may be generated when `gen_len` tokens are there: it does not end the text
/// before anything is said, is no control token, is not among those that are left out, and is no
/// timestamp where none are wanted.
pub open spec fn may_come(rules: TokenSuppressor, gen_len: int, token: int) -> bool {
    &&& token == rules.eot ==> gen_len > rules.prompt_len
    &&& token < rules.sot || token > rules.notimestamps_id
    &&& forall|k: int| 0 <= k < rules.ids@.len() ==> #[trigger] rules.ids@[k] != token
    &&& rules.notimestamps ==> token <= rules.notimestamps_id
}

/// A token that may not come is never chosen, as long as another has a logit above the lowered one;
/// and the one that is chosen has the greatest logit among those that may come.
pub proof fn only_allowed_tokens_are_chosen(
    rules: TokenSuppressor,
    gen_len: int,
    logits: Seq<F32>,
    best: int,
    other: int,
)
    requires
        is_argmax(suppressed(rules, gen_len, logits), best),
        0 <= other < logits.len(),
        may_come(rules, gen_len, other),
        logits[other].spec_gt(F32 { bits: 0xc61c_4000 }),
    ensures
        0 <= best < logits.len(),
        may_come(rules, gen_len, best),
        logits[best].spec_ge(logits[other]),
{
    let after = suppressed(rules, gen_len, logits);
    lemma_suppressed(rules, gen_len, logits, other);
    assert(after[other] == logits[other]);
    assert(after[other].spec_gt(minus_infinity()));
    assert(0 <= best < logits.len());
    lemma_suppressed(rules, gen_len, logits, best);
    assert(after[best].rank() >= after[other].rank());
}

/// Suppression lowers the logits of the tokens that may not come to -10000 and leaves the others as
/// they are.
pub proof fn lemma_suppressed(rules: TokenSuppressor, gen_len: int, logits: Seq<F32>, i: int)
    requires
        0 <= i < logits.len(),
    ensures
        suppressed(rules, gen_len, logits).len() == logits.len(),
        may_come(rules, gen_len, i) ==> suppressed(rules, gen_len, logits)[i] == logits[i],
        !may_come(rules, gen_len, i) ==> suppressed(rules, gen_len, logits)[i].bits == 0xc61c_4000,
{
}

/// Tokens repeat themselves when there are eight, and each of the last four is the one four places
/// before it.
pub proof fn repetition_is_of_four_tokens(tokens: Seq<u32>)
    ensures
        repeats(tokens) <==> {
            let n = tokens.len() as int;
            &&& n >= 8
            &&& tokens[n - 1] == tokens[n - 5]
            &&& tokens[n - 2] == tokens[n - 6]
            &&& tokens[n - 3] == tokens[n - 7]
            &&& tokens[n - 4] == tokens[n - 8]
        },
{
    let n = tokens.len() as int;
    if n >= 8 {
        let a = tokens.subrange(n - 8, n - 4);
        let b = tokens.subrange(n - 4, n);
        assert(a[0] == tokens[n - 8] && b[0] == tokens[n - 4]);
        assert(a[1] == tokens[n - 7] && b[1] == tokens[n - 3]);
        assert(a[2] == tokens[n - 6] && b[2] == tokens[n - 2]);
        assert(a[3] == tokens[n - 5] && b[3] == tokens[n - 1]);
        if tokens[n - 1] == tokens[n - 5] && tokens[n - 2] == tokens[n - 6] && tokens[n - 3]
            == tokens[n - 7] && tokens[n - 4] == tokens[n - 8] {
            assert(a =~= b);
        }
    }
}

/// A step of a beam search keeps the best: as many candidates as wanted, or all, the better first, and
/// none that is left out is better than one that is kept. Each goes on from its parent's sequence
/// with its token, and is finished with the end of the text or a repetition.
pub proof fn best_candidates_survive(
    expansions: Seq<Expansion>,
    parents: Seq<Beam>,
    candidates: Seq<Candidate>,
    size: int,
    eot: u32,
) -> (from: Seq<int>)
    requires
        0 <= size,
        candidates.len() <= usize::MAX,
        best_expansions(expansions, parents, candidates, size, eot),
    ensures
        from.len() == expansions.len(),
        from.len() == (if size < candidates.len() {
            size
        } else {
            candidates.len() as int
        }),
        forall|i: int| 0 <= i < from.len() ==> 0 <= (#[trigger] from[i]) < candidates.len(),
        forall|i: int, j: int| 0 <= i < j < from.len() ==> #[trigger] from[i] != #[trigger] from[j],
        forall|i: int|
            0 <= i < from.len() ==> {
                let e = #[trigger] expansions[i];
                let c = candidates[from[i]];
                &&& e.parent == c.parent
                &&& e.token_id == c.token_id
                &&& e.log_prob == c.log_prob
                &&& e.tokens@ == parents[c.parent as int].tokens@.push(c.token_id)
                &&& e.finished <==> c.token_id == eot || repeats(e.tokens@)
            },
        forall|i: int, j: int|
            0 <= i < j < from.len() ==> (#[trigger] expansions[i]).log_prob.rank() >= (
            #[trigger] expansions[j]).log_prob.rank(),
        forall|p: int, i: int|
            0 <= p < candidates.len() && 0 <= i < from.len() && !from.contains(p) ==> (
            #[trigger] expansions[i]).log_prob.rank() >= (#[trigger] candidates[p]).log_prob.rank(),
{
    let keys = candidate_keys(candidates);
    let order = choose|order: Seq<usize>| #[trigger]
        is_top(keys, size, order) && expansions.len() == order.len() && forall|i: int|
            0 <= i < order.len() ==> expands(
                #[trigger] expansions[i],
                candidates[order[i] as int],
                parents,
                eot,
            );
    let from = order.map_values(|o: usize| o as int);
    assert forall|i: int| 0 <= i < from.len() implies 0 <= (#[trigger] from[i]) < candidates.len() by {
        assert(order[i] < keys.len());
    }
    assert forall|i: int, j: int| 0 <= i < j < from.len() implies #[trigger] from[i]
        != #[trigger] from[j] by {
        assert(crate::beam::precedes(keys, order[i] as int, order[j] as int));
    }
    assert forall|i: int, j: int| 0 <= i < j < from.len() implies (
    #[trigger] expansions[i]).log_prob.rank() >= (#[trigger] expansions[j]).log_prob.rank() by {
        assert(crate::beam::precedes(keys, order[i] as int, order[j] as int));
        assert(order[i] < keys.len() && order[j] < keys.len());
    }
    assert forall|p: int, i: int|
        0 <= p < candidates.len() && 0 <= i < from.len() && !from.contains(p) implies (
    #[trigger] expansions[i]).log_prob.rank() >= (#[trigger] candidates[p]).log_prob.rank() by {
        if order.contains(p as usize) {
            let k = choose|k: int| 0 <= k < order.len() && order[k] == p as usize;
            assert(from[k] == p);
        }
        assert(crate::beam::precedes(keys, order[i] as int, p));
        assert(order[i] < keys.len());
    }
    assert forall|i: int| 0 <= i < from.len() implies ({
        let e = #[trigger] expansions[i];
        let c = candidates[from[i]];
        &&& e.parent == c.parent
        &&& e.token_id == c.token_id
        &&& e.log_prob == c.log_prob
        &&& e.tokens@ == parents[c.parent as int].tokens@.push(c.token_id)
        &&& e.finished <==> c.token_id == eot || repeats(e.tokens@)
    }) by {
        assert(expands(expansions[i], candidates[order[i] as int], parents, eot));
    }
    from
}

////////////////////////////////////////////////////////////////////////////////
// Going over a window
////////////////////////////////////////////////////////////////////////////////

/// The prompt of a pass begins with the control tokens, and goes on with the last tokens that
/// earlier passes gave: all of them where 64 places of the cache stay free, else as many as leave 64
/// free, or none.
pub proof fn prompts_carry_the_latest_tokens(base: Seq<u32>, accumulated: Seq<u32>, t_cache: int)
    ensures
        ({
            let prompt = pass_prompt(base, accumulated, t_cache);
            let carried = prompt.len() - base.len();
            &&& 0 <= carried <= accumulated.len()
            &&& prompt.take(base.len() as int) == base
            &&& prompt.skip(base.len() as int) == accumulated.skip(accumulated.len() - carried)
            &&& base.len() + accumulated.len() + 64 <= t_cache ==> carried == accumulated.len()
            &&& base.len() + 64 <= t_cache < base.len() + accumulated.len() + 64 ==> prompt.len() + 64
                == t_cache
            &&& t_cache < base.len() + 64 ==> carried == 0
        }),
{
    let prompt = pass_prompt(base, accumulated, t_cache);
    let carried = prompt.len() - base.len();
    assert(prompt.take(base.len() as int) =~= base);
    assert(prompt.skip(base.len() as int) =~= accumulated.skip(accumulated.len() - carried));
}

/// A window is gone over again unless it is done, was gone over sixteen times, or its prompt would
/// leave no more than sixteen places of the cache.
pub proof fn windows_are_gone_over(window: WindowDecoding)
    ensures
        window.goes_on() <==> !window.finished && window.passes < 16 && pass_prompt(
            window.base_prompt@,
            window.accumulated@,
            window.t_cache as int,
        ).len() + 16 < window.t_cache,
{
}

/// True where `i` is the place of the last timestamp among tokens.
pub open spec fn is_last_timestamp(tokens: Seq<u32>, timestamp_begin: u32, i: int) -> bool {
    &&& 0 <= i < tokens.len()
    &&& tokens[i] >= timestamp_begin
    &&& forall|k: int| i < k < tokens.len() ==> #[trigger] tokens[k] < timestamp_begin
}

proof fn lemma_last(tokens: Seq<u32>, timestamp_begin: u32, i: int)
    ensures
        is_last_timestamp(tokens, timestamp_begin, i) ==> last_timestamp(tokens, timestamp_begin)
            == Some(tokens[i]),
        (forall|k: int| 0 <= k < tokens.len() ==> #[trigger] tokens[k] < timestamp_begin)
            ==> last_timestamp(tokens, timestamp_begin) is None,
    decreases tokens.len(),
{
    if tokens.len() > 0 {
        let less = tokens.drop_last();
        let n = tokens.len() - 1;
        lemma_last(less, timestamp_begin, i);
        if is_last_timestamp(tokens, timestamp_begin, i) && i < n {
            assert(tokens[n] < timestamp_begin);
            assert forall|k: int| i < k < less.len() implies #[trigger] less[k] < timestamp_begin by {
                assert(less[k] == tokens[k]);
            }
        }
        if forall|k: int| 0 <= k < tokens.len() ==> #[trigger] tokens[k] < timestamp_begin {
            assert(tokens[n] < timestamp_begin);
            assert forall|k: int| 0 <= k < less.len() implies #[trigger] less[k] < timestamp_begin by {
                assert(less[k] == tokens[k]);
            }
        }
    }
}

/// Another pass follows exactly when the last one gave a timestamp, that timestamp lies before the
/// end of the window, and it is later than the last one of the passes before, if they gave one.
pub proof fn passes_follow_while_time_advances(
    accumulated: Seq<u32>,
    new_tokens: Seq<u32>,
    timestamp_begin: u32,
    window_end_token: int,
    last: int,
    previous: int,
)
    requires
        is_last_timestamp(new_tokens, timestamp_begin, last),
    ensures
        is_last_timestamp(accumulated, timestamp_begin, previous) ==> (seeks_on(
            accumulated,
            new_tokens,
            timestamp_begin,
            window_end_token,
        ) <==> accumulated[previous] < new_tokens[last] < window_end_token),
        (forall|k: int| 0 <= k < accumulated.len() ==> #[trigger] accumulated[k] < timestamp_begin)
            ==> (seeks_on(accumulated, new_tokens, timestamp_begin, window_end_token)
            <==> new_tokens[last] < window_end_token),
{
    lemma_last(new_tokens, timestamp_begin, last);
    lemma_last(accumulated, timestamp_begin, previous);
}

////////////////////////////////////////////////////////////////////////////////
// Segments
////////////////////////////////////////////////////////////////////////////////

/// True of a run that stands in tokens from place `a` on and before `b`: text tokens only, at least
/// one, that follow the start of the window or a timestamp, whose time is that of the run.
pub open spec fn stands_at(
    tokens: Seq<u32>,
    timestamp_begin: u32,
    start: u32,
    text: Seq<u32>,
    a: int,
    b: int,
) -> bool {
    &&& 0 <= a < b <= tokens.len()
    &&& text == tokens.subrange(a, b)
    &&& forall|k: int| a <= k < b ==> #[trigger] tokens[k] < timestamp_begin
    &&& a == 0 ==> start == 0
    &&& a > 0 ==> tokens[a - 1] >= timestamp_begin && start == tokens[a - 1] - timestamp_begin
}

/// What is known after `n` tokens, in terms of places.
spec fn runs_stand(
    tokens: Seq<u32>,
    timestamp_begin: u32,
    runs: Seq<TokenRunView>,
    at: Seq<(int, int)>,
    n: int,
) -> bool {
    &&& at.len() == runs.len()
    &&& forall|j: int|
        0 <= j < at.len() ==> {
            let (a, b) = #[trigger] at[j];
            let run = runs[j];
            &&& b < n
            &&& stands_at(tokens, timestamp_begin, run.start, run.tokens, a, b)
            &&& tokens[b] >= timestamp_begin
            &&& run.end == (TimeMark::Step {
                steps: if tokens[b] - timestamp_begin >= run.start {
                    (tokens[b] - timestamp_begin) as u32
                } else {
                    run.start
                },
            })
        }
    &&& forall|i: int, j: int| 0 <= i < j < at.len() ==> (#[trigger] at[i]).1 < (#[trigger] at[j]).0
}

proof fn lemma_runs_stand(tokens: Seq<u32>, timestamp_begin: u32, n: int) -> (at: Seq<(int, int)>)
    requires
        0 <= n <= tokens.len(),
    ensures
        ({
            let s = scan_tokens(tokens.take(n), timestamp_begin);
            let c = n - s.current.len();
            &&& runs_stand(tokens, timestamp_begin, s.runs, at, n)
            &&& 0 <= c <= n
            &&& s.current == tokens.subrange(c, n)
            &&& forall|k: int| c <= k < n ==> #[trigger] tokens[k] < timestamp_begin
            &&& c == 0 ==> s.last is None
            &&& c > 0 ==> tokens[c - 1] >= timestamp_begin && s.last == Some(
                (tokens[c - 1] - timestamp_begin) as u32,
            )
            &&& forall|j: int| 0 <= j < at.len() ==> (#[trigger] at[j]).1 < c
        }),
    decreases n,
{
    if n == 0 {
        assert(tokens.take(0) =~= Seq::<u32>::empty());
        assert(tokens.subrange(0, 0) =~= Seq::<u32>::empty());
        Seq::empty()
    } else {
        let before = scan_tokens(tokens.take(n - 1), timestamp_begin);
        let s = scan_tokens(tokens.take(n), timestamp_begin);
        let old = lemma_runs_stand(tokens, timestamp_begin, n - 1);
        let c = n - 1 - before.current.len();
        assert(tokens.take(n).drop_last() =~= tokens.take(n - 1));
        assert(tokens.take(n).last() == tokens[n - 1]);
        if tokens[n - 1] < timestamp_begin {
            assert(s.current =~= tokens.subrange(c, n));
            old
        } else {
            assert(s.current =~= tokens.subrange(n, n));
            if before.current.len() > 0 {
                let at = old.push((c, n - 1));
                assert forall|j: int| 0 <= j < at.len() implies ({
                    let (a, b) = #[trigger] at[j];
                    let run = s.runs[j];
                    &&& b < n
                    &&& stands_at(tokens, timestamp_begin, run.start, run.tokens, a, b)
                    &&& tokens[b] >= timestamp_begin
                    &&& run.end == (TimeMark::Step {
                        steps: if tokens[b] - timestamp_begin >= run.start {
                            (tokens[b] - timestamp_begin) as u32
                        } else {
                            run.start
                        },
                    })
                }) by {
                    if j < old.len() {
                        assert(at[j] == old[j]);
                        assert(s.runs[j] == before.runs[j]);
                    }
                }
                at
            } else {
                old
            }
        }
    }
}

/// Where the runs of a window's tokens stand: each is a stretch of text tokens between timestamps, in
/// order. It starts at the time of the timestamp before it, or at the start of the window, and ends
/// at that of the one behind it, but not before it starts.
pub proof fn runs_stand_between_timestamps(tokens: Seq<u32>, timestamp_begin: u32) -> (at: Seq<
    (int, int),
>)
    ensures
        ({
            let s = scan_tokens(tokens, timestamp_begin);
            let c = tokens.len() - s.current.len();
            &&& at.len() == s.runs.len()
            &&& forall|j: int|
                0 <= j < at.len() ==> {
                    let (a, b) = #[trigger] at[j];
                    let run = s.runs[j];
                    &&& stands_at(tokens, timestamp_begin, run.start, run.tokens, a, b)
                    &&& b < tokens.len()
                    &&& tokens[b] >= timestamp_begin
                    &&& run.end == (TimeMark::Step {
                        steps: if tokens[b] - timestamp_begin >= run.start {
                            (tokens[b] - timestamp_begin) as u32
                        } else {
                            run.start
                        },
                    })
                }
            &&& forall|i: int, j: int|
                0 <= i < j < at.len() ==> (#[trigger] at[i]).1 < (#[trigger] at[j]).0
            &&& 0 <= c
            &&& s.current == tokens.skip(c)
            &&& s.current.len() > 0 ==> stands_at(
                tokens,
                timestamp_begin,
                match s.last {
                    Some(steps) => steps,
                    None => 0,
                },
                s.current,
                c,
                tokens.len() as int,
            )
        }),
{
    let n = tokens.len() as int;
    let at = lemma_runs_stand(tokens, timestamp_begin, n);
    assert(tokens.take(n) =~= tokens);
    let s = scan_tokens(tokens, timestamp_begin);
    let c = n - s.current.len();
    assert(tokens.subrange(c, n) =~= tokens.skip(c));
    at
}

/// Which runs become segments: those whose text is more than white space, in order, with their times,
/// tokens and texts.
proof fn lemma_spoken(
    runs: Seq<TokenRunView>,
    texts: Seq<Seq<char>>,
    window_index: usize,
) -> (from: Seq<int>)
    ensures
        ({
            let segments = spoken_segments(runs, texts, window_index);
            &&& from.len() == segments.len()
            &&& forall|i: int|
                0 <= i < from.len() ==> 0 <= (#[trigger] from[i]) < runs.len() && trimmed(
                    texts[from[i]],
                ).len() > 0 && segments[i].start == (TimeMark::Step {
                    steps: runs[from[i]].start,
                }) && segments[i].end == runs[from[i]].end && segments[i].text == texts[from[i]]
                    && segments[i].tokens == runs[from[i]].tokens && segments[i].window_index
                    == window_index
            &&& forall|i: int, j: int| 0 <= i < j < from.len() ==> #[trigger] from[i] < #[trigger] from[j]
            &&& forall|r: int|
                0 <= r < runs.len() && trimmed(#[trigger] texts[r]).len() > 0 ==> from.contains(r)
        }),
    decreases runs.len(),
{
    if runs.len() == 0 {
        Seq::empty()
    } else {
        let n = runs.len() - 1;
        let old = lemma_spoken(runs.drop_last(), texts, window_index);
        let segments = spoken_segments(runs, texts, window_index);
        let before = spoken_segments(runs.drop_last(), texts, window_index);
        let from = if trimmed(texts[n]).len() == 0 {
            old
        } else {
            old.push(n)
        };
        assert forall|i: int| 0 <= i < from.len() implies 0 <= (#[trigger] from[i]) < runs.len()
            && trimmed(texts[from[i]]).len() > 0 && segments[i].start == (TimeMark::Step {
            steps: runs[from[i]].start,
        }) && segments[i].end == runs[from[i]].end && segments[i].text == texts[from[i]]
            && segments[i].tokens == runs[from[i]].tokens && segments[i].window_index
            == window_index by {
            if i < old.len() {
                assert(from[i] == old[i]);
                assert(segments[i] == before[i]);
            }
        }
        assert forall|r: int| 0 <= r < runs.len() && trimmed(#[trigger] texts[r]).len() > 0 implies from.contains(
            r,
        ) by {
            if r < n {
                assert(old.contains(r));
                let i = choose|i: int| 0 <= i < old.len() && old[i] == r;
                assert(from[i] == r);
            } else {
                assert(from[from.len() - 1] == r);
            }
        }
        from
    }
}

/// The segments of a window are its runs with text, in order, each with its own times, tokens and
/// text, and last the text behind the last timestamp, which goes on to the end of the window. Only
/// where there is none of these do all text tokens together make one segment of the whole window.
pub proof fn segments_are_the_runs_with_text(
    tokens: Seq<u32>,
    timestamp_begin: u32,
    window_index: usize,
    text_of: spec_fn(Seq<u32>) -> Seq<char>,
) -> (from: Seq<int>)
    ensures
        ({
            let s = scan_tokens(tokens, timestamp_begin);
            let segments = window_segments(tokens, timestamp_begin, window_index, text_of);
            let all = text_tokens(tokens, timestamp_begin);
            let c = from.len() as int;
            &&& forall|i: int|
                0 <= i < c ==> 0 <= (#[trigger] from[i]) < s.runs.len() && trimmed(
                    text_of(s.runs[from[i]].tokens),
                ).len() > 0
            &&& forall|i: int, j: int| 0 <= i < j < c ==> #[trigger] from[i] < #[trigger] from[j]
            &&& forall|r: int|
                0 <= r < s.runs.len() && trimmed(text_of((#[trigger] s.runs[r]).tokens)).len() > 0
                    ==> from.contains(r)
            &&& c > 0 || s.current.len() > 0 ==> {
                &&& segments.len() == c + (if s.current.len() > 0 {
                    1int
                } else {
                    0
                })
                &&& forall|i: int|
                    0 <= i < c ==> (#[trigger] segments[i]) == (SegmentView {
                        start: TimeMark::Step { steps: s.runs[from[i]].start },
                        end: s.runs[from[i]].end,
                        text: text_of(s.runs[from[i]].tokens),
                        tokens: s.runs[from[i]].tokens,
                        window_index,
                    })
                &&& s.current.len() > 0 ==> segments[c].tokens == s.current && segments[c].text
                    == text_of(s.current) && segments[c].window_index == window_index && (match s.last {
                    Some(steps) => segments[c].start == (TimeMark::Step { steps })
                        && segments[c].end == (TimeMark::WindowEndOrStep { steps }),
                    None => segments[c].start == (TimeMark::Step { steps: 0 }) && segments[c].end
                        == (TimeMark::WindowEndOrStep { steps: 0 }),
                })
            }
            &&& c == 0 && s.current.len() == 0 ==> if all.len() > 0 && trimmed(text_of(all)).len() > 0 {
                &&& segments.len() == 1
                &&& segments[0] == (SegmentView {
                    start: TimeMark::Step { steps: 0 },
                    end: TimeMark::WindowEnd,
                    text: text_of(all),
                    tokens: all,
                    window_index,
                })
            } else {
                segments.len() == 0
            }
        }),
{
    let s = scan_tokens(tokens, timestamp_begin);
    let texts = Seq::new(s.runs.len(), |i: int| text_of(s.runs[i].tokens));
    let from = lemma_spoken(s.runs, texts, window_index);
    let segments = window_segments(tokens, timestamp_begin, window_index, text_of);
    let spoken = spoken_segments(s.runs, texts, window_index);
    assert forall|r: int|
        0 <= r < s.runs.len() && trimmed(text_of((#[trigger] s.runs[r]).tokens)).len() > 0 implies from.contains(
        r,
    ) by {
        assert(texts[r] == text_of(s.runs[r].tokens));
    }
    assert forall|i: int| 0 <= i < from.len() implies 0 <= (#[trigger] from[i]) < s.runs.len()
        && trimmed(text_of(s.runs[from[i]].tokens)).len() > 0 && spoken[i] == (SegmentView {
        start: TimeMark::Step { steps: s.runs[from[i]].start },
        end: s.runs[from[i]].end,
        text: text_of(s.runs[from[i]].tokens),
        tokens: s.runs[from[i]].tokens,
        window_index,
    }) by {
        assert(texts[from[i]] == text_of(s.runs[from[i]].tokens));
    }
    if from.len() > 0 || s.current.len() > 0 {
        assert forall|i: int| 0 <= i < from.len() implies (#[trigger] segments[i]) == (SegmentView {
            start: TimeMark::Step { steps: s.runs[from[i]].start },
            end: s.runs[from[i]].end,
            text: text_of(s.runs[from[i]].tokens),
            tokens: s.runs[from[i]].tokens,
            window_index,
        }) by {
            assert(segments[i] == spoken[i]);
            assert(0 <= from[i] < s.runs.len());
        }
    }
    from
}

/// The text tokens are those below the first timestamp, in their order.
pub proof fn text_tokens_are_those_below_the_timestamps(tokens: Seq<u32>, timestamp_begin: u32)
    ensures
        text_tokens(tokens, timestamp_begin) == tokens.filter(|t: u32| t < timestamp_begin),
    decreases tokens.len(),
{
    reveal(Seq::filter);
    if tokens.len() > 0 {
        text_tokens_are_those_below_the_timestamps(tokens.drop_last(), timestamp_begin);
    }
    assert(text_tokens(tokens, timestamp_begin) =~= tokens.filter(|t: u32| t < timestamp_begin));
}

/// A prompt names the start, the language and the task, in this order, and last, only where no
/// timestamps are wanted, says so. It needs all four tokens.
pub proof fn prompts_name_language_and_task(
    start: Option<u32>,
    lang: Option<u32>,
    task: Option<u32>,
    nots: Option<u32>,
    notimestamps: bool,
)
    ensures
        prompt_of(start, lang, task, nots, notimestamps) is Some <==> start is Some && lang is Some
            && task is Some && nots is Some,
        prompt_of(start, lang, task, nots, notimestamps) matches Some(prompt) ==> {
            &&& prompt.len() == 3 + (if notimestamps {
                1int
            } else {
                0
            })
            &&& prompt[0] == start->0
            &&& prompt[1] == lang->0
            &&& prompt[2] == task->0
            &&& notimestamps ==> prompt[3] == nots->0
        },
{
}

/// A pass over a window adds its tokens behind those of earlier passes and changes nothing else but
/// whether the window is done: it is, unless it is to be gone over again.
pub proof fn passes_add_their_tokens(before: WindowDecoding, after: WindowDecoding, tokens: Seq<u32>)
    requires
        gone_over(before, after, tokens),
    ensures
        after.accumulated@ == before.accumulated@ + tokens,
        after.base_prompt == before.base_prompt,
        after.t_cache == before.t_cache,
        after.timestamp_begin == before.timestamp_begin,
        after.window_end_token == before.window_end_token,
        after.passes == before.passes,
        before.finished ==> after.finished,
        !before.finished ==> (after.finished <==> !seeks_on(
            before.accumulated@,
            tokens,
            before.timestamp_begin,
            before.window_end_token as int,
        )),
{
}

/// What a search has generated is its best sequence without the prompt.
pub proof fn generated_tokens_follow_the_prompt(best: Vec<u32>, prompt: Seq<u32>, generated: Seq<u32>)
    requires
        best@ == prompt + generated,
    ensures
        behind_prompt(Some(best), prompt.len() as int) == generated,
        behind_prompt(None, prompt.len() as int).len() == 0,
{
    assert(best@.skip(prompt.len() as int) =~= generated);
}

/// All sequences of a search are looked at: those that go on and those that are finished.
pub proof fn all_sequences_compete<S: WhisperSpec>(search: BeamSearch<S>, i: int)
    ensures
        search.all().len() == search.beams@.len() + search.finished_beams@.len(),
        0 <= i < search.beams@.len() ==> search.all()[i] == search.beams@[i],
        0 <= i < search.finished_beams@.len() ==> search.all()[search.beams@.len() + i]
            == search.finished_beams@[i],
{
}

/// Rules that differ in the length of the prompt only leave out the same tokens, but for the end of
/// the text.
pub proof fn same_rules_leave_out_the_same(a: TokenSuppressor, b: TokenSuppressor, gen_len: int, token: int)
    requires
        same_rules(a, b),
        token != a.eot || a.prompt_len == b.prompt_len,
    ensures
        may_come(a, gen_len, token) <==> may_come(b, gen_len, token),
        a.eot == b.eot,
{
}

/// What is left out besides: the usual tokens and that for no speech by default, nothing, or what was
/// asked for.
pub proof fn modes_leave_out_their_tokens(mode: SuppressView, nospeech: Option<u32>)
    ensures
        mode == SuppressView::Nothing ==> mode_ids(mode, nospeech).len() == 0,
        mode matches SuppressView::Ids(ids) ==> mode_ids(mode, nospeech) == ids,
        mode == SuppressView::Default ==> {
            let ids = mode_ids(mode, nospeech);
            let n = default_suppressed().len() as int;
            &&& ids.take(n) == default_suppressed()
            &&& nospeech is None ==> ids.len() == n
            &&& nospeech is Some ==> ids.len() == n + 1 && ids[n] == nospeech->0
        },
{
    let n = default_suppressed().len() as int;
    assert(default_suppressed().take(n) =~= default_suppressed());
    if let Some(id) = nospeech {
        assert(default_suppressed().push(id).take(n) =~= default_suppressed());
    }
}

/// A list of ids with commas between them is read as these ids, in their order: white space around an
/// id does not count, and a list with anything else in it is refused.
pub proof fn lists_of_ids_are_read(value: Seq<char>, ids: Seq<u32>)
    requires
        trimmed(value).len() > 0,
        trimmed(value) != "default"@,
        trimmed(value) != "none"@,
        split(trimmed(value), ',').len() == ids.len(),
    ensures
        (forall|i: int|
            0 <= i < ids.len() ==> trimmed(#[trigger] split(trimmed(value), ',')[i]) == decimal(
                ids[i] as nat,
            )) ==> parsed_mode(value) == Some(SuppressView::Ids(ids)),
        parsed_mode(value) matches Some(mode) ==> forall|i: int|
            0 <= i < ids.len() ==> denotes_u32(trimmed(#[trigger] split(trimmed(value), ',')[i])),
{
    let parts = split(trimmed(value), ',');
    if forall|i: int| 0 <= i < ids.len() ==> trimmed(#[trigger] parts[i]) == decimal(ids[i] as nat) {
        assert forall|i: int| 0 <= i < parts.len() implies denotes_u32(trimmed(#[trigger] parts[i]))
            && digits_value(unsigned_digits(trimmed(parts[i]))) == ids[i] by {
            decimals_are_read_back(ids[i] as nat);
            assert(decimal(ids[i] as nat)[0] as u32 != 43);
        }
        assert(id_values(parts) =~= ids);
    }
}

/// The tokens that go into a tokenizer's decoder are those of the ids that it knows, in order, without
/// the special ones if they are to be left out.
pub proof fn known_tokens_are_decoded(
    tokenizer: Tokenizer,
    first: Seq<u32>,
    id: u32,
    skip_special_tokens: bool,
)
    ensures
        ({
            let before = decoded_tokens(tokenizer, first, skip_special_tokens);
            let after = decoded_tokens(tokenizer, first.push(id), skip_special_tokens);
            let text = token_texts(tokenizer)[id];
            if !token_texts(tokenizer).contains_key(id) {
                after == before
            } else if skip_special_tokens && special_tokens(tokenizer).contains(text) {
                after == before
            } else {
                after == before.push(text)
            }
        }),
        decoded_tokens(tokenizer, Seq::empty(), skip_special_tokens).len() == 0,
{
    assert(first.push(id).drop_last() =~= first);
}

/// The decoders of a sequence are run one behind the other, each with all its steps.
pub proof fn decoders_follow_each_other(
    first: Seq<DecoderTree>,
    second: Seq<DecoderTree>,
    tree: DecoderTree,
    step: DecoderStep,
)
    ensures
        steps_in(DecoderTree::One { step }) == seq![step],
        steps_in(DecoderTree::Several { parts: first + second }) == steps_in(
            DecoderTree::Several { parts: first },
        ) + steps_in(DecoderTree::Several { parts: second }),
        steps_in(DecoderTree::Several { parts: seq![tree] }) == steps_in(tree),
{
    lemma_parts_follow(first, second);
    let one = seq![tree];
    assert(one.drop_last() =~= Seq::<DecoderTree>::empty());
    assert(steps_in_parts(Seq::<DecoderTree>::empty()) =~= Seq::<DecoderStep>::empty());
    assert(steps_in_parts(one) == steps_in_parts(one.drop_last()) + steps_in(one.last()));
    assert(Seq::<DecoderStep>::empty() + steps_in(tree) =~= steps_in(tree));
}

proof fn lemma_parts_follow(first: Seq<DecoderTree>, second: Seq<DecoderTree>)
    ensures
        steps_in_parts(first + second) == steps_in_parts(first) + steps_in_parts(second),
    decreases second.len(),
{
    if second.len() == 0 {
        assert(first + second =~= first);
        assert(steps_in_parts(second) =~= Seq::<DecoderStep>::empty());
        assert(steps_in_parts(first) + Seq::<DecoderStep>::empty() =~= steps_in_parts(first));
    } else {
        lemma_parts_follow(first, second.drop_last());
        assert((first + second).drop_last() =~= first + second.drop_last());
        assert((first + second).last() == second.last());
        let a = steps_in_parts(first);
        let b = steps_in_parts(second.drop_last());
        let c = steps_in(second.last());
        assert(a + b + c =~= a + (b + c));
    }
}

/// What a window is decoded by stays the same while it is gone over.
pub proof fn windows_keep_their_settings(a: WindowDecoding, b: WindowDecoding)
    requires
        a.same_window(&b),
    ensures
        a.base_prompt == b.base_prompt,
        a.t_cache == b.t_cache,
        a.timestamp_begin == b.timestamp_begin,
        a.window_end_token == b.window_end_token,
{
}

/// Where tokens of a prompt are missing, the first of them is named.
pub proof fn first_missing_prompt_token_is_named(
    error: TokenizerError,
    start: Option<u32>,
    lang: Option<u32>,
    task: Option<u32>,
    lang_name: Seq<char>,
    task_name: Seq<char>,
)
    requires
        prompt_error(error, start, lang, task, lang_name, task_name),
    ensures
        start is None ==> (error matches TokenizerError::Missing { token } && token@
            == "<|startoftranscript|>"@),
        start is Some && lang is None ==> (error matches TokenizerError::MissingLanguage { token }
            && token@ == "<|"@ + lang_name + "|>"@),
        start is Some && lang is Some && task is None ==> (
        error matches TokenizerError::MissingTask { token } && token@ == "<|"@ + task_name + "|>"@),
        start is Some && lang is Some && task is Some ==> (
        error matches TokenizerError::Missing { token } && token@ == "<|notimestamps|>"@),
{
}

proof fn lemma_left_by_prefix(steps: Seq<DecoderStep>, more: Seq<DecoderStep>, n: int, len: int)
    requires
        0 <= n <= steps.len() <= more.len(),
        forall|i: int| 0 <= i < n ==> more[i] == #[trigger] steps[i],
    ensures
        some_left(more, n, len) == some_left(steps, n, len),
    decreases n,
{
    if n > 0 {
        lemma_left_by_prefix(steps, more, n - 1, len);
        assert(more[n - 1] == steps[n - 1]);
    }
}

/// Whether a token is left goes by the last step that decides it: joining all bytes or all tokens
/// leaves one, dropping repeated ones may leave none, and without such a step a token is left where
/// there was one.
pub proof fn tokens_are_left_by_the_last_step(steps: Seq<DecoderStep>, step: DecoderStep, len: int)
    ensures
        ({
            let n = steps.len() as int;
            let after = some_left(steps.push(step), n + 1, len);
            match step {
                DecoderStep::ByteLevel => after,
                DecoderStep::Fuse => after,
                DecoderStep::Ctc => !after,
                _ => after == some_left(steps, n, len),
            }
        }),
        some_left(steps, 0, len) <==> len > 0,
{
    lemma_left_by_prefix(steps, steps.push(step), steps.len() as int, len);
}

/// A step that cuts characters off the end is run only where there is enough to cut: it cuts nothing
/// there, or each token holds another character, or is long enough for both cuts.
pub proof fn enough_is_left_to_cut(token: Seq<char>, content: char, start: int, stop: int)
    requires
        0 <= start,
        0 <= stop,
    ensures
        stop == 0 ==> can_strip(token, content, start, stop),
        start + stop <= token.len() ==> can_strip(token, content, start, stop),
        stop > 0 && token == Seq::new(token.len(), |i: int| content) ==> (can_strip(
            token,
            content,
            start,
            stop,
        ) <==> start + stop <= token.len()),
        forall|i: int|
            0 <= i < token.len() && #[trigger] token[i] != content ==> can_strip(
                token,
                content,
                start,
                stop,
            ),
{
    if token == Seq::new(token.len(), |i: int| content) {
        assert forall|i: int| 0 <= i < token.len() implies #[trigger] token[i] == content by {
            assert(Seq::new(token.len(), |j: int| content)[i] == content);
        }
    }
}

} // verus!
