//! Laws of speech detection: what is speech, in terms of the probabilities alone.
use vstd::prelude::*;

use crate::float_bits::F32;
use crate::vad::{
    all_runs, heard, in_order, inside_some, joined, lemma_heard_in_run, lemma_scan,
    long_runs_are_kept, samples_in_ms, scan, speech_segments, VadConfig,
};

verus! {

/// True of a window whose probability reaches the threshold.
pub open spec fn is_speech(probs: Seq<(usize, F32)>, threshold: F32, i: int) -> bool {
    probs[i].1.spec_ge(threshold)
}

/// True where no window behind `s`, up to `m`, is speech.
pub open spec fn quiet(probs: Seq<(usize, F32)>, threshold: F32, s: int, m: int) -> bool {
    forall|k: int| s < k <= m ==> !#[trigger] is_speech(probs, threshold, k)
}

/// Where window `i` of the detector ends.
pub open spec fn window_end(probs: Seq<(usize, F32)>, i: int, audio_len: int, window_samples: int) -> int {
    if probs[i].0 + window_samples <= audio_len {
        probs[i].0 + window_samples
    } else {
        audio_len
    }
}

/// True where speech that was last heard in window `s` is over at window `m`: nothing has been heard
/// since, and `m` starts `min_silence` samples or more behind the end of `s`.
#[verifier::opaque]
pub open spec fn is_over(
    probs: Seq<(usize, F32)>,
    audio_len: int,
    window_samples: int,
    threshold: F32,
    min_silence: int,
    s: int,
    m: int,
) -> bool {
    &&& is_speech(probs, threshold, s)
    &&& quiet(probs, threshold, s, m)
    &&& min_silence <= 0 || probs[m].0 - window_end(probs, s, audio_len, window_samples)
        >= min_silence
}

/// True of two windows with speech between which speech is never over.
pub open spec fn unbroken(
    probs: Seq<(usize, F32)>,
    audio_len: int,
    window_samples: int,
    threshold: F32,
    min_silence: int,
    first: int,
    last: int,
) -> bool {
    &&& 0 <= first <= last < probs.len()
    &&& is_speech(probs, threshold, first)
    &&& is_speech(probs, threshold, last)
    &&& forall|s: int, m: int|
        first <= s < m < last ==> !#[trigger] is_over(
            probs,
            audio_len,
            window_samples,
            threshold,
            min_silence,
            s,
            m,
        )
}

/// True where speech that was last heard in window `s` is over before window `next`.
spec fn over_before(
    probs: Seq<(usize, F32)>,
    audio_len: int,
    window_samples: int,
    threshold: F32,
    min_silence: int,
    s: int,
    next: int,
) -> bool {
    exists|m: int|
        s < m < next && #[trigger] is_over(
            probs,
            audio_len,
            window_samples,
            threshold,
            min_silence,
            s,
            m,
        )
}

/// The runs after `n` windows come from the windows that `spans` names: the first and the last of
/// each. Those of different runs are divided by silence.
spec fn come_from(
    probs: Seq<(usize, F32)>,
    audio_len: int,
    window_samples: int,
    threshold: F32,
    min_silence: int,
    n: int,
    runs: Seq<(int, int)>,
    spans: Seq<(int, int)>,
) -> bool {
    &&& spans.len() == runs.len()
    &&& forall|j: int|
        0 <= j < spans.len() ==> (#[trigger] spans[j]).1 < n && unbroken(
            probs,
            audio_len,
            window_samples,
            threshold,
            min_silence,
            spans[j].0,
            spans[j].1,
        ) && runs[j] == (
            probs[spans[j].0].0 as int,
            window_end(probs, spans[j].1, audio_len, window_samples),
        )
    &&& forall|j: int, k: int|
        #![trigger spans[j], spans[k]]
        0 <= j && k == j + 1 && k < spans.len() ==> quiet(
            probs,
            threshold,
            spans[j].1,
            spans[k].0 - 1,
        ) && over_before(
            probs,
            audio_len,
            window_samples,
            threshold,
            min_silence,
            spans[j].1,
            spans[k].0,
        )
    &&& spans.len() > 0 ==> quiet(probs, threshold, -1, spans[0].0 - 1)
    &&& quiet(
        probs,
        threshold,
        if spans.len() > 0 {
            spans.last().1
        } else {
            -1
        },
        n - 1,
    )
}

#[verifier::spinoff_prover]
proof fn lemma_spans(
    probs: Seq<(usize, F32)>,
    audio_len: int,
    window_samples: int,
    threshold: F32,
    min_silence: int,
    n: int,
) -> (spans: Seq<(int, int)>)
    requires
        0 <= n <= probs.len(),
    ensures
        ({
            let s = scan(probs.take(n), audio_len, window_samples, threshold, min_silence);
            let runs = match s.open {
                Some(run) => s.runs.push((run, s.last_end)),
                None => s.runs,
            };
            &&& come_from(
                probs,
                audio_len,
                window_samples,
                threshold,
                min_silence,
                n,
                runs,
                spans,
            )
            &&& s.open is None && spans.len() > 0 ==> over_before(
                probs,
                audio_len,
                window_samples,
                threshold,
                min_silence,
                spans.last().1,
                n,
            )
            &&& s.open is Some ==> !over_before(
                probs,
                audio_len,
                window_samples,
                threshold,
                min_silence,
                spans.last().1,
                n,
            )
        }),
    decreases n,
{
    if n == 0 {
        Seq::empty()
    } else {
        let old = lemma_spans(probs, audio_len, window_samples, threshold, min_silence, n - 1);
        let before = scan(probs.take(n - 1), audio_len, window_samples, threshold, min_silence);
        let s = scan(probs.take(n), audio_len, window_samples, threshold, min_silence);
        let last = n - 1;
        let c = old.len() as int;
        assert(probs.take(n).drop_last() =~= probs.take(n - 1));
        assert(probs.take(n).last() == probs[last]);
        if is_speech(probs, threshold, last) {
            if before.open is Some {
                let first = old[c - 1].0;
                let mid = old[c - 1].1;
                let spans = old.update(c - 1, (first, last));
                assert(unbroken(
                    probs,
                    audio_len,
                    window_samples,
                    threshold,
                    min_silence,
                    first,
                    last,
                )) by {
                    assert forall|a: int, m: int| first <= a < m < last implies !#[trigger] is_over(
                        probs,
                        audio_len,
                        window_samples,
                        threshold,
                        min_silence,
                        a,
                        m,
                    ) by {
                        if m >= mid && a != mid {
                            reveal(is_over);
                            if a < mid {
                                assert(is_speech(probs, threshold, mid));
                            } else {
                                assert(!is_speech(probs, threshold, a));
                            }
                        }
                    }
                }
                assert forall|j: int, k: int|
                    #![trigger spans[j], spans[k]]
                    0 <= j && k == j + 1 && k < spans.len() implies quiet(
                    probs,
                    threshold,
                    spans[j].1,
                    spans[k].0 - 1,
                ) && over_before(
                    probs,
                    audio_len,
                    window_samples,
                    threshold,
                    min_silence,
                    spans[j].1,
                    spans[k].0,
                ) by {
                    assert(spans[k].0 == old[k].0);
                    assert(spans[j] == old[j]);
                }
                spans
            } else {
                let spans = old.push((last, last));
                assert forall|j: int, k: int|
                    #![trigger spans[j], spans[k]]
                    0 <= j && k == j + 1 && k < spans.len() implies quiet(
                    probs,
                    threshold,
                    spans[j].1,
                    spans[k].0 - 1,
                ) && over_before(
                    probs,
                    audio_len,
                    window_samples,
                    threshold,
                    min_silence,
                    spans[j].1,
                    spans[k].0,
                ) by {
                    assert(spans[j] == old[j]);
                    if k < c {
                        assert(spans[k] == old[k]);
                    }
                }
                spans
            }
        } else {
            let end = if c > 0 {
                old.last().1
            } else {
                -1
            };
            assert(quiet(probs, threshold, end, last));
            if c > 0 {
                let over = is_over(
                    probs,
                    audio_len,
                    window_samples,
                    threshold,
                    min_silence,
                    end,
                    last,
                );
                if before.open is Some {
                    assert(over <==> s.open is None) by {
                        reveal(is_over);
                    }
                }
                if over_before(
                    probs,
                    audio_len,
                    window_samples,
                    threshold,
                    min_silence,
                    end,
                    n,
                ) && !over {
                    let m = choose|m: int|
                        end < m < n && #[trigger] is_over(
                            probs,
                            audio_len,
                            window_samples,
                            threshold,
                            min_silence,
                            end,
                            m,
                        );
                    assert(m < last);
                }
            }
            old
        }
    }
}

proof fn lemma_ends_in_order(
    probs: Seq<(usize, F32)>,
    audio_len: int,
    window_samples: int,
    i: int,
    j: int,
)
    requires
        in_order(probs, audio_len),
        window_samples >= 0,
        0 <= i <= j < probs.len(),
    ensures
        probs[i].0 <= probs[j].0,
        window_end(probs, i, audio_len, window_samples) <= window_end(
            probs,
            j,
            audio_len,
            window_samples,
        ),
        probs[i].0 <= window_end(probs, j, audio_len, window_samples),
{
    assert(probs[i].0 <= probs[j].0);
    assert(probs[j].0 <= audio_len);
}

/// A window with speech lies in a run, by number.
proof fn lemma_speech_in_span(
    probs: Seq<(usize, F32)>,
    audio_len: int,
    window_samples: int,
    threshold: F32,
    min_silence: int,
    runs: Seq<(int, int)>,
    spans: Seq<(int, int)>,
    i: int,
) -> (j: int)
    requires
        0 <= i < probs.len(),
        is_speech(probs, threshold, i),
        come_from(
            probs,
            audio_len,
            window_samples,
            threshold,
            min_silence,
            probs.len() as int,
            runs,
            spans,
        ),
    ensures
        0 <= j < spans.len(),
        spans[j].0 <= i <= spans[j].1,
{
    assert(spans.len() > 0);
    assert(i >= spans[0].0);
    lemma_in_span_from(
        probs,
        audio_len,
        window_samples,
        threshold,
        min_silence,
        runs,
        spans,
        i,
        0,
    )
}

proof fn lemma_in_span_from(
    probs: Seq<(usize, F32)>,
    audio_len: int,
    window_samples: int,
    threshold: F32,
    min_silence: int,
    runs: Seq<(int, int)>,
    spans: Seq<(int, int)>,
    i: int,
    from: int,
) -> (j: int)
    requires
        0 <= i < probs.len(),
        is_speech(probs, threshold, i),
        come_from(
            probs,
            audio_len,
            window_samples,
            threshold,
            min_silence,
            probs.len() as int,
            runs,
            spans,
        ),
        0 <= from < spans.len(),
        spans[from].0 <= i,
    ensures
        from <= j < spans.len(),
        spans[j].0 <= i <= spans[j].1,
    decreases spans.len() - from,
{
    if i <= spans[from].1 {
        from
    } else if from + 1 < spans.len() {
        assert(quiet(probs, threshold, spans[from].1, spans[from + 1].0 - 1));
        lemma_in_span_from(
            probs,
            audio_len,
            window_samples,
            threshold,
            min_silence,
            runs,
            spans,
            i,
            from + 1,
        )
    } else {
        assert(false);
        from
    }
}

proof fn lemma_spans_rise(
    probs: Seq<(usize, F32)>,
    audio_len: int,
    window_samples: int,
    threshold: F32,
    min_silence: int,
    runs: Seq<(int, int)>,
    spans: Seq<(int, int)>,
    j: int,
    k: int,
)
    requires
        come_from(
            probs,
            audio_len,
            window_samples,
            threshold,
            min_silence,
            probs.len() as int,
            runs,
            spans,
        ),
        0 <= j < k < spans.len(),
    ensures
        spans[j].1 < spans[k].0,
    decreases k - j,
{
    let m = k - 1;
    assert(over_before(
        probs,
        audio_len,
        window_samples,
        threshold,
        min_silence,
        spans[m].1,
        spans[k].0,
    ));
    assert(spans[m].0 <= spans[m].1);
    if j < m {
        lemma_spans_rise(
            probs,
            audio_len,
            window_samples,
            threshold,
            min_silence,
            runs,
            spans,
            j,
            m,
        );
    }
}

/// Two windows between which speech is never over lie in the same run.
proof fn lemma_same_span(
    probs: Seq<(usize, F32)>,
    audio_len: int,
    window_samples: int,
    threshold: F32,
    min_silence: int,
    runs: Seq<(int, int)>,
    spans: Seq<(int, int)>,
    first: int,
    last: int,
) -> (j: int)
    requires
        unbroken(probs, audio_len, window_samples, threshold, min_silence, first, last),
        come_from(
            probs,
            audio_len,
            window_samples,
            threshold,
            min_silence,
            probs.len() as int,
            runs,
            spans,
        ),
    ensures
        0 <= j < spans.len(),
        spans[j].0 <= first,
        last <= spans[j].1,
{
    let j = lemma_speech_in_span(
        probs,
        audio_len,
        window_samples,
        threshold,
        min_silence,
        runs,
        spans,
        first,
    );
    if last > spans[j].1 {
        let k = lemma_speech_in_span(
            probs,
            audio_len,
            window_samples,
            threshold,
            min_silence,
            runs,
            spans,
            last,
        );
        if k < j {
            lemma_spans_rise(
                probs,
                audio_len,
                window_samples,
                threshold,
                min_silence,
                runs,
                spans,
                k,
                j,
            );
        }
        assert(j + 1 <= k);
        assert(over_before(
            probs,
            audio_len,
            window_samples,
            threshold,
            min_silence,
            spans[j].1,
            spans[j + 1].0,
        ));
        if j + 1 < k {
            lemma_spans_rise(
                probs,
                audio_len,
                window_samples,
                threshold,
                min_silence,
                runs,
                spans,
                j + 1,
                k,
            );
            assert(spans[j + 1].0 <= spans[j + 1].1);
        }
        let m = choose|m: int|
            spans[j].1 < m < spans[j + 1].0 && #[trigger] is_over(
                probs,
                audio_len,
                window_samples,
                threshold,
                min_silence,
                spans[j].1,
                m,
            );
        assert(first <= spans[j].1 < m < last);
        assert(false);
    }
    j
}

/// True where a sample belongs to the speech from window `first` to window `last`: that is long
/// enough, and the sample lies in it or in the padding around it.
pub open spec fn in_speech(
    audio_len: int,
    probs: Seq<(usize, F32)>,
    config: VadConfig,
    sample: int,
    first: int,
    last: int,
) -> bool {
    let start = probs[first].0 as int;
    let end = window_end(probs, last, audio_len, config.window_samples as int);
    &&& unbroken(
        probs,
        audio_len,
        config.window_samples as int,
        config.threshold,
        config.min_silence_ms * 16,
        first,
        last,
    )
    &&& end - start >= config.min_speech_ms * 16
    &&& 0 <= sample < audio_len
    &&& start - config.speech_pad_ms * 16 <= sample < end + config.speech_pad_ms * 16
}

/// What is detected is exactly the speech: a sample lies in a segment if and only if it belongs to
/// speech that is nowhere over, from a window that reaches the threshold to another, and that is
/// long enough, or to its padding. A pause that is shorter than `min_silence_ms` does not end
/// speech, and a longer one does.
pub proof fn segments_hold_exactly_the_speech(
    audio_len: int,
    probs: Seq<(usize, F32)>,
    config: VadConfig,
    sample: int,
)
    requires
        audio_len >= 0,
        in_order(probs, audio_len),
    ensures
        heard(sample, speech_segments(audio_len, probs, config)) <==> exists|first: int, last: int|
            #[trigger] in_speech(audio_len, probs, config, sample, first, last),
{
    let ws = config.window_samples as int;
    let silence = samples_in_ms(config.min_silence_ms as int);
    let speech = samples_in_ms(config.min_speech_ms as int);
    let pad = samples_in_ms(config.speech_pad_ms as int);
    let n = probs.len() as int;
    let s = scan(probs, audio_len, ws, config.threshold, silence);
    let runs = all_runs(s);
    let segments = joined(runs, audio_len, speech, pad);
    let spans = lemma_spans(probs, audio_len, ws, config.threshold, silence, n);
    assert(probs.take(n) =~= probs);
    lemma_scan(probs, audio_len, ws, config.threshold, silence);
    assert(come_from(probs, audio_len, ws, config.threshold, silence, n, runs, spans));
    assert(silence == config.min_silence_ms * 16);
    if heard(sample, segments) {
        let j = lemma_heard_in_run(runs, audio_len, speech, pad, sample);
        let (first, last) = spans[j];
        lemma_ends_in_order(probs, audio_len, ws, first, last);
        assert(in_speech(audio_len, probs, config, sample, first, last));
    }
    if exists|first: int, last: int|
        #[trigger] in_speech(audio_len, probs, config, sample, first, last) {
        let (first, last) = choose|first: int, last: int|
            #[trigger] in_speech(audio_len, probs, config, sample, first, last);
        let j = lemma_same_span(
            probs,
            audio_len,
            ws,
            config.threshold,
            silence,
            runs,
            spans,
            first,
            last,
        );
        lemma_ends_in_order(probs, audio_len, ws, spans[j].0, first);
        lemma_ends_in_order(probs, audio_len, ws, last, spans[j].1);
        long_runs_are_kept(runs, audio_len, speech, pad, j);
        let wide = (
            crate::vad::greatest(runs[j].0 - pad, 0),
            crate::vad::least(runs[j].1 + pad, audio_len),
        );
        let k = choose|k: int|
            0 <= k < segments.len() && (#[trigger] segments[k]).0 <= wide.0 && wide.1
                <= segments[k].1;
        assert(segments[k].0 <= sample < segments[k].1);
    }
}

} // verus!
