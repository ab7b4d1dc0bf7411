//! Cutting audio into windows of at most thirty seconds.
use vstd::prelude::*;

use crate::float_bits::F32;
use crate::vad::{
    bounds, chunk, chunk_bounds, chunk_count, in_order, least, segments_are_ordered, speech_segments,
    VadConfig, VadSegment,
};
use crate::N_SAMPLES;

verus! {

/// A window of samples that is transcribed on its own.
#[derive(Clone, Copy, Debug, PartialEq, Eq, Structural)]
pub struct AudioWindow {
    pub index: usize,
    pub start_sample: usize,
    pub end_sample: usize,
}

/// Where windows start and end.
pub open spec fn window_bounds(windows: Seq<AudioWindow>) -> Seq<(int, int)> {
    windows.map_values(|w: AudioWindow| (w.start_sample as int, w.end_sample as int))
}

/// Windows carry their position as their index.
pub open spec fn numbered(windows: Seq<AudioWindow>) -> bool {
    forall|i: int| 0 <= i < windows.len() ==> (#[trigger] windows[i]).index == i
}

/// Windows of `N_SAMPLES`, one behind the other; the last may be shorter.
pub fn fixed_audio_windows(audio_len: usize) -> (windows: Vec<AudioWindow>)
    ensures
        numbered(windows@),
        windows@.len() == chunk_count(audio_len as int, N_SAMPLES as int),
        forall|i: int|
            0 <= i < windows@.len() ==> #[trigger] window_bounds(windows@)[i] == chunk(
                audio_len as int,
                N_SAMPLES as int,
                i,
            ),
{
    let chunks = chunk_bounds(audio_len, N_SAMPLES);
    let mut windows: Vec<AudioWindow> = Vec::new();
    let mut i: usize = 0;
    while i < chunks.len()
        invariant
            i <= chunks@.len(),
            windows@.len() == i,
            numbered(windows@),
            forall|j: int|
                0 <= j < i ==> (#[trigger] windows@[j]).start_sample == chunks@[j].0
                    && windows@[j].end_sample == chunks@[j].1,
        decreases chunks@.len() - i,
    {
        windows.push(
            AudioWindow { index: i, start_sample: chunks[i].0, end_sample: chunks[i].1 },
        );
        i = i + 1;
    }
    windows
}

/// The windows made so far, and the group of segments that is being gathered: where it starts,
/// where it ends and how much speech it holds.
pub struct Grouping {
    pub windows: Seq<(int, int)>,
    pub group: Option<(int, int, int)>,
}

/// The windows with the gathered group as one more.
pub open spec fn flushed(g: Grouping) -> Seq<(int, int)> {
    match g.group {
        Some((start, end, _)) => g.windows.push((start, end)),
        None => g.windows,
    }
}

/// A long segment in pieces of `N_SAMPLES`.
pub open spec fn pieces(start: int, end: int) -> Seq<(int, int)>
    decreases end - start,
{
    if start >= end {
        Seq::empty()
    } else {
        let stop = least(start + N_SAMPLES, end);
        seq![(start, stop)] + pieces(stop, end)
    }
}

/// A segment that is longer than a window is cut into pieces of its own. Any other joins the
/// group, unless the group would then span more than a window or hold more than a window of
/// speech: then it begins a new group.
pub open spec fn with_segment(g: Grouping, start: int, end: int) -> Grouping {
    if end - start > N_SAMPLES {
        Grouping { windows: flushed(g) + pieces(start, end), group: None }
    } else {
        match g.group {
            Some((first, last, speech)) => if end - first > N_SAMPLES || speech + (end - start)
                > N_SAMPLES {
                Grouping { windows: flushed(g), group: Some((start, end, end - start)) }
            } else {
                Grouping { windows: g.windows, group: Some((first, end, speech + (end - start))) }
            },
            None => Grouping { windows: g.windows, group: Some((start, end, end - start)) },
        }
    }
}

/// Segments gathered one after the other.
pub open spec fn grouping(segments: Seq<(int, int)>) -> Grouping
    decreases segments.len(),
{
    if segments.len() == 0 {
        Grouping { windows: Seq::empty(), group: None }
    } else {
        with_segment(grouping(segments.drop_last()), segments.last().0, segments.last().1)
    }
}

/// The windows that segments of speech lead to.
pub open spec fn vad_windows(segments: Seq<(int, int)>) -> Seq<(int, int)> {
    flushed(grouping(segments))
}

/// True where lengths and spans are not negative: no segment ends before it starts, nor before
/// the start of the group that it would join.
pub open spec fn groupable(segments: Seq<(int, int)>) -> bool {
    &&& forall|k: int| 0 <= k < segments.len() ==> (#[trigger] segments[k]).0 <= segments[k].1
    &&& forall|k: int|
        0 <= k < segments.len() && segments[k].1 - segments[k].0 <= N_SAMPLES ==> (match grouping(
            #[trigger] segments.take(k),
        ).group {
            Some((first, _, _)) => first <= segments[k].1,
            None => true,
        })
}

/// True of segments in order of time.
pub open spec fn ordered(segments: Seq<(int, int)>) -> bool {
    &&& forall|k: int| 0 <= k < segments.len() ==> (#[trigger] segments[k]).0 <= segments[k].1
    &&& forall|j: int, k: int|
        0 <= j <= k < segments.len() ==> (#[trigger] segments[j]).0 <= (#[trigger] segments[k]).0
            && segments[j].1 <= segments[k].1
}

/// Appends a window.
fn push_window(windows: &mut Vec<AudioWindow>, start_sample: usize, end_sample: usize)
    requires
        numbered(old(windows)@),
    ensures
        numbered(final(windows)@),
        window_bounds(final(windows)@) == window_bounds(old(windows)@).push(
            (start_sample as int, end_sample as int),
        ),
{
    let index: usize = windows.len();
    windows.push(AudioWindow { index, start_sample, end_sample });
    assert(window_bounds(windows@) =~= window_bounds(old(windows)@).push(
        (start_sample as int, end_sample as int),
    ));
}

/// Windows for segments of speech: short segments share a window as long as it spans no more than
/// `N_SAMPLES`, and long ones are cut.
pub fn vad_audio_windows(vad_segments: &[VadSegment]) -> (windows: Vec<AudioWindow>)
    requires
        groupable(bounds(vad_segments@)),
    ensures
        numbered(windows@),
        window_bounds(windows@) == vad_windows(bounds(vad_segments@)),
{
    let ghost all = bounds(vad_segments@);
    let mut windows: Vec<AudioWindow> = Vec::new();
    let mut group_start: Option<usize> = None;
    let mut group_end: usize = 0;
    let mut group_speech: usize = 0;
    let mut i: usize = 0;
    assert(all.take(0) =~= Seq::<(int, int)>::empty());
    assert(window_bounds(windows@) =~= Seq::<(int, int)>::empty());
    while i < vad_segments.len()
        invariant
            i <= vad_segments@.len(),
            all == bounds(vad_segments@),
            groupable(all),
            numbered(windows@),
            group_speech <= N_SAMPLES,
            group_start is None ==> group_speech == 0,
            ({
                let g = grouping(all.take(i as int));
                &&& g.windows == window_bounds(windows@)
                &&& g.group == (match group_start {
                    Some(start) => Some((start as int, group_end as int, group_speech as int)),
                    None => None,
                })
            }),
        decreases vad_segments@.len() - i,
    {
        let seg: VadSegment = vad_segments[i];
        let ghost g = grouping(all.take(i as int));
        proof {
            assert(all[i as int] == (seg.start_sample as int, seg.end_sample as int));
            assert(all.take(i + 1).drop_last() =~= all.take(i as int));
            assert(all.take(i + 1).last() == all[i as int]);
        }
        let seg_len: usize = seg.end_sample - seg.start_sample;
        if seg_len > N_SAMPLES {
            if let Some(start) = group_start {
                push_window(&mut windows, start, group_end);
                group_start = None;
                group_speech = 0;
            }
            let ghost before = window_bounds(windows@);
            let mut start: usize = seg.start_sample;
            assert(before + pieces(start as int, seg.end_sample as int) =~= flushed(g) + pieces(
                seg.start_sample as int,
                seg.end_sample as int,
            ));
            while start < seg.end_sample
                invariant
                    start <= seg.end_sample,
                    numbered(windows@),
                    window_bounds(windows@) + pieces(start as int, seg.end_sample as int)
                        == flushed(g) + pieces(seg.start_sample as int, seg.end_sample as int),
                decreases seg.end_sample - start,
            {
                let end: usize = if seg.end_sample - start > N_SAMPLES {
                    start + N_SAMPLES
                } else {
                    seg.end_sample
                };
                let ghost done = window_bounds(windows@);
                push_window(&mut windows, start, end);
                assert(window_bounds(windows@) + pieces(end as int, seg.end_sample as int) =~= done
                    + pieces(start as int, seg.end_sample as int));
                start = end;
            }
            assert(window_bounds(windows@) + pieces(start as int, seg.end_sample as int)
                =~= window_bounds(windows@));
        } else {
            let wall_clock_overflow: bool = match group_start {
                Some(first) => seg.end_sample - first > N_SAMPLES,
                None => false,
            };
            let speech_overflow: bool = group_speech + seg_len > N_SAMPLES;
            if wall_clock_overflow || speech_overflow {
                if let Some(first) = group_start {
                    push_window(&mut windows, first, group_end);
                    group_start = None;
                    group_speech = 0;
                }
            }
            if group_start.is_none() {
                group_start = Some(seg.start_sample);
            }
            group_end = seg.end_sample;
            group_speech = group_speech + seg_len;
        }
        i = i + 1;
    }
    assert(all.take(i as int) =~= all);
    if let Some(start) = group_start {
        push_window(&mut windows, start, group_end);
    }
    windows
}

/// Whether segments of speech can be grouped.
pub fn can_be_grouped(vad_segments: &[VadSegment]) -> (can: bool)
    ensures
        can == groupable(bounds(vad_segments@)),
{
    let ghost all = bounds(vad_segments@);
    let mut group: Option<(usize, usize)> = None;
    let mut i: usize = 0;
    assert(all.take(0) =~= Seq::<(int, int)>::empty());
    while i < vad_segments.len()
        invariant
            i <= vad_segments@.len(),
            all == bounds(vad_segments@),
            match (grouping(all.take(i as int)).group, group) {
                (Some((first, _, speech)), Some((start, held))) => first == start && speech == held
                    && held <= N_SAMPLES,
                (None, None) => true,
                _ => false,
            },
            forall|k: int| 0 <= k < i ==> (#[trigger] all[k]).0 <= all[k].1,
            forall|k: int|
                0 <= k < i && all[k].1 - all[k].0 <= N_SAMPLES ==> (match grouping(
                    #[trigger] all.take(k),
                ).group {
                    Some((first, _, _)) => first <= all[k].1,
                    None => true,
                }),
        decreases vad_segments@.len() - i,
    {
        let seg: VadSegment = vad_segments[i];
        proof {
            assert(all[i as int] == (seg.start_sample as int, seg.end_sample as int));
            assert(all.take(i + 1).drop_last() =~= all.take(i as int));
            assert(all.take(i + 1).last() == all[i as int]);
        }
        if seg.end_sample < seg.start_sample {
            return false;
        }
        let len: usize = seg.end_sample - seg.start_sample;
        group = if len > N_SAMPLES {
            None
        } else {
            match group {
                Some((start, held)) => {
                    if seg.end_sample < start {
                        assert(grouping(all.take(i as int)).group is Some);
                        return false;
                    }
                    if seg.end_sample - start > N_SAMPLES || held + len > N_SAMPLES {
                        Some((seg.start_sample, len))
                    } else {
                        Some((start, held + len))
                    }
                },
                None => Some((seg.start_sample, len)),
            }
        };
        i = i + 1;
    }
    true
}

/// The windows to transcribe: around the speech if there are segments, else one behind the other.
pub fn transcription_windows(audio_len: usize, vad_segments: &[VadSegment]) -> (windows: Vec<AudioWindow>)
    requires
        groupable(bounds(vad_segments@)),
    ensures
        numbered(windows@),
        vad_segments@.len() > 0 ==> window_bounds(windows@) == vad_windows(bounds(vad_segments@)),
        vad_segments@.len() == 0 ==> windows@.len() == chunk_count(
            audio_len as int,
            N_SAMPLES as int,
        ) && forall|i: int|
            0 <= i < windows@.len() ==> #[trigger] window_bounds(windows@)[i] == chunk(
                audio_len as int,
                N_SAMPLES as int,
                i,
            ),
{
    if vad_segments.len() == 0 {
        fixed_audio_windows(audio_len)
    } else {
        vad_audio_windows(vad_segments)
    }
}

////////////////////////////////////////////////////////////////////////////////
// Laws
////////////////////////////////////////////////////////////////////////////////

/// True where a window holds the sample.
pub open spec fn covered(sample: int, windows: Seq<(int, int)>) -> bool {
    exists|k: int| 0 <= k < windows.len() && (#[trigger] windows[k]).0 <= sample < windows[k].1
}

/// Every sample of the audio lies in exactly the fixed window that its number leads to.
pub proof fn fixed_windows_cover(audio_len: int, sample: int)
    requires
        0 <= sample < audio_len,
    ensures
        ({
            let k = sample / (N_SAMPLES as int);
            &&& 0 <= k < chunk_count(audio_len, N_SAMPLES as int)
            &&& chunk(audio_len, N_SAMPLES as int, k).0 <= sample < chunk(
                audio_len,
                N_SAMPLES as int,
                k,
            ).1
        }),
{
}

/// Segments in order of time can be grouped.
pub proof fn ordered_is_groupable(segments: Seq<(int, int)>)
    requires
        ordered(segments),
    ensures
        groupable(segments),
{
    assert forall|k: int|
        0 <= k < segments.len() && segments[k].1 - segments[k].0 <= N_SAMPLES implies (
    match grouping(#[trigger] segments.take(k)).group {
        Some((first, _, _)) => first <= segments[k].1,
        None => true,
    }) by {
        lemma_group(segments, k);
    }
}

/// The group that is being gathered starts with an earlier segment, ends with the last one, and
/// spans no more than a window.
proof fn lemma_group(segments: Seq<(int, int)>, n: int)
    requires
        ordered(segments),
        0 <= n <= segments.len(),
    ensures
        grouping(segments.take(n)).group matches Some((first, last, speech)) ==> n > 0 && first
            <= segments[n - 1].0 && last == segments[n - 1].1 && first <= last && last - first
            <= N_SAMPLES,
    decreases n,
{
    if n > 0 {
        lemma_group(segments, n - 1);
        assert(segments.take(n).drop_last() =~= segments.take(n - 1));
        assert(segments.take(n).last() == segments[n - 1]);
        assert(segments[n - 1].0 <= segments[n - 1].1);
        if n > 1 {
            assert(segments[n - 2].0 <= segments[n - 1].0);
        }
    }
}

proof fn lemma_pieces(start: int, end: int)
    ensures
        forall|k: int|
            0 <= k < pieces(start, end).len() ==> 0 < (#[trigger] pieces(start, end)[k]).1 - pieces(
                start,
                end,
            )[k].0 <= N_SAMPLES,
        forall|s: int| start <= s < end ==> #[trigger] covered(s, pieces(start, end)),
    decreases end - start,
{
    if start < end {
        let stop = least(start + N_SAMPLES, end);
        let rest = pieces(stop, end);
        let whole = pieces(start, end);
        lemma_pieces(stop, end);
        assert forall|k: int| 0 <= k < whole.len() implies 0 < (#[trigger] whole[k]).1 - whole[k].0
            <= N_SAMPLES by {
            if k > 0 {
                assert(whole[k] == rest[k - 1]);
            }
        }
        assert forall|s: int| start <= s < end implies #[trigger] covered(s, whole) by {
            if s < stop {
                assert(whole[0].0 <= s < whole[0].1);
            } else {
                assert(covered(s, rest));
                let k = choose|k: int| 0 <= k < rest.len() && (#[trigger] rest[k]).0 <= s < rest[k].1;
                assert(whole[k + 1] == rest[k]);
            }
        }
    }
}

/// No window is longer than `N_SAMPLES`.
pub proof fn vad_windows_fit(segments: Seq<(int, int)>)
    requires
        ordered(segments),
    ensures
        forall|k: int|
            0 <= k < vad_windows(segments).len() ==> 0 <= (#[trigger] vad_windows(segments)[k]).1
                - vad_windows(segments)[k].0 <= N_SAMPLES,
{
    lemma_windows_fit(segments, segments.len() as int);
    assert(segments.take(segments.len() as int) =~= segments);
}

proof fn lemma_windows_fit(segments: Seq<(int, int)>, n: int)
    requires
        ordered(segments),
        0 <= n <= segments.len(),
    ensures
        forall|k: int|
            0 <= k < flushed(grouping(segments.take(n))).len() ==> 0 <= (#[trigger] flushed(
                grouping(segments.take(n)),
            )[k]).1 - flushed(grouping(segments.take(n)))[k].0 <= N_SAMPLES,
        forall|k: int|
            0 <= k < grouping(segments.take(n)).windows.len() ==> 0 <= (#[trigger] grouping(
                segments.take(n),
            ).windows[k]).1 - grouping(segments.take(n)).windows[k].0 <= N_SAMPLES,
    decreases n,
{
    if n > 0 {
        lemma_windows_fit(segments, n - 1);
        lemma_group(segments, n);
        let less = grouping(segments.take(n - 1));
        let g = grouping(segments.take(n));
        let seg = segments[n - 1];
        assert(segments.take(n).drop_last() =~= segments.take(n - 1));
        assert(segments.take(n).last() == seg);
        lemma_pieces(seg.0, seg.1);
        assert forall|k: int| 0 <= k < g.windows.len() implies 0 <= (#[trigger] g.windows[k]).1
            - g.windows[k].0 <= N_SAMPLES by {
            let f = flushed(less);
            if k < less.windows.len() {
                assert(g.windows[k] == less.windows[k]);
            } else if k < f.len() {
                assert(g.windows[k] == f[k]);
            } else {
                assert(g.windows[k] == pieces(seg.0, seg.1)[k - f.len()]);
            }
        }
    }
}

/// All speech is transcribed: every sample of every segment lies in a window.
pub proof fn vad_windows_cover(segments: Seq<(int, int)>, i: int, sample: int)
    requires
        ordered(segments),
        0 <= i < segments.len(),
        segments[i].0 <= sample < segments[i].1,
    ensures
        covered(sample, vad_windows(segments)),
{
    lemma_windows_cover(segments, segments.len() as int, i, sample);
    assert(segments.take(segments.len() as int) =~= segments);
}

proof fn lemma_windows_cover(segments: Seq<(int, int)>, n: int, i: int, sample: int)
    requires
        ordered(segments),
        0 <= i < n <= segments.len(),
        segments[i].0 <= sample < segments[i].1,
    ensures
        ({
            let g = grouping(segments.take(n));
            covered(sample, g.windows) || (g.group matches Some((first, last, _)) && first <= sample
                < last)
        }),
        covered(sample, flushed(grouping(segments.take(n)))),
    decreases n,
{
    let less = grouping(segments.take(n - 1));
    let g = grouping(segments.take(n));
    let seg = segments[n - 1];
    assert(segments.take(n).drop_last() =~= segments.take(n - 1));
    assert(segments.take(n).last() == seg);
    assert(segments[i].1 <= seg.1);
    lemma_group(segments, n - 1);
    lemma_pieces(seg.0, seg.1);
    if i < n - 1 {
        lemma_windows_cover(segments, n - 1, i, sample);
        if covered(sample, less.windows) {
            let k = choose|k: int|
                0 <= k < less.windows.len() && (#[trigger] less.windows[k]).0 <= sample
                    < less.windows[k].1;
            assert(g.windows[k] == less.windows[k]);
        } else {
            let k = less.windows.len() as int;
            assert(flushed(less)[k].0 <= sample < flushed(less)[k].1);
            if g.windows.len() > k {
                assert(g.windows[k] == flushed(less)[k]);
            }
        }
    } else if seg.1 - seg.0 > N_SAMPLES {
        assert(covered(sample, pieces(seg.0, seg.1)));
        let p = pieces(seg.0, seg.1);
        let k = choose|k: int| 0 <= k < p.len() && (#[trigger] p[k]).0 <= sample < p[k].1;
        assert(g.windows[flushed(less).len() + k] == p[k]);
    } else {
        if less.group is Some && n > 1 {
            assert(segments[n - 2].0 <= seg.0);
        }
    }
    if covered(sample, g.windows) {
        let k = choose|k: int|
            0 <= k < g.windows.len() && (#[trigger] g.windows[k]).0 <= sample < g.windows[k].1;
        assert(flushed(g)[k] == g.windows[k]);
    } else {
        assert(flushed(g)[g.windows.len() as int].0 <= sample);
    }
}

/// What is detected is transcribed: the segments of windows in order can be grouped, every sample
/// of them lies in a window, and every window fits the encoder.
pub proof fn detected_speech_is_covered(
    audio_len: int,
    probs: Seq<(usize, F32)>,
    config: VadConfig,
    i: int,
    sample: int,
)
    requires
        audio_len >= 0,
        in_order(probs, audio_len),
        0 <= i < speech_segments(audio_len, probs, config).len(),
        speech_segments(audio_len, probs, config)[i].0 <= sample < speech_segments(
            audio_len,
            probs,
            config,
        )[i].1,
    ensures
        ({
            let segments = speech_segments(audio_len, probs, config);
            &&& groupable(segments)
            &&& covered(sample, vad_windows(segments))
            &&& forall|k: int|
                0 <= k < vad_windows(segments).len() ==> 0 <= (#[trigger] vad_windows(segments)[k]).1
                    - vad_windows(segments)[k].0 <= N_SAMPLES
        }),
{
    let segments = speech_segments(audio_len, probs, config);
    segments_are_ordered(audio_len, probs, config);
    assert forall|j: int, k: int| 0 <= j <= k < segments.len() implies (#[trigger] segments[j]).0 <= (
    #[trigger] segments[k]).0 && segments[j].1 <= segments[k].1 by {
        if j < k {
            assert(segments[j].1 < segments[k].0);
        }
    }
    ordered_is_groupable(segments);
    vad_windows_cover(segments, i, sample);
    vad_windows_fit(segments);
}

} // verus!
