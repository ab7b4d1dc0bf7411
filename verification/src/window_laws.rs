//! Laws of the windows to transcribe: which segments of speech each window holds.
use vstd::prelude::*;

use crate::vad::least;
use crate::windows::{flushed, grouping, pieces, vad_windows};
use crate::N_SAMPLES;

verus! {

/// How much speech segments from `a` on and before `b` hold.
pub open spec fn speech_of(segments: Seq<(int, int)>, a: int, b: int) -> int
    decreases b - a,
{
    if b <= a {
        0
    } else {
        speech_of(segments, a, b - 1) + (segments[b - 1].1 - segments[b - 1].0)
    }
}

/// True of a segment that is longer than a window.
pub open spec fn is_long(segment: (int, int)) -> bool {
    segment.1 - segment.0 > 480_000
}

/// True of a window that is a piece of one long segment: a whole window of it, or what is left.
pub open spec fn is_piece(window: (int, int), segments: Seq<(int, int)>, held: (int, int)) -> bool {
    let segment = segments[held.0];
    &&& held.1 == held.0 + 1
    &&& is_long(segment)
    &&& segment.0 <= window.0 < segment.1
    &&& window.1 == (if window.0 + 480_000 <= segment.1 {
        window.0 + 480_000
    } else {
        segment.1
    })
}

/// True of a window that holds short segments, from the start of the first to the end of the last,
/// as far as they fit.
pub open spec fn is_group(window: (int, int), segments: Seq<(int, int)>, held: (int, int)) -> bool {
    &&& held.0 < held.1
    &&& forall|i: int| held.0 <= i < held.1 ==> !is_long(#[trigger] segments[i])
    &&& window == (segments[held.0].0, segments[held.1 - 1].1)
    &&& held.1 - held.0 > 1 ==> window.1 - window.0 <= 480_000
    &&& speech_of(segments, held.0, held.1) <= 480_000
}

/// True of a group that no further segment can join: there is none, or it is long, or the window
/// would span more than thirty seconds, or hold more than thirty seconds of speech.
pub open spec fn is_full_group(segments: Seq<(int, int)>, held: (int, int)) -> bool {
    ||| held.1 == segments.len()
    ||| is_long(segments[held.1])
    ||| segments[held.1].1 - segments[held.0].0 > 480_000
    ||| speech_of(segments, held.0, held.1 + 1) > 480_000
}

/// True where a window follows another: with the rest of the same long segment, or with the segments
/// behind those of the other.
pub open spec fn follows(
    window: (int, int),
    held: (int, int),
    next: (int, int),
    next_held: (int, int),
    segments: Seq<(int, int)>,
) -> bool {
    if is_long(segments[held.0]) && window.1 < segments[held.0].1 {
        next_held == held && next.0 == window.1
    } else {
        next_held.0 == held.1 && next.0 == segments[next_held.0].0
    }
}

/// What the windows made so far hold: the first `n` segments, or those before the group that is
/// being gathered.
spec fn holds_up_to(
    segments: Seq<(int, int)>,
    windows: Seq<(int, int)>,
    held: Seq<(int, int)>,
    n: int,
) -> bool {
    &&& held.len() == windows.len()
    &&& forall|k: int|
        0 <= k < held.len() ==> 0 <= (#[trigger] held[k]).0 < held[k].1 <= n && (is_piece(
            windows[k],
            segments,
            held[k],
        ) || is_group(windows[k], segments, held[k]) && is_full_group(segments, held[k]))
    &&& forall|k: int, l: int|
        #![trigger held[k], held[l]]
        0 <= k && l == k + 1 && l < held.len() ==> follows(
            windows[k],
            held[k],
            windows[l],
            held[l],
            segments,
        )
    &&& held.len() > 0 ==> held[0].0 == 0 && windows[0].0 == segments[0].0
    &&& held.len() > 0 ==> held.last().1 == n && windows.last().1 == segments[n - 1].1
    &&& held.len() == 0 ==> n == 0
}

proof fn lemma_add_group(
    segments: Seq<(int, int)>,
    windows: Seq<(int, int)>,
    held: Seq<(int, int)>,
    a: int,
    b: int,
)
    requires
        holds_up_to(segments, windows, held, a),
        0 <= a < b <= segments.len(),
        is_group((segments[a].0, segments[b - 1].1), segments, (a, b)),
        is_full_group(segments, (a, b)),
    ensures
        holds_up_to(
            segments,
            windows.push((segments[a].0, segments[b - 1].1)),
            held.push((a, b)),
            b,
        ),
{
    let more = held.push((a, b));
    let all = windows.push((segments[a].0, segments[b - 1].1));
    assert forall|k: int| 0 <= k < more.len() implies 0 <= (#[trigger] more[k]).0 < more[k].1 <= b
        && (is_piece(all[k], segments, more[k]) || is_group(all[k], segments, more[k])
        && is_full_group(segments, more[k])) by {
        if k < held.len() {
            assert(more[k] == held[k] && all[k] == windows[k]);
        }
    }
    assert forall|k: int, l: int|
        #![trigger more[k], more[l]]
        0 <= k && l == k + 1 && l < more.len() implies follows(
        all[k],
        more[k],
        all[l],
        more[l],
        segments,
    ) by {
        assert(more[k] == held[k] && all[k] == windows[k]);
        if l < held.len() {
            assert(more[l] == held[l] && all[l] == windows[l]);
        } else {
            assert(held[k].1 == a);
            if is_long(segments[held[k].0]) {
                assert(is_piece(windows[k], segments, held[k])) by {
                    if !is_piece(windows[k], segments, held[k]) {
                        assert(is_group(windows[k], segments, held[k]));
                        assert(!is_long(segments[held[k].0]));
                    }
                }
            }
        }
    }
}

/// The pieces of long segment `a` from `start` on are added one by one.
proof fn lemma_add_pieces(
    segments: Seq<(int, int)>,
    windows: Seq<(int, int)>,
    held: Seq<(int, int)>,
    a: int,
    start: int,
) -> (more: Seq<(int, int)>)
    requires
        0 <= a < segments.len(),
        is_long(segments[a]),
        segments[a].0 <= start <= segments[a].1,
        start == segments[a].0 ==> holds_up_to(segments, windows, held, a),
        start > segments[a].0 ==> partly_holds(segments, windows, held, a, start),
    ensures
        holds_up_to(segments, windows + pieces(start, segments[a].1), more, a + 1),
    decreases segments[a].1 - start,
{
    let end = segments[a].1;
    if start >= end {
        assert(windows + pieces(start, end) =~= windows);
        held
    } else {
        let stop = least(start + N_SAMPLES, end);
        let all = windows.push((start, stop));
        let next = held.push((a, a + 1));
        assert(partly_holds(segments, all, next, a, stop)) by {
            assert forall|k: int| 0 <= k < next.len() implies 0 <= (#[trigger] next[k]).0
                < next[k].1 <= a + 1 && (is_piece(all[k], segments, next[k]) || is_group(
                all[k],
                segments,
                next[k],
            ) && is_full_group(segments, next[k])) by {
                if k < held.len() {
                    assert(next[k] == held[k] && all[k] == windows[k]);
                }
            }
            assert forall|k: int, l: int|
                #![trigger next[k], next[l]]
                0 <= k && l == k + 1 && l < next.len() implies follows(
                all[k],
                next[k],
                all[l],
                next[l],
                segments,
            ) by {
                assert(next[k] == held[k] && all[k] == windows[k]);
                if l < held.len() {
                    assert(next[l] == held[l] && all[l] == windows[l]);
                } else if start == segments[a].0 {
                    assert(held[k].1 == a);
                    if is_long(segments[held[k].0]) {
                        if !is_piece(windows[k], segments, held[k]) {
                            assert(is_group(windows[k], segments, held[k]));
                            assert(!is_long(segments[held[k].0]));
                        }
                    }
                }
            }
        }
        if stop == end {
            assert(pieces(stop, end) =~= Seq::<(int, int)>::empty());
            assert(windows + pieces(start, end) =~= all);
            next
        } else {
            let more = lemma_add_pieces(segments, all, next, a, stop);
            assert(windows + pieces(start, end) =~= all + pieces(stop, end));
            more
        }
    }
}

/// As `holds_up_to`, where of the last segment the part up to `stop` is held.
spec fn partly_holds(
    segments: Seq<(int, int)>,
    windows: Seq<(int, int)>,
    held: Seq<(int, int)>,
    a: int,
    stop: int,
) -> bool {
    &&& held.len() == windows.len()
    &&& held.len() > 0
    &&& forall|k: int|
        0 <= k < held.len() ==> 0 <= (#[trigger] held[k]).0 < held[k].1 <= a + 1 && (is_piece(
            windows[k],
            segments,
            held[k],
        ) || is_group(windows[k], segments, held[k]) && is_full_group(segments, held[k]))
    &&& forall|k: int, l: int|
        #![trigger held[k], held[l]]
        0 <= k && l == k + 1 && l < held.len() ==> follows(
            windows[k],
            held[k],
            windows[l],
            held[l],
            segments,
        )
    &&& held[0].0 == 0 && windows[0].0 == segments[0].0
    &&& held.last() == (a, a + 1)
    &&& windows.last().1 == stop
}

proof fn lemma_speech_of(segments: Seq<(int, int)>, a: int, b: int)
    requires
        a < b,
    ensures
        speech_of(segments, a, b) == speech_of(segments, a, b - 1) + (segments[b - 1].1
            - segments[b - 1].0),
{
}

/// What has been gathered after `n` segments: the windows hold those before `from`, and the group
/// the others.
proof fn lemma_gathered(segments: Seq<(int, int)>, n: int) -> (out: (Seq<(int, int)>, int))
    requires
        0 <= n <= segments.len(),
        forall|k: int| 0 <= k < segments.len() ==> (#[trigger] segments[k]).0 <= segments[k].1,
    ensures
        ({
            let g = grouping(segments.take(n));
            let (held, from) = out;
            &&& 0 <= from <= n
            &&& holds_up_to(segments, g.windows, held, from)
            &&& g.group is None ==> from == n
            &&& g.group matches Some((first, last, speech)) ==> from < n && is_group(
                (first, last),
                segments,
                (from, n),
            ) && speech == speech_of(segments, from, n)
        }),
    decreases n,
{
    if n == 0 {
        (Seq::empty(), 0)
    } else {
        let (held, from) = lemma_gathered(segments, n - 1);
        let less = grouping(segments.take(n - 1));
        let g = grouping(segments.take(n));
        let seg = segments[n - 1];
        assert(segments.take(n).drop_last() =~= segments.take(n - 1));
        assert(segments.take(n).last() == seg);
        assert(seg.0 <= seg.1);
        lemma_speech_of(segments, from, n);
        lemma_speech_of(segments, n - 1, n);
        assert(speech_of(segments, n - 1, n - 1) == 0);
        if is_long(seg) {
            let before = match less.group {
                Some(_) => {
                    lemma_add_group(segments, less.windows, held, from, n - 1);
                    held.push((from, n - 1))
                },
                None => held,
            };
            assert(holds_up_to(segments, flushed(less), before, n - 1));
            let more = lemma_add_pieces(segments, flushed(less), before, n - 1, seg.0);
            (more, n)
        } else {
            match less.group {
                Some((first, last, speech)) => {
                    if seg.1 - first > N_SAMPLES || speech + (seg.1 - seg.0) > N_SAMPLES {
                        lemma_add_group(segments, less.windows, held, from, n - 1);
                        (held.push((from, n - 1)), n - 1)
                    } else {
                        (held, from)
                    }
                },
                None => (held, n - 1),
            }
        }
    }
}

/// Which segments the windows hold, window by window: those from the first number of a pair on and
/// before the second. Each window is a piece of one long segment, or holds as many short segments,
/// one behind the other, as fit: from the start of the first to the end of the last. The windows
/// hold all segments, in order, each once; the pieces of a long segment follow each other without a
/// gap.
pub proof fn windows_hold_the_segments(segments: Seq<(int, int)>) -> (held: Seq<(int, int)>)
    requires
        forall|k: int| 0 <= k < segments.len() ==> (#[trigger] segments[k]).0 <= segments[k].1,
    ensures
        held.len() == vad_windows(segments).len(),
        segments.len() == 0 <==> held.len() == 0,
        forall|k: int|
            0 <= k < held.len() ==> 0 <= (#[trigger] held[k]).0 < held[k].1 <= segments.len() && (
            is_piece(vad_windows(segments)[k], segments, held[k]) || is_group(
                vad_windows(segments)[k],
                segments,
                held[k],
            ) && is_full_group(segments, held[k])),
        forall|k: int, l: int|
            #![trigger held[k], held[l]]
            0 <= k && l == k + 1 && l < held.len() ==> follows(
                vad_windows(segments)[k],
                held[k],
                vad_windows(segments)[l],
                held[l],
                segments,
            ),
        held.len() > 0 ==> held[0].0 == 0 && vad_windows(segments)[0].0 == segments[0].0,
        held.len() > 0 ==> held.last().1 == segments.len() && vad_windows(segments).last().1
            == segments.last().1,
{
    let n = segments.len() as int;
    let (held, from) = lemma_gathered(segments, n);
    let g = grouping(segments);
    assert(segments.take(n) =~= segments);
    match g.group {
        Some(_) => {
            lemma_add_group(segments, g.windows, held, from, n);
            held.push((from, n))
        },
        None => held,
    }
}

/// No sample is transcribed twice: the windows of segments that are in order and do not overlap are
/// in order and do not overlap. Each starts where a segment starts and ends where one ends, unless it
/// is a piece of a segment that is longer than a window.
pub proof fn windows_do_not_overlap(segments: Seq<(int, int)>, i: int, j: int)
    requires
        forall|k: int| 0 <= k < segments.len() ==> (#[trigger] segments[k]).0 <= segments[k].1,
        forall|k: int, l: int|
            0 <= k < l < segments.len() ==> (#[trigger] segments[k]).1 <= (#[trigger] segments[l]).0,
        0 <= i < j < vad_windows(segments).len(),
    ensures
        vad_windows(segments)[i].0 <= vad_windows(segments)[i].1 <= vad_windows(segments)[j].0
            <= vad_windows(segments)[j].1,
    decreases j - i,
{
    let windows = vad_windows(segments);
    let held = windows_hold_the_segments(segments);
    let m = j - 1;
    lemma_window_ends(segments, windows[m], held[m]);
    lemma_window_ends(segments, windows[j], held[j]);
    assert(follows(windows[m], held[m], windows[j], held[j], segments));
    if !(is_long(segments[held[m].0]) && windows[m].1 < segments[held[m].0].1) {
        assert(segments[held[m].1 - 1].1 <= segments[held[j].0].0);
    }
    if i < m {
        windows_do_not_overlap(segments, i, m);
    }
}

proof fn lemma_window_ends(segments: Seq<(int, int)>, window: (int, int), held: (int, int))
    requires
        forall|k: int| 0 <= k < segments.len() ==> (#[trigger] segments[k]).0 <= segments[k].1,
        forall|k: int, l: int|
            0 <= k < l < segments.len() ==> (#[trigger] segments[k]).1 <= (#[trigger] segments[l]).0,
        0 <= held.0 < held.1 <= segments.len(),
        is_piece(window, segments, held) || is_group(window, segments, held),
    ensures
        window.0 <= window.1 <= segments[held.1 - 1].1,
{
    if held.0 < held.1 - 1 {
        assert(segments[held.0].1 <= segments[held.1 - 1].0);
    }
    assert(segments[held.0].0 <= segments[held.0].1);
    assert(segments[held.1 - 1].0 <= segments[held.1 - 1].1);
}

/// Where windows start and end: at the start and the end of segments, or inside one that is longer
/// than a window.
pub proof fn windows_start_and_end_with_segments(segments: Seq<(int, int)>, k: int) -> (at: (int, int))
    requires
        forall|i: int| 0 <= i < segments.len() ==> (#[trigger] segments[i]).0 <= segments[i].1,
        0 <= k < vad_windows(segments).len(),
    ensures
        0 <= at.0 <= at.1 < segments.len(),
        vad_windows(segments)[k].0 == segments[at.0].0 || (at.0 == at.1 && segments[at.0].1
            - segments[at.0].0 > 480_000 && segments[at.0].0 < vad_windows(segments)[k].0),
        vad_windows(segments)[k].1 == segments[at.1].1 || (at.0 == at.1 && segments[at.0].1
            - segments[at.0].0 > 480_000 && vad_windows(segments)[k].1 == vad_windows(segments)[k].0
            + 480_000 && vad_windows(segments)[k].1 < segments[at.1].1),
{
    let held = windows_hold_the_segments(segments);
    (held[k].0, held[k].1 - 1)
}

} // verus!
