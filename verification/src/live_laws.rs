//! Laws of live streams: when a window is ready and what it holds, and whose turn it is.
use vstd::prelude::*;

use crate::daemon::RequestHeader;
use crate::float_bits::F32;
use crate::live_jobs::{
    detection_behind_a_window_stays, dispatchable, last_fitting, later_by, moved, options_follow,
    planned, scored, segments_within, selects, turn, with_completion, ActiveLiveJob, LiveJobs,
    PlanView,
};
use crate::parallel::{live_step, LiveEvent, LiveTranscription};
use crate::vad::{chunk, chunk_count, speech_segments};
use crate::whisper::TranscribeOptions;

verus! {

////////////////////////////////////////////////////////////////////////////////
// Pieces
////////////////////////////////////////////////////////////////////////////////

/// Pieces of one size follow each other without a gap, from the start to the end: all are of that
/// size but the last, which may be shorter and is not empty.
pub proof fn pieces_follow_each_other(len: int, size: int, i: int)
    requires
        len >= 0,
        size > 0,
        0 <= i < chunk_count(len, size),
    ensures
        chunk(len, size, 0).0 == 0,
        chunk(len, size, i).0 < chunk(len, size, i).1 <= len,
        chunk(len, size, i).1 - chunk(len, size, i).0 <= size,
        i + 1 < chunk_count(len, size) ==> chunk(len, size, i).1 - chunk(len, size, i).0 == size
            && chunk(len, size, i + 1).0 == chunk(len, size, i).1,
        i + 1 == chunk_count(len, size) ==> chunk(len, size, i).1 == len,
{
    let n = chunk_count(len, size);
    assert(0 * size == 0) by (nonlinear_arith);
    assert((i + 1) * size == i * size + size) by (nonlinear_arith);
    assert(i * size < len) by (nonlinear_arith)
        requires
            size > 0,
            i < (len + size - 1) / size,
            0 <= i,
    ;
    if i + 1 < n {
        assert((i + 1) * size < len) by (nonlinear_arith)
            requires
                size > 0,
                i + 1 < (len + size - 1) / size,
                0 <= i,
        ;
    } else {
        assert((i + 1) * size >= len) by (nonlinear_arith)
            requires
                size > 0,
                i + 1 == (len + size - 1) / size,
        ;
    }
}

/// A length has no pieces exactly when it is zero.
pub proof fn something_has_pieces(len: int, size: int)
    requires
        len >= 0,
        size > 0,
    ensures
        chunk_count(len, size) == 0 <==> len == 0,
        chunk_count(len, size) >= 0,
{
    assert((len + size - 1) / size >= 0 && ((len + size - 1) / size == 0 <==> len == 0))
        by (nonlinear_arith)
        requires
            size > 0,
            len >= 0,
    ;
}

/// The probabilities of a chunk are kept with the places of its pieces, behind what was buffered.
pub proof fn probabilities_keep_their_places(first: int, size: int, probabilities: Seq<F32>, i: int)
    requires
        0 <= first,
        0 < size,
        0 <= i < probabilities.len(),
        first + i * size <= usize::MAX,
    ensures
        scored(first, size, probabilities).len() == probabilities.len(),
        scored(first, size, probabilities)[i].0 == first + i * size,
        scored(first, size, probabilities)[i].1 == probabilities[i],
{
    assert(i * size >= 0) by (nonlinear_arith)
        requires
            i >= 0,
            size > 0,
    ;
}

/// Places are counted from the start of the stream: those in the buffer, and where the buffer starts.
pub proof fn places_count_from_the_start(events: Seq<(int, int)>, offset: int, i: int)
    requires
        0 <= i < events.len(),
    ensures
        later_by(events, offset).len() == events.len(),
        later_by(events, offset)[i].0 == offset + events[i].0,
        later_by(events, offset)[i].1 == offset + events[i].1,
{
}

////////////////////////////////////////////////////////////////////////////////
// When a window is ready
////////////////////////////////////////////////////////////////////////////////

/// Without detection a window is ready when thirty seconds are buffered, or when nothing more comes
/// and something is buffered. It is the first thirty seconds, or all there is.
pub proof fn undetected_windows_are_thirty_seconds(buffered: int, closed: bool)
    requires
        buffered >= 0,
    ensures
        planned(buffered, None, closed) is Some <==> buffered >= 480_000 || (closed && buffered > 0),
        planned(buffered, None, closed) matches Some(plan) ==> plan.start == 0 && plan.end == (
        if buffered >= 480_000 {
            480_000
        } else {
            buffered
        }) && plan.events.len() == 0,
{
}

proof fn lemma_fitting(segments: Seq<(int, int)>, buffered: int, from: int)
    requires
        segments_within(segments, buffered),
        0 <= from < segments.len(),
        from > 0 ==> segments[from].1 - segments[0].0 <= 480_000,
    ensures
        ({
            let last = last_fitting(segments, from);
            &&& from <= last < segments.len()
            &&& last > 0 ==> segments[last].1 - segments[0].0 <= 480_000
            &&& last + 1 < segments.len() ==> segments[last + 1].1 - segments[0].0 > 480_000
        }),
    decreases segments.len() - from,
{
    if from + 1 < segments.len() && segments[from + 1].1 - segments[0].0 <= 480_000 {
        lemma_fitting(segments, buffered, from + 1);
    }
}

/// With detection a window is ready exactly when there is speech, and it has lasted thirty seconds
/// from its start, pauses included, or two seconds of silence follow it, or nothing more comes. A
/// short pause does not make a window ready, and silence alone never does.
pub proof fn windows_are_ready_when_speech_ends(
    buffered: int,
    segments: Seq<(int, int)>,
    closed: bool,
)
    requires
        segments_within(segments, buffered),
    ensures
        planned(buffered, Some(segments), closed) is Some <==> segments.len() > 0 && (
        segments.last().1 - segments[0].0 >= 480_000 || buffered - segments.last().1 >= 32_000 || (
        closed && buffered > 0)),
{
    if segments.len() > 0 {
        lemma_fitting(segments, buffered, 0);
        let last = last_fitting(segments, 0);
        let n = segments.len() - 1;
        if last < n {
            if last + 1 < n {
                assert(segments[last + 1].1 < segments[n].0);
                assert(segments[n].0 <= segments[n].1);
            }
            assert(segments[n].1 - segments[0].0 > 480_000);
        }
    }
}

/// A window with detection starts with the first speech and holds as many segments as fit: all that
/// end within thirty seconds of its start. It ends with the last of them, or, where the first alone
/// lasts thirty seconds, thirty seconds behind its start; the segment that does not fit stays.
pub proof fn windows_hold_as_much_speech_as_fits(
    buffered: int,
    segments: Seq<(int, int)>,
    closed: bool,
    plan: PlanView,
)
    requires
        segments_within(segments, buffered),
        planned(buffered, Some(segments), closed) == Some(plan),
    ensures
        ({
            let c = plan.events.len() as int;
            &&& 0 < c <= segments.len()
            &&& plan.start == segments[0].0
            &&& c < segments.len() ==> segments[c].1 - plan.start > 480_000
            &&& c > 1 ==> segments[c - 1].1 - plan.start <= 480_000
            &&& plan.end == (if segments[c - 1].1 - plan.start >= 480_000 {
                plan.start + 480_000
            } else {
                segments[c - 1].1
            })
            &&& forall|i: int|
                0 <= i < c ==> (#[trigger] plan.events[i]).0 == segments[i].0 && plan.events[i].1 == (
                if segments[i].1 <= plan.end {
                    segments[i].1
                } else {
                    plan.end
                })
        }),
{
    lemma_fitting(segments, buffered, 0);
}

/// What a stream has detected keeps its place in the stream when a window is taken off: each piece
/// behind the window is still there, at the same place and with the same probability, and no other.
pub proof fn later_speech_is_still_known(
    before: ActiveLiveJob,
    after: ActiveLiveJob,
    plan: PlanView,
    i: int,
    j: int,
)
    requires
        before.wf(),
        0 <= plan.end,
        after.absolute_offset_samples == before.absolute_offset_samples + plan.end,
        after.probs@ == moved(before.probs@, plan.end),
    ensures
        0 <= i < before.probs@.len() && before.probs@[i].0 >= plan.end ==> exists|k: int|
            0 <= k < after.probs@.len() && after.absolute_offset_samples + (
            #[trigger] after.probs@[k]).0 == before.absolute_offset_samples + before.probs@[i].0
                && after.probs@[k].1 == before.probs@[i].1,
        0 <= j < after.probs@.len() ==> exists|k: int|
            0 <= k < before.probs@.len() && before.absolute_offset_samples + (
            #[trigger] before.probs@[k]).0 == after.absolute_offset_samples + after.probs@[j].0
                && before.probs@[k].1 == after.probs@[j].1,
{
    detection_behind_a_window_stays(before.probs@, plan.end);
    let kept = moved(before.probs@, plan.end);
    if 0 <= i < before.probs@.len() && before.probs@[i].0 >= plan.end {
        let p = ((before.probs@[i].0 - plan.end) as usize, before.probs@[i].1);
        assert(kept.contains(p));
        let k = choose|k: int| 0 <= k < kept.len() && kept[k] == p;
        assert(after.probs@[k] == p);
    }
    if 0 <= j < after.probs@.len() {
        assert(after.probs@[j] == kept[j]);
        let k = choose|k: int|
            0 <= k < before.probs@.len() && (#[trigger] before.probs@[k]).0 == kept[j].0 + plan.end
                && before.probs@[k].1 == kept[j].1;
        assert(before.absolute_offset_samples + before.probs@[k].0 == after.absolute_offset_samples
            + after.probs@[j].0);
    }
}

////////////////////////////////////////////////////////////////////////////////
// Whose turn it is
////////////////////////////////////////////////////////////////////////////////

/// The stream that is chosen has a window ready and fewer windows worked on than allowed, and no
/// stream between the one whose turn it is and the chosen one does, counted round.
pub proof fn first_ready_stream_in_turn_is_chosen(
    jobs: Seq<ActiveLiveJob>,
    max_in_flight: usize,
    cursor: int,
    chosen: int,
    other: int,
)
    requires
        0 <= cursor < jobs.len(),
        selects(jobs, max_in_flight, cursor, chosen),
        0 <= other < jobs.len(),
        if cursor <= chosen {
            cursor <= other < chosen
        } else {
            cursor <= other || other < chosen
        },
    ensures
        0 <= chosen < jobs.len(),
        jobs[chosen].in_flight < max_in_flight,
        jobs[chosen].plan() is Some,
        !(jobs[other].in_flight < max_in_flight && jobs[other].plan() is Some),
{
    let n = jobs.len() as int;
    let k = choose|k: int|
        0 <= k < n && chosen == #[trigger] turn(cursor, n, k) && dispatchable(
            jobs[chosen],
            max_in_flight,
        ) && forall|m: int|
            0 <= m < k ==> !dispatchable(jobs[#[trigger] turn(cursor, n, m)], max_in_flight);
    let m = if other >= cursor {
        other - cursor
    } else {
        other - cursor + n
    };
    lemma_round(cursor, n, k);
    lemma_round(cursor, n, m);
    assert(turn(cursor, n, m) == other);
    assert(m < k);
}

/// The chosen stream has a window ready and fewer windows worked on than allowed.
pub proof fn chosen_streams_may_go_on(
    jobs: Seq<ActiveLiveJob>,
    max_in_flight: usize,
    cursor: int,
    chosen: int,
)
    requires
        0 <= cursor,
        selects(jobs, max_in_flight, cursor, chosen),
    ensures
        jobs[chosen].in_flight < max_in_flight,
        jobs[chosen].plan() is Some,
{
}

proof fn lemma_round(cursor: int, n: int, k: int)
    requires
        0 <= cursor < n,
        0 <= k < n,
    ensures
        turn(cursor, n, k) == (if cursor + k < n {
            cursor + k
        } else {
            cursor + k - n
        }),
{
    if cursor + k < n {
        vstd::arithmetic::div_mod::lemma_small_mod((cursor + k) as nat, n as nat);
    } else {
        vstd::arithmetic::div_mod::lemma_mod_add_multiples_vanish(cursor + k - n, n);
        vstd::arithmetic::div_mod::lemma_small_mod((cursor + k - n) as nat, n as nat);
    }
}

/// The streams that leave are those whose audio has all come and been worked on, and the others stay,
/// both in order.
pub proof fn finished_streams_leave(jobs: Seq<ActiveLiveJob>)
    ensures
        with_completion(jobs, true) == jobs.filter(
            |job: ActiveLiveJob|
                job.producer_closed && job.audio_buffer@.len() == 0 && job.in_flight == 0,
        ),
        with_completion(jobs, false) == jobs.filter(
            |job: ActiveLiveJob|
                !(job.producer_closed && job.audio_buffer@.len() == 0 && job.in_flight == 0),
        ),
        with_completion(jobs, true).len() + with_completion(jobs, false).len() == jobs.len(),
    decreases jobs.len(),
{
    reveal(Seq::filter);
    if jobs.len() > 0 {
        finished_streams_leave(jobs.drop_last());
    }
}

/// What stays the same in a stream while it is worked on: who it is for and how it is transcribed.
pub proof fn streams_keep_their_settings(a: ActiveLiveJob, b: ActiveLiveJob)
    ensures
        a.same_job(&b) ==> a.job_id == b.job_id && a.vad_config == b.vad_config && a.options
            == b.options,
        a.same_audio(&b) ==> a.audio_buffer@ == b.audio_buffer@ && a.absolute_offset_samples
            == b.absolute_offset_samples && a.probs@ == b.probs@,
        a.same_work(&b) ==> a.stats == b.stats && a.in_flight == b.in_flight && a.next_window_index
            == b.next_window_index && a.results == b.results,
{
}

/// Speech is looked for exactly where detection is set up, in all that is buffered.
pub proof fn streams_detect_as_set_up(job: ActiveLiveJob)
    ensures
        job.segments() is Some <==> job.vad_config is Some,
        job.vad_config matches Some(config) ==> job.segments() == Some(
            speech_segments(job.audio_buffer@.len() as int, job.probs@, config),
        ),
        job.plan() == planned(
            job.audio_buffer@.len() as int,
            job.segments(),
            job.producer_closed,
        ),
        job.spec_complete() <==> job.producer_closed && job.audio_buffer@.len() == 0 && job.in_flight
            == 0,
        job.balanced() <==> job.stats.windows_dispatched == job.stats.windows_completed
            + job.in_flight,
{
}

/// A stream is transcribed as its header asks.
pub proof fn options_say_what_headers_say(options: TranscribeOptions, header: RequestHeader)
    requires
        options_follow(options, header),
    ensures
        options.lang == header.lang,
        options.task == header.task,
        options.notimestamps == header.notimestamps,
        options.max_new_tokens == header.max_new_tokens,
        options.beam_size == header.beam_size,
{
}

/// How many streams are active and how many windows are under way at most stays the same.
pub proof fn limits_stay(a: LiveJobs, b: LiveJobs)
    requires
        a.same_limits(&b),
    ensures
        a.max_active_jobs == b.max_active_jobs,
        a.max_in_flight == b.max_in_flight,
{
}

/// Handing a window out changes neither the workers nor what has been gathered.
pub proof fn results_stay(a: LiveTranscription, b: LiveTranscription)
    requires
        a.same_results(&b),
    ensures
        a.worker_count == b.worker_count,
        a.producer_closed == b.producer_closed,
        a.collector == b.collector,
{
}

/// What each event makes of a live transcription: windows wait in the order in which they came, the
/// first is handed out first, and it counts as under way until its result is there. That no more
/// windows come is remembered.
pub proof fn live_windows_are_counted(before: LiveTranscription, event: LiveEvent, after: LiveTranscription)
    requires
        live_step(before, event, after),
    ensures
        after.producer_closed <==> before.producer_closed || event is Closed,
        match event {
            LiveEvent::Window { window } => after.pending_windows@ == before.pending_windows@ + seq![
                window,
            ],
            LiveEvent::Assigned { window } => before.pending_windows@ == seq![window]
                + after.pending_windows@,
            _ => after.pending_windows@ == before.pending_windows@,
        },
        after.in_flight == before.in_flight + (if event is Assigned {
            1int
        } else {
            0
        }) - (if event is Result {
            1int
        } else {
            0
        }),
        after.stats.windows_dispatched == before.stats.windows_dispatched + (if event is Assigned {
            1int
        } else {
            0
        }),
        after.stats.windows_completed == before.stats.windows_completed + (if event is Result {
            1int
        } else {
            0
        }),
        event !is Result ==> after.collector == before.collector,
{
    if let LiveEvent::Window { window } = event {
        assert(before.pending_windows@.push(window) =~= before.pending_windows@ + seq![window]);
    }
    if let LiveEvent::Assigned { window } = event {
        assert(seq![window] + before.pending_windows@.drop_first() =~= before.pending_windows@);
    }
}

} // verus!
