//! Work on several windows at once: handing windows to workers and putting results in order.
use std::collections::{BTreeMap, VecDeque};
use vstd::prelude::*;

use crate::text::{decimal, trimmed, with_number, with_text};
use crate::vad::VadSegment;
use crate::windows::AudioWindow;
use crate::whisper::{
    join_windows, joined_segments, joined_texts, segment_views, Transcription, WindowTranscription,
};
use crate::N_SAMPLES;

verus! {

broadcast use vstd::std_specs::btree::group_btree_axioms;

/// Workers, one per NPU core.
pub const NPU_WORKERS: usize = 3;

/// The model files that workers load.
#[derive(Clone, Debug)]
pub struct ParallelModelPaths {
    pub mel: String,
    pub encoder: String,
    pub enc_kv: String,
    pub decoder: String,
}

impl ParallelModelPaths {
    /// The paths of the four models.
    pub fn new(mel: String, encoder: String, enc_kv: String, decoder: String) -> (paths:
        ParallelModelPaths)
        ensures
            paths.mel == mel,
            paths.encoder == encoder,
            paths.enc_kv == enc_kv,
            paths.decoder == decoder,
    {
        ParallelModelPaths { mel, encoder, enc_kv, decoder }
    }
}

/// A window of a live stream.
#[derive(Debug)]
pub struct LiveWindow {
    pub index: usize,
    pub start_sample: usize,
    pub end_sample: usize,
    pub samples: Vec<i16>,
}

/// How many windows have been handed out and have come back.
#[derive(Clone, Copy, Debug, PartialEq, Eq, Structural)]
pub struct LiveTranscriptionStats {
    pub windows_dispatched: usize,
    pub windows_completed: usize,
}

impl Default for LiveTranscriptionStats {
    fn default() -> (stats: LiveTranscriptionStats)
        ensures
            stats.windows_dispatched == 0,
            stats.windows_completed == 0,
    {
        LiveTranscriptionStats { windows_dispatched: 0, windows_completed: 0 }
    }
}

////////////////////////////////////////////////////////////////////////////////
// Results in order
////////////////////////////////////////////////////////////////////////////////

/// Results that come in any order and go out by their index.
pub struct OrderedResults<R> {
    pub pending: BTreeMap<usize, R>,
    pub next: usize,
}

/// True of what goes out when `held` is at hand and `next` is the next index: the results from
/// there on, up to the first that is missing. They are no longer held.
pub open spec fn releases<R>(
    held: Map<usize, R>,
    next: int,
    out: Seq<R>,
    after: Map<usize, R>,
    after_next: int,
) -> bool {
    &&& after_next == next + out.len()
    &&& forall|i: int|
        next <= i < after_next ==> #[trigger] held.contains_key(i as usize) && out[i - next]
            == held[i as usize]
    &&& !held.contains_key(after_next as usize)
    &&& after == held.remove_keys(Set::new(|k: usize| next <= k < after_next))
}

impl<R> OrderedResults<R> {
    /// No result has the greatest index, so that there is always a next one.
    pub open spec fn wf(&self) -> bool {
        &&& forall|k: usize| #[trigger] self.pending@.contains_key(k) ==> k < usize::MAX
        &&& self.pending@.dom().finite()
    }

    /// Nothing has come in.
    pub fn new() -> (ordered: OrderedResults<R>)
        ensures
            ordered.wf(),
            ordered.pending@ == Map::<usize, R>::empty(),
            ordered.next == 0,
    {
        OrderedResults { pending: BTreeMap::new(), next: 0 }
    }

    /// Takes a result, and gives out those that are now in turn.
    pub fn accept(&mut self, index: usize, result: R) -> (out: Vec<R>)
        requires
            old(self).wf(),
            index < usize::MAX,
        ensures
            final(self).wf(),
            releases(
                old(self).pending@.insert(index, result),
                old(self).next as int,
                out@,
                final(self).pending@,
                final(self).next as int,
            ),
    {
        let ghost held = self.pending@.insert(index, result);
        let ghost first = self.next as int;
        let _ = self.pending.insert(index, result);
        let mut out: Vec<R> = Vec::new();
        assert(self.pending@ =~= held.remove_keys(Set::new(|k: usize| first <= k < first)));
        loop
            invariant
                self.wf(),
                forall|k: usize| #[trigger] held.contains_key(k) ==> k < usize::MAX,
                self.next == first + out@.len(),
                forall|i: int|
                    first <= i < self.next ==> #[trigger] held.contains_key(i as usize) && out@[i
                        - first] == held[i as usize],
                self.pending@ == held.remove_keys(
                    Set::new(|k: usize| first <= k < self.next as int),
                ),
            ensures
                !held.contains_key(self.next),
            decreases self.pending@.dom().len(),
        {
            let ghost before = self.pending@;
            let next: usize = self.next;
            match self.pending.remove(&next) {
                Some(result) => {
                    assert(before.contains_key(next));
                    assert(held.contains_key(next));
                    assert(result == held[next]);
                    let ghost given = out@;
                    out.push(result);
                    self.next = next + 1;
                    assert forall|i: int| first <= i < self.next implies #[trigger] held.contains_key(
                        i as usize,
                    ) && out@[i - first] == held[i as usize] by {
                        if i < next {
                            assert(out@[i - first] == given[i - first]);
                        }
                    }
                    assert(self.pending@ =~= held.remove_keys(
                        Set::new(|k: usize| first <= k < self.next as int),
                    ));
                },
                None => {
                    break;
                },
            }
        }
        out
    }
}

/// True where `arrived` has come in and `delivered` has gone out, and the rest is held: what went
/// out are the results from index zero on, in order, up to the first that is missing.
pub open spec fn in_turn<R>(
    arrived: Map<usize, R>,
    delivered: Seq<R>,
    held: Map<usize, R>,
    next: int,
) -> bool {
    &&& next == delivered.len()
    &&& next <= usize::MAX
    &&& forall|i: int|
        0 <= i < next ==> #[trigger] arrived.contains_key(i as usize) && delivered[i]
            == arrived[i as usize]
    &&& !arrived.contains_key(next as usize)
    &&& held == arrived.remove_keys(Set::new(|k: usize| k < next))
}

/// Results go out in order, each once: a result with a new index keeps the results in turn.
pub proof fn results_stay_in_turn<R>(
    arrived: Map<usize, R>,
    delivered: Seq<R>,
    held: Map<usize, R>,
    next: int,
    index: usize,
    result: R,
    out: Seq<R>,
    after: Map<usize, R>,
    after_next: int,
)
    requires
        in_turn(arrived, delivered, held, next),
        !arrived.contains_key(index),
        releases(held.insert(index, result), next, out, after, after_next),
        after_next <= usize::MAX,
    ensures
        in_turn(arrived.insert(index, result), delivered + out, after, after_next),
{
    let now = arrived.insert(index, result);
    let at_hand = held.insert(index, result);
    let all = delivered + out;
    assert forall|i: int| 0 <= i < after_next implies #[trigger] now.contains_key(i as usize)
        && all[i] == now[i as usize] by {
        if i < next {
            assert(arrived.contains_key(i as usize));
        } else {
            assert(at_hand.contains_key(i as usize));
        }
    }
    assert(!at_hand.contains_key(after_next as usize));
    if index < next {
        let i = index as int;
        assert(arrived.contains_key(i as usize));
    }
    assert(after =~= now.remove_keys(Set::new(|k: usize| k < after_next)));
}

/// When the results from zero to `total` have come in and no others, all of them have gone out, in
/// order.
pub proof fn all_results_go_out<R>(
    arrived: Map<usize, R>,
    delivered: Seq<R>,
    held: Map<usize, R>,
    next: int,
    total: int,
)
    requires
        in_turn(arrived, delivered, held, next),
        0 <= total <= usize::MAX,
        forall|k: usize| #[trigger] arrived.contains_key(k) <==> k < total,
    ensures
        next == total,
        delivered.len() == total,
        forall|i: int| 0 <= i < total ==> delivered[i] == #[trigger] arrived[i as usize],
{
    if next < total {
        assert(arrived.contains_key(next as usize));
    }
    if total < next {
        assert(arrived.contains_key(total as usize));
    }
    assert forall|i: int| 0 <= i < total implies delivered[i] == #[trigger] arrived[i as usize] by {
        assert(arrived.contains_key(i as usize));
    }
}

/// Why windows could not all be transcribed.
#[derive(Clone, Copy, Debug, PartialEq, Eq, Structural)]
pub enum ParallelError {
    /// No worker is left.
    WorkersStopped,
    /// A worker has a number that does not exist.
    InvalidWorker { worker_id: usize },
    /// A worker is gone before it took a window.
    WorkerStopped { worker_id: usize },
    /// The results ended before all windows were done.
    ResultsClosed,
}

impl ParallelError {
    /// What the error says.
    pub open spec fn spec_message(self) -> Seq<char> {
        match self {
            ParallelError::WorkersStopped => "all NPU workers stopped"@,
            ParallelError::InvalidWorker { worker_id } => "invalid worker id "@ + decimal(
                worker_id as nat,
            ),
            ParallelError::WorkerStopped { worker_id } => "worker "@ + decimal(worker_id as nat)
                + " stopped before accepting a job"@,
            ParallelError::ResultsClosed => "result channel closed before all windows completed"@,
        }
    }

    /// What the error says.
    pub fn message(&self) -> (text: String)
        ensures
            text@ == self.spec_message(),
    {
        match self {
            ParallelError::WorkersStopped => "all NPU workers stopped".to_string(),
            ParallelError::InvalidWorker { worker_id } => with_number(
                "invalid worker id ",
                *worker_id as u64,
            ),
            ParallelError::WorkerStopped { worker_id } => with_text(
                with_number("worker ", *worker_id as u64).as_str(),
                " stopped before accepting a job",
            ),
            ParallelError::ResultsClosed =>
                "result channel closed before all windows completed".to_string(),
        }
    }
}

/// The transcriptions of all windows of some audio, gathered as they come in.
pub struct OrderedCollector {
    pub ordered: OrderedResults<WindowTranscription>,
    pub total_windows: usize,
    pub done: Vec<WindowTranscription>,
}

impl OrderedCollector {
    /// Waits for `total_windows` windows.
    pub fn new(total_windows: usize) -> (collector: OrderedCollector)
        ensures
            collector.ordered.wf(),
            collector.ordered.pending@ == Map::<usize, WindowTranscription>::empty(),
            collector.ordered.next == 0,
            collector.total_windows == total_windows,
            collector.done@ == Seq::<WindowTranscription>::empty(),
    {
        OrderedCollector { ordered: OrderedResults::new(), total_windows, done: Vec::new() }
    }

    /// Whether another window is waited for.
    pub fn wants_result(&self) -> (wants: bool)
        ensures
            wants == (self.ordered.next < self.total_windows),
    {
        self.ordered.next < self.total_windows
    }

    /// Takes the transcription of a window, and gathers those that are now in turn. Tells how many
    /// these are: they are the last ones gathered.
    pub fn accept(&mut self, result: WindowTranscription) -> (count: usize)
        requires
            old(self).ordered.wf(),
            result.window_index < usize::MAX,
        ensures
            final(self).ordered.wf(),
            final(self).total_windows == old(self).total_windows,
            count <= final(self).done@.len(),
            final(self).done@.take(final(self).done@.len() - count) == old(self).done@,
            releases(
                old(self).ordered.pending@.insert(result.window_index, result),
                old(self).ordered.next as int,
                final(self).done@.skip(final(self).done@.len() - count),
                final(self).ordered.pending@,
                final(self).ordered.next as int,
            ),
    {
        let index: usize = result.window_index;
        let mut released = self.ordered.accept(index, result);
        let count: usize = released.len();
        let ghost out = released@;
        let ghost before = self.done@;
        self.done.append(&mut released);
        assert(self.done@.take(self.done@.len() - count) =~= before);
        assert(self.done@.skip(self.done@.len() - count) =~= out);
        count
    }

    /// The whole transcription from what was gathered.
    pub fn finish(self, vad_segments: Vec<VadSegment>) -> (out: Transcription)
        ensures
            out.text@ == trimmed(joined_texts(self.done@)),
            segment_views(out.segments@) == joined_segments(self.done@),
            out.vad_segments@ == vad_segments@,
    {
        join_windows(self.done, vad_segments)
    }
}

/// Gathers `total_windows` windows from results in the order in which they came in, and puts them
/// together in the order of the audio. It is an error if the result of a window is missing; what
/// comes behind the last one that is needed is not looked at.
pub fn collect_ordered(
    arrivals: Vec<WindowTranscription>,
    total_windows: usize,
    vad_segments: Vec<VadSegment>,
) -> (out: Result<Transcription, ParallelError>)
    requires
        forall|i: int|
            0 <= i < arrivals@.len() ==> (#[trigger] arrivals@[i]).window_index < usize::MAX,
    ensures
        out is Err <==> missing(arrivals@, total_windows as int),
        out matches Err(e) ==> e == ParallelError::ResultsClosed,
        out matches Ok(t) ==> ({
            let done = gathering(arrivals@, total_windows as int).done;
            &&& t.text@ == trimmed(joined_texts(done))
            &&& segment_views(t.segments@) == joined_segments(done)
            &&& t.vad_segments@ == vad_segments@
        }),
        complete(arrivals@, total_windows as int) ==> (out matches Ok(t) && ({
            let sorted = by_index(arrivals@, total_windows as int);
            &&& t.text@ == trimmed(joined_texts(sorted))
            &&& segment_views(t.segments@) == joined_segments(sorted)
            &&& t.vad_segments@ == vad_segments@
        })),
{
    let ghost all = arrivals@;
    let ghost total = total_windows as int;
    let mut collector = OrderedCollector::new(total_windows);
    let ghost mut arrived: Map<usize, WindowTranscription> = Map::empty();
    proof {
        assert(all.take(0) =~= Seq::<WindowTranscription>::empty());
        assert(collector.done@ + Seq::<WindowTranscription>::empty() =~= collector.done@);
        assert(collector.ordered.pending@ =~= arrived.remove_keys(
            Set::new(|k: usize| k < 0),
        ));
    }
    let mut stopped: bool = !collector.wants_result();
    for result in it: arrivals
        invariant
            it.seq() == all,
            total == total_windows,
            collector.total_windows == total_windows,
            collector.ordered.wf(),
            stopped == (collector.ordered.next >= total_windows),
            forall|i: int|
                0 <= i < all.len() ==> (#[trigger] all[i]).window_index < usize::MAX,
            collector.ordered.next == collector.done@.len(),
            distinct(all) ==> in_turn(
                arrived,
                collector.done@,
                collector.ordered.pending@,
                collector.ordered.next as int,
            ),
            from_arrivals(all, it.index(), arrived),
            !stopped ==> gathered(all, it.index(), arrived),
            forall|i: int|
                0 <= i < collector.ordered.next ==> #[trigger] arrived.contains_key(i as usize),
            forall|k: usize| #[trigger]
                collector.ordered.pending@.contains_key(k) ==> arrived.contains_key(k),
            forall|k: usize| #[trigger]
                arrived.contains_key(k) && k >= collector.ordered.next
                    ==> collector.ordered.pending@.contains_key(k),
            !collector.ordered.pending@.contains_key(collector.ordered.next),
            gathering(all.take(it.index()), total).done == collector.done@,
            gathering(all.take(it.index()), total).held == collector.ordered.pending@,
    {
        let ghost i = it.index();
        assert(all.take(i + 1).drop_last() =~= all.take(i));
        if !stopped {
            let ghost before = collector.ordered.pending@;
            let ghost next = collector.ordered.next as int;
            let ghost done = collector.done@;
            let index: usize = result.window_index;
            let count: usize = collector.accept(result);
            proof {
                assert(result == all[i]);
                let out = collector.done@.skip(collector.done@.len() - count);
                assert(collector.done@ =~= done + out);
                if distinct(all) {
                    assert(!arrived.contains_key(index));
                    results_stay_in_turn(
                        arrived,
                        done,
                        before,
                        next,
                        index,
                        result,
                        out,
                        collector.ordered.pending@,
                        collector.ordered.next as int,
                    );
                }
                let held = before.insert(index, result);
                let now = arrived.insert(index, result);
                assert forall|k: usize| next <= k < next + out.len() implies #[trigger] held.contains_key(
                    k,
                ) && out[k - next] == held[k] by {
                    let j = k as int;
                    assert(held.contains_key(j as usize));
                }
                lemma_in_a_row(held, next as usize, out);
                assert(!held.contains_key(collector.ordered.next as int as usize));
                assert forall|k: usize| #[trigger]
                    now.contains_key(k) && k >= collector.ordered.next implies collector.ordered.pending@.contains_key(
                    k,
                ) by {
                    assert(held.contains_key(k));
                }
                assert forall|j: int| 0 <= j < collector.ordered.next implies #[trigger] now.contains_key(
                    j as usize,
                ) by {
                    if j >= next {
                        assert(held.contains_key(j as usize));
                    } else {
                        assert(arrived.contains_key(j as usize));
                    }
                }
                arrived = now;
            }
            stopped = !collector.wants_result();
        }
    }
    assert(all.take(all.len() as int) =~= all);
    if !stopped {
        proof {
            let k = collector.ordered.next as int;
            if has_index(all, k) {
                let i = choose|i: int| 0 <= i < all.len() && (#[trigger] all[i]).window_index == k;
                assert(arrived.contains_key(all[i].window_index));
            }
            assert(missing(all, total));
            if complete(all, total) {
                lemma_all_arrived(all, total, arrived);
                all_results_go_out(
                    arrived,
                    collector.done@,
                    collector.ordered.pending@,
                    collector.ordered.next as int,
                    total,
                );
            }
        }
        return Err(ParallelError::ResultsClosed);
    }
    proof {
        if missing(all, total) {
            let k = choose|k: int| 0 <= k < total && !(#[trigger] has_index(all, k));
            assert(arrived.contains_key(k as usize));
        }
        if complete(all, total) {
            lemma_in_turn_sorted(all, total, arrived, collector.done@, collector.ordered.pending@, collector.ordered.next as int);
        }
    }
    Ok(collector.finish(vad_segments))
}

/// How many results are held from index `next` on, without a gap.
pub open spec fn in_a_row<R>(held: Map<usize, R>, next: int) -> nat
    decreases usize::MAX - next,
{
    if 0 <= next < usize::MAX && held.contains_key(next as usize) {
        1 + in_a_row(held, next + 1)
    } else {
        0
    }
}

/// Results on their way into order: those that wait for an earlier one, and those that are done.
pub struct Gathering {
    pub held: Map<usize, WindowTranscription>,
    pub done: Seq<WindowTranscription>,
}

/// What has been gathered of results in the order in which they came in. A result that comes while
/// one for the same window still waits takes its place; once `total` are done nothing more is taken.
pub open spec fn gathering(arrivals: Seq<WindowTranscription>, total: int) -> Gathering
    decreases arrivals.len(),
{
    if arrivals.len() == 0 {
        Gathering { held: Map::empty(), done: Seq::empty() }
    } else {
        let before = gathering(arrivals.drop_last(), total);
        if before.done.len() >= total {
            before
        } else {
            let held = before.held.insert(arrivals.last().window_index, arrivals.last());
            let next = before.done.len() as int;
            let n = in_a_row(held, next);
            Gathering {
                held: held.remove_keys(Set::new(|k: usize| next <= k < next + n)),
                done: before.done + Seq::new(n, |i: int| held[(next + i) as usize]),
            }
        }
    }
}

proof fn lemma_in_a_row<R>(held: Map<usize, R>, next: usize, out: Seq<R>)
    requires
        next + out.len() <= usize::MAX,
        forall|k: usize|
            next <= k < next + out.len() ==> #[trigger] held.contains_key(k) && out[k - next]
                == held[k],
        !held.contains_key((next + out.len()) as usize),
    ensures
        in_a_row(held, next as int) == out.len(),
        out == Seq::new(out.len(), |i: int| held[(next + i) as usize]),
    decreases out.len(),
{
    if out.len() > 0 {
        assert(held.contains_key(next));
        let less = out.drop_first();
        let second: usize = (next + 1) as usize;
        assert forall|k: usize| second <= k < second + less.len() implies #[trigger] held.contains_key(
            k,
        ) && less[k - second] == held[k] by {
            assert(less[k - second] == out[k - next]);
        }
        lemma_in_a_row(held, second, less);
        assert forall|i: int| 0 <= i < out.len() implies out[i] == held[(next + i) as usize] by {
            let k: usize = (next + i) as usize;
            assert(held.contains_key(k));
            assert(out[k - next] == held[k]);
        }
    }
    assert(out =~= Seq::new(out.len(), |i: int| held[(next + i) as usize]));
}

/// Results come out in the order of their windows, without a gap: the one at place `k` is for window
/// `k`, and is one of those that came in.
pub proof fn gathered_results_are_in_order(arrivals: Seq<WindowTranscription>, total: int, k: int)
    requires
        0 <= k < gathering(arrivals, total).done.len(),
    ensures
        gathering(arrivals, total).done[k].window_index == k,
        arrivals.contains(gathering(arrivals, total).done[k]),
{
    lemma_gathering(arrivals, total);
}

proof fn lemma_gathering(arrivals: Seq<WindowTranscription>, total: int)
    ensures
        ({
            let g = gathering(arrivals, total);
            &&& forall|i: usize| #[trigger]
                g.held.contains_key(i) ==> g.held[i].window_index == i && arrivals.contains(g.held[i])
            &&& forall|k: int|
                0 <= k < g.done.len() ==> (#[trigger] g.done[k]).window_index == k
                    && arrivals.contains(g.done[k])
        }),
    decreases arrivals.len(),
{
    if arrivals.len() > 0 {
        let less = arrivals.drop_last();
        let before = gathering(less, total);
        let g = gathering(arrivals, total);
        let last = arrivals.last();
        lemma_gathering(less, total);
        assert forall|w: WindowTranscription| less.contains(w) implies #[trigger] arrivals.contains(w) by {
            let i = choose|i: int| 0 <= i < less.len() && less[i] == w;
            assert(arrivals[i] == w);
        }
        assert(arrivals.contains(last)) by {
            assert(arrivals[arrivals.len() - 1] == last);
        }
        if before.done.len() < total {
            let held = before.held.insert(last.window_index, last);
            let next = before.done.len() as int;
            let n = in_a_row(held, next);
            assert forall|i: usize| #[trigger] held.contains_key(i) implies held[i].window_index == i
                && arrivals.contains(held[i]) by {
                if i != last.window_index {
                    assert(before.held.contains_key(i));
                    assert(less.contains(before.held[i]));
                }
            }
            assert forall|k: int| 0 <= k < g.done.len() implies (#[trigger] g.done[k]).window_index == k
                && arrivals.contains(g.done[k]) by {
                if k < next {
                    assert(g.done[k] == before.done[k]);
                    assert(less.contains(before.done[k]));
                } else {
                    lemma_row_is_held(held, next, k - next);
                    assert(g.done[k] == held[k as usize]);
                }
            }
            assert forall|i: usize| #[trigger] g.held.contains_key(i) implies g.held[i].window_index
                == i && arrivals.contains(g.held[i]) by {
                assert(held.contains_key(i));
            }
        } else {
            assert forall|k: int| 0 <= k < g.done.len() implies (#[trigger] g.done[k]).window_index == k
                && arrivals.contains(g.done[k]) by {
                assert(less.contains(before.done[k]));
            }
            assert forall|i: usize| #[trigger] g.held.contains_key(i) implies g.held[i].window_index
                == i && arrivals.contains(g.held[i]) by {
                assert(less.contains(before.held[i]));
            }
        }
    }
}

proof fn lemma_row_is_held<R>(held: Map<usize, R>, next: int, i: int)
    requires
        0 <= next,
        0 <= i < in_a_row(held, next),
    ensures
        next + i < usize::MAX,
        held.contains_key((next + i) as usize),
    decreases i,
{
    if i > 0 {
        lemma_row_is_held(held, next + 1, i - 1);
    }
}

/// True where no two results are for the same window.
pub open spec fn distinct(arrivals: Seq<WindowTranscription>) -> bool {
    forall|i: int, j: int|
        0 <= i < j < arrivals.len() ==> (#[trigger] arrivals[i]).window_index != (
        #[trigger] arrivals[j]).window_index
}

/// True where there is exactly one result for each of `total` windows.
pub open spec fn complete(arrivals: Seq<WindowTranscription>, total: int) -> bool {
    &&& distinct(arrivals)
    &&& forall|i: int| 0 <= i < arrivals.len() ==> (#[trigger] arrivals[i]).window_index < total
    &&& forall|k: int| 0 <= k < total ==> #[trigger] has_index(arrivals, k)
}

/// True where there is a result for window `k`.
pub open spec fn has_index(arrivals: Seq<WindowTranscription>, k: int) -> bool {
    exists|i: int| 0 <= i < arrivals.len() && (#[trigger] arrivals[i]).window_index == k
}

/// True where there is no result for some of `total` windows.
pub open spec fn missing(arrivals: Seq<WindowTranscription>, total: int) -> bool {
    exists|k: int| 0 <= k < total && !(#[trigger] has_index(arrivals, k))
}

/// The results of `total` windows in the order of the audio.
pub open spec fn by_index(arrivals: Seq<WindowTranscription>, total: int) -> Seq<WindowTranscription> {
    Seq::new(
        total as nat,
        |k: int|
            arrivals[choose|i: int| 0 <= i < arrivals.len() && (#[trigger] arrivals[i]).window_index == k],
    )
}

/// What has arrived comes from the first `n` results.
spec fn from_arrivals(
    all: Seq<WindowTranscription>,
    n: int,
    arrived: Map<usize, WindowTranscription>,
) -> bool {
    forall|k: usize| #[trigger]
        arrived.contains_key(k) ==> exists|i: int|
            0 <= i < n && (#[trigger] all[i]).window_index == k && arrived[k] == all[i]
}

/// The first `n` results have arrived.
spec fn gathered(
    all: Seq<WindowTranscription>,
    n: int,
    arrived: Map<usize, WindowTranscription>,
) -> bool {
    forall|i: int| 0 <= i < n ==> arrived.contains_key((#[trigger] all[i]).window_index)
}

proof fn lemma_all_arrived(
    all: Seq<WindowTranscription>,
    total: int,
    arrived: Map<usize, WindowTranscription>,
)
    requires
        complete(all, total),
        0 <= total <= usize::MAX,
        from_arrivals(all, all.len() as int, arrived),
        gathered(all, all.len() as int, arrived),
    ensures
        forall|k: usize| #[trigger] arrived.contains_key(k) <==> k < total,
{
    assert forall|k: usize| #[trigger] arrived.contains_key(k) <==> k < total by {
        if k < total {
            assert(has_index(all, k as int));
        }
    }
}

proof fn lemma_in_turn_sorted(
    all: Seq<WindowTranscription>,
    total: int,
    arrived: Map<usize, WindowTranscription>,
    done: Seq<WindowTranscription>,
    held: Map<usize, WindowTranscription>,
    next: int,
)
    requires
        complete(all, total),
        0 <= total <= usize::MAX,
        in_turn(arrived, done, held, next),
        from_arrivals(all, all.len() as int, arrived),
        next >= total,
    ensures
        done == by_index(all, total),
{
    if next > total {
        assert(arrived.contains_key(total as usize));
    }
    let sorted = by_index(all, total);
    assert forall|k: int| 0 <= k < total implies done[k] == sorted[k] by {
        assert(arrived.contains_key(k as usize));
        let i = choose|i: int|
            0 <= i < all.len() && (#[trigger] all[i]).window_index == k as usize
                && arrived[k as usize] == all[i];
        assert(has_index(all, k));
        let j = choose|i: int| 0 <= i < all.len() && (#[trigger] all[i]).window_index == k;
        assert(all[i].window_index == all[j].window_index);
        assert(i == j) by {
            if i < j {
                assert(all[i].window_index != all[j].window_index);
            } else if j < i {
                assert(all[j].window_index != all[i].window_index);
            }
        }
    }
    assert(done =~= sorted);
}

////////////////////////////////////////////////////////////////////////////////
// Live windows
////////////////////////////////////////////////////////////////////////////////

/// The window of a live stream with index `index`: all windows before it are thirty seconds long.
pub fn live_window(index: usize, samples: Vec<i16>) -> (window: LiveWindow)
    requires
        index * N_SAMPLES + samples@.len() <= usize::MAX,
    ensures
        window.index == index,
        window.start_sample == index * N_SAMPLES,
        window.end_sample == index * N_SAMPLES + samples@.len(),
        window.samples == samples,
{
    let start_sample: usize = index * N_SAMPLES;
    let end_sample: usize = start_sample + samples.len();
    LiveWindow { index, start_sample, end_sample, samples }
}

/// The transcription of a live stream: windows that wait, workers that are ready, and results that
/// are put in order.
pub struct LiveTranscription {
    pub worker_count: usize,
    pub producer_closed: bool,
    pub pending_windows: VecDeque<LiveWindow>,
    pub ready_workers: VecDeque<usize>,
    pub in_flight: usize,
    pub collector: OrderedCollector,
    pub stats: LiveTranscriptionStats,
}

impl LiveTranscription {
    /// Every window that was handed out is being worked on or has come back.
    pub open spec fn wf(&self) -> bool {
        &&& self.stats.windows_dispatched == self.in_flight + self.stats.windows_completed
        &&& self.collector.ordered.wf()
    }

    /// True where nothing has come in.
    pub open spec fn is_new(&self) -> bool {
        &&& self.wf()
        &&& !self.producer_closed
        &&& self.pending_windows@.len() == 0
        &&& self.in_flight == 0
        &&& self.stats.windows_completed == 0
        &&& self.collector.done@.len() == 0
        &&& self.collector.ordered.next == 0
        &&& self.collector.ordered.pending@ == Map::<usize, WindowTranscription>::empty()
    }

    /// What handing out a window does not change.
    pub open spec fn same_results(&self, other: &LiveTranscription) -> bool {
        &&& self.worker_count == other.worker_count
        &&& self.producer_closed == other.producer_closed
        &&& self.collector == other.collector
    }

    /// Nothing has come in.
    pub fn new(worker_count: usize) -> (live: LiveTranscription)
        ensures
            live.wf(),
            live.worker_count == worker_count,
            !live.producer_closed,
            live.pending_windows@ == Seq::<LiveWindow>::empty(),
            live.ready_workers@ == Seq::<usize>::empty(),
            live.in_flight == 0,
            live.stats.windows_dispatched == 0,
            live.stats.windows_completed == 0,
            live.collector.done@ == Seq::<WindowTranscription>::empty(),
            live.collector.ordered.next == 0,
            live.collector.ordered.pending@ == Map::<usize, WindowTranscription>::empty(),
            live.is_new(),
    {
        LiveTranscription {
            worker_count,
            producer_closed: false,
            pending_windows: VecDeque::new(),
            ready_workers: VecDeque::new(),
            in_flight: 0,
            collector: OrderedCollector::new(0),
            stats: LiveTranscriptionStats::default(),
        }
    }

    /// Hands the first window that waits to the first worker that is ready, if there are both. A
    /// worker with a number that does not exist is an error.
    pub fn next_assignment(&mut self) -> (out: Result<Option<(usize, LiveWindow)>, ParallelError>)
        requires
            old(self).wf(),
            old(self).stats.windows_dispatched < usize::MAX,
        ensures
            final(self).same_results(old(self)),
            if old(self).ready_workers@.len() == 0 || old(self).pending_windows@.len() == 0 {
                &&& out == Ok::<Option<(usize, LiveWindow)>, ParallelError>(None)
                &&& final(self).wf()
                &&& final(self).ready_workers@ == old(self).ready_workers@
                &&& final(self).pending_windows@ == old(self).pending_windows@
                &&& final(self).in_flight == old(self).in_flight
                &&& final(self).stats == old(self).stats
            } else {
                let worker = old(self).ready_workers@.first();
                &&& final(self).ready_workers@ == old(self).ready_workers@.drop_first()
                &&& final(self).pending_windows@ == old(self).pending_windows@.drop_first()
                &&& worker >= old(self).worker_count ==> out == Err::<
                    Option<(usize, LiveWindow)>,
                    ParallelError,
                >(ParallelError::InvalidWorker { worker_id: worker }) && final(self).in_flight == old(
                    self).in_flight && final(self).stats == old(self).stats
                &&& worker < old(self).worker_count ==> out == Ok::<
                    Option<(usize, LiveWindow)>,
                    ParallelError,
                >(Some((worker, old(self).pending_windows@.first()))) && final(self).wf()
                    && final(self).in_flight == old(self).in_flight + 1
                    && final(self).stats.windows_dispatched == old(self).stats.windows_dispatched + 1
                    && final(self).stats.windows_completed == old(self).stats.windows_completed
            },
            out matches Ok(Some((_, window))) ==> live_step(
                *old(self),
                LiveEvent::Assigned { window },
                *final(self),
            ),
    {
        if self.ready_workers.len() == 0 || self.pending_windows.len() == 0 {
            return Ok(None);
        }
        match (self.ready_workers.pop_front(), self.pending_windows.pop_front()) {
            (Some(worker_id), Some(window)) => {
                assert(self.ready_workers@ =~= old(self).ready_workers@.drop_first());
                assert(self.pending_windows@ =~= old(self).pending_windows@.drop_first());
                if worker_id >= self.worker_count {
                    return Err(ParallelError::InvalidWorker { worker_id });
                }
                self.in_flight = self.in_flight + 1;
                self.stats.windows_dispatched = self.stats.windows_dispatched + 1;
                Ok(Some((worker_id, window)))
            },
            _ => Ok(None),
        }
    }

    /// True when everything has been done.
    pub open spec fn spec_finished(&self) -> bool {
        self.producer_closed && self.pending_windows@.len() == 0 && self.in_flight == 0
    }

    /// Whether everything has been done.
    pub fn is_finished(&self) -> (finished: bool)
        ensures
            finished == self.spec_finished(),
    {
        self.producer_closed && self.pending_windows.len() == 0 && self.in_flight == 0
    }

    /// Whether workers are to be waited for: as long as there are or may be windows for them.
    pub fn wants_worker(&self) -> (wants: bool)
        ensures
            wants == (!self.producer_closed || self.pending_windows@.len() > 0),
    {
        !self.producer_closed || self.pending_windows.len() > 0
    }

    /// Whether windows are to be waited for.
    pub fn wants_window(&self) -> (wants: bool)
        ensures
            wants == !self.producer_closed,
    {
        !self.producer_closed
    }

    /// Whether results are to be waited for.
    pub fn wants_result(&self) -> (wants: bool)
        ensures
            wants == (self.in_flight > 0),
    {
        self.in_flight > 0
    }

    /// As long as something is left to do, something is waited for.
    pub proof fn never_stuck(&self)
        ensures
            !self.spec_finished() ==> !self.producer_closed || self.pending_windows@.len() > 0
                || self.in_flight > 0,
    {
    }

    /// A worker is ready.
    pub fn worker_ready(&mut self, worker_id: usize)
        requires
            old(self).wf(),
        ensures
            final(self).wf(),
            final(self).same_results(old(self)),
            final(self).ready_workers@ == old(self).ready_workers@.push(worker_id),
            final(self).pending_windows == old(self).pending_windows,
            final(self).in_flight == old(self).in_flight,
            final(self).stats == old(self).stats,
            live_step(*old(self), LiveEvent::Worker, *final(self)),
    {
        self.ready_workers.push_back(worker_id);
    }

    /// A window has come.
    pub fn window_arrived(&mut self, window: LiveWindow)
        requires
            old(self).wf(),
        ensures
            final(self).wf(),
            final(self).same_results(old(self)),
            final(self).pending_windows@ == old(self).pending_windows@.push(window),
            final(self).ready_workers == old(self).ready_workers,
            final(self).in_flight == old(self).in_flight,
            final(self).stats == old(self).stats,
            live_step(*old(self), LiveEvent::Window { window }, *final(self)),
    {
        self.pending_windows.push_back(window);
    }

    /// No more windows will come.
    pub fn windows_closed(&mut self)
        requires
            old(self).wf(),
        ensures
            final(self).wf(),
            final(self).producer_closed,
            final(self).worker_count == old(self).worker_count,
            final(self).collector == old(self).collector,
            final(self).pending_windows == old(self).pending_windows,
            final(self).ready_workers == old(self).ready_workers,
            final(self).in_flight == old(self).in_flight,
            final(self).stats == old(self).stats,
            live_step(*old(self), LiveEvent::Closed, *final(self)),
    {
        self.producer_closed = true;
    }

    /// A result has come. Tells how many windows are in turn with it: they are the last ones
    /// gathered.
    pub fn result_arrived(&mut self, result: WindowTranscription) -> (count: usize)
        requires
            old(self).wf(),
            old(self).in_flight > 0,
            result.window_index < usize::MAX,
        ensures
            final(self).wf(),
            final(self).worker_count == old(self).worker_count,
            final(self).producer_closed == old(self).producer_closed,
            final(self).pending_windows == old(self).pending_windows,
            final(self).ready_workers == old(self).ready_workers,
            final(self).in_flight == old(self).in_flight - 1,
            final(self).stats.windows_dispatched == old(self).stats.windows_dispatched,
            final(self).stats.windows_completed == old(self).stats.windows_completed + 1,
            count <= final(self).collector.done@.len(),
            final(self).collector.done@.take(final(self).collector.done@.len() - count) == old(self).collector.done@,
            releases(
                old(self).collector.ordered.pending@.insert(result.window_index, result),
                old(self).collector.ordered.next as int,
                final(self).collector.done@.skip(final(self).collector.done@.len() - count),
                final(self).collector.ordered.pending@,
                final(self).collector.ordered.next as int,
            ),
            live_step(*old(self), LiveEvent::Result { result }, *final(self)),
    {
        self.in_flight = self.in_flight - 1;
        self.stats.windows_completed = self.stats.windows_completed + 1;
        let count: usize = self.collector.accept(result);
        assert(old(self).collector.done@.is_prefix_of(self.collector.done@)) by {
            assert(self.collector.done@.take(old(self).collector.done@.len() as int)
                == old(self).collector.done@);
        }
        count
    }

    /// The whole transcription and the counts.
    pub fn finish(self) -> (out: (Transcription, LiveTranscriptionStats))
        ensures
            out.0.text@ == trimmed(joined_texts(self.collector.done@)),
            segment_views(out.0.segments@) == joined_segments(self.collector.done@),
            out.0.vad_segments@ == Seq::<VadSegment>::empty(),
            out.1 == self.stats,
    {
        let stats: LiveTranscriptionStats = self.stats;
        (self.collector.finish(Vec::new()), stats)
    }
}

////////////////////////////////////////////////////////////////////////////////
// The course of a live transcription
////////////////////////////////////////////////////////////////////////////////

/// What happens to a live transcription.
pub enum LiveEvent {
    /// A worker became ready.
    Worker,
    /// A window came.
    Window { window: LiveWindow },
    /// No more windows come.
    Closed,
    /// A window was handed to a worker.
    Assigned { window: LiveWindow },
    /// A result came.
    Result { result: WindowTranscription },
}

/// True where a result was taken and those that are then in turn were gathered.
pub open spec fn collects(
    before: OrderedCollector,
    result: WindowTranscription,
    after: OrderedCollector,
) -> bool {
    &&& before.done@.is_prefix_of(after.done@)
    &&& releases(
        before.ordered.pending@.insert(result.window_index, result),
        before.ordered.next as int,
        after.done@.skip(before.done@.len() as int),
        after.ordered.pending@,
        after.ordered.next as int,
    )
}

/// True where an event leads from one state of a live transcription to another.
pub open spec fn live_step(
    before: LiveTranscription,
    event: LiveEvent,
    after: LiveTranscription,
) -> bool {
    let same_work = after.in_flight == before.in_flight && after.stats == before.stats
        && after.collector == before.collector;
    &&& after.wf()
    &&& match event {
        LiveEvent::Worker => same_work && after.pending_windows == before.pending_windows
            && after.producer_closed == before.producer_closed,
        LiveEvent::Window { window } => same_work && after.pending_windows@
            == before.pending_windows@.push(window) && after.producer_closed
            == before.producer_closed,
        LiveEvent::Closed => same_work && after.pending_windows == before.pending_windows
            && after.producer_closed,
        LiveEvent::Assigned { window } => {
            &&& before.pending_windows@.len() > 0
            &&& window == before.pending_windows@.first()
            &&& after.pending_windows@ == before.pending_windows@.drop_first()
            &&& after.producer_closed == before.producer_closed
            &&& after.collector == before.collector
            &&& after.in_flight == before.in_flight + 1
            &&& after.stats.windows_dispatched == before.stats.windows_dispatched + 1
            &&& after.stats.windows_completed == before.stats.windows_completed
        },
        LiveEvent::Result { result } => {
            &&& before.in_flight > 0
            &&& after.pending_windows == before.pending_windows
            &&& after.producer_closed == before.producer_closed
            &&& after.in_flight == before.in_flight - 1
            &&& after.stats.windows_dispatched == before.stats.windows_dispatched
            &&& after.stats.windows_completed == before.stats.windows_completed + 1
            &&& collects(before.collector, result, after.collector)
        },
    }
}

/// True of the states that a live transcription goes through from its beginning on.
pub open spec fn live_course(lives: Seq<LiveTranscription>, events: Seq<LiveEvent>) -> bool {
    &&& lives.len() == events.len() + 1
    &&& lives[0].is_new()
    &&& forall|i: int|
        0 <= i < events.len() ==> #[trigger] live_step(lives[i], events[i], lives[i + 1])
}

/// The windows that came, in order.
pub open spec fn windows_in(events: Seq<LiveEvent>) -> Seq<LiveWindow>
    decreases events.len(),
{
    if events.len() == 0 {
        Seq::empty()
    } else {
        match events.last() {
            LiveEvent::Window { window } => windows_in(events.drop_last()).push(window),
            _ => windows_in(events.drop_last()),
        }
    }
}

/// The windows that were handed to workers, in order.
pub open spec fn windows_out(events: Seq<LiveEvent>) -> Seq<LiveWindow>
    decreases events.len(),
{
    if events.len() == 0 {
        Seq::empty()
    } else {
        match events.last() {
            LiveEvent::Assigned { window } => windows_out(events.drop_last()).push(window),
            _ => windows_out(events.drop_last()),
        }
    }
}

/// The results that came, by the index of their window.
pub open spec fn results_in(events: Seq<LiveEvent>) -> Map<usize, WindowTranscription>
    decreases events.len(),
{
    if events.len() == 0 {
        Map::empty()
    } else {
        match events.last() {
            LiveEvent::Result { result } => results_in(events.drop_last()).insert(
                result.window_index,
                result,
            ),
            _ => results_in(events.drop_last()),
        }
    }
}

/// True where each result is the first for its window.
pub open spec fn answered_once(events: Seq<LiveEvent>) -> bool
    decreases events.len(),
{
    events.len() == 0 || (answered_once(events.drop_last()) && match events.last() {
        LiveEvent::Result { result } => !results_in(events.drop_last()).contains_key(
            result.window_index,
        ),
        _ => true,
    })
}

proof fn lemma_course(lives: Seq<LiveTranscription>, events: Seq<LiveEvent>)
    requires
        live_course(lives, events),
        answered_once(events),
    ensures
        ({
            let live = lives.last();
            &&& live.wf()
            &&& windows_out(events) + live.pending_windows@ == windows_in(events)
            &&& live.stats.windows_dispatched == windows_out(events).len()
            &&& results_in(events).dom().finite()
            &&& live.stats.windows_completed == results_in(events).dom().len()
            &&& in_turn(
                results_in(events),
                live.collector.done@,
                live.collector.ordered.pending@,
                live.collector.ordered.next as int,
            )
            &&& forall|k: usize| #[trigger]
                results_in(events).contains_key(k) ==> results_in(events)[k].window_index == k
        }),
    decreases events.len(),
{
    let live = lives.last();
    if events.len() == 0 {
        assert(windows_out(events) + live.pending_windows@ =~= windows_in(events));
        assert(live.collector.ordered.pending@ =~= results_in(events).remove_keys(
            Set::new(|k: usize| k < 0),
        ));
    } else {
        let fewer = events.drop_last();
        let before = lives.drop_last();
        let n = events.len() - 1;
        assert forall|i: int| 0 <= i < fewer.len() implies #[trigger] live_step(
            before[i],
            fewer[i],
            before[i + 1],
        ) by {
            assert(live_step(lives[i], events[i], lives[i + 1]));
        }
        lemma_course(before, fewer);
        assert(live_step(lives[n], events[n], lives[n + 1]));
        let earlier = lives[n];
        assert(before.last() == earlier);
        match events.last() {
            LiveEvent::Window { window } => {
                assert(windows_out(events) + live.pending_windows@ =~= (windows_out(fewer)
                    + earlier.pending_windows@).push(window));
            },
            LiveEvent::Assigned { window } => {
                assert(windows_out(events) + live.pending_windows@ =~= windows_out(fewer)
                    + earlier.pending_windows@);
            },
            LiveEvent::Result { result } => {
                let done = earlier.collector.done@;
                let out = live.collector.done@.skip(done.len() as int);
                assert(live.collector.done@ =~= done + out);
                results_stay_in_turn(
                    results_in(fewer),
                    earlier.collector.done@,
                    earlier.collector.ordered.pending@,
                    earlier.collector.ordered.next as int,
                    result.window_index,
                    result,
                    out,
                    live.collector.ordered.pending@,
                    live.collector.ordered.next as int,
                );
                assert(results_in(events).dom() =~= results_in(fewer).dom().insert(
                    result.window_index,
                ));
            },
            _ => {},
        }
    }
}

proof fn lemma_indexes_below(n: usize)
    ensures
        Set::new(|k: usize| k < n).finite(),
        Set::new(|k: usize| k < n).len() == n,
    decreases n,
{
    if n == 0 {
        assert(Set::new(|k: usize| k < n) =~= Set::empty());
    } else {
        let m: usize = (n - 1) as usize;
        lemma_indexes_below(m);
        assert(Set::new(|k: usize| k < n) =~= Set::new(|k: usize| k < m).insert(m));
    }
}

/// Live windows give one result each, in the order of their indexes, in whatever order the workers
/// answer. Where the windows that came are numbered from zero on and each result is the first for
/// one of them, then, when everything is done, each window has gone to exactly one worker, in order;
/// as many windows were handed out and completed as came; and what was gathered is the result of
/// each window, in the order of the windows.
pub proof fn live_windows_come_out_in_order(
    lives: Seq<LiveTranscription>,
    events: Seq<LiveEvent>,
    n: usize,
)
    requires
        live_course(lives, events),
        answered_once(events),
        windows_in(events).len() == n,
        forall|k: usize| #[trigger] results_in(events).contains_key(k) ==> k < n,
        lives.last().spec_finished(),
    ensures
        windows_out(events) == windows_in(events),
        lives.last().stats.windows_dispatched == n,
        lives.last().stats.windows_completed == n,
        lives.last().collector.done@.len() == n,
        forall|i: int|
            0 <= i < n ==> (#[trigger] lives.last().collector.done@[i]).window_index == i
                && lives.last().collector.done@[i] == results_in(events)[i as usize],
{
    lemma_course(lives, events);
    let live = lives.last();
    let arrived = results_in(events);
    assert(windows_out(events) + live.pending_windows@ =~= windows_out(events));
    lemma_indexes_below(n);
    let below = Set::new(|k: usize| k < n);
    assert(arrived.dom().subset_of(below));
    assert forall|k: usize| k < n implies #[trigger] arrived.contains_key(k) by {
        if !arrived.contains_key(k) {
            arrived.dom().lemma_subset_not_in_lt(below, k);
        }
    }
    all_results_go_out(
        arrived,
        live.collector.done@,
        live.collector.ordered.pending@,
        live.collector.ordered.next as int,
        n as int,
    );
    assert forall|i: int| 0 <= i < n implies (#[trigger] live.collector.done@[i]).window_index == i
        && live.collector.done@[i] == arrived[i as usize] by {
        assert(arrived.contains_key(i as usize));
        assert(live.collector.done@[i] == arrived[i as usize]);
    }
}

/// Windows of known audio that are handed to workers as they become ready, first come first served.
pub struct WindowDispatch {
    pub worker_count: usize,
    pub pending: VecDeque<AudioWindow>,
}

impl WindowDispatch {
    /// All windows wait.
    pub fn new(worker_count: usize, windows: Vec<AudioWindow>) -> (dispatch: WindowDispatch)
        ensures
            dispatch.worker_count == worker_count,
            dispatch.pending@ == windows@,
    {
        let mut pending: VecDeque<AudioWindow> = VecDeque::new();
        let mut i: usize = 0;
        while i < windows.len()
            invariant
                i <= windows@.len(),
                pending@ == windows@.take(i as int),
            decreases windows@.len() - i,
        {
            pending.push_back(windows[i]);
            i = i + 1;
            assert(pending@ =~= windows@.take(i as int));
        }
        assert(pending@ =~= windows@);
        WindowDispatch { worker_count, pending }
    }

    /// Whether windows wait.
    pub fn wants_worker(&self) -> (wants: bool)
        ensures
            wants == (self.pending@.len() > 0),
    {
        self.pending.len() > 0
    }

    /// The window for the next worker that is ready; `None` for the worker stands for no workers
    /// being left.
    pub fn assign(&mut self, worker: Option<usize>) -> (out: Result<(usize, AudioWindow), ParallelError>)
        requires
            old(self).pending@.len() > 0,
        ensures
            final(self).worker_count == old(self).worker_count,
            final(self).pending@ == old(self).pending@.drop_first(),
            out == (match worker {
                None => Err(ParallelError::WorkersStopped),
                Some(worker_id) => if worker_id >= old(self).worker_count {
                    Err(ParallelError::InvalidWorker { worker_id })
                } else {
                    Ok((worker_id, old(self).pending@.first()))
                },
            }),
    {
        let window = self.pending.pop_front();
        assert(self.pending@ =~= old(self).pending@.drop_first());
        match worker {
            None => Err(ParallelError::WorkersStopped),
            Some(worker_id) => {
                if worker_id >= self.worker_count {
                    return Err(ParallelError::InvalidWorker { worker_id });
                }
                match window {
                    Some(window) => Ok((worker_id, window)),
                    None => Err(ParallelError::WorkersStopped),
                }
            },
        }
    }
}

} // verus!
