//! Beam search: keeping the best continuations of several token sequences at once.
use vstd::prelude::*;

use crate::decoder::WhisperDecoderState;
use crate::float_bits::F32;
use crate::spec::WhisperSpec;
use crate::whisper::{repeats, repeats_pattern};

verus! {

////////////////////////////////////////////////////////////////////////////////
// Ranking
////////////////////////////////////////////////////////////////////////////////

/// True where place `a` is ranked before place `b`: it has the greater key, or the same key and
/// comes first.
pub open spec fn precedes(keys: Seq<F32>, a: int, b: int) -> bool {
    keys[a].rank() > keys[b].rank() || (keys[a].rank() == keys[b].rank() && a < b)
}

/// True of the `count` best places in order.
pub open spec fn is_top(keys: Seq<F32>, count: int, order: Seq<usize>) -> bool {
    &&& order.len() == (if count < keys.len() {
        count
    } else {
        keys.len() as int
    })
    &&& forall|i: int| 0 <= i < order.len() ==> (#[trigger] order[i]) < keys.len()
    &&& forall|i: int, j: int|
        0 <= i < j < order.len() ==> precedes(
            keys,
            (#[trigger] order[i]) as int,
            (#[trigger] order[j]) as int,
        )
    &&& forall|p: int, i: int|
        0 <= p < keys.len() && 0 <= i < order.len() && !order.contains(p as usize)
            ==> #[trigger] precedes(keys, order[i] as int, p)
}

/// The state of a ranking after the first `n` keys: the best places among them, in order.
spec fn top_so_far(keys: Seq<F32>, count: int, n: int, order: Seq<usize>) -> bool {
    &&& order.len() == (if count < n {
        count
    } else {
        n
    })
    &&& forall|i: int| 0 <= i < order.len() ==> (#[trigger] order[i]) < n
    &&& forall|i: int, j: int|
        0 <= i < j < order.len() ==> precedes(
            keys,
            (#[trigger] order[i]) as int,
            (#[trigger] order[j]) as int,
        )
    &&& forall|p: int, i: int|
        0 <= p < n && 0 <= i < order.len() && !order.contains(p as usize) ==> #[trigger] precedes(
            keys,
            order[i] as int,
            p,
        )
}

/// Whether the key at `a` is greater than the key at `b`.
fn outranks(keys: &[F32], a: usize, b: usize) -> (greater: bool)
    requires
        a < keys@.len(),
        b < keys@.len(),
    ensures
        greater == (keys@[a as int].rank() > keys@[b as int].rank()),
{
    keys[a].rank_value() > keys[b].rank_value()
}

/// The places of the `count` greatest keys, best first; of equal keys the earlier is better.
pub fn top_ranked(keys: &[F32], count: usize) -> (order: Vec<usize>)
    ensures
        is_top(keys@, count as int, order@),
{
    let mut order: Vec<usize> = Vec::new();
    let mut n: usize = 0;
    while n < keys.len()
        invariant
            n <= keys@.len(),
            top_so_far(keys@, count as int, n as int, order@),
        decreases keys@.len() - n,
    {
        let mut at: usize = order.len();
        while at > 0 && outranks(keys, n, order[at - 1])
            invariant
                at <= order@.len(),
                n < keys@.len(),
                top_so_far(keys@, count as int, n as int, order@),
                forall|i: int|
                    at <= i < order@.len() ==> keys@[n as int].rank() > keys@[(
                    #[trigger] order@[i]) as int].rank(),
            decreases at,
        {
            at = at - 1;
        }
        let ghost before = order@;
        proof {
            assert forall|i: int| 0 <= i < at implies precedes(
                keys@,
                (#[trigger] before[i]) as int,
                n as int,
            ) by {
                if i < at - 1 {
                    assert(precedes(keys@, before[i] as int, before[at - 1] as int));
                }
            }
        }
        if at < count {
            order.insert(at, n);
            if order.len() > count {
                order.pop();
            }
            proof {
                lemma_inserted(keys@, count as int, n as int, before, at as int, order@);
            }
        } else {
            proof {
                lemma_left_out(keys@, count as int, n as int, before);
            }
        }
        n = n + 1;
    }
    order
}

proof fn lemma_left_out(keys: Seq<F32>, count: int, n: int, order: Seq<usize>)
    requires
        0 <= n < keys.len() <= usize::MAX,
        top_so_far(keys, count, n, order),
        order.len() >= count,
        forall|i: int|
            0 <= i < order.len() ==> precedes(keys, (#[trigger] order[i]) as int, n),
    ensures
        top_so_far(keys, count, n + 1, order),
{
    assert forall|p: int, i: int|
        0 <= p < n + 1 && 0 <= i < order.len() && !order.contains(
            p as usize,
        ) implies #[trigger] precedes(keys, order[i] as int, p) by {
        if p == n {
            assert(precedes(keys, order[i] as int, n));
        }
    }
}

proof fn lemma_inserted(
    keys: Seq<F32>,
    count: int,
    n: int,
    before: Seq<usize>,
    at: int,
    after: Seq<usize>,
)
    requires
        0 <= n < keys.len() <= usize::MAX,
        0 <= at <= before.len(),
        at < count,
        top_so_far(keys, count, n, before),
        forall|i: int|
            0 <= i < at ==> precedes(keys, (#[trigger] before[i]) as int, n),
        forall|i: int|
            at <= i < before.len() ==> keys[n].rank() > keys[(#[trigger] before[i]) as int].rank(),
        ({
            let wide = before.insert(at, n as usize);
            after == (if wide.len() > count {
                wide.drop_last()
            } else {
                wide
            })
        }),
    ensures
        top_so_far(keys, count, n + 1, after),
{
    let wide = before.insert(at, n as usize);
    assert forall|i: int| 0 <= i < wide.len() implies (#[trigger] wide[i]) < n + 1 by {
        if i < at {
            assert(wide[i] == before[i]);
        } else if i > at {
            assert(wide[i] == before[i - 1]);
        }
    }
    assert forall|i: int, j: int| 0 <= i < j < wide.len() implies precedes(
        keys,
        (#[trigger] wide[i]) as int,
        (#[trigger] wide[j]) as int,
    ) by {
        if i < at {
            assert(wide[i] == before[i]);
            if j > at {
                assert(wide[j] == before[j - 1]);
            } else if j < at {
                assert(wide[j] == before[j]);
            }
        } else if i == at {
            assert(wide[j] == before[j - 1]);
        } else {
            assert(wide[i] == before[i - 1] && wide[j] == before[j - 1]);
        }
    }
    assert forall|p: int, i: int|
        0 <= p < n + 1 && 0 <= i < after.len() && !after.contains(
            p as usize,
        ) implies #[trigger] precedes(keys, after[i] as int, p) by {
        assert(after[i] == wide[i]);
        if before.contains(p as usize) {
            let k = choose|k: int| 0 <= k < before.len() && before[k] == p as usize;
            let k2 = if k < at {
                k
            } else {
                k + 1
            };
            assert(wide[k2] == p as usize);
            if k2 < after.len() {
                assert(after[k2] == p as usize);
            }
            assert(precedes(keys, wide[i] as int, wide[k2] as int));
        } else if p == n {
            assert(wide[at] == p as usize);
            assert(after[at] == p as usize);
        } else if i < at {
            assert(wide[i] == before[i]);
            assert(precedes(keys, before[i] as int, p));
        } else if i > at {
            assert(wide[i] == before[i - 1]);
            assert(precedes(keys, before[i - 1] as int, p));
        } else if before.len() > 0 {
            if at < before.len() {
                assert(precedes(keys, before[at] as int, p));
            } else {
                assert(before.len() == n);
                lemma_full(before, n, p);
            }
        } else {
            assert(n == 0);
        }
    }
}

/// As many distinct places as there are hold them all.
proof fn lemma_full(order: Seq<usize>, n: int, p: int)
    requires
        order.len() == n <= usize::MAX,
        forall|i: int| 0 <= i < order.len() ==> (#[trigger] order[i]) < n,
        order.no_duplicates(),
        0 <= p < n,
    ensures
        order.contains(p as usize),
{
    let all = Set::new(|x: usize| x < n);
    order.unique_seq_to_set();
    assert(order.to_set().subset_of(all));
    lemma_below(n as nat);
    if !order.contains(p as usize) {
        assert(order.to_set().subset_of(all.remove(p as usize)));
        vstd::set_lib::lemma_len_subset(order.to_set(), all.remove(p as usize));
    }
}

proof fn lemma_below(n: nat)
    requires
        n <= usize::MAX,
    ensures
        Set::new(|x: usize| x < n).finite(),
        Set::new(|x: usize| x < n).len() == n,
    decreases n,
{
    let s = Set::new(|x: usize| x < n);
    if n == 0 {
        assert(s =~= Set::empty());
    } else {
        lemma_below((n - 1) as nat);
        let less = Set::new(|x: usize| x < n - 1);
        assert(s =~= less.insert((n - 1) as usize));
    }
}

////////////////////////////////////////////////////////////////////////////////
// Beams
////////////////////////////////////////////////////////////////////////////////

/// A token sequence with its log probability, the decoder state behind it and the logits for its
/// next token.
#[derive(Debug)]
pub struct Beam {
    pub tokens: Vec<u32>,
    pub log_prob: F32,
    pub state: WhisperDecoderState,
    pub last_logits: Vec<F32>,
    pub finished: bool,
}

impl Beam {
    /// A sequence that can go on.
    pub fn new(tokens: Vec<u32>, log_prob: F32, state: WhisperDecoderState, last_logits: Vec<F32>) -> (beam:
        Beam)
        ensures
            beam.tokens == tokens,
            beam.log_prob == log_prob,
            beam.state == state,
            beam.last_logits == last_logits,
            !beam.finished,
    {
        Beam { tokens, log_prob, state, last_logits, finished: false }
    }
}

/// A token that a beam may go on with, and the log probability of the whole sequence then.
#[derive(Clone, Copy, Debug, PartialEq, Eq, Structural)]
pub struct Candidate {
    pub parent: usize,
    pub token_id: u32,
    pub log_prob: F32,
}

/// A candidate that was chosen: its sequence, and whether that has come to an end.
#[derive(Debug)]
pub struct Expansion {
    pub parent: usize,
    pub token_id: u32,
    pub tokens: Vec<u32>,
    pub log_prob: F32,
    pub finished: bool,
}

/// The candidates of one beam: its `size` most probable next tokens, by their log probabilities,
/// best first.
pub fn token_candidates(log_probs: &[F32], size: usize) -> (places: Vec<usize>)
    requires
        size < log_probs@.len(),
    ensures
        is_top(log_probs@, size as int, places@),
{
    top_ranked(log_probs, size)
}

/// The log probabilities of candidates.
pub open spec fn candidate_keys(candidates: Seq<Candidate>) -> Seq<F32> {
    candidates.map_values(|c: Candidate| c.log_prob)
}

/// True where a sequence has come to an end: with the end-of-text token, or with four tokens that
/// repeat the four before them.
pub open spec fn ends(tokens: Seq<u32>, eot: u32) -> bool {
    tokens.len() > 0 && (tokens.last() == eot || repeats(tokens))
}

/// True of what a candidate makes of its parent.
pub open spec fn expands(
    e: Expansion,
    candidate: Candidate,
    parents: Seq<Beam>,
    eot: u32,
) -> bool {
    &&& e.parent == candidate.parent
    &&& e.token_id == candidate.token_id
    &&& e.log_prob == candidate.log_prob
    &&& e.tokens@ == parents[candidate.parent as int].tokens@.push(candidate.token_id)
    &&& e.finished == ends(e.tokens@, eot)
}

/// True of the expansions that the best candidates lead to, best first.
pub open spec fn best_expansions(
    expansions: Seq<Expansion>,
    parents: Seq<Beam>,
    candidates: Seq<Candidate>,
    size: int,
    eot: u32,
) -> bool {
    exists|order: Seq<usize>| #[trigger]
        is_top(candidate_keys(candidates), size, order) && expansions.len() == order.len()
            && forall|i: int|
            0 <= i < order.len() ==> expands(
                #[trigger] expansions[i],
                candidates[order[i] as int],
                parents,
                eot,
            )
}

/// Chooses the `size` best of the candidates of all beams and extends their sequences.
pub fn expand(parents: &Vec<Beam>, candidates: &Vec<Candidate>, size: usize, eot: u32) -> (expansions:
    Vec<Expansion>)
    requires
        forall|i: int|
            0 <= i < candidates@.len() ==> (#[trigger] candidates@[i]).parent < parents@.len(),
    ensures
        best_expansions(expansions@, parents@, candidates@, size as int, eot),
{
    let ghost all = candidate_keys(candidates@);
    let mut keys: Vec<F32> = Vec::new();
    let mut k: usize = 0;
    while k < candidates.len()
        invariant
            k <= candidates@.len(),
            all == candidate_keys(candidates@),
            keys@ == all.take(k as int),
        decreases candidates@.len() - k,
    {
        keys.push(candidates[k].log_prob);
        k = k + 1;
        assert(keys@ =~= all.take(k as int));
    }
    assert(keys@ =~= all);
    let order = top_ranked(keys.as_slice(), size);
    let mut expansions: Vec<Expansion> = Vec::new();
    let mut i: usize = 0;
    while i < order.len()
        invariant
            i <= order@.len(),
            all == candidate_keys(candidates@),
            is_top(all, size as int, order@),
            expansions@.len() == i,
            forall|j: int|
                0 <= j < candidates@.len() ==> (#[trigger] candidates@[j]).parent < parents@.len(),
            forall|j: int|
                0 <= j < i ==> expands(
                    #[trigger] expansions@[j],
                    candidates@[order@[j] as int],
                    parents@,
                    eot,
                ),
        decreases order@.len() - i,
    {
        let place: usize = order[i];
        let candidate: Candidate = candidates[place];
        let parent: usize = candidate.parent;
        let mut tokens: Vec<u32> = Vec::new();
        tokens.extend_from_slice(parents[parent].tokens.as_slice());
        tokens.push(candidate.token_id);
        assert(tokens@ =~= parents@[parent as int].tokens@.push(candidate.token_id));
        let finished: bool = candidate.token_id == eot || repeats_pattern(&tokens);
        expansions.push(
            Expansion {
                parent,
                token_id: candidate.token_id,
                tokens,
                log_prob: candidate.log_prob,
                finished,
            },
        );
        i = i + 1;
    }
    expansions
}

/// A step keeps at most `size` sequences, and all of them go on from the prompt that their parents
/// begin with.
pub proof fn expansions_keep_prompt(
    prompt: Seq<u32>,
    expansions: Seq<Expansion>,
    parents: Seq<Beam>,
    candidates: Seq<Candidate>,
    size: int,
    eot: u32,
)
    requires
        best_expansions(expansions, parents, candidates, size, eot),
        forall|i: int|
            0 <= i < candidates.len() ==> (#[trigger] candidates[i]).parent < parents.len(),
        forall|i: int|
            0 <= i < parents.len() ==> prompt.is_prefix_of((#[trigger] parents[i]).tokens@),
    ensures
        expansions.len() <= size || size < 0,
        forall|i: int|
            0 <= i < expansions.len() ==> prompt.is_prefix_of((#[trigger] expansions[i]).tokens@),
{
    let order = choose|order: Seq<usize>| #[trigger]
        is_top(candidate_keys(candidates), size, order) && expansions.len() == order.len()
            && forall|i: int|
            0 <= i < order.len() ==> expands(
                #[trigger] expansions[i],
                candidates[order[i] as int],
                parents,
                eot,
            );
    assert forall|i: int| 0 <= i < expansions.len() implies prompt.is_prefix_of(
        (#[trigger] expansions[i]).tokens@,
    ) by {
        assert(order[i] < candidate_keys(candidates).len());
        let candidate = candidates[order[i] as int];
        let parent = parents[candidate.parent as int];
        assert(expands(expansions[i], candidate, parents, eot));
        assert(prompt =~= parent.tokens@.subrange(0, prompt.len() as int));
        assert(prompt =~= expansions[i].tokens@.subrange(0, prompt.len() as int));
    }
}

/// A beam search over the tokens of a model.
pub struct BeamSearch<S: WhisperSpec> {
    pub size: usize,
    pub beams: Vec<Beam>,
    pub finished_beams: Vec<Beam>,
    pub alpha: F32,
    pub phantom: core::marker::PhantomData<S>,
}

impl<S: WhisperSpec> BeamSearch<S> {
    /// Starts from one sequence, whose log probability is zero.
    pub fn new(
        size: usize,
        initial_state: WhisperDecoderState,
        initial_logits: Vec<F32>,
        initial_tokens: Vec<u32>,
        alpha: F32,
    ) -> (search: BeamSearch<S>)
        ensures
            search.size == size,
            search.alpha == alpha,
            search.finished_beams@ == Seq::<Beam>::empty(),
            search.beams@ == seq![
                Beam {
                    tokens: initial_tokens,
                    log_prob: F32 { bits: 0 },
                    state: initial_state,
                    last_logits: initial_logits,
                    finished: false,
                },
            ],
    {
        let mut beams: Vec<Beam> = Vec::new();
        beams.push(
            Beam::new(initial_tokens, F32 { bits: 0 }, initial_state, initial_logits),
        );
        let search: BeamSearch<S> = BeamSearch {
            size,
            beams,
            finished_beams: Vec::new(),
            alpha,
            phantom: core::marker::PhantomData,
        };
        assert(search.beams@ =~= seq![
            Beam {
                tokens: initial_tokens,
                log_prob: F32 { bits: 0 },
                state: initial_state,
                last_logits: initial_logits,
                finished: false,
            },
        ]);
        search
    }

    /// Begins a step: takes the beams out. The finished ones go to the finished beams, the others
    /// are given back, in order, to be extended.
    pub fn take_parents(&mut self) -> (parents: Vec<Beam>)
        ensures
            final(self).size == old(self).size,
            final(self).alpha == old(self).alpha,
            final(self).beams@ == Seq::<Beam>::empty(),
            final(self).finished_beams@ == old(self).finished_beams@ + old(self).beams@.filter(
                |b: Beam| b.finished,
            ),
            parents@ == old(self).beams@.filter(|b: Beam| !b.finished),
    {
        let ghost all = self.beams@;
        let ghost is_finished = |b: Beam| b.finished;
        let ghost is_open = |b: Beam| !b.finished;
        let mut drained: Vec<Beam> = Vec::new();
        drained.append(&mut self.beams);
        assert(drained@ =~= all);
        let ghost done = self.finished_beams@;
        let mut parents: Vec<Beam> = Vec::new();
        proof {
            reveal(Seq::filter);
            assert(all.take(0).filter(is_finished) =~= Seq::<Beam>::empty());
            assert(all.take(0).filter(is_open) =~= Seq::<Beam>::empty());
            assert(done + Seq::<Beam>::empty() =~= done);
        }
        for beam in it: drained
            invariant
                it.seq() == all,
                self.size == old(self).size,
                self.alpha == old(self).alpha,
                self.beams@ == Seq::<Beam>::empty(),
                is_finished == (|b: Beam| b.finished),
                is_open == (|b: Beam| !b.finished),
                self.finished_beams@ == done + all.take(it.index()).filter(is_finished),
                parents@ == all.take(it.index()).filter(is_open),
        {
            let ghost i = it.index();
            proof {
                assert(beam == all[i]);
                assert(all.take(i + 1) =~= all.take(i).push(beam));
                assert(all.take(i).push(beam).drop_last() =~= all.take(i));
                reveal(Seq::filter);
            }
            if beam.finished {
                let ghost before = self.finished_beams@;
                self.finished_beams.push(beam);
                assert(self.finished_beams@ =~= done + all.take(i + 1).filter(is_finished));
            } else {
                parents.push(beam);
            }
        }
        assert(all.take(all.len() as int) =~= all);
        parents
    }

    /// Completes the extension of a beam. One that has come to an end goes to the finished beams,
    /// with no logits; another goes on with the decoder state and the logits that its token led to.
    pub fn push(&mut self, expansion: Expansion, state: WhisperDecoderState, next_logits: Vec<F32>)
        ensures
            final(self).size == old(self).size,
            final(self).alpha == old(self).alpha,
            expansion.finished ==> final(self).beams == old(self).beams
                && final(self).finished_beams@.len() == old(self).finished_beams@.len() + 1
                && final(self).finished_beams@.drop_last() == old(self).finished_beams@ && ({
                let beam = final(self).finished_beams@.last();
                &&& beam.tokens == expansion.tokens
                &&& beam.log_prob == expansion.log_prob
                &&& beam.state == state
                &&& beam.last_logits@ == Seq::<F32>::empty()
                &&& beam.finished
            }),
            !expansion.finished ==> final(self).finished_beams == old(self).finished_beams
                && final(self).beams@ == old(self).beams@.push(
                Beam {
                    tokens: expansion.tokens,
                    log_prob: expansion.log_prob,
                    state,
                    last_logits: next_logits,
                    finished: false,
                },
            ),
    {
        if expansion.finished {
            self.finished_beams.push(
                Beam {
                    tokens: expansion.tokens,
                    log_prob: expansion.log_prob,
                    state,
                    last_logits: Vec::new(),
                    finished: true,
                },
            );
            assert(self.finished_beams@.drop_last() =~= old(self).finished_beams@);
        } else {
            self.beams.push(
                Beam {
                    tokens: expansion.tokens,
                    log_prob: expansion.log_prob,
                    state,
                    last_logits: next_logits,
                    finished: false,
                },
            );
        }
    }

    /// All sequences: first the open ones, then the finished ones.
    pub open spec fn all(&self) -> Seq<Beam> {
        self.beams@ + self.finished_beams@
    }

    /// The tokens of the sequence with the best of the given scores, one score per sequence; of
    /// equal ones the first. There is none if there are no sequences.
    pub fn best_result(&self, scores: &[F32]) -> (best: Option<Vec<u32>>)
        requires
            scores@.len() == self.all().len(),
        ensures
            best is Some <==> self.all().len() > 0,
            best matches Some(tokens) ==> exists|i: int|
                0 <= i < self.all().len() && tokens@ == (#[trigger] self.all()[i]).tokens@ && (
                forall|j: int|
                    0 <= j < self.all().len() && j != i ==> #[trigger] precedes(scores@, i, j)),
    {
        let order = top_ranked(scores, 1);
        if order.len() == 0 {
            return None;
        }
        let i: usize = order[0];
        let n: usize = self.beams.len();
        let mut tokens: Vec<u32> = Vec::new();
        if i < n {
            tokens.extend_from_slice(self.beams[i].tokens.as_slice());
        } else {
            tokens.extend_from_slice(self.finished_beams[i - n].tokens.as_slice());
        }
        proof {
            assert(tokens@ =~= self.all()[i as int].tokens@);
            assert(scores.len() == self.all().len());
            assert forall|j: int| 0 <= j < self.all().len() && j != i implies #[trigger] precedes(
                scores@,
                i as int,
                j,
            ) by {
                assert(!order@.contains(j as usize));
                assert(precedes(scores@, order@[0] as int, j));
            }
        }
        Some(tokens)
    }
}

/// What a sequence holds behind a prompt of the given length; nothing where there is none, or it is
/// shorter.
pub open spec fn behind_prompt(best: Option<Vec<u32>>, prompt_len: int) -> Seq<u32> {
    match best {
        Some(tokens) => if prompt_len <= tokens@.len() {
            tokens@.skip(prompt_len)
        } else {
            Seq::empty()
        },
        None => Seq::empty(),
    }
}

/// What a search generated: the best sequence without its prompt, or nothing if it is no longer
/// than the prompt.
pub fn generated_tokens(best: Option<Vec<u32>>, prompt_len: usize) -> (generated: Vec<u32>)
    ensures
        generated@ == behind_prompt(best, prompt_len as int),
{
    let mut generated: Vec<u32> = Vec::new();
    if let Some(tokens) = best {
        if prompt_len <= tokens.len() {
            generated.extend_from_slice(
                vstd::slice::slice_subrange(tokens.as_slice(), prompt_len, tokens.len()),
            );
            assert(generated@ =~= tokens@.skip(prompt_len as int));
        }
    }
    generated
}

} // verus!
