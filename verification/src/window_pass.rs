//! Decoding a window, greedily or by beam search: what is fed to the decoder next, from the first
//! prompt to the last token.
use vstd::prelude::*;

use crate::beam::{behind_prompt, generated_tokens, Beam, BeamSearch};
use crate::decoder::WhisperDecoderState;
use crate::float_bits::F32;
use crate::spec::WhisperSpec;
use crate::suppression::{suppressed_logit, TokenSuppressor};
use crate::whisper::{is_argmax, pass_prompt, repeats, seeks_on, GreedyPass, WindowDecoding};

verus! {

/// A window that is decoded greedily. In each pass the prompt is fed to a fresh decoder, and then
/// one token after the other, until the pass ends.
pub struct GreedyWindow {
    pub window: WindowDecoding,
    pub rules: TokenSuppressor,
    pub max_new_tokens: usize,
    /// The prompt of the pass.
    pub prompt: Vec<u32>,
    /// How many tokens of the prompt have been fed.
    pub fed: usize,
    pub pass: GreedyPass,
    /// Whether a pass is under way.
    pub in_pass: bool,
}

/// The logits after suppression.
pub open spec fn suppressed(rules: TokenSuppressor, gen_len: int, logits: Seq<F32>) -> Seq<F32> {
    Seq::new(
        logits.len(),
        |i: int|
            if rules.suppresses(gen_len, i) {
                suppressed_logit()
            } else {
                logits[i]
            },
    )
}

/// True of two sets of rules that differ in the length of the prompt only.
pub open spec fn same_rules(a: TokenSuppressor, b: TokenSuppressor) -> bool {
    &&& a.notimestamps == b.notimestamps
    &&& a.eot == b.eot
    &&& a.sot == b.sot
    &&& a.notimestamps_id == b.notimestamps_id
    &&& a.ids == b.ids
}

/// True where a pass over a window has given `tokens`: they are added to those of the window, which
/// is done unless it is gone over again.
pub open spec fn gone_over(before: WindowDecoding, after: WindowDecoding, tokens: Seq<u32>) -> bool {
    &&& after.same_window(&before)
    &&& after.passes == before.passes
    &&& after.accumulated@ == before.accumulated@ + tokens
    &&& after.finished == (before.finished || !seeks_on(
        before.accumulated@,
        tokens,
        before.timestamp_begin,
        before.window_end_token as int,
    ))
}

/// True where a pass that gave `tokens` has ended.
pub open spec fn pass_ended(before: GreedyWindow, after: GreedyWindow, tokens: Seq<u32>) -> bool {
    &&& !after.in_pass
    &&& gone_over(before.window, after.window, tokens)
}

impl GreedyWindow {
    /// No more of the prompt has been fed than there is, and the rules know the prompt's length.
    pub open spec fn wf(&self) -> bool {
        &&& self.fed <= self.prompt@.len()
        &&& self.in_pass ==> self.rules.prompt_len == self.prompt@.len() < usize::MAX
    }

    /// A window before its first pass.
    pub fn new(window: WindowDecoding, rules: TokenSuppressor, max_new_tokens: usize) -> (greedy:
        GreedyWindow)
        ensures
            greedy.wf(),
            !greedy.in_pass,
            greedy.window == window,
            greedy.rules == rules,
            greedy.max_new_tokens == max_new_tokens,
    {
        GreedyWindow {
            window,
            rules,
            max_new_tokens,
            prompt: Vec::new(),
            fed: 0,
            pass: GreedyPass::new(0),
            in_pass: false,
        }
    }

    /// Begins the next pass, for which the decoder is to forget what it was fed, if there is one.
    pub fn start_pass(&mut self) -> (started: bool)
        requires
            old(self).wf(),
            !old(self).in_pass,
        ensures
            final(self).wf(),
            started == old(self).window.goes_on(),
            final(self).in_pass == started,
            final(self).max_new_tokens == old(self).max_new_tokens,
            final(self).window.same_window(&old(self).window),
            final(self).window.accumulated == old(self).window.accumulated,
            same_rules(final(self).rules, old(self).rules),
            !started ==> {
                &&& final(self).window.finished
                &&& final(self).window.passes == old(self).window.passes
                &&& final(self).rules == old(self).rules
                &&& final(self).prompt == old(self).prompt
                &&& final(self).fed == old(self).fed
                &&& final(self).pass == old(self).pass
            },
            started ==> {
                &&& final(self).window.passes == old(self).window.passes + 1
                &&& final(self).window.finished == old(self).window.finished
                &&& final(self).prompt@ == pass_prompt(
                    old(self).window.base_prompt@,
                    old(self).window.accumulated@,
                    old(self).window.t_cache as int,
                )
                &&& final(self).fed == 0
                &&& final(self).pass.generated@.len() == 0
                &&& final(self).pass.steps_left == old(self).max_new_tokens
                &&& !final(self).pass.stopped
            },
    {
        match self.window.next_prompt() {
            Some(prompt) => {
                self.rules.prompt_len = prompt.len();
                self.prompt = prompt;
                self.fed = 0;
                self.pass = GreedyPass::new(self.max_new_tokens);
                self.in_pass = true;
                true
            },
            None => false,
        }
    }

    /// The next token of the prompt that is to be fed to the decoder, if one is left.
    pub fn next_prompt_token(&mut self) -> (token: Option<u32>)
        requires
            old(self).wf(),
            old(self).in_pass,
        ensures
            final(self).wf(),
            final(self).in_pass,
            final(self).window == old(self).window,
            final(self).rules == old(self).rules,
            final(self).max_new_tokens == old(self).max_new_tokens,
            final(self).prompt == old(self).prompt,
            final(self).pass == old(self).pass,
            old(self).fed < old(self).prompt@.len() ==> token == Some(
                old(self).prompt@[old(self).fed as int],
            ) && final(self).fed == old(self).fed + 1,
            old(self).fed == old(self).prompt@.len() ==> token is None && final(self).fed == old(
                self).fed,
    {
        if self.fed < self.prompt.len() {
            let token: u32 = self.prompt[self.fed];
            self.fed = self.fed + 1;
            Some(token)
        } else {
            None
        }
    }

    /// Chooses the next token by the logits that the last fed token led to. A token that is given
    /// back is to be fed to the decoder. Otherwise the pass has ended: as many tokens as wanted are
    /// there, or the text ends, or the last tokens repeat themselves.
    pub fn next_token(&mut self, logits: Vec<F32>) -> (token: Option<u32>)
        requires
            old(self).wf(),
            old(self).in_pass,
            old(self).fed == old(self).prompt@.len(),
        ensures
            final(self).wf(),
            final(self).prompt == old(self).prompt,
            final(self).fed == old(self).fed,
            final(self).rules == old(self).rules,
            final(self).max_new_tokens == old(self).max_new_tokens,
            if old(self).pass.stopped || old(self).pass.steps_left == 0 {
                token is None && pass_ended(*old(self), *final(self), old(self).pass.generated@)
            } else {
                exists|best: int| #[trigger]
                    is_argmax(
                        suppressed(
                            old(self).rules,
                            (old(self).prompt@.len() + old(self).pass.generated@.len()) as int,
                            logits@,
                        ),
                        best,
                    ) && {
                        let chosen = best as u32;
                        let more = old(self).pass.generated@.push(chosen);
                        if chosen == old(self).rules.eot {
                            token is None && pass_ended(
                                *old(self),
                                *final(self),
                                old(self).pass.generated@,
                            )
                        } else if repeats(more) {
                            token is None && pass_ended(*old(self), *final(self), more)
                        } else {
                            &&& token == Some(chosen)
                            &&& final(self).in_pass
                            &&& final(self).window == old(self).window
                            &&& final(self).pass.generated@ == more
                            &&& final(self).pass.steps_left == old(self).pass.steps_left - 1
                            &&& !final(self).pass.stopped
                        }
                    }
            },
    {
        let mut logits: Vec<F32> = logits;
        if self.pass.wants_token() {
            let ghost given = logits@;
            let gen_len: usize = self.prompt.len().saturating_add(self.pass.generated.len());
            self.rules.apply(gen_len, &mut logits);
            assert(logits@ =~= suppressed(
                self.rules,
                (self.prompt@.len() + self.pass.generated@.len()) as int,
                given,
            ));
            let token = self.pass.choose_token(logits.as_slice(), self.rules.eot);
            if token.is_some() {
                return token;
            }
        }
        self.window.finish_pass(self.pass.generated.as_slice());
        self.in_pass = false;
        None
    }
}

/// A window that is decoded by beam search. In each pass the prompt is fed to a fresh decoder, and a
/// search goes on from there, until no beam does or as many steps as wanted were taken.
pub struct BeamWindow {
    pub window: WindowDecoding,
    pub rules: TokenSuppressor,
    pub max_new_tokens: usize,
    /// The prompt of the pass.
    pub prompt: Vec<u32>,
    /// How many tokens of the prompt have been fed.
    pub fed: usize,
    /// How many steps the search may still take.
    pub steps_left: usize,
    /// Whether a pass is under way.
    pub in_pass: bool,
}

impl BeamWindow {
    /// No more of the prompt has been fed than there is, and the rules know the prompt's length.
    pub open spec fn wf(&self) -> bool {
        &&& self.fed <= self.prompt@.len()
        &&& self.in_pass ==> self.rules.prompt_len == self.prompt@.len() < usize::MAX
    }

    /// A window before its first pass.
    pub fn new(window: WindowDecoding, rules: TokenSuppressor, max_new_tokens: usize) -> (beam:
        BeamWindow)
        ensures
            beam.wf(),
            !beam.in_pass,
            beam.window == window,
            beam.rules == rules,
            beam.max_new_tokens == max_new_tokens,
    {
        BeamWindow {
            window,
            rules,
            max_new_tokens,
            prompt: Vec::new(),
            fed: 0,
            steps_left: 0,
            in_pass: false,
        }
    }

    /// Begins the next pass, for which the decoder is to forget what it was fed, if there is one.
    pub fn start_pass(&mut self) -> (started: bool)
        requires
            old(self).wf(),
            !old(self).in_pass,
        ensures
            final(self).wf(),
            started == old(self).window.goes_on(),
            final(self).in_pass == started,
            final(self).max_new_tokens == old(self).max_new_tokens,
            final(self).window.same_window(&old(self).window),
            final(self).window.accumulated == old(self).window.accumulated,
            same_rules(final(self).rules, old(self).rules),
            !started ==> {
                &&& final(self).window.finished
                &&& final(self).window.passes == old(self).window.passes
                &&& final(self).rules == old(self).rules
                &&& final(self).prompt == old(self).prompt
                &&& final(self).fed == old(self).fed
                &&& final(self).steps_left == old(self).steps_left
            },
            started ==> {
                &&& final(self).window.passes == old(self).window.passes + 1
                &&& final(self).window.finished == old(self).window.finished
                &&& final(self).prompt@ == pass_prompt(
                    old(self).window.base_prompt@,
                    old(self).window.accumulated@,
                    old(self).window.t_cache as int,
                )
                &&& final(self).rules.prompt_len == final(self).prompt@.len()
                &&& final(self).fed == 0
                &&& final(self).steps_left == old(self).max_new_tokens
            },
    {
        match self.window.next_prompt() {
            Some(prompt) => {
                self.rules.prompt_len = prompt.len();
                self.prompt = prompt;
                self.fed = 0;
                self.steps_left = self.max_new_tokens;
                self.in_pass = true;
                true
            },
            None => false,
        }
    }

    /// The next token of the prompt that is to be fed to the decoder, if one is left.
    pub fn next_prompt_token(&mut self) -> (token: Option<u32>)
        requires
            old(self).wf(),
            old(self).in_pass,
        ensures
            final(self).wf(),
            final(self).in_pass,
            final(self).window == old(self).window,
            final(self).rules == old(self).rules,
            final(self).max_new_tokens == old(self).max_new_tokens,
            final(self).prompt == old(self).prompt,
            final(self).steps_left == old(self).steps_left,
            old(self).fed < old(self).prompt@.len() ==> token == Some(
                old(self).prompt@[old(self).fed as int],
            ) && final(self).fed == old(self).fed + 1,
            old(self).fed == old(self).prompt@.len() ==> token is None && final(self).fed == old(
                self).fed,
    {
        if self.fed < self.prompt.len() {
            let token: u32 = self.prompt[self.fed];
            self.fed = self.fed + 1;
            Some(token)
        } else {
            None
        }
    }

    /// The search of a pass whose prompt has been fed: one beam, with the decoder's state and the
    /// logits that the prompt led to.
    pub fn begin_search<S: WhisperSpec>(
        &self,
        size: usize,
        state: WhisperDecoderState,
        logits: Vec<F32>,
        alpha: F32,
    ) -> (search: BeamSearch<S>)
        requires
            self.wf(),
            self.in_pass,
            self.fed == self.prompt@.len(),
        ensures
            search.size == size,
            search.alpha == alpha,
            search.finished_beams@ == Seq::<Beam>::empty(),
            search.beams@.len() == 1,
            search.beams@[0].tokens@ == self.prompt@,
            search.beams@[0].log_prob == (F32 { bits: 0 }),
            search.beams@[0].state == state,
            search.beams@[0].last_logits == logits,
            !search.beams@[0].finished,
    {
        let mut tokens: Vec<u32> = Vec::new();
        tokens.extend_from_slice(self.prompt.as_slice());
        assert(tokens@ =~= self.prompt@);
        BeamSearch::new(size, state, logits, tokens, alpha)
    }

    /// Whether the search of the pass takes another step: as long as steps are left and beams go on.
    /// A step that is taken is counted.
    pub fn take_step<S: WhisperSpec>(&mut self, search: &BeamSearch<S>) -> (wants: bool)
        requires
            old(self).wf(),
            old(self).in_pass,
        ensures
            final(self).wf(),
            final(self).in_pass,
            final(self).window == old(self).window,
            final(self).rules == old(self).rules,
            final(self).max_new_tokens == old(self).max_new_tokens,
            final(self).prompt == old(self).prompt,
            final(self).fed == old(self).fed,
            wants == (old(self).steps_left > 0 && search.beams@.len() > 0),
            final(self).steps_left == old(self).steps_left - (if wants {
                1int
            } else {
                0
            }),
    {
        if self.steps_left > 0 && search.beams.len() > 0 {
            self.steps_left = self.steps_left - 1;
            true
        } else {
            false
        }
    }

    /// Ends a pass with the best sequence of its search: what it holds behind the prompt is added to
    /// the window's tokens.
    pub fn finish_pass(&mut self, best: Option<Vec<u32>>)
        requires
            old(self).wf(),
            old(self).in_pass,
        ensures
            final(self).wf(),
            !final(self).in_pass,
            final(self).rules == old(self).rules,
            final(self).max_new_tokens == old(self).max_new_tokens,
            final(self).prompt == old(self).prompt,
            final(self).fed == old(self).fed,
            final(self).steps_left == old(self).steps_left,
            gone_over(
                old(self).window,
                final(self).window,
                behind_prompt(best, old(self).prompt@.len() as int),
            ),
    {
        let generated = generated_tokens(best, self.prompt.len());
        self.window.finish_pass(generated.as_slice());
        self.in_pass = false;
    }
}

} // verus!
