//! Which tokens may not be generated.
use tokenizers::Tokenizer;
use vstd::prelude::*;

use crate::float_bits::F32;
use crate::spec::WhisperSpec;
use crate::text::{
    denotes_u32, digits_value, number_fault, parse_u32, same_text, split, split_text, trim_text,
    trimmed, unsigned_digits, with_text, NumberFault,
};
use crate::tokens::{id_of, token_to_id, TokenizerError};

verus! {

/// Which tokens are suppressed besides the control tokens.
#[derive(Clone, Debug, Eq, PartialEq)]
pub enum SuppressTokens {
    /// The usual non-speech tokens.
    Default,
    /// No others.
    Nothing,
    /// These.
    Ids(Vec<u32>),
}

/// The model of `SuppressTokens`.
pub enum SuppressView {
    Default,
    Nothing,
    Ids(Seq<u32>),
}

impl View for SuppressTokens {
    type V = SuppressView;

    open spec fn view(&self) -> SuppressView {
        match *self {
            SuppressTokens::Default => SuppressView::Default,
            SuppressTokens::Nothing => SuppressView::Nothing,
            SuppressTokens::Ids(ids) => SuppressView::Ids(ids@),
        }
    }
}

/// An entry of a list of token ids that is not an id, and why it is not.
#[derive(Clone, Debug)]
pub struct InvalidTokenId {
    pub part: String,
    pub fault: NumberFault,
}

impl InvalidTokenId {
    /// What the error says.
    pub fn message(&self) -> (text: String)
        ensures
            text@ == "invalid token id `"@ + self.part@ + "` in --suppress-tokens: "@
                + self.fault.spec_message(),
    {
        let named = with_text("invalid token id `", self.part.as_str());
        let placed = with_text(named.as_str(), "` in --suppress-tokens: ");
        with_text(placed.as_str(), self.fault.message())
    }
}

/// True where the first `n` entries of a list are ids.
pub open spec fn ids_up_to(parts: Seq<Seq<char>>, n: int) -> bool {
    forall|i: int| 0 <= i < n ==> denotes_u32(trimmed(#[trigger] parts[i]))
}

/// The ids of a list.
pub open spec fn id_values(parts: Seq<Seq<char>>) -> Seq<u32> {
    Seq::new(parts.len(), |i: int| digits_value(unsigned_digits(trimmed(parts[i]))) as u32)
}

/// The mode that a text stands for, if it is one.
pub open spec fn parsed_mode(value: Seq<char>) -> Option<SuppressView> {
    let text = trimmed(value);
    let parts = split(text, ',');
    if text == "default"@ {
        Some(SuppressView::Default)
    } else if text == "none"@ {
        Some(SuppressView::Nothing)
    } else if text.len() == 0 {
        Some(SuppressView::Ids(Seq::empty()))
    } else if ids_up_to(parts, parts.len() as int) {
        Some(SuppressView::Ids(id_values(parts)))
    } else {
        None
    }
}

impl SuppressTokens {
    /// Reads a mode: `default`, `none`, or ids with commas between them. White space around the
    /// whole and around each id does not count, and nothing at all stands for no ids.
    pub fn parse(value: &str) -> (out: Result<SuppressTokens, InvalidTokenId>)
        ensures
            match parsed_mode(value@) {
                Some(mode) => out is Ok && out->Ok_0@ == mode,
                None => out is Err && ({
                    let parts = split(trimmed(value@), ',');
                    exists|i: int|
                        0 <= i < parts.len() && ids_up_to(parts, i) && !denotes_u32(
                            trimmed(#[trigger] parts[i]),
                        ) && out->Err_0.part@ == parts[i] && out->Err_0.fault == number_fault(
                            trimmed(parts[i]),
                        )
                }),
            },
    {
        let text = trim_text(value);
        if same_text(text.as_str(), "default") {
            return Ok(SuppressTokens::Default);
        }
        if same_text(text.as_str(), "none") {
            return Ok(SuppressTokens::Nothing);
        }
        if text.as_str().is_empty() {
            let none: Vec<u32> = Vec::new();
            return Ok(SuppressTokens::Ids(none));
        }
        let ghost parts = split(text@, ',');
        let pieces = split_text(text.as_str(), ',');
        let mut parsed: Vec<u32> = Vec::new();
        let mut i: usize = 0;
        while i < pieces.len()
            invariant
                i <= pieces@.len(),
                parts == split(text@, ','),
                text@ == trimmed(value@),
                text@ != "default"@,
                text@ != "none"@,
                text@.len() != 0,
                pieces@.len() == parts.len(),
                forall|j: int| 0 <= j < pieces@.len() ==> (#[trigger] pieces@[j])@ == parts[j],
                ids_up_to(parts, i as int),
                parsed@ == id_values(parts).take(i as int),
            decreases pieces@.len() - i,
        {
            assert(pieces@[i as int]@ == parts[i as int]);
            match parse_u32(trim_text(pieces[i].as_str()).as_str()) {
                Ok(id) => parsed.push(id),
                Err(fault) => return Err(InvalidTokenId { part: pieces[i].clone(), fault }),
            }
            i = i + 1;
            assert(parsed@ =~= id_values(parts).take(i as int));
        }
        assert(parsed@ =~= id_values(parts));
        Ok(SuppressTokens::Ids(parsed))
    }

    /// A copy.
    pub fn duplicate(&self) -> (copy: SuppressTokens)
        ensures
            copy@ == self@,
    {
        match self {
            SuppressTokens::Default => SuppressTokens::Default,
            SuppressTokens::Nothing => SuppressTokens::Nothing,
            SuppressTokens::Ids(ids) => {
                let mut copy: Vec<u32> = Vec::new();
                copy.extend_from_slice(ids.as_slice());
                assert(copy@ =~= ids@);
                SuppressTokens::Ids(copy)
            },
        }
    }
}

/// The tokens that the default mode suppresses.
pub open spec fn default_suppressed() -> Seq<u32> {
    seq![
        1, 2, 7, 8, 9, 10, 14, 25, 26, 27, 28, 29, 31, 58, 59, 60, 61, 62, 63, 90, 91, 92,
        93, 359, 503, 522, 542, 873, 893, 902, 918, 922, 931, 1350, 1853, 1982, 2460, 2627,
        3246, 3253, 3268, 3536, 3846, 3961, 4183, 4667, 6585, 6647, 7273, 9061, 9383, 10428,
        10929, 11938, 12033, 12331, 12562, 13793, 14157, 14635, 15265, 15618, 16553, 16604,
        18362, 18956, 20075, 21675, 22520, 26130, 26161, 26435, 28279, 29464, 31650, 32302,
        32470, 36865, 42863, 47425, 49870, 50254, 50258, 50358, 50359, 50360, 50361, 50362,
    ]
}

/// The tokens that the default mode suppresses.
pub fn default_suppress_tokens() -> (ids: Vec<u32>)
    ensures
        ids@ == default_suppressed(),
{
    let ids: Vec<u32> = vec![
        1, 2, 7, 8, 9, 10, 14, 25, 26, 27, 28, 29, 31, 58, 59, 60, 61, 62, 63, 90, 91, 92,
        93, 359, 503, 522, 542, 873, 893, 902, 918, 922, 931, 1350, 1853, 1982, 2460, 2627,
        3246, 3253, 3268, 3536, 3846, 3961, 4183, 4667, 6585, 6647, 7273, 9061, 9383, 10428,
        10929, 11938, 12033, 12331, 12562, 13793, 14157, 14635, 15265, 15618, 16553, 16604,
        18362, 18956, 20075, 21675, 22520, 26130, 26161, 26435, 28279, 29464, 31650, 32302,
        32470, 36865, 42863, 47425, 49870, 50254, 50258, 50358, 50359, 50360, 50361, 50362,
    ];
    assert(ids@ =~= default_suppressed());
    ids
}

/// The value of a suppressed logit, -10000.
pub open spec fn suppressed_logit() -> F32 {
    F32 { bits: 0xc61c_4000 }
}

/// The rules for which tokens may not be generated.
#[derive(Debug)]
pub struct TokenSuppressor {
    pub prompt_len: usize,
    pub notimestamps: bool,
    pub eot: u32,
    pub sot: u32,
    pub notimestamps_id: u32,
    pub ids: Vec<u32>,
}

/// The ids that a mode adds, given the id of the no-speech token.
pub open spec fn mode_ids(mode: SuppressView, nospeech: Option<u32>) -> Seq<u32> {
    match mode {
        SuppressView::Default => match nospeech {
            Some(id) => default_suppressed().push(id),
            None => default_suppressed(),
        },
        SuppressView::Nothing => Seq::empty(),
        SuppressView::Ids(ids) => ids,
    }
}

impl TokenSuppressor {
    /// True of the tokens that may not be generated when `gen_len` tokens are there: the end of
    /// the text before anything has been generated, the control tokens, the tokens of the mode,
    /// and the timestamps if they are not wanted.
    pub open spec fn suppresses(&self, gen_len: int, token: int) -> bool {
        ||| gen_len <= self.prompt_len && token == self.eot
        ||| self.sot <= token <= self.notimestamps_id
        ||| exists|k: int| 0 <= k < self.ids@.len() && #[trigger] self.ids@[k] == token
        ||| self.notimestamps && token > self.notimestamps_id
    }

    /// The rules for ids that were looked up.
    pub fn from_ids(
        eot: u32,
        sot: Option<u32>,
        notimestamps_id: Option<u32>,
        nospeech: Option<u32>,
        prompt_len: usize,
        notimestamps: bool,
        mode: &SuppressTokens,
    ) -> (out: Result<TokenSuppressor, TokenizerError>)
        ensures
            out is Ok <==> sot is Some && notimestamps_id is Some,
            out matches Ok(rules) ==> rules.prompt_len == prompt_len && rules.notimestamps
                == notimestamps && rules.eot == eot && rules.sot == sot->0 && rules.notimestamps_id
                == notimestamps_id->0 && rules.ids@ == mode_ids(mode@, nospeech),
            out matches Err(e) ==> (e matches TokenizerError::MissingRequired { token } && token@ == (
            if sot is None {
                "<|startoftranscript|>"@
            } else {
                "<|notimestamps|>"@
            })),
    {
        let sot: u32 = match sot {
            Some(id) => id,
            None => return Err(
                TokenizerError::MissingRequired { token: "<|startoftranscript|>".to_string() },
            ),
        };
        let notimestamps_id: u32 = match notimestamps_id {
            Some(id) => id,
            None => return Err(
                TokenizerError::MissingRequired { token: "<|notimestamps|>".to_string() },
            ),
        };
        let mut ids: Vec<u32> = Vec::new();
        match mode {
            SuppressTokens::Default => {
                ids = default_suppress_tokens();
                if let Some(id) = nospeech {
                    ids.push(id);
                }
            },
            SuppressTokens::Nothing => {},
            SuppressTokens::Ids(extra) => {
                ids.extend_from_slice(extra.as_slice());
                assert(ids@ =~= extra@);
            },
        }
        assert(ids@ =~= mode_ids(mode@, nospeech));
        Ok(TokenSuppressor { prompt_len, notimestamps, eot, sot, notimestamps_id, ids })
    }

    /// The rules for a model, a tokenizer and a prompt of `prompt_len` tokens.
    pub fn new<S: WhisperSpec>(
        tokenizer: &Tokenizer,
        prompt_len: usize,
        notimestamps: bool,
        mode: &SuppressTokens,
    ) -> (out: Result<TokenSuppressor, TokenizerError>)
        ensures
            ({
                let sot = id_of(*tokenizer, "<|startoftranscript|>"@);
                let nots = id_of(*tokenizer, "<|notimestamps|>"@);
                let nospeech = id_of(*tokenizer, "<|nospeech|>"@);
                &&& out is Ok <==> sot is Some && nots is Some
                &&& out matches Ok(rules) ==> rules.prompt_len == prompt_len && rules.notimestamps
                    == notimestamps && rules.eot == S::TOKEN_EOT && rules.sot == sot->0
                    && rules.notimestamps_id == nots->0 && rules.ids@ == mode_ids(mode@, nospeech)
                &&& out matches Err(e) ==> (e matches TokenizerError::MissingRequired { token }
                    && token@ == (if sot is None {
                    "<|startoftranscript|>"@
                } else {
                    "<|notimestamps|>"@
                }))
            }),
    {
        TokenSuppressor::from_ids(
            S::TOKEN_EOT,
            token_to_id(tokenizer, "<|startoftranscript|>"),
            token_to_id(tokenizer, "<|notimestamps|>"),
            token_to_id(tokenizer, "<|nospeech|>"),
            prompt_len,
            notimestamps,
            mode,
        )
    }

    /// Sets the logits of the suppressed tokens to -10000 when `gen_len` tokens are there, the
    /// prompt included, and leaves the others alone.
    pub fn apply(&self, gen_len: usize, logits: &mut Vec<F32>)
        ensures
            final(logits)@.len() == old(logits)@.len(),
            forall|i: int|
                0 <= i < old(logits)@.len() ==> #[trigger] final(logits)@[i] == (if self.suppresses(
                    gen_len as int,
                    i,
                ) {
                    suppressed_logit()
                } else {
                    old(logits)@[i]
                }),
    {
        let ghost at_start = gen_len <= self.prompt_len;
        if gen_len <= self.prompt_len {
            suppress_id(logits, self.eot);
        }
        suppress_range(logits, self.sot as usize, self.notimestamps_id as usize);
        let ghost staged = logits@;
        let mut k: usize = 0;
        while k < self.ids.len()
            invariant
                k <= self.ids@.len(),
                logits@.len() == staged.len(),
                forall|i: int|
                    0 <= i < staged.len() ==> #[trigger] logits@[i] == (if exists|j: int|
                        0 <= j < k && #[trigger] self.ids@[j] == i {
                        suppressed_logit()
                    } else {
                        staged[i]
                    }),
            decreases self.ids@.len() - k,
        {
            let ghost before = logits@;
            suppress_id(logits, self.ids[k]);
            proof {
                assert forall|i: int| 0 <= i < staged.len() implies #[trigger] logits@[i] == (
                if exists|j: int| 0 <= j < k + 1 && #[trigger] self.ids@[j] == i {
                    suppressed_logit()
                } else {
                    staged[i]
                }) by {
                    assert(before[i] == before[i]);
                    if i == self.ids@[k as int] {
                        assert(self.ids@[k as int] == i);
                    }
                }
            }
            k = k + 1;
        }
        if self.notimestamps && logits.len() > self.notimestamps_id as usize {
            let last: usize = logits.len() - 1;
            suppress_range(logits, self.notimestamps_id as usize + 1, last);
        }
    }
}

/// Suppresses one token, if there is a logit for it.
fn suppress_id(logits: &mut Vec<F32>, token_id: u32)
    ensures
        final(logits)@.len() == old(logits)@.len(),
        forall|i: int|
            0 <= i < old(logits)@.len() ==> #[trigger] final(logits)@[i] == (if i == token_id {
                suppressed_logit()
            } else {
                old(logits)@[i]
            }),
{
    if (token_id as usize) < logits.len() {
        logits.set(token_id as usize, F32 { bits: 0xc61c_4000 });
    }
}

/// Suppresses the tokens from `first` to `last`, as far as there are logits for them.
fn suppress_range(logits: &mut Vec<F32>, first: usize, last: usize)
    ensures
        final(logits)@.len() == old(logits)@.len(),
        forall|i: int|
            0 <= i < old(logits)@.len() ==> #[trigger] final(logits)@[i] == (if first <= i <= last {
                suppressed_logit()
            } else {
                old(logits)@[i]
            }),
{
    let mut i: usize = first;
    while i <= last && i < logits.len()
        invariant
            first <= i,
            logits@.len() == old(logits)@.len(),
            forall|j: int|
                0 <= j < logits@.len() ==> #[trigger] logits@[j] == (if first <= j <= last && j < i {
                    suppressed_logit()
                } else {
                    old(logits)@[j]
                }),
        decreases logits@.len() - i,
    {
        logits.set(i, F32 { bits: 0xc61c_4000 });
        i = i + 1;
    }
}

} // verus!
