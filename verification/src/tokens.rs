//! The tokenizer: ids of special tokens, and text from ids.
use tokenizers::Tokenizer;
use vstd::prelude::*;

use crate::text::{quoted, quoted_text, with_text};
use crate::token_decoders::{
    all_take, decoder_steps, lemma_some_left, steps_of, steps_take, takes, texts_of,
};

verus! {

/// The tokenizer of a model, `tokenizers::Tokenizer`.
#[verifier::external_type_specification]
#[verifier::external_body]
pub struct ExTokenizer(Tokenizer);

/// The ids of a tokenizer's tokens, by their text.
pub uninterp spec fn vocabulary(tokenizer: Tokenizer) -> Map<Seq<char>, u32>;

/// The texts that a tokenizer makes of ids, with special tokens (false) or without (true). Ids
/// that it fails on have no text.
pub uninterp spec fn decodings(tokenizer: Tokenizer) -> Map<(Seq<u32>, bool), Seq<char>>;

/// The texts of a tokenizer's tokens, by their ids.
pub uninterp spec fn token_texts(tokenizer: Tokenizer) -> Map<u32, Seq<char>>;

/// The texts of a tokenizer's special tokens.
pub uninterp spec fn special_tokens(tokenizer: Tokenizer) -> Set<Seq<char>>;

/// The id that a tokenizer gives to a token.
pub open spec fn id_of(tokenizer: Tokenizer, token: Seq<char>) -> Option<u32> {
    if vocabulary(tokenizer).contains_key(token) {
        Some(vocabulary(tokenizer)[token])
    } else {
        None
    }
}

/// The tokens that go into a tokenizer's decoder for ids: those that it knows, without special ones
/// if they are to be left out.
pub open spec fn decoded_tokens(
    tokenizer: Tokenizer,
    ids: Seq<u32>,
    skip_special_tokens: bool,
) -> Seq<Seq<char>>
    decreases ids.len(),
{
    if ids.len() == 0 {
        Seq::empty()
    } else {
        let before = decoded_tokens(tokenizer, ids.drop_last(), skip_special_tokens);
        let text = token_texts(tokenizer)[ids.last()];
        if token_texts(tokenizer).contains_key(ids.last()) && !(skip_special_tokens
            && special_tokens(tokenizer).contains(text)) {
            before.push(text)
        } else {
            before
        }
    }
}

/// True where a tokenizer can be asked for the text of ids: its decoder takes their tokens.
pub open spec fn decodes(tokenizer: Tokenizer, ids: Seq<u32>, skip_special_tokens: bool) -> bool {
    all_take(steps_of(tokenizer), decoded_tokens(tokenizer, ids, skip_special_tokens))
}

/// The text of ids without special tokens; empty where the tokenizer fails.
pub open spec fn text_of(tokenizer: Tokenizer, ids: Seq<u32>) -> Seq<char> {
    if decodings(tokenizer).contains_key((ids, true)) {
        decodings(tokenizer)[(ids, true)]
    } else {
        Seq::empty()
    }
}

/// Looks a token up with `Tokenizer::token_to_id` of the crate `tokenizers`, which asks the added
/// tokens first and then the model: two lookups by text, so the answer depends on the tokenizer
/// and the text alone.
#[verifier::external_body]
pub(crate) fn token_to_id(tokenizer: &Tokenizer, token: &str) -> (id: Option<u32>)
    ensures
        id is Some <==> vocabulary(*tokenizer).contains_key(token@),
        id is Some ==> id->0 == vocabulary(*tokenizer)[token@],
{
    tokenizer.token_to_id(token)
}

/// Turns ids into text with `Tokenizer::decode` of the crate `tokenizers`: unknown ids, and special
/// tokens if asked, are left out, and the tokenizer's decoder joins the rest. The result depends on
/// the tokenizer and the arguments alone. What the decoder makes of the tokens is not stated. The
/// decoder `BPEDecoder` can panic on an empty list, `Strip` on a token that it would cut off more
/// of than there is, and `Replace` on what some regular expressions match; such lists are left out,
/// and so is every list for a `Replace` with a regular expression, for a `Strip` that cuts at the end
/// and does not come first, and for a `BPEDecoder` that may be left with an empty list.
#[verifier::external_body]
pub(crate) fn decode_ids(tokenizer: &Tokenizer, ids: &[u32], skip_special_tokens: bool) -> (text:
    Option<String>)
    requires
        decodes(*tokenizer, ids@, skip_special_tokens),
    ensures
        text is Some <==> decodings(*tokenizer).contains_key((ids@, skip_special_tokens)),
        text is Some ==> text->0@ == decodings(*tokenizer)[(ids@, skip_special_tokens)],
{
    tokenizer.decode(ids, skip_special_tokens).ok()
}

/// Gives the text of an id's token with `Tokenizer::id_to_token` of the crate `tokenizers`, which asks
/// the added tokens first and then the model: two lookups by id, so the answer depends on the
/// tokenizer and the id alone.
#[verifier::external_body]
fn id_to_token(tokenizer: &Tokenizer, id: u32) -> (token: Option<String>)
    ensures
        token is Some <==> token_texts(*tokenizer).contains_key(id),
        token is Some ==> token->0@ == token_texts(*tokenizer)[id],
{
    tokenizer.id_to_token(id)
}

/// Tells whether a text is that of a special token with `AddedVocabulary::is_special_token` of the
/// crate `tokenizers`: whether it is in the tokenizer's set of special tokens.
#[verifier::external_body]
fn is_special(tokenizer: &Tokenizer, token: &str) -> (special: bool)
    ensures
        special == special_tokens(*tokenizer).contains(token@),
{
    tokenizer.get_added_vocabulary().is_special_token(token)
}

/// The tokens that go into a tokenizer's decoder for ids, with special tokens (false) or without
/// (true).
pub fn tokens_to_decode(tokenizer: &Tokenizer, ids: &[u32], skip_special_tokens: bool) -> (tokens:
    Vec<String>)
    ensures
        texts_of(tokens@) == decoded_tokens(*tokenizer, ids@, skip_special_tokens),
{
    let mut tokens: Vec<String> = Vec::new();
    let mut i: usize = 0;
    assert(ids@.take(0) =~= Seq::<u32>::empty());
    assert(texts_of(tokens@) =~= Seq::<Seq<char>>::empty());
    while i < ids.len()
        invariant
            i <= ids@.len(),
            texts_of(tokens@) == decoded_tokens(
                *tokenizer,
                ids@.take(i as int),
                skip_special_tokens,
            ),
        decreases ids@.len() - i,
    {
        assert(ids@.take(i + 1).drop_last() =~= ids@.take(i as int));
        if let Some(token) = id_to_token(tokenizer, ids[i]) {
            if !skip_special_tokens || !is_special(tokenizer, token.as_str()) {
                let ghost before = tokens@;
                let ghost text = token@;
                tokens.push(token);
                assert(texts_of(tokens@) =~= texts_of(before).push(text));
            }
        }
        i = i + 1;
    }
    assert(ids@.take(i as int) =~= ids@);
    tokens
}

/// Whether a tokenizer can be asked for the text of ids.
pub fn can_decode(tokenizer: &Tokenizer, ids: &[u32], skip_special_tokens: bool) -> (can: bool)
    ensures
        can == decodes(*tokenizer, ids@, skip_special_tokens),
{
    let tokens = tokens_to_decode(tokenizer, ids, skip_special_tokens);
    steps_take(decoder_steps(tokenizer).as_slice(), tokens.as_slice())
}

proof fn lemma_decoded_tokens(
    tokenizer: Tokenizer,
    first: Seq<u32>,
    second: Seq<u32>,
    skip_special_tokens: bool,
)
    ensures
        decoded_tokens(tokenizer, first + second, skip_special_tokens) == decoded_tokens(
            tokenizer,
            first,
            skip_special_tokens,
        ) + decoded_tokens(tokenizer, second, skip_special_tokens),
    decreases second.len(),
{
    if second.len() == 0 {
        assert(first + second =~= first);
    } else {
        assert((first + second).drop_last() =~= first + second.drop_last());
        lemma_decoded_tokens(tokenizer, first, second.drop_last(), skip_special_tokens);
    }
    assert(decoded_tokens(tokenizer, first + second, skip_special_tokens) =~= decoded_tokens(
        tokenizer,
        first,
        skip_special_tokens,
    ) + decoded_tokens(tokenizer, second, skip_special_tokens));
}

/// A tokenizer that can be asked for the texts of two lists of ids can be asked for that of both
/// together.
pub proof fn joined_ids_decode(
    tokenizer: Tokenizer,
    first: Seq<u32>,
    second: Seq<u32>,
    skip_special_tokens: bool,
)
    requires
        decodes(tokenizer, first, skip_special_tokens),
        decodes(tokenizer, second, skip_special_tokens),
    ensures
        decodes(tokenizer, first + second, skip_special_tokens),
{
    lemma_decoded_tokens(tokenizer, first, second, skip_special_tokens);
    let steps = steps_of(tokenizer);
    let a = decoded_tokens(tokenizer, first, skip_special_tokens);
    let b = decoded_tokens(tokenizer, second, skip_special_tokens);
    assert forall|n: int| 0 <= n < steps.len() implies #[trigger] takes(steps, n, a + b) by {
        assert(takes(steps, n, a) && takes(steps, n, b));
        lemma_some_left(steps, n, a.len() as int, (a + b).len() as int);
        assert forall|k: int| 0 <= k < (a + b).len() implies (#[trigger] (a + b)[k]) == (if k
            < a.len() {
            a[k]
        } else {
            b[k - a.len()]
        }) by {}
    }
}

/// The text of ids without special tokens; empty where the tokenizer fails.
pub fn decode_text_or_empty(tokenizer: &Tokenizer, ids: &[u32]) -> (text: String)
    requires
        decodes(*tokenizer, ids@, true),
    ensures
        text@ == text_of(*tokenizer, ids@),
{
    match decode_ids(tokenizer, ids, true) {
        Some(text) => text,
        None => String::new(),
    }
}

/// What a tokenizer lacks.
#[derive(Clone, Debug)]
pub enum TokenizerError {
    /// A control token.
    Missing { token: String },
    /// The token of a language.
    MissingLanguage { token: String },
    /// The token of a task.
    MissingTask { token: String },
    /// A token that suppression needs.
    MissingRequired { token: String },
    /// Room for timestamps: the token before them has the greatest id.
    NoTimestamps,
}

impl TokenizerError {
    /// What the error says.
    pub open spec fn spec_message(&self) -> Seq<char> {
        match *self {
            TokenizerError::Missing { token } => "tokenizer missing "@ + token@,
            TokenizerError::MissingLanguage { token } => "tokenizer missing language token "@ + token@,
            TokenizerError::MissingTask { token } => "tokenizer missing task token "@ + token@,
            TokenizerError::MissingRequired { token } => "tokenizer is missing required token "@
                + quoted(token@),
            TokenizerError::NoTimestamps => "tokenizer has no timestamp tokens"@,
        }
    }

    /// What the error says.
    pub fn message(&self) -> (text: String)
        ensures
            text@ == self.spec_message(),
    {
        match self {
            TokenizerError::Missing { token } => with_text("tokenizer missing ", token.as_str()),
            TokenizerError::MissingLanguage { token } => with_text(
                "tokenizer missing language token ",
                token.as_str(),
            ),
            TokenizerError::MissingTask { token } => with_text(
                "tokenizer missing task token ",
                token.as_str(),
            ),
            TokenizerError::MissingRequired { token } => with_text(
                "tokenizer is missing required token ",
                quoted_text(token.as_str()).as_str(),
            ),
            TokenizerError::NoTimestamps => "tokenizer has no timestamp tokens".to_string(),
        }
    }
}

/// The text of a control token: a name between `<|` and `|>`.
pub open spec fn control_token(name: Seq<char>) -> Seq<char> {
    "<|"@ + name + "|>"@
}

/// The text of a control token.
pub fn control_token_text(name: &str) -> (token: String)
    ensures
        token@ == control_token(name@),
{
    with_text(with_text("<|", name).as_str(), "|>")
}

/// The prompt for ids of control tokens: start of transcript, language, task, and, if timestamps
/// are not wanted, the token that says so. All four tokens must be there.
pub open spec fn prompt_of(
    start: Option<u32>,
    lang: Option<u32>,
    task: Option<u32>,
    nots: Option<u32>,
    notimestamps: bool,
) -> Option<Seq<u32>> {
    if start is Some && lang is Some && task is Some && nots is Some {
        Some(
            if notimestamps {
                seq![start->0, lang->0, task->0, nots->0]
            } else {
                seq![start->0, lang->0, task->0]
            },
        )
    } else {
        None
    }
}

/// The error for control tokens of which one is missing: the first that is.
pub open spec fn prompt_error(
    error: TokenizerError,
    start: Option<u32>,
    lang: Option<u32>,
    task: Option<u32>,
    lang_name: Seq<char>,
    task_name: Seq<char>,
) -> bool {
    if start is None {
        error matches TokenizerError::Missing { token } && token@ == "<|startoftranscript|>"@
    } else if lang is None {
        error matches TokenizerError::MissingLanguage { token } && token@ == control_token(
            lang_name,
        )
    } else if task is None {
        error matches TokenizerError::MissingTask { token } && token@ == control_token(task_name)
    } else {
        error matches TokenizerError::Missing { token } && token@ == "<|notimestamps|>"@
    }
}

/// The prompt for ids of control tokens that were looked up; the names of the language and the task
/// serve to say what is missing.
pub fn assemble_prompt(
    start: Option<u32>,
    lang: Option<u32>,
    task: Option<u32>,
    nots: Option<u32>,
    notimestamps: bool,
    lang_name: &str,
    task_name: &str,
) -> (out: Result<Vec<u32>, TokenizerError>)
    ensures
        match prompt_of(start, lang, task, nots, notimestamps) {
            Some(prompt) => out is Ok && out->Ok_0@ == prompt,
            None => out is Err && prompt_error(
                out->Err_0,
                start,
                lang,
                task,
                lang_name@,
                task_name@,
            ),
        },
{
    let start: u32 = match start {
        Some(id) => id,
        None => return Err(
            TokenizerError::Missing { token: "<|startoftranscript|>".to_string() },
        ),
    };
    let lang: u32 = match lang {
        Some(id) => id,
        None => return Err(
            TokenizerError::MissingLanguage { token: control_token_text(lang_name) },
        ),
    };
    let task: u32 = match task {
        Some(id) => id,
        None => return Err(TokenizerError::MissingTask { token: control_token_text(task_name) }),
    };
    let nots: u32 = match nots {
        Some(id) => id,
        None => return Err(TokenizerError::Missing { token: "<|notimestamps|>".to_string() }),
    };
    let mut prompt: Vec<u32> = vec![start, lang, task];
    if notimestamps {
        prompt.push(nots);
    }
    assert(prompt@ =~= (if notimestamps {
        seq![start, lang, task, nots]
    } else {
        seq![start, lang, task]
    }));
    Ok(prompt)
}

/// The control prompt: `<|startoftranscript|>`, the language, the task, and `<|notimestamps|>` if
/// timestamps are not wanted.
pub fn control_prompt(tokenizer: &Tokenizer, lang: &str, task: &str, notimestamps: bool) -> (out: Result<
    Vec<u32>,
    TokenizerError,
>)
    ensures
        ({
            let start = id_of(*tokenizer, "<|startoftranscript|>"@);
            let lang_id = id_of(*tokenizer, control_token(lang@));
            let task_id = id_of(*tokenizer, control_token(task@));
            let nots = id_of(*tokenizer, "<|notimestamps|>"@);
            match prompt_of(start, lang_id, task_id, nots, notimestamps) {
                Some(prompt) => out is Ok && out->Ok_0@ == prompt,
                None => out is Err && prompt_error(
                    out->Err_0,
                    start,
                    lang_id,
                    task_id,
                    lang@,
                    task@,
                ),
            }
        }),
{
    let start = token_to_id(tokenizer, "<|startoftranscript|>");
    let lang_id = token_to_id(tokenizer, control_token_text(lang).as_str());
    let task_id = token_to_id(tokenizer, control_token_text(task).as_str());
    let nots = token_to_id(tokenizer, "<|notimestamps|>");
    assemble_prompt(start, lang_id, task_id, nots, notimestamps, lang, task)
}

/// The first timestamp token: the one behind `<|notimestamps|>`.
pub fn timestamp_begin(tokenizer: &Tokenizer) -> (out: Result<u32, TokenizerError>)
    ensures
        match id_of(*tokenizer, "<|notimestamps|>"@) {
            Some(id) => if id < u32::MAX {
                out is Ok && out->Ok_0 == id + 1
            } else {
                out == Err::<u32, TokenizerError>(TokenizerError::NoTimestamps)
            },
            None => out matches Err(TokenizerError::Missing { token }) && token@
                == "<|notimestamps|>"@,
        },
{
    match token_to_id(tokenizer, "<|notimestamps|>") {
        Some(id) => {
            if id == u32::MAX {
                return Err(TokenizerError::NoTimestamps);
            }
            Ok(id + 1)
        },
        None => Err(TokenizerError::Missing { token: "<|notimestamps|>".to_string() }),
    }
}

} // verus!
