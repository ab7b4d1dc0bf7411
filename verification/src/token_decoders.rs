//! The decoders of a tokenizer: which tokens they make text of.
use tokenizers::decoders::DecoderWrapper;
use tokenizers::Tokenizer;
use vstd::prelude::*;

use crate::text::chars_of;

verus! {

/// A part of a tokenizer's decoder, `tokenizers::decoders::DecoderWrapper`.
#[verifier::external_type_specification]
#[verifier::external_body]
pub struct ExDecoderWrapper(DecoderWrapper);

/// What a decoder does with a list of tokens.
#[derive(Clone, Copy, Debug, PartialEq, Eq, Structural)]
pub enum DecoderStep {
    Bpe,
    ByteLevel,
    WordPiece,
    Metaspace,
    Ctc,
    /// It hands the list through several decoders, one behind the other.
    Sequence,
    /// It replaces a text (`literal`), or what a regular expression matches.
    Replace { literal: bool },
    Fuse,
    /// It cuts `content` off a token, up to so many times at its start and at its end.
    Strip { content: char, start: usize, stop: usize },
    ByteFallback,
}

/// What a decoder is made of.
pub enum DecoderTree {
    One { step: DecoderStep },
    Several { parts: Seq<DecoderTree> },
}

/// What a decoder is made of.
pub uninterp spec fn tree_of(decoder: DecoderWrapper) -> DecoderTree;

/// What the decoder of a tokenizer is made of, if it has one.
pub uninterp spec fn decoder_of(tokenizer: Tokenizer) -> Option<DecoderTree>;

/// What decoders are made of, each by itself.
pub open spec fn trees_of(decoders: Seq<DecoderWrapper>) -> Seq<DecoderTree> {
    decoders.map_values(|d: DecoderWrapper| tree_of(d))
}

/// The single steps of a decoder, in order.
pub open spec fn steps_in(tree: DecoderTree) -> Seq<DecoderStep>
    decreases tree,
{
    match tree {
        DecoderTree::One { step } => seq![step],
        DecoderTree::Several { parts } => steps_in_parts(parts),
    }
}

/// The single steps of decoders, one behind the other.
pub open spec fn steps_in_parts(parts: Seq<DecoderTree>) -> Seq<DecoderStep>
    decreases parts,
{
    if parts.len() == 0 {
        Seq::empty()
    } else {
        steps_in_parts(parts.drop_last()) + steps_in(parts.last())
    }
}

/// The single steps by which a tokenizer makes text of tokens.
pub open spec fn steps_of(tokenizer: Tokenizer) -> Seq<DecoderStep> {
    match decoder_of(tokenizer) {
        Some(tree) => steps_in(tree),
        None => Seq::empty(),
    }
}

/// Gives the decoder of a tokenizer by `Tokenizer::get_decoder` of the crate `tokenizers`; what the
/// tokenizer runs its tokens through is this decoder, or nothing where there is none.
#[verifier::external_body]
fn whole_decoder(tokenizer: &Tokenizer) -> (decoder: Option<&DecoderWrapper>)
    ensures
        decoder is None ==> decoder_of(*tokenizer) is None,
        decoder is Some ==> decoder_of(*tokenizer) == Some(tree_of(*decoder->0)),
{
    tokenizer.get_decoder()
}

/// Gives the parts of a decoder that is a sequence by `Sequence::get_decoders` of the crate
/// `tokenizers`, and nothing for any other decoder: the parts are what the sequence is made of.
#[verifier::external_body]
fn sequence_parts(decoder: &DecoderWrapper) -> (parts: Option<&[DecoderWrapper]>)
    ensures
        parts is Some <==> tree_of(*decoder) is Several,
        parts is Some ==> tree_of(*decoder)->parts == trees_of(parts->0@),
{
    match decoder {
        DecoderWrapper::Sequence(sequence) => Some(sequence.get_decoders()),
        _ => None,
    }
}

/// Tells what a decoder does: which variant of the enum `DecoderWrapper` of the crate `tokenizers`
/// it is, with the fields of a `Strip`. The pattern of a `Replace` is a private field; that it is a
/// text and no regular expression is seen from the form that `serde_json::to_value` gives it, in
/// which the pattern is an object with the one key `String` or `Regex`.
#[verifier::external_body]
fn decoder_step(decoder: &DecoderWrapper) -> (step: DecoderStep)
    ensures
        step == DecoderStep::Sequence <==> tree_of(*decoder) is Several,
        step != DecoderStep::Sequence ==> tree_of(*decoder) == (DecoderTree::One { step }),
{
    match decoder {
        DecoderWrapper::BPE(_) => DecoderStep::Bpe,
        DecoderWrapper::ByteLevel(_) => DecoderStep::ByteLevel,
        DecoderWrapper::WordPiece(_) => DecoderStep::WordPiece,
        DecoderWrapper::Metaspace(_) => DecoderStep::Metaspace,
        DecoderWrapper::CTC(_) => DecoderStep::Ctc,
        DecoderWrapper::Sequence(_) => DecoderStep::Sequence,
        DecoderWrapper::Replace(r) => DecoderStep::Replace {
            literal: serde_json::to_value(r).is_ok_and(|v| v["pattern"]["String"].is_string()),
        },
        DecoderWrapper::Fuse(_) => DecoderStep::Fuse,
        DecoderWrapper::Strip(s) => DecoderStep::Strip { content: s.content, start: s.start, stop: s.stop },
        DecoderWrapper::ByteFallback(_) => DecoderStep::ByteFallback,
    }
}

/// Appends the single steps of a decoder.
fn push_steps(decoder: &DecoderWrapper, steps: &mut Vec<DecoderStep>)
    ensures
        final(steps)@ == old(steps)@ + steps_in(tree_of(*decoder)),
    decreases tree_of(*decoder),
{
    match sequence_parts(decoder) {
        None => {
            let ghost before = steps@;
            let step = decoder_step(decoder);
            steps.push(step);
            assert(steps@ =~= before + seq![step]);
        },
        Some(parts) => {
            let ghost before = steps@;
            let ghost trees = trees_of(parts@);
            let mut i: usize = 0;
            assert(trees.take(0) =~= Seq::<DecoderTree>::empty());
            assert(steps@ =~= before + steps_in_parts(trees.take(0)));
            while i < parts.len()
                invariant
                    i <= parts@.len(),
                    trees == trees_of(parts@),
                    tree_of(*decoder) is Several,
                    tree_of(*decoder)->parts == trees,
                    steps@ == before + steps_in_parts(trees.take(i as int)),
                decreases parts@.len() - i,
            {
                assert(trees[i as int] == tree_of(parts@[i as int]));
                assert(trees.take(i + 1).drop_last() =~= trees.take(i as int));
                assert(trees.take(i + 1).last() == trees[i as int]);
                assert(decreases_to!(tree_of(*decoder) => tree_of(*decoder)->parts));
                assert(decreases_to!(trees => trees[i as int]));
                push_steps(&parts[i], steps);
                assert(steps@ =~= before + steps_in_parts(trees.take(i + 1)));
                i = i + 1;
            }
            assert(trees.take(i as int) =~= trees);
        },
    }
}

/// The single steps by which a tokenizer makes text of tokens.
pub fn decoder_steps(tokenizer: &Tokenizer) -> (steps: Vec<DecoderStep>)
    ensures
        steps@ == steps_of(*tokenizer),
{
    let mut steps: Vec<DecoderStep> = Vec::new();
    if let Some(decoder) = whole_decoder(tokenizer) {
        push_steps(decoder, &mut steps);
    }
    assert(steps@ =~= steps_of(*tokenizer));
    steps
}

////////////////////////////////////////////////////////////////////////////////
// What the steps take
////////////////////////////////////////////////////////////////////////////////

/// True of a token that can be cut at both ends: what is cut off at the end is there, and what is
/// cut off at the start does not reach into it.
pub open spec fn can_strip(token: Seq<char>, content: char, start: int, stop: int) -> bool {
    ||| stop == 0
    ||| exists|i: int| 0 <= i < token.len() && #[trigger] token[i] != content
    ||| stop <= token.len() && (if start < token.len() {
        start
    } else {
        token.len() as int
    }) <= token.len() - stop
}

/// True where the list is known not to be empty after `n` steps, for a list of `len` tokens: two
/// kinds of steps always leave one token, and one kind can drop them all.
pub open spec fn some_left(steps: Seq<DecoderStep>, n: int, len: int) -> bool
    decreases n,
{
    if n <= 0 {
        len > 0
    } else {
        match steps[n - 1] {
            DecoderStep::ByteLevel => true,
            DecoderStep::Fuse => true,
            DecoderStep::Ctc => false,
            _ => some_left(steps, n - 1, len),
        }
    }
}

/// More tokens do not leave fewer.
pub proof fn lemma_some_left(steps: Seq<DecoderStep>, n: int, len: int, more: int)
    requires
        len <= more,
    ensures
        some_left(steps, n, len) ==> some_left(steps, n, more),
    decreases n,
{
    if n > 0 {
        lemma_some_left(steps, n - 1, len, more);
    }
}

/// True where step `n` takes what the steps before it make of the tokens. What these make of a
/// token's text is not looked at; the first step has the tokens themselves.
pub open spec fn takes(steps: Seq<DecoderStep>, n: int, tokens: Seq<Seq<char>>) -> bool {
    match steps[n] {
        DecoderStep::Bpe => some_left(steps, n, tokens.len() as int),
        DecoderStep::Replace { literal } => literal,
        DecoderStep::Strip { content, start, stop } => stop == 0 || (n == 0 && forall|k: int|
            0 <= k < tokens.len() ==> can_strip(
                #[trigger] tokens[k],
                content,
                start as int,
                stop as int,
            )),
        DecoderStep::Sequence => false,
        _ => true,
    }
}

/// True where all steps take what they get.
pub open spec fn all_take(steps: Seq<DecoderStep>, tokens: Seq<Seq<char>>) -> bool {
    forall|n: int| 0 <= n < steps.len() ==> #[trigger] takes(steps, n, tokens)
}

/// The texts of strings.
pub open spec fn texts_of(strings: Seq<String>) -> Seq<Seq<char>> {
    strings.map_values(|s: String| s@)
}

/// Whether a token can be cut at both ends.
pub fn is_strippable(token: &str, content: char, start: usize, stop: usize) -> (can: bool)
    ensures
        can == can_strip(token@, content, start as int, stop as int),
{
    if stop == 0 {
        return true;
    }
    let chars = chars_of(token);
    let mut i: usize = 0;
    while i < chars.len()
        invariant
            i <= chars@.len(),
            chars@ == token@,
            stop > 0,
            forall|j: int| 0 <= j < i ==> #[trigger] token@[j] == content,
        decreases chars@.len() - i,
    {
        if chars[i] != content {
            assert(token@[i as int] != content);
            return true;
        }
        i = i + 1;
    }
    let cut: usize = if start < chars.len() {
        start
    } else {
        chars.len()
    };
    stop <= chars.len() && cut <= chars.len() - stop
}

/// Whether all steps take what they get, for a tokenizer's steps and the tokens that go in.
pub fn steps_take(steps: &[DecoderStep], tokens: &[String]) -> (take: bool)
    ensures
        take == all_take(steps@, texts_of(tokens@)),
{
    let ghost texts = texts_of(tokens@);
    let mut some: bool = tokens.len() > 0;
    let mut n: usize = 0;
    while n < steps.len()
        invariant
            n <= steps@.len(),
            texts == texts_of(tokens@),
            some == some_left(steps@, n as int, texts.len() as int),
            forall|m: int| 0 <= m < n ==> #[trigger] takes(steps@, m, texts),
        decreases steps@.len() - n,
    {
        let step = steps[n];
        let taken: bool = match step {
            DecoderStep::Bpe => some,
            DecoderStep::Replace { literal } => literal,
            DecoderStep::Strip { content, start, stop } => stop == 0 || (n == 0 && all_strippable(
                tokens,
                content,
                start,
                stop,
            )),
            DecoderStep::Sequence => false,
            _ => true,
        };
        assert(taken == takes(steps@, n as int, texts));
        if !taken {
            return false;
        }
        some = match step {
            DecoderStep::ByteLevel => true,
            DecoderStep::Fuse => true,
            DecoderStep::Ctc => false,
            _ => some,
        };
        n = n + 1;
    }
    true
}

fn all_strippable(tokens: &[String], content: char, start: usize, stop: usize) -> (can: bool)
    ensures
        can == forall|k: int|
            0 <= k < tokens@.len() ==> can_strip(
                #[trigger] texts_of(tokens@)[k],
                content,
                start as int,
                stop as int,
            ),
{
    let mut i: usize = 0;
    while i < tokens.len()
        invariant
            i <= tokens@.len(),
            forall|k: int|
                0 <= k < i ==> can_strip(
                    #[trigger] texts_of(tokens@)[k],
                    content,
                    start as int,
                    stop as int,
                ),
        decreases tokens@.len() - i,
    {
        assert(texts_of(tokens@)[i as int] == tokens@[i as int]@);
        if !is_strippable(tokens[i].as_str(), content, start, stop) {
            return false;
        }
        i = i + 1;
    }
    true
}

} // verus!
