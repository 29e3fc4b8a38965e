//! The training engine: the executable counterpart of `model`.

use vstd::prelude::*;
use vstd::string::*;
use vstd::utf8::encode_utf8;
use crate::laws::{lemma_trained, result_ok};
use crate::model::{
    best_position, best_upto, char_values, count_at, initial_step, lemma_next_values_shrink,
    merge_pass, next_step, pair_at, pair_count, pair_count_upto, run, seed_vocabulary, tokens_of,
    trained,
};
use crate::token::{
    clone_tokens, step_views, token_values, token_views, MergeStep, Token, TrainingResult,
};
use crate::vocabulary::{
    lemma_learn_no_duplicates, lemma_tokens_ok, token_ok, tokens_ok, Vocabulary,
};

verus! {

/// The training engine.  It holds no state: every call of `train` works on
/// data of its own.
pub struct BPEEngine;

/// The length of `value` in bytes of UTF-8.
pub fn byte_length(value: &String) -> (n: usize)
    ensures
        n == encode_utf8(value@).len(),
{
    value.as_str().as_bytes().len()
}

/// The vocabulary of the characters of `text` and its segmentation into
/// single characters.
pub fn initial_state(text: &str) -> (state: (Vocabulary, Vec<Token>))
    ensures
        state.0.wf(),
        state.0@ == seed_vocabulary(text@),
        token_values(state.1@) == char_values(text@),
        tokens_ok(state.0@, state.1@),
        token_views(state.1@) == tokens_of(seed_vocabulary(text@), char_values(text@)),
{
    let n = text.unicode_len();
    let mut vocabulary = Vocabulary::new();
    let mut tokens: Vec<Token> = Vec::new();
    let mut i: usize = 0;
    while i < n
        invariant
            n == text@.len(),
            i <= n,
            vocabulary.wf(),
            vocabulary@ == seed_vocabulary(text@.take(i as int)),
            tokens@.len() == i,
            token_values(tokens@) == char_values(text@.take(i as int)),
            tokens_ok(vocabulary@, tokens@),
        decreases n - i,
    {
        let value = text.substring_char(i, i + 1).to_owned();
        assert(value@ =~= seq![text@[i as int]]);
        proof {
            lemma_learn_no_duplicates(vocabulary@, value@);
            assert(text@.take(i + 1).drop_last() =~= text@.take(i as int));
            assert(text@.take(i + 1).last() == text@[i as int]);
        }
        let ghost before = token_values(tokens@);
        let id = vocabulary.intern(&value);
        let length = byte_length(&value);
        tokens.push(Token { id, value, byte_length: length });
        proof {
            assert(token_values(tokens@) =~= before.push(seq![text@[i as int]]));
            assert(char_values(text@.take(i + 1)) =~= char_values(text@.take(i as int)).push(
                seq![text@[i as int]],
            ));
        }
        i += 1;
    }
    proof {
        assert(text@.take(n as int) =~= text@);
        lemma_tokens_ok(vocabulary@, tokens@);
    }
    (vocabulary, tokens)
}

/// The frequency of the adjacent pair `(first, second)` in `tokens`.
pub fn count_pair(tokens: &Vec<Token>, first: &String, second: &String) -> (count: usize)
    ensures
        count == pair_count(token_values(tokens@), first@, second@),
{
    if tokens.len() < 2 {
        return 0;
    }
    let last = tokens.len() - 1;
    let mut count: usize = 0;
    let mut i: usize = 0;
    while i < last
        invariant
            last + 1 == tokens.len(),
            i <= last,
            count <= i,
            count == pair_count_upto(token_values(tokens@), first@, second@, i as int),
        decreases last - i,
    {
        if tokens[i].value == *first && tokens[i + 1].value == *second {
            count += 1;
        }
        i += 1;
    }
    count
}

/// The position of the pair to merge next: the leftmost one among the most
/// frequent.
pub fn select_pair(tokens: &Vec<Token>) -> (position: usize)
    requires
        tokens.len() >= 2,
    ensures
        position == best_position(token_values(tokens@)),
        position + 1 < tokens.len(),
{
    let last = tokens.len() - 1;
    let mut best: usize = 0;
    let mut best_count = count_pair(tokens, &tokens[0].value, &tokens[1].value);
    let mut i: usize = 1;
    while i < last
        invariant
            last + 1 == tokens.len(),
            1 <= i <= last,
            best < i,
            best == best_upto(token_values(tokens@), i as int),
            best_count == count_at(token_values(tokens@), best as int),
        decreases last - i,
    {
        let count = count_pair(tokens, &tokens[i].value, &tokens[i + 1].value);
        if count > best_count {
            best = i;
            best_count = count;
        }
        i += 1;
    }
    best
}

/// One pass over `tokens` that replaces each occurrence of the pair
/// `(first, second)`, taken from the left without overlap, by a copy of
/// `merged`.
pub fn apply_merge(
    vocabulary: &Vocabulary,
    tokens: &Vec<Token>,
    first: &String,
    second: &String,
    merged: &Token,
) -> (merged_tokens: Vec<Token>)
    requires
        vocabulary.wf(),
        merged.value@ == first@ + second@,
        token_ok(vocabulary@, *merged),
        tokens_ok(vocabulary@, tokens@),
    ensures
        token_values(merged_tokens@) == merge_pass(token_values(tokens@), first@, second@),
        tokens_ok(vocabulary@, merged_tokens@),
        token_views(merged_tokens@) == tokens_of(
            vocabulary@,
            merge_pass(token_values(tokens@), first@, second@),
        ),
{
    let ghost values = token_values(tokens@);
    let mut out: Vec<Token> = Vec::new();
    let mut i: usize = 0;
    proof {
        assert(values.skip(0) =~= values);
        assert(token_values(out@) + merge_pass(values, first@, second@) =~= merge_pass(
            values,
            first@,
            second@,
        ));
    }
    while i < tokens.len()
        invariant
            i <= tokens.len(),
            values == token_values(tokens@),
            merged.value@ == first@ + second@,
            token_ok(vocabulary@, *merged),
            tokens_ok(vocabulary@, tokens@),
            tokens_ok(vocabulary@, out@),
            token_values(out@) + merge_pass(values.skip(i as int), first@, second@) == merge_pass(
                values,
                first@,
                second@,
            ),
        decreases tokens.len() - i,
    {
        let ghost before = token_values(out@);
        let ghost rest = values.skip(i as int);
        if i < tokens.len() - 1 && tokens[i].value == *first && tokens[i + 1].value == *second {
            out.push(merged.clone());
            proof {
                assert(pair_at(rest, 0, first@, second@));
                assert(rest.skip(2) =~= values.skip(i + 2));
                assert(token_values(out@) =~= before + seq![first@ + second@]);
                assert(token_values(out@) + merge_pass(values.skip(i + 2), first@, second@)
                    =~= before + merge_pass(rest, first@, second@));
            }
            i += 2;
        } else {
            out.push(tokens[i].clone());
            proof {
                assert(!pair_at(rest, 0, first@, second@));
                assert(rest.skip(1) =~= values.skip(i + 1));
                assert(token_values(out@) =~= before + seq![values[i as int]]);
                assert(token_values(out@) + merge_pass(values.skip(i + 1), first@, second@)
                    =~= before + merge_pass(rest, first@, second@));
            }
            i += 1;
        }
    }
    proof {
        assert(token_values(out@) + Seq::<Seq<char>>::empty() =~= token_values(out@));
        lemma_tokens_ok(vocabulary@, out@);
    }
    out
}

impl BPEEngine {
    /// A training engine.
    pub fn new() -> (engine: Self) {
        BPEEngine
    }

    /// Trains on `text` until the vocabulary holds `vocab_size` values or a
    /// single token is left, and returns the final segmentation, the trace
    /// of all merges, and the vocabulary ascending by id.
    pub fn train(&self, text: &str, vocab_size: usize) -> (result: TrainingResult)
        ensures
            result@ == trained(text@, vocab_size as nat),
            result_ok(text@, vocab_size as nat, result@),
    {
        let (mut vocabulary, mut tokens) = initial_state(text);
        let ghost target = vocab_size as nat;
        let ghost start = tokens@.len();
        assert(start == tokens.len());
        let mut merge_history: Vec<MergeStep> = Vec::new();
        let mut step_number: usize = 0;
        merge_history.push(
            MergeStep {
                pair: (String::new(), String::new()),
                merged: String::new(),
                tokens: clone_tokens(&tokens),
                step_number: 0,
            },
        );
        assert(step_views(merge_history@) =~= seq![initial_step(text@)]);
        while vocabulary.len() < vocab_size && tokens.len() > 1
            invariant
                target == vocab_size as nat,
                vocabulary.wf(),
                tokens_ok(vocabulary@, tokens@),
                merge_history@.len() == step_number + 1,
                step_number + tokens@.len() <= start <= usize::MAX,
                run(vocabulary@, token_values(tokens@), target, step_views(merge_history@))
                    == trained(text@, target),
            decreases tokens@.len(),
        {
            let ghost values = token_values(tokens@);
            let ghost old_vocab = vocabulary@;
            let ghost old_history = step_views(merge_history@);
            let position = select_pair(&tokens);
            let first = tokens[position].value.clone();
            let second = tokens[position + 1].value.clone();
            let value = first.clone().concat(second.as_str());
            let id = vocabulary.intern(&value);
            let length = byte_length(&value);
            let merged = Token { id, value, byte_length: length };
            proof {
                lemma_learn_no_duplicates(old_vocab, merged.value@);
                assert(tokens_ok(vocabulary@, tokens@)) by {
                    assert forall|i: int| 0 <= i < tokens@.len() implies token_ok(
                        vocabulary@,
                        #[trigger] tokens@[i],
                    ) by {
                        assert(token_ok(old_vocab, tokens@[i]));
                    }
                }
            }
            let merged_tokens = apply_merge(&vocabulary, &tokens, &first, &second, &merged);
            proof {
                lemma_next_values_shrink(values);
                lemma_tokens_ok(vocabulary@, merged_tokens@);
            }
            step_number += 1;
            merge_history.push(
                MergeStep {
                    pair: (first, second),
                    merged: merged.value,
                    tokens: clone_tokens(&merged_tokens),
                    step_number,
                },
            );
            tokens = merged_tokens;
            assert(step_views(merge_history@) =~= old_history.push(
                next_step(old_vocab, values, old_history.len()),
            ));
        }
        proof {
            lemma_tokens_ok(vocabulary@, tokens@);
            lemma_trained(text@, target);
        }
        TrainingResult { final_tokens: tokens, merge_history, vocabulary: vocabulary.entries() }
    }
}

impl Default for BPEEngine {
    fn default() -> (engine: Self) {
        BPEEngine::new()
    }
}

} // verus!
