//! The mathematical model of training: vocabularies and segmentations as
//! sequences of strings, and training as a recursive function on them.
//!
//! Ties between equally frequent pairs are broken towards the left: among the
//! pairs of highest frequency, the one whose first occurrence comes first in
//! the segmentation is merged.

use vstd::prelude::*;
use vstd::utf8::encode_utf8;
use crate::token::{MergeStepView, TokenView, TrainingView};

verus! {

/// A vocabulary is the sequence of its values in the order of their ids:
/// the value at index `i` has id `i`.
pub type Vocab = Seq<Seq<char>>;

/// The vocabulary after `value` has been seen: unchanged where it is already
/// known, else extended with it under the next id.
pub open spec fn learn(vocab: Vocab, value: Seq<char>) -> Vocab {
    if vocab.contains(value) {
        vocab
    } else {
        vocab.push(value)
    }
}

/// The vocabulary after each of `values` has been seen, from the first to
/// the last.
pub open spec fn learn_all(vocab: Vocab, values: Seq<Seq<char>>) -> Vocab
    decreases values.len(),
{
    if values.len() == 0 {
        vocab
    } else {
        learn(learn_all(vocab, values.drop_last()), values.last())
    }
}

/// The vocabulary of the distinct characters of `text`, in the order of their
/// first occurrence.
pub open spec fn seed_vocabulary(text: Seq<char>) -> Vocab
    decreases text.len(),
{
    if text.len() == 0 {
        Seq::empty()
    } else {
        learn(seed_vocabulary(text.drop_last()), seq![text.last()])
    }
}

/// The segmentation of `text` into single characters.
pub open spec fn char_values(text: Seq<char>) -> Seq<Seq<char>> {
    Seq::new(text.len(), |i: int| seq![text[i]])
}

/// The id of `value` in `vocab`: an index at which it stands.
pub open spec fn id_of(vocab: Vocab, value: Seq<char>) -> nat {
    choose|i: nat| i < vocab.len() && vocab[i as int] == value
}

/// The token that stands for `value` under `vocab`.
pub open spec fn token_of(vocab: Vocab, value: Seq<char>) -> TokenView {
    TokenView { id: id_of(vocab, value), value, byte_length: encode_utf8(value).len() }
}

/// The tokens that stand for `values` under `vocab`.
pub open spec fn tokens_of(vocab: Vocab, values: Seq<Seq<char>>) -> Seq<TokenView> {
    Seq::new(values.len(), |i: int| token_of(vocab, values[i]))
}

/// The vocabulary as a listing of `(value, id)`, ascending by id.
pub open spec fn listing(vocab: Vocab) -> Seq<(Seq<char>, nat)> {
    Seq::new(vocab.len(), |i: int| (vocab[i], i as nat))
}

/// Whether the adjacent pair at positions `i`, `i + 1` of `values` is `(a, b)`.
pub open spec fn pair_at(values: Seq<Seq<char>>, i: int, a: Seq<char>, b: Seq<char>) -> bool {
    0 <= i && i + 1 < values.len() && values[i] == a && values[i + 1] == b
}

/// The number of positions below `n` at which the pair `(a, b)` stands.
pub open spec fn pair_count_upto(values: Seq<Seq<char>>, a: Seq<char>, b: Seq<char>, n: int) -> nat
    decreases n,
{
    if n <= 0 {
        0
    } else {
        pair_count_upto(values, a, b, n - 1) + if pair_at(values, n - 1, a, b) {
            1nat
        } else {
            0nat
        }
    }
}

/// The frequency of the adjacent pair `(a, b)` in `values`: every adjacent
/// position counts once, overlapping ones too.
pub open spec fn pair_count(values: Seq<Seq<char>>, a: Seq<char>, b: Seq<char>) -> nat {
    pair_count_upto(values, a, b, values.len() - 1)
}

/// The frequency of the pair that stands at position `i`.
pub open spec fn count_at(values: Seq<Seq<char>>, i: int) -> nat {
    pair_count(values, values[i], values[i + 1])
}

/// Among the positions below `n`, the leftmost one whose pair has the highest
/// frequency.
pub open spec fn best_upto(values: Seq<Seq<char>>, n: int) -> int
    decreases n,
{
    if n <= 1 {
        0
    } else {
        let b = best_upto(values, n - 1);
        if count_at(values, n - 1) > count_at(values, b) {
            n - 1
        } else {
            b
        }
    }
}

/// The position of the pair to merge next: the leftmost position whose pair
/// has the highest frequency in `values`.
pub open spec fn best_position(values: Seq<Seq<char>>) -> int {
    best_upto(values, values.len() - 1)
}

/// One left-to-right pass that replaces each occurrence of `(a, b)` by
/// `a + b`.  Occurrences are consumed without overlap: after a replacement
/// the scan resumes behind the replaced pair.
pub open spec fn merge_pass(values: Seq<Seq<char>>, a: Seq<char>, b: Seq<char>) -> Seq<Seq<char>>
    decreases values.len(),
{
    if values.len() == 0 {
        Seq::empty()
    } else if pair_at(values, 0, a, b) {
        seq![a + b] + merge_pass(values.skip(2), a, b)
    } else {
        seq![values[0]] + merge_pass(values.skip(1), a, b)
    }
}

/// The number of replacements that `merge_pass` makes.
pub open spec fn merges_in_pass(values: Seq<Seq<char>>, a: Seq<char>, b: Seq<char>) -> nat
    decreases values.len(),
{
    if values.len() == 0 {
        0
    } else if pair_at(values, 0, a, b) {
        1 + merges_in_pass(values.skip(2), a, b)
    } else {
        merges_in_pass(values.skip(1), a, b)
    }
}

/// The concatenation of `values`, in order.
pub open spec fn joined(values: Seq<Seq<char>>) -> Seq<char>
    decreases values.len(),
{
    if values.len() == 0 {
        Seq::empty()
    } else {
        values[0] + joined(values.skip(1))
    }
}

/// The trace entry for the segmentation before any merge.
pub open spec fn initial_step(text: Seq<char>) -> MergeStepView {
    MergeStepView {
        pair: (Seq::empty(), Seq::empty()),
        merged: Seq::empty(),
        tokens: tokens_of(seed_vocabulary(text), char_values(text)),
        step_number: 0,
    }
}

/// The first string of the pair that is merged next in `values`.
pub open spec fn best_first(values: Seq<Seq<char>>) -> Seq<char> {
    values[best_position(values)]
}

/// The second string of the pair that is merged next in `values`.
pub open spec fn best_second(values: Seq<Seq<char>>) -> Seq<char> {
    values[best_position(values) + 1]
}

/// The vocabulary after the next merge.
pub open spec fn next_vocab(vocab: Vocab, values: Seq<Seq<char>>) -> Vocab {
    learn(vocab, best_first(values) + best_second(values))
}

/// The segmentation after the next merge.
pub open spec fn next_values(values: Seq<Seq<char>>) -> Seq<Seq<char>> {
    merge_pass(values, best_first(values), best_second(values))
}

/// The trace entry of the next merge, taken from `vocab` and `values` as
/// step `number`.
pub open spec fn next_step(vocab: Vocab, values: Seq<Seq<char>>, number: nat) -> MergeStepView {
    MergeStepView {
        pair: (best_first(values), best_second(values)),
        merged: best_first(values) + best_second(values),
        tokens: tokens_of(next_vocab(vocab, values), next_values(values)),
        step_number: number,
    }
}

/// Whether training goes on from a vocabulary of `vocab_len` values and a
/// segmentation of `tokens_len` tokens.
pub open spec fn goes_on(vocab_len: nat, tokens_len: nat, target: nat) -> bool {
    vocab_len < target && tokens_len > 1
}

/// Training from a given state: merges until the vocabulary has `target`
/// values or a single token is left, appending one entry to `history` per
/// merge.
pub open spec fn run(
    vocab: Vocab,
    values: Seq<Seq<char>>,
    target: nat,
    history: Seq<MergeStepView>,
) -> TrainingView
    decreases values.len(),
{
    if goes_on(vocab.len(), values.len(), target) {
        proof {
            lemma_next_values_shrink(values);
        }
        run(
            next_vocab(vocab, values),
            next_values(values),
            target,
            history.push(next_step(vocab, values, history.len())),
        )
    } else {
        TrainingView {
            final_tokens: tokens_of(vocab, values),
            merge_history: history,
            vocabulary: listing(vocab),
        }
    }
}

/// What training on `text` with the vocabulary bound `target` returns.
pub open spec fn trained(text: Seq<char>, target: nat) -> TrainingView {
    run(seed_vocabulary(text), char_values(text), target, seq![initial_step(text)])
}

/// The position that `best_upto` picks lies below `n`, no position below `n`
/// has a more frequent pair, and every position left of it has a strictly
/// less frequent one.
pub proof fn lemma_best_upto(values: Seq<Seq<char>>, n: int)
    requires
        1 <= n,
    ensures
        0 <= best_upto(values, n) < n,
        forall|q: int|
            0 <= q < n ==> #[trigger] count_at(values, q) <= count_at(values, best_upto(values, n)),
        forall|q: int|
            0 <= q < best_upto(values, n) ==> #[trigger] count_at(values, q) < count_at(
                values,
                best_upto(values, n),
            ),
    decreases n,
{
    if n > 1 {
        lemma_best_upto(values, n - 1);
    }
}

/// Counting up to a larger bound never gives less.
pub proof fn lemma_pair_count_monotone(
    values: Seq<Seq<char>>,
    a: Seq<char>,
    b: Seq<char>,
    m: int,
    n: int,
)
    requires
        m <= n,
    ensures
        pair_count_upto(values, a, b, m) <= pair_count_upto(values, a, b, n),
    decreases n - m,
{
    if m < n {
        lemma_pair_count_monotone(values, a, b, m, n - 1);
    }
}

/// A pair that stands at some position has a frequency of at least one.
pub proof fn lemma_count_at_positive(values: Seq<Seq<char>>, i: int)
    requires
        0 <= i,
        i + 1 < values.len(),
    ensures
        count_at(values, i) >= 1,
{
    let a = values[i];
    let b = values[i + 1];
    assert(pair_at(values, i, a, b));
    lemma_pair_count_monotone(values, a, b, 0, i);
    lemma_pair_count_monotone(values, a, b, i + 1, values.len() - 1);
}

/// A pass removes one token per replacement.
pub proof fn lemma_merge_pass_len(values: Seq<Seq<char>>, a: Seq<char>, b: Seq<char>)
    ensures
        merge_pass(values, a, b).len() + merges_in_pass(values, a, b) == values.len(),
    decreases values.len(),
{
    if values.len() == 0 {
    } else if pair_at(values, 0, a, b) {
        lemma_merge_pass_len(values.skip(2), a, b);
    } else {
        lemma_merge_pass_len(values.skip(1), a, b);
    }
}

/// A pass over a segmentation in which the pair occurs makes at least one
/// replacement.
pub proof fn lemma_merges_in_pass_positive(
    values: Seq<Seq<char>>,
    a: Seq<char>,
    b: Seq<char>,
    p: int,
)
    requires
        pair_at(values, p, a, b),
    ensures
        merges_in_pass(values, a, b) >= 1,
    decreases values.len(),
{
    if pair_at(values, 0, a, b) {
    } else {
        assert(pair_at(values.skip(1), p - 1, a, b));
        lemma_merges_in_pass_positive(values.skip(1), a, b, p - 1);
    }
}

/// The next merge of a segmentation of two or more tokens leaves fewer
/// tokens, and at least one.
pub proof fn lemma_next_values_shrink(values: Seq<Seq<char>>)
    requires
        values.len() > 1,
    ensures
        1 <= next_values(values).len() < values.len(),
        next_values(values).len() + merges_in_pass(values, best_first(values), best_second(values))
            == values.len(),
        merges_in_pass(values, best_first(values), best_second(values)) >= 1,
{
    lemma_best_upto(values, values.len() - 1);
    let p = best_position(values);
    assert(pair_at(values, p, best_first(values), best_second(values)));
    lemma_merges_in_pass_positive(values, best_first(values), best_second(values), p);
    lemma_merge_pass_len(values, best_first(values), best_second(values));
    lemma_merge_pass_nonempty(values, best_first(values), best_second(values));
}

/// A pass over a segmentation that is not empty leaves one that is not empty.
pub proof fn lemma_merge_pass_nonempty(values: Seq<Seq<char>>, a: Seq<char>, b: Seq<char>)
    requires
        values.len() > 0,
    ensures
        merge_pass(values, a, b).len() > 0,
{
}

} // verus!
