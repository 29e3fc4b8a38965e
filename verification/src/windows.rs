//! Runs of consecutive tokens, and why a merge always creates a value that
//! the vocabulary does not hold yet.
//!
//! Two facts hold of every segmentation that training reaches.  Any two runs
//! of consecutive tokens that spell the same string consist of the same
//! tokens; and no run of two or more tokens spells a value of the
//! vocabulary.  The pair that is merged next is such a run, so its
//! concatenation is new.

use vstd::prelude::*;
use crate::laws::{lemma_joined_chars, lemma_joined_merge_pass};
use crate::model::{
    best_first, best_position, best_second, char_values, joined, learn, lemma_best_upto,
    lemma_merge_pass_len, merge_pass, next_values, next_vocab, pair_at, seed_vocabulary, Vocab,
};

verus! {

/// Whether any two runs of consecutive tokens of `values` that spell the same
/// string consist of the same tokens.
pub open spec fn consistent(values: Seq<Seq<char>>) -> bool {
    forall|i: int, j: int, k: int, l: int|
        0 <= i < j <= values.len() && 0 <= k < l <= values.len() && joined(
            #[trigger] values.subrange(i, j),
        ) == joined(#[trigger] values.subrange(k, l)) ==> values.subrange(i, j) == values.subrange(
            k,
            l,
        )
}

/// Whether no run of two or more consecutive tokens of `values` spells a
/// value of `vocab`.
pub open spec fn unmerged(vocab: Vocab, values: Seq<Seq<char>>) -> bool {
    forall|i: int, j: int|
        0 <= i && i + 2 <= j <= values.len() ==> !vocab.contains(
            joined(#[trigger] values.subrange(i, j)),
        )
}

/// The first `n` tokens that a pass leaves are what the pass leaves of some
/// first tokens of its input.
pub proof fn lemma_prefix_of_pass(values: Seq<Seq<char>>, a: Seq<char>, b: Seq<char>, n: int) -> (m:
    int)
    requires
        0 <= n <= merge_pass(values, a, b).len(),
    ensures
        0 <= m <= values.len(),
        merge_pass(values.take(m), a, b) == merge_pass(values, a, b).take(n),
    decreases values.len(),
{
    if n == 0 {
        assert(values.take(0) =~= Seq::<Seq<char>>::empty());
        assert(merge_pass(values, a, b).take(0) =~= Seq::<Seq<char>>::empty());
        0
    } else {
        let step: int = if pair_at(values, 0, a, b) { 2 } else { 1 };
        let rest = values.skip(step);
        let m0 = lemma_prefix_of_pass(rest, a, b, n - 1);
        let m = m0 + step;
        assert(values.take(m).skip(step) =~= rest.take(m0));
        assert(pair_at(values.take(m), 0, a, b) == pair_at(values, 0, a, b));
        assert(merge_pass(values.take(m), a, b) =~= merge_pass(values, a, b).take(n));
        m
    }
}

/// Every run of tokens that a pass leaves is what the pass leaves of some
/// run of tokens of its input.
pub proof fn lemma_window_of_pass(
    values: Seq<Seq<char>>,
    a: Seq<char>,
    b: Seq<char>,
    i: int,
    j: int,
) -> (w: (int, int))
    requires
        0 <= i <= j <= merge_pass(values, a, b).len(),
    ensures
        0 <= w.0 <= w.1 <= values.len(),
        merge_pass(values.subrange(w.0, w.1), a, b) == merge_pass(values, a, b).subrange(i, j),
    decreases values.len(),
{
    if i == 0 {
        let m = lemma_prefix_of_pass(values, a, b, j);
        assert(values.subrange(0, m) =~= values.take(m));
        assert(merge_pass(values, a, b).subrange(0, j) =~= merge_pass(values, a, b).take(j));
        (0, m)
    } else {
        let step: int = if pair_at(values, 0, a, b) { 2 } else { 1 };
        let rest = values.skip(step);
        let w0 = lemma_window_of_pass(rest, a, b, i - 1, j - 1);
        assert(rest.subrange(w0.0, w0.1) =~= values.subrange(w0.0 + step, w0.1 + step));
        assert(merge_pass(values, a, b).subrange(i, j) =~= merge_pass(rest, a, b).subrange(
            i - 1,
            j - 1,
        ));
        (w0.0 + step, w0.1 + step)
    }
}

/// A pass over a consistent segmentation leaves a consistent one.
pub proof fn lemma_pass_keeps_consistent(values: Seq<Seq<char>>, a: Seq<char>, b: Seq<char>)
    requires
        consistent(values),
    ensures
        consistent(merge_pass(values, a, b)),
{
    let out = merge_pass(values, a, b);
    assert forall|i: int, j: int, k: int, l: int|
        0 <= i < j <= out.len() && 0 <= k < l <= out.len() && joined(
            #[trigger] out.subrange(i, j),
        ) == joined(#[trigger] out.subrange(k, l)) implies out.subrange(i, j) == out.subrange(
        k,
        l,
    ) by {
        let w1 = lemma_window_of_pass(values, a, b, i, j);
        let w2 = lemma_window_of_pass(values, a, b, k, l);
        let run1 = values.subrange(w1.0, w1.1);
        let run2 = values.subrange(w2.0, w2.1);
        lemma_joined_merge_pass(run1, a, b);
        lemma_joined_merge_pass(run2, a, b);
        assert(out.subrange(i, j).len() > 0);
        assert(out.subrange(k, l).len() > 0);
        assert(w1.0 < w1.1);
        assert(w2.0 < w2.1);
        assert(run1 == run2);
    }
}

/// Two tokens in a row spell their concatenation.
pub proof fn lemma_joined_pair(a: Seq<char>, b: Seq<char>)
    ensures
        joined(seq![a, b]) == a + b,
        merge_pass(seq![a, b], a, b) == seq![a + b],
{
    let pair = seq![a, b];
    let single = seq![b];
    let none = Seq::<Seq<char>>::empty();
    assert(pair.skip(1) =~= single);
    assert(single.skip(1) =~= none);
    assert(joined(none) =~= Seq::<char>::empty());
    assert(joined(single) == single[0] + joined(none));
    assert(joined(single) =~= b);
    assert(joined(pair) == pair[0] + joined(single));
    assert(pair_at(pair, 0, a, b));
    assert(pair.skip(2) =~= none);
    assert(merge_pass(none, a, b) =~= none);
    assert(merge_pass(pair, a, b) == seq![a + b] + merge_pass(none, a, b));
    assert(merge_pass(pair, a, b) =~= seq![a + b]);
}

/// Where no run of two or more tokens spells a value of the vocabulary, the
/// concatenation of the pair that is merged next is new to it.
pub proof fn lemma_merged_is_new(vocab: Vocab, values: Seq<Seq<char>>)
    requires
        unmerged(vocab, values),
        values.len() >= 2,
    ensures
        !vocab.contains(best_first(values) + best_second(values)),
        next_vocab(vocab, values) == vocab.push(best_first(values) + best_second(values)),
{
    let p = best_position(values);
    lemma_best_upto(values, values.len() - 1);
    let run = values.subrange(p, p + 2);
    assert(run =~= seq![best_first(values), best_second(values)]);
    lemma_joined_pair(best_first(values), best_second(values));
}

/// A merge leads from a consistent segmentation, no run of which spells a
/// value of the vocabulary, to another such segmentation and vocabulary.
pub proof fn lemma_merge_keeps_unmerged(vocab: Vocab, values: Seq<Seq<char>>)
    requires
        consistent(values),
        unmerged(vocab, values),
        values.len() >= 2,
    ensures
        consistent(next_values(values)),
        unmerged(next_vocab(vocab, values), next_values(values)),
{
    let a = best_first(values);
    let b = best_second(values);
    let p = best_position(values);
    let out = next_values(values);
    let vocab2 = next_vocab(vocab, values);
    lemma_best_upto(values, values.len() - 1);
    lemma_merged_is_new(vocab, values);
    lemma_pass_keeps_consistent(values, a, b);
    lemma_joined_pair(a, b);
    let chosen = values.subrange(p, p + 2);
    assert(chosen =~= seq![a, b]);
    assert forall|i: int, j: int| 0 <= i && i + 2 <= j <= out.len() implies !vocab2.contains(
        joined(#[trigger] out.subrange(i, j)),
    ) by {
        let w = lemma_window_of_pass(values, a, b, i, j);
        let run = values.subrange(w.0, w.1);
        lemma_joined_merge_pass(run, a, b);
        lemma_merge_pass_len(run, a, b);
        assert(out.subrange(i, j).len() >= 2);
        assert(w.0 + 2 <= w.1);
        let spelled = joined(out.subrange(i, j));
        assert(!vocab.contains(joined(run)));
        if spelled == a + b {
            assert(run == chosen);
        }
        if vocab2.contains(spelled) {
            let at = choose|at: int| 0 <= at < vocab2.len() && vocab2[at] == spelled;
            if at < vocab.len() {
                assert(vocab[at] == spelled);
            }
        }
    }
}

/// A run of the characters of a text spells the matching part of the text.
pub proof fn lemma_joined_char_run(text: Seq<char>, i: int, j: int)
    requires
        0 <= i <= j <= text.len(),
    ensures
        joined(char_values(text).subrange(i, j)) == text.subrange(i, j),
{
    assert(char_values(text).subrange(i, j) =~= char_values(text.subrange(i, j)));
    lemma_joined_chars(text.subrange(i, j));
}

/// Every value of the seed vocabulary is a single character.
pub proof fn lemma_seed_single(text: Seq<char>)
    ensures
        forall|i: int|
            0 <= i < seed_vocabulary(text).len() ==> (#[trigger] seed_vocabulary(text)[i]).len()
                == 1,
    decreases text.len(),
{
    if text.len() > 0 {
        lemma_seed_single(text.drop_last());
        let before = seed_vocabulary(text.drop_last());
        assert(seed_vocabulary(text) == learn(before, seq![text.last()]));
    }
}

/// The segmentation of a text into characters is consistent, and none of
/// its runs of two or more characters is a value of the seed vocabulary.
pub proof fn lemma_chars_consistent(text: Seq<char>)
    ensures
        consistent(char_values(text)),
        unmerged(seed_vocabulary(text), char_values(text)),
{
    let values = char_values(text);
    let seed = seed_vocabulary(text);
    assert forall|i: int, j: int, k: int, l: int|
        0 <= i < j <= values.len() && 0 <= k < l <= values.len() && joined(
            #[trigger] values.subrange(i, j),
        ) == joined(#[trigger] values.subrange(k, l)) implies values.subrange(i, j)
        == values.subrange(k, l) by {
        lemma_joined_char_run(text, i, j);
        lemma_joined_char_run(text, k, l);
        let left = text.subrange(i, j);
        let right = text.subrange(k, l);
        assert(left.len() == right.len());
        assert forall|x: int| 0 <= x < j - i implies values.subrange(i, j)[x] == values.subrange(
            k,
            l,
        )[x] by {
            assert(left[x] == right[x]);
        }
        assert(values.subrange(i, j) =~= values.subrange(k, l));
    }
    lemma_seed_single(text);
    assert forall|i: int, j: int| 0 <= i && i + 2 <= j <= values.len() implies !seed.contains(
        joined(#[trigger] values.subrange(i, j)),
    ) by {
        lemma_joined_char_run(text, i, j);
        let spelled = text.subrange(i, j);
        if seed.contains(spelled) {
            let at = choose|at: int| 0 <= at < seed.len() && seed[at] == spelled;
            assert(seed[at].len() == 1);
        }
    }
}

} // verus!
