//! Properties of training, proved of the model.  `BPEEngine::train` returns
//! exactly what `trained` describes, so each of them holds of every result.

use vstd::prelude::*;
use vstd::utf8::encode_utf8;
use crate::model::{
    best_first, best_position, best_second, char_values, count_at, goes_on, initial_step, joined,
    learn_all, lemma_best_upto, lemma_count_at_positive, lemma_next_values_shrink, listing,
    merge_pass, merges_in_pass, next_step, next_values, next_vocab, pair_at, run, seed_vocabulary,
    token_of, tokens_of, trained, Vocab,
};
use crate::token::{view_values, MergeStepView, TokenView, TrainingView};
use crate::vocabulary::lemma_learn_no_duplicates;
use crate::windows::{
    consistent, lemma_chars_consistent, lemma_merge_keeps_unmerged, lemma_merged_is_new, unmerged,
};

verus! {

/// Whether `vocab` begins with the values of `seed`, under the same ids.
pub open spec fn begins_with(vocab: Vocab, seed: Vocab) -> bool {
    &&& seed.len() <= vocab.len()
    &&& forall|i: int| 0 <= i < seed.len() ==> vocab[i] == seed[i]
}

/// Whether `token` carries the id of its value in `vocab` and the length of
/// that value in bytes of UTF-8.
pub open spec fn known(vocab: Vocab, token: TokenView) -> bool {
    &&& token.id < vocab.len()
    &&& vocab[token.id as int] == token.value
    &&& token.byte_length == encode_utf8(token.value).len()
}

/// Whether every token of every entry of `history` is known to `vocab`.
pub open spec fn all_known(vocab: Vocab, history: Seq<MergeStepView>) -> bool {
    forall|k: int, i: int|
        0 <= k < history.len() && 0 <= i < history[k].tokens.len() ==> known(
            vocab,
            #[trigger] history[k].tokens[i],
        )
}

/// Whether entry `k` of `history` is numbered `k`, spells `text`, and, where
/// it is not the first, arises from the entry before it by one pass that
/// merges the leftmost of its most frequent pairs.
pub open spec fn entry_ok(text: Seq<char>, history: Seq<MergeStepView>, k: int) -> bool {
    let step = history[k];
    &&& step.step_number == k
    &&& joined(view_values(step.tokens)) == text
    &&& k > 0 ==> {
        let before = view_values(history[k - 1].tokens);
        &&& step.pair == (best_first(before), best_second(before))
        &&& step.merged == step.pair.0 + step.pair.1
        &&& view_values(step.tokens) == merge_pass(before, step.pair.0, step.pair.1)
        &&& before.len() >= 2
        &&& step.tokens.len() + merges_in_pass(before, step.pair.0, step.pair.1) == before.len()
        &&& merges_in_pass(before, step.pair.0, step.pair.1) >= 1
    }
}

/// The merged strings of the entries of `history` behind the first, in order.
pub open spec fn merged_of(history: Seq<MergeStepView>) -> Seq<Seq<char>> {
    Seq::new((history.len() - 1) as nat, |k: int| history[k + 1].merged)
}

/// The values of a vocabulary listing, in order.
pub open spec fn listed_values(vocabulary: Seq<(Seq<char>, nat)>) -> Vocab {
    Seq::new(vocabulary.len(), |i: int| vocabulary[i].0)
}

/// Whether every entry of `history` is as `entry_ok` says.
pub open spec fn entries_ok(text: Seq<char>, history: Seq<MergeStepView>) -> bool {
    forall|k: int| 0 <= k < history.len() ==> #[trigger] entry_ok(text, history, k)
}

/// What holds of every state that training on `text` passes through.
pub open spec fn state_ok(
    text: Seq<char>,
    target: nat,
    vocab: Vocab,
    values: Seq<Seq<char>>,
    history: Seq<MergeStepView>,
) -> bool {
    let seed = seed_vocabulary(text);
    &&& vocab.no_duplicates()
    &&& begins_with(vocab, seed)
    &&& vocab.len() == seed.len() + history.len() - 1
    &&& history.len() == 1 || vocab.len() <= target
    &&& history.len() >= 1
    &&& history[0] == initial_step(text)
    &&& vocab == learn_all(seed, merged_of(history))
    &&& vocab == seed + merged_of(history)
    &&& consistent(values)
    &&& unmerged(vocab, values)
    &&& history.last().tokens == tokens_of(vocab, values)
    &&& entries_ok(text, history)
    &&& history.len() - 1 + values.len() <= text.len()
    &&& forall|i: int| 0 <= i < values.len() ==> vocab.contains(#[trigger] values[i])
    &&& all_known(vocab, history)
}

/// What holds of every result of training on `text`.
pub open spec fn result_ok(text: Seq<char>, target: nat, result: TrainingView) -> bool {
    let seed = seed_vocabulary(text);
    let history = result.merge_history;
    let vocab = listed_values(result.vocabulary);
    &&& history.len() >= 1
    &&& history[0] == initial_step(text)
    &&& vocab == learn_all(seed, merged_of(history))
    &&& vocab == seed + merged_of(history)
    &&& entries_ok(text, history)
    &&& result.final_tokens == history.last().tokens
    &&& joined(view_values(result.final_tokens)) == text
    &&& history.len() - 1 + result.final_tokens.len() <= text.len()
    &&& forall|i: int| 0 <= i < result.vocabulary.len() ==> (#[trigger] result.vocabulary[i]).1 == i
    &&& vocab.no_duplicates()
    &&& begins_with(vocab, seed)
    &&& vocab.len() == seed.len() + history.len() - 1
    &&& history.len() == 1 || vocab.len() <= target
    &&& !goes_on(vocab.len(), result.final_tokens.len(), target)
    &&& all_known(vocab, history)
}

/// The concatenation of a segmentation that starts with `head`.
proof fn lemma_joined_cons(head: Seq<char>, rest: Seq<Seq<char>>)
    ensures
        joined(seq![head] + rest) == head + joined(rest),
{
    let all = seq![head] + rest;
    assert(all[0] == head);
    assert(all.skip(1) =~= rest);
}

/// A pass keeps the concatenation.
pub proof fn lemma_joined_merge_pass(values: Seq<Seq<char>>, a: Seq<char>, b: Seq<char>)
    ensures
        joined(merge_pass(values, a, b)) == joined(values),
    decreases values.len(),
{
    if values.len() == 0 {
    } else if pair_at(values, 0, a, b) {
        let rest = values.skip(2);
        lemma_joined_merge_pass(rest, a, b);
        lemma_joined_cons(a + b, merge_pass(rest, a, b));
        assert(values.skip(1).skip(1) =~= rest);
        assert(joined(values.skip(1)) == b + joined(rest));
        assert((a + b) + joined(rest) =~= a + (b + joined(rest)));
    } else {
        let rest = values.skip(1);
        lemma_joined_merge_pass(rest, a, b);
        lemma_joined_cons(values[0], merge_pass(rest, a, b));
    }
}

/// The characters of a text, concatenated, are the text.
pub proof fn lemma_joined_chars(text: Seq<char>)
    ensures
        joined(char_values(text)) == text,
    decreases text.len(),
{
    if text.len() > 0 {
        lemma_joined_chars(text.skip(1));
        assert(char_values(text).skip(1) =~= char_values(text.skip(1)));
        assert(seq![text[0]] + text.skip(1) =~= text);
    }
}

/// Every value that a pass leaves is the merged string or stood there before.
pub proof fn lemma_merge_pass_values(values: Seq<Seq<char>>, a: Seq<char>, b: Seq<char>)
    ensures
        forall|i: int|
            0 <= i < merge_pass(values, a, b).len() ==> {
                let v = #[trigger] merge_pass(values, a, b)[i];
                v == a + b || values.contains(v)
            },
    decreases values.len(),
{
    let out = merge_pass(values, a, b);
    if values.len() == 0 {
    } else {
        let step: int = if pair_at(values, 0, a, b) { 2 } else { 1 };
        let rest = values.skip(step);
        lemma_merge_pass_values(rest, a, b);
        assert forall|i: int| 0 <= i < out.len() implies ({
            let v = #[trigger] out[i];
            v == a + b || values.contains(v)
        }) by {
            if i == 0 {
                assert(values.contains(values[0]));
            } else {
                let v = merge_pass(rest, a, b)[i - 1];
                assert(out[i] == v);
                if v != a + b {
                    let j = choose|j: int| 0 <= j < rest.len() && rest[j] == v;
                    assert(values[j + step] == v);
                }
            }
        }
    }
}

/// The seed vocabulary holds no value twice and holds every character of the
/// text.
pub proof fn lemma_seed(text: Seq<char>)
    ensures
        seed_vocabulary(text).no_duplicates(),
        forall|i: int| 0 <= i < text.len() ==> seed_vocabulary(text).contains(#[trigger] seq![text[i]]),
        seed_vocabulary(text).len() <= text.len(),
    decreases text.len(),
{
    if text.len() > 0 {
        let front = text.drop_last();
        let seed = seed_vocabulary(front);
        let last = seq![text.last()];
        lemma_seed(front);
        lemma_learn_no_duplicates(seed, last);
        let next = seed_vocabulary(text);
        assert forall|i: int| 0 <= i < text.len() implies next.contains(
            #[trigger] seq![text[i]],
        ) by {
            if i < front.len() {
                assert(text[i] == front[i]);
                lemma_still_contains(seed, next, seq![front[i]]);
            }
        }
    }
}

/// A vocabulary that begins with another holds what the other holds.
proof fn lemma_still_contains(old_vocab: Vocab, vocab: Vocab, value: Seq<char>)
    requires
        begins_with(vocab, old_vocab),
        old_vocab.contains(value),
    ensures
        vocab.contains(value),
{
    let i = choose|i: int| 0 <= i < old_vocab.len() && old_vocab[i] == value;
    assert(vocab[i] == value);
}

/// The token of a value that the vocabulary holds is known to it.
proof fn lemma_token_of_known(vocab: Vocab, value: Seq<char>)
    requires
        vocab.contains(value),
    ensures
        known(vocab, token_of(vocab, value)),
{
    let i = choose|i: int| 0 <= i < vocab.len() && vocab[i] == value;
    let n = i as nat;
    assert(n < vocab.len() && vocab[n as int] == value);
}

/// Training starts in a state that is as `state_ok` says.
proof fn lemma_initial_state(text: Seq<char>, target: nat)
    ensures
        state_ok(text, target, seed_vocabulary(text), char_values(text), seq![initial_step(text)]),
{
    let seed = seed_vocabulary(text);
    let values = char_values(text);
    let history = seq![initial_step(text)];
    lemma_seed(text);
    lemma_joined_chars(text);
    lemma_chars_consistent(text);
    assert(merged_of(history) =~= Seq::<Seq<char>>::empty());
    assert(seed + merged_of(history) =~= seed);
    assert(view_values(tokens_of(seed, values)) =~= values);
    assert(entry_ok(text, history, 0));
    assert forall|i: int| 0 <= i < values.len() implies seed.contains(#[trigger] values[i]) by {
        assert(values[i] == seq![text[i]]);
    }
    assert forall|k: int, i: int|
        0 <= k < history.len() && 0 <= i < history[k].tokens.len() implies known(
        seed,
        #[trigger] history[k].tokens[i],
    ) by {
        assert(seed.contains(values[i]));
        lemma_token_of_known(seed, values[i]);
    }
}

/// One merge leads from a state that is as `state_ok` says to another.
proof fn lemma_next_state(
    text: Seq<char>,
    target: nat,
    vocab: Vocab,
    values: Seq<Seq<char>>,
    history: Seq<MergeStepView>,
)
    requires
        state_ok(text, target, vocab, values, history),
        goes_on(vocab.len(), values.len(), target),
    ensures
        state_ok(
            text,
            target,
            next_vocab(vocab, values),
            next_values(values),
            history.push(next_step(vocab, values, history.len())),
        ),
{
    let a = best_first(values);
    let b = best_second(values);
    let vocab2 = next_vocab(vocab, values);
    let values2 = next_values(values);
    let step = next_step(vocab, values, history.len());
    let history2 = history.push(step);
    let n = history.len() as int;
    lemma_next_values_shrink(values);
    lemma_learn_no_duplicates(vocab, a + b);
    lemma_joined_merge_pass(values, a, b);
    lemma_merge_pass_values(values, a, b);
    lemma_merged_is_new(vocab, values);
    lemma_merge_keeps_unmerged(vocab, values);
    assert(begins_with(vocab2, vocab));
    assert(merged_of(history2).drop_last() =~= merged_of(history));
    assert(merged_of(history2).last() == a + b);
    assert(merged_of(history2) =~= merged_of(history).push(a + b));
    assert(seed_vocabulary(text) + merged_of(history2) =~= vocab2);
    assert(view_values(tokens_of(vocab, values)) =~= values);
    assert(view_values(tokens_of(vocab2, values2)) =~= values2);
    assert(entry_ok(text, history, n - 1));
    assert forall|k: int| 0 <= k < history2.len() implies #[trigger] entry_ok(
        text,
        history2,
        k,
    ) by {
        if k < n {
            assert(entry_ok(text, history, k));
            assert(history2[k] == history[k]);
            if k > 0 {
                assert(history2[k - 1] == history[k - 1]);
            }
        } else {
            assert(history2[k] == step);
            assert(history2[k - 1] == history[n - 1]);
        }
    }
    assert forall|i: int| 0 <= i < values2.len() implies vocab2.contains(
        #[trigger] values2[i],
    ) by {
        let v = values2[i];
        if v != a + b {
            let j = choose|j: int| 0 <= j < values.len() && values[j] == v;
            assert(vocab.contains(values[j]));
            lemma_still_contains(vocab, vocab2, v);
        }
    }
    assert forall|k: int, i: int|
        0 <= k < history2.len() && 0 <= i < history2[k].tokens.len() implies known(
        vocab2,
        #[trigger] history2[k].tokens[i],
    ) by {
        if k < n {
            assert(history2[k] == history[k]);
            assert(known(vocab, history[k].tokens[i]));
        } else {
            assert(vocab2.contains(values2[i]));
            lemma_token_of_known(vocab2, values2[i]);
        }
    }
}

/// Training from a state that is as `state_ok` says gives a result that is
/// as `result_ok` says.
proof fn lemma_run(
    text: Seq<char>,
    target: nat,
    vocab: Vocab,
    values: Seq<Seq<char>>,
    history: Seq<MergeStepView>,
)
    requires
        state_ok(text, target, vocab, values, history),
    ensures
        result_ok(text, target, run(vocab, values, target, history)),
    decreases values.len(),
{
    if goes_on(vocab.len(), values.len(), target) {
        lemma_next_values_shrink(values);
        lemma_next_state(text, target, vocab, values, history);
        lemma_run(
            text,
            target,
            next_vocab(vocab, values),
            next_values(values),
            history.push(next_step(vocab, values, history.len())),
        );
    } else {
        let result = run(vocab, values, target, history);
        assert(listed_values(result.vocabulary) =~= vocab);
        assert(view_values(tokens_of(vocab, values)) =~= values);
        assert(entry_ok(text, history, history.len() - 1));
    }
}

/// Every result of training is as `result_ok` says.
pub proof fn lemma_trained(text: Seq<char>, target: nat)
    ensures
        result_ok(text, target, trained(text, target)),
{
    lemma_initial_state(text, target);
    lemma_run(text, target, seed_vocabulary(text), char_values(text), seq![initial_step(text)]);
}

/// The index of the first occurrence of `value` in `values`, or their
/// number where it does not occur.
pub open spec fn first_seen(values: Seq<Seq<char>>, value: Seq<char>) -> int
    decreases values.len(),
{
    if values.len() == 0 {
        0
    } else {
        let front = first_seen(values.drop_last(), value);
        if front < values.len() - 1 || values.last() == value {
            front
        } else {
            values.len() as int
        }
    }
}

/// `first_seen` is the least index at which the value stands.
pub proof fn lemma_first_seen(values: Seq<Seq<char>>, value: Seq<char>)
    ensures
        0 <= first_seen(values, value) <= values.len(),
        first_seen(values, value) < values.len() ==> values[first_seen(values, value)] == value,
        forall|i: int| 0 <= i < first_seen(values, value) ==> values[i] != value,
        values.contains(value) <==> first_seen(values, value) < values.len(),
    decreases values.len(),
{
    if values.len() > 0 {
        let front = values.drop_last();
        lemma_first_seen(front, value);
        let f = first_seen(values, value);
        if f < values.len() {
            assert(values[f] == value);
        } else {
            if values.contains(value) {
                let i = choose|i: int| 0 <= i < values.len() && values[i] == value;
                assert(front[i] == value);
            }
        }
        assert forall|i: int| 0 <= i < f implies values[i] != value by {
            if i < front.len() {
                assert(front[i] == values[i]);
            }
        }
    }
}

/// Learning one list of values and then another is learning the two in a row.
pub proof fn lemma_learn_all_concat(vocab: Vocab, first: Seq<Seq<char>>, second: Seq<Seq<char>>)
    ensures
        learn_all(vocab, first + second) == learn_all(learn_all(vocab, first), second),
    decreases second.len(),
{
    if second.len() == 0 {
        assert(first + second =~= first);
    } else {
        lemma_learn_all_concat(vocab, first, second.drop_last());
        assert((first + second).drop_last() =~= first + second.drop_last());
        assert((first + second).last() == second.last());
    }
}

/// The seed vocabulary is what learning the characters one by one gives.
pub proof fn lemma_seed_learns_characters(text: Seq<char>)
    ensures
        seed_vocabulary(text) == learn_all(Seq::empty(), char_values(text)),
    decreases text.len(),
{
    if text.len() > 0 {
        lemma_seed_learns_characters(text.drop_last());
        assert(char_values(text).drop_last() =~= char_values(text.drop_last()));
        assert(char_values(text).last() == seq![text.last()]);
    }
}

/// Learning values one by one from nothing gives each distinct value once,
/// in the order of first occurrence.
pub proof fn lemma_learn_all_order(values: Seq<Seq<char>>)
    ensures
        learn_all(Seq::empty(), values).no_duplicates(),
        forall|i: int|
            0 <= i < values.len() ==> learn_all(Seq::empty(), values).contains(#[trigger] values[i]),
        forall|i: int|
            0 <= i < learn_all(Seq::empty(), values).len() ==> values.contains(
                #[trigger] learn_all(Seq::empty(), values)[i],
            ),
        forall|i: int, j: int|
            0 <= i < j < learn_all(Seq::empty(), values).len() ==> first_seen(
                values,
                #[trigger] learn_all(Seq::empty(), values)[i],
            ) < first_seen(values, #[trigger] learn_all(Seq::empty(), values)[j]),
    decreases values.len(),
{
    let vocab = learn_all(Seq::empty(), values);
    if values.len() > 0 {
        let front = values.drop_last();
        let last = values.last();
        let before = learn_all(Seq::empty(), front);
        lemma_learn_all_order(front);
        lemma_learn_no_duplicates(before, last);
        assert forall|i: int| 0 <= i < values.len() implies vocab.contains(
            #[trigger] values[i],
        ) by {
            if i < front.len() {
                assert(before.contains(front[i]));
                lemma_still_contains(before, vocab, front[i]);
            }
        }
        assert forall|i: int| 0 <= i < vocab.len() implies values.contains(
            #[trigger] vocab[i],
        ) && (i < before.len() ==> first_seen(values, vocab[i]) == first_seen(front, vocab[i])
            && first_seen(front, vocab[i]) < front.len()) && (i >= before.len() ==> first_seen(
            values,
            vocab[i],
        ) == front.len()) by {
            lemma_first_seen(front, vocab[i]);
            lemma_first_seen(values, vocab[i]);
            if i < before.len() {
                assert(front.contains(before[i]));
            } else {
                assert(vocab[i] == last);
                assert(values[values.len() - 1] == last);
                if front.contains(last) {
                    let j = choose|j: int| 0 <= j < front.len() && front[j] == last;
                    assert(before.contains(front[j]));
                }
            }
        }
    }
}

/// The trace always begins with the segmentation of the text into single
/// characters, under an empty pair and an empty merged string, whatever the
/// bound on the vocabulary.
pub proof fn law_trace_begins_with_characters(text: Seq<char>, target: nat)
    ensures
        trained(text, target).merge_history.len() >= 1,
        trained(text, target).merge_history[0] == initial_step(text),
        initial_step(text).pair == (Seq::<char>::empty(), Seq::<char>::empty()),
        initial_step(text).merged == Seq::<char>::empty(),
        initial_step(text).step_number == 0,
        view_values(initial_step(text).tokens) == char_values(text),
        all_known(seed_vocabulary(text), seq![initial_step(text)]),
{
    lemma_trained(text, target);
    lemma_initial_state(text, target);
    assert(view_values(initial_step(text).tokens) =~= char_values(text));
}

/// The vocabulary lists each value once, under the ids 0, 1, 2, ... in the
/// order in which the values first appear: the distinct characters of the
/// text from left to right, then the merged string of every merge in the
/// order of the merges, each of which is new when it is formed.
pub proof fn law_vocabulary_ids_follow_first_appearance(text: Seq<char>, target: nat)
    ensures
        ({
            let result = trained(text, target);
            let values = listed_values(result.vocabulary);
            let seen = char_values(text) + merged_of(result.merge_history);
            &&& forall|i: int|
                0 <= i < result.vocabulary.len() ==> (#[trigger] result.vocabulary[i]).1 == i
            &&& values.no_duplicates()
            &&& values == seed_vocabulary(text) + merged_of(result.merge_history)
            &&& values == learn_all(Seq::empty(), seen)
            &&& forall|i: int| 0 <= i < seen.len() ==> values.contains(#[trigger] seen[i])
            &&& forall|i: int| 0 <= i < values.len() ==> seen.contains(#[trigger] values[i])
            &&& forall|i: int, j: int|
                0 <= i < j < values.len() ==> first_seen(seen, #[trigger] values[i]) < first_seen(
                    seen,
                    #[trigger] values[j],
                )
        }),
{
    let result = trained(text, target);
    let seen = char_values(text) + merged_of(result.merge_history);
    lemma_trained(text, target);
    lemma_seed_learns_characters(text);
    lemma_learn_all_concat(Seq::empty(), char_values(text), merged_of(result.merge_history));
    lemma_learn_all_order(seen);
}

/// Every token of every trace entry, and of the final segmentation, carries
/// the id under which the vocabulary lists its value, and the length of that
/// value in bytes of UTF-8.
pub proof fn law_tokens_carry_vocabulary_ids(text: Seq<char>, target: nat)
    ensures
        all_known(
            listed_values(trained(text, target).vocabulary),
            trained(text, target).merge_history,
        ),
        trained(text, target).final_tokens == trained(text, target).merge_history.last().tokens,
{
    lemma_trained(text, target);
}

/// Over the whole trace, two tokens carry the same id exactly when they
/// carry the same value: an id, once given, stays with its value.
pub proof fn law_ids_stay_with_values(text: Seq<char>, target: nat)
    ensures
        ({
            let history = trained(text, target).merge_history;
            forall|j: int, i: int, k: int, l: int|
                0 <= j < history.len() && 0 <= i < history[j].tokens.len() && 0 <= k
                    < history.len() && 0 <= l < history[k].tokens.len() ==> ((
                #[trigger] history[j].tokens[i]).id == (#[trigger] history[k].tokens[l]).id
                    <==> history[j].tokens[i].value == history[k].tokens[l].value)
        }),
{
    let history = trained(text, target).merge_history;
    let vocab = listed_values(trained(text, target).vocabulary);
    lemma_trained(text, target);
    assert forall|j: int, i: int, k: int, l: int|
        0 <= j < history.len() && 0 <= i < history[j].tokens.len() && 0 <= k < history.len() && 0
            <= l < history[k].tokens.len() implies ((#[trigger] history[j].tokens[i]).id == (
    #[trigger] history[k].tokens[l]).id <==> history[j].tokens[i].value
        == history[k].tokens[l].value) by {
        assert(known(vocab, history[j].tokens[i]));
        assert(known(vocab, history[k].tokens[l]));
    }
}

/// Every trace entry behind the first has fewer tokens than the one before
/// it: one less for each pair that its pass replaced, and the pass replaced
/// at least one.  Its pair is the leftmost of the most frequent pairs of the
/// entry before it, and its number is its index.
pub proof fn law_token_count_decreases(text: Seq<char>, target: nat)
    ensures
        entries_ok(text, trained(text, target).merge_history),
        forall|k: int|
            0 < k < trained(text, target).merge_history.len() ==> (
            #[trigger] trained(text, target).merge_history[k]).tokens.len() < trained(
                text,
                target,
            ).merge_history[k - 1].tokens.len(),
        forall|j: int, k: int|
            0 <= j <= k < trained(text, target).merge_history.len() ==> (
            #[trigger] trained(text, target).merge_history[k]).tokens.len() + (k - j) <= (
            #[trigger] trained(text, target).merge_history[j]).tokens.len(),
{
    let history = trained(text, target).merge_history;
    lemma_trained(text, target);
    assert forall|k: int| 0 < k < history.len() implies (#[trigger] history[k]).tokens.len()
        < history[k - 1].tokens.len() by {
        assert(entry_ok(text, history, k));
    }
    assert forall|j: int, k: int| 0 <= j <= k < history.len() implies (
    #[trigger] history[k]).tokens.len() + (k - j) <= (#[trigger] history[j]).tokens.len() by {
        lemma_token_count_between(text, history, j, k);
    }
}

/// Between two entries of a trace the number of tokens falls by at least the
/// number of merges between them.
proof fn lemma_token_count_between(text: Seq<char>, history: Seq<MergeStepView>, j: int, k: int)
    requires
        entries_ok(text, history),
        0 <= j <= k < history.len(),
    ensures
        history[k].tokens.len() + (k - j) <= history[j].tokens.len(),
    decreases k - j,
{
    if j < k {
        lemma_token_count_between(text, history, j, k - 1);
        assert(entry_ok(text, history, k));
    }
}

/// Training stops: every merge adds exactly one value to the vocabulary,
/// so there are at most as many merges as the bound exceeds the number of
/// distinct characters, and none where it does not exceed it; there are
/// fewer merges than the text has characters; and at the end the bound is
/// reached or at most one token is left.
pub proof fn law_merges_bounded(text: Seq<char>, target: nat)
    ensures
        ({
            let result = trained(text, target);
            let merges = result.merge_history.len() - 1;
            let distinct = seed_vocabulary(text).len();
            &&& merges >= 0
            &&& result.vocabulary.len() == distinct + merges
            &&& target >= distinct ==> merges <= target - distinct
            &&& target <= distinct ==> merges == 0
            &&& merges + result.final_tokens.len() <= text.len()
            &&& result.vocabulary.len() >= target || result.final_tokens.len() <= 1
            &&& distinct <= text.len()
        }),
{
    lemma_trained(text, target);
    lemma_seed(text);
}

/// The values of the final tokens, and of the tokens of every trace entry,
/// concatenated in order, are the text.
pub proof fn law_tokens_spell_text(text: Seq<char>, target: nat)
    ensures
        joined(view_values(trained(text, target).final_tokens)) == text,
        forall|k: int|
            0 <= k < trained(text, target).merge_history.len() ==> joined(
                view_values((#[trigger] trained(text, target).merge_history[k]).tokens),
            ) == text,
{
    let history = trained(text, target).merge_history;
    lemma_trained(text, target);
    assert forall|k: int| 0 <= k < history.len() implies joined(
        view_values((#[trigger] history[k]).tokens),
    ) == text by {
        assert(entry_ok(text, history, k));
    }
}

/// Training on the empty text gives no tokens, a trace of the one initial
/// entry with no tokens, and an empty vocabulary.
pub proof fn law_empty_text(target: nat)
    ensures
        ({
            let result = trained(Seq::empty(), target);
            &&& result.final_tokens == Seq::<TokenView>::empty()
            &&& result.merge_history == seq![initial_step(Seq::empty())]
            &&& initial_step(Seq::empty()).tokens == Seq::<TokenView>::empty()
            &&& result.vocabulary == Seq::<(Seq<char>, nat)>::empty()
        }),
{
    let text = Seq::<char>::empty();
    assert(char_values(text) =~= Seq::<Seq<char>>::empty());
    assert(tokens_of(seed_vocabulary(text), char_values(text)) =~= Seq::<TokenView>::empty());
    assert(listing(seed_vocabulary(text)) =~= Seq::<(Seq<char>, nat)>::empty());
}

/// With a bound that the distinct characters of the text already reach, no
/// merge takes place: the trace is the one initial entry, the final tokens
/// are the characters, and the vocabulary is that of the characters.
pub proof fn law_no_merge_under_small_bound(text: Seq<char>, target: nat)
    requires
        target <= seed_vocabulary(text).len(),
    ensures
        ({
            let result = trained(text, target);
            &&& result.merge_history == seq![initial_step(text)]
            &&& result.final_tokens == initial_step(text).tokens
            &&& view_values(result.final_tokens) == char_values(text)
            &&& result.vocabulary == listing(seed_vocabulary(text))
        }),
{
    assert(view_values(initial_step(text).tokens) =~= char_values(text));
}

/// The pair that is merged next occurs, is one of highest frequency, and no
/// pair that begins left of it is as frequent.
pub proof fn law_leftmost_most_frequent_pair(values: Seq<Seq<char>>)
    requires
        values.len() >= 2,
    ensures
        0 <= best_position(values) < values.len() - 1,
        count_at(values, best_position(values)) >= 1,
        forall|q: int|
            0 <= q < values.len() - 1 ==> #[trigger] count_at(values, q) <= count_at(
                values,
                best_position(values),
            ),
        forall|q: int|
            0 <= q < best_position(values) ==> #[trigger] count_at(values, q) < count_at(
                values,
                best_position(values),
            ),
{
    lemma_best_upto(values, values.len() - 1);
    lemma_count_at_positive(values, best_position(values));
}

} // verus!
