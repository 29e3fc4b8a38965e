//! The table of known values.  A value's id is its index in the table, so
//! ids start at zero, rise by one and are never given twice.

use vstd::prelude::*;
use vstd::utf8::encode_utf8;
use crate::model::{id_of, learn, listing, tokens_of, Vocab};
use crate::token::{entry_views, token_values, token_views, Token};

verus! {

/// The values in the order of their ids.
pub struct Vocabulary {
    pub values: Vec<String>,
}

impl View for Vocabulary {
    type V = Vocab;

    open spec fn view(&self) -> Vocab {
        Seq::new(self.values@.len(), |i: int| self.values@[i]@)
    }
}

/// Whether `token` carries the id that `vocab` gives to its value, and the
/// length of that value in bytes of UTF-8.
pub open spec fn token_ok(vocab: Vocab, token: Token) -> bool {
    &&& token.id < vocab.len()
    &&& vocab[token.id as int] == token.value@
    &&& token.byte_length == encode_utf8(token.value@).len()
}

/// Whether every one of `tokens` is as `token_ok` says.
pub open spec fn tokens_ok(vocab: Vocab, tokens: Seq<Token>) -> bool {
    forall|i: int| 0 <= i < tokens.len() ==> token_ok(vocab, #[trigger] tokens[i])
}

/// In a vocabulary without repetition, the index of a value is its id.
pub proof fn lemma_id_of(vocab: Vocab, value: Seq<char>, i: nat)
    requires
        vocab.no_duplicates(),
        i < vocab.len(),
        vocab[i as int] == value,
    ensures
        id_of(vocab, value) == i,
{
    let j = id_of(vocab, value);
    assert(j < vocab.len() && vocab[j as int] == value);
}

/// Tokens that agree with a vocabulary without repetition are the tokens
/// that the vocabulary gives to their values.
pub proof fn lemma_tokens_ok(vocab: Vocab, tokens: Seq<Token>)
    requires
        vocab.no_duplicates(),
        tokens_ok(vocab, tokens),
    ensures
        token_views(tokens) == tokens_of(vocab, token_values(tokens)),
{
    assert forall|i: int| 0 <= i < tokens.len() implies token_views(tokens)[i] == tokens_of(
        vocab,
        token_values(tokens),
    )[i] by {
        assert(token_ok(vocab, tokens[i]));
        lemma_id_of(vocab, tokens[i].value@, tokens[i].id as nat);
    }
    assert(token_views(tokens) =~= tokens_of(vocab, token_values(tokens)));
}

/// Learning a value keeps a vocabulary free of repetition.
pub proof fn lemma_learn_no_duplicates(vocab: Vocab, value: Seq<char>)
    requires
        vocab.no_duplicates(),
    ensures
        learn(vocab, value).no_duplicates(),
        learn(vocab, value).contains(value),
        vocab.len() <= learn(vocab, value).len() <= vocab.len() + 1,
        forall|i: int| 0 <= i < vocab.len() ==> learn(vocab, value)[i] == vocab[i],
{
    if !vocab.contains(value) {
        let next = vocab.push(value);
        assert(next[vocab.len() as int] == value);
        assert forall|i: int, j: int|
            0 <= i < next.len() && 0 <= j < next.len() && i != j implies next[i] != next[j] by {
            if i < vocab.len() && j < vocab.len() {
            } else if i < vocab.len() {
                assert(vocab.contains(vocab[i]));
            } else {
                assert(vocab.contains(vocab[j]));
            }
        }
    }
}

impl Vocabulary {
    /// Whether no value stands twice.
    pub open spec fn wf(&self) -> bool {
        self@.no_duplicates()
    }

    /// The empty vocabulary.
    pub fn new() -> (vocabulary: Vocabulary)
        ensures
            vocabulary@ == Seq::<Seq<char>>::empty(),
            vocabulary.wf(),
    {
        let vocabulary = Vocabulary { values: Vec::new() };
        assert(vocabulary@ =~= Seq::<Seq<char>>::empty());
        vocabulary
    }

    /// The number of values.
    pub fn len(&self) -> (n: usize)
        ensures
            n == self@.len(),
    {
        self.values.len()
    }

    /// The id of `value`, if it is known: the first index at which it
    /// stands.
    pub fn find(&self, value: &String) -> (found: Option<usize>)
        ensures
            match found {
                Some(id) => {
                    &&& id < self@.len()
                    &&& self@[id as int] == value@
                    &&& forall|j: int| 0 <= j < id ==> self@[j] != value@
                },
                None => !self@.contains(value@),
            },
    {
        let mut i: usize = 0;
        while i < self.values.len()
            invariant
                i <= self.values.len(),
                forall|j: int| 0 <= j < i ==> self@[j] != value@,
            decreases self.values.len() - i,
        {
            if self.values[i] == *value {
                return Some(i);
            }
            i += 1;
        }
        None
    }

    /// The id of `value`, which is learned under the next id where it is
    /// not known yet.
    pub fn intern(&mut self, value: &String) -> (id: usize)
        requires
            old(self).wf(),
        ensures
            final(self).wf(),
            final(self)@ == learn(old(self)@, value@),
            id < final(self)@.len(),
            final(self)@[id as int] == value@,
            id == id_of(final(self)@, value@),
    {
        proof {
            lemma_learn_no_duplicates(self@, value@);
        }
        let id = match self.find(value) {
            Some(id) => id,
            None => {
                let id = self.values.len();
                self.values.push(value.clone());
                assert(self@ =~= old(self)@.push(value@));
                id
            },
        };
        proof {
            lemma_id_of(self@, value@, id as nat);
        }
        id
    }

    /// The vocabulary as a list of `(value, id)`, ascending by id.
    pub fn entries(&self) -> (list: Vec<(String, usize)>)
        ensures
            entry_views(list@) == listing(self@),
    {
        let mut list: Vec<(String, usize)> = Vec::new();
        let mut i: usize = 0;
        while i < self.values.len()
            invariant
                i <= self.values.len(),
                list@.len() == i,
                forall|j: int|
                    0 <= j < i ==> (#[trigger] list@[j]).0@ == self@[j] && list@[j].1 == j,
            decreases self.values.len() - i,
        {
            list.push((self.values[i].clone(), i));
            i += 1;
        }
        assert(entry_views(list@) =~= listing(self@));
        list
    }
}

} // verus!
