//! The data that training produces, and its mathematical views.

use vstd::prelude::*;

verus! {

/// One unit of the current segmentation of the text.
#[derive(Debug, PartialEq, Eq)]
pub struct Token {
    pub id: usize,
    pub value: String,
    pub byte_length: usize,
}

/// A token as a mathematical value.
pub struct TokenView {
    pub id: nat,
    pub value: Seq<char>,
    pub byte_length: nat,
}

impl View for Token {
    type V = TokenView;

    open spec fn view(&self) -> TokenView {
        TokenView {
            id: self.id as nat,
            value: self.value@,
            byte_length: self.byte_length as nat,
        }
    }
}

/// One entry of the merge trace: the pair that was fused, its concatenation,
/// and the whole segmentation right after the merge.
#[derive(Debug, PartialEq, Eq)]
pub struct MergeStep {
    pub pair: (String, String),
    pub merged: String,
    pub tokens: Vec<Token>,
    pub step_number: usize,
}

/// A merge step as a mathematical value.
pub struct MergeStepView {
    pub pair: (Seq<char>, Seq<char>),
    pub merged: Seq<char>,
    pub tokens: Seq<TokenView>,
    pub step_number: nat,
}

impl View for MergeStep {
    type V = MergeStepView;

    open spec fn view(&self) -> MergeStepView {
        MergeStepView {
            pair: (self.pair.0@, self.pair.1@),
            merged: self.merged@,
            tokens: token_views(self.tokens@),
            step_number: self.step_number as nat,
        }
    }
}

/// Everything a training run returns.
#[derive(Debug, PartialEq, Eq)]
pub struct TrainingResult {
    pub final_tokens: Vec<Token>,
    pub merge_history: Vec<MergeStep>,
    pub vocabulary: Vec<(String, usize)>,
}

/// A training result as a mathematical value.
pub struct TrainingView {
    pub final_tokens: Seq<TokenView>,
    pub merge_history: Seq<MergeStepView>,
    pub vocabulary: Seq<(Seq<char>, nat)>,
}

impl View for TrainingResult {
    type V = TrainingView;

    open spec fn view(&self) -> TrainingView {
        TrainingView {
            final_tokens: token_views(self.final_tokens@),
            merge_history: step_views(self.merge_history@),
            vocabulary: entry_views(self.vocabulary@),
        }
    }
}

impl Clone for Token {
    fn clone(&self) -> (copy: Token)
        ensures
            copy == *self,
    {
        Token { id: self.id, value: self.value.clone(), byte_length: self.byte_length }
    }
}

/// A copy of `tokens`, token by token.
pub fn clone_tokens(tokens: &Vec<Token>) -> (copy: Vec<Token>)
    ensures
        copy@ == tokens@,
{
    let mut copy: Vec<Token> = Vec::new();
    let mut i: usize = 0;
    while i < tokens.len()
        invariant
            i <= tokens.len(),
            copy@ == tokens@.take(i as int),
        decreases tokens.len() - i,
    {
        copy.push(tokens[i].clone());
        assert(copy@ =~= tokens@.take(i + 1));
        i += 1;
    }
    assert(tokens@.take(i as int) =~= tokens@);
    copy
}

impl Clone for MergeStep {
    fn clone(&self) -> (copy: MergeStep)
        ensures
            copy@ == self@,
    {
        MergeStep {
            pair: (self.pair.0.clone(), self.pair.1.clone()),
            merged: self.merged.clone(),
            tokens: clone_tokens(&self.tokens),
            step_number: self.step_number,
        }
    }
}

/// The views of a sequence of tokens, in order.
pub open spec fn token_views(tokens: Seq<Token>) -> Seq<TokenView> {
    Seq::new(tokens.len(), |i: int| tokens[i]@)
}

/// The string values of a sequence of tokens, in order.
pub open spec fn token_values(tokens: Seq<Token>) -> Seq<Seq<char>> {
    Seq::new(tokens.len(), |i: int| tokens[i].value@)
}

/// The views of a sequence of merge steps, in order.
pub open spec fn step_views(steps: Seq<MergeStep>) -> Seq<MergeStepView> {
    Seq::new(steps.len(), |i: int| steps[i]@)
}

/// The views of a vocabulary listing, in order.
pub open spec fn entry_views(entries: Seq<(String, usize)>) -> Seq<(Seq<char>, nat)> {
    Seq::new(entries.len(), |i: int| (entries[i].0@, entries[i].1 as nat))
}

/// The string values that a sequence of token views carries, in order.
pub open spec fn view_values(tokens: Seq<TokenView>) -> Seq<Seq<char>> {
    Seq::new(tokens.len(), |i: int| tokens[i].value)
}

} // verus!
