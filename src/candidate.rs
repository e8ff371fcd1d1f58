//! The scored plaintext that the search produces, with its provenance.

use vstd::prelude::*;

verus! {

/// A score of exactly 1.0. Scores are fixed-point numbers in units of
/// `1 / SCORE_ONE`, so a mean letter weight of 0.0817 is `8_170_000`.
pub const SCORE_ONE: u64 = 100_000_000;

/// A plaintext produced by one parameter combination, with its score and
/// the transposition, substitution, alphabet and keyword that produced it.
#[derive(Debug, Clone, PartialEq, Eq)]
pub struct Candidate {
    pub score: u64,
    pub plaintext: String,
    pub transposition: usize,
    pub substitution: usize,
    pub alphabet_index: usize,
    pub keyword: String,
    pub alphabet: String,
}

impl Candidate {
    pub fn new(
        score: u64,
        plaintext: String,
        transposition: usize,
        substitution: usize,
        alphabet_index: usize,
        keyword: String,
        alphabet: String,
    ) -> (r: Self)
        ensures
            r == (Candidate {
                score,
                plaintext,
                transposition,
                substitution,
                alphabet_index,
                keyword,
                alphabet,
            }),
    {
        Candidate {
            score,
            plaintext,
            transposition,
            substitution,
            alphabet_index,
            keyword,
            alphabet,
        }
    }

    /// A field-by-field copy.
    pub fn duplicate(&self) -> (r: Self)
        ensures
            r == *self,
    {
        Candidate {
            score: self.score,
            plaintext: self.plaintext.clone(),
            transposition: self.transposition,
            substitution: self.substitution,
            alphabet_index: self.alphabet_index,
            keyword: self.keyword.clone(),
            alphabet: self.alphabet.clone(),
        }
    }
}

} // verus!
