//! A candidate line that the scorer accepted.

use vstd::prelude::*;

verus! {

/// A line of text together with its relevance score and the positions of the
/// characters that matched the query.
#[derive(Debug)]
pub struct MatchedCandidate {
    pub text: String,
    pub score: i64,
    pub indices: Vec<usize>,
}

impl MatchedCandidate {
    /// Puts the three parts together.
    pub fn new(text: String, score: i64, indices: Vec<usize>) -> (candidate: Self)
        ensures
            candidate.text == text,
            candidate.score == score,
            candidate.indices == indices,
    {
        MatchedCandidate { text, score, indices }
    }
}

} // verus!
