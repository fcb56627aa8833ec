//! Scoring a line against the query.

use crate::candidate::MatchedCandidate;
use vstd::prelude::*;

verus! {

/// The scoring algorithms a search can ask for.
#[derive(Clone, Copy, Debug, PartialEq, Eq, Structural)]
pub enum Algo {
    Skim,
    Fzy,
}

/// The algorithm to use when the caller may have named none: `Fzy` then.
pub fn algo_or_default(algo: Option<Algo>) -> (chosen: Algo)
    ensures
        chosen == match algo {
            Some(named) => named,
            None => Algo::Fzy,
        },
{
    match algo {
        Some(named) => named,
        None => Algo::Fzy,
    }
}

/// What the skim algorithm makes of `line` for `query`: the score and the
/// positions of the matched characters, or `None` when `line` does not match.
pub uninterp spec fn skim_match(line: Seq<char>, query: Seq<char>) -> Option<(i64, Seq<usize>)>;

/// A scorer's answer as mathematical values.
pub open spec fn answer_view(answer: Option<(i64, Vec<usize>)>) -> Option<(i64, Seq<usize>)> {
    match answer {
        Some((score, indices)) => Some((score, indices@)),
        None => None,
    }
}

/// Calls `fuzzy_matcher::skim::fuzzy_indices` with `line` as the choice and
/// `query` as the pattern. The answer depends on the two texts alone.
#[verifier::external_body]
#[allow(deprecated)]
pub(crate) fn skim_indices(line: &str, query: &str) -> (answer: Option<(i64, Vec<usize>)>)
    ensures
        answer_view(answer) == skim_match(line@, query@),
{
    fuzzy_matcher::skim::fuzzy_indices(line, query)
}

/// The candidate that `line` and a scorer's answer for it make; a line that
/// the scorer turned down makes none.
pub open spec fn candidate_of(line: String, answer: Option<(i64, Vec<usize>)>) -> Option<
    MatchedCandidate,
> {
    match answer {
        Some((score, indices)) => Some(MatchedCandidate { text: line, score, indices }),
        None => None,
    }
}

/// Makes a candidate of `line` and a scorer's answer for it; a line that the
/// scorer turned down makes none.
pub fn candidate_from(line: String, answer: Option<(i64, Vec<usize>)>) -> (candidate: Option<
    MatchedCandidate,
>)
    ensures
        candidate == candidate_of(line, answer),
{
    match answer {
        Some((score, indices)) => Some(MatchedCandidate { text: line, score, indices }),
        None => None,
    }
}

/// Scores `line` against `query` with the skim algorithm.
pub fn skim_score(query: &str, line: String) -> (candidate: Option<MatchedCandidate>)
    ensures
        candidate is Some <==> skim_match(line@, query@) is Some,
        candidate matches Some(c) ==> c.text == line && skim_match(line@, query@) == Some(
            (c.score, c.indices@),
        ),
{
    let answer = skim_indices(line.as_str(), query);
    candidate_from(line, answer)
}

/// `answer` is what the algorithm `algo` says of `line` for `query`: for
/// skim, what the skim algorithm makes of the two texts; for fzy, an answer
/// that the scorer `fzy` gave for them.
pub open spec fn answered_by<F: Fn(&str, &str) -> Option<(i64, Vec<usize>)>>(
    algo: Algo,
    query: &str,
    line: String,
    answer: Option<(i64, Vec<usize>)>,
    fzy: F,
) -> bool {
    match algo {
        Algo::Skim => answer_view(answer) == skim_match(line@, query@),
        Algo::Fzy => exists|l: &str| l@ == line@ && #[trigger] call_ensures(fzy, (query, l), answer),
    }
}

/// Scores `line` against `query` with the algorithm `algo`. The skim
/// algorithm is built in; the fzy scorer is the caller's and is asked only
/// when `algo` is `Fzy`.
pub fn score_line<F: Fn(&str, &str) -> Option<(i64, Vec<usize>)>>(
    algo: Algo,
    query: &str,
    line: String,
    fzy: &F,
) -> (candidate: Option<MatchedCandidate>)
    requires
        forall|q: &str, l: &str| call_requires(*fzy, (q, l)),
    ensures
        exists|answer: Option<(i64, Vec<usize>)>| #[trigger]
            answered_by(algo, query, line, answer, *fzy) && candidate == candidate_of(
                line,
                answer,
            ),
        algo == Algo::Skim ==> (candidate is Some <==> skim_match(line@, query@) is Some),
        algo == Algo::Skim ==> (candidate matches Some(c) ==> c.text == line && skim_match(
            line@,
            query@,
        ) == Some((c.score, c.indices@))),
{
    match algo {
        Algo::Skim => {
            let answer = skim_indices(line.as_str(), query);
            assert(answered_by(algo, query, line, answer, *fzy));
            candidate_from(line, answer)
        },
        Algo::Fzy => {
            let answer = fzy(query, line.as_str());
            assert(answered_by(algo, query, line, answer, *fzy));
            candidate_from(line, answer)
        },
    }
}

/// The candidates that `lines` and the scorer's answers for them make, in
/// the order of the lines.
pub open spec fn picked(lines: Seq<String>, answers: Seq<Option<(i64, Vec<usize>)>>) -> Seq<
    MatchedCandidate,
>
    decreases lines.len(),
{
    if lines.len() == 0 {
        Seq::empty()
    } else {
        let head = picked(lines.drop_last(), answers.drop_last());
        match candidate_of(lines.last(), answers.last()) {
            Some(candidate) => head.push(candidate),
            None => head,
        }
    }
}

/// `candidates` is what the algorithm `algo` makes of `lines` for `query`:
/// one candidate for each line that it accepts, in the order of the lines,
/// with the line as its text and the algorithm's score and positions.
pub open spec fn scored_by<F: Fn(&str, &str) -> Option<(i64, Vec<usize>)>>(
    candidates: Seq<MatchedCandidate>,
    lines: Seq<String>,
    query: &str,
    algo: Algo,
    fzy: F,
) -> bool {
    exists|answers: Seq<Option<(i64, Vec<usize>)>>|
        answers.len() == lines.len() && (forall|i: int|
            0 <= i < lines.len() ==> answered_by(algo, query, lines[i], #[trigger] answers[i], fzy))
            && candidates == #[trigger] picked(lines, answers)
}

/// Scores every line of an in-memory list against `query` with the
/// algorithm `algo` and keeps, in order, the candidates of those that match.
pub fn score_lines<F: Fn(&str, &str) -> Option<(i64, Vec<usize>)>>(
    algo: Algo,
    query: &str,
    lines: &Vec<String>,
    fzy: &F,
) -> (candidates: Vec<MatchedCandidate>)
    requires
        forall|q: &str, l: &str| call_requires(*fzy, (q, l)),
    ensures
        scored_by(candidates@, lines@, query, algo, *fzy),
{
    let mut candidates: Vec<MatchedCandidate> = Vec::new();
    let ghost mut answers: Seq<Option<(i64, Vec<usize>)>> = Seq::empty();
    let mut done: usize = 0;
    assert(lines@.take(0) =~= Seq::empty());
    while done < lines.len()
        invariant
            done <= lines.len(),
            forall|q: &str, l: &str| call_requires(*fzy, (q, l)),
            answers.len() == done,
            forall|i: int|
                0 <= i < done ==> answered_by(algo, query, lines@[i], #[trigger] answers[i], *fzy),
            candidates@ == picked(lines@.take(done as int), answers),
        decreases lines.len() - done,
    {
        let line = lines[done].clone();
        let found = score_line(algo, query, line, fzy);
        proof {
            let answer = choose|answer: Option<(i64, Vec<usize>)>| #[trigger]
                answered_by(algo, query, line, answer, *fzy) && found == candidate_of(line, answer);
            let before = answers;
            answers = answers.push(answer);
            assert(answers.drop_last() =~= before);
            assert(lines@.take(done + 1).drop_last() =~= lines@.take(done as int));
            assert(lines@.take(done + 1).last() == line);
        }
        match found {
            Some(candidate) => {
                candidates.push(candidate);
            },
            None => {},
        }
        done = done + 1;
    }
    assert(lines@.take(lines.len() as int) =~= lines@);
    candidates
}

} // verus!
