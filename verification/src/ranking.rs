//! Ranking a buffer of candidates: best score first, candidates of equal score
//! in the order in which they arrived.

use crate::candidate::MatchedCandidate;
use rayon::slice::ParallelSliceMut;
use std::cmp::Ordering;
use vstd::prelude::*;

verus! {

/// The scores of `s` never increase from one candidate to the next.
pub open spec fn ranked_desc(s: Seq<MatchedCandidate>) -> bool {
    forall|i: int, j: int| 0 <= i <= j < s.len() ==> s[i].score >= s[j].score
}

/// Where a candidate with score `score` lands in a ranked `s`: behind every
/// candidate that scores at least as much.
pub open spec fn landing_slot(s: Seq<MatchedCandidate>, score: i64) -> int
    decreases s.len(),
{
    if s.len() == 0 {
        0
    } else if s.last().score >= score {
        s.len() as int
    } else {
        landing_slot(s.drop_last(), score)
    }
}

/// `s` with `c` put at its landing slot.
pub open spec fn insert_ranked(s: Seq<MatchedCandidate>, c: MatchedCandidate) -> Seq<
    MatchedCandidate,
> {
    s.insert(landing_slot(s, c.score), c)
}

/// The candidates of `s` ranked by descending score, candidates of equal score
/// kept in the order they have in `s`.
pub open spec fn stable_sort_desc(s: Seq<MatchedCandidate>) -> Seq<MatchedCandidate>
    decreases s.len(),
{
    if s.len() == 0 {
        Seq::empty()
    } else {
        insert_ranked(stable_sort_desc(s.drop_last()), s.last())
    }
}

/// The candidates of `s` whose score is `score`, in the order of `s`.
pub open spec fn with_score(s: Seq<MatchedCandidate>, score: i64) -> Seq<MatchedCandidate> {
    s.filter(|c: MatchedCandidate| c.score == score)
}

/// The landing slot separates the candidates that score at least `score` from
/// those that score less.
pub proof fn lemma_landing_slot(s: Seq<MatchedCandidate>, score: i64)
    ensures
        0 <= landing_slot(s, score) <= s.len(),
        forall|i: int| landing_slot(s, score) <= i < s.len() ==> s[i].score < score,
        landing_slot(s, score) > 0 ==> s[landing_slot(s, score) - 1].score >= score,
        ranked_desc(s) ==> forall|i: int| 0 <= i < landing_slot(s, score) ==> s[i].score >= score,
    decreases s.len(),
{
    if s.len() > 0 && s.last().score < score {
        let head = s.drop_last();
        lemma_landing_slot(head, score);
        let q = landing_slot(head, score);
        assert forall|i: int| q <= i < s.len() implies s[i].score < score by {
            if i < head.len() {
                assert(s[i] == head[i]);
            }
        }
        if q > 0 {
            assert(s[q - 1] == head[q - 1]);
        }
        if ranked_desc(s) {
            assert forall|i: int| 0 <= i < q implies s[i].score >= score by {
                assert(s[i].score >= s[q - 1].score);
            }
        }
    }
}

/// Inserting into a ranked sequence leaves it ranked, one longer.
pub proof fn lemma_insert_ranked(s: Seq<MatchedCandidate>, c: MatchedCandidate)
    requires
        ranked_desc(s),
    ensures
        ranked_desc(insert_ranked(s, c)),
        insert_ranked(s, c).len() == s.len() + 1,
{
    lemma_landing_slot(s, c.score);
    let q = landing_slot(s, c.score);
    let t = insert_ranked(s, c);
    assert forall|i: int, j: int| 0 <= i <= j < t.len() implies t[i].score >= t[j].score by {
        if i < q && j > q {
            assert(t[i] == s[i] && t[j] == s[j - 1]);
        } else if i < q && j < q {
            assert(t[i] == s[i] && t[j] == s[j]);
        } else if i > q {
            assert(t[i] == s[i - 1] && t[j] == s[j - 1]);
        }
    }
}

/// The result of the sort is ranked and as long as its input.
pub proof fn lemma_sort_is_ranked(s: Seq<MatchedCandidate>)
    ensures
        ranked_desc(stable_sort_desc(s)),
        stable_sort_desc(s).len() == s.len(),
    decreases s.len(),
{
    if s.len() > 0 {
        lemma_sort_is_ranked(s.drop_last());
        lemma_insert_ranked(stable_sort_desc(s.drop_last()), s.last());
    }
}

/// The sort neither drops nor invents a candidate.
pub proof fn lemma_sort_permutes(s: Seq<MatchedCandidate>)
    ensures
        stable_sort_desc(s).to_multiset() == s.to_multiset(),
    decreases s.len(),
{
    if s.len() > 0 {
        let head = s.drop_last();
        let sorted = stable_sort_desc(head);
        lemma_sort_permutes(head);
        lemma_landing_slot(sorted, s.last().score);
        let q = landing_slot(sorted, s.last().score);
        vstd::seq_lib::to_multiset_insert(sorted, q, s.last());
        vstd::seq_lib::to_multiset_build(head, s.last());
        assert(s == head.push(s.last()));
    } else {
        assert(s =~= Seq::empty());
    }
}

/// A buffer that is ranked already comes out of the sort unchanged.
pub proof fn lemma_sort_of_ranked(s: Seq<MatchedCandidate>)
    requires
        ranked_desc(s),
    ensures
        stable_sort_desc(s) == s,
    decreases s.len(),
{
    if s.len() > 0 {
        let head = s.drop_last();
        lemma_sort_of_ranked(head);
        if head.len() > 0 {
            assert(head.last() == s[s.len() - 2]);
        }
        assert(landing_slot(head, s.last().score) == head.len());
        assert(head.insert(head.len() as int, s.last()) =~= s);
    }
}

/// Sorting twice gives what sorting once gives.
pub proof fn lemma_sort_idempotent(s: Seq<MatchedCandidate>)
    ensures
        stable_sort_desc(stable_sort_desc(s)) == stable_sort_desc(s),
{
    lemma_sort_is_ranked(s);
    lemma_sort_of_ranked(stable_sort_desc(s));
}

/// What one more candidate at the end does to the candidates of one score.
pub proof fn lemma_with_score_push(s: Seq<MatchedCandidate>, c: MatchedCandidate, score: i64)
    ensures
        with_score(s.push(c), score) == if c.score == score {
            with_score(s, score).push(c)
        } else {
            with_score(s, score)
        },
{
    reveal(Seq::filter);
    assert(s.push(c).drop_last() =~= s);
}

/// A sequence in which no candidate has the score `score` has no candidates
/// of that score.
pub proof fn lemma_with_score_absent(s: Seq<MatchedCandidate>, score: i64)
    requires
        forall|i: int| 0 <= i < s.len() ==> (#[trigger] s[i]).score != score,
    ensures
        with_score(s, score) == Seq::<MatchedCandidate>::empty(),
    decreases s.len(),
{
    reveal(Seq::filter);
    if s.len() > 0 {
        let head = s.drop_last();
        assert forall|i: int| 0 <= i < head.len() implies (#[trigger] head[i]).score != score by {
            assert(head[i] == s[i]);
        }
        lemma_with_score_absent(head, score);
        assert(s.last() == s[s.len() - 1]);
    }
}

/// The sort is stable: the candidates of any one score stand in the result in
/// the order they had before.
pub proof fn lemma_sort_is_stable(s: Seq<MatchedCandidate>, score: i64)
    ensures
        with_score(stable_sort_desc(s), score) == with_score(s, score),
    decreases s.len(),
{
    if s.len() == 0 {
        assert(stable_sort_desc(s) =~= s);
    } else {
        let head = s.drop_last();
        let c = s.last();
        let x = stable_sort_desc(head);
        lemma_sort_is_stable(head, score);
        lemma_sort_is_ranked(head);
        lemma_landing_slot(x, c.score);
        let q = landing_slot(x, c.score);
        let front = x.take(q);
        let back = x.skip(q);
        assert(x =~= front + back);
        assert(stable_sort_desc(s) =~= front.push(c) + back);
        Seq::filter_distributes_over_add(front, back, |c: MatchedCandidate| c.score == score);
        Seq::filter_distributes_over_add(
            front.push(c),
            back,
            |c: MatchedCandidate| c.score == score,
        );
        lemma_with_score_push(front, c, score);
        lemma_with_score_push(head, c, score);
        assert(s =~= head.push(c));
        if c.score == score {
            assert forall|i: int| 0 <= i < back.len() implies (#[trigger] back[i]).score
                != score by {
                assert(back[i] == x[q + i]);
            }
            lemma_with_score_absent(back, score);
            assert(with_score(front, score) + with_score(back, score) =~= with_score(
                front,
                score,
            ));
            assert(with_score(front, score).push(c) + with_score(back, score) =~= with_score(
                front,
                score,
            ).push(c));
        }
    }
}

/// There is one way only to rank candidates by descending score and keep the
/// candidates of each score in their order: two ranked sequences that agree,
/// for every score, on the candidates of that score and their order are the
/// same sequence.
pub proof fn lemma_stable_ranking_is_unique(t: Seq<MatchedCandidate>, u: Seq<MatchedCandidate>)
    requires
        ranked_desc(t),
        ranked_desc(u),
        forall|score: i64| #[trigger] with_score(t, score) == with_score(u, score),
    ensures
        t == u,
    decreases t.len(),
{
    if t.len() == 0 {
        if u.len() > 0 {
            let m = u.last().score;
            lemma_with_score_push(u.drop_last(), u.last(), m);
            assert(u =~= u.drop_last().push(u.last()));
            lemma_with_score_absent(t, m);
            assert(with_score(t, m) == with_score(u, m));
            assert(false);
        }
        assert(t =~= u);
    } else {
        let m = t.last().score;
        let t1 = t.drop_last();
        assert(t =~= t1.push(t.last()));
        lemma_with_score_push(t1, t.last(), m);
        assert(with_score(t, m) == with_score(u, m));
        if u.len() == 0 {
            lemma_with_score_absent(u, m);
            assert(false);
        }
        let n = u.last().score;
        let u1 = u.drop_last();
        assert(u =~= u1.push(u.last()));
        lemma_with_score_push(u1, u.last(), n);
        assert(with_score(t, n) == with_score(u, n));
        if n < m {
            // no candidate of `t` scores as little as `n`
            assert forall|i: int| 0 <= i < t.len() implies (#[trigger] t[i]).score != n by {
                assert(t[i].score >= t[t.len() - 1].score);
            }
            lemma_with_score_absent(t, n);
            assert(false);
        }
        if m < n {
            assert forall|i: int| 0 <= i < u.len() implies (#[trigger] u[i]).score != m by {
                assert(u[i].score >= u[u.len() - 1].score);
            }
            lemma_with_score_absent(u, m);
            assert(false);
        }
        assert(with_score(t, m).last() == t.last());
        assert(with_score(u, m).last() == u.last());
        assert forall|score: i64| #[trigger] with_score(t1, score) == with_score(u1, score) by {
            lemma_with_score_push(t1, t.last(), score);
            lemma_with_score_push(u1, u.last(), score);
            assert(with_score(t, score) == with_score(u, score));
            if score == m {
                assert(with_score(t1, m) =~= with_score(t, m).drop_last());
                assert(with_score(u1, m) =~= with_score(u, m).drop_last());
            }
        }
        lemma_stable_ranking_is_unique(t1, u1);
    }
}

/// How `a` and `b` compare when the higher score is to come first.
pub fn descending_order(a: &MatchedCandidate, b: &MatchedCandidate) -> (order: Ordering)
    ensures
        order == Ordering::Less <==> a.score > b.score,
        order == Ordering::Greater <==> a.score < b.score,
{
    if a.score > b.score {
        Ordering::Less
    } else if a.score < b.score {
        Ordering::Greater
    } else {
        Ordering::Equal
    }
}

/// Calls rayon's `par_sort_by` (trait `ParallelSliceMut`) with
/// `descending_order` as the comparator. That sort leaves the slice ordered
/// by the comparator and is documented as stable: elements that compare equal,
/// here the candidates of one score, keep their order.
#[verifier::external_body]
fn par_sort_by_score(buffer: &mut Vec<MatchedCandidate>)
    ensures
        ranked_desc(final(buffer)@),
        forall|score: i64| #[trigger]
            with_score(final(buffer)@, score) == with_score(old(buffer)@, score),
{
    buffer.par_sort_by(|a, b| descending_order(a, b));
}

/// Ranks `buffer` in place: best score first, ties in their former order.
pub fn sort_by_score(buffer: &mut Vec<MatchedCandidate>)
    ensures
        final(buffer)@ == stable_sort_desc(old(buffer)@),
{
    par_sort_by_score(buffer);
    proof {
        let sorted = stable_sort_desc(old(buffer)@);
        lemma_sort_is_ranked(old(buffer)@);
        assert forall|score: i64| #[trigger]
            with_score(buffer@, score) == with_score(sorted, score) by {
            lemma_sort_is_stable(old(buffer)@, score);
        }
        lemma_stable_ranking_is_unique(buffer@, sorted);
    }
}

/// Ranks `buffer`: best score first, ties in arrival order.
pub fn rank(buffer: Vec<MatchedCandidate>) -> (ranked: Vec<MatchedCandidate>)
    ensures
        ranked@ == stable_sort_desc(buffer@),
        ranked_desc(ranked@),
        ranked@.len() == buffer@.len(),
        ranked@.to_multiset() == buffer@.to_multiset(),
{
    let mut ranked = buffer;
    sort_by_score(&mut ranked);
    proof {
        lemma_sort_is_ranked(buffer@);
        lemma_sort_permutes(buffer@);
    }
    ranked
}

} // verus!
