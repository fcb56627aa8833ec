//! The bounded top-K selector: two parallel fixed-size arrays holding the best
//! scores seen so far, best first, and for each the place of its candidate in
//! the collection buffer.

use vstd::prelude::*;

verus! {

/// Number of slots in the selector.
pub const ITEMS_TO_SHOW: usize = 30;

/// Index of the worst-ranked slot.
pub const MAX_IDX: usize = ITEMS_TO_SHOW - 1;

/// Score held by a slot that no candidate occupies.
pub const EMPTY_SCORE: i64 = i64::MIN;

/// `s` never increases from one element to the next.
pub open spec fn sorted_desc(s: Seq<i64>) -> bool {
    forall|i: int, j: int| 0 <= i <= j < s.len() ==> s[i] >= s[j]
}

/// `idx` is the slot nearest the worst end whose score beats `score`.
pub open spec fn is_last_better(scores: Seq<i64>, score: i64, idx: int) -> bool {
    &&& 0 <= idx < scores.len()
    &&& scores[idx] > score
    &&& forall|j: int| idx < j < scores.len() ==> scores[j] <= score
}

/// No slot holds a score that beats `score`.
pub open spec fn none_better(scores: Seq<i64>, score: i64) -> bool {
    forall|j: int| 0 <= j < scores.len() ==> scores[j] <= score
}

/// What `pop_and_insert` leaves behind: `value` stands at `idx`, the elements
/// that stood at `idx` and after it have moved one place toward the end, and
/// the last one is gone. An `idx` at or beyond the last place overwrites the
/// last element.
pub open spec fn shifted_in<T>(s: Seq<T>, idx: int, value: T) -> Seq<T> {
    Seq::new(
        s.len(),
        |i: int|
            if i < idx && i < s.len() - 1 {
                s[i]
            } else if i == idx || i == s.len() - 1 && idx >= s.len() {
                value
            } else {
                s[i - 1]
            },
    )
}

/// One past the slot nearest the worst end whose score beats `score`, or 0
/// when no slot beats it.
pub open spec fn rank_slot(scores: Seq<i64>, score: i64) -> int
    decreases scores.len(),
{
    if scores.len() == 0 {
        0
    } else if scores.last() > score {
        scores.len() as int
    } else {
        rank_slot(scores.drop_last(), score)
    }
}

/// `rank_slot` is one past the last score that beats `score`.
pub proof fn lemma_rank_slot(scores: Seq<i64>, score: i64)
    ensures
        0 <= rank_slot(scores, score) <= scores.len(),
        forall|j: int| rank_slot(scores, score) <= j < scores.len() ==> scores[j] <= score,
        rank_slot(scores, score) > 0 ==> scores[rank_slot(scores, score) - 1] > score,
        sorted_desc(scores) ==> forall|j: int|
            0 <= j < rank_slot(scores, score) ==> scores[j] > score,
    decreases scores.len(),
{
    if scores.len() > 0 && scores.last() <= score {
        let head = scores.drop_last();
        lemma_rank_slot(head, score);
        let p = rank_slot(head, score);
        assert forall|j: int| p <= j < scores.len() implies scores[j] <= score by {
            if j < head.len() {
                assert(scores[j] == head[j]);
            }
        }
        if p > 0 {
            assert(scores[p - 1] == head[p - 1]);
        }
    }
    if sorted_desc(scores) {
        let p = rank_slot(scores, score);
        assert forall|j: int| 0 <= j < p implies scores[j] > score by {
            assert(scores[j] >= scores[p - 1]);
        }
    }
}

/// One past the last slot whose score is at least `score`, or 0 when every
/// slot scores less: the place of a candidate that ranks behind all that
/// score as much as it does.
pub open spec fn tie_slot(scores: Seq<i64>, score: i64) -> int
    decreases scores.len(),
{
    if scores.len() == 0 {
        0
    } else if scores.last() >= score {
        scores.len() as int
    } else {
        tie_slot(scores.drop_last(), score)
    }
}

/// `tie_slot` is one past the last score that is at least `score`.
pub proof fn lemma_tie_slot(scores: Seq<i64>, score: i64)
    ensures
        0 <= tie_slot(scores, score) <= scores.len(),
        forall|j: int| tie_slot(scores, score) <= j < scores.len() ==> scores[j] < score,
        tie_slot(scores, score) > 0 ==> scores[tie_slot(scores, score) - 1] >= score,
        sorted_desc(scores) ==> forall|j: int|
            0 <= j < tie_slot(scores, score) ==> scores[j] >= score,
    decreases scores.len(),
{
    if scores.len() > 0 && scores.last() < score {
        let head = scores.drop_last();
        lemma_tie_slot(head, score);
        let p = tie_slot(head, score);
        assert forall|j: int| p <= j < scores.len() implies scores[j] < score by {
            if j < head.len() {
                assert(scores[j] == head[j]);
            }
        }
        if p > 0 {
            assert(scores[p - 1] == head[p - 1]);
        }
    }
    if sorted_desc(scores) {
        let p = tie_slot(scores, score);
        assert forall|j: int| 0 <= j < p implies scores[j] >= score by {
            assert(scores[j] >= scores[p - 1]);
        }
    }
}

/// Scans from the worst slot toward the best and returns the first slot whose
/// score is strictly greater than `score`, or `None` when no slot beats it.
pub fn find_best_score_idx(top_scores: &[i64; ITEMS_TO_SHOW], score: i64) -> (found: Option<usize>)
    ensures
        match found {
            Some(idx) => is_last_better(top_scores@, score, idx as int),
            None => none_better(top_scores@, score),
        },
        sorted_desc(top_scores@) ==> (found is None <==> score >= top_scores@[0]),
        rank_slot(top_scores@, score) == match found {
            Some(idx) => idx + 1,
            None => 0,
        },
{
    let mut i: usize = ITEMS_TO_SHOW;
    while i > 0
        invariant
            i <= ITEMS_TO_SHOW,
            forall|j: int| i <= j < ITEMS_TO_SHOW ==> top_scores@[j] <= score,
        decreases i,
    {
        i = i - 1;
        if top_scores[i] > score {
            proof {
                lemma_rank_slot(top_scores@, score);
            }
            return Some(i);
        }
    }
    proof {
        lemma_rank_slot(top_scores@, score);
    }
    None
}

/// Makes room at `idx` by dropping the last element and puts `value` there.
pub fn pop_and_insert<T: Copy>(queue: &mut [T; ITEMS_TO_SHOW], idx: usize, value: T)
    ensures
        final(queue)@ == shifted_in(old(queue)@, idx as int, value),
{
    if idx < MAX_IDX {
        let mut i: usize = MAX_IDX;
        while i > idx
            invariant
                idx <= i <= MAX_IDX,
                forall|j: int| 0 <= j <= i ==> queue@[j] == old(queue)@[j],
                forall|j: int| i < j < ITEMS_TO_SHOW ==> queue@[j] == old(queue)@[j - 1],
            decreases i,
        {
            queue[i] = queue[i - 1];
            i = i - 1;
        }
        queue[idx] = value;
    } else {
        queue[MAX_IDX] = value;
    }
}

/// `values` after a value has been put at `slot`: shifted in when the slot
/// exists, left alone when the slot lies beyond the last one.
pub open spec fn put_at<T>(values: Seq<T>, slot: int, value: T) -> Seq<T> {
    if slot < values.len() {
        shifted_in(values, slot, value)
    } else {
        values
    }
}

/// The best scores seen so far, best first, and for each of them the place of
/// its candidate in the buffer that owns the candidates. Of candidates with
/// the same score the one that came first stands first. A slot that no
/// candidate occupies holds `EMPTY_SCORE`.
#[derive(Clone, Copy, Debug)]
pub struct Selector {
    pub top_scores: [i64; ITEMS_TO_SHOW],
    pub top_results: [usize; ITEMS_TO_SHOW],
    /// Number of slots that hold a candidate.
    pub filled: usize,
}

impl Selector {
    /// The scores are in descending order and the slots beyond the filled
    /// ones are empty.
    pub open spec fn wf(&self) -> bool {
        &&& self.filled <= ITEMS_TO_SHOW
        &&& sorted_desc(self.top_scores@)
        &&& forall|i: int|
            self.filled <= i < ITEMS_TO_SHOW ==> #[trigger] self.top_scores@[i] == EMPTY_SCORE
    }

    /// The slot that a candidate with the score `score` belongs in: behind
    /// the last filled slot that scores at least as much.
    pub open spec fn slot_for(&self, score: i64) -> int {
        tie_slot(self.top_scores@.take(self.filled as int), score)
    }

    /// A selector with every slot empty.
    pub fn new() -> (selector: Self)
        ensures
            selector.wf(),
            selector.filled == 0,
            forall|i: int| 0 <= i < ITEMS_TO_SHOW ==> selector.top_scores@[i] == EMPTY_SCORE,
            forall|i: int| 0 <= i < ITEMS_TO_SHOW ==> selector.top_results@[i] == 0,
    {
        Selector {
            top_scores: [EMPTY_SCORE;ITEMS_TO_SHOW],
            top_results: [0usize;ITEMS_TO_SHOW],
            filled: 0,
        }
    }

    /// Offers the selector a candidate that scores `score` and stands at
    /// `place` in the buffer, and tells whether the selector took it.
    ///
    /// The candidate belongs behind the last slot that scores at least as
    /// much: a better score ranks first, and of equal scores the one that
    /// came first. Until `ITEMS_TO_SHOW` candidates have been taken the
    /// candidate is always taken and an empty slot falls off the end. Once the
    /// selector is full, a candidate that does not beat the worst slot is
    /// turned down, and any other pushes the worst slot out.
    pub fn insert(&mut self, score: i64, place: usize) -> (taken: bool)
        requires
            old(self).wf(),
        ensures
            final(self).wf(),
            taken == (old(self).slot_for(score) < ITEMS_TO_SHOW),
            final(self).top_scores@ == put_at(
                old(self).top_scores@,
                old(self).slot_for(score),
                score,
            ),
            final(self).top_results@ == put_at(
                old(self).top_results@,
                old(self).slot_for(score),
                place,
            ),
            final(self).filled == if old(self).filled < ITEMS_TO_SHOW {
                old(self).filled + 1
            } else {
                ITEMS_TO_SHOW as int
            },
            old(self).filled < ITEMS_TO_SHOW ==> taken,
    {
        // A slot scores at least `score` exactly when it beats `score - 1`.
        let slot = if score == EMPTY_SCORE {
            self.filled
        } else {
            match find_best_score_idx(&self.top_scores, score - 1) {
                Some(idx) => idx + 1,
                None => 0,
            }
        };
        proof {
            let shown = self.top_scores@.take(self.filled as int);
            lemma_tie_slot(shown, score);
            if score == EMPTY_SCORE {
                if self.filled > 0 {
                    assert(shown.last() >= score);
                }
            } else {
                lemma_rank_slot(self.top_scores@, (score - 1) as i64);
                let t = tie_slot(shown, score);
                if t > 0 {
                    assert(shown[t - 1] == self.top_scores@[t - 1]);
                }
                if slot > 0 && slot - 1 < self.filled {
                    assert(shown[slot - 1] == self.top_scores@[slot - 1]);
                }
                if t < self.filled {
                    assert(shown[t] == self.top_scores@[t]);
                }
                assert forall|j: int| t <= j < self.filled implies self.top_scores@[j]
                    < score by {
                    assert(shown[j] == self.top_scores@[j]);
                }
            }
            assert(slot == self.slot_for(score));
            assert forall|j: int| 0 <= j < slot implies self.top_scores@[j] >= score by {
                if slot > 0 {
                    assert(shown[slot - 1] == self.top_scores@[slot - 1]);
                    assert(self.top_scores@[j] >= self.top_scores@[slot - 1]);
                }
            }
            assert forall|j: int| slot <= j < ITEMS_TO_SHOW implies self.top_scores@[j]
                <= score by {
                if j < self.filled {
                    assert(shown[j] == self.top_scores@[j]);
                }
            }
        }
        let taken = slot < ITEMS_TO_SHOW;
        if taken {
            pop_and_insert(&mut self.top_results, slot, place);
            pop_and_insert(&mut self.top_scores, slot, score);
        }
        if self.filled < ITEMS_TO_SHOW {
            self.filled = self.filled + 1;
        }
        taken
    }
}

} // verus!
