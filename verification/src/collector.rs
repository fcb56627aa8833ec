//! The streaming collector: takes scored candidates one at a time, keeps them
//! in a buffer, keeps the selector in step with the buffer, decides when a
//! progress snapshot is due and, when only the first results are wanted, halves
//! the buffer whenever it fills up.

use crate::candidate::MatchedCandidate;
use crate::ranking::{lemma_sort_is_ranked, sort_by_score, stable_sort_desc};
use crate::selector::{
    lemma_tie_slot, put_at, sorted_desc, tie_slot, Selector, EMPTY_SCORE, ITEMS_TO_SHOW,
};
use vstd::prelude::*;

verus! {

/// Least time between two snapshots, in nanoseconds (300 ms).
pub const UPDATE_INTERVAL: u128 = 300_000_000;

/// A snapshot is considered only when the count of candidates is a multiple
/// of this.
pub const SAMPLE_EVERY: usize = 16;

/// What a collector holds, as mathematical values.
pub struct CollectorState {
    /// The candidates kept, in the order they stand in the buffer.
    pub buffer: Seq<MatchedCandidate>,
    /// The selector's scores, best first.
    pub top_scores: Seq<i64>,
    /// For each selector slot, the place of its candidate in `buffer`.
    pub top_results: Seq<usize>,
    /// Number of selector slots that hold a candidate.
    pub filled: nat,
    /// Number of candidates taken so far.
    pub total: nat,
    /// Clock reading at the last snapshot, or at the end of the fill phase.
    pub past: nat,
    /// How many ranked results are wanted; `None` when every candidate is kept.
    pub number: Option<nat>,
}

/// Length at which the buffer of a collector for `number` results is halved.
pub open spec fn capacity_for(number: nat) -> nat {
    if number > ITEMS_TO_SHOW {
        2 * number
    } else {
        2 * (ITEMS_TO_SHOW as nat)
    }
}

impl CollectorState {
    /// The state of a collector that has taken nothing yet.
    pub open spec fn initial(number: Option<nat>) -> CollectorState {
        CollectorState {
            buffer: Seq::empty(),
            top_scores: Seq::new(ITEMS_TO_SHOW as nat, |i: int| EMPTY_SCORE),
            top_results: Seq::new(ITEMS_TO_SHOW as nat, |i: int| 0usize),
            filled: 0,
            total: 0,
            past: 0,
            number,
        }
    }

    /// The selector is sorted, every filled slot refers to a candidate in the
    /// buffer that has the slot's score, and the buffer has a length that its
    /// mode allows. The buffer may be full.
    pub open spec fn consistent(self) -> bool {
        &&& self.top_scores.len() == ITEMS_TO_SHOW
        &&& self.top_results.len() == ITEMS_TO_SHOW
        &&& sorted_desc(self.top_scores)
        &&& self.filled == if self.total < ITEMS_TO_SHOW {
            self.total
        } else {
            ITEMS_TO_SHOW as nat
        }
        &&& forall|i: int|
            0 <= i < self.filled ==> (#[trigger] self.top_results[i]) < self.buffer.len()
                && self.buffer[self.top_results[i] as int].score == self.top_scores[i]
        &&& forall|i: int|
            self.filled <= i < ITEMS_TO_SHOW ==> #[trigger] self.top_scores[i] == EMPTY_SCORE
        &&& self.filled <= self.buffer.len() <= self.total
        &&& self.buffer.len() <= usize::MAX
        &&& match self.number {
            None => self.buffer.len() == self.total,
            Some(number) => {
                &&& capacity_for(number) <= usize::MAX
                &&& self.buffer.len() <= capacity_for(number)
                &&& self.total < capacity_for(number) ==> self.buffer.len() == self.total
            },
        }
    }

    /// Whether the buffer has reached the length at which it is halved.
    pub open spec fn is_full(self) -> bool {
        self.number matches Some(number) && self.buffer.len() == capacity_for(number)
    }

    /// The state is consistent and has room for one more candidate: the state
    /// of every collector between two calls.
    pub open spec fn wf(self) -> bool {
        self.consistent() && !self.is_full()
    }

    /// The state after `candidate` has joined the buffer and the selector.
    ///
    /// The candidate takes the slot behind the last candidate that scores at
    /// least as much, so candidates of one score stand in the order in which
    /// they came. While fewer than `ITEMS_TO_SHOW` candidates have been taken
    /// that slot always exists and an empty slot falls off the end; afterwards
    /// the candidate is left out of the selector unless it beats the worst
    /// slot, and otherwise pushes the worst slot out.
    pub open spec fn inserted(self, candidate: MatchedCandidate) -> CollectorState {
        let slot = tie_slot(self.top_scores.take(self.filled as int), candidate.score);
        CollectorState {
            buffer: self.buffer.push(candidate),
            top_scores: put_at(self.top_scores, slot, candidate.score),
            top_results: put_at(self.top_results, slot, self.buffer.len() as usize),
            filled: if self.filled < ITEMS_TO_SHOW {
                self.filled + 1
            } else {
                ITEMS_TO_SHOW as nat
            },
            total: self.total + 1,
            past: self.past,
            number: self.number,
        }
    }

    /// Whether the clock is consulted in this state: the selector is full and
    /// the count of candidates is a multiple of `SAMPLE_EVERY`.
    pub open spec fn samples(self) -> bool {
        self.total > ITEMS_TO_SHOW && self.total % (SAMPLE_EVERY as nat) == 0
    }

    /// Whether a snapshot goes out in this state when the clock reads `now`.
    pub open spec fn emits(self, now: nat) -> bool {
        self.samples() && now - self.past >= UPDATE_INTERVAL
    }

    /// The state after the progress policy has looked at the clock: the
    /// reading is kept when a snapshot goes out, and nothing changes when none
    /// does.
    pub open spec fn timed(self, now: nat) -> CollectorState {
        if self.emits(now) {
            CollectorState { past: now, ..self }
        } else {
            self
        }
    }

    /// The state after the candidate that filled the selector has been taken:
    /// the time from which the first interval is counted is `now`. Any other
    /// state is left as it is.
    pub open spec fn started(self, now: nat) -> CollectorState {
        if self.total == ITEMS_TO_SHOW {
            CollectorState { past: now, ..self }
        } else {
            self
        }
    }

    /// Whether the push that comes next looks at the clock.
    pub open spec fn reads_clock_next(self) -> bool {
        let next = self.total + 1;
        next == ITEMS_TO_SHOW || (next > ITEMS_TO_SHOW && next % (SAMPLE_EVERY as nat) == 0)
    }

    /// The state after a full buffer has been ranked and cut to its better
    /// half, the selector reading off the first `ITEMS_TO_SHOW` places; any
    /// other state is left as it is.
    pub open spec fn compacted(self) -> CollectorState {
        if self.is_full() {
            let ranked = stable_sort_desc(self.buffer);
            CollectorState {
                buffer: ranked.take(self.buffer.len() as int / 2),
                top_scores: Seq::new(ITEMS_TO_SHOW as nat, |i: int| ranked[i].score),
                top_results: Seq::new(ITEMS_TO_SHOW as nat, |i: int| i as usize),
                ..self
            }
        } else {
            self
        }
    }

    /// The state after one candidate has been taken with the clock at `now`.
    pub open spec fn pushed(self, candidate: MatchedCandidate, now: nat) -> CollectorState {
        self.inserted(candidate).started(now).timed(now).compacted()
    }
}

/// The current best candidates, as they go to the frontend while the search is
/// still running.
#[derive(Debug)]
pub struct Snapshot {
    /// Number of candidates taken so far.
    pub total: usize,
    /// The text of each selector slot, best first.
    pub lines: Vec<String>,
    /// The matched positions of each selector slot, best first.
    pub indices: Vec<Vec<usize>>,
}

impl Snapshot {
    /// The snapshot has the shape of one that a collector hands out: taken
    /// with the selector full, at a count that is a multiple of
    /// `SAMPLE_EVERY`, with one line and one list of positions for each slot.
    pub open spec fn is_sampled(&self) -> bool {
        &&& self.total > ITEMS_TO_SHOW
        &&& self.total % SAMPLE_EVERY == 0
        &&& self.lines@.len() == ITEMS_TO_SHOW
        &&& self.indices@.len() == ITEMS_TO_SHOW
    }

    /// The snapshot holds the count of `state` and, slot by slot, the text and
    /// the matched positions of the candidates that the selector refers to.
    pub open spec fn shows(&self, state: CollectorState) -> bool {
        &&& self.total == state.total
        &&& self.lines@.len() == ITEMS_TO_SHOW
        &&& self.indices@.len() == ITEMS_TO_SHOW
        &&& forall|i: int|
            0 <= i < ITEMS_TO_SHOW ==> (#[trigger] self.lines@[i])@
                == state.buffer[state.top_results[i] as int].text@
        &&& forall|i: int|
            0 <= i < ITEMS_TO_SHOW ==> (#[trigger] self.indices@[i])@
                == state.buffer[state.top_results[i] as int].indices@
    }
}

/// Collects scored candidates one at a time.
#[derive(Debug)]
pub struct Collector {
    buffer: Vec<MatchedCandidate>,
    selector: Selector,
    total: usize,
    past: u128,
    number: Option<usize>,
}

impl View for Collector {
    type V = CollectorState;

    closed spec fn view(&self) -> CollectorState {
        CollectorState {
            buffer: self.buffer@,
            top_scores: self.selector.top_scores@,
            top_results: self.selector.top_results@,
            filled: self.selector.filled as nat,
            total: self.total as nat,
            past: self.past as nat,
            number: match self.number {
                Some(number) => Some(number as nat),
                None => None,
            },
        }
    }
}

impl Collector {
    /// A collector that keeps every candidate it is given.
    pub fn collect_all() -> (collector: Self)
        ensures
            collector@ == CollectorState::initial(None),
            collector@.wf(),
    {
        let collector = Collector {
            buffer: Vec::new(),
            selector: Selector::new(),
            total: 0,
            past: 0,
            number: None,
        };
        assert(collector@.top_scores =~= CollectorState::initial(None).top_scores);
        assert(collector@.top_results =~= CollectorState::initial(None).top_results);
        collector
    }

    /// A collector for a caller that wants the first `number` ranked results
    /// only: its buffer never grows beyond twice `number`, or twice
    /// `ITEMS_TO_SHOW` if that is more.
    pub fn collect_number(number: usize) -> (collector: Self)
        requires
            capacity_for(number as nat) <= usize::MAX,
        ensures
            collector@ == CollectorState::initial(Some(number as nat)),
            collector@.wf(),
    {
        let collector = Collector {
            buffer: Vec::new(),
            selector: Selector::new(),
            total: 0,
            past: 0,
            number: Some(number),
        };
        assert(collector@.top_scores =~= CollectorState::initial(None).top_scores);
        assert(collector@.top_results =~= CollectorState::initial(None).top_results);
        collector
    }

    /// Number of candidates taken so far.
    pub fn total(&self) -> (total: usize)
        ensures
            total == self@.total,
    {
        self.total
    }

    /// The candidates kept, in the order they stand in the buffer.
    pub fn buffer(&self) -> (buffer: &Vec<MatchedCandidate>)
        ensures
            buffer@ == self@.buffer,
    {
        &self.buffer
    }

    /// The selector's scores, best first; `EMPTY_SCORE` in an empty slot.
    pub fn top_scores(&self) -> (scores: &[i64; ITEMS_TO_SHOW])
        ensures
            scores@ == self@.top_scores,
    {
        &self.selector.top_scores
    }

    /// For each selector slot, the place of its candidate in the buffer.
    pub fn top_results(&self) -> (results: &[usize; ITEMS_TO_SHOW])
        ensures
            results@ == self@.top_results,
    {
        &self.selector.top_results
    }

    /// Whether the next call of `push` looks at its clock reading. When it
    /// does not, any value may be passed.
    pub fn clock_due(&self) -> (due: bool)
        requires
            self@.total < usize::MAX,
        ensures
            due == self@.reads_clock_next(),
    {
        let next = self.total + 1;
        next == ITEMS_TO_SHOW || (next > ITEMS_TO_SHOW && next % SAMPLE_EVERY == 0)
    }

    /// Puts `candidate` at the end of the buffer and gives it the selector
    /// slot that its score earns, if any.
    pub fn insert(&mut self, candidate: MatchedCandidate)
        requires
            old(self)@.wf(),
            old(self)@.total < usize::MAX,
        ensures
            final(self)@ == old(self)@.inserted(candidate),
            final(self)@.consistent(),
    {
        proof {
            lemma_inserted_consistent(self@, candidate);
        }
        let score = candidate.score;
        let place = self.buffer.len();
        self.buffer.push(candidate);
        self.selector.insert(score, place);
        self.total = self.total + 1;
    }

    /// Sets the time from which the first interval is counted, if the
    /// candidate taken last is the one that filled the selector.
    pub fn start_clock(&mut self, now: u128)
        requires
            old(self)@.consistent(),
        ensures
            final(self)@ == old(self)@.started(now as nat),
            final(self)@.consistent(),
    {
        if self.total == ITEMS_TO_SHOW {
            self.past = now;
        }
    }

    /// Looks at the clock reading `now` and hands out a snapshot when one is
    /// due: the selector is full, the count of candidates is a multiple of
    /// `SAMPLE_EVERY`, and at least `UPDATE_INTERVAL` has passed since the last
    /// snapshot (or since the selector became full). The reading becomes the
    /// time of the last snapshot when one goes out; nothing changes when none
    /// does.
    pub fn try_notify_top_results(&mut self, now: u128) -> (snapshot: Option<Snapshot>)
        requires
            old(self)@.consistent(),
        ensures
            final(self)@ == old(self)@.timed(now as nat),
            final(self)@.consistent(),
            snapshot is Some <==> old(self)@.emits(now as nat),
            snapshot matches Some(shot) ==> shot.shows(old(self)@),
            snapshot is Some ==> final(self)@.past == now && now - old(self)@.past
                >= UPDATE_INTERVAL,
            snapshot is None ==> final(self)@ == old(self)@,
    {
        if self.total > ITEMS_TO_SHOW && self.total % SAMPLE_EVERY == 0 {
            if now >= self.past && now - self.past >= UPDATE_INTERVAL {
                let mut lines: Vec<String> = Vec::new();
                let mut indices: Vec<Vec<usize>> = Vec::new();
                let mut i: usize = 0;
                while i < ITEMS_TO_SHOW
                    invariant
                        i <= ITEMS_TO_SHOW,
                        self@.consistent(),
                        self@.total > ITEMS_TO_SHOW,
                        lines@.len() == i,
                        indices@.len() == i,
                        forall|j: int|
                            0 <= j < i ==> (#[trigger] lines@[j])@
                                == self@.buffer[self@.top_results[j] as int].text@,
                        forall|j: int|
                            0 <= j < i ==> (#[trigger] indices@[j])@
                                == self@.buffer[self@.top_results[j] as int].indices@,
                    decreases ITEMS_TO_SHOW - i,
                {
                    let place = self.selector.top_results[i];
                    assert(self@.top_results[i as int] < self@.buffer.len());
                    let candidate = &self.buffer[place];
                    lines.push(candidate.text.clone());
                    let positions = candidate.indices.clone();
                    assert(positions@ =~= candidate.indices@);
                    indices.push(positions);
                    i = i + 1;
                }
                let shot = Snapshot { total: self.total, lines, indices };
                self.past = now;
                return Some(shot);
            }
        }
        None
    }

    /// Halves a full buffer: ranks it, lets the selector read off the first
    /// `ITEMS_TO_SHOW` places and drops the worse half. Does nothing to a
    /// buffer that is not full.
    pub fn compact(&mut self)
        requires
            old(self)@.consistent(),
        ensures
            final(self)@ == old(self)@.compacted(),
            final(self)@.wf(),
    {
        proof {
            lemma_compacted_wf(self@);
        }
        if let Some(number) = self.number {
            let capacity = if number > ITEMS_TO_SHOW {
                2 * number
            } else {
                2 * ITEMS_TO_SHOW
            };
            if self.buffer.len() == capacity {
                let ghost before = self@;
                sort_by_score(&mut self.buffer);
                proof {
                    lemma_sort_is_ranked(before.buffer);
                }
                let mut i: usize = 0;
                while i < ITEMS_TO_SHOW
                    invariant
                        i <= ITEMS_TO_SHOW,
                        self.buffer@ == stable_sort_desc(before.buffer),
                        self.buffer@.len() >= ITEMS_TO_SHOW,
                        self.total == before.total,
                        self.selector.filled == before.filled,
                        self.past == before.past,
                        self.number == Some(number),
                        forall|j: int|
                            0 <= j < i ==> self.selector.top_scores@[j] == self.buffer@[j].score,
                        forall|j: int| 0 <= j < i ==> self.selector.top_results@[j] == j,
                    decreases ITEMS_TO_SHOW - i,
                {
                    self.selector.top_scores[i] = self.buffer[i].score;
                    self.selector.top_results[i] = i;
                    i = i + 1;
                }
                let half = self.buffer.len() / 2;
                self.buffer.truncate(half);
                assert(self@.top_scores =~= before.compacted().top_scores);
                assert(self@.top_results =~= before.compacted().top_results);
                assert(self@.buffer =~= before.compacted().buffer);
            }
        }
    }

    /// Takes one candidate, with the clock at `now`.
    ///
    /// The candidate joins the buffer and the selector; if it is the one that
    /// fills the selector, the first interval starts at `now`; then a snapshot
    /// of the selector is handed out if one is due; then a full buffer is
    /// halved.
    pub fn push(&mut self, candidate: MatchedCandidate, now: u128) -> (snapshot: Option<Snapshot>)
        requires
            old(self)@.wf(),
            old(self)@.total < usize::MAX,
        ensures
            final(self)@ == old(self)@.pushed(candidate, now as nat),
            final(self)@.wf(),
            snapshot is Some <==> old(self)@.inserted(candidate).emits(now as nat),
            snapshot matches Some(shot) ==> shot.shows(old(self)@.inserted(candidate)),
    {
        self.insert(candidate);
        self.start_clock(now);
        let snapshot = self.try_notify_top_results(now);
        self.compact();
        snapshot
    }

    /// Ends the collection: the count of candidates taken and the buffer as
    /// it stands, neither ranked nor cut.
    pub fn finish(self) -> (outcome: (usize, Vec<MatchedCandidate>))
        ensures
            outcome.0 == self@.total,
            outcome.1@ == self@.buffer,
    {
        (self.total, self.buffer)
    }
}

/// Taking a candidate leaves the state consistent.
pub proof fn lemma_inserted_consistent(state: CollectorState, candidate: MatchedCandidate)
    requires
        state.wf(),
        state.total < usize::MAX,
    ensures
        state.inserted(candidate).consistent(),
{
    let after = state.inserted(candidate);
    let shown = state.top_scores.take(state.filled as int);
    let slot = tie_slot(shown, candidate.score);
    lemma_tie_slot(shown, candidate.score);
    assert forall|j: int| 0 <= j < slot implies state.top_scores[j] >= candidate.score by {
        assert(shown[slot - 1] == state.top_scores[slot - 1]);
        assert(state.top_scores[j] >= state.top_scores[slot - 1]);
    }
    assert forall|j: int| slot <= j < ITEMS_TO_SHOW implies state.top_scores[j]
        <= candidate.score by {
        if j < state.filled {
            assert(shown[j] == state.top_scores[j]);
        }
    }
    assert(sorted_desc(after.top_scores));
    assert forall|i: int| 0 <= i < after.filled implies (#[trigger] after.top_results[i])
        < after.buffer.len() && after.buffer[after.top_results[i] as int].score
        == after.top_scores[i] by {
        if slot < ITEMS_TO_SHOW {
            if i < slot {
                assert(after.top_results[i] == state.top_results[i]);
            } else if i > slot {
                assert(after.top_results[i] == state.top_results[i - 1]);
            }
        } else {
            assert(after.top_results[i] == state.top_results[i]);
        }
    }
    assert forall|i: int| after.filled <= i < ITEMS_TO_SHOW implies #[trigger] after.top_scores[i]
        == EMPTY_SCORE by {
        assert(after.top_scores[i] == state.top_scores[i - 1]);
    }
}

/// Halving a full buffer leaves a state with room for the next candidate.
pub proof fn lemma_compacted_wf(state: CollectorState)
    requires
        state.consistent(),
    ensures
        state.compacted().wf(),
{
    if state.is_full() {
        lemma_sort_is_ranked(state.buffer);
        let after = state.compacted();
        let ranked = stable_sort_desc(state.buffer);
        assert forall|i: int| 0 <= i < after.filled implies (#[trigger] after.top_results[i])
            < after.buffer.len() && after.buffer[after.top_results[i] as int].score
            == after.top_scores[i] by {
            assert(after.top_results[i] == i);
        }
    }
}

} // verus!
