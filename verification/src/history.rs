//! What holds of a collector after a whole run of candidates, whatever the
//! candidates and the clock readings were.

use crate::candidate::MatchedCandidate;
use crate::collector::{capacity_for, CollectorState, SAMPLE_EVERY, UPDATE_INTERVAL};
use crate::ranking::{
    insert_ranked, landing_slot, lemma_landing_slot, lemma_sort_is_ranked, lemma_sort_of_ranked,
    lemma_sort_permutes, ranked_desc, stable_sort_desc,
};
use crate::selector::{lemma_tie_slot, tie_slot, EMPTY_SCORE, ITEMS_TO_SHOW};
use vstd::prelude::*;

verus! {

/// One step of a run: a candidate and the clock reading that comes with it.
pub struct Arrival {
    pub candidate: MatchedCandidate,
    pub now: nat,
}

/// The candidates of a run, in the order in which they arrived.
pub open spec fn candidates_of(arrivals: Seq<Arrival>) -> Seq<MatchedCandidate> {
    Seq::new(arrivals.len(), |i: int| arrivals[i].candidate)
}

/// The state that `start` reaches by taking `arrivals` one after the other.
pub open spec fn fed(start: CollectorState, arrivals: Seq<Arrival>) -> CollectorState
    decreases arrivals.len(),
{
    if arrivals.len() == 0 {
        start
    } else {
        fed(start, arrivals.drop_last()).pushed(arrivals.last().candidate, arrivals.last().now)
    }
}

/// A collector's mode is one that a machine can hold.
pub open spec fn feasible(number: Option<nat>) -> bool {
    number matches Some(n) ==> capacity_for(n) <= usize::MAX
}

/// Half the capacity of a bounded collector: the length its buffer is cut to.
spec fn kept(number: Option<nat>) -> int {
    match number {
        Some(n) => capacity_for(n) as int / 2,
        None => 0,
    }
}

/// The selector of `state` refers, slot by slot, to the candidates that
/// stand first when `all` is ranked: the best first, and of candidates with
/// one score the one that came first.
pub open spec fn shows_the_best(state: CollectorState, all: Seq<MatchedCandidate>) -> bool {
    forall|i: int|
        0 <= i < ITEMS_TO_SHOW && i < all.len() ==> (#[trigger] state.top_results[i])
            < state.buffer.len() && state.buffer[state.top_results[i] as int] == stable_sort_desc(
            all,
        )[i]
}

/// The selector of `state` holds the scores that stand first when `all` is
/// ranked, and `EMPTY_SCORE` beyond them.
pub open spec fn holds_best_scores(state: CollectorState, all: Seq<MatchedCandidate>) -> bool {
    forall|i: int|
        0 <= i < ITEMS_TO_SHOW ==> #[trigger] state.top_scores[i] == if i < all.len() {
            stable_sort_desc(all)[i].score
        } else {
            EMPTY_SCORE
        }
}

/// `state` is what a collector for `number` results holds once `all` has gone
/// through it.
spec fn tracks(state: CollectorState, number: Option<nat>, all: Seq<MatchedCandidate>) -> bool {
    let best = stable_sort_desc(all);
    &&& state.wf()
    &&& state.number == number
    &&& state.total == all.len()
    &&& holds_best_scores(state, all)
    &&& shows_the_best(state, all)
    &&& state.buffer == all || {
        &&& number is Some
        &&& state.buffer.len() >= kept(number)
        &&& all.len() >= kept(number)
        &&& forall|i: int|
            0 <= i < kept(number) ==> #[trigger] stable_sort_desc(state.buffer)[i] == best[i]
    }
}

/// Two ranked sequences that agree on their first `n` places still agree on
/// them after the same candidate has been put into both.
proof fn lemma_insert_keeps_common_prefix(
    x: Seq<MatchedCandidate>,
    y: Seq<MatchedCandidate>,
    c: MatchedCandidate,
    n: int,
)
    requires
        ranked_desc(x),
        ranked_desc(y),
        0 <= n <= x.len(),
        n <= y.len(),
        forall|i: int| 0 <= i < n ==> #[trigger] x[i] == y[i],
    ensures
        forall|i: int| 0 <= i < n ==> #[trigger] insert_ranked(x, c)[i] == insert_ranked(y, c)[i],
{
    lemma_landing_slot(x, c.score);
    lemma_landing_slot(y, c.score);
    let qx = landing_slot(x, c.score);
    let qy = landing_slot(y, c.score);
    if qx < n {
        assert(x[qx] == y[qx]);
        if qx > 0 {
            assert(x[qx - 1] == y[qx - 1]);
        }
        assert(qx == qy);
    } else {
        if qy < n {
            assert(x[qy] == y[qy]);
        }
        assert(qy >= n);
    }
    assert forall|i: int| 0 <= i < n implies #[trigger] insert_ranked(x, c)[i] == insert_ranked(
        y,
        c,
    )[i] by {
        if i < qx && i < qy {
            assert(x[i] == y[i]);
        } else if i > qx && i > qy {
            assert(x[i - 1] == y[i - 1]);
        }
    }
}

/// One more candidate in the buffer and the selector: the selector goes on
/// showing the best.
proof fn lemma_inserted_tracks(
    state: CollectorState,
    number: Option<nat>,
    all: Seq<MatchedCandidate>,
    c: MatchedCandidate,
)
    requires
        tracks(state, number, all),
        all.len() < usize::MAX,
    ensures
        state.inserted(c).consistent(),
        state.inserted(c).total == all.len() + 1,
        holds_best_scores(state.inserted(c), all.push(c)),
        shows_the_best(state.inserted(c), all.push(c)),
{
    let x = stable_sort_desc(all);
    let all2 = all.push(c);
    assert(all2.drop_last() == all);
    let x2 = stable_sort_desc(all2);
    assert(x2 == insert_ranked(x, c));
    lemma_sort_is_ranked(all);
    lemma_sort_is_ranked(all2);
    lemma_landing_slot(x, c.score);
    let shown = state.top_scores.take(state.filled as int);
    lemma_tie_slot(shown, c.score);
    let q = landing_slot(x, c.score);
    let p = tie_slot(shown, c.score);
    let s1 = state.inserted(c);
    crate::collector::lemma_inserted_consistent(state, c);
    assert forall|i: int| 0 <= i < state.filled implies shown[i] == x[i].score by {
        assert(state.top_scores[i] == x[i].score);
    }
    // the slot in the selector is the place in the ranking, as far as the selector goes
    if q < state.filled {
        assert(shown[q] == x[q].score);
        if p > 0 {
            assert(shown[p - 1] == x[p - 1].score);
        }
        if p < q {
            assert(shown[p] == x[p].score);
        }
        assert(p == q);
    } else {
        if p < state.filled {
            assert(shown[p] == x[p].score);
        }
        assert(p == state.filled);
    }
    assert forall|i: int| 0 <= i < ITEMS_TO_SHOW implies #[trigger] s1.top_scores[i] == if i
        < all2.len() {
        x2[i].score
    } else {
        EMPTY_SCORE
    } by {
        if i >= 1 {
            assert(state.top_scores[i - 1] == if i - 1 < all.len() {
                x[i - 1].score
            } else {
                EMPTY_SCORE
            });
        }
        assert(state.top_scores[i] == if i < all.len() {
            x[i].score
        } else {
            EMPTY_SCORE
        });
    }
    assert forall|i: int| 0 <= i < ITEMS_TO_SHOW && i < all2.len() implies (
    #[trigger] s1.top_results[i]) < s1.buffer.len() && s1.buffer[s1.top_results[i] as int]
        == x2[i] by {
        if i < all.len() {
            assert(state.top_results[i] < state.buffer.len());
            assert(state.buffer[state.top_results[i] as int] == x[i]);
        }
        if i >= 1 {
            assert(state.top_results[i - 1] < state.buffer.len());
            assert(state.buffer[state.top_results[i - 1] as int] == x[i - 1]);
        }
    }
}

/// One more candidate: the state goes on tracking the run.
proof fn lemma_push_tracks(
    state: CollectorState,
    number: Option<nat>,
    all: Seq<MatchedCandidate>,
    c: MatchedCandidate,
    now: nat,
)
    requires
        tracks(state, number, all),
        all.len() < usize::MAX,
        feasible(number),
    ensures
        tracks(state.pushed(c, now), number, all.push(c)),
{
    let x = stable_sort_desc(all);
    let all2 = all.push(c);
    assert(all2.drop_last() == all);
    let x2 = stable_sort_desc(all2);
    assert(x2 == insert_ranked(x, c));
    lemma_sort_is_ranked(all);
    lemma_sort_is_ranked(all2);
    let s1 = state.inserted(c);
    lemma_inserted_tracks(state, number, all, c);

    // the buffer after the insertion
    let y = stable_sort_desc(state.buffer);
    let y2 = stable_sort_desc(s1.buffer);
    assert(s1.buffer.drop_last() == state.buffer);
    assert(y2 == insert_ranked(y, c));
    lemma_sort_is_ranked(state.buffer);
    lemma_sort_is_ranked(s1.buffer);
    if state.buffer == all {
        assert(s1.buffer == all2);
    } else {
        lemma_insert_keeps_common_prefix(x, y, c, kept(number));
    }
    let s2 = s1.started(now).timed(now);
    let s3 = s2.compacted();
    crate::collector::lemma_compacted_wf(s2);
    if s2.is_full() {
        let cut = y2.take(kept(number));
        assert(s3.buffer == cut);
        assert(ranked_desc(cut));
        lemma_sort_of_ranked(cut);
        assert forall|i: int| 0 <= i < kept(number) implies #[trigger] stable_sort_desc(
            s3.buffer,
        )[i] == x2[i] by {
            assert(cut[i] == y2[i]);
        }
        assert forall|i: int| 0 <= i < ITEMS_TO_SHOW implies #[trigger] s3.top_scores[i] == if i
            < all2.len() {
            x2[i].score
        } else {
            EMPTY_SCORE
        } by {
            assert(s3.top_scores[i] == y2[i].score);
        }
        assert forall|i: int| 0 <= i < ITEMS_TO_SHOW && i < all2.len() implies (
        #[trigger] s3.top_results[i]) < s3.buffer.len() && s3.buffer[s3.top_results[i] as int]
            == x2[i] by {
            assert(s3.top_results[i] == i);
            assert(cut[i] == y2[i]);
        }
    }
}

/// A whole run: the state tracks it.
proof fn lemma_fed_tracks(number: Option<nat>, arrivals: Seq<Arrival>)
    requires
        feasible(number),
        arrivals.len() <= usize::MAX,
    ensures
        tracks(fed(CollectorState::initial(number), arrivals), number, candidates_of(arrivals)),
    decreases arrivals.len(),
{
    if arrivals.len() == 0 {
        assert(candidates_of(arrivals) =~= Seq::empty());
    } else {
        let head = arrivals.drop_last();
        lemma_fed_tracks(number, head);
        assert(candidates_of(arrivals) =~= candidates_of(head).push(arrivals.last().candidate));
        lemma_push_tracks(
            fed(CollectorState::initial(number), head),
            number,
            candidates_of(head),
            arrivals.last().candidate,
            arrivals.last().now,
        );
    }
}

/// After any run the selector is sorted, best first, and every filled slot
/// refers to a candidate of the buffer that has the slot's score.
pub proof fn lemma_selector_stays_sorted(number: Option<nat>, arrivals: Seq<Arrival>)
    requires
        feasible(number),
        arrivals.len() <= usize::MAX,
    ensures
        fed(CollectorState::initial(number), arrivals).wf(),
        fed(CollectorState::initial(number), arrivals).top_scores.len() == ITEMS_TO_SHOW,
        crate::selector::sorted_desc(fed(CollectorState::initial(number), arrivals).top_scores),
{
    lemma_fed_tracks(number, arrivals);
}

/// After any run, halvings of the buffer or not, the selector holds the
/// scores that stand first when the whole input is ranked at once, and
/// `EMPTY_SCORE` in the slots beyond the input's length.
pub proof fn lemma_selector_holds_the_best(number: Option<nat>, arrivals: Seq<Arrival>)
    requires
        feasible(number),
        arrivals.len() <= usize::MAX,
    ensures
        forall|i: int|
            0 <= i < ITEMS_TO_SHOW ==> #[trigger] fed(
                CollectorState::initial(number),
                arrivals,
            ).top_scores[i] == if i < arrivals.len() {
                stable_sort_desc(candidates_of(arrivals))[i].score
            } else {
                EMPTY_SCORE
            },
{
    lemma_fed_tracks(number, arrivals);
}

/// After any run, halvings of the buffer or not, the selector refers slot
/// by slot to the candidates that stand first when the whole input is ranked
/// at once, ties in the order in which they came.
pub proof fn lemma_selector_shows_the_best(number: Option<nat>, arrivals: Seq<Arrival>)
    requires
        feasible(number),
        arrivals.len() <= usize::MAX,
    ensures
        shows_the_best(fed(CollectorState::initial(number), arrivals), candidates_of(arrivals)),
{
    lemma_fed_tracks(number, arrivals);
}

/// What stands first when `all` is ranked at once: everything when no
/// number of results is set, else the first `number` places.
pub open spec fn best_of(all: Seq<MatchedCandidate>, number: Option<nat>) -> Seq<MatchedCandidate> {
    let ranked = stable_sort_desc(all);
    match number {
        Some(n) if n <= ranked.len() => ranked.take(n as int),
        _ => ranked,
    }
}

/// After any run, halvings of the buffer or not, ranking the buffer that
/// the collector is left with gives what ranking the whole input at once
/// gives: all of it when every candidate is kept, its first `number` places
/// otherwise.
pub proof fn lemma_ranked_matches_full_sort(number: Option<nat>, arrivals: Seq<Arrival>)
    requires
        feasible(number),
        arrivals.len() <= usize::MAX,
    ensures
        best_of(fed(CollectorState::initial(number), arrivals).buffer, number) == best_of(
            candidates_of(arrivals),
            number,
        ),
{
    lemma_fed_tracks(number, arrivals);
    let end = fed(CollectorState::initial(number), arrivals);
    let all = candidates_of(arrivals);
    lemma_sort_is_ranked(all);
    lemma_sort_is_ranked(end.buffer);
    if let Some(n) = number {
        if end.buffer != all {
            assert(n <= kept(number));
            assert forall|i: int| 0 <= i < n implies #[trigger] best_of(end.buffer, number)[i]
                == best_of(all, number)[i] by {
                assert(best_of(end.buffer, number)[i] == stable_sort_desc(end.buffer)[i]);
                assert(best_of(all, number)[i] == stable_sort_desc(all)[i]);
            }
            assert(best_of(end.buffer, number) =~= best_of(all, number));
        }
    }
}

/// The buffer that a collector for `number` results is left with once `all`
/// has gone through it: every candidate joins at the end, and whenever the
/// buffer reaches its capacity it is ranked and cut to its better half.
pub open spec fn buffer_after(number: nat, all: Seq<MatchedCandidate>) -> Seq<MatchedCandidate>
    decreases all.len(),
{
    if all.len() == 0 {
        Seq::empty()
    } else {
        let grown = buffer_after(number, all.drop_last()).push(all.last());
        if grown.len() == capacity_for(number) {
            stable_sort_desc(grown).take(grown.len() as int / 2)
        } else {
            grown
        }
    }
}

/// The buffer that a collector is left with once `all` has gone through it:
/// `all` itself when every candidate is kept.
pub open spec fn buffer_of(number: Option<nat>, all: Seq<MatchedCandidate>) -> Seq<
    MatchedCandidate,
> {
    match number {
        Some(n) => buffer_after(n, all),
        None => all,
    }
}

/// The buffer at the end of a run depends on the candidates alone, not on the
/// clock: it is `buffer_of` the candidates.
pub proof fn lemma_buffer_of_run(number: Option<nat>, arrivals: Seq<Arrival>)
    ensures
        fed(CollectorState::initial(number), arrivals).buffer == buffer_of(
            number,
            candidates_of(arrivals),
        ),
        fed(CollectorState::initial(number), arrivals).number == number,
    decreases arrivals.len(),
{
    if arrivals.len() == 0 {
        assert(candidates_of(arrivals) =~= Seq::empty());
    } else {
        let head = arrivals.drop_last();
        lemma_buffer_of_run(number, head);
        assert(candidates_of(arrivals).drop_last() =~= candidates_of(head));
        assert(candidates_of(arrivals).last() == arrivals.last().candidate);
        assert(candidates_of(arrivals) =~= candidates_of(head).push(arrivals.last().candidate));
    }
}

/// A run in which the candidates of `all` arrive with the clock at zero.
spec fn arrivals_of(all: Seq<MatchedCandidate>) -> Seq<Arrival> {
    Seq::new(all.len(), |i: int| Arrival { candidate: all[i], now: 0 })
}

/// A list shorter than the capacity stays in the buffer whole, in the order
/// in which it arrived.
pub proof fn lemma_buffer_keeps_a_short_list(number: nat, all: Seq<MatchedCandidate>)
    requires
        all.len() < capacity_for(number),
    ensures
        buffer_after(number, all) == all,
    decreases all.len(),
{
    if all.len() == 0 {
        assert(all =~= Seq::empty());
    } else {
        lemma_buffer_keeps_a_short_list(number, all.drop_last());
        assert(all.drop_last().push(all.last()) =~= all);
    }
}

/// `buffer` holds the best of `all`: ranked, it agrees with `all` ranked at
/// once on the first `ITEMS_TO_SHOW` places, or on the first `number` if that
/// is more, as far as `all` goes.
pub open spec fn holds_the_best(
    buffer: Seq<MatchedCandidate>,
    all: Seq<MatchedCandidate>,
    number: nat,
) -> bool {
    forall|i: int|
        0 <= i < all.len() && i < capacity_for(number) / 2 ==> i < buffer.len()
            && #[trigger] stable_sort_desc(buffer)[i] == stable_sort_desc(all)[i]
}

/// However often the buffer was halved, it holds the best of the input.
pub proof fn lemma_buffer_holds_the_best(number: nat, all: Seq<MatchedCandidate>)
    requires
        capacity_for(number) <= usize::MAX,
        all.len() <= usize::MAX,
    ensures
        holds_the_best(buffer_after(number, all), all, number),
{
    let arrivals = arrivals_of(all);
    assert(candidates_of(arrivals) =~= all);
    lemma_fed_tracks(Some(number), arrivals);
    lemma_buffer_of_run(Some(number), arrivals);
    lemma_sort_is_ranked(all);
}

/// Ranking the buffer and taking the first `number` places gives what
/// ranking the whole input and taking the first `number` places gives.
pub proof fn lemma_buffer_ranks_like_the_input(number: Option<nat>, all: Seq<MatchedCandidate>)
    requires
        feasible(number),
        all.len() <= usize::MAX,
    ensures
        best_of(buffer_of(number, all), number) == best_of(all, number),
{
    let arrivals = arrivals_of(all);
    assert(candidates_of(arrivals) =~= all);
    lemma_ranked_matches_full_sort(number, arrivals);
    lemma_buffer_of_run(number, arrivals);
}

/// The buffer holds nothing but candidates of the input, each no more often
/// than the input has it.
pub proof fn lemma_buffer_is_part_of_the_input(number: nat, all: Seq<MatchedCandidate>)
    ensures
        buffer_after(number, all).to_multiset().subset_of(all.to_multiset()),
    decreases all.len(),
{
    broadcast use vstd::multiset::group_multiset_axioms;

    if all.len() > 0 {
        let head = all.drop_last();
        lemma_buffer_is_part_of_the_input(number, head);
        let before = buffer_after(number, head);
        let grown = before.push(all.last());
        assert(all =~= head.push(all.last()));
        vstd::seq_lib::to_multiset_build(before, all.last());
        vstd::seq_lib::to_multiset_build(head, all.last());
        assert forall|v: MatchedCandidate|
            grown.to_multiset().count(v) <= all.to_multiset().count(v) by {
            assert(before.to_multiset().count(v) <= head.to_multiset().count(v));
        }
        if grown.len() == capacity_for(number) {
            let ranked = stable_sort_desc(grown);
            let half = grown.len() as int / 2;
            lemma_sort_permutes(grown);
            lemma_sort_is_ranked(grown);
            assert(ranked =~= ranked.take(half) + ranked.skip(half));
            vstd::seq_lib::lemma_multiset_commutative(ranked.take(half), ranked.skip(half));
            assert forall|v: MatchedCandidate|
                ranked.take(half).to_multiset().count(v) <= all.to_multiset().count(v) by {
                assert(ranked.to_multiset().count(v) == ranked.take(half).to_multiset().count(v)
                    + ranked.skip(half).to_multiset().count(v));
                assert(grown.to_multiset().count(v) <= all.to_multiset().count(v));
            }
        }
    } else {
        let none = buffer_after(number, all);
        assert forall|v: MatchedCandidate|
            none.to_multiset().count(v) <= all.to_multiset().count(v) by {
            vstd::seq_lib::to_multiset_contains(none, v);
        }
    }
}

/// Collecting is repeatable: two runs over the same candidates end with
/// buffers that rank to the same output, whatever the clock read in either
/// run.
pub proof fn lemma_collecting_is_repeatable(
    number: Option<nat>,
    first: Seq<Arrival>,
    second: Seq<Arrival>,
)
    requires
        feasible(number),
        candidates_of(first) == candidates_of(second),
        first.len() <= usize::MAX,
    ensures
        best_of(fed(CollectorState::initial(number), first).buffer, number) == best_of(
            fed(CollectorState::initial(number), second).buffer,
            number,
        ),
{
    assert(second.len() == candidates_of(second).len());
    assert(first.len() == candidates_of(first).len());
    lemma_ranked_matches_full_sort(number, first);
    lemma_ranked_matches_full_sort(number, second);
}

/// The clock readings at which the run handed out a snapshot, in order.
pub open spec fn emission_times(start: CollectorState, arrivals: Seq<Arrival>) -> Seq<nat>
    decreases arrivals.len(),
{
    if arrivals.len() == 0 {
        Seq::empty()
    } else {
        let before = fed(start, arrivals.drop_last());
        let earlier = emission_times(start, arrivals.drop_last());
        if before.inserted(arrivals.last().candidate).emits(arrivals.last().now) {
            earlier.push(arrivals.last().now)
        } else {
            earlier
        }
    }
}

/// The clock reading of a push is looked at only when `reads_clock_next`
/// says so: otherwise no snapshot goes out and the state that follows is the
/// same whatever the reading.
pub proof fn lemma_clock_read_when_due(
    state: CollectorState,
    candidate: MatchedCandidate,
    now: nat,
    other: nat,
)
    requires
        !state.reads_clock_next(),
    ensures
        !state.inserted(candidate).emits(now),
        state.pushed(candidate, now) == state.pushed(candidate, other),
{
}

/// The most snapshots that a run of `count` candidates can hand out: one for
/// every multiple of `SAMPLE_EVERY` up to `count` at which the selector is
/// full.
pub open spec fn snapshot_limit(count: nat) -> nat {
    if count >= 2 * SAMPLE_EVERY {
        (count / (SAMPLE_EVERY as nat) - 1) as nat
    } else {
        0
    }
}

/// What the emission record of a run has to do with its last state.
proof fn lemma_emissions(number: Option<nat>, arrivals: Seq<Arrival>)
    ensures
        fed(CollectorState::initial(number), arrivals).total == arrivals.len(),
        emission_times(CollectorState::initial(number), arrivals).len() > 0 ==> {
            &&& arrivals.len() > ITEMS_TO_SHOW
            &&& fed(CollectorState::initial(number), arrivals).past == emission_times(
                CollectorState::initial(number),
                arrivals,
            ).last()
        },
        emission_times(CollectorState::initial(number), arrivals).len() <= snapshot_limit(
            arrivals.len(),
        ),
        forall|k: int|
            0 <= k < emission_times(CollectorState::initial(number), arrivals).len() - 1
                ==> #[trigger] emission_times(CollectorState::initial(number), arrivals)[k + 1]
                - emission_times(CollectorState::initial(number), arrivals)[k] >= UPDATE_INTERVAL,
        emission_times(CollectorState::initial(number), arrivals).len() > 0 ==> (emission_times(
            CollectorState::initial(number),
            arrivals,
        ).len() - 1) * UPDATE_INTERVAL <= emission_times(
            CollectorState::initial(number),
            arrivals,
        ).last() - emission_times(CollectorState::initial(number), arrivals)[0],
    decreases arrivals.len(),
{
    if arrivals.len() > 0 {
        let start = CollectorState::initial(number);
        let head = arrivals.drop_last();
        lemma_emissions(number, head);
        let before = fed(start, head);
        let earlier = emission_times(start, head);
        let times = emission_times(start, arrivals);
        let inserted = before.inserted(arrivals.last().candidate);
        let now = arrivals.last().now;
        if inserted.emits(now) {
            assert(times == earlier.push(now));
            assert forall|k: int| 0 <= k < times.len() - 1 implies #[trigger] times[k + 1]
                - times[k] >= UPDATE_INTERVAL by {
                if k + 1 < earlier.len() {
                    assert(earlier[k + 1] - earlier[k] >= UPDATE_INTERVAL);
                }
            }
            if earlier.len() > 0 {
                assert(times[0] == earlier[0]);
                assert((times.len() - 1) * UPDATE_INTERVAL == (earlier.len() - 1) * UPDATE_INTERVAL
                    + UPDATE_INTERVAL) by (nonlinear_arith)
                    requires
                        times.len() == earlier.len() + 1,
                ;
            }
        }
    }
}

/// The count of a collector is the number of candidates it has taken.
pub proof fn lemma_total_counts(number: Option<nat>, arrivals: Seq<Arrival>)
    ensures
        fed(CollectorState::initial(number), arrivals).total == arrivals.len(),
{
    lemma_emissions(number, arrivals);
}

/// Snapshots are at least `UPDATE_INTERVAL` apart: of two snapshots that
/// follow one another in a run, the later one was handed out at a clock
/// reading at least that much beyond the earlier one's.
pub proof fn lemma_snapshots_are_spaced(number: Option<nat>, arrivals: Seq<Arrival>, k: int)
    requires
        0 <= k < emission_times(CollectorState::initial(number), arrivals).len() - 1,
    ensures
        emission_times(CollectorState::initial(number), arrivals)[k + 1] - emission_times(
            CollectorState::initial(number),
            arrivals,
        )[k] >= UPDATE_INTERVAL,
{
    lemma_emissions(number, arrivals);
}

/// A run hands out at most one snapshot for every multiple of `SAMPLE_EVERY`
/// at which the selector is full, none before the selector is full, and no
/// more than fit, `UPDATE_INTERVAL` apart, between the first snapshot's clock
/// reading and the last one's.
pub proof fn lemma_snapshots_are_few(number: Option<nat>, arrivals: Seq<Arrival>)
    ensures
        emission_times(CollectorState::initial(number), arrivals).len() <= snapshot_limit(
            arrivals.len(),
        ),
        arrivals.len() <= ITEMS_TO_SHOW ==> emission_times(
            CollectorState::initial(number),
            arrivals,
        ).len() == 0,
        emission_times(CollectorState::initial(number), arrivals).len() > 0 ==> (emission_times(
            CollectorState::initial(number),
            arrivals,
        ).len() - 1) * UPDATE_INTERVAL <= emission_times(
            CollectorState::initial(number),
            arrivals,
        ).last() - emission_times(CollectorState::initial(number), arrivals)[0],
{
    lemma_emissions(number, arrivals);
}

/// The counts of candidates at which the run handed out a snapshot, in
/// order.
pub open spec fn emission_points(number: Option<nat>, arrivals: Seq<Arrival>) -> Seq<nat>
    decreases arrivals.len(),
{
    if arrivals.len() == 0 {
        Seq::empty()
    } else {
        let before = fed(CollectorState::initial(number), arrivals.drop_last());
        let earlier = emission_points(number, arrivals.drop_last());
        if before.inserted(arrivals.last().candidate).emits(arrivals.last().now) {
            earlier.push(arrivals.len())
        } else {
            earlier
        }
    }
}

/// What a snapshot handed out at the count `count` shows: the state of the
/// collector just after candidate number `count` has joined the buffer and
/// the selector.
pub open spec fn shown_at(number: Option<nat>, arrivals: Seq<Arrival>, count: nat) -> CollectorState {
    fed(CollectorState::initial(number), arrivals.take(count - 1)).inserted(
        arrivals[count - 1].candidate,
    )
}

/// `shots` are the snapshots that the run handed out, in order: one for each
/// emission point, showing the state at that point.
pub open spec fn is_log_of(
    shots: Seq<crate::collector::Snapshot>,
    number: Option<nat>,
    arrivals: Seq<Arrival>,
) -> bool {
    &&& shots.len() == emission_points(number, arrivals).len()
    &&& forall|j: int|
        0 <= j < shots.len() ==> (#[trigger] shots[j]).shows(
            shown_at(number, arrivals, emission_points(number, arrivals)[j]),
        )
}

/// The clock readings of the run are those of `clock`: where a push looks at
/// the clock the reading is one that `clock` gave, and elsewhere it is zero.
pub open spec fn clock_was_read<C: Fn() -> u128>(
    arrivals: Seq<Arrival>,
    number: Option<nat>,
    clock: C,
) -> bool {
    forall|k: int|
        0 <= k < arrivals.len() ==> if fed(
            CollectorState::initial(number),
            #[trigger] arrivals.take(k),
        ).reads_clock_next() {
            arrivals[k].now <= u128::MAX && call_ensures(clock, (), arrivals[k].now as u128)
        } else {
            arrivals[k].now == 0
        }
}

/// The emission points of a run: as many as its emission times, each a
/// multiple of `SAMPLE_EVERY` beyond `ITEMS_TO_SHOW` and within the run, in
/// ascending order, and each emission time is the clock reading that came
/// with the candidate at its point.
pub proof fn lemma_emission_points(number: Option<nat>, arrivals: Seq<Arrival>)
    ensures
        emission_points(number, arrivals).len() == emission_times(
            CollectorState::initial(number),
            arrivals,
        ).len(),
        forall|j: int|
            0 <= j < emission_points(number, arrivals).len() ==> {
                &&& ITEMS_TO_SHOW < (#[trigger] emission_points(number, arrivals)[j])
                    <= arrivals.len()
                &&& emission_points(number, arrivals)[j] % (SAMPLE_EVERY as nat) == 0
                &&& emission_times(CollectorState::initial(number), arrivals)[j]
                    == arrivals[emission_points(number, arrivals)[j] - 1].now
            },
        forall|j: int, k: int|
            0 <= j < k < emission_points(number, arrivals).len() ==> emission_points(
                number,
                arrivals,
            )[j] < emission_points(number, arrivals)[k],
    decreases arrivals.len(),
{
    if arrivals.len() > 0 {
        let head = arrivals.drop_last();
        lemma_emission_points(number, head);
        lemma_total_counts(number, head);
        let earlier = emission_points(number, head);
        let points = emission_points(number, arrivals);
        assert forall|j: int| 0 <= j < points.len() implies {
            &&& ITEMS_TO_SHOW < (#[trigger] points[j]) <= arrivals.len()
            &&& points[j] % (SAMPLE_EVERY as nat) == 0
            &&& emission_times(CollectorState::initial(number), arrivals)[j] == arrivals[points[j]
                - 1].now
        } by {
            if j < earlier.len() {
                assert(points[j] == earlier[j]);
                assert(arrivals[earlier[j] - 1] == head[earlier[j] - 1]);
            }
        }
        assert forall|j: int, k: int| 0 <= j < k < points.len() implies points[j] < points[k] by {
            assert(points[j] == earlier[j]);
            if k < earlier.len() {
                assert(points[k] == earlier[k]);
            }
        }
    }
}

/// A snapshot of a run shows the best so far: the state it shows is
/// consistent, has the count of its point, and its selector refers, slot by
/// slot, to the candidates that stand first when the candidates up to that
/// point are ranked.
pub proof fn lemma_shown_is_the_best(number: Option<nat>, arrivals: Seq<Arrival>, count: nat)
    requires
        feasible(number),
        arrivals.len() <= usize::MAX,
        1 <= count <= arrivals.len(),
    ensures
        shown_at(number, arrivals, count).consistent(),
        shown_at(number, arrivals, count).total == count,
        shows_the_best(
            shown_at(number, arrivals, count),
            candidates_of(arrivals.take(count as int)),
        ),
        holds_best_scores(
            shown_at(number, arrivals, count),
            candidates_of(arrivals.take(count as int)),
        ),
{
    let before = arrivals.take(count - 1);
    lemma_fed_tracks(number, before);
    lemma_inserted_tracks(
        fed(CollectorState::initial(number), before),
        number,
        candidates_of(before),
        arrivals[count - 1].candidate,
    );
    assert(candidates_of(arrivals.take(count as int)) =~= candidates_of(before).push(
        arrivals[count - 1].candidate,
    ));
}

/// What a run has shown stays shown when the run goes on: the emission
/// points of a run are the first emission points of any run that begins
/// with it, and they show the same states.
pub proof fn lemma_log_goes_on(number: Option<nat>, arrivals: Seq<Arrival>, next: Arrival)
    ensures
        forall|j: int|
            0 <= j < emission_points(number, arrivals).len() ==> #[trigger] emission_points(
                number,
                arrivals.push(next),
            )[j] == emission_points(number, arrivals)[j] && shown_at(
                number,
                arrivals.push(next),
                emission_points(number, arrivals)[j],
            ) == shown_at(number, arrivals, emission_points(number, arrivals)[j]),
        shown_at(number, arrivals.push(next), arrivals.len() + 1) == fed(
            CollectorState::initial(number),
            arrivals,
        ).inserted(next.candidate),
        forall|k: int|
            0 <= k <= arrivals.len() ==> #[trigger] arrivals.push(next).take(k) == arrivals.take(k),
{
    let longer = arrivals.push(next);
    assert(longer.drop_last() =~= arrivals);
    lemma_emission_points(number, arrivals);
    assert(longer.take(arrivals.len() as int) =~= arrivals);
    assert forall|k: int| 0 <= k <= arrivals.len() implies #[trigger] longer.take(k)
        == arrivals.take(k) by {
        assert(longer.take(k) =~= arrivals.take(k));
    }
    assert forall|j: int| 0 <= j < emission_points(number, arrivals).len() implies
        #[trigger] emission_points(number, longer)[j] == emission_points(number, arrivals)[j]
        && shown_at(number, longer, emission_points(number, arrivals)[j]) == shown_at(
        number,
        arrivals,
        emission_points(number, arrivals)[j],
    ) by {
        let m = emission_points(number, arrivals)[j];
        assert(longer.take(m - 1) =~= arrivals.take(m - 1));
        assert(longer[m - 1] == arrivals[m - 1]);
    }
}

/// `arrivals` is a run over the candidates of `all`, in this order, with
/// the clock readings of `clock`.
pub open spec fn is_run_of<C: Fn() -> u128>(
    arrivals: Seq<Arrival>,
    number: Option<nat>,
    all: Seq<MatchedCandidate>,
    clock: C,
) -> bool {
    candidates_of(arrivals) == all && clock_was_read(arrivals, number, clock)
}

/// `state` is what a collector for `number` results holds after a run over
/// the candidates of `all` with the clock readings of `clock`.
pub open spec fn reached_by<C: Fn() -> u128>(
    state: CollectorState,
    number: Option<nat>,
    all: Seq<MatchedCandidate>,
    clock: C,
) -> bool {
    exists|arrivals: Seq<Arrival>|
        is_run_of(arrivals, number, all, clock) && #[trigger] fed(
            CollectorState::initial(number),
            arrivals,
        ) == state
}

/// The snapshots of a run of `count` candidates are no more than
/// `snapshot_limit(count)`; a run that does not fill the selector has none.
pub proof fn lemma_log_is_short(
    shots: Seq<crate::collector::Snapshot>,
    number: Option<nat>,
    arrivals: Seq<Arrival>,
)
    requires
        is_log_of(shots, number, arrivals),
    ensures
        shots.len() <= snapshot_limit(arrivals.len()),
        forall|j: int| 0 <= j < shots.len() ==> (#[trigger] shots[j]).is_sampled(),
        forall|j: int|
            0 <= j < shots.len() ==> (#[trigger] shots[j]).total == emission_points(
                number,
                arrivals,
            )[j],
{
    lemma_emission_points(number, arrivals);
    lemma_snapshots_are_few(number, arrivals);
    assert forall|j: int| 0 <= j < shots.len() implies (#[trigger] shots[j]).is_sampled()
        && shots[j].total == emission_points(number, arrivals)[j] by {
        let m = emission_points(number, arrivals)[j];
        assert(shots[j].shows(shown_at(number, arrivals, m)));
        lemma_total_counts(number, arrivals.take(m - 1));
    }
}

} // verus!
