//! Running a whole list of candidates through a collector.

use crate::candidate::MatchedCandidate;
use crate::collector::{capacity_for, Collector, CollectorState, Snapshot};
use crate::history::{
    best_of, buffer_after, buffer_of, candidates_of, clock_was_read, emission_points, feasible,
    fed, holds_the_best, is_log_of, is_run_of, lemma_buffer_holds_the_best,
    lemma_buffer_is_part_of_the_input, lemma_buffer_keeps_a_short_list, lemma_buffer_of_run,
    lemma_buffer_ranks_like_the_input, lemma_emission_points, lemma_log_goes_on,
    lemma_log_is_short, lemma_selector_stays_sorted, lemma_total_counts, reached_by, shown_at,
    snapshot_limit, Arrival,
};
use crate::ranking::rank;
use crate::scorer::{algo_or_default, score_lines, scored_by, Algo};
use crate::selector::ITEMS_TO_SHOW;
use vstd::prelude::*;

verus! {

/// Takes one candidate into `collector`, which has been through the run
/// `run`: reads `clock` if the collector wants the time, and if a snapshot
/// falls due hands it to `notify` and puts it at the end of `shots`. Returns
/// the run with this arrival at its end.
fn take_one<C: Fn() -> u128, N: Fn(&Snapshot)>(
    collector: &mut Collector,
    candidate: MatchedCandidate,
    clock: &C,
    notify: &N,
    shots: &mut Vec<Snapshot>,
    Ghost(number): Ghost<Option<nat>>,
    Ghost(run): Ghost<Seq<Arrival>>,
) -> (longer: Ghost<Seq<Arrival>>)
    requires
        old(collector)@ == fed(CollectorState::initial(number), run),
        feasible(number),
        run.len() < usize::MAX,
        clock_was_read(run, number, *clock),
        is_log_of(old(shots)@, number, run),
        call_requires(*clock, ()),
        forall|shot: Snapshot| shot.is_sampled() ==> call_requires(*notify, (&shot,)),
    ensures
        final(collector)@ == fed(CollectorState::initial(number), longer@),
        longer@.len() == run.len() + 1,
        longer@.drop_last() == run,
        longer@.last().candidate == candidate,
        candidates_of(longer@) == candidates_of(run).push(candidate),
        clock_was_read(longer@, number, *clock),
        is_log_of(final(shots)@, number, longer@),
        run.len() < ITEMS_TO_SHOW ==> final(shots)@ == old(shots)@,
{
    proof {
        lemma_selector_stays_sorted(number, run);
        lemma_total_counts(number, run);
    }
    let due = collector.clock_due();
    let now = if due {
        clock()
    } else {
        0
    };
    let ghost next = Arrival { candidate, now: now as nat };
    let ghost longer = run.push(next);
    let ghost before = collector@;
    let ghost shown = shots@;
    proof {
        lemma_log_goes_on(number, run, next);
        assert(longer.drop_last() =~= run);
        assert(candidates_of(longer) =~= candidates_of(run).push(candidate));
        assert forall|k: int| 0 <= k < longer.len() implies if fed(
            CollectorState::initial(number),
            #[trigger] longer.take(k),
        ).reads_clock_next() {
            longer[k].now <= u128::MAX && call_ensures(*clock, (), longer[k].now as u128)
        } else {
            longer[k].now == 0
        } by {
            assert(longer.take(k) == run.take(k));
            if k < run.len() {
                assert(longer[k] == run[k]);
            } else {
                assert(run.take(k) =~= run);
            }
        }
    }
    match collector.push(candidate, now) {
        Some(shot) => {
            proof {
                let state = before.inserted(candidate);
                assert(shot.shows(state));
                assert(state.samples());
                assert(shot.is_sampled());
            }
            notify(&shot);
            shots.push(shot);
        },
        None => {},
    }
    proof {
        let points = emission_points(number, longer);
        assert forall|j: int| 0 <= j < shots@.len() implies (#[trigger] shots@[j]).shows(
            shown_at(number, longer, points[j]),
        ) by {
            if j < shown.len() {
                assert(shots@[j] == shown[j]);
                assert(points[j] == emission_points(number, run)[j]);
            }
        }
    }
    Ghost(longer)
}

/// Takes `candidates` one after the other into a `collector` that has been
/// through the run `prior`. Returns the whole run.
fn drain<C: Fn() -> u128, N: Fn(&Snapshot)>(
    collector: &mut Collector,
    candidates: Vec<MatchedCandidate>,
    clock: &C,
    notify: &N,
    shots: &mut Vec<Snapshot>,
    Ghost(number): Ghost<Option<nat>>,
    Ghost(prior): Ghost<Seq<Arrival>>,
) -> (run: Ghost<Seq<Arrival>>)
    requires
        old(collector)@ == fed(CollectorState::initial(number), prior),
        feasible(number),
        prior.len() + candidates@.len() <= usize::MAX,
        clock_was_read(prior, number, *clock),
        is_log_of(old(shots)@, number, prior),
        call_requires(*clock, ()),
        forall|shot: Snapshot| shot.is_sampled() ==> call_requires(*notify, (&shot,)),
    ensures
        final(collector)@ == fed(CollectorState::initial(number), run@),
        candidates_of(run@) == candidates_of(prior) + candidates@,
        run@.len() == prior.len() + candidates@.len(),
        clock_was_read(run@, number, *clock),
        is_log_of(final(shots)@, number, run@),
        run@.len() <= ITEMS_TO_SHOW ==> final(shots)@ == old(shots)@,
{
    let ghost all = candidates@;
    let ghost mut run: Seq<Arrival> = prior;
    assert(candidates_of(run) =~= candidates_of(prior) + all.take(0));
    for candidate in it: candidates.into_iter()
        invariant
            it.seq() == all,
            prior.len() + all.len() <= usize::MAX,
            call_requires(*clock, ()),
            forall|shot: Snapshot| shot.is_sampled() ==> call_requires(*notify, (&shot,)),
            feasible(number),
            run.len() == prior.len() + it.index(),
            candidates_of(run) == candidates_of(prior) + all.take(it.index() as int),
            collector@ == fed(CollectorState::initial(number), run),
            clock_was_read(run, number, *clock),
            is_log_of(shots@, number, run),
            run.len() <= ITEMS_TO_SHOW ==> shots@ == old(shots)@,
    {
        let ghost before = run;
        let longer = take_one(collector, candidate, clock, notify, shots, Ghost(number), Ghost(run));
        proof {
            run = longer@;
            assert(all.take(it.index() + 1) =~= all.take(it.index() as int).push(candidate));
            assert(candidates_of(run) =~= candidates_of(prior) + all.take(it.index() + 1));
        }
    }
    assert(all.take(all.len() as int) =~= all);
    Ghost(run)
}

/// The first `ITEMS_TO_SHOW` candidates of `all`, or all of them if there
/// are fewer.
pub open spec fn first_to_show(all: Seq<MatchedCandidate>) -> Seq<MatchedCandidate> {
    if all.len() < ITEMS_TO_SHOW {
        all
    } else {
        all.take(ITEMS_TO_SHOW as int)
    }
}

/// First fills the selector of a fresh collector: takes candidates from the
/// front of `candidates` until `ITEMS_TO_SHOW` have been taken or none is
/// left. No snapshot goes out while it does.
///
/// Returns `Ok` with the count when the candidates ran out before the
/// selector was full. Otherwise returns `Err` with the count, which is
/// `ITEMS_TO_SHOW`, and the candidates that are still to be taken; the time
/// from which the first interval is counted has then been read off `clock`.
pub fn select_top_items_to_show<C: Fn() -> u128>(
    collector: &mut Collector,
    candidates: Vec<MatchedCandidate>,
    clock: &C,
) -> (outcome: Result<usize, (usize, Vec<MatchedCandidate>)>)
    requires
        old(collector)@ == CollectorState::initial(old(collector)@.number),
        feasible(old(collector)@.number),
        call_requires(*clock, ()),
    ensures
        reached_by(
            final(collector)@,
            old(collector)@.number,
            first_to_show(candidates@),
            *clock,
        ),
        final(collector)@.wf(),
        final(collector)@.number == old(collector)@.number,
        final(collector)@.buffer == first_to_show(candidates@),
        final(collector)@.total == first_to_show(candidates@).len(),
        outcome is Ok <==> candidates@.len() < ITEMS_TO_SHOW,
        outcome matches Ok(total) ==> total == candidates@.len(),
        outcome matches Err((total, rest)) ==> total == ITEMS_TO_SHOW && rest@
            == candidates@.skip(ITEMS_TO_SHOW as int),
{
    let ghost number = collector@.number;
    let ghost all = candidates@;
    let mut first = candidates;
    let rest = if first.len() >= ITEMS_TO_SHOW {
        Some(first.split_off(ITEMS_TO_SHOW))
    } else {
        None
    };
    let ghost taken = first@;
    assert(taken =~= first_to_show(all));
    let count = first.len();
    let silent = |shot: &Snapshot| {};
    let mut shots: Vec<Snapshot> = Vec::new();
    let ghost none: Seq<Arrival> = Seq::empty();
    proof {
        assert(candidates_of(none) =~= Seq::empty());
    }
    let run = drain(collector, first, clock, &silent, &mut shots, Ghost(number), Ghost(none));
    proof {
        assert(candidates_of(run@) =~= taken);
        lemma_selector_stays_sorted(number, run@);
        lemma_total_counts(number, run@);
        lemma_buffer_of_run(number, run@);
        if let Some(n) = number {
            lemma_buffer_keeps_a_short_list(n, taken);
        }
    }
    match rest {
        Some(rest) => Err((count, rest)),
        None => Ok(count),
    }
}

/// Goes through `candidates` with `collector`: first the filling of the
/// selector, then, if candidates are left, one after the other with a snapshot
/// to `notify` whenever one is due. Returns the snapshots handed out, in
/// order, and the run.
fn collect<C: Fn() -> u128, N: Fn(&Snapshot)>(
    collector: &mut Collector,
    candidates: Vec<MatchedCandidate>,
    clock: &C,
    notify: &N,
) -> (log: (Vec<Snapshot>, Ghost<Seq<Arrival>>))
    requires
        old(collector)@ == CollectorState::initial(old(collector)@.number),
        feasible(old(collector)@.number),
        call_requires(*clock, ()),
        forall|shot: Snapshot| shot.is_sampled() ==> call_requires(*notify, (&shot,)),
    ensures
        final(collector)@ == fed(CollectorState::initial(old(collector)@.number), log.1@),
        is_run_of(log.1@, old(collector)@.number, candidates@, *clock),
        is_log_of(log.0@, old(collector)@.number, log.1@),
        log.0@.len() <= snapshot_limit(candidates@.len()),
        final(collector)@.buffer == buffer_of(old(collector)@.number, candidates@),
        final(collector)@.total == candidates@.len(),
{
    let ghost number = collector@.number;
    let ghost all = candidates@;
    assert(all.len() == candidates.len());
    let mut shots: Vec<Snapshot> = Vec::new();
    let ghost mut whole: Seq<Arrival> = Seq::empty();
    match select_top_items_to_show(collector, candidates, clock) {
        Ok(_) => {
            proof {
                whole = choose|run: Seq<Arrival>|
                    is_run_of(run, number, all, *clock) && #[trigger] fed(
                        CollectorState::initial(number),
                        run,
                    ) == collector@;
                lemma_emission_points(number, whole);
                assert(whole.len() == candidates_of(whole).len());
                if emission_points(number, whole).len() > 0 {
                    assert(emission_points(number, whole)[0] <= whole.len());
                }
                assert(emission_points(number, whole).len() == 0);
            }
        },
        Err((_, rest)) => {
            let ghost prior = choose|run: Seq<Arrival>|
                is_run_of(run, number, all.take(ITEMS_TO_SHOW as int), *clock) && #[trigger] fed(
                    CollectorState::initial(number),
                    run,
                ) == collector@;
            proof {
                assert(prior.len() == candidates_of(prior).len());
                lemma_emission_points(number, prior);
                if emission_points(number, prior).len() > 0 {
                    assert(emission_points(number, prior)[0] <= prior.len());
                }
                assert(emission_points(number, prior).len() == 0);
            }
            let run = drain(collector, rest, clock, notify, &mut shots, Ghost(number), Ghost(prior));
            proof {
                whole = run@;
                assert(candidates_of(whole) =~= all);
            }
        },
    }
    proof {
        lemma_buffer_of_run(number, whole);
        lemma_total_counts(number, whole);
        lemma_log_is_short(shots@, number, whole);
    }
    (shots, Ghost(whole))
}

/// Collects every candidate of `candidates` and returns them as they came
/// in: nothing is ranked and nothing is dropped, whether or not a candidate
/// made it into the selector. Ranking the result is left to the caller.
///
/// While the list is being gone through, `notify` gets a snapshot of the best
/// candidates so far whenever one is due by the time that `clock` tells, in
/// nanoseconds. The snapshots come back as well, in the order in which they
/// went out, together with the run: the candidates with the clock readings
/// that came with them.
pub fn dyn_collect_all<C: Fn() -> u128, N: Fn(&Snapshot)>(
    candidates: Vec<MatchedCandidate>,
    clock: C,
    notify: N,
) -> (outcome: (Vec<MatchedCandidate>, Vec<Snapshot>, Ghost<Seq<Arrival>>))
    requires
        call_requires(clock, ()),
        forall|shot: Snapshot| shot.is_sampled() ==> call_requires(notify, (&shot,)),
    ensures
        outcome.0@ == candidates@,
        is_run_of(outcome.2@, None, candidates@, clock),
        is_log_of(outcome.1@, None, outcome.2@),
        outcome.1@.len() <= snapshot_limit(candidates@.len()),
{
    let mut collector = Collector::collect_all();
    let (shots, run) = collect(&mut collector, candidates, &clock, &notify);
    let (_, buffer) = collector.finish();
    (buffer, shots, run)
}

/// Collects the candidates of `candidates` for a caller that wants the first
/// `number` ranked results only, and never holds more than twice that many,
/// or twice `ITEMS_TO_SHOW`. Returns how many candidates there were and the
/// buffer as the run left it, neither ranked nor cut to `number`.
///
/// A list shorter than the capacity comes back whole, in the order in which
/// it came in. Of a longer list the buffer still holds the best: ranked, it
/// agrees with the whole list ranked at once on the first `ITEMS_TO_SHOW`
/// places, or on the first `number` if that is more.
///
/// While the list is being gone through, `notify` gets a snapshot of the best
/// candidates so far whenever one is due by the time that `clock` tells, in
/// nanoseconds. The snapshots come back as well, in the order in which they
/// went out, together with the run.
pub fn dyn_collect_number<C: Fn() -> u128, N: Fn(&Snapshot)>(
    candidates: Vec<MatchedCandidate>,
    number: usize,
    clock: C,
    notify: N,
) -> (outcome: (usize, Vec<MatchedCandidate>, Vec<Snapshot>, Ghost<Seq<Arrival>>))
    requires
        capacity_for(number as nat) <= usize::MAX,
        call_requires(clock, ()),
        forall|shot: Snapshot| shot.is_sampled() ==> call_requires(notify, (&shot,)),
    ensures
        outcome.0 == candidates@.len(),
        outcome.1@ == buffer_after(number as nat, candidates@),
        candidates@.len() < capacity_for(number as nat) ==> outcome.1@ == candidates@,
        outcome.1@.to_multiset().subset_of(candidates@.to_multiset()),
        holds_the_best(outcome.1@, candidates@, number as nat),
        is_run_of(outcome.3@, Some(number as nat), candidates@, clock),
        is_log_of(outcome.2@, Some(number as nat), outcome.3@),
        outcome.2@.len() <= snapshot_limit(candidates@.len()),
{
    let mut collector = Collector::collect_number(number);
    proof {
        assert(candidates@.len() == candidates.len());
        lemma_buffer_is_part_of_the_input(number as nat, candidates@);
        if candidates@.len() < capacity_for(number as nat) {
            lemma_buffer_keeps_a_short_list(number as nat, candidates@);
        }
        lemma_buffer_holds_the_best(number as nat, candidates@);
    }
    let (shots, run) = collect(&mut collector, candidates, &clock, &notify);
    let (total, buffer) = collector.finish();
    (total, buffer, shots, run)
}

/// The number of results asked for, as a number without bound.
pub open spec fn wanted(number: Option<usize>) -> Option<nat> {
    match number {
        Some(n) => Some(n as nat),
        None => None,
    }
}

/// Ranks what a collection left in its buffer and cuts the ranking to the
/// number of results that was asked for.
pub fn rank_collected(buffer: Vec<MatchedCandidate>, number: Option<usize>) -> (ranked: Vec<
    MatchedCandidate,
>)
    ensures
        ranked@ == best_of(buffer@, wanted(number)),
{
    let mut ranked = rank(buffer);
    if let Some(n) = number {
        ranked.truncate(n);
    }
    ranked
}

/// Filters the lines of an in-memory list by `query` and ranks those that
/// match: all of them, or the best `number`. The lines are scored with the
/// algorithm `algo`, with fzy if none is named; the skim algorithm is built
/// in and the fzy scorer is the caller's.
///
/// Returns how many lines matched and the ranking of their candidates: best
/// score first, candidates of equal score in the order of the lines.
///
/// While the matches are being collected, `notify` gets a snapshot of the
/// best candidates so far whenever one is due by the time that `clock` tells,
/// in nanoseconds. The snapshots come back as well, in the order in which
/// they went out, together with the run: the candidates in the order of
/// their lines, with the clock readings that came with them.
pub fn dyn_fuzzy_filter_and_rank<
    F: Fn(&str, &str) -> Option<(i64, Vec<usize>)>,
    C: Fn() -> u128,
    N: Fn(&Snapshot),
>(
    query: &str,
    lines: &Vec<String>,
    algo: Option<Algo>,
    number: Option<usize>,
    fzy: F,
    clock: C,
    notify: N,
) -> (outcome: (usize, Vec<MatchedCandidate>, Vec<Snapshot>, Ghost<Seq<Arrival>>))
    requires
        number matches Some(n) ==> capacity_for(n as nat) <= usize::MAX,
        forall|q: &str, l: &str| call_requires(fzy, (q, l)),
        call_requires(clock, ()),
        forall|shot: Snapshot| shot.is_sampled() ==> call_requires(notify, (&shot,)),
    ensures
        scored_by(
            candidates_of(outcome.3@),
            lines@,
            query,
            match algo {
                Some(named) => named,
                None => Algo::Fzy,
            },
            fzy,
        ),
        outcome.0 == outcome.3@.len(),
        outcome.1@ == best_of(candidates_of(outcome.3@), wanted(number)),
        clock_was_read(outcome.3@, wanted(number), clock),
        is_log_of(outcome.2@, wanted(number), outcome.3@),
        outcome.2@.len() <= snapshot_limit(outcome.3@.len()),
{
    let candidates = score_lines(algo_or_default(algo), query, lines, &fzy);
    let ghost scored = candidates@;
    assert(scored.len() == candidates.len());
    let (total, buffer, shots, run) = match number {
        Some(n) => dyn_collect_number(candidates, n, clock, notify),
        None => {
            let total = candidates.len();
            let (buffer, shots, run) = dyn_collect_all(candidates, clock, notify);
            (total, buffer, shots, run)
        },
    };
    proof {
        lemma_buffer_ranks_like_the_input(wanted(number), scored);
        assert(run@.len() == candidates_of(run@).len());
    }
    (total, rank_collected(buffer, number), shots, run)
}

} // verus!
