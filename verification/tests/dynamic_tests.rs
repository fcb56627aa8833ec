use maple_cli::candidate::MatchedCandidate;
use maple_cli::collector::{Snapshot, SAMPLE_EVERY, UPDATE_INTERVAL};
use maple_cli::collector::Collector;
use maple_cli::dynamic::{
    dyn_collect_all, dyn_collect_number, dyn_fuzzy_filter_and_rank, rank_collected,
    select_top_items_to_show,
};
use maple_cli::scorer::Algo;
use maple_cli::selector::EMPTY_SCORE;
use maple_cli::selector::ITEMS_TO_SHOW;
use std::cell::{Cell, RefCell};

fn collect_all(list: Vec<MatchedCandidate>) -> Vec<MatchedCandidate> {
    let (buffer, shots, _) = dyn_collect_all(list, || 0, |_: &Snapshot| {});
    assert!(shots.is_empty());
    buffer
}

fn collect_number(list: Vec<MatchedCandidate>, number: usize) -> (usize, Vec<MatchedCandidate>) {
    let (total, buffer, shots, _) = dyn_collect_number(list, number, || 0, |_: &Snapshot| {});
    assert!(shots.is_empty());
    (total, buffer)
}

fn no_fzy(_: &str, _: &str) -> Option<(i64, Vec<usize>)> {
    panic!("the fzy scorer is not to be asked")
}

fn filter_and_rank(
    query: &str,
    lines: &Vec<String>,
    number: Option<usize>,
) -> (usize, Vec<MatchedCandidate>) {
    let (total, ranked, shots, _) = dyn_fuzzy_filter_and_rank(
        query,
        lines,
        Some(Algo::Skim),
        number,
        no_fzy,
        || 0,
        |_: &Snapshot| {},
    );
    assert!(shots.is_empty());
    (total, ranked)
}

fn candidates(scores: &[i64]) -> Vec<MatchedCandidate> {
    scores
        .iter()
        .enumerate()
        .map(|(i, &score)| MatchedCandidate::new(format!("line {}", i), score, vec![i]))
        .collect()
}

fn scrambled(n: usize) -> Vec<i64> {
    (0..n).map(|i| ((i * 7919) % 1013) as i64 - 400).collect()
}

fn expected_order(scores: &[i64]) -> Vec<(i64, String)> {
    let mut all: Vec<(i64, String)> =
        scores.iter().enumerate().map(|(i, &s)| (s, format!("line {}", i))).collect();
    all.sort_by(|a, b| b.0.cmp(&a.0));
    all
}

fn arrival_order(scores: &[i64]) -> Vec<(i64, String)> {
    scores.iter().enumerate().map(|(i, &s)| (s, format!("line {}", i))).collect()
}

#[test]
fn collect_all_returns_the_candidates_as_they_came() {
    let (buffer, shots, _) = dyn_collect_all(
        vec![
            MatchedCandidate::new("b".to_string(), 1, vec![0]),
            MatchedCandidate::new("a".to_string(), 2, vec![0]),
        ],
        || panic!("the clock is not to be read"),
        |_: &Snapshot| panic!("no snapshot is due"),
    );
    assert!(shots.is_empty());
    let got: Vec<(&str, i64, &[usize])> =
        buffer.iter().map(|c| (c.text.as_str(), c.score, &c.indices[..])).collect();
    assert_eq!(got, vec![("b", 1, &[0usize][..]), ("a", 2, &[0usize][..])]);
}

#[test]
fn collect_all_keeps_what_the_selector_turns_down() {
    let scores = scrambled(2000);
    let buffer = collect_all(candidates(&scores));
    let got: Vec<(i64, String)> = buffer.into_iter().map(|c| (c.score, c.text)).collect();
    assert_eq!(got, arrival_order(&scores));
}

#[test]
fn collect_all_then_rank() {
    let scores = scrambled(2000);
    let buffer = collect_all(candidates(&scores));
    let got: Vec<(i64, String)> =
        rank_collected(buffer, None).into_iter().map(|c| (c.score, c.text)).collect();
    assert_eq!(got, expected_order(&scores));
}

#[test]
fn collect_all_is_repeatable() {
    let scores: Vec<i64> = scrambled(1000).into_iter().map(|s| s % 5).collect();
    let clock_a = Cell::new(0u128);
    let (first, shots, _) = dyn_collect_all(
        candidates(&scores),
        || {
            clock_a.set(clock_a.get() + UPDATE_INTERVAL);
            clock_a.get()
        },
        |_: &Snapshot| {},
    );
    assert!(!shots.is_empty());
    let second = collect_all(candidates(&scores));
    let a: Vec<(String, i64, Vec<usize>)> =
        rank_collected(first, None).into_iter().map(|c| (c.text, c.score, c.indices)).collect();
    let b: Vec<(String, i64, Vec<usize>)> =
        rank_collected(second, None).into_iter().map(|c| (c.text, c.score, c.indices)).collect();
    assert_eq!(a, b);
}

#[test]
fn collect_all_of_nothing() {
    assert!(collect_all(Vec::new()).is_empty());
}

#[test]
fn collect_number_equals_the_full_sort() {
    let scores = scrambled(3000);
    for number in [0usize, 1, 7, 30, 31, 64, 500, 5000] {
        let (total, buffer) = collect_number(candidates(&scores), number);
        assert_eq!(total, 3000);
        let limit = number.max(ITEMS_TO_SHOW);
        assert!(limit.min(3000) <= buffer.len() && buffer.len() < 2 * limit);
        // ranked, the buffer agrees with the whole list on its best places
        let mut held: Vec<(i64, String)> = buffer.iter().map(|c| (c.score, c.text.clone())).collect();
        held.sort_by(|a, b| b.0.cmp(&a.0));
        assert_eq!(&held[..limit.min(3000)], &expected_order(&scores)[..limit.min(3000)]);
        let ranked = rank_collected(buffer, Some(number));
        let got: Vec<(i64, String)> = ranked.into_iter().map(|c| (c.score, c.text)).collect();
        let expected: Vec<(i64, String)> = expected_order(&scores).into_iter().take(number).collect();
        assert_eq!(got, expected, "number = {}", number);
    }
}

#[test]
fn collect_number_with_many_ties() {
    let scores: Vec<i64> = (0..1000).map(|i| ((i * 613) % 4) as i64).collect();
    let (_, buffer) = collect_number(candidates(&scores), 40);
    let got: Vec<(i64, String)> =
        rank_collected(buffer, Some(40)).into_iter().map(|c| (c.score, c.text)).collect();
    let expected: Vec<(i64, String)> = expected_order(&scores).into_iter().take(40).collect();
    assert_eq!(got, expected);
}

fn best_so_far(scores: &[i64], count: usize) -> Vec<(i64, String)> {
    expected_order(&scores[..count]).into_iter().take(ITEMS_TO_SHOW).collect()
}

#[test]
fn clock_is_read_only_at_sampled_points() {
    let reads = Cell::new(0usize);
    let told: RefCell<Vec<(usize, Vec<String>)>> = RefCell::new(Vec::new());
    let scores = scrambled(1000);
    let (buffer, shots, _) = dyn_collect_all(
        candidates(&scores),
        || {
            reads.set(reads.get() + 1);
            (reads.get() as u128) * UPDATE_INTERVAL
        },
        |shot: &Snapshot| told.borrow_mut().push((shot.total, shot.lines.clone())),
    );
    assert_eq!(buffer.len(), 1000);
    // once when the selector is full, then at every multiple of 16 above 30
    let sampled = (ITEMS_TO_SHOW + 1..=1000).filter(|t| t % SAMPLE_EVERY == 0).count();
    assert_eq!(sampled, 61);
    assert_eq!(reads.get(), 1 + sampled);
    // every reading is a full interval after the one before: each sample emits
    assert_eq!(shots.len(), sampled);
    assert_eq!(shots[0].total, 32);
    assert_eq!(shots.last().unwrap().total, 992);
    // what came back is what went out
    let told = told.into_inner();
    assert_eq!(told.len(), shots.len());
    for (shot, (total, lines)) in shots.iter().zip(told.iter()) {
        assert_eq!(shot.total, *total);
        assert_eq!(&shot.lines, lines);
    }
    for (k, shot) in shots.iter().enumerate() {
        assert_eq!(shot.total, 16 * (k + 2));
        assert_eq!(shot.lines.len(), ITEMS_TO_SHOW);
        assert_eq!(shot.indices.len(), ITEMS_TO_SHOW);
        // the thirty best of the candidates so far, ties in the order in which they came
        let best = best_so_far(&scores, shot.total);
        for slot in 0..ITEMS_TO_SHOW {
            assert_eq!(shot.lines[slot], best[slot].1);
            let place: usize = best[slot].1["line ".len()..].parse().unwrap();
            assert_eq!(shot.indices[slot], vec![place]);
        }
    }
}

#[test]
fn snapshots_of_a_thousand_candidates_are_few_and_spaced() {
    // one candidate every 7 ms
    let now = Cell::new(0u128);
    let readings: RefCell<Vec<u128>> = RefCell::new(Vec::new());
    let taken = Cell::new(0usize);
    let scores = scrambled(1000);
    let list: Vec<MatchedCandidate> = candidates(&scores);
    let (_, _, shots, _) = dyn_collect_number(
        list,
        50,
        || {
            now.set(now.get() + 7_000_000 * 16);
            now.get()
        },
        |shot: &Snapshot| {
            readings.borrow_mut().push(now.get());
            taken.set(shot.total);
        },
    );
    let readings = readings.into_inner();
    assert_eq!(readings.len(), shots.len());
    assert!(!shots.is_empty() && shots.len() <= 61);
    let span = readings.last().unwrap() - readings[0];
    assert!((shots.len() as u128 - 1) * UPDATE_INTERVAL <= span);
    assert_eq!(taken.get(), shots.last().unwrap().total);
    for pair in readings.windows(2) {
        assert!(pair[1] - pair[0] >= UPDATE_INTERVAL);
    }
    for pair in shots.windows(2) {
        assert!(pair[0].total < pair[1].total);
    }
    for shot in &shots {
        assert!(shot.total >= 32 && shot.total <= 992 && shot.total % SAMPLE_EVERY == 0);
        let best = best_so_far(&scores, shot.total);
        for slot in 0..ITEMS_TO_SHOW {
            assert_eq!(shot.lines[slot], best[slot].1);
        }
    }
}

#[test]
fn no_snapshot_when_time_stands_still() {
    let (total, _, shots, _) = dyn_collect_number(
        candidates(&scrambled(1000)),
        10,
        || 5,
        |_: &Snapshot| panic!("no snapshot is due"),
    );
    assert_eq!(total, 1000);
    assert!(shots.is_empty());
}

#[test]
fn no_snapshot_for_a_short_list() {
    for count in [0usize, 1, 2, 16, 30, 31] {
        let reads = Cell::new(0u128);
        let (buffer, shots, _) = dyn_collect_all(
            candidates(&scrambled(count)),
            || {
                reads.set(reads.get() + 1);
                reads.get() * 10 * UPDATE_INTERVAL
            },
            |_: &Snapshot| panic!("no snapshot is due"),
        );
        assert_eq!(buffer.len(), count);
        assert!(shots.is_empty());
        assert_eq!(reads.get(), if count >= ITEMS_TO_SHOW { 1 } else { 0 });
    }
}

#[test]
fn default_algorithm_is_the_given_fzy_scorer() {
    let lines: Vec<String> = ["abc", "xabcx", "zzz", "ab"].iter().map(|s| s.to_string()).collect();
    let by_length = |query: &str, line: &str| -> Option<(i64, Vec<usize>)> {
        line.find(query).map(|at| (line.len() as i64, vec![at]))
    };
    let run = |algo: Option<Algo>| {
        let (total, ranked, _, _) = dyn_fuzzy_filter_and_rank(
            "abc",
            &lines,
            algo,
            None,
            by_length,
            || 0,
            |_: &Snapshot| {},
        );
        (total, ranked.into_iter().map(|c| (c.text, c.score, c.indices)).collect::<Vec<_>>())
    };
    let expected =
        vec![("xabcx".to_string(), 5i64, vec![1usize]), ("abc".to_string(), 3, vec![0])];
    assert_eq!(run(None), (2, expected.clone()));
    assert_eq!(run(Some(Algo::Fzy)), (2, expected));
    let (total, skim) = run(Some(Algo::Skim));
    assert_eq!(total, 2);
    assert_eq!(skim[0].0, "abc");
    assert_eq!(skim[0].2, vec![0, 1, 2]);
}

#[test]
fn filter_and_rank_in_memory_list() {
    let lines: Vec<String> = ["abc", "xabcx", "zzz"].iter().map(|s| s.to_string()).collect();
    let (total, ranked) = filter_and_rank("abc", &lines, None);
    assert_eq!(total, 2);
    let texts: Vec<&str> = ranked.iter().map(|c| c.text.as_str()).collect();
    assert_eq!(texts, vec!["abc", "xabcx"]);

    let (total, ranked) = filter_and_rank("abc", &lines, Some(30));
    assert_eq!(total, 2);
    let texts: Vec<&str> = ranked.iter().map(|c| c.text.as_str()).collect();
    assert_eq!(texts, vec!["abc", "xabcx"]);

    let (total, ranked) = filter_and_rank("abc", &lines, Some(1));
    assert_eq!(total, 2);
    assert_eq!(ranked.len(), 1);
    assert_eq!(ranked[0].text, "abc");
}

#[test]
fn filter_and_rank_without_matches() {
    let lines: Vec<String> = ["zzz", "yyy"].iter().map(|s| s.to_string()).collect();
    let (total, ranked) = filter_and_rank("abc", &lines, None);
    assert_eq!(total, 0);
    assert!(ranked.is_empty());
}

#[test]
fn collect_number_returns_a_short_list_as_it_came() {
    let (total, buffer) = collect_number(candidates(&[1, 2]), 5);
    assert_eq!(total, 2);
    let got: Vec<i64> = buffer.iter().map(|c| c.score).collect();
    assert_eq!(got, vec![1, 2]);

    let scores = scrambled(59);
    let (total, buffer) = collect_number(candidates(&scores), 7);
    assert_eq!(total, 59);
    let got: Vec<(i64, String)> = buffer.into_iter().map(|c| (c.score, c.text)).collect();
    assert_eq!(got, arrival_order(&scores));
}

#[test]
fn collect_number_does_not_cut_to_number() {
    let (total, buffer) = collect_number(candidates(&[4, 9]), 1);
    assert_eq!(total, 2);
    assert_eq!(buffer.len(), 2);
    assert_eq!(buffer[0].score, 4);
    assert_eq!(buffer[1].score, 9);
}

#[test]
fn collect_number_halves_a_full_buffer() {
    let items: Vec<MatchedCandidate> =
        (1..=60).map(|i| MatchedCandidate::new(i.to_string(), i, vec![])).collect();
    let (total, buffer) = collect_number(items, 1);
    assert_eq!(total, 60);
    let got: Vec<i64> = buffer.iter().map(|c| c.score).collect();
    let expected: Vec<i64> = (31..=60).rev().collect();
    assert_eq!(got, expected);
    assert_eq!(buffer[0].text, "60");
}

#[test]
fn collect_number_appends_after_a_halving() {
    let items: Vec<MatchedCandidate> =
        (1..=62).map(|i| MatchedCandidate::new(i.to_string(), i % 50, vec![])).collect();
    let (total, buffer) = collect_number(items, 1);
    assert_eq!(total, 62);
    assert_eq!(buffer.len(), 32);
    assert_eq!(buffer[0].score, 49);
    assert_eq!(buffer[30].text, "61");
    assert_eq!(buffer[31].text, "62");
}

#[test]
fn rank_collected_cuts_to_number() {
    let ranked = rank_collected(candidates(&[3, 9, 5, 9]), Some(3));
    let got: Vec<(i64, &str)> = ranked.iter().map(|c| (c.score, c.text.as_str())).collect();
    assert_eq!(got, vec![(9, "line 1"), (9, "line 3"), (5, "line 2")]);
    assert_eq!(rank_collected(candidates(&[3, 9]), Some(5)).len(), 2);
    assert_eq!(rank_collected(candidates(&[3, 9]), None).len(), 2);
}

#[test]
fn fill_phase_ends_with_the_input() {
    let mut collector = Collector::collect_all();
    let reads = Cell::new(0usize);
    let clock = || {
        reads.set(reads.get() + 1);
        7
    };
    let outcome = select_top_items_to_show(&mut collector, candidates(&[5, 9, 1]), &clock);
    assert_eq!(outcome.ok(), Some(3));
    assert_eq!(reads.get(), 0);
    assert_eq!(collector.total(), 3);
    let got: Vec<i64> = collector.buffer().iter().map(|c| c.score).collect();
    assert_eq!(got, vec![5, 9, 1]);
    assert_eq!(&collector.top_scores()[..4], &[9, 5, 1, EMPTY_SCORE]);
    assert_eq!(&collector.top_results()[..3], &[1, 0, 2]);

    let mut empty = Collector::collect_number(3);
    assert_eq!(select_top_items_to_show(&mut empty, Vec::new(), &clock).ok(), Some(0));
    assert_eq!(empty.total(), 0);
}

#[test]
fn fill_phase_stops_when_the_selector_is_full() {
    let scores = scrambled(100);
    let mut collector = Collector::collect_number(10);
    let reads = Cell::new(0usize);
    let clock = || {
        reads.set(reads.get() + 1);
        7
    };
    let (total, rest) = select_top_items_to_show(&mut collector, candidates(&scores), &clock)
        .err()
        .unwrap();
    assert_eq!(total, ITEMS_TO_SHOW);
    assert_eq!(reads.get(), 1);
    assert_eq!(collector.total(), ITEMS_TO_SHOW);
    let got: Vec<(i64, String)> = rest.into_iter().map(|c| (c.score, c.text)).collect();
    assert_eq!(got, arrival_order(&scores)[ITEMS_TO_SHOW..].to_vec());
    let held: Vec<(i64, String)> =
        collector.buffer().iter().map(|c| (c.score, c.text.clone())).collect();
    assert_eq!(held, arrival_order(&scores)[..ITEMS_TO_SHOW].to_vec());
    let mut best: Vec<i64> = scores[..ITEMS_TO_SHOW].to_vec();
    best.sort_by(|a, b| b.cmp(a));
    assert_eq!(&collector.top_scores()[..], &best[..]);
}

#[test]
fn fill_phase_with_exactly_a_full_selector() {
    let mut collector = Collector::collect_all();
    let (total, rest) =
        select_top_items_to_show(&mut collector, candidates(&scrambled(ITEMS_TO_SHOW)), &|| 0)
            .err()
            .unwrap();
    assert_eq!(total, ITEMS_TO_SHOW);
    assert!(rest.is_empty());
}
