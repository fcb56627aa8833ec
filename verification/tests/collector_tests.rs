use maple_cli::candidate::MatchedCandidate;
use maple_cli::collector::{Collector, Snapshot, SAMPLE_EVERY, UPDATE_INTERVAL};
use maple_cli::dynamic::rank_collected;
use maple_cli::ranking::rank;
use maple_cli::selector::{EMPTY_SCORE, ITEMS_TO_SHOW};

const MS: u128 = 1_000_000;

fn candidate(text: String, score: i64) -> MatchedCandidate {
    MatchedCandidate::new(text, score, vec![0, 1])
}

fn pseudo_scores(n: usize) -> Vec<i64> {
    let mut state: u64 = 0x2545_f491_4f6c_dd1d;
    (0..n)
        .map(|_| {
            state ^= state << 13;
            state ^= state >> 7;
            state ^= state << 17;
            (state % 1000) as i64 - 500
        })
        .collect()
}

fn best(scores: &[i64], n: usize) -> Vec<i64> {
    let mut sorted = scores.to_vec();
    sorted.sort_by(|a, b| b.cmp(a));
    sorted.truncate(n);
    sorted
}

fn sorted_descending(scores: &[i64]) -> bool {
    scores.windows(2).all(|w| w[0] >= w[1])
}

fn selector_matches_buffer(collector: &Collector) {
    let filled = collector.total().min(ITEMS_TO_SHOW);
    for slot in 0..filled {
        let place = collector.top_results()[slot];
        assert_eq!(collector.buffer()[place].score, collector.top_scores()[slot]);
    }
    for slot in filled..ITEMS_TO_SHOW {
        assert_eq!(collector.top_scores()[slot], EMPTY_SCORE);
    }
}

#[test]
fn policy_constants() {
    assert_eq!(UPDATE_INTERVAL, 300 * MS);
    assert_eq!(SAMPLE_EVERY, 16);
}

#[test]
fn new_collector_is_empty() {
    let collector = Collector::collect_all();
    assert_eq!(collector.total(), 0);
    assert!(collector.buffer().is_empty());
    assert_eq!(collector.top_scores(), &[EMPTY_SCORE; ITEMS_TO_SHOW]);
    assert_eq!(collector.top_results(), &[0usize; ITEMS_TO_SHOW]);
    let bounded = Collector::collect_number(5);
    assert_eq!(bounded.total(), 0);
    assert!(bounded.buffer().is_empty());
}

#[test]
fn selector_is_sorted_after_each_insertion() {
    let scores = pseudo_scores(500);
    let mut collector = Collector::collect_all();
    for (i, &score) in scores.iter().enumerate() {
        collector.push(candidate(format!("line {}", i), score), 0);
        assert!(sorted_descending(collector.top_scores()));
        assert_eq!(collector.top_scores().len(), ITEMS_TO_SHOW);
        assert_eq!(collector.total(), i + 1);
        assert_eq!(collector.buffer().len(), i + 1);
        selector_matches_buffer(&collector);
        let expected = best(&scores[..=i], ITEMS_TO_SHOW);
        assert_eq!(&collector.top_scores()[..expected.len()], &expected[..]);
    }
}

#[test]
fn fill_phase_inserts_in_rank_order() {
    let mut collector = Collector::collect_all();
    for (i, score) in [5i64, 9, 1, 7].iter().enumerate() {
        collector.push(candidate(format!("c{}", i), *score), 0);
    }
    assert_eq!(&collector.top_scores()[..5], &[9, 7, 5, 1, EMPTY_SCORE]);
    assert_eq!(&collector.top_results()[..4], &[1, 3, 0, 2]);
}

#[test]
fn equal_score_goes_behind_the_equal_ones() {
    let mut collector = Collector::collect_all();
    for (i, score) in [5i64, 9, 5].iter().enumerate() {
        collector.push(candidate(format!("c{}", i), *score), 0);
    }
    assert_eq!(&collector.top_scores()[..3], &[9, 5, 5]);
    assert_eq!(&collector.top_results()[..3], &[1, 0, 2]);
}

#[test]
fn snapshot_and_ranking_order_ties_alike() {
    let mut collector = Collector::collect_all();
    let mut shot = None;
    for i in 0..48 {
        if let Some(s) = collector.push(candidate(format!("line {}", i), (i % 4) as i64), (i as u128) * UPDATE_INTERVAL) {
            shot = Some(s);
        }
    }
    let shot = shot.unwrap();
    assert_eq!(shot.total, 48);
    let (_, buffer) = collector.finish();
    let ranked = rank(buffer);
    for slot in 0..ITEMS_TO_SHOW {
        assert_eq!(shot.lines[slot], ranked[slot].text);
    }
}

#[test]
fn steady_state_discards_what_the_worst_slot_beats() {
    let mut collector = Collector::collect_all();
    for i in 0..ITEMS_TO_SHOW {
        collector.push(candidate(format!("c{}", i), 100 + i as i64), 0);
    }
    let before = *collector.top_scores();
    collector.push(candidate("worse".to_string(), 50), 0);
    assert_eq!(collector.top_scores(), &before);
    assert_eq!(collector.buffer().len(), ITEMS_TO_SHOW + 1);
    assert_eq!(collector.buffer()[ITEMS_TO_SHOW].text, "worse");
    collector.push(candidate("better".to_string(), 115), 0);
    assert_eq!(collector.top_scores()[ITEMS_TO_SHOW - 1], 101);
    assert!(collector.top_scores().contains(&115));
    assert!(!collector.top_scores().contains(&100));
    let slot = collector.top_scores().iter().rposition(|&s| s == 115).unwrap();
    assert_eq!(collector.top_results()[slot], ITEMS_TO_SHOW + 1);
    selector_matches_buffer(&collector);
}

#[test]
fn collect_all_keeps_everything_in_arrival_order() {
    let scores = pseudo_scores(300);
    let mut collector = Collector::collect_all();
    for (i, &score) in scores.iter().enumerate() {
        collector.push(candidate(format!("line {}", i), score), 0);
    }
    let (total, buffer) = collector.finish();
    assert_eq!(total, 300);
    let expected: Vec<(i64, String)> =
        scores.iter().enumerate().map(|(i, &s)| (s, format!("line {}", i))).collect();
    let got: Vec<(i64, String)> = buffer.iter().map(|c| (c.score, c.text.clone())).collect();
    assert_eq!(got, expected);
}

#[test]
fn collect_all_twice_gives_identical_output() {
    let run = || {
        let mut collector = Collector::collect_all();
        for (i, &score) in pseudo_scores(400).iter().enumerate() {
            collector.push(candidate(format!("line {}", i), score % 7), (i as u128) * MS);
        }
        let (total, buffer) = collector.finish();
        let ranked = rank(buffer);
        (total, ranked.into_iter().map(|c| (c.text, c.score, c.indices)).collect::<Vec<_>>())
    };
    assert_eq!(run(), run());
}

#[test]
fn bounded_buffer_is_halved_when_full() {
    let mut collector = Collector::collect_number(10);
    let capacity = 2 * ITEMS_TO_SHOW;
    for i in 0..capacity - 1 {
        collector.push(candidate(format!("line {}", i), i as i64), 0);
        assert_eq!(collector.buffer().len(), i + 1);
    }
    collector.push(candidate("last".to_string(), 1000), 0);
    assert_eq!(collector.total(), capacity);
    assert_eq!(collector.buffer().len(), capacity / 2);
    assert_eq!(collector.buffer()[0].text, "last");
    assert_eq!(collector.buffer()[1].score, 58);
    assert_eq!(collector.buffer()[29].score, 30);
    let places: Vec<usize> = (0..ITEMS_TO_SHOW).collect();
    assert_eq!(&collector.top_results()[..], &places[..]);
    selector_matches_buffer(&collector);
}

#[test]
fn bounded_capacity_follows_number() {
    let mut collector = Collector::collect_number(50);
    for i in 0..99 {
        collector.push(candidate(format!("line {}", i), -(i as i64)), 0);
    }
    assert_eq!(collector.buffer().len(), 99);
    collector.push(candidate("hundredth".to_string(), -99), 0);
    assert_eq!(collector.buffer().len(), 50);
    assert_eq!(collector.total(), 100);
}

#[test]
fn compaction_keeps_the_true_top_k() {
    let scores = pseudo_scores(5000);
    for number in [1usize, 10, 30, 45, 100] {
        let mut collector = Collector::collect_number(number);
        for (i, &score) in scores.iter().enumerate() {
            collector.push(candidate(format!("line {}", i), score), 0);
            assert!(collector.buffer().len() < 2 * number.max(ITEMS_TO_SHOW));
            assert!(sorted_descending(collector.top_scores()));
        }
        assert_eq!(&collector.top_scores()[..], &best(&scores, ITEMS_TO_SHOW)[..]);
        selector_matches_buffer(&collector);
        let (total, buffer) = collector.finish();
        assert_eq!(total, 5000);
        assert!(buffer.len() >= number.max(ITEMS_TO_SHOW));
        let ranked = rank_collected(buffer, Some(number));
        let got: Vec<(i64, String)> = ranked.into_iter().map(|c| (c.score, c.text)).collect();
        let mut expected: Vec<(i64, String)> =
            scores.iter().enumerate().map(|(i, &s)| (s, format!("line {}", i))).collect();
        expected.sort_by(|a, b| b.0.cmp(&a.0));
        expected.truncate(number);
        assert_eq!(got, expected);
    }
}

#[test]
fn compaction_keeps_arrival_order_among_ties() {
    let mut collector = Collector::collect_number(35);
    for i in 0..1000 {
        collector.push(candidate(format!("line {}", i), (i % 3) as i64), 0);
    }
    let (total, buffer) = collector.finish();
    assert_eq!(total, 1000);
    let ranked = rank_collected(buffer, Some(35));
    let got: Vec<String> = ranked.into_iter().map(|c| c.text).collect();
    let expected: Vec<String> = (0..35).map(|k| format!("line {}", 3 * k + 2)).collect();
    assert_eq!(got, expected);
}

#[test]
fn bounded_finish_with_few_candidates() {
    let mut collector = Collector::collect_number(10);
    for (i, score) in [3i64, 8, 5].iter().enumerate() {
        collector.push(candidate(format!("c{}", i), *score), 0);
    }
    let (total, buffer) = collector.finish();
    assert_eq!(total, 3);
    let got: Vec<&str> = buffer.iter().map(|c| c.text.as_str()).collect();
    assert_eq!(got, vec!["c0", "c1", "c2"]);
    let ranked = rank_collected(buffer, Some(10));
    let got: Vec<&str> = ranked.iter().map(|c| c.text.as_str()).collect();
    assert_eq!(got, vec!["c1", "c2", "c0"]);
}

#[test]
fn bounded_finish_with_number_zero() {
    let mut collector = Collector::collect_number(0);
    for i in 0..5 {
        collector.push(candidate(format!("c{}", i), i), 0);
    }
    let (total, buffer) = collector.finish();
    assert_eq!(total, 5);
    assert_eq!(buffer.len(), 5);
    assert!(rank_collected(buffer, Some(0)).is_empty());
}

fn run_with_clock(count: usize, step: u128) -> Vec<(usize, u128, Snapshot)> {
    let mut collector = Collector::collect_all();
    let mut shots = Vec::new();
    for i in 0..count {
        let now = (i as u128 + 1) * step;
        let due = collector.clock_due();
        let expected_due = i + 1 == ITEMS_TO_SHOW || (i + 1 > ITEMS_TO_SHOW && (i + 1) % SAMPLE_EVERY == 0);
        assert_eq!(due, expected_due);
        if let Some(shot) = collector.push(candidate(format!("line {}", i), (i % 97) as i64), now) {
            assert!(due);
            shots.push((i + 1, now, shot));
        }
    }
    shots
}

#[test]
fn snapshots_are_sampled_and_spaced() {
    // one candidate per 10 ms, 1000 candidates: 10 s of stream
    let shots = run_with_clock(1000, 10 * MS);
    assert!(!shots.is_empty());
    let total_time_ms = 1000 * 10;
    assert!(shots.len() <= (total_time_ms + 299) / 300);
    assert!(shots.len() <= 1000 / SAMPLE_EVERY - 1);
    for (total, _, shot) in &shots {
        assert_eq!(total % SAMPLE_EVERY, 0);
        assert!(*total > ITEMS_TO_SHOW);
        assert_eq!(shot.total, *total);
        assert_eq!(shot.lines.len(), ITEMS_TO_SHOW);
        assert_eq!(shot.indices.len(), ITEMS_TO_SHOW);
    }
    for pair in shots.windows(2) {
        assert!(pair[1].1 - pair[0].1 >= UPDATE_INTERVAL);
    }
    // the timer starts when the selector is full, at the 30th candidate (300 ms):
    // the first multiple of 16 at least 300 ms later is candidate 64 (640 ms)
    assert_eq!(shots[0].0, 64);
    assert_eq!(shots[0].1, 640 * MS);
    assert_eq!(shots[1].0, 96);
}

#[test]
fn snapshot_goes_out_at_exactly_the_interval() {
    let mut collector = Collector::collect_all();
    for i in 0..ITEMS_TO_SHOW {
        assert!(collector.push(candidate(format!("line {}", i), i as i64), 1000).is_none());
    }
    assert!(collector.push(candidate("31".to_string(), 0), 1000 + UPDATE_INTERVAL).is_none());
    let just_short = collector.push(candidate("32".to_string(), 0), 1000 + UPDATE_INTERVAL - 1);
    assert!(just_short.is_none());
    for i in 33..48 {
        assert!(collector.push(candidate(format!("{}", i), 0), u128::MAX).is_none());
    }
    let on_time = collector.push(candidate("48".to_string(), 0), 1000 + UPDATE_INTERVAL);
    assert!(on_time.is_some());
    for i in 49..64 {
        assert!(collector.push(candidate(format!("{}", i), 0), u128::MAX).is_none());
    }
    let too_soon = collector.push(candidate("64".to_string(), 0), 1000 + 2 * UPDATE_INTERVAL - 1);
    assert!(too_soon.is_none());
}

#[test]
fn no_snapshot_when_the_clock_runs_backwards() {
    let mut collector = Collector::collect_all();
    for i in 0..31 {
        collector.push(candidate(format!("line {}", i), i as i64), 10 * UPDATE_INTERVAL);
    }
    assert!(collector.push(candidate("32".to_string(), 0), 0).is_none());
}

#[test]
fn no_snapshot_while_the_selector_fills() {
    let mut collector = Collector::collect_all();
    for i in 0..ITEMS_TO_SHOW {
        let now = (i as u128 + 1) * 10 * UPDATE_INTERVAL;
        assert!(collector.push(candidate(format!("line {}", i), i as i64), now).is_none());
    }
}

#[test]
fn snapshot_shows_the_selector() {
    let mut collector = Collector::collect_all();
    let mut shot = None;
    for i in 0..32 {
        let c = MatchedCandidate::new(format!("line {}", i), i as i64, vec![i, i + 1]);
        shot = collector.push(c, (i as u128) * UPDATE_INTERVAL);
    }
    let shot = shot.expect("a snapshot is due at the 32nd candidate");
    assert_eq!(shot.total, 32);
    assert_eq!(shot.lines[0], "line 31");
    assert_eq!(shot.indices[0], vec![31, 32]);
    assert_eq!(shot.lines[29], "line 2");
    assert_eq!(shot.indices[29], vec![2, 3]);
    for slot in 0..ITEMS_TO_SHOW {
        let place = collector.top_results()[slot];
        assert_eq!(shot.lines[slot], collector.buffer()[place].text);
        assert_eq!(shot.indices[slot], collector.buffer()[place].indices);
    }
}

#[test]
fn steps_compose_to_push() {
    let scores = pseudo_scores(200);
    let mut stepwise = Collector::collect_number(40);
    let mut whole = Collector::collect_number(40);
    for (i, &score) in scores.iter().enumerate() {
        let now = (i as u128) * 50 * MS;
        stepwise.insert(candidate(format!("line {}", i), score));
        stepwise.start_clock(now);
        let a = stepwise.try_notify_top_results(now);
        stepwise.compact();
        let b = whole.push(candidate(format!("line {}", i), score), now);
        assert_eq!(a.is_some(), b.is_some());
        assert_eq!(stepwise.top_scores(), whole.top_scores());
        assert_eq!(stepwise.top_results(), whole.top_results());
        assert_eq!(stepwise.buffer().len(), whole.buffer().len());
    }
}

#[test]
fn notifier_leaves_the_clock_alone_without_a_snapshot() {
    let mut collector = Collector::collect_all();
    for i in 0..ITEMS_TO_SHOW {
        collector.insert(candidate(format!("line {}", i), i as i64));
    }
    // the selector has just filled: the notifier hands out nothing and keeps no time
    assert!(collector.try_notify_top_results(7 * UPDATE_INTERVAL).is_none());
    collector.insert(candidate("31".to_string(), 0));
    collector.insert(candidate("32".to_string(), 0));
    // had the reading above been kept, this one would be too early
    let shot = collector.try_notify_top_results(UPDATE_INTERVAL);
    assert_eq!(shot.map(|s| s.total), Some(32));
    for i in 33..=48 {
        collector.insert(candidate(format!("{}", i), 0));
    }
    assert!(collector.try_notify_top_results(2 * UPDATE_INTERVAL - 1).is_none());
    assert!(collector.try_notify_top_results(2 * UPDATE_INTERVAL).is_some());
}

#[test]
fn start_clock_counts_from_the_filling_of_the_selector() {
    let mut collector = Collector::collect_all();
    for i in 0..ITEMS_TO_SHOW - 1 {
        collector.insert(candidate(format!("line {}", i), i as i64));
        collector.start_clock(50 * UPDATE_INTERVAL);
    }
    collector.insert(candidate("30".to_string(), 0));
    collector.start_clock(UPDATE_INTERVAL);
    collector.insert(candidate("31".to_string(), 0));
    collector.start_clock(90 * UPDATE_INTERVAL);
    collector.insert(candidate("32".to_string(), 0));
    assert!(collector.try_notify_top_results(2 * UPDATE_INTERVAL - 1).is_none());
    assert!(collector.try_notify_top_results(2 * UPDATE_INTERVAL).is_some());
}
