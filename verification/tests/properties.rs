use max_detector::MaxDetector;

/// A value that is ordered by its rank alone; the tag tells apart values of
/// equal rank.
#[derive(PartialEq, Debug, Clone, Copy)]
struct Ranked {
    rank: i32,
    tag: char,
}

impl PartialOrd for Ranked {
    fn partial_cmp(&self, other: &Self) -> Option<std::cmp::Ordering> {
        Some(self.rank.cmp(&other.rank))
    }
}

fn ranked(rank: i32, tag: char) -> Ranked {
    Ranked { rank, tag }
}

/// A value that is ordered by its rank alone and remembers when it arrived.
#[derive(PartialEq, Debug, Clone)]
struct Stamped {
    rank: i64,
    serial: usize,
}

impl PartialOrd for Stamped {
    fn partial_cmp(&self, other: &Self) -> Option<std::cmp::Ordering> {
        Some(self.rank.cmp(&other.rank))
    }
}

/// The maximum of the last `size` values of `seen`, found by looking at each
/// of them; of equal values the newest.
fn rescan(seen: &[i64], size: usize) -> i64 {
    let start = seen.len().saturating_sub(size);
    let mut best = seen[start];
    for value in &seen[start..] {
        if *value >= best {
            best = *value;
        }
    }
    best
}

/// A fixed stream of values between -50 and 49 with plenty of repeats.
fn stream(len: usize) -> Vec<i64> {
    let mut state: u64 = 0x2545_f491_4f6c_dd1d;
    let mut values = Vec::new();
    for _ in 0..len {
        state = state
            .wrapping_mul(6364136223846793005)
            .wrapping_add(1442695040888963407);
        values.push(((state >> 33) % 100) as i64 - 50);
    }
    values
}

#[test]
fn every_result_matches_a_rescan_of_the_window() {
    let values = stream(300);
    for size in [1usize, 2, 3, 4, 7, 16, 299, 300, 301, 1000] {
        let mut detector = MaxDetector::<i64>::new(size);
        for count in 1..=values.len() {
            let reported = detector.next(values[count - 1]);
            assert_eq!(reported, rescan(&values[..count], size));
            assert_eq!(detector.current(), Some(reported));
        }
    }
}

#[test]
fn every_result_is_the_newest_value_of_the_highest_rank() {
    let ranks = stream(200);
    for size in [1usize, 2, 3, 5, 8, 50, 200, 201] {
        let mut detector = MaxDetector::new(size);
        for serial in 0..ranks.len() {
            let reported = detector.next(Stamped {
                rank: ranks[serial] / 10,
                serial,
            });
            let start = (serial + 1).saturating_sub(size);
            let highest = ranks[start..=serial].iter().map(|rank| rank / 10).max();
            let newest = (start..=serial).rev().find(|at| Some(ranks[*at] / 10) == highest);
            assert_eq!(Some(reported.rank), highest);
            assert_eq!(Some(reported.serial), newest);
        }
    }
}

#[test]
fn window_of_one_reports_each_arrival() {
    let mut detector = MaxDetector::<i32>::new(1);
    let reported: Vec<i32> = [7, 3, 9, 9, -4, 0]
        .into_iter()
        .map(|value| detector.next(value))
        .collect();
    assert_eq!(reported, vec![7, 3, 9, 9, -4, 0]);
    assert_eq!(detector.current(), Some(0));
}

#[test]
fn ascending_stream_is_reported_unchanged_in_a_small_window() {
    let mut detector = MaxDetector::<u32>::new(2);
    let reported: Vec<u32> = [1, 2, 3, 5, 8, 13, 21]
        .into_iter()
        .map(|value| detector.next(value))
        .collect();
    assert_eq!(reported, vec![1, 2, 3, 5, 8, 13, 21]);
}

#[test]
fn descending_stream_reports_the_first_value() {
    let mut detector = MaxDetector::<i16>::new(6);
    let reported: Vec<i16> = [40, 30, 20, 10, 0, -10]
        .into_iter()
        .map(|value| detector.next(value))
        .collect();
    assert_eq!(reported, vec![40; 6]);
}

#[test]
fn descending_stream_longer_than_the_window_follows_the_oldest_survivor() {
    let mut detector = MaxDetector::<i32>::new(3);
    let reported: Vec<i32> = [9, 7, 5, 3, 1]
        .into_iter()
        .map(|value| detector.next(value))
        .collect();
    assert_eq!(reported, vec![9, 9, 9, 7, 5]);
}

#[test]
fn expired_maximum_gives_way_to_the_next_highest() {
    let mut detector = MaxDetector::<i32>::new(3);
    assert_eq!(detector.next(8), 8);
    assert_eq!(detector.next(2), 8);
    assert_eq!(detector.next(6), 8);
    assert_eq!(detector.current(), Some(8));
    // The fourth arrival pushes the 8 out of the window of three.
    assert_eq!(detector.next(1), 6);
    assert_eq!(detector.current(), Some(6));
    assert_eq!(detector.next(0), 6);
    assert_eq!(detector.next(0), 1);
}

#[test]
fn late_resurgence_is_reported_step_by_step() {
    let mut detector = MaxDetector::<i32>::new(4);
    let reported: Vec<i32> = [8, 1, 3, 2, 1, 6, 2]
        .into_iter()
        .map(|value| detector.next(value))
        .collect();
    assert_eq!(reported, vec![8, 8, 8, 8, 3, 6, 6]);
}

#[test]
fn slot_counter_wraps_around_many_times() {
    let mut detector = MaxDetector::<u8>::new(3);
    let values = [5, 1, 1, 1, 4, 4, 2, 2, 2, 9, 0, 0, 0, 3];
    let expected = [5, 5, 5, 1, 4, 4, 4, 4, 2, 9, 9, 9, 0, 3];
    for (value, max) in values.into_iter().zip(expected) {
        assert_eq!(detector.next(value), max);
    }
}

#[test]
fn equal_rank_reports_the_newest() {
    let mut detector = MaxDetector::new(5);
    assert_eq!(detector.next(ranked(3, 'a')), ranked(3, 'a'));
    assert_eq!(detector.next(ranked(3, 'b')), ranked(3, 'b'));
    assert_eq!(detector.next(ranked(1, 'c')), ranked(3, 'b'));
    assert_eq!(detector.next(ranked(3, 'd')), ranked(3, 'd'));
    assert_eq!(detector.current(), Some(ranked(3, 'd')));
}

#[test]
fn equal_rank_below_the_maximum_keeps_the_newest_for_later() {
    let mut detector = MaxDetector::new(3);
    assert_eq!(detector.next(ranked(5, 'a')), ranked(5, 'a'));
    assert_eq!(detector.next(ranked(3, 'b')), ranked(5, 'a'));
    assert_eq!(detector.next(ranked(3, 'c')), ranked(5, 'a'));
    // The 5 leaves; of the two 3s the newer one is reported.
    assert_eq!(detector.next(ranked(1, 'd')), ranked(3, 'c'));
    assert_eq!(detector.next(ranked(1, 'e')), ranked(3, 'c'));
    assert_eq!(detector.next(ranked(1, 'f')), ranked(1, 'f'));
}

#[test]
fn fresh_tracker_reports_nothing() {
    let detector = MaxDetector::<u64>::new(1);
    assert_eq!(detector.current(), None);
    assert_eq!(detector.current(), None);
    let detector = MaxDetector::<String>::new(usize::MAX);
    assert_eq!(detector.current(), None);
}

#[test]
fn current_is_repeatable_and_leaves_the_tracker_alone() {
    let mut asked = MaxDetector::<i32>::new(3);
    let mut unasked = MaxDetector::<i32>::new(3);
    for value in [4, 9, 2, 7, 7, 1, 0, 5] {
        let first = asked.current();
        let second = asked.current();
        assert_eq!(first, second);
        let max = asked.next(value);
        assert_eq!(max, unasked.next(value));
        assert_eq!(asked.current(), Some(max));
        assert_eq!(asked.current(), Some(max));
        assert_eq!(asked.current(), unasked.current());
    }
}

#[test]
fn current_agrees_with_the_last_result_of_next() {
    let mut detector = MaxDetector::<f64>::new(2);
    for value in [0.25, -1.5, 3.0, 2.0, 1.0, 0.5] {
        let max = detector.next(value);
        assert_eq!(detector.current(), Some(max));
    }
    assert_eq!(detector.current(), Some(1.0));
}

#[test]
fn largest_window_size_is_accepted() {
    let mut detector = MaxDetector::<i32>::new(usize::MAX);
    assert_eq!(detector.next(1), 1);
    assert_eq!(detector.next(-1), 1);
    assert_eq!(detector.next(2), 2);
}

#[test]
fn clone_continues_independently() {
    let mut first = MaxDetector::<i32>::new(2);
    first.next(5);
    let mut second = first.clone();
    assert_eq!(second.current(), Some(5));
    assert_eq!(second.next(1), 5);
    assert_eq!(second.next(1), 1);
    assert_eq!(first.current(), Some(5));
    assert_eq!(first.next(7), 7);
}

#[test]
fn owned_values_are_handed_back_as_clones() {
    let mut detector = MaxDetector::<String>::new(2);
    assert_eq!(detector.next("pear".to_string()), "pear");
    assert_eq!(detector.next("apple".to_string()), "pear");
    assert_eq!(detector.next("fig".to_string()), "fig");
    assert_eq!(detector.current(), Some("fig".to_string()));
}
