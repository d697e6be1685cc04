use ctrlq::stats::KeyStats;
use ctrlq::stats::KeyTransition;
use ctrlq::stats::transition_from_value;

#[test]
fn count_invariant_after_every_call() {
    let mut s = KeyStats::new(0);
    let presses: [u16; 7] = [1, 2, 1, 3, 2, 1, 9];
    for (n, &code) in presses.iter().enumerate() {
        s.add_keypress(code, 0);
        let sum: u64 = s.key_counts.iter().map(|p| p.1).sum();
        assert_eq!(s.total_keystrokes, (n + 1) as u64);
        assert_eq!(sum, s.total_keystrokes);
    }
}

#[test]
fn recency_below_capacity() {
    let mut s = KeyStats::new(0);
    for code in 0u16..7 {
        s.add_keypress(code, 0);
    }
    assert_eq!(s.key_sequences, vec![0, 1, 2, 3, 4, 5, 6]);
}

#[test]
fn recency_evicts_oldest_beyond_capacity() {
    let mut s = KeyStats::new(0);
    for n in 0u32..103 {
        s.add_keypress((n % 200) as u16, 0);
    }
    assert_eq!(s.key_sequences.len(), 100);
    // the first three presses (codes 0, 1, 2) were evicted
    assert_eq!(s.key_sequences[0], 3);
    assert_eq!(s.key_sequences[99], 102);
}

#[test]
fn wpm_absent_below_five_keystrokes() {
    let mut s = KeyStats::new(0);
    for code in 0u16..4 {
        s.add_keypress(code, 0);
    }
    assert_eq!(s.get_wpm(600), None);
}

#[test]
fn wpm_exact_value() {
    let mut s = KeyStats::new(0);
    for _ in 0..10 {
        s.add_keypress(30, 0);
    }
    // 10 keystrokes over 2 minutes: (10 / 5) / 2 = 1.0 WPM = 100 hundredths
    assert_eq!(s.get_wpm(120), Some(100));
}

#[test]
fn wpm_absent_when_no_time_elapsed() {
    let mut s = KeyStats::new(1000);
    for _ in 0..10 {
        s.add_keypress(30, 1000);
    }
    assert_eq!(s.get_wpm(1000), None);
    assert_eq!(s.get_wpm(999), None);
}

#[test]
fn reset_clears_everything_atomically() {
    let mut s = KeyStats::new(0);
    for code in 0u16..50 {
        s.add_keypress(code, 17);
    }
    assert_eq!(s.total_keystrokes, 50);
    s.reset(500);
    assert_eq!(s.total_keystrokes, 0);
    assert!(s.key_counts.is_empty());
    assert!(s.key_sequences.is_empty());
    assert!(s.typing_sessions.is_empty());
    assert!(s.daily_stats.is_empty());
    assert_eq!(s.session_start, 500);
}

#[test]
fn top_keys_orders_by_count_then_code() {
    let mut s = KeyStats::new(0);
    for _ in 0..5 {
        s.add_keypress(10, 0);
    }
    for _ in 0..9 {
        s.add_keypress(20, 0);
    }
    for _ in 0..9 {
        s.add_keypress(30, 0);
    }
    s.add_keypress(40, 0);
    // ties (20 and 30, both 9) break by key code ascending
    assert_eq!(s.get_top_keys(2), vec![(20, 9), (30, 9)]);
    assert_eq!(s.get_top_keys(4), vec![(20, 9), (30, 9), (10, 5), (40, 1)]);
    assert_eq!(s.get_top_keys(100), vec![(20, 9), (30, 9), (10, 5), (40, 1)]);
}

#[test]
fn scenario_four_presses() {
    let k1: u16 = 1;
    let k2: u16 = 2;
    let mut s = KeyStats::new(0);
    s.add_keypress(k1, 0);
    s.add_keypress(k2, 0);
    s.add_keypress(k1, 0);
    s.add_keypress(k1, 0);
    assert_eq!(s.total_keystrokes, 4);
    assert_eq!(s.get_count(k1), 3);
    assert_eq!(s.get_count(k2), 1);
    assert_eq!(s.get_top_keys(1), vec![(k1, 3)]);
}

#[test]
fn day_buckets_follow_event_timestamps() {
    let mut s = KeyStats::new(0);
    s.add_keypress(7, 10);
    s.add_keypress(7, 86399);
    s.add_keypress(7, 86400);
    assert_eq!(s.daily_stats.len(), 2);
    assert_eq!(s.daily_stats[0].0, 0);
    assert_eq!(s.daily_stats[0].1.keystrokes, 2);
    assert_eq!(s.daily_stats[1].0, 1);
    assert_eq!(s.daily_stats[1].1.keystrokes, 1);
    assert_eq!(s.daily_stats[0].1.key_distribution, vec![(7, 2)]);
    assert_eq!(s.daily_stats[0].1.sessions, 0);
    assert_eq!(s.daily_stats[0].1.most_active_hour, None);
}

#[test]
fn transition_values_from_device() {
    assert_eq!(transition_from_value(0), Some(KeyTransition::Up));
    assert_eq!(transition_from_value(1), Some(KeyTransition::Down));
    assert_eq!(transition_from_value(2), Some(KeyTransition::Repeat));
    assert_eq!(transition_from_value(3), None);
    assert_eq!(transition_from_value(-1), None);
}

#[test]
fn wpm_saturates_instead_of_overflowing() {
    let mut s = KeyStats::new(0);
    s.total_keystrokes = u64::MAX;
    assert_eq!(s.get_wpm(1), Some(u64::MAX));
}

#[test]
fn count_getter_for_unknown_key() {
    let s = KeyStats::new(0);
    assert_eq!(s.get_count(999), 0);
}
