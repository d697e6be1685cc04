use ctrlq::capture::CapturePhase;
use ctrlq::capture::CaptureState;
use ctrlq::codec::decode;
use ctrlq::codec::encode;
use ctrlq::stats::KeyPress;
use ctrlq::stats::KeyStats;
use ctrlq::stats::KeyTransition;

fn press(code: u16, timestamp: u64) -> KeyPress {
    KeyPress { code, transition: KeyTransition::Down, timestamp }
}

#[test]
fn reset_request_is_durable_before_further_events() {
    let mut stats = KeyStats::new(0);
    for n in 0u16..50 {
        stats.add_keypress(n % 5, 10);
    }
    assert_eq!(stats.total_keystrokes, 50);
    let mut state = CaptureState::begin(stats, 10);
    let c = state.control(20, false, false, true);
    assert!(!c.stop);
    assert!(c.save_now);
    // the very next published snapshot shows zero keystrokes
    assert_eq!(state.stats.total_keystrokes, 0);
    assert_eq!(state.stats.session_start, 20);
    // and the file written at this point also reflects zero
    let bytes = encode(&state.stats);
    let persisted = decode(&bytes).expect("freshly reset aggregate encodes cleanly");
    assert_eq!(persisted.total_keystrokes, 0);
}

#[test]
fn closed_consumer_is_treated_as_shutdown() {
    let state0 = CaptureState::begin(KeyStats::new(0), 0);
    let mut state = state0;
    let c = state.control(5, false, true, false);
    // one final save is owed within this very iteration
    assert!(c.stop);
    assert!(!c.save_now);
    assert_eq!(state.phase, CapturePhase::Stopping);
    state.mark_stopped();
    assert_eq!(state.phase, CapturePhase::Stopped);
}

#[test]
fn shutdown_flag_stops_without_touching_stats() {
    let mut stats = KeyStats::new(0);
    stats.add_keypress(9, 0);
    let mut state = CaptureState::begin(stats.clone(), 0);
    let c = state.control(100, true, false, false);
    assert!(c.stop);
    assert_eq!(state.stats, stats);
    assert_eq!(state.phase, CapturePhase::Stopping);
}

#[test]
fn ingest_records_only_down_transitions() {
    let mut state = CaptureState::begin(KeyStats::new(0), 0);
    let events = vec![
        press(1, 10),
        KeyPress { code: 1, transition: KeyTransition::Up, timestamp: 11 },
        KeyPress { code: 2, transition: KeyTransition::Repeat, timestamp: 12 },
        press(3, 13),
    ];
    let d = state.ingest(13, &events);
    assert!(d.publish);
    assert_eq!(state.stats.total_keystrokes, 2);
    assert_eq!(state.stats.get_count(1), 1);
    assert_eq!(state.stats.get_count(2), 0);
    assert_eq!(state.stats.get_count(3), 1);
}

#[test]
fn periodic_save_after_interval() {
    let mut state = CaptureState::begin(KeyStats::new(0), 100);
    let no_events: Vec<KeyPress> = Vec::new();
    let d1 = state.ingest(120, &no_events);
    assert!(!d1.save);
    assert_eq!(state.last_save, 100);
    let d2 = state.ingest(130, &no_events);
    assert!(!d2.save); // exactly 30 s elapsed: not yet due
    let d3 = state.ingest(131, &no_events);
    assert!(d3.save);
    assert_eq!(state.last_save, 131);
    let d4 = state.ingest(140, &no_events);
    assert!(!d4.save); // timer re-armed at 131
}

#[test]
fn control_without_signals_changes_nothing() {
    let mut stats = KeyStats::new(0);
    stats.add_keypress(4, 0);
    let mut state = CaptureState::begin(stats.clone(), 0);
    let c = state.control(50, false, false, false);
    assert!(!c.stop);
    assert!(!c.save_now);
    assert_eq!(state.phase, CapturePhase::Running);
    assert_eq!(state.stats, stats);
}

#[test]
fn snapshots_show_nondecreasing_totals() {
    let mut state = CaptureState::begin(KeyStats::new(0), 0);
    let mut last_total = 0;
    for n in 0u64..20 {
        let events = if n % 3 == 0 {
            vec![press((n % 7) as u16, n)]
        } else {
            Vec::new()
        };
        let d = state.ingest(n, &events);
        assert!(d.publish);
        assert!(state.stats.total_keystrokes >= last_total);
        last_total = state.stats.total_keystrokes;
    }
}
