use ctrlq::codec::decode;
use ctrlq::codec::encode;
use ctrlq::codec::restore;
use ctrlq::stats::KeyStats;
use ctrlq::stats::TypingSession;

#[test]
fn round_trip_fresh() {
    let s = KeyStats::new(42);
    let bytes = encode(&s);
    assert_eq!(decode(&bytes), Some(s));
}

#[test]
fn encoded_form_is_line_based_decimal() {
    let s = KeyStats::new(5);
    let bytes = encode(&s);
    // version, session start, total, then four empty length-prefixed lists
    assert_eq!(bytes, b"1\n5\n0\n0\n0\n0\n0\n".to_vec());
}

#[test]
fn round_trip_populated() {
    let mut s = KeyStats::new(1000);
    s.add_keypress(30, 1000);
    s.add_keypress(31, 1200);
    s.add_keypress(30, 90000);
    s.add_keypress(57, 90001);
    s.typing_sessions.push(TypingSession {
        start: 100,
        end: 200,
        keystrokes: 17,
        wpm_hundredths: Some(4200),
    });
    s.typing_sessions.push(TypingSession {
        start: 300,
        end: 400,
        keystrokes: 3,
        wpm_hundredths: None,
    });
    let bytes = encode(&s);
    let back = decode(&bytes).expect("round trip must succeed");
    assert_eq!(back, s);
}

#[test]
fn round_trip_at_recency_capacity() {
    let mut s = KeyStats::new(0);
    for n in 0u32..250 {
        s.add_keypress((n % 11) as u16, (n as u64) * 4000);
    }
    let bytes = encode(&s);
    assert_eq!(decode(&bytes), Some(s));
}

#[test]
fn restore_rejects_garbage() {
    let bytes = b"not a statistics file".to_vec();
    let s = restore(&bytes, 77);
    assert_eq!(s, KeyStats::new(77));
}

#[test]
fn restore_rejects_empty_file() {
    let bytes = Vec::new();
    let s = restore(&bytes, 5);
    assert_eq!(s, KeyStats::new(5));
}

#[test]
fn restore_rejects_wrong_version() {
    let bytes = b"2\n5\n0\n0\n0\n0\n0\n".to_vec();
    assert_eq!(decode(&bytes), None);
    assert_eq!(restore(&bytes, 9), KeyStats::new(9));
}

#[test]
fn restore_rejects_truncated_file() {
    let mut s = KeyStats::new(0);
    s.add_keypress(1, 0);
    let mut bytes = encode(&s);
    bytes.truncate(bytes.len() - 3);
    assert_eq!(decode(&bytes), None);
}

#[test]
fn restore_rejects_inconsistent_totals() {
    // claims five total keystrokes but holds no per-key counts
    let bytes = b"1\n0\n5\n0\n0\n0\n0\n".to_vec();
    assert_eq!(decode(&bytes), None);
    assert_eq!(restore(&bytes, 3), KeyStats::new(3));
}

#[test]
fn restore_rejects_trailing_data() {
    let s = KeyStats::new(5);
    let mut bytes = encode(&s);
    bytes.extend_from_slice(b"0\n");
    assert_eq!(decode(&bytes), None);
}

#[test]
fn restore_accepts_valid_file() {
    let mut s = KeyStats::new(123);
    s.add_keypress(4, 500);
    s.add_keypress(4, 600);
    let bytes = encode(&s);
    assert_eq!(restore(&bytes, 999), s);
}

#[test]
fn restore_rejects_oversized_number() {
    // second line exceeds u64::MAX
    let bytes = b"1\n99999999999999999999999\n0\n0\n0\n0\n0\n".to_vec();
    assert_eq!(decode(&bytes), None);
}
