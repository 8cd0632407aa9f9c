use hls_fetch::clock::parse_clock;
use hls_fetch::clock::parse_window;

#[test]
fn plain_seconds() {
    assert_eq!(parse_clock("90"), Some(90));
    assert_eq!(parse_clock("0"), Some(0));
}

#[test]
fn minutes_and_seconds() {
    assert_eq!(parse_clock("1:30"), Some(90));
    assert_eq!(parse_clock("00:05"), Some(5));
}

#[test]
fn hours_minutes_seconds() {
    assert_eq!(parse_clock("01:02:03"), Some(3723));
    assert_eq!(parse_clock("2:00:00"), Some(7200));
}

#[test]
fn surrounding_whitespace_is_ignored() {
    assert_eq!(parse_clock("  5 \t"), Some(5));
    assert_eq!(parse_clock(" 1:30\n"), Some(90));
}

#[test]
fn blank_means_zero() {
    assert_eq!(parse_clock(""), Some(0));
    assert_eq!(parse_clock("   "), Some(0));
}

#[test]
fn malformed_strings_are_rejected() {
    assert_eq!(parse_clock("abc"), None);
    assert_eq!(parse_clock("1:2:3:4"), None);
    assert_eq!(parse_clock("1::2"), None);
    assert_eq!(parse_clock(":30"), None);
    assert_eq!(parse_clock("30:"), None);
    assert_eq!(parse_clock("1 30"), None);
    assert_eq!(parse_clock("-5"), None);
    assert_eq!(parse_clock("1.5"), None);
}

#[test]
fn oversized_values_are_rejected() {
    assert_eq!(parse_clock("99999999999999999999999999"), None);
}

#[test]
fn window_defaults_to_unbounded() {
    let w = parse_window(None, None).unwrap();
    assert_eq!(w.start_ms, 0);
    assert_eq!(w.end_ms, 0);
}

#[test]
fn window_converts_seconds_to_milliseconds() {
    let w = parse_window(Some("3"), Some("1:40")).unwrap();
    assert_eq!(w.start_ms, 3000);
    assert_eq!(w.end_ms, 100_000);
}

#[test]
fn window_rejects_inverted_bounds() {
    assert!(parse_window(Some("2:00"), Some("1:00")).is_none());
}

#[test]
fn window_rejects_malformed_bounds() {
    assert!(parse_window(Some("x"), None).is_none());
    assert!(parse_window(None, Some("1:2:3:4")).is_none());
}

#[test]
fn window_with_unbounded_end_accepts_any_start() {
    let w = parse_window(Some("10:00"), None).unwrap();
    assert_eq!(w.start_ms, 600_000);
    assert_eq!(w.end_ms, 0);
}
