use hls_fetch::segment::SegmentInfo;
use hls_fetch::selector::SelectionWindow;
use hls_fetch::selector::select;
use hls_fetch::selector::total_duration_ms;

fn segs(durations_ms: &[u64]) -> Vec<SegmentInfo> {
    durations_ms
        .iter()
        .enumerate()
        .map(|(i, &d)| SegmentInfo { uri: format!("seg{}.ts", i), duration_ms: d })
        .collect()
}

fn window(start_ms: u64, end_ms: u64) -> SelectionWindow {
    SelectionWindow::new(start_ms, end_ms).unwrap()
}

#[test]
fn full_window_selects_every_segment_with_dense_indices() {
    let s = segs(&[2000, 2000, 2000, 2000]);
    let r = select(&s, &window(0, 0));
    assert_eq!(r.len(), 4);
    for (i, seg) in r.iter().enumerate() {
        assert_eq!(seg.sequence_index, i);
        assert_eq!(seg.uri, format!("seg{}.ts", i));
        assert_eq!(seg.duration_ms, 2000);
    }
}

#[test]
fn boundary_window_keeps_the_covering_segments() {
    // durations 2,2,2,2 seconds; window [3, 5): segment 0 ends at 2 < 3 and
    // is skipped; segments 1 and 2 are kept; segment 3 starts past 5
    let s = segs(&[2000, 2000, 2000, 2000]);
    let r = select(&s, &window(3000, 5000));
    assert_eq!(r.len(), 2);
    assert_eq!(r[0].sequence_index, 0);
    assert_eq!(r[0].uri, "seg1.ts");
    assert_eq!(r[1].sequence_index, 1);
    assert_eq!(r[1].uri, "seg2.ts");
}

#[test]
fn skip_is_conservative_at_an_exact_boundary() {
    // a segment ending exactly at the start is not skipped
    let s = segs(&[2000, 2000]);
    let r = select(&s, &window(2000, 0));
    assert_eq!(r.len(), 2);
    assert_eq!(r[0].uri, "seg0.ts");
}

#[test]
fn start_beyond_total_duration_selects_nothing() {
    let s = segs(&[1000, 1000]);
    let r = select(&s, &window(10_000, 0));
    assert!(r.is_empty());
}

#[test]
fn take_keeps_the_segment_that_crosses_the_end() {
    // cumulative total before segment 1 is 4 <= 5, so it is included even
    // though it runs past the end of the window
    let s = segs(&[4000, 4000, 4000]);
    let r = select(&s, &window(0, 5000));
    assert_eq!(r.len(), 2);
}

#[test]
fn window_rejects_start_past_a_set_end() {
    assert!(SelectionWindow::new(5000, 2000).is_none());
    assert!(SelectionWindow::new(5000, 0).is_some());
    assert!(SelectionWindow::new(2000, 2000).is_some());
}

#[test]
fn total_duration_is_summed_and_overflow_detected() {
    let s = segs(&[2000, 3000, 500]);
    assert_eq!(total_duration_ms(&s), Some(5500));
    let huge = segs(&[u64::MAX, u64::MAX]);
    assert_eq!(total_duration_ms(&huge), None);
}

#[test]
fn empty_playlist_selects_nothing() {
    let r = select(&Vec::new(), &window(0, 0));
    assert!(r.is_empty());
}
