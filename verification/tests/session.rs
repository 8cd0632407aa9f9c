use hls_fetch::reassembly::FetchResult;
use hls_fetch::session::Session;

fn success(index: usize, tag: u8) -> FetchResult {
    FetchResult::Success { index, payload: vec![tag] }
}

#[test]
fn last_result_closes_exactly_once() {
    let mut session = Session::new(3);
    let mut closes = 0;
    for r in [success(2, 2), success(0, 0), success(1, 1)] {
        assert!(session.can_accept(&r));
        let cmds = session.on_result(r);
        if cmds.close {
            closes += 1;
        }
    }
    assert_eq!(closes, 1, "exactly one close per session");
    assert!(session.is_closed());
}

#[test]
fn failures_do_not_change_the_close_count() {
    let mut session = Session::new(3);
    let mut closes = 0;
    let mut written: Vec<usize> = Vec::new();
    for r in [success(1, 1), FetchResult::Failure { index: 0 }, success(2, 2)] {
        let cmds = session.on_result(r);
        written.extend(cmds.writes.iter().map(|c| c.index));
        if cmds.close {
            closes += 1;
        }
    }
    assert_eq!(closes, 1);
    // the failed index 0 is absent; everything fetched is written ascending
    assert_eq!(written, vec![1, 2]);
    assert_eq!(session.failed_indices().as_slice(), &[0]);
}

#[test]
fn cancel_mid_flight_closes_once_and_drains() {
    let mut session = Session::new(4);
    let cmds = session.on_result(success(2, 2));
    assert!(!cmds.close);
    assert!(cmds.writes.is_empty());
    let cmds = session.cancel();
    assert!(cmds.close);
    // the buffered out-of-order chunk is still written on the way out
    assert_eq!(cmds.writes.len(), 1);
    assert_eq!(cmds.writes[0].index, 2);
    // a second cancel must not close again
    let cmds = session.cancel();
    assert!(!cmds.close);
    assert!(cmds.writes.is_empty());
}

#[test]
fn empty_session_still_gets_its_close() {
    let mut session = Session::new(0);
    let cmds = session.cancel();
    assert!(cmds.close);
    assert!(cmds.writes.is_empty());
}

#[test]
fn duplicate_results_are_refused_by_the_gate() {
    let mut session = Session::new(3);
    session.on_result(success(1, 1));
    // index 1 is buffered: a second result for it violates at-most-once
    assert!(!session.can_accept(&success(1, 9)));
    session.on_result(success(0, 0));
    // index 0 was delivered already
    assert!(!session.can_accept(&success(0, 9)));
    // failures are always accepted
    assert!(session.can_accept(&FetchResult::Failure { index: 0 }));
}

#[test]
fn in_order_results_write_as_they_come() {
    let mut session = Session::new(2);
    let cmds = session.on_result(success(0, 10));
    assert_eq!(cmds.writes.len(), 1);
    assert_eq!(cmds.writes[0].data, vec![10]);
    assert!(!cmds.close);
    let cmds = session.on_result(success(1, 11));
    assert_eq!(cmds.writes.len(), 1);
    assert!(cmds.close);
}
