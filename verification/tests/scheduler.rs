use hls_fetch::scheduler::FetchScheduler;

#[test]
fn in_flight_never_exceeds_the_limit() {
    // a test double counts entries and exits around every admission
    let mut sched = FetchScheduler::new(7, 3);
    let mut concurrent: usize = 0;
    let mut max_concurrent: usize = 0;
    let mut handed_out: Vec<usize> = Vec::new();
    while !sched.is_done() {
        while sched.can_start() {
            let idx = sched.start_next();
            handed_out.push(idx);
            concurrent += 1;
            max_concurrent = max_concurrent.max(concurrent);
            assert!(concurrent <= 3, "concurrency limit exceeded");
            assert_eq!(sched.in_flight(), concurrent);
        }
        // one in-flight fetch completes, freeing a slot
        sched.on_complete();
        concurrent -= 1;
    }
    assert_eq!(max_concurrent, 3);
    assert_eq!(handed_out, (0..7).collect::<Vec<usize>>());
}

#[test]
fn each_index_is_handed_out_exactly_once_and_in_order() {
    let mut sched = FetchScheduler::new(4, 10);
    let mut seen: Vec<usize> = Vec::new();
    while sched.can_start() {
        seen.push(sched.start_next());
    }
    assert_eq!(seen, vec![0, 1, 2, 3]);
    assert_eq!(sched.in_flight(), 4);
    for _ in 0..4 {
        assert!(!sched.is_done());
        sched.on_complete();
    }
    assert!(sched.is_done());
}

#[test]
fn zero_limit_admits_nothing() {
    let sched = FetchScheduler::new(5, 0);
    assert!(!sched.can_start());
}

#[test]
fn zero_segments_is_done_immediately() {
    let sched = FetchScheduler::new(0, 4);
    assert!(sched.is_done());
    assert!(!sched.can_start());
}
