use hls_fetch::reassembly::Chunk;
use hls_fetch::reassembly::FetchResult;
use hls_fetch::reassembly::ReassemblyBuffer;
use hls_fetch::reassembly::reassemble;

fn payload(tag: u8) -> Vec<u8> {
    vec![tag, tag, tag]
}

fn success(index: usize, tag: u8) -> FetchResult {
    FetchResult::Success { index, payload: payload(tag) }
}

fn observed(writes: &[Chunk]) -> Vec<(usize, Vec<u8>)> {
    writes.iter().map(|c| (c.index, c.data.clone())).collect()
}

#[test]
fn in_order_arrivals_flow_straight_through() {
    let mut buf = ReassemblyBuffer::new();
    for i in 0..3usize {
        let w = buf.on_success(i, payload(i as u8));
        assert_eq!(observed(&w), vec![(i, payload(i as u8))]);
    }
    assert_eq!(buf.next_expected(), 3);
    let tail = buf.finish();
    assert!(tail.is_empty());
}

#[test]
fn early_arrival_is_buffered_then_drained_in_a_burst() {
    let mut buf = ReassemblyBuffer::new();
    let w = buf.on_success(2, payload(2));
    assert!(w.is_empty());
    let w = buf.on_success(1, payload(1));
    assert!(w.is_empty());
    assert!(buf.is_pending(1) && buf.is_pending(2));
    let w = buf.on_success(0, payload(0));
    assert_eq!(observed(&w), vec![(0, payload(0)), (1, payload(1)), (2, payload(2))]);
    assert_eq!(buf.next_expected(), 3);
}

#[test]
fn failure_stalls_delivery_until_finish() {
    let mut buf = ReassemblyBuffer::new();
    buf.on_failure(0);
    let w = buf.on_success(1, payload(1));
    assert!(w.is_empty(), "delivery must stall at the failed index");
    assert_eq!(buf.next_expected(), 0);
    let tail = buf.finish();
    assert_eq!(observed(&tail), vec![(1, payload(1))]);
    assert_eq!(buf.failed_indices().as_slice(), &[0]);
}

#[test]
fn all_completion_orders_give_the_same_write_sequence() {
    // every permutation of the same three successful results
    let orders: [[usize; 3]; 6] =
        [[0, 1, 2], [0, 2, 1], [1, 0, 2], [1, 2, 0], [2, 0, 1], [2, 1, 0]];
    let mut seen: Option<Vec<(usize, Vec<u8>)>> = None;
    for order in orders.iter() {
        let results: Vec<FetchResult> =
            order.iter().map(|&i| success(i, i as u8)).collect();
        let writes = observed(&reassemble(results));
        assert_eq!(writes, vec![(0, payload(0)), (1, payload(1)), (2, payload(2))]);
        match &seen {
            None => seen = Some(writes),
            Some(prev) => assert_eq!(prev, &writes),
        }
    }
}

#[test]
fn single_failure_leaves_exactly_one_gap() {
    // segment 2 of 0..5 fails; the rest arrive in a scrambled order
    let results = vec![
        success(4, 4),
        success(0, 0),
        FetchResult::Failure { index: 2 },
        success(3, 3),
        success(1, 1),
    ];
    let writes = observed(&reassemble(results));
    assert_eq!(
        writes,
        vec![(0, payload(0)), (1, payload(1)), (3, payload(3)), (4, payload(4))]
    );
}

#[test]
fn empty_stream_writes_nothing() {
    let writes = reassemble(Vec::new());
    assert!(writes.is_empty());
}
