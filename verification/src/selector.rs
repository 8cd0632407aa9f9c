//! Time-range selection of playlist segments.
//!
//! Given the ordered segment list of a media playlist and an optional
//! `[start, end)` window, pick the ordered subsequence to download and give
//! each survivor its dense, zero-based sequence index. The skip is
//! conservative: a segment is only skipped when it ends strictly before the
//! requested start, and the take keeps the segment that pushes the running
//! total past the requested end, so a window never truncates mid-segment.

use vstd::prelude::*;
use crate::segment::Segment;
use crate::segment::SegmentInfo;

verus! {

/// An optional time window in milliseconds. A bound of 0 means "unbounded"
/// on that side; `(0, 0)` selects everything.
pub struct SelectionWindow {
    pub start_ms: u64,
    pub end_ms: u64,
}

impl SelectionWindow {
    /// Invariant: when both bounds are set, they must be ordered.
    pub open spec fn wf(self) -> bool {
        self.end_ms == 0 || self.start_ms <= self.end_ms
    }

    /// Build a window, rejecting a start beyond a set end.
    pub fn new(start_ms: u64, end_ms: u64) -> (r: Option<Self>)
        ensures
            match r {
                Some(w) => w.wf() && w.start_ms == start_ms && w.end_ms == end_ms,
                None => !(end_ms == 0 || start_ms <= end_ms),
            },
    {
        if end_ms == 0 || start_ms <= end_ms {
            Some(SelectionWindow { start_ms, end_ms })
        } else {
            None
        }
    }
}

/// The sum of the first `i` segment durations, in milliseconds.
pub open spec fn prefix_ms(s: Seq<SegmentInfo>, i: int) -> int
    decreases i,
{
    if i <= 0 {
        0
    } else {
        prefix_ms(s, i - 1) + s[i - 1].duration_ms
    }
}

/// The whole playlist's duration, in milliseconds.
pub open spec fn total_ms(s: Seq<SegmentInfo>) -> int {
    prefix_ms(s, s.len() as int)
}

/// How many leading segments the window's start skips: exactly those that
/// end strictly before `start`.
pub open spec fn skipped_count(s: Seq<SegmentInfo>, start: int) -> int
    decreases s.len(),
{
    if s.len() == 0 {
        0
    } else if s[0].duration_ms < start {
        1 + skipped_count(s.drop_first(), start - s[0].duration_ms)
    } else {
        0
    }
}

/// How many segments the window's end keeps, starting from a running total
/// of `cumul`: each segment is taken while the total *before* it is still
/// within `end`.
pub open spec fn taken_count(s: Seq<SegmentInfo>, end: int, cumul: int) -> int
    decreases s.len(),
{
    if s.len() == 0 {
        0
    } else if cumul <= end {
        1 + taken_count(s.drop_first(), end, cumul + s[0].duration_ms)
    } else {
        0
    }
}

/// Where the selection begins: the index of the first segment not skipped.
pub open spec fn selection_start(s: Seq<SegmentInfo>, w: SelectionWindow) -> int {
    skipped_count(s, w.start_ms as int)
}

/// How many segments the selection keeps from `selection_start` on.
pub open spec fn selection_len(s: Seq<SegmentInfo>, w: SelectionWindow) -> int {
    let k = selection_start(s, w);
    if w.end_ms == 0 {
        s.len() - k
    } else {
        taken_count(s.skip(k), w.end_ms as int, prefix_ms(s, k))
    }
}

proof fn lemma_prefix_monotone(s: Seq<SegmentInfo>, i: int, j: int)
    requires
        0 <= i <= j,
    ensures
        prefix_ms(s, i) <= prefix_ms(s, j),
    decreases j - i,
{
    if i < j {
        lemma_prefix_monotone(s, i, j - 1);
    }
}

proof fn lemma_skipped_count_char(s: Seq<SegmentInfo>, start: int, i: int)
    requires
        0 <= i <= s.len(),
        forall|m: int| 1 <= m <= i ==> #[trigger] prefix_ms(s, m) < start,
        i == s.len() || prefix_ms(s, i + 1) >= start,
    ensures
        skipped_count(s, start) == i,
    decreases s.len(),
{
    assert(prefix_ms(s, 0) == 0);
    if i == 0 {
        if s.len() > 0 {
            assert(prefix_ms(s, 1) >= start);
            assert(prefix_ms(s, 1) == s[0].duration_ms);
        }
    } else {
        assert(prefix_ms(s, 1) < start);
        assert(prefix_ms(s, 1) == s[0].duration_ms);
        let q = s.drop_first();
        let d = s[0].duration_ms as int;
        assert forall|m: int| 1 <= m <= i - 1 implies #[trigger] prefix_ms(q, m) < start - d by {
            lemma_prefix_shift(s, m + 1);
        }
        if i - 1 < q.len() {
            lemma_prefix_shift(s, i + 1);
        }
        lemma_skipped_count_char(q, start - d, i - 1);
    }
}

/// Dropping the first segment shifts prefix sums by that segment's duration.
proof fn lemma_prefix_shift(s: Seq<SegmentInfo>, i: int)
    requires
        1 <= i <= s.len(),
        s.len() > 0,
    ensures
        prefix_ms(s, i) == s[0].duration_ms + prefix_ms(s.drop_first(), i - 1),
    decreases i,
{
    if i == 1 {
        assert(prefix_ms(s, 1) == prefix_ms(s, 0) + s[0].duration_ms);
    } else {
        lemma_prefix_shift(s, i - 1);
        assert(s.drop_first()[i - 2] == s[i - 1]);
    }
}

proof fn lemma_taken_count_char(s: Seq<SegmentInfo>, end: int, cumul: int, t: int)
    requires
        0 <= t <= s.len(),
        forall|m: int| 0 <= m < t ==> cumul + #[trigger] prefix_ms(s, m) <= end,
        t == s.len() || cumul + prefix_ms(s, t) > end,
    ensures
        taken_count(s, end, cumul) == t,
    decreases s.len(),
{
    assert(prefix_ms(s, 0) == 0);
    if t == 0 {
        if s.len() > 0 {
            assert(cumul + prefix_ms(s, 0) > end);
        }
    } else {
        assert(cumul + prefix_ms(s, 0) <= end);
        let q = s.drop_first();
        let d = s[0].duration_ms as int;
        assert forall|m: int| 0 <= m < t - 1 implies (cumul + d) + #[trigger] prefix_ms(q, m) <= end by {
            lemma_prefix_shift(s, m + 1);
        }
        if t - 1 < q.len() {
            lemma_prefix_shift(s, t);
        }
        lemma_taken_count_char(q, end, cumul + d, t - 1);
    }
}

/// The playlist's total duration in milliseconds, or nothing when the sum
/// does not fit `u64` (which [`select`] requires it to).
pub fn total_duration_ms(segments: &Vec<SegmentInfo>) -> (r: Option<u64>)
    ensures
        match r {
            Option::Some(v) => v as int == total_ms(segments@),
            Option::None => total_ms(segments@) > u64::MAX,
        },
{
    let ghost s = segments@;
    let mut acc: u64 = 0;
    let mut i: usize = 0;
    while i < segments.len()
        invariant
            0 <= i <= s.len(),
            s == segments@,
            acc as int == prefix_ms(s, i as int),
        decreases s.len() - i,
    {
        let d = segments[i].duration_ms;
        let wide: u128 = (acc as u128) + (d as u128);
        if wide > u64::MAX as u128 {
            proof {
                lemma_prefix_monotone(s, i + 1, s.len() as int);
            }
            return None;
        }
        acc = wide as u64;
        i = i + 1;
    }
    Some(acc)
}

/// Select the ordered sub-range of `segments` that the window keeps and
/// assign dense zero-based sequence indices.
///
/// The result is exactly the run of segments from `selection_start` of
/// length `selection_len`, in playlist order, with `sequence_index`
/// counting `0, 1, 2, ...`. A start beyond the playlist's total duration
/// selects nothing; a window of `(0, 0)` selects everything.
pub fn select(segments: &Vec<SegmentInfo>, window: &SelectionWindow) -> (r: Vec<Segment>)
    requires
        window.wf(),
        total_ms(segments@) <= u64::MAX,
    ensures
        ({
            let k = selection_start(segments@, *window);
            let t = selection_len(segments@, *window);
            &&& r@.len() == t
            &&& forall|i: int|
                0 <= i < t ==> (#[trigger] r@[i]).sequence_index == i && r@[i].uri@ == segments@[k
                    + i].uri@ && r@[i].duration_ms == segments@[k + i].duration_ms
        }),
{
    let ghost s = segments@;
    let n = segments.len();
    let start = window.start_ms;
    let end = window.end_ms;

    // skip phase: walk past every segment that ends strictly before `start`
    // (the comparison is widened so that the sum cannot overflow)
    let mut k: usize = 0;
    let mut cumul: u64 = 0;
    while k < n && (cumul as u128) + (segments[k].duration_ms as u128) < (start as u128)
        invariant
            0 <= k <= n,
            n == s.len(),
            s == segments@,
            total_ms(s) <= u64::MAX,
            cumul == prefix_ms(s, k as int),
            forall|m: int| 1 <= m <= k ==> #[trigger] prefix_ms(s, m) < start as int,
        decreases n - k,
    {
        proof {
            lemma_prefix_monotone(s, k + 1, s.len() as int);
        }
        cumul = cumul + segments[k].duration_ms;
        k = k + 1;
    }
    proof {
        lemma_skipped_count_char(s, start as int, k as int);
    }

    // take phase: keep segments while the running total before each is
    // still within `end` (or all of them, when `end` is unbounded)
    let mut r: Vec<Segment> = Vec::new();
    let mut i: usize = k;
    while i < n && (end == 0 || cumul <= end)
        invariant
            0 <= k <= i <= n,
            n == s.len(),
            s == segments@,
            total_ms(s) <= u64::MAX,
            cumul == prefix_ms(s, i as int),
            skipped_count(s, start as int) == k as int,
            r@.len() == i - k,
            forall|m: int|
                0 <= m < i - k ==> (#[trigger] r@[m]).sequence_index == m && r@[m].uri@ == s[k
                    + m].uri@ && r@[m].duration_ms == s[k + m].duration_ms,
            end != 0 ==> forall|m: int|
                k as int <= m < i ==> #[trigger] prefix_ms(s, m) <= end as int,
        decreases n - i,
    {
        proof {
            lemma_prefix_monotone(s, i + 1, s.len() as int);
        }
        let seg = Segment {
            sequence_index: i - k,
            uri: segments[i].uri.clone(),
            duration_ms: segments[i].duration_ms,
        };
        r.push(seg);
        cumul = cumul + segments[i].duration_ms;
        i = i + 1;
    }
    proof {
        if end == 0 {
            assert(selection_len(s, *window) == s.len() - k);
            assert(i == n);
        } else {
            // relate the loop's absolute prefix sums to the suffix the spec
            // counts over
            let tail = s.skip(k as int);
            let t = i - k as int;
            assert forall|m: int| 0 <= m < t implies prefix_ms(s, k as int) + #[trigger] prefix_ms(
                tail,
                m,
            ) <= end as int by {
                lemma_prefix_chunk(s, k as int, m);
            }
            if t < tail.len() {
                lemma_prefix_chunk(s, k as int, t);
            }
            lemma_taken_count_char(tail, end as int, prefix_ms(s, k as int), t);
        }
    }
    r
}

/// Prefix sums split across a cut: the sum of `k + m` segments is the sum of
/// the first `k` plus the sum of `m` segments of the remaining suffix.
proof fn lemma_prefix_chunk(s: Seq<SegmentInfo>, k: int, m: int)
    requires
        0 <= k <= s.len(),
        0 <= m <= s.len() - k,
    ensures
        prefix_ms(s, k + m) == prefix_ms(s, k) + prefix_ms(s.skip(k), m),
    decreases m,
{
    if m > 0 {
        lemma_prefix_chunk(s, k, m - 1);
        assert(s.skip(k)[m - 1] == s[k + m - 1]);
    }
}

/// The full window keeps everything: with `window == (0, 0)` nothing is
/// skipped and every segment is selected, so together with [`select`]'s
/// contract the result is every segment in original order with dense
/// indices `0 .. n-1`.
pub proof fn lemma_full_window_selects_all(s: Seq<SegmentInfo>)
    ensures
        selection_start(s, SelectionWindow { start_ms: 0, end_ms: 0 }) == 0,
        selection_len(s, SelectionWindow { start_ms: 0, end_ms: 0 }) == s.len(),
{
    let w = SelectionWindow { start_ms: 0, end_ms: 0 };
    if s.len() > 0 {
        assert(!(s[0].duration_ms < 0));
    }
    assert(skipped_count(s, 0) == 0);
}

} // verus!
