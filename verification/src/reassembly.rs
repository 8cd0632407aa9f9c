//! Re-serialization of out-of-order fetch results.
//!
//! Fetch tasks complete in arbitrary order, but the sink must see segment
//! payloads in strictly ascending `sequence_index` order. The
//! [`ReassemblyBuffer`] holds arrived-but-not-yet-deliverable payloads in a
//! structure ordered by index, delivers a burst of consecutive entries
//! whenever the next expected index arrives, and on stream exhaustion drains
//! whatever is left in ascending order, so that every successfully fetched
//! payload is written exactly once even when some segment failed.

use vstd::prelude::*;
use vstd::seq_lib::*;

verus! {

/// One deliverable payload tagged with its reordering key.
pub struct Chunk {
    pub index: usize,
    pub data: Vec<u8>,
}

/// The outcome of one scheduled fetch. Exactly one result per scheduled
/// segment reaches the reassembly stage, in completion order.
pub enum FetchResult {
    Success { index: usize, payload: Vec<u8> },
    Failure { index: usize },
}

/// Mathematical stand-in for a [`Chunk`]: (index, bytes).
pub open spec fn chunk_model(c: Chunk) -> (nat, Seq<u8>) {
    (c.index as nat, c.data@)
}

/// A chunk sequence as its sequence of models.
pub open spec fn chunk_models(s: Seq<Chunk>) -> Seq<(nat, Seq<u8>)> {
    s.map_values(|c: Chunk| chunk_model(c))
}

/// The sequence index a result reports on, whether it succeeded or failed.
pub open spec fn result_index(r: FetchResult) -> nat {
    match r {
        FetchResult::Success { index, .. } => index as nat,
        FetchResult::Failure { index } => index as nat,
    }
}

/// What one result contributes to the sink: its model if it succeeded,
/// nothing if it failed.
pub open spec fn success_of(r: FetchResult) -> Seq<(nat, Seq<u8>)> {
    match r {
        FetchResult::Success { index, payload } => seq![(index as nat, payload@)],
        FetchResult::Failure { .. } => Seq::empty(),
    }
}

/// The successful payloads of a result stream, as models, in stream order.
pub open spec fn successes(rs: Seq<FetchResult>) -> Seq<(nat, Seq<u8>)>
    decreases rs.len(),
{
    if rs.len() == 0 {
        Seq::empty()
    } else {
        success_of(rs[0]) + successes(rs.drop_first())
    }
}

/// Strictly ascending by index: the order the sink must observe.
pub open spec fn sorted_strict(s: Seq<(nat, Seq<u8>)>) -> bool {
    forall|i: int, j: int| 0 <= i < j < s.len() ==> s[i].0 < s[j].0
}

/// How many leading entries of `p` carry the consecutive indices
/// `from, from + 1, ...`: the burst that a drain delivers.
pub open spec fn drain_count(p: Seq<(nat, Seq<u8>)>, from: nat) -> nat
    decreases p.len(),
{
    if p.len() > 0 && p[0].0 == from {
        1 + drain_count(p.drop_first(), (from + 1) as nat)
    } else {
        0
    }
}

/// Where an entry with index `n` belongs in the ascending sequence `p`:
/// the count of leading entries with a smaller index.
pub open spec fn lower_bound(p: Seq<(nat, Seq<u8>)>, n: nat) -> int
    decreases p.len(),
{
    if p.len() == 0 {
        0
    } else if p[0].0 >= n {
        0
    } else {
        1 + lower_bound(p.drop_first(), n)
    }
}

/// `p` with `(n, d)` inserted at its ascending position.
pub open spec fn inserted(p: Seq<(nat, Seq<u8>)>, n: nat, d: Seq<u8>) -> Seq<(nat, Seq<u8>)> {
    let i = lower_bound(p, n);
    p.take(i) + seq![(n, d)] + p.skip(i)
}

pub proof fn lemma_drain_count_props(p: Seq<(nat, Seq<u8>)>, from: nat)
    ensures
        drain_count(p, from) <= p.len(),
        forall|m: int| 0 <= m < drain_count(p, from) ==> p[m].0 == from + m,
    decreases p.len(),
{
    if p.len() > 0 && p[0].0 == from {
        lemma_drain_count_props(p.drop_first(), (from + 1) as nat);
        assert forall|m: int| 0 <= m < drain_count(p, from) implies p[m].0 == from + m by {
            if m > 0 {
                assert(p.drop_first()[m - 1] == p[m]);
            }
        }
    }
}

pub proof fn lemma_drain_count_char(p: Seq<(nat, Seq<u8>)>, from: nat, j: int)
    requires
        0 <= j <= p.len(),
        forall|m: int| 0 <= m < j ==> p[m].0 == from + m,
        j == p.len() || p[j].0 != from + j,
    ensures
        drain_count(p, from) == j,
    decreases p.len(),
{
    if j == 0 {
        if p.len() > 0 {
            assert(p[0].0 != from);
        }
    } else {
        assert(p[0].0 == from);
        let q = p.drop_first();
        assert forall|m: int| 0 <= m < j - 1 implies q[m].0 == (from + 1) + m by {
            assert(q[m] == p[m + 1]);
        }
        if j - 1 < q.len() {
            assert(q[j - 1] == p[j]);
        }
        lemma_drain_count_char(q, (from + 1) as nat, j - 1);
    }
}

pub proof fn lemma_lower_bound_props(p: Seq<(nat, Seq<u8>)>, n: nat)
    ensures
        0 <= lower_bound(p, n) <= p.len(),
    decreases p.len(),
{
    if p.len() > 0 && p[0].0 < n {
        lemma_lower_bound_props(p.drop_first(), n);
    }
}

pub proof fn lemma_lower_bound_char(p: Seq<(nat, Seq<u8>)>, n: nat, i: int)
    requires
        0 <= i <= p.len(),
        forall|m: int| 0 <= m < i ==> p[m].0 < n,
        i == p.len() || p[i].0 >= n,
    ensures
        lower_bound(p, n) == i,
    decreases p.len(),
{
    if i == 0 {
        if p.len() > 0 {
            assert(p[0].0 >= n);
        }
    } else {
        assert(p[0].0 < n);
        let q = p.drop_first();
        assert forall|m: int| 0 <= m < i - 1 implies q[m].0 < n by {
            assert(q[m] == p[m + 1]);
        }
        if i - 1 < q.len() {
            assert(q[i - 1] == p[i]);
        }
        lemma_lower_bound_char(q, n, i - 1);
    }
}

/// Reorders successful fetch results into strictly ascending index order.
///
/// `next_expected` starts at 0; `pending` holds arrived entries whose index
/// is still ahead of `next_expected`, in ascending index order. Failed
/// indices are only recorded for reporting: they never advance
/// `next_expected`, which stalls in-order delivery at the failed index until
/// the stream is exhausted and [`ReassemblyBuffer::finish`] drains the rest.
pub struct ReassemblyBuffer {
    next_expected: usize,
    pending: Vec<Chunk>,
    failed: Vec<usize>,
}

impl ReassemblyBuffer {
    /// The next sequence index owed to the sink.
    pub closed spec fn spec_next(self) -> nat {
        self.next_expected as nat
    }

    /// The buffered out-of-order entries, as models, in storage order.
    pub closed spec fn spec_pending(self) -> Seq<(nat, Seq<u8>)> {
        chunk_models(self.pending@)
    }

    /// The indices reported as failed, in arrival order.
    pub closed spec fn spec_failed(self) -> Seq<nat> {
        self.failed@.map_values(|x: usize| x as nat)
    }

    /// Some entry with index `n` is buffered.
    pub open spec fn pending_has(self, n: nat) -> bool {
        exists|i: int| 0 <= i < self.spec_pending().len() && self.spec_pending()[i].0 == n
    }

    /// Structural invariant: buffered entries are strictly ascending, all
    /// strictly ahead of `next_expected`, and small enough that advancing
    /// past one cannot overflow.
    pub open spec fn wf(self) -> bool {
        &&& sorted_strict(self.spec_pending())
        &&& forall|i: int|
            0 <= i < self.spec_pending().len() ==> self.spec_pending()[i].0 > self.spec_next()
        &&& forall|i: int|
            0 <= i < self.spec_pending().len() ==> self.spec_pending()[i].0 < usize::MAX as nat
    }

    /// A result for index `n` is admissible: under the at-most-once delivery
    /// contract it can be neither already delivered nor already buffered.
    pub open spec fn accepts(self, n: nat) -> bool {
        n >= self.spec_next() && !self.pending_has(n)
    }

    pub fn new() -> (r: Self)
        ensures
            r.wf(),
            r.spec_next() == 0,
            r.spec_pending() =~= Seq::<(nat, Seq<u8>)>::empty(),
            r.spec_failed() =~= Seq::<nat>::empty(),
    {
        ReassemblyBuffer { next_expected: 0, pending: Vec::new(), failed: Vec::new() }
    }

    /// The next sequence index owed to the sink.
    pub fn next_expected(&self) -> (r: usize)
        ensures
            r as nat == self.spec_next(),
    {
        self.next_expected
    }

    /// Whether an entry with this index is buffered.
    pub fn is_pending(&self, index: usize) -> (r: bool)
        ensures
            r == self.pending_has(index as nat),
    {
        let mut i: usize = 0;
        while i < self.pending.len()
            invariant
                0 <= i <= self.pending.len(),
                forall|m: int| 0 <= m < i ==> self.spec_pending()[m].0 != index as nat,
            decreases self.pending.len() - i,
        {
            if self.pending[i].index == index {
                proof {
                    assert(self.spec_pending()[i as int].0 == index as nat);
                }
                return true;
            }
            i = i + 1;
        }
        false
    }

    /// The indices whose fetches were reported failed, in arrival order.
    pub fn failed_indices(&self) -> (r: &Vec<usize>)
        ensures
            r@.map_values(|x: usize| x as nat) == self.spec_failed(),
    {
        &self.failed
    }

    /// Accept one successful result.
    ///
    /// If its index is the one owed next, the payload is delivered at once,
    /// followed by the burst of buffered entries with consecutive indices
    /// (the drain that absorbs segments which had arrived early). Otherwise
    /// the payload is buffered and nothing is delivered yet. The returned
    /// chunks are what the sink must be handed, in order.
    pub fn on_success(&mut self, index: usize, payload: Vec<u8>) -> (writes: Vec<Chunk>)
        requires
            old(self).wf(),
            old(self).accepts(index as nat),
            index < usize::MAX,
        ensures
            final(self).wf(),
            final(self).spec_failed() == old(self).spec_failed(),
            index as nat == old(self).spec_next() ==> {
                let k = drain_count(old(self).spec_pending(), (index + 1) as nat) as int;
                &&& chunk_models(writes@) == seq![(index as nat, payload@)] + old(
                    self,
                ).spec_pending().take(k)
                &&& final(self).spec_pending() == old(self).spec_pending().skip(k)
                &&& final(self).spec_next() == index + 1 + k
            },
            index as nat > old(self).spec_next() ==> {
                &&& writes@.len() == 0
                &&& final(self).spec_pending() == inserted(
                    old(self).spec_pending(),
                    index as nat,
                    payload@,
                )
                &&& final(self).spec_next() == old(self).spec_next()
            },
    {
        let ghost orig = old(self).spec_pending();
        let mut writes: Vec<Chunk> = Vec::new();
        if index == self.next_expected {
            writes.push(Chunk { index, data: payload });
            self.next_expected = index + 1;
            assert(chunk_models(writes@) =~= seq![(index as nat, payload@)] + orig.take(0));
            while self.pending.len() > 0 && self.pending[0].index == self.next_expected
                invariant
                    1 <= writes@.len() <= orig.len() + 1,
                    self.spec_pending() =~= orig.skip(writes@.len() - 1),
                    chunk_models(writes@) =~= seq![(index as nat, payload@)] + orig.take(
                        writes@.len() - 1,
                    ),
                    self.spec_next() == index + writes@.len(),
                    forall|m: int| 0 <= m < writes@.len() - 1 ==> orig[m].0 == index + 1 + m,
                    self.spec_failed() == old(self).spec_failed(),
                    sorted_strict(orig),
                    forall|i: int| 0 <= i < orig.len() ==> orig[i].0 > index as nat,
                    forall|i: int| 0 <= i < orig.len() ==> orig[i].0 < usize::MAX as nat,
                decreases self.pending.len(),
            {
                let ghost j = writes@.len() - 1;
                let ghost pbefore = self.pending@;
                let ghost wbefore = writes@;
                proof {
                    assert(self.spec_pending().len() == self.pending@.len());
                    assert(orig.skip(j).len() == orig.len() - j);
                    assert(j < orig.len());
                    assert(chunk_models(pbefore)[0] == orig.skip(j)[0]);
                    assert(orig.skip(j)[0] == orig[j]);
                }
                let c = self.pending.remove(0);
                let ci = c.index;
                proof {
                    assert(chunk_model(c) == orig[j]);
                    assert(ci as nat == orig[j].0);
                    assert(ci < usize::MAX);
                    assert(orig[j].0 == index + 1 + j);
                }
                writes.push(c);
                self.next_expected = ci + 1;
                proof {
                    assert forall|m: int| 0 <= m < self.pending@.len() implies chunk_model(
                        self.pending@[m],
                    ) == orig[j + 1 + m] by {
                        assert(self.pending@[m] == pbefore[m + 1]);
                        assert(chunk_models(pbefore)[m + 1] == orig.skip(j)[m + 1]);
                        assert(orig.skip(j)[m + 1] == orig[j + 1 + m]);
                    }
                    assert(self.spec_pending() =~= orig.skip(j + 1));
                    let expect = seq![(index as nat, payload@)] + orig.take(j + 1);
                    assert forall|m: int| 0 <= m < writes@.len() implies chunk_models(writes@)[m]
                        == expect[m] by {
                        if m == 0 {
                            assert(writes@[0] == wbefore[0]);
                            assert(chunk_models(wbefore)[0] == (seq![(index as nat, payload@)]
                                + orig.take(j))[0]);
                        } else if m <= j {
                            assert(writes@[m] == wbefore[m]);
                            assert(chunk_models(wbefore)[m] == (seq![(index as nat, payload@)]
                                + orig.take(j))[m]);
                            assert((seq![(index as nat, payload@)] + orig.take(j))[m]
                                == orig.take(j)[m - 1]);
                            assert(orig.take(j)[m - 1] == orig[m - 1]);
                            assert(expect[m] == orig.take(j + 1)[m - 1]);
                            assert(orig.take(j + 1)[m - 1] == orig[m - 1]);
                        } else {
                            assert(writes@[m] == c);
                            assert(expect[m] == orig.take(j + 1)[j]);
                            assert(orig.take(j + 1)[j] == orig[j]);
                        }
                    }
                    assert(chunk_models(writes@) =~= expect);
                }
            }
            proof {
                let j = writes@.len() - 1;
                assert(self.spec_pending().len() == self.pending@.len());
                assert(orig.skip(j).len() == orig.len() - j);
                assert forall|i: int| 0 <= i < self.spec_pending().len() implies self.spec_pending()[i]
                    == orig[j + i] by {
                    assert(self.spec_pending()[i] == orig.skip(j)[i]);
                    assert(orig.skip(j)[i] == orig[j + i]);
                }
                if j < orig.len() {
                    assert(self.spec_pending()[0] == orig[j]);
                    assert(orig[j].0 != self.spec_next());
                    assert(self.spec_next() == index + 1 + j);
                }
                lemma_drain_count_char(orig, (index + 1) as nat, j);
                // remaining entries stay ahead of the new next_expected
                assert forall|i: int|
                    0 <= i < self.spec_pending().len() implies self.spec_pending()[i].0
                    > self.spec_next() by {
                    assert(self.spec_pending()[i] == orig[j + i]);
                    if j > 0 {
                        assert(orig[j - 1].0 == index + j);
                        if i > 0 {
                            assert(orig[j - 1].0 < orig[j + i].0);
                        }
                    }
                }
                assert forall|i: int|
                    0 <= i < self.spec_pending().len() implies self.spec_pending()[i].0
                    < usize::MAX as nat by {
                    assert(self.spec_pending()[i] == orig[j + i]);
                }
                assert forall|a: int, b: int|
                    0 <= a < b < self.spec_pending().len() implies self.spec_pending()[a].0
                    < self.spec_pending()[b].0 by {
                    assert(self.spec_pending()[a] == orig[j + a]);
                    assert(self.spec_pending()[b] == orig[j + b]);
                }
            }
            writes
        } else {
            let mut i: usize = 0;
            while i < self.pending.len() && self.pending[i].index < index
                invariant
                    0 <= i <= self.pending.len(),
                    forall|m: int| 0 <= m < i ==> self.spec_pending()[m].0 < index as nat,
                    self.pending@.len() == orig.len(),
                    self.spec_pending() == orig,
                decreases self.pending.len() - i,
            {
                i = i + 1;
            }
            proof {
                lemma_lower_bound_char(orig, index as nat, i as int);
            }
            self.pending.insert(i, Chunk { index, data: payload });
            proof {
                assert(self.spec_pending() =~= inserted(orig, index as nat, payload@));
                let p = self.spec_pending();
                let lb = lower_bound(orig, index as nat);
                // strictly sorted around the insertion point: entries before it
                // are below `index`, entries after it are above (admissibility
                // rules out an equal one)
                assert forall|a: int, b: int| 0 <= a < b < p.len() implies p[a].0 < p[b].0 by {
                    if a < lb && b > lb {
                        assert(p[a] == orig[a]);
                        assert(p[b] == orig[b - 1]);
                    } else if b == lb {
                        assert(p[a] == orig[a]);
                    } else if a == lb && b > lb {
                        assert(p[b] == orig[b - 1]);
                        assert(orig[b - 1].0 != index as nat);
                        if b - 1 > lb - 1 && lb <= b - 1 < orig.len() {
                            if orig[b - 1].0 < index as nat {
                                assert(lb == lower_bound(orig, index as nat));
                            }
                        }
                    }
                }
            }
            writes
        }
    }

    /// Record one failed result. Nothing is delivered and `next_expected`
    /// does not advance: delivery stalls at the failed index until the
    /// stream ends.
    pub fn on_failure(&mut self, index: usize)
        requires
            old(self).wf(),
        ensures
            final(self).wf(),
            final(self).spec_next() == old(self).spec_next(),
            final(self).spec_pending() == old(self).spec_pending(),
            final(self).spec_failed() =~= old(self).spec_failed().push(index as nat),
    {
        self.failed.push(index);
        proof {
            assert(self.spec_failed() =~= old(self).spec_failed().push(index as nat));
        }
    }

    /// The stream is exhausted: hand back everything still buffered, in
    /// ascending index order, regardless of contiguity. After a failure this
    /// is where the output becomes gapped — every successfully fetched
    /// payload is still written, in order, but the failed index is absent.
    pub fn finish(&mut self) -> (writes: Vec<Chunk>)
        requires
            old(self).wf(),
        ensures
            final(self).wf(),
            chunk_models(writes@) == old(self).spec_pending(),
            final(self).spec_pending() =~= Seq::<(nat, Seq<u8>)>::empty(),
            final(self).spec_next() == old(self).spec_next(),
            final(self).spec_failed() == old(self).spec_failed(),
    {
        let ghost orig = old(self).spec_pending();
        let mut writes: Vec<Chunk> = Vec::new();
        while self.pending.len() > 0
            invariant
                writes@.len() <= orig.len(),
                self.spec_pending() =~= orig.skip(writes@.len() as int),
                chunk_models(writes@) =~= orig.take(writes@.len() as int),
                self.spec_next() == old(self).spec_next(),
                self.spec_failed() == old(self).spec_failed(),
            decreases self.pending.len(),
        {
            let ghost j = writes@.len() as int;
            let ghost pbefore = self.pending@;
            let ghost wbefore = writes@;
            proof {
                assert(self.spec_pending().len() == self.pending@.len());
                assert(orig.skip(j).len() == orig.len() - j);
                assert(j < orig.len());
                assert(chunk_models(pbefore)[0] == orig.skip(j)[0]);
                assert(orig.skip(j)[0] == orig[j]);
            }
            let c = self.pending.remove(0);
            writes.push(c);
            proof {
                assert(chunk_model(c) == orig[j]);
                assert forall|m: int| 0 <= m < self.pending@.len() implies chunk_model(
                    self.pending@[m],
                ) == orig[j + 1 + m] by {
                    assert(self.pending@[m] == pbefore[m + 1]);
                    assert(chunk_models(pbefore)[m + 1] == orig.skip(j)[m + 1]);
                    assert(orig.skip(j)[m + 1] == orig[j + 1 + m]);
                }
                assert(self.spec_pending() =~= orig.skip(j + 1));
                assert forall|m: int| 0 <= m < writes@.len() implies chunk_models(writes@)[m]
                    == orig.take(j + 1)[m] by {
                    if m < j {
                        assert(writes@[m] == wbefore[m]);
                        assert(chunk_models(wbefore)[m] == orig.take(j)[m]);
                        assert(orig.take(j)[m] == orig[m]);
                    } else {
                        assert(writes@[m] == c);
                    }
                    assert(orig.take(j + 1)[m] == orig[m]);
                }
                assert(chunk_models(writes@) =~= orig.take(j + 1));
            }
        }
        proof {
            assert(chunk_models(writes@) =~= orig);
        }
        writes
    }
}

proof fn lemma_successes_snoc(rs: Seq<FetchResult>, r: FetchResult)
    ensures
        successes(rs.push(r)) == successes(rs) + success_of(r),
    decreases rs.len(),
{
    if rs.len() == 0 {
        assert(rs.push(r)[0] == r);
        assert(rs.push(r).drop_first() =~= rs);
        assert(successes(rs.push(r)) =~= successes(rs) + success_of(r));
    } else {
        assert(rs.push(r)[0] == rs[0]);
        assert(rs.push(r).drop_first() =~= rs.drop_first().push(r));
        lemma_successes_snoc(rs.drop_first(), r);
        assert(successes(rs.push(r)) == success_of(rs[0]) + (successes(rs.drop_first())
            + success_of(r)));
        assert(success_of(rs[0]) + (successes(rs.drop_first()) + success_of(r)) =~= (success_of(
            rs[0],
        ) + successes(rs.drop_first())) + success_of(r));
    }
}

/// Reassembly is canonical: two strictly ascending chunk sequences made of
/// the same chunks are the same sequence, entry for entry.
///
/// Together with the contract of [`reassemble`], this is the
/// order-independence of reassembly: whatever order the fetches complete in,
/// the same set of successful results leads the sink to observe one and the
/// same sequence of writes.
pub proof fn lemma_sorted_unique(a: Seq<(nat, Seq<u8>)>, b: Seq<(nat, Seq<u8>)>)
    requires
        sorted_strict(a),
        sorted_strict(b),
        a.to_multiset() == b.to_multiset(),
    ensures
        a == b,
    decreases a.len(),
{
    broadcast use vstd::seq_lib::group_to_multiset_ensures;

    if a.len() == 0 {
        assert(a.to_multiset().len() == 0);
        assert(b.len() == 0);
        assert(a =~= b);
    } else {
        assert(a.contains(a[0]));
        assert(b.to_multiset().count(a[0]) > 0);
        assert(b.contains(a[0]));
        let jb = choose|j: int| 0 <= j < b.len() && b[j] == a[0];
        assert(b.contains(b[0]));
        assert(a.to_multiset().count(b[0]) > 0);
        assert(a.contains(b[0]));
        let ja = choose|j: int| 0 <= j < a.len() && a[j] == b[0];
        if jb > 0 {
            assert(b[0].0 < b[jb].0);
        }
        if ja > 0 {
            assert(a[0].0 < a[ja].0);
        }
        assert(a[0] == b[0]);
        let at = a.drop_first();
        let bt = b.drop_first();
        assert(a.remove(0) =~= at);
        assert(b.remove(0) =~= bt);
        assert(at.to_multiset() =~= a.to_multiset().remove(a[0]));
        assert(bt.to_multiset() =~= b.to_multiset().remove(b[0]));
        assert(at.to_multiset() == bt.to_multiset());
        assert forall|i: int, j: int| 0 <= i < j < at.len() implies at[i].0 < at[j].0 by {
            assert(at[i] == a[i + 1]);
            assert(at[j] == a[j + 1]);
        }
        assert forall|i: int, j: int| 0 <= i < j < bt.len() implies bt[i].0 < bt[j].0 by {
            assert(bt[i] == b[i + 1]);
            assert(bt[j] == b[j + 1]);
        }
        lemma_sorted_unique(at, bt);
        assert forall|i: int| 0 <= i < a.len() implies a[i] == b[i] by {
            if i > 0 {
                assert(a[i] == at[i - 1]);
                assert(b[i] == bt[i - 1]);
            }
        }
        assert(a =~= b);
    }
}

/// Order-independence of reassembly, stated over two whole result streams:
/// if the two streams carry the same successful results (however they are
/// interleaved with failures and with each other), then any two write
/// sequences that satisfy [`reassemble`]'s contract for them are identical.
pub proof fn lemma_order_independent(
    ws1: Seq<(nat, Seq<u8>)>,
    ws2: Seq<(nat, Seq<u8>)>,
    rs1: Seq<FetchResult>,
    rs2: Seq<FetchResult>,
)
    requires
        successes(rs1).to_multiset() == successes(rs2).to_multiset(),
        sorted_strict(ws1),
        ws1.to_multiset() == successes(rs1).to_multiset(),
        sorted_strict(ws2),
        ws2.to_multiset() == successes(rs2).to_multiset(),
    ensures
        ws1 == ws2,
{
    lemma_sorted_unique(ws1, ws2);
}

/// The canonical full outcome: segment `i` carries `payloads[i]`.
pub open spec fn expected_chunks(payloads: Seq<Seq<u8>>) -> Seq<(nat, Seq<u8>)> {
    Seq::new(payloads.len(), |i: int| (i as nat, payloads[i]))
}

/// If exactly segment `k` failed and every other of the `n` segments
/// succeeded, the write sequence is exactly segments `0 .. k-1` followed by
/// `k+1 .. n-1`, each written once, in that order: ascending with one gap.
pub proof fn lemma_single_failure_writes(
    ws: Seq<(nat, Seq<u8>)>,
    payloads: Seq<Seq<u8>>,
    k: int,
)
    requires
        0 <= k < payloads.len(),
        sorted_strict(ws),
        ws.to_multiset() == expected_chunks(payloads).remove(k).to_multiset(),
    ensures
        ws == expected_chunks(payloads).remove(k),
{
    let gapped = expected_chunks(payloads).remove(k);
    assert forall|i: int, j: int| 0 <= i < j < gapped.len() implies gapped[i].0 < gapped[j].0 by {
        assert(gapped.len() == payloads.len() - 1);
        if j < k {
            assert(gapped[i] == expected_chunks(payloads)[i]);
            assert(gapped[j] == expected_chunks(payloads)[j]);
        } else if i < k {
            assert(gapped[i] == expected_chunks(payloads)[i]);
            assert(gapped[j] == expected_chunks(payloads)[j + 1]);
        } else {
            assert(gapped[i] == expected_chunks(payloads)[i + 1]);
            assert(gapped[j] == expected_chunks(payloads)[j + 1]);
        }
    }
    lemma_sorted_unique(ws, gapped);
}

fn clone_bytes(v: &Vec<u8>) -> (r: Vec<u8>)
    ensures
        r@ == v@,
{
    let mut out: Vec<u8> = Vec::new();
    let mut i: usize = 0;
    while i < v.len()
        invariant
            0 <= i <= v@.len(),
            out@ =~= v@.take(i as int),
        decreases v@.len() - i,
    {
        out.push(v[i]);
        i = i + 1;
        proof {
            assert(out@ =~= v@.take(i as int));
        }
    }
    proof {
        assert(out@ =~= v@);
    }
    out
}
proof fn lemma_successes_source(rs: Seq<FetchResult>, pos: int)
    requires
        0 <= pos < successes(rs).len(),
    ensures
        exists|m: int|
            0 <= m < rs.len() && result_index(#[trigger] rs[m]) == successes(rs)[pos].0,
    decreases rs.len(),
{
    if rs.len() > 0 {
        let head = success_of(rs[0]);
        let rest = successes(rs.drop_first());
        if pos < head.len() {
            assert(successes(rs)[pos] == head[pos]);
            assert(result_index(rs[0]) == successes(rs)[pos].0);
        } else {
            assert(successes(rs)[pos] == rest[pos - head.len()]);
            lemma_successes_source(rs.drop_first(), pos - head.len());
            let m0 = choose|m: int|
                0 <= m < rs.drop_first().len() && result_index(#[trigger] rs.drop_first()[m])
                    == rest[pos - head.len()].0;
            assert(rs.drop_first()[m0] == rs[m0 + 1]);
            assert(result_index(rs[m0 + 1]) == successes(rs)[pos].0);
        }
    }
}

/// Consume one complete result stream and produce every write the sink must
/// observe, in order: the in-stream deliveries first, then the closing
/// best-effort drain.
///
/// The stream must respect at-most-once delivery: one result per sequence
/// index. The writes are then exactly the successful payloads, each once, in
/// strictly ascending index order — independently of the order in which the
/// results completed.
pub fn reassemble(results: Vec<FetchResult>) -> (writes: Vec<Chunk>)
    requires
        forall|i: int, j: int|
            0 <= i < j < results@.len() ==> result_index(results@[i]) != result_index(
                results@[j],
            ),
        forall|i: int| 0 <= i < results@.len() ==> result_index(results@[i]) < usize::MAX as nat,
    ensures
        sorted_strict(chunk_models(writes@)),
        chunk_models(writes@).to_multiset() == successes(results@).to_multiset(),
{
    broadcast use vstd::seq_lib::group_to_multiset_ensures;

    let mut buf = ReassemblyBuffer::new();
    let mut out: Vec<Chunk> = Vec::new();
    let mut i: usize = 0;
    proof {
        assert(results@.take(0) =~= Seq::<FetchResult>::empty());
        assert(chunk_models(out@) + buf.spec_pending() =~= Seq::<(nat, Seq<u8>)>::empty());
        assert((chunk_models(out@) + buf.spec_pending()).to_multiset() =~= successes(
            results@.take(0),
        ).to_multiset());
    }
    while i < results.len()
        invariant
            0 <= i <= results@.len(),
            buf.wf(),
            chunk_models(out@).len() == buf.spec_next(),
            forall|m: int| 0 <= m < out@.len() ==> chunk_models(out@)[m].0 == m,
            (chunk_models(out@) + buf.spec_pending()).to_multiset() == successes(
                results@.take(i as int),
            ).to_multiset(),
            forall|a: int, b: int|
                0 <= a < b < results@.len() ==> result_index(results@[a]) != result_index(
                    results@[b],
                ),
            forall|a: int|
                0 <= a < results@.len() ==> result_index(results@[a]) < usize::MAX as nat,
        decreases results@.len() - i,
    {
        broadcast use vstd::seq_lib::group_to_multiset_ensures;

        let ghost prefix = results@.take(i as int);
        let ghost om = chunk_models(out@);
        let ghost pm = buf.spec_pending();
        let ghost oldnext = buf.spec_next();
        proof {
            assert(results@.take(i + 1) =~= prefix.push(results@[i as int]));
            lemma_successes_snoc(prefix, results@[i as int]);
        }
        match &results[i] {
            FetchResult::Success { index, payload } => {
                let idx: usize = *index;
                let data = clone_bytes(payload);
                proof {
                    assert(results@[i as int] == FetchResult::Success {
                        index: idx,
                        payload: *payload,
                    });
                    assert(result_index(results@[i as int]) == idx as nat);
                    // admissibility: a result for an index already delivered
                    // or already buffered would be a second result for it
                    if (idx as nat) < oldnext || buf.pending_has(idx as nat) {
                        if (idx as nat) < oldnext {
                            assert(om[idx as int].0 == idx as nat);
                            assert((om + pm)[idx as int] == om[idx as int]);
                            assert((om + pm).contains(om[idx as int]));
                            assert((om + pm).to_multiset().count(om[idx as int]) > 0);
                            assert(successes(prefix).to_multiset().contains(om[idx as int]));
                            assert(successes(prefix).contains(om[idx as int]));
                        } else {
                            let q = choose|q: int| 0 <= q < pm.len() && pm[q].0 == idx as nat;
                            assert((om + pm)[om.len() + q] == pm[q]);
                            assert((om + pm).contains(pm[q]));
                            assert((om + pm).to_multiset().count(pm[q]) > 0);
                            assert(successes(prefix).to_multiset().contains(pm[q]));
                            assert(successes(prefix).contains(pm[q]));
                        }
                        let pos = choose|pos: int|
                            0 <= pos < successes(prefix).len() && successes(prefix)[pos].0
                                == idx as nat;
                        lemma_successes_source(prefix, pos);
                        let m = choose|m: int|
                            0 <= m < prefix.len() && result_index(#[trigger] prefix[m])
                                == successes(prefix)[pos].0;
                        assert(prefix[m] == results@[m]);
                        assert(result_index(results@[m]) == result_index(results@[i as int]));
                        assert(false);
                    }
                }
                let ghost x = seq![(idx as nat, data@)];
                let mut w = buf.on_success(idx, data);
                out.append(&mut w);
                proof {
                    if idx as nat == oldnext {
                        let k = drain_count(pm, (idx + 1) as nat) as int;
                        lemma_drain_count_props(pm, (idx + 1) as nat);
                        assert(chunk_models(out@) =~= om + (x + pm.take(k)));
                        assert(pm.take(k) + pm.skip(k) =~= pm);
                        // dense prefix: indices keep counting up without a gap
                        assert forall|m: int| 0 <= m < out@.len() implies chunk_models(
                            out@,
                        )[m].0 == m by {
                            if m < om.len() {
                                assert(chunk_models(out@)[m] == om[m]);
                            } else if m == om.len() {
                                assert(chunk_models(out@)[m] == x[0]);
                            } else {
                                assert(chunk_models(out@)[m] == pm.take(k)[m - om.len() - 1]);
                                assert(pm.take(k)[m - om.len() - 1] == pm[m - om.len() - 1]);
                                assert(pm[m - om.len() - 1].0 == idx + 1 + (m - om.len() - 1));
                            }
                        }
                        // the new buffer contents sit behind the new next index
                        assert(chunk_models(out@).len() == buf.spec_next());
                        // multiset bookkeeping: om + x + take + skip == om + pm plus x
                        assert((chunk_models(out@) + buf.spec_pending()) =~= (om + (x + pm.take(
                            k,
                        ))) + pm.skip(k));
                        lemma_multiset_commutative(om + (x + pm.take(k)), pm.skip(k));
                        lemma_multiset_commutative(om, x + pm.take(k));
                        lemma_multiset_commutative(x, pm.take(k));
                        lemma_multiset_commutative(pm.take(k), pm.skip(k));
                        lemma_multiset_commutative(om, pm);
                        lemma_multiset_commutative(successes(prefix), x);
                        assert((chunk_models(out@) + buf.spec_pending()).to_multiset()
                            =~= successes(prefix).to_multiset().add(x.to_multiset()));
                        assert(success_of(results@[i as int]) == x);
                        assert(successes(results@.take(i + 1)).to_multiset() =~= successes(
                            prefix,
                        ).to_multiset().add(x.to_multiset()));
                    } else {
                        let lb = lower_bound(pm, idx as nat);
                        lemma_lower_bound_props(pm, idx as nat);
                        assert(w@.len() == 0);
                        assert(chunk_models(out@) =~= om);
                        assert(buf.spec_pending() == inserted(pm, idx as nat, x[0].1));
                        assert(buf.spec_pending() =~= (pm.take(lb) + x) + pm.skip(lb));
                        assert(pm.take(lb) + pm.skip(lb) =~= pm);
                        assert((chunk_models(out@) + buf.spec_pending()) =~= om + ((pm.take(lb)
                            + x) + pm.skip(lb)));
                        lemma_multiset_commutative(om, (pm.take(lb) + x) + pm.skip(lb));
                        lemma_multiset_commutative(pm.take(lb) + x, pm.skip(lb));
                        lemma_multiset_commutative(pm.take(lb), x);
                        lemma_multiset_commutative(pm.take(lb), pm.skip(lb));
                        lemma_multiset_commutative(om, pm);
                        lemma_multiset_commutative(successes(prefix), x);
                        assert((chunk_models(out@) + buf.spec_pending()).to_multiset()
                            =~= successes(prefix).to_multiset().add(x.to_multiset()));
                        assert(success_of(results@[i as int]) == x);
                        assert(successes(results@.take(i + 1)).to_multiset() =~= successes(
                            prefix,
                        ).to_multiset().add(x.to_multiset()));
                    }
                }
            }
            FetchResult::Failure { index } => {
                let idx: usize = *index;
                proof {
                    assert(results@[i as int] == FetchResult::Failure { index: idx });
                    assert(successes(prefix) + success_of(results@[i as int]) =~= successes(
                        prefix,
                    ));
                }
                buf.on_failure(idx);
            }
        }
        i = i + 1;
    }
    proof {
        assert(results@.take(results@.len() as int) =~= results@);
    }
    let ghost om = chunk_models(out@);
    let ghost pm = buf.spec_pending();
    let ghost oldnext = buf.spec_next();
    let mut tail = buf.finish();
    out.append(&mut tail);
    proof {
        assert(chunk_models(out@) =~= om + pm);
        assert forall|a: int, b: int|
            0 <= a < b < chunk_models(out@).len() implies chunk_models(out@)[a].0 < chunk_models(
            out@,
        )[b].0 by {
            if b < om.len() {
                assert(chunk_models(out@)[a] == om[a]);
                assert(chunk_models(out@)[b] == om[b]);
            } else if a < om.len() {
                assert(chunk_models(out@)[a] == om[a]);
                assert(chunk_models(out@)[b] == pm[b - om.len()]);
                assert(om[a].0 == a);
                assert(pm[b - om.len()].0 > oldnext);
            } else {
                assert(chunk_models(out@)[a] == pm[a - om.len()]);
                assert(chunk_models(out@)[b] == pm[b - om.len()]);
            }
        }
    }
    out
}

} // verus!
