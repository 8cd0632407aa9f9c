//! Lifecycle of one download session on the sink side.
//!
//! A [`Session`] owns the reassembly buffer for one video and decides what
//! the sink must be told after each fetch result: which chunks to write, and
//! whether to close. The caller performs those actions. However the session
//! ends — the last result arriving, or a cancellation at any moment — the
//! close signal is emitted exactly once, so the sink's underlying resources
//! are always released and never released twice.

use vstd::prelude::*;
use crate::reassembly::FetchResult;
use crate::reassembly::Chunk;
use crate::reassembly::ReassemblyBuffer;
use crate::reassembly::chunk_models;

verus! {

/// What the sink must be handed after one step: the chunks to write, in
/// order, and whether to close afterwards.
pub struct SinkCommands {
    pub writes: Vec<Chunk>,
    pub close: bool,
}

/// One download session: a reassembly buffer plus the bookkeeping that
/// decides when the result stream is exhausted and the sink must close.
pub struct Session {
    buffer: ReassemblyBuffer,
    outstanding: usize,
    closed: bool,
}

impl Session {
    /// The reassembly state this session owns.
    pub closed spec fn spec_buffer(self) -> ReassemblyBuffer {
        self.buffer
    }

    /// How many scheduled results have not arrived yet.
    pub closed spec fn spec_outstanding(self) -> nat {
        self.outstanding as nat
    }

    /// Whether the close signal has been emitted.
    pub closed spec fn spec_closed(self) -> bool {
        self.closed
    }

    pub open spec fn wf(self) -> bool {
        self.spec_buffer().wf()
    }

    /// Whether this session can still accept `r`: under at-most-once
    /// delivery, a successful result must carry an index that is neither
    /// delivered nor buffered yet.
    pub open spec fn admits(self, r: FetchResult) -> bool {
        match r {
            FetchResult::Success { index, .. } => self.spec_buffer().accepts(index as nat)
                && index < usize::MAX,
            FetchResult::Failure { .. } => true,
        }
    }

    /// A session expecting `total` results, none arrived, sink open.
    pub fn new(total: usize) -> (r: Self)
        ensures
            r.wf(),
            r.spec_outstanding() == total,
            !r.spec_closed(),
            r.spec_buffer().spec_next() == 0,
            r.spec_buffer().spec_pending() =~= Seq::<(nat, Seq<u8>)>::empty(),
            r.spec_buffer().spec_failed() =~= Seq::<nat>::empty(),
    {
        Session { buffer: ReassemblyBuffer::new(), outstanding: total, closed: false }
    }

    /// How many results are still owed.
    pub fn outstanding(&self) -> (r: usize)
        ensures
            r as nat == self.spec_outstanding(),
    {
        self.outstanding
    }

    /// Whether the close signal has been emitted already.
    pub fn is_closed(&self) -> (r: bool)
        ensures
            r == self.spec_closed(),
    {
        self.closed
    }

    /// The indices whose fetches failed, for reporting.
    pub fn failed_indices(&self) -> (r: &Vec<usize>)
        ensures
            r@.map_values(|x: usize| x as nat) == self.spec_buffer().spec_failed(),
    {
        self.buffer.failed_indices()
    }

    /// Whether this session can still accept `r` (the runtime counterpart of
    /// [`Session::admits`], for callers that must test before handing in a
    /// result of unknown provenance).
    pub fn can_accept(&self, r: &FetchResult) -> (b: bool)
        ensures
            b == self.admits(*r),
    {
        match r {
            FetchResult::Success { index, payload: _ } => *index < usize::MAX && *index
                >= self.buffer.next_expected() && !self.buffer.is_pending(*index),
            FetchResult::Failure { index: _ } => true,
        }
    }

    /// Feed one fetch result. The returned commands carry the in-order
    /// deliveries this result unlocked; when it was the last result owed,
    /// they also carry the closing drain, and `close` is set — the one
    /// rising edge of `spec_closed()`.
    pub fn on_result(&mut self, r: FetchResult) -> (cmds: SinkCommands)
        requires
            old(self).wf(),
            !old(self).spec_closed(),
            old(self).spec_outstanding() > 0,
            old(self).admits(r),
        ensures
            final(self).wf(),
            final(self).spec_outstanding() == old(self).spec_outstanding() - 1,
            final(self).spec_closed() == (old(self).spec_outstanding() == 1),
            cmds.close == (!old(self).spec_closed() && final(self).spec_closed()),
            // the sink observes exactly the chunks the reassembly buffer
            // delivers for this result, plus the closing drain if this was
            // the last result
            ({
                let b0 = old(self).spec_buffer();
                let b1 = final(self).spec_buffer();
                match r {
                    FetchResult::Success { index, payload } => {
                        &&& b1.spec_failed() == b0.spec_failed()
                        &&& if index as nat == b0.spec_next() {
                            let k = crate::reassembly::drain_count(
                                b0.spec_pending(),
                                (index + 1) as nat,
                            ) as int;
                            let delivered = seq![(index as nat, payload@)]
                                + b0.spec_pending().take(k);
                            &&& b1.spec_next() == index + 1 + k
                            &&& if old(self).spec_outstanding() == 1 {
                                &&& chunk_models(cmds.writes@) == delivered
                                    + b0.spec_pending().skip(k)
                                &&& b1.spec_pending() =~= Seq::<(nat, Seq<u8>)>::empty()
                            } else {
                                &&& chunk_models(cmds.writes@) == delivered
                                &&& b1.spec_pending() == b0.spec_pending().skip(k)
                            }
                        } else {
                            let held = crate::reassembly::inserted(
                                b0.spec_pending(),
                                index as nat,
                                payload@,
                            );
                            &&& b1.spec_next() == b0.spec_next()
                            &&& if old(self).spec_outstanding() == 1 {
                                &&& chunk_models(cmds.writes@) == held
                                &&& b1.spec_pending() =~= Seq::<(nat, Seq<u8>)>::empty()
                            } else {
                                &&& chunk_models(cmds.writes@) =~= Seq::<(nat, Seq<u8>)>::empty()
                                &&& b1.spec_pending() == held
                            }
                        }
                    },
                    FetchResult::Failure { index } => {
                        &&& b1.spec_failed() == b0.spec_failed().push(index as nat)
                        &&& b1.spec_next() == b0.spec_next()
                        &&& if old(self).spec_outstanding() == 1 {
                            &&& chunk_models(cmds.writes@) == b0.spec_pending()
                            &&& b1.spec_pending() =~= Seq::<(nat, Seq<u8>)>::empty()
                        } else {
                            &&& chunk_models(cmds.writes@) =~= Seq::<(nat, Seq<u8>)>::empty()
                            &&& b1.spec_pending() == b0.spec_pending()
                        }
                    },
                }
            }),
    {
        let ghost b0 = self.buffer;
        let mut writes: Vec<Chunk> = match r {
            FetchResult::Success { index, payload } => self.buffer.on_success(index, payload),
            FetchResult::Failure { index } => {
                self.buffer.on_failure(index);
                Vec::new()
            },
        };
        let ghost winstream = writes@;
        self.outstanding = self.outstanding - 1;
        if self.outstanding == 0 {
            let ghost bmid = self.buffer;
            let mut tail = self.buffer.finish();
            writes.append(&mut tail);
            self.closed = true;
            proof {
                assert(chunk_models(writes@) =~= chunk_models(winstream) + bmid.spec_pending());
            }
            SinkCommands { writes, close: true }
        } else {
            SinkCommands { writes, close: false }
        }
    }

    /// End the session now, whatever is still outstanding: deliver the
    /// best-effort drain of everything buffered and signal the one close.
    /// Safe to call at any time; after the session is closed it does
    /// nothing, so the sink can never see a second close.
    pub fn cancel(&mut self) -> (cmds: SinkCommands)
        requires
            old(self).wf(),
        ensures
            final(self).wf(),
            final(self).spec_closed(),
            cmds.close == (!old(self).spec_closed() && final(self).spec_closed()),
            old(self).spec_closed() ==> chunk_models(cmds.writes@) =~= Seq::<(
                nat,
                Seq<u8>,
            )>::empty(),
            !old(self).spec_closed() ==> chunk_models(cmds.writes@) == old(
                self,
            ).spec_buffer().spec_pending(),
            final(self).spec_buffer().spec_pending() =~= Seq::<(nat, Seq<u8>)>::empty() || old(
                self,
            ).spec_closed(),
            final(self).spec_buffer().spec_failed() == old(self).spec_buffer().spec_failed(),
            final(self).spec_buffer().spec_next() == old(self).spec_buffer().spec_next(),
            final(self).spec_outstanding() == old(self).spec_outstanding(),
    {
        if self.closed {
            let writes: Vec<Chunk> = Vec::new();
            proof {
                assert(chunk_models(writes@) =~= Seq::<(nat, Seq<u8>)>::empty());
            }
            SinkCommands { writes, close: false }
        } else {
            let writes = self.buffer.finish();
            self.closed = true;
            SinkCommands { writes, close: true }
        }
    }
}

/// How many of the signals are set.
pub open spec fn count_true(s: Seq<bool>) -> int
    decreases s.len(),
{
    if s.len() == 0 {
        0
    } else {
        (if s[0] {
            1int
        } else {
            0int
        }) + count_true(s.drop_first())
    }
}

/// A `closed` history is monotone: once true, true forever.
pub open spec fn monotone(trace: Seq<bool>) -> bool {
    forall|i: int| 0 <= i < trace.len() - 1 ==> (#[trigger] trace[i] ==> trace[i + 1])
}

proof fn lemma_monotone_reach(trace: Seq<bool>, i: int, j: int)
    requires
        monotone(trace),
        0 <= i <= j < trace.len(),
        trace[i],
    ensures
        trace[j],
    decreases j - i,
{
    if i < j {
        assert(trace[i + 1]);
        lemma_monotone_reach(trace, i + 1, j);
    }
}

proof fn lemma_edge_count(trace: Seq<bool>, signals: Seq<bool>)
    requires
        trace.len() == signals.len() + 1,
        monotone(trace),
        forall|i: int|
            0 <= i < signals.len() ==> signals[i] == (!trace[i] && trace[i + 1]),
    ensures
        count_true(signals) == if trace.last() && !trace[0] {
            1int
        } else {
            0int
        },
    decreases signals.len(),
{
    if signals.len() > 0 {
        let strace = trace.drop_first();
        let ssignals = signals.drop_first();
        assert forall|i: int| 0 <= i < strace.len() - 1 && strace[i] implies #[trigger] strace[i
            + 1] by {
            assert(strace[i] == trace[i + 1]);
            assert(strace[i + 1] == trace[i + 2]);
        }
        assert forall|i: int| 0 <= i < ssignals.len() implies ssignals[i] == (!strace[i]
            && strace[i + 1]) by {
            assert(ssignals[i] == signals[i + 1]);
            assert(strace[i] == trace[i + 1]);
            assert(strace[i + 1] == trace[i + 2]);
        }
        lemma_edge_count(strace, ssignals);
        assert(strace[0] == trace[1]);
        assert(strace.last() == trace.last());
        assert(count_true(signals) == (if signals[0] {
            1int
        } else {
            0int
        }) + count_true(ssignals));
        if trace[1] {
            lemma_monotone_reach(trace, 1, trace.len() - 1);
            assert(trace.last());
        }
        if trace[0] {
            assert(trace[1]);
        }
    }
}

/// The close signal is emitted exactly once per session.
///
/// Take any run of one session: the history of its `spec_closed()` flag,
/// which starts false at [`Session::new`], and the `close` fields of the
/// commands its steps returned. Each of [`Session::on_result`] and
/// [`Session::cancel`] guarantees monotonicity of the flag and that `close`
/// is set exactly on the flag's rising edge. This lemma concludes: if the
/// session ended closed — which the last owed result and any cancellation
/// both force — then exactly one of the returned commands carried the close
/// signal, however successes, failures and cancellations were interleaved.
pub proof fn lemma_close_exactly_once(closed_history: Seq<bool>, close_signals: Seq<bool>)
    requires
        closed_history.len() == close_signals.len() + 1,
        closed_history[0] == false,
        closed_history.last() == true,
        monotone(closed_history),
        forall|i: int|
            0 <= i < close_signals.len() ==> close_signals[i] == (!closed_history[i]
                && closed_history[i + 1]),
    ensures
        count_true(close_signals) == 1,
{
    lemma_edge_count(closed_history, close_signals);
}

} // verus!
