//! The event loop driver's single step: wait for completions, drain them,
//! dispatch each one against the connection table, re-arm follow-up receives,
//! and publish the consumed head back to the kernel — exactly once per
//! drained batch, after the whole batch has been read.

use vstd::prelude::*;

verus! {

use crate::conn::{dispatch_one, Action, ConnTable, ConnView, Fatal, MAX_CONNECTIONS};
use crate::ring::{
    advanced_ring, io_uring_for_each_cqe, waited_ring, Cqe, IoUring, RingView, Sqe,
};

/// The result of folding a whole batch of completions over the table: the
/// table as it stands afterwards, every submission the batch provoked in
/// order, and the first fatal completion if one was hit, with the table
/// frozen at the point of failure.
#[verifier::ext_equal]
pub ghost struct FoldOutcome {
    pub conns: Seq<ConnView>,
    pub resubmit: Seq<Sqe>,
    pub failure: Option<Fatal>,
}

/// Dispatches a batch of completions in order, stopping at the first fatal
/// one.
pub open spec fn dispatch_fold(conns: Seq<ConnView>, cqes: Seq<Cqe>) -> FoldOutcome
    decreases cqes.len(),
{
    if cqes.len() == 0 {
        FoldOutcome { conns, resubmit: Seq::<Sqe>::empty(), failure: None }
    } else {
        match dispatch_one(conns, cqes[0]) {
            Ok(step) => {
                let rest = dispatch_fold(step.conns, cqes.drop_first());
                FoldOutcome {
                    conns: rest.conns,
                    resubmit: step.resubmit + rest.resubmit,
                    failure: rest.failure,
                }
            },
            Err(f) => FoldOutcome { conns, resubmit: Seq::<Sqe>::empty(), failure: Some(f) },
        }
    }
}

/// Why one driver step stopped instead of completing.
#[derive(Clone, Copy, PartialEq, Eq, Structural, Debug)]
pub enum LoopError {
    /// No completion is ready and none can arrive until the kernel
    /// collaborator is driven: a real driver would be blocked in its wait
    /// call.
    WouldBlock,
    /// A completion was fatal to dispatch; the batch had been drained and
    /// acknowledged, and the table stands as it was when the fault was hit.
    Dispatch(Fatal),
    /// The batch provoked more re-arm submissions than the submission ring
    /// can hold at once; none were filled in.
    SubmissionFull,
}

/// One turn of the event loop: publish pending submissions and wait for at
/// least one completion, read the whole ready batch, dispatch every entry in
/// order, acknowledge the batch, and fill in the provoked re-arm
/// submissions. Returns how many completions were processed.
///
/// The step is exact about each outcome: `WouldBlock` leaves the table
/// alone; a dispatch fault acknowledges the drained batch but issues
/// nothing; only a fully successful batch fills the re-arm entries into the
/// submission ring, in order. The bound on the table's size keeps every
/// index that a batch can create inside the tag-addressable space.
pub fn event_loop_step(ring: &mut IoUring, table: &mut ConnTable) -> (r: Result<
    u32,
    LoopError,
>)
    requires
        old(ring).wf(),
        old(table).wf(),
        old(table)@.len() + old(ring)@.cq_capacity < MAX_CONNECTIONS,
    ensures
        final(ring).wf(),
        final(table).wf(),
        ({
            let v1 = waited_ring(old(ring)@);
            let fr = dispatch_fold(old(table)@, v1.ready);
            let drained = advanced_ring(v1, v1.ready.len() as int);
            &&& (v1.ready.len() == 0 ==> {
                &&& r == Result::<u32, LoopError>::Err(LoopError::WouldBlock)
                &&& final(ring)@ == v1
                &&& final(table)@ == old(table)@
            })
            &&& (v1.ready.len() != 0 ==> final(ring)@.ready.len() == 0 && final(table)@
                == fr.conns)
            &&& (v1.ready.len() != 0 ==> (fr.failure matches Some(f) ==> {
                &&& r == Result::<u32, LoopError>::Err(LoopError::Dispatch(f))
                &&& final(ring)@ == drained
            }))
            &&& (v1.ready.len() != 0 && fr.failure is None && fr.resubmit.len()
                > v1.sq_capacity ==> {
                &&& r == Result::<u32, LoopError>::Err(LoopError::SubmissionFull)
                &&& final(ring)@ == drained
            })
            &&& (v1.ready.len() != 0 && fr.failure is None && fr.resubmit.len()
                <= v1.sq_capacity ==> {
                &&& r == Result::<u32, LoopError>::Ok(v1.ready.len() as u32)
                &&& final(ring)@ == (RingView { sq_pending: fr.resubmit, ..drained })
            })
        }),
{
    let ghost v1 = waited_ring(old(ring)@);
    let ghost full = dispatch_fold(old(table)@, v1.ready);
    let waited = ring.submit_and_wait(1);
    proof {
        ring.lemma_ring_bounds();
    }
    if waited.is_err() {
        return Err(LoopError::WouldBlock);
    }
    let batch = io_uring_for_each_cqe(ring);
    let mut resub: Vec<Sqe> = Vec::new();
    let mut failure: Option<Fatal> = None;
    let mut k: usize = 0;
    proof {
        assert(batch@.skip(0) =~= batch@);
        assert(resub@ + dispatch_fold(table@, batch@.skip(0)).resubmit =~= dispatch_fold(
            old(table)@,
            v1.ready,
        ).resubmit);
    }
    while k < batch.len() && failure.is_none()
        invariant
            table.wf(),
            ring.wf(),
            ring@ == v1,
            batch@ == v1.ready,
            v1.ready.len() <= v1.cq_capacity,
            full == dispatch_fold(old(table)@, v1.ready),
            k <= batch@.len(),
            table@.len() <= old(table)@.len() + k,
            old(table)@.len() + v1.cq_capacity < MAX_CONNECTIONS,
            failure is None ==> {
                &&& full.conns == dispatch_fold(table@, batch@.skip(k as int)).conns
                &&& full.failure == dispatch_fold(table@, batch@.skip(k as int)).failure
                &&& full.resubmit == resub@ + dispatch_fold(
                    table@,
                    batch@.skip(k as int),
                ).resubmit
            },
            failure matches Some(f) ==> full.failure == Some(f) && full.conns == table@,
        decreases batch@.len() - k,
    {
        let cqe = batch[k];
        let ghost tview = table@;
        let ghost rest = batch@.skip(k as int);
        let ghost resub0 = resub@;
        proof {
            assert(rest[0] == cqe);
            assert(rest.drop_first() =~= batch@.skip(k as int + 1));
        }
        match table.handle_completion(cqe) {
            Ok(a) => {
                match a {
                    Action::Rearm(e) => {
                        resub.push(e);
                    },
                    Action::Inert => {},
                }
                proof {
                    let step = dispatch_one(tview, cqe)->Ok_0;
                    let restfold = dispatch_fold(table@, batch@.skip(k as int + 1));
                    assert(dispatch_fold(tview, rest) == FoldOutcome {
                        conns: restfold.conns,
                        resubmit: step.resubmit + restfold.resubmit,
                        failure: restfold.failure,
                    });
                    assert(resub@ =~= resub0 + step.resubmit);
                    assert(resub0 + (step.resubmit + restfold.resubmit) =~= (resub0
                        + step.resubmit) + restfold.resubmit);
                    assert(table@.len() <= tview.len() + 1);
                }
            },
            Err(f) => {
                failure = Some(f);
                proof {
                    assert(dispatch_fold(tview, rest).failure == Some(f));
                    assert(dispatch_fold(tview, rest).conns == tview);
                }
            },
        }
        k = k + 1;
    }
    let n = ring.ready_len();
    let ghost before_advance = ring@;
    ring.cq_advance(n);
    proof {
        assert(batch@.skip(batch@.len() as int) =~= Seq::<Cqe>::empty());
        if failure is None && k == batch@.len() {
            assert(dispatch_fold(table@, batch@.skip(k as int)) == FoldOutcome {
                conns: table@,
                resubmit: Seq::<Sqe>::empty(),
                failure: None,
            });
            assert(full.resubmit =~= resub@);
        }
    }
    match failure {
        Some(f) => Err(LoopError::Dispatch(f)),
        None => {
            let cap = ring.sq_capacity();
            if resub.len() > cap as usize {
                return Err(LoopError::SubmissionFull);
            }
            let mut p: usize = 0;
            proof {
                assert(ring@ =~= (RingView {
                    sq_pending: resub@.take(0),
                    ..advanced_ring(v1, v1.ready.len() as int)
                }));
            }
            while p < resub.len()
                invariant
                    ring.wf(),
                    table.wf(),
                    p <= resub@.len(),
                    resub@.len() <= v1.sq_capacity,
                    v1 == waited_ring(old(ring)@),
                    ring@ == (RingView {
                        sq_pending: resub@.take(p as int),
                        ..advanced_ring(v1, v1.ready.len() as int)
                    }),
                decreases resub@.len() - p,
            {
                let ghost pend = ring@.sq_pending;
                let e = resub[p];
                proof {
                    assert(pend.len() == p < resub@.len() <= ring@.sq_capacity);
                    assert(resub@.take(p as int).push(e) =~= resub@.take(p as int + 1));
                }
                let ok = ring.push_sqe(e);
                proof {
                    assert(ring@ =~= (RingView {
                        sq_pending: resub@.take(p as int + 1),
                        ..advanced_ring(v1, v1.ready.len() as int)
                    }));
                }
                p = p + 1;
            }
            proof {
                assert(resub@.take(resub@.len() as int) =~= resub@);
                assert(ring@ =~= (RingView {
                    sq_pending: full.resubmit,
                    ..advanced_ring(v1, v1.ready.len() as int)
                }));
            }
            Ok(n)
        },
    }
}

} // verus!
