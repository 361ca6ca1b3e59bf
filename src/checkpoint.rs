use vstd::prelude::*;
use crate::accumulator::{Accumulator, AccumulatorError, Proof, expected_siblings};
use crate::prover::Prover;

verus! {

/// Why a proof request was not answered.
#[derive(Debug, Clone, Copy, PartialEq, Eq, Structural)]
pub enum QueryError {
    /// The position was never added, or its leaf is deleted, in the state asked about.
    UnknownLeaf,
    /// No checkpoint was taken at that height.
    NoCheckpointAt(usize),
    /// The request queue is at capacity.
    QueueFull,
}

/// A request for the proof of a position, against the current state or the
/// checkpoint at a given height.
#[derive(Debug, Clone, Copy, PartialEq, Eq, Structural)]
pub struct ProofRequest {
    pub position: usize,
    pub at_height: Option<usize>,
}

/// A snapshot of the accumulator after the block at `height`.
#[derive(Debug)]
pub struct Checkpoint {
    pub height: usize,
    pub acc: Accumulator,
}

/// Snapshots taken every `every` blocks, oldest first.
#[derive(Debug)]
pub struct Checkpoints {
    entries: Vec<Checkpoint>,
    every: usize,
}

/// The state of the most recent checkpoint at `height`.
pub open spec fn state_at(s: Seq<Checkpoint>, height: usize) -> Option<Seq<Option<Seq<u8>>>>
    decreases s.len(),
{
    if s.len() == 0 {
        None
    } else if s.last().height == height {
        Some(s.last().acc@)
    } else {
        state_at(s.drop_last(), height)
    }
}

/// The answer a proof request gets from the state `l`.
pub open spec fn proof_answer(l: Seq<Option<Seq<u8>>>, pos: usize, r: Result<Proof, QueryError>) -> bool {
    &&& r is Ok <==> (pos < l.len() && l[pos as int] is Some)
    &&& r is Ok ==> r->Ok_0.target == pos && l[pos as int] == Some(r->Ok_0.leaf@)
        && r->Ok_0.sibling_nodes() == expected_siblings(l, pos as nat)
    &&& r is Err ==> r->Err_0 == QueryError::UnknownLeaf
}

impl Checkpoints {
    pub closed spec fn view(&self) -> Seq<Checkpoint> {
        self.entries@
    }

    pub closed spec fn interval(&self) -> nat {
        self.every as nat
    }

    pub closed spec fn wf(&self) -> bool {
        forall|i: int| 0 <= i < self.entries@.len() ==> #[trigger] self.entries@[i].acc.wf()
    }

    /// No checkpoints yet; one is due every `every` blocks (never, for 0).
    pub fn new(every: usize) -> (r: Checkpoints)
        ensures
            r.wf(),
            r.view() == Seq::<Checkpoint>::empty(),
            r.interval() == every,
    {
        Checkpoints { entries: Vec::new(), every }
    }

    /// Whether a checkpoint is due after the block at `height`.
    pub fn is_due(&self, height: usize) -> (r: bool)
        ensures
            r == (self.interval() > 0 && (height as nat) % self.interval() == 0),
    {
        self.every > 0 && height % self.every == 0
    }

    /// Takes a snapshot of `acc` as the checkpoint at `height`.
    pub fn record(&mut self, height: usize, acc: &Accumulator)
        requires
            old(self).wf(),
            acc.wf(),
        ensures
            final(self).wf(),
            final(self).interval() == old(self).interval(),
            final(self).view().len() == old(self).view().len() + 1,
            final(self).view().drop_last() == old(self).view(),
            final(self).view().last().height == height,
            final(self).view().last().acc@ == acc@,
    {
        let snap = acc.snapshot();
        let ghost e0 = self.entries@;
        self.entries.push(Checkpoint { height, acc: snap });
        assert(self.entries@.drop_last() =~= e0);
        assert forall|i: int| 0 <= i < self.entries@.len() implies #[trigger] self.entries@[i].acc.wf() by {
            if i < e0.len() {
                assert(self.entries@[i] == e0[i]);
            }
        }
    }

    /// The proof of `pos` against the most recent checkpoint at `height`.
    pub fn proof_at(&self, height: usize, pos: usize) -> (r: Result<Proof, QueryError>)
        requires
            self.wf(),
        ensures
            state_at(self.view(), height) is None ==> r == Err::<Proof, QueryError>(
                QueryError::NoCheckpointAt(height),
            ),
            state_at(self.view(), height) is Some ==> proof_answer(
                state_at(self.view(), height)->Some_0,
                pos,
                r,
            ),
    {
        let mut i: usize = self.entries.len();
        assert(self.view().take(i as int) =~= self.view());
        while i > 0
            invariant
                i <= self.entries@.len(),
                self.wf(),
                state_at(self.view(), height) == state_at(self.view().take(i as int), height),
            decreases i,
        {
            assert(self.view().take(i as int).drop_last() =~= self.view().take(i - 1));
            if self.entries[i - 1].height == height {
                let r = self.entries[i - 1].acc.prove(pos);
                return match r {
                    Ok(p) => Ok(p),
                    Err(_) => Err(QueryError::UnknownLeaf),
                };
            }
            i = i - 1;
        }
        Err(QueryError::NoCheckpointAt(height))
    }
}

/// A bounded queue of proof requests, first in first out.
#[derive(Debug)]
pub struct RequestQueue {
    items: Vec<ProofRequest>,
    capacity: usize,
}

impl RequestQueue {
    pub closed spec fn view(&self) -> Seq<ProofRequest> {
        self.items@
    }

    pub closed spec fn capacity(&self) -> nat {
        self.capacity as nat
    }

    /// An empty queue that holds at most `capacity` requests.
    pub fn new(capacity: usize) -> (r: RequestQueue)
        ensures
            r.view() == Seq::<ProofRequest>::empty(),
            r.capacity() == capacity,
    {
        RequestQueue { items: Vec::new(), capacity }
    }

    /// Queues a request, or refuses it when the queue is full.
    pub fn push(&mut self, req: ProofRequest) -> (r: Result<(), QueryError>)
        ensures
            final(self).capacity() == old(self).capacity(),
            r is Ok <==> old(self).view().len() < old(self).capacity(),
            r is Ok ==> final(self).view() == old(self).view().push(req),
            r is Err ==> r->Err_0 == QueryError::QueueFull && final(self).view() == old(self).view(),
    {
        if self.items.len() >= self.capacity {
            return Err(QueryError::QueueFull);
        }
        self.items.push(req);
        Ok(())
    }

    /// Takes the oldest request.
    pub fn pop(&mut self) -> (r: Option<ProofRequest>)
        ensures
            final(self).capacity() == old(self).capacity(),
            old(self).view().len() == 0 ==> r is None && final(self).view() == old(self).view(),
            old(self).view().len() > 0 ==> r == Some(old(self).view()[0]) && final(self).view()
                == old(self).view().drop_first(),
    {
        if self.items.len() == 0 {
            return None;
        }
        let first = self.items.remove(0);
        assert(self.items@ =~= old(self).items@.drop_first());
        Some(first)
    }
}

/// Answers a proof request from the prover's current state, or from the
/// checkpoint at the height it names.
pub fn answer(prover: &Prover, cps: &Checkpoints, req: &ProofRequest) -> (r: Result<Proof, QueryError>)
    requires
        prover.wf(),
        cps.wf(),
    ensures
        req.at_height is None ==> proof_answer(prover.state(), req.position, r),
        req.at_height is Some ==> {
            let h = req.at_height->Some_0;
            &&& state_at(cps.view(), h) is None ==> r == Err::<Proof, QueryError>(QueryError::NoCheckpointAt(h))
            &&& state_at(cps.view(), h) is Some ==> proof_answer(state_at(cps.view(), h)->Some_0, req.position, r)
        },
{
    match req.at_height {
        None => match prover.request_proof(req.position) {
            Ok(p) => Ok(p),
            Err(_) => Err(QueryError::UnknownLeaf),
        },
        Some(h) => cps.proof_at(h, req.position),
    }
}

} // verus!
