use vstd::prelude::*;
use crate::hashing::NodeHash;
use crate::forest::{nodes_of, forest_roots};
use crate::accumulator::{Accumulator, AccumulatorError, Proof, expected_siblings};
use crate::undo::{
    UndoRecord, SpentLeaf, forward, applies_forward, reverse, positions_of,
    added_nodes, lemma_record_round_trip,
};
use crate::chainview::{ChainView, Header, ChainEvent, ChainError, extends, forks_off};

verus! {

/// Why the prover refused a step.
#[derive(Debug, Clone, Copy, PartialEq, Eq, Structural)]
pub enum ProverError {
    /// A deletion proof of the block does not hold against the current roots.
    ProofInvalid,
    /// The header does not continue the active chain at its tip.
    NotNext,
    /// The fork point lies deeper below the tip than rollback allows.
    ReorgTooDeep,
    /// A persisted undo record does not apply, or records and headers differ in number.
    BadRecord,
}

/// The accumulator after applying the records in order.
pub open spec fn replay(l: Seq<Option<Seq<u8>>>, recs: Seq<UndoRecord>) -> Seq<Option<Seq<u8>>>
    decreases recs.len(),
{
    if recs.len() == 0 {
        l
    } else {
        forward(replay(l, recs.drop_last()), recs.last().deleted@, recs.last().added@)
    }
}

/// Each record applies to the state that the ones before it leave.
pub open spec fn replay_ok(l: Seq<Option<Seq<u8>>>, recs: Seq<UndoRecord>) -> bool
    decreases recs.len(),
{
    recs.len() == 0 || (replay_ok(l, recs.drop_last()) && applies_forward(
        replay(l, recs.drop_last()),
        recs.last().deleted@,
    ))
}

/// The accumulator after reverting the records, the last one first.
pub open spec fn rewind(l: Seq<Option<Seq<u8>>>, recs: Seq<UndoRecord>) -> Seq<Option<Seq<u8>>>
    decreases recs.len(),
{
    if recs.len() == 0 {
        l
    } else {
        rewind(reverse(l, recs.last().deleted@, recs.last().added@), recs.drop_last())
    }
}

/// How many leaves the records add in all.
pub open spec fn total_added(recs: Seq<UndoRecord>) -> nat
    decreases recs.len(),
{
    if recs.len() == 0 {
        0
    } else {
        total_added(recs.drop_last()) + recs.last().added@.len()
    }
}

/// Replaying records adds their leaves to the position count; deletions keep it.
pub proof fn lemma_replay_len(l: Seq<Option<Seq<u8>>>, recs: Seq<UndoRecord>)
    ensures
        replay(l, recs).len() == l.len() + total_added(recs),
    decreases recs.len(),
{
    if recs.len() > 0 {
        lemma_replay_len(l, recs.drop_last());
    }
}

/// Replaying two runs of records one after the other is replaying them joined.
pub proof fn lemma_replay_concat(l: Seq<Option<Seq<u8>>>, p: Seq<UndoRecord>, q: Seq<UndoRecord>)
    ensures
        replay(l, p + q) == replay(replay(l, p), q),
        replay_ok(l, p + q) == (replay_ok(l, p) && replay_ok(replay(l, p), q)),
    decreases q.len(),
{
    if q.len() == 0 {
        assert(p + q =~= p);
    } else {
        assert((p + q).drop_last() =~= p + q.drop_last());
        lemma_replay_concat(l, p, q.drop_last());
    }
}

/// Reverting the records that were just replayed, last first, gives back the
/// state from before them.
pub proof fn lemma_rewind_replay(l: Seq<Option<Seq<u8>>>, t: Seq<UndoRecord>)
    requires
        replay_ok(l, t),
    ensures
        rewind(replay(l, t), t) == l,
    decreases t.len(),
{
    if t.len() > 0 {
        let x = replay(l, t.drop_last());
        lemma_record_round_trip(x, t.last().deleted@, t.last().added@);
        lemma_rewind_replay(l, t.drop_last());
    }
}

/// A reorg: after chain A (`common` then `a_tail`) was applied, rolling back
/// `a_tail` and applying chain B's blocks gives exactly the state that applying
/// `common` and then B's blocks directly gives.
pub proof fn lemma_reorg_matches_direct_replay(
    l: Seq<Option<Seq<u8>>>,
    common: Seq<UndoRecord>,
    a_tail: Seq<UndoRecord>,
    b_tail: Seq<UndoRecord>,
)
    requires
        replay_ok(l, common + a_tail),
    ensures
        rewind(replay(l, common + a_tail), a_tail) == replay(l, common),
        replay(rewind(replay(l, common + a_tail), a_tail), b_tail) == replay(l, common + b_tail),
{
    lemma_replay_concat(l, common, a_tail);
    lemma_rewind_replay(replay(l, common), a_tail);
    lemma_replay_concat(l, common, b_tail);
}

/// Recovery that stopped after the first `k` records and was run again from
/// that point ends where one uninterrupted recovery ends.
pub proof fn lemma_recovery_resumes(l: Seq<Option<Seq<u8>>>, recs: Seq<UndoRecord>, k: int)
    requires
        0 <= k <= recs.len(),
    ensures
        replay(replay(l, recs.take(k)), recs.skip(k)) == replay(l, recs),
        replay_ok(l, recs) == (replay_ok(l, recs.take(k)) && replay_ok(replay(l, recs.take(k)), recs.skip(k))),
{
    assert(recs.take(k) + recs.skip(k) =~= recs);
    lemma_replay_concat(l, recs.take(k), recs.skip(k));
}

/// Each header continues the ones before it.
pub open spec fn each_extends(hs: Seq<Header>) -> bool {
    forall|i: int| 0 <= i < hs.len() ==> #[trigger] extends(hs.take(i), hs[i])
}

/// Startup recovery: replays the records persisted after a checkpoint onto it.
/// Succeeds exactly when each record applies in turn.
pub fn recover(checkpoint: Accumulator, records: &Vec<UndoRecord>) -> (r: Result<Accumulator, AccumulatorError>)
    requires
        checkpoint.wf(),
        checkpoint@.len() + total_added(records@) < usize::MAX,
    ensures
        r is Ok <==> replay_ok(checkpoint@, records@),
        r is Ok ==> r->Ok_0.wf() && r->Ok_0@ == replay(checkpoint@, records@),
        r is Err ==> r->Err_0 == AccumulatorError::UnknownLeaf,
{
    let ghost l = checkpoint@;
    let mut acc = checkpoint;
    let mut i: usize = 0;
    while i < records.len()
        invariant
            i <= records@.len(),
            acc.wf(),
            l == checkpoint@,
            acc@ == replay(l, records@.take(i as int)),
            replay_ok(l, records@.take(i as int)),
            l.len() + total_added(records@) < usize::MAX,
        decreases records.len() - i,
    {
        let ghost t = records@.take(i as int);
        let ghost t1 = records@.take(i + 1);
        proof {
            assert(t1.drop_last() =~= t);
            assert(t1 + records@.skip(i + 1) =~= records@);
            lemma_replay_concat(l, t1, records@.skip(i + 1));
            lemma_replay_len(l, records@);
            lemma_replay_len(l, t1);
            lemma_replay_len(replay(l, t1), records@.skip(i + 1));
        }
        let res = records[i].apply(&mut acc);
        if res.is_err() {
            proof {
                assert(t1.last() == records@[i as int]);
                assert(!replay_ok(l, t1));
                lemma_recovery_resumes(l, records@, i + 1);
            }
            return Err(AccumulatorError::UnknownLeaf);
        }
        i = i + 1;
    }
    assert(records@.take(i as int) =~= records@);
    Ok(acc)
}

/// The driver's state: the live accumulator, the active header chain, and one
/// undo record per block on that chain, applied in order to the starting
/// checkpoint.
pub struct Prover {
    acc: Accumulator,
    view: ChainView,
    records: Vec<UndoRecord>,
    origin: Ghost<Seq<Option<Seq<u8>>>>,
    max_reorg_depth: usize,
}

impl Prover {
    /// The accumulator's leaves.
    pub closed spec fn state(&self) -> Seq<Option<Seq<u8>>> {
        self.acc@
    }

    /// The undo records of the blocks on the active chain, oldest first.
    pub closed spec fn history(&self) -> Seq<UndoRecord> {
        self.records@
    }

    /// The accumulator that the first record applies to.
    pub closed spec fn origin(&self) -> Seq<Option<Seq<u8>>> {
        self.origin@
    }

    /// The active header chain.
    pub closed spec fn chain(&self) -> Seq<Header> {
        self.view@
    }

    pub closed spec fn depth_limit(&self) -> nat {
        self.max_reorg_depth as nat
    }

    /// The accumulator is the origin with every record replayed, and each
    /// block on the chain has its record.
    pub closed spec fn wf(&self) -> bool {
        &&& self.acc.wf()
        &&& self.view.wf()
        &&& self.records@.len() == self.view@.len()
        &&& replay_ok(self.origin@, self.records@)
        &&& self.acc@ == replay(self.origin@, self.records@)
    }

    /// A prover starting from `checkpoint` with an empty chain.
    pub fn new(checkpoint: Accumulator, lookback: usize, max_reorg_depth: usize) -> (r: Prover)
        requires
            checkpoint.wf(),
        ensures
            r.wf(),
            r.state() == checkpoint@,
            r.origin() == checkpoint@,
            r.history() == Seq::<UndoRecord>::empty(),
            r.chain() == Seq::<Header>::empty(),
            r.depth_limit() == max_reorg_depth,
    {
        let ghost l = checkpoint@;
        Prover {
            acc: checkpoint,
            view: ChainView::new(lookback),
            records: Vec::new(),
            origin: Ghost(l),
            max_reorg_depth,
        }
    }

    /// Startup recovery: rebuilds the prover from the checkpoint that the first
    /// record applies to, with the persisted headers and undo records of the
    /// active chain, replaying each record in order.
    pub fn resume(
        checkpoint: Accumulator,
        headers: Vec<Header>,
        records: Vec<UndoRecord>,
        lookback: usize,
        max_reorg_depth: usize,
    ) -> (r: Result<Prover, ProverError>)
        requires
            checkpoint.wf(),
            checkpoint@.len() + total_added(records@) < usize::MAX,
        ensures
            r is Ok <==> (headers@.len() == records@.len() && each_extends(headers@) && replay_ok(
                checkpoint@,
                records@,
            )),
            r is Ok ==> {
                let p = r->Ok_0;
                &&& p.wf()
                &&& p.origin() == checkpoint@
                &&& p.chain() == headers@
                &&& p.history() == records@
                &&& p.state() == replay(checkpoint@, records@)
                &&& p.depth_limit() == max_reorg_depth
                &&& p.lookback() == lookback
            },
            r == Err::<Prover, ProverError>(ProverError::NotNext) ==> !each_extends(headers@),
            r == Err::<Prover, ProverError>(ProverError::BadRecord) ==> headers@.len() != records@.len()
                || !replay_ok(checkpoint@, records@),
            r is Err ==> r->Err_0 == ProverError::NotNext || r->Err_0 == ProverError::BadRecord,
    {
        if headers.len() != records.len() {
            return Err(ProverError::BadRecord);
        }
        let ghost l = checkpoint@;
        let mut acc = checkpoint;
        let mut view = ChainView::new(lookback);
        let mut i: usize = 0;
        while i < headers.len()
            invariant
                headers@.len() == records@.len(),
                i <= headers@.len(),
                l == checkpoint@,
                acc.wf(),
                view.wf(),
                view.window() == lookback,
                view@ == headers@.take(i as int),
                forall|j: int| 0 <= j < i ==> #[trigger] extends(headers@.take(j), headers@[j]),
                acc@ == replay(l, records@.take(i as int)),
                replay_ok(l, records@.take(i as int)),
                l.len() + total_added(records@) < usize::MAX,
            decreases headers.len() - i,
        {
            if !view.continues(&headers[i]) {
                return Err(ProverError::NotNext);
            }
            let ghost t = records@.take(i as int);
            let ghost t1 = records@.take(i + 1);
            proof {
                assert(t1.drop_last() =~= t);
                assert(t1 + records@.skip(i + 1) =~= records@);
                lemma_replay_concat(l, t1, records@.skip(i + 1));
                lemma_replay_len(l, records@);
                lemma_replay_len(l, t1);
                lemma_replay_len(replay(l, t1), records@.skip(i + 1));
            }
            let res = records[i].apply(&mut acc);
            if res.is_err() {
                proof {
                    assert(t1.last() == records@[i as int]);
                    assert(!replay_ok(l, t1));
                    lemma_recovery_resumes(l, records@, i + 1);
                }
                return Err(ProverError::BadRecord);
            }
            view.accept_header(headers[i]);
            assert(headers@.take(i + 1) =~= headers@.take(i as int).push(headers@[i as int]));
            i = i + 1;
        }
        assert(records@.take(i as int) =~= records@);
        assert(headers@.take(i as int) =~= headers@);
        Ok(Prover { acc, view, records, origin: Ghost(l), max_reorg_depth })
    }

    /// The tip of the active chain.
    pub fn tip(&self) -> (r: Option<(NodeHash, usize)>)
        ensures
            self.chain().len() == 0 ==> r is None,
            self.chain().len() > 0 ==> r == Some((self.chain().last().hash, self.chain().last().height)),
    {
        self.view.current_tip()
    }

    /// The current accumulator roots, tallest tree first.
    pub fn current_roots(&self) -> (r: Vec<Option<NodeHash>>)
        requires
            self.wf(),
        ensures
            nodes_of(r@) == forest_roots(self.state()),
    {
        self.acc.roots()
    }

    /// A proof of the live leaf at `pos` against the current roots.
    pub fn request_proof(&self, pos: usize) -> (r: Result<Proof, AccumulatorError>)
        requires
            self.wf(),
        ensures
            r is Ok <==> (pos < self.state().len() && self.state()[pos as int] is Some),
            r is Ok ==> r->Ok_0.target == pos && self.state()[pos as int] == Some(r->Ok_0.leaf@)
                && r->Ok_0.sibling_nodes() == expected_siblings(self.state(), pos as nat),
            r is Err ==> r->Err_0 == AccumulatorError::UnknownLeaf,
    {
        self.acc.prove(pos)
    }

    /// A copy of the current accumulator, for a checkpoint.
    pub fn snapshot(&self) -> (r: Accumulator)
        requires
            self.wf(),
        ensures
            r.wf(),
            r@ == self.state(),
    {
        self.acc.snapshot()
    }

    /// The number of leaf positions ever added.
    pub fn num_leaves(&self) -> (r: usize)
        ensures
            r == self.state().len(),
    {
        self.acc.num_leaves()
    }

    /// The position of the live leaf `leaf`, the first one if it occurs twice.
    pub fn position_of(&self, leaf: &NodeHash) -> (r: Option<usize>)
        ensures
            r is Some ==> r->Some_0 < self.state().len() && self.state()[r->Some_0 as int] == Some(leaf@)
                && forall|q: int| 0 <= q < r->Some_0 ==> self.state()[q] != Some(leaf@),
            r is None ==> forall|q: int| 0 <= q < self.state().len() ==> self.state()[q] != Some(leaf@),
    {
        self.acc.find_leaf(leaf)
    }

    /// How far below the tip the view looks for a fork point.
    pub closed spec fn lookback(&self) -> nat {
        self.view.window()
    }

    /// What a header from the chain source means for the active chain: it
    /// extends the tip, it forks off below it, or it cannot be placed.
    pub fn classify(&self, h: &Header) -> (r: Result<ChainEvent, ChainError>)
        requires
            self.wf(),
        ensures
            extends(self.chain(), *h) ==> r == Ok::<ChainEvent, ChainError>(ChainEvent::Extended),
            !extends(self.chain(), *h) && forks_off(self.chain(), *h, self.lookback()) ==> r == Ok::<
                ChainEvent,
                ChainError,
            >(ChainEvent::ReorgDetected((h.height - 1) as usize)),
            !extends(self.chain(), *h) && !forks_off(self.chain(), *h, self.lookback()) ==> r == Err::<
                ChainEvent,
                ChainError,
            >(ChainError::NoCommonAncestor),
    {
        self.view.classify(h)
    }

    /// Applies the next block: deletes its spent leaves with their proofs, then
    /// adds its new leaves, and records how to undo that. Nothing changes unless
    /// the header continues the tip and every proof holds.
    pub fn apply_block(
        &mut self,
        h: Header,
        positions: &Vec<usize>,
        proofs: &Vec<Proof>,
        new_leaves: Vec<NodeHash>,
    ) -> (r: Result<(), ProverError>)
        requires
            old(self).wf(),
            old(self).state().len() + new_leaves@.len() < usize::MAX,
        ensures
            final(self).wf(),
            final(self).origin() == old(self).origin(),
            final(self).depth_limit() == old(self).depth_limit(),
            final(self).lookback() == old(self).lookback(),
            !extends(old(self).chain(), h) ==> r == Err::<(), ProverError>(ProverError::NotNext),
            extends(old(self).chain(), h) ==> (r is Ok <==> (positions@.len() == proofs@.len() && forall|k: int|
                0 <= k < positions@.len() ==> #[trigger] proofs@[k].valid_for(old(self).state(), positions@[k] as nat))),
            r is Ok ==> {
                let rec = final(self).history().last();
                &&& final(self).chain() == old(self).chain().push(h)
                &&& final(self).history().drop_last() == old(self).history()
                &&& positions_of(rec.deleted@) == positions@
                &&& forall|k: int| 0 <= k < positions@.len() ==> #[trigger] rec.deleted@[k].hash == proofs@[k].leaf
                &&& rec.added@ == new_leaves@
                &&& final(self).state() == forward(old(self).state(), rec.deleted@, new_leaves@)
            },
            r is Err ==> final(self).state() == old(self).state() && final(self).chain() == old(self).chain()
                && final(self).history() == old(self).history(),
            extends(old(self).chain(), h) && r is Err ==> r == Err::<(), ProverError>(ProverError::ProofInvalid),
    {
        if !self.view.continues(&h) {
            return Err(ProverError::NotNext);
        }
        let ghost l = self.acc@;
        let ghost pv = self.view;
        let ghost pr = self.records;
        if self.acc.delete(positions, proofs).is_err() {
            return Err(ProverError::ProofInvalid);
        }
        let mut deleted: Vec<SpentLeaf> = Vec::new();
        let mut k: usize = 0;
        while k < positions.len()
            invariant
                k <= positions@.len(),
                positions@.len() == proofs@.len(),
                deleted@.len() == k,
                forall|j: int| 0 <= j < k ==> #[trigger] deleted@[j] == (SpentLeaf {
                    position: positions@[j],
                    hash: proofs@[j].leaf,
                }),
            decreases positions.len() - k,
        {
            deleted.push(SpentLeaf { position: positions[k], hash: proofs[k].leaf });
            k = k + 1;
        }
        let mut i: usize = 0;
        let ghost c = self.acc@;
        while i < new_leaves.len()
            invariant
                self.view == pv,
                self.records == pr,
                self.origin == old(self).origin,
                self.max_reorg_depth == old(self).max_reorg_depth,
                self.acc.wf(),
                i <= new_leaves@.len(),
                c.len() == l.len(),
                l.len() + new_leaves@.len() < usize::MAX,
                self.acc@ == c + added_nodes(new_leaves@).take(i as int),
            decreases new_leaves.len() - i,
        {
            self.acc.add(new_leaves[i]);
            assert(added_nodes(new_leaves@).take(i + 1) =~= added_nodes(new_leaves@).take(i as int).push(
                Some(new_leaves@[i as int]@),
            ));
            i = i + 1;
        }
        assert(added_nodes(new_leaves@).take(i as int) =~= added_nodes(new_leaves@));
        let rec = UndoRecord { deleted, added: new_leaves };
        proof {
            assert(positions_of(rec.deleted@) =~= positions@);
            assert(rec.added@ =~= new_leaves@);
            assert forall|j: int| 0 <= j < rec.deleted@.len() implies #[trigger] rec.deleted@[j].position < l.len()
                && l[rec.deleted@[j].position as int] == Some(rec.deleted@[j].hash@) by {
                assert(proofs@[j].valid_for(l, positions@[j] as nat));
            }
        }
        let ghost r0 = self.records@;
        self.records.push(rec);
        self.view.accept_header(h);
        proof {
            assert(self.records@.drop_last() =~= r0);
        }
        Ok(())
    }

    /// The undo record of the block at `height` on the active chain.
    pub fn record_at(&self, height: usize) -> (r: &UndoRecord)
        requires
            self.wf(),
            height < self.history().len(),
        ensures
            *r == self.history()[height as int],
    {
        &self.records[height]
    }

    /// Rolls the accumulator and the chain back to the fork point `fork`,
    /// reverting each block above it, the tip first. Refused, with nothing
    /// changed, if more blocks than the depth limit would go.
    pub fn roll_back(&mut self, fork: usize) -> (r: Result<(), ProverError>)
        requires
            old(self).wf(),
            fork < old(self).chain().len(),
        ensures
            final(self).wf(),
            final(self).origin() == old(self).origin(),
            final(self).depth_limit() == old(self).depth_limit(),
            final(self).lookback() == old(self).lookback(),
            r is Ok <==> old(self).chain().len() - 1 - fork <= old(self).depth_limit(),
            r is Ok ==> {
                &&& final(self).chain() == old(self).chain().take(fork + 1)
                &&& final(self).history() == old(self).history().take(fork + 1)
                &&& final(self).state() == rewind(old(self).state(), old(self).history().skip(fork + 1))
                &&& final(self).state() == replay(old(self).origin(), old(self).history().take(fork + 1))
            },
            r is Err ==> r->Err_0 == ProverError::ReorgTooDeep && final(self).state() == old(self).state()
                && final(self).chain() == old(self).chain() && final(self).history() == old(self).history(),
    {
        let n = self.view.len();
        if n - 1 - fork > self.max_reorg_depth {
            return Err(ProverError::ReorgTooDeep);
        }
        let ghost h0 = self.records@;
        let ghost o = self.origin@;
        proof {
            assert(h0.take(fork + 1) + h0.skip(fork + 1) =~= h0);
            lemma_replay_concat(o, h0.take(fork + 1), h0.skip(fork + 1));
            lemma_rewind_replay(replay(o, h0.take(fork + 1)), h0.skip(fork + 1));
        }
        let ghost pv = self.view;
        while self.records.len() > fork + 1
            invariant
                self.view == pv,
                self.origin@ == o,
                self.origin == old(self).origin,
                self.max_reorg_depth == old(self).max_reorg_depth,
                self.acc.wf(),
                fork < self.records@.len() <= h0.len(),
                self.records@ == h0.take(self.records@.len() as int),
                replay_ok(o, self.records@),
                self.acc@ == replay(o, self.records@),
            decreases self.records.len(),
        {
            let ghost rs = self.records@;
            let rec = self.records.pop().unwrap();
            proof {
                assert(self.records@ =~= rs.drop_last());
                assert(h0.take(self.records@.len() as int) =~= rs.drop_last());
                lemma_record_round_trip(replay(o, self.records@), rec.deleted@, rec.added@);
            }
            let res = rec.revert(&mut self.acc);
            assert(res is Ok);
        }
        self.view.rewind_to(fork);
        assert(self.records@ =~= h0.take(fork + 1));
        Ok(())
    }
}

} // verus!
