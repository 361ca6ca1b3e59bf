use vstd::prelude::*;
use crate::hashing::NodeHash;
use crate::forest::{forest_roots, count_live};
use crate::accumulator::{Accumulator, AccumulatorError, cleared};

verus! {

/// A leaf that a block deleted: where it stood and what it held.
#[derive(Debug, Clone, Copy)]
pub struct SpentLeaf {
    pub position: usize,
    pub hash: NodeHash,
}

/// One block's effect on the accumulator: the leaves it deleted, then the
/// leaves it added, in the order applied.
#[derive(Debug, Clone)]
pub struct UndoRecord {
    pub deleted: Vec<SpentLeaf>,
    pub added: Vec<NodeHash>,
}

/// The leaves with each recorded deletion written back, in order.
pub open spec fn restored(l: Seq<Option<Seq<u8>>>, ds: Seq<SpentLeaf>) -> Seq<Option<Seq<u8>>>
    decreases ds.len(),
{
    if ds.len() == 0 {
        l
    } else {
        restored(l, ds.drop_last()).update(ds.last().position as int, Some(ds.last().hash@))
    }
}

/// The positions that the deletions name, in order.
pub open spec fn positions_of(ds: Seq<SpentLeaf>) -> Seq<usize> {
    ds.map_values(|d: SpentLeaf| d.position)
}

/// The added hashes as live leaves.
pub open spec fn added_nodes(a: Seq<NodeHash>) -> Seq<Option<Seq<u8>>> {
    a.map_values(|h: NodeHash| Some(h@))
}

/// The deletions can be applied to `l`: each names a live leaf with its hash.
pub open spec fn applies_forward(l: Seq<Option<Seq<u8>>>, ds: Seq<SpentLeaf>) -> bool {
    forall|k: int|
        0 <= k < ds.len() ==> #[trigger] ds[k].position < l.len() && l[ds[k].position as int] == Some(
            ds[k].hash@,
        )
}

/// The leaves after the block: its deletions emptied, its additions appended.
pub open spec fn forward(l: Seq<Option<Seq<u8>>>, ds: Seq<SpentLeaf>, a: Seq<NodeHash>) -> Seq<
    Option<Seq<u8>>,
> {
    cleared(l, positions_of(ds)) + added_nodes(a)
}

/// `l` ends with the block's additions, and its deletions stand empty before them.
pub open spec fn applies_reverse(l: Seq<Option<Seq<u8>>>, ds: Seq<SpentLeaf>, a: Seq<NodeHash>) -> bool {
    &&& a.len() <= l.len()
    &&& forall|j: int| 0 <= j < a.len() ==> #[trigger] l[l.len() - a.len() + j] == Some(a[j]@)
    &&& forall|k: int|
        0 <= k < ds.len() ==> #[trigger] ds[k].position < l.len() - a.len() && l[ds[k].position as int]
            is None
}

/// The leaves before the block: its additions dropped, its deletions written back.
pub open spec fn reverse(l: Seq<Option<Seq<u8>>>, ds: Seq<SpentLeaf>, a: Seq<NodeHash>) -> Seq<
    Option<Seq<u8>>,
> {
    restored(l.take(l.len() - a.len()), ds)
}

impl UndoRecord {
    /// Applies the block to `acc`: deletes the recorded leaves, then adds the new
    /// ones. Refused, with `acc` unchanged, if a recorded leaf is not live there.
    pub fn apply(&self, acc: &mut Accumulator) -> (r: Result<(), AccumulatorError>)
        requires
            old(acc).wf(),
            old(acc)@.len() + self.added@.len() < usize::MAX,
        ensures
            final(acc).wf(),
            r is Ok <==> applies_forward(old(acc)@, self.deleted@),
            r is Ok ==> final(acc)@ == forward(old(acc)@, self.deleted@, self.added@),
            r is Err ==> r->Err_0 == AccumulatorError::UnknownLeaf && final(acc)@ == old(acc)@,
    {
        let mut positions: Vec<usize> = Vec::new();
        let mut k: usize = 0;
        while k < self.deleted.len()
            invariant
                acc.wf(),
                k <= self.deleted@.len(),
                positions@ == positions_of(self.deleted@).take(k as int),
                forall|j: int| 0 <= j < k ==> #[trigger] self.deleted@[j].position < acc@.len()
                    && acc@[self.deleted@[j].position as int] == Some(self.deleted@[j].hash@),
            decreases self.deleted.len() - k,
        {
            let d = self.deleted[k];
            match acc.leaf(d.position) {
                Some(h) => {
                    if !crate::hashing::same_hash(&h, &d.hash) {
                        return Err(AccumulatorError::UnknownLeaf);
                    }
                },
                None => {
                    return Err(AccumulatorError::UnknownLeaf);
                },
            }
            positions.push(d.position);
            assert(positions_of(self.deleted@).take(k + 1) =~= positions_of(self.deleted@).take(
                k as int,
            ).push(d.position));
            k = k + 1;
        }
        assert(positions_of(self.deleted@).take(k as int) =~= positions_of(self.deleted@));
        let ghost l0 = acc@;
        acc.clear_positions(&positions);
        let ghost c = acc@;
        let mut i: usize = 0;
        while i < self.added.len()
            invariant
                acc.wf(),
                i <= self.added@.len(),
                c.len() == l0.len(),
                l0.len() + self.added@.len() < usize::MAX,
                acc@ == c + added_nodes(self.added@).take(i as int),
            decreases self.added.len() - i,
        {
            acc.add(self.added[i]);
            assert(added_nodes(self.added@).take(i + 1) =~= added_nodes(self.added@).take(i as int).push(
                Some(self.added@[i as int]@),
            ));
            i = i + 1;
        }
        assert(added_nodes(self.added@).take(i as int) =~= added_nodes(self.added@));
        Ok(())
    }

    /// Takes the block back out of `acc`: drops the added leaves and writes the
    /// deleted ones back. Refused, with `acc` unchanged, if `acc` does not hold
    /// the block's result.
    pub fn revert(&self, acc: &mut Accumulator) -> (r: Result<(), AccumulatorError>)
        requires
            old(acc).wf(),
        ensures
            final(acc).wf(),
            r is Ok <==> applies_reverse(old(acc)@, self.deleted@, self.added@),
            r is Ok ==> final(acc)@ == reverse(old(acc)@, self.deleted@, self.added@),
            r is Err ==> r->Err_0 == AccumulatorError::RecordMismatch && final(acc)@ == old(acc)@,
    {
        let n = acc.num_leaves();
        let na = self.added.len();
        if na > n {
            return Err(AccumulatorError::RecordMismatch);
        }
        let base = n - na;
        let mut j: usize = 0;
        while j < na
            invariant
                acc.wf(),
                n == acc@.len(),
                na == self.added@.len(),
                base == n - na,
                j <= na,
                forall|q: int| 0 <= q < j ==> #[trigger] acc@[base + q] == Some(self.added@[q]@),
            decreases na - j,
        {
            match acc.leaf(base + j) {
                Some(h) => {
                    if !crate::hashing::same_hash(&h, &self.added[j]) {
                        return Err(AccumulatorError::RecordMismatch);
                    }
                },
                None => {
                    return Err(AccumulatorError::RecordMismatch);
                },
            }
            j = j + 1;
        }
        let mut k: usize = 0;
        while k < self.deleted.len()
            invariant
                acc.wf(),
                n == acc@.len(),
                base == n - self.added@.len(),
                k <= self.deleted@.len(),
                forall|q: int| 0 <= q < k ==> #[trigger] self.deleted@[q].position < base
                    && acc@[self.deleted@[q].position as int] is None,
            decreases self.deleted.len() - k,
        {
            let p = self.deleted[k].position;
            if p >= base || acc.leaf(p).is_some() {
                return Err(AccumulatorError::RecordMismatch);
            }
            k = k + 1;
        }
        acc.truncate(base);
        acc.restore_positions(&self.deleted);
        Ok(())
    }
}

/// After writing deletions back, a position holds what it held before unless a
/// deletion names it, and then the hash of one that does.
pub proof fn lemma_restored_at(c: Seq<Option<Seq<u8>>>, ds: Seq<SpentLeaf>, p: int)
    requires
        0 <= p < c.len(),
        forall|k: int| 0 <= k < ds.len() ==> #[trigger] ds[k].position < c.len(),
    ensures
        restored(c, ds).len() == c.len(),
        (forall|k: int| 0 <= k < ds.len() ==> #[trigger] ds[k].position != p) ==> restored(c, ds)[p]
            == c[p],
        (exists|k: int| 0 <= k < ds.len() && #[trigger] ds[k].position == p) ==> exists|k: int|
            0 <= k < ds.len() && #[trigger] ds[k].position == p && restored(c, ds)[p] == Some(
                ds[k].hash@,
            ),
    decreases ds.len(),
{
    if ds.len() > 0 {
        let d = ds.drop_last();
        assert forall|k: int| 0 <= k < d.len() implies #[trigger] d[k].position < c.len() by {
            assert(d[k] == ds[k]);
        }
        lemma_restored_at(c, d, p);
        if ds.last().position as int == p {
            assert(ds[ds.len() - 1].position == p);
        } else {
            if exists|k: int| 0 <= k < ds.len() && #[trigger] ds[k].position == p {
                let k = choose|k: int| 0 <= k < ds.len() && #[trigger] ds[k].position == p;
                assert(d[k] == ds[k]);
                let w = choose|w: int|
                    0 <= w < d.len() && #[trigger] d[w].position == p && restored(c, d)[p] == Some(
                        d[w].hash@,
                    );
                assert(ds[w] == d[w]);
            }
            if forall|k: int| 0 <= k < ds.len() ==> #[trigger] ds[k].position != p {
                assert forall|k: int| 0 <= k < d.len() implies #[trigger] d[k].position != p by {
                    assert(d[k] == ds[k]);
                }
            }
        }
    }
}

/// Applying a block's record and then reverting it gives back exactly the
/// accumulator state from before: the same positions and leaves, hence the same
/// roots and live count.
pub proof fn lemma_record_round_trip(l: Seq<Option<Seq<u8>>>, ds: Seq<SpentLeaf>, a: Seq<NodeHash>)
    requires
        applies_forward(l, ds),
    ensures
        applies_reverse(forward(l, ds, a), ds, a),
        reverse(forward(l, ds, a), ds, a) == l,
        forest_roots(reverse(forward(l, ds, a), ds, a)) == forest_roots(l),
        count_live(reverse(forward(l, ds, a), ds, a)) == count_live(l),
{
    let c = cleared(l, positions_of(ds));
    let f = forward(l, ds, a);
    assert(f.take(f.len() - a.len()) =~= c);
    assert forall|j: int| 0 <= j < a.len() implies #[trigger] f[f.len() - a.len() + j] == Some(a[j]@) by {
        assert(added_nodes(a)[j] == Some(a[j]@));
    }
    assert forall|k: int| 0 <= k < ds.len() implies #[trigger] ds[k].position < f.len() - a.len()
        && f[ds[k].position as int] is None by {
        assert(positions_of(ds)[k] == ds[k].position);
    }
    assert forall|p: int| 0 <= p < l.len() implies #[trigger] restored(c, ds)[p] == l[p] by {
        lemma_restored_at(c, ds, p);
        if exists|k: int| 0 <= k < ds.len() && #[trigger] ds[k].position == p {
            let k = choose|k: int|
                0 <= k < ds.len() && #[trigger] ds[k].position == p && restored(c, ds)[p] == Some(
                    ds[k].hash@,
                );
        } else {
            assert forall|k: int| 0 <= k < positions_of(ds).len() implies positions_of(ds)[k] as int
                != p by {
                assert(positions_of(ds)[k] == ds[k].position);
            }
        }
    }
    if l.len() > 0 {
        lemma_restored_at(c, ds, 0);
    } else if ds.len() > 0 {
        assert(ds[0].position < l.len());
    }
    assert(restored(c, ds) =~= l);
}

} // verus!
