use vstd::prelude::*;
use crate::hashing::{NodeHash, same_hash};
use crate::undo::{SpentLeaf, restored};
use crate::forest::{
    node_of, nodes_of, pow2, subtree_root, carry, shape, span, root_start, forest_roots,
    root_index, root_from, path_siblings, path_root, count_live, lemma_pow2_grows,
    lemma_span_shape, lemma_root_start_step, lemma_tree_in_range,
    lemma_root_index, lemma_subtree_frame, lemma_path_matches, combine_exec, pow2_exec,
    subtree_hash, collect_siblings, fold_path, same_node,
};

verus! {

/// Why an accumulator operation was refused.
#[derive(Debug, Clone, Copy, PartialEq, Eq, Structural)]
pub enum AccumulatorError {
    /// A proof does not recompute to the stored root it claims.
    ProofInvalid,
    /// The position was never added, or its leaf is deleted.
    UnknownLeaf,
    /// The accumulator does not hold the result of the block being reverted.
    RecordMismatch,
}

/// An inclusion proof: the leaf at `target` and its sibling hashes, lowest first.
#[derive(Debug, Clone)]
pub struct Proof {
    pub target: usize,
    pub leaf: NodeHash,
    pub siblings: Vec<Option<NodeHash>>,
}

/// One tree of the forest: its height and its root.
#[derive(Debug, Clone, Copy)]
struct Tree {
    height: usize,
    hash: Option<NodeHash>,
}

/// The Merkle-forest accumulator. Every leaf ever added keeps its position;
/// a deleted leaf stays as an empty slot.
#[derive(Debug, Clone)]
pub struct Accumulator {
    leaves: Vec<Option<NodeHash>>,
    trees: Vec<Tree>,
}

/// Whether `sibs` proves that `leaf` is live at `pos` in the forest over `l`:
/// folded up its path, it gives the stored root of the tree holding `pos`.
pub open spec fn proof_valid(
    l: Seq<Option<Seq<u8>>>,
    pos: nat,
    leaf: Seq<u8>,
    sibs: Seq<Option<Seq<u8>>>,
) -> bool {
    let hs = shape(l.len());
    let i = root_index(hs, pos);
    &&& pos < l.len()
    &&& l[pos as int] == Some(leaf)
    &&& sibs.len() == hs[i as int]
    &&& path_root(Some(leaf), (pos - root_start(hs, i as int)) as nat, sibs) == forest_roots(l)[i as int]
}

/// The sibling path of position `pos` in the forest over `l`.
pub open spec fn expected_siblings(l: Seq<Option<Seq<u8>>>, pos: nat) -> Seq<Option<Seq<u8>>> {
    let hs = shape(l.len());
    let i = root_index(hs, pos);
    let s = root_start(hs, i as int);
    path_siblings(l, s, hs[i as int], (pos - s) as nat)
}

/// The leaves with every listed position emptied.
pub open spec fn cleared(l: Seq<Option<Seq<u8>>>, ps: Seq<usize>) -> Seq<Option<Seq<u8>>> {
    Seq::new(
        l.len(),
        |p: int|
            if exists|k: int| 0 <= k < ps.len() && ps[k] as int == p {
                None
            } else {
                l[p]
            },
    )
}

impl Proof {
    pub open spec fn sibling_nodes(&self) -> Seq<Option<Seq<u8>>> {
        nodes_of(self.siblings@)
    }

    /// Whether this proof is valid for deleting `pos` from the forest over `l`.
    pub open spec fn valid_for(&self, l: Seq<Option<Seq<u8>>>, pos: nat) -> bool {
        self.target == pos && proof_valid(l, pos, self.leaf@, self.sibling_nodes())
    }
}

impl View for Accumulator {
    type V = Seq<Option<Seq<u8>>>;

    /// Every position ever added, with its leaf hash while it is live.
    closed spec fn view(&self) -> Seq<Option<Seq<u8>>> {
        nodes_of(self.leaves@)
    }
}

impl Accumulator {
    closed spec fn heights(&self) -> Seq<nat> {
        self.trees@.map_values(|t: Tree| t.height as nat)
    }

    closed spec fn tree_nodes(&self) -> Seq<Option<Seq<u8>>> {
        self.trees@.map_values(|t: Tree| node_of(t.hash))
    }

    /// The stored trees are the forest's shape for the leaf count, and their
    /// roots are those of the leaves.
    pub closed spec fn wf(&self) -> bool {
        &&& self.heights() == shape(self.leaves@.len())
        &&& self.tree_nodes() == forest_roots(self@)
    }

    /// An empty forest.
    pub fn new() -> (r: Accumulator)
        ensures
            r.wf(),
            r@ == Seq::<Option<Seq<u8>>>::empty(),
    {
        let r = Accumulator { leaves: Vec::new(), trees: Vec::new() };
        assert(r.heights() =~= shape(0));
        assert(r.tree_nodes() =~= forest_roots(r@));
        r
    }

    /// The number of positions ever added.
    pub fn num_leaves(&self) -> (r: usize)
        ensures
            r == self@.len(),
    {
        self.leaves.len()
    }

    /// Appends a leaf at the next position and carries equal-height trees
    /// together, as a binary counter does.
    pub fn add(&mut self, leaf: NodeHash) -> (pos: usize)
        requires
            old(self).wf(),
            old(self)@.len() < usize::MAX,
        ensures
            final(self).wf(),
            pos == old(self)@.len(),
            final(self)@ == old(self)@.push(Some(leaf@)),
    {
        self.push_node(Some(leaf))
    }

    fn push_node(&mut self, node: Option<NodeHash>) -> (pos: usize)
        requires
            old(self).wf(),
            old(self)@.len() < usize::MAX,
        ensures
            final(self).wf(),
            pos == old(self)@.len(),
            final(self)@ == old(self)@.push(node_of(node)),
    {
        let pos = self.leaves.len();
        let ghost l0 = self@;
        let ghost hs0 = shape(pos as nat);
        self.leaves.push(node);
        let ghost l = self@;
        assert(l =~= l0.push(node_of(node)));
        proof {
            lemma_span_shape(pos as nat);
            assert forall|j: int| 0 <= j < hs0.len() implies self.tree_nodes()[j] == subtree_root(
                l,
                root_start(hs0, j),
                hs0[j],
            ) by {
                lemma_tree_in_range(hs0, j);
                lemma_subtree_frame(l0, l, root_start(hs0, j), hs0[j]);
            }
            assert(hs0.take(hs0.len() as int) =~= hs0);
        }
        let mut cur = Tree { height: 0, hash: node };
        assert(node_of(cur.hash) == subtree_root(l, span(self.heights()), 0));
        while self.trees.len() > 0 && self.trees[self.trees.len() - 1].height == cur.height
            invariant
                self@ == l,
                l.len() == pos + 1,
                pos < usize::MAX,
                carry(self.heights(), cur.height as nat) == shape(l.len()),
                forall|j: int|
                    0 <= j < self.trees@.len() ==> #[trigger] self.tree_nodes()[j] == subtree_root(
                        l,
                        root_start(self.heights(), j),
                        self.heights()[j],
                    ),
                node_of(cur.hash) == subtree_root(l, span(self.heights()), cur.height as nat),
                span(self.heights()) + pow2(cur.height as nat) == l.len(),
            decreases self.trees.len(),
        {
            let ghost hs = self.heights();
            let ghost tn = self.tree_nodes();
            let ghost t0 = self.trees@;
            let last = self.trees.pop().unwrap();
            let ghost hs2 = self.heights();
            proof {
                assert(self.trees@ == t0.drop_last());
                assert(last == t0.last());
                assert(hs2 =~= hs.drop_last());
                assert(self.tree_nodes() =~= tn.drop_last());
                assert(tn[tn.len() - 1] == node_of(last.hash));
                assert(node_of(last.hash) == subtree_root(l, span(hs2), cur.height as nat));
                assert(hs.take(hs.len() - 1) =~= hs2);
                lemma_root_start_step(hs, hs.len() - 1);
                assert(hs.take(hs.len() as int) =~= hs);
                lemma_pow2_grows(cur.height as nat + 1);
                assert forall|j: int| 0 <= j < self.trees@.len() implies #[trigger] self.tree_nodes()[j]
                    == subtree_root(l, root_start(hs2, j), hs2[j]) by {
                    assert(hs2.take(j) =~= hs.take(j));
                    assert(self.tree_nodes()[j] == node_of(self.trees@[j].hash));
                }
            }
            let h = combine_exec(last.hash, cur.hash);
            cur = Tree { height: cur.height + 1, hash: h };
        }
        let ghost hs = self.heights();
        let ghost tn = self.tree_nodes();
        self.trees.push(cur);
        proof {
            assert(self.heights() =~= hs.push(cur.height as nat));
            assert(self.tree_nodes() =~= tn.push(node_of(cur.hash)));
            assert forall|j: int| 0 <= j < self.trees@.len() implies self.tree_nodes()[j]
                == forest_roots(l)[j] by {
                let hs1 = self.heights();
                if j < hs.len() {
                    assert(hs1.take(j) =~= hs.take(j));
                } else {
                    assert(hs1.take(j) =~= hs);
                }
            }
            assert(self.tree_nodes() =~= forest_roots(l));
        }
        pos
    }

    /// The roots of the forest, tallest tree first.
    pub fn roots(&self) -> (r: Vec<Option<NodeHash>>)
        requires
            self.wf(),
        ensures
            nodes_of(r@) == forest_roots(self@),
    {
        let mut r: Vec<Option<NodeHash>> = Vec::new();
        let mut i: usize = 0;
        while i < self.trees.len()
            invariant
                i <= self.trees@.len(),
                nodes_of(r@) == self.tree_nodes().take(i as int),
            decreases self.trees.len() - i,
        {
            let ghost r0 = r@;
            r.push(self.trees[i].hash);
            assert(nodes_of(r@) =~= nodes_of(r0).push(node_of(self.trees@[i as int].hash)));
            assert(self.tree_nodes().take(i + 1) =~= self.tree_nodes().take(i as int).push(
                self.tree_nodes()[i as int],
            ));
            i = i + 1;
        }
        assert(self.tree_nodes().take(i as int) =~= self.tree_nodes());
        r
    }

    /// The number of leaves that are live.
    pub fn num_live(&self) -> (r: usize)
        ensures
            r == count_live(self@),
    {
        let mut n: usize = 0;
        let mut i: usize = 0;
        while i < self.leaves.len()
            invariant
                i <= self.leaves@.len(),
                n == count_live(self@.take(i as int)),
                n <= i,
            decreases self.leaves.len() - i,
        {
            assert(self@.take(i + 1).drop_last() =~= self@.take(i as int));
            if self.leaves[i].is_some() {
                n = n + 1;
            }
            i = i + 1;
        }
        assert(self@.take(i as int) =~= self@);
        n
    }

    /// Finds the tree that holds `pos`: its index, first position, height and size.
    fn locate(&self, pos: usize) -> (r: (usize, usize, usize, usize))
        requires
            self.wf(),
            pos < self@.len(),
        ensures
            r.0 == root_index(shape(self@.len()), pos as nat),
            r.0 < shape(self@.len()).len(),
            r.1 == root_start(shape(self@.len()), r.0 as int),
            r.2 == shape(self@.len())[r.0 as int],
            r.3 == pow2(r.2 as nat),
            r.1 <= pos < r.1 + r.3,
            r.1 + r.3 <= self@.len(),
            self.trees@[r.0 as int].height == r.2,
    {
        let ghost hs = self.heights();
        proof {
            lemma_span_shape(self@.len());
            lemma_root_index(hs, pos as nat);
            assert(hs.take(0) =~= Seq::<nat>::empty());
        }
        let ntrees = self.trees.len();
        let mut i: usize = 0;
        let mut start: usize = 0;
        loop
            invariant
                ntrees == hs.len(),
                self.wf(),
                hs == self.heights(),
                hs == shape(self@.len()),
                hs.len() == self.trees@.len(),
                span(hs) == self@.len(),
                self@.len() == self.leaves@.len(),
                pos < self@.len(),
                i < hs.len(),
                start == root_start(hs, i as int),
                start <= pos,
                root_from(hs, pos as nat, i as nat) == root_index(hs, pos as nat),
                root_index(hs, pos as nat) < hs.len(),
            decreases hs.len() - i,
        {
            let h = self.trees[i].height;
            proof {
                lemma_tree_in_range(hs, i as int);
                lemma_root_start_step(hs, i as int);
            }
            let size = pow2_exec(h, self.leaves.len());
            if pos < start + size {
                return (i, start, h, size);
            }
            assert(root_from(hs, pos as nat, i as nat) == root_from(hs, pos as nat, (i + 1) as nat));
            assert(i + 1 < hs.len());
            start = start + size;
            i = i + 1;
        }
    }

    /// The current inclusion proof of the live leaf at `pos`.
    pub fn prove(&self, pos: usize) -> (r: Result<Proof, AccumulatorError>)
        requires
            self.wf(),
        ensures
            r is Ok <==> (pos < self@.len() && self@[pos as int] is Some),
            r is Ok ==> r->Ok_0.target == pos && self@[pos as int] == Some(r->Ok_0.leaf@)
                && r->Ok_0.sibling_nodes() == expected_siblings(self@, pos as nat),
            r is Err ==> r->Err_0 == AccumulatorError::UnknownLeaf,
    {
        if pos >= self.leaves.len() {
            return Err(AccumulatorError::UnknownLeaf);
        }
        match self.leaves[pos] {
            None => Err(AccumulatorError::UnknownLeaf),
            Some(leaf) => {
                let (_i, start, h, size) = self.locate(pos);
                let siblings = collect_siblings(&self.leaves, start, h, size, pos - start);
                Ok(Proof { target: pos, leaf, siblings })
            },
        }
    }

    /// Whether `proof` proves the live leaf at `pos` against the stored roots.
    pub fn verify(&self, pos: usize, proof: &Proof) -> (r: bool)
        requires
            self.wf(),
        ensures
            r == proof.valid_for(self@, pos as nat),
    {
        if proof.target != pos || pos >= self.leaves.len() {
            return false;
        }
        match self.leaves[pos] {
            None => false,
            Some(h) => {
                if !same_hash(&h, &proof.leaf) {
                    return false;
                }
                let (i, start, height, size) = self.locate(pos);
                if proof.siblings.len() != height {
                    return false;
                }
                let folded = fold_path(Some(proof.leaf), pos - start, &proof.siblings, height, size);
                assert(nodes_of(proof.siblings@).take(height as int) =~= proof.sibling_nodes());
                assert(self.tree_nodes()[i as int] == node_of(self.trees@[i as int].hash));
                same_node(folded, self.trees[i].hash)
            },
        }
    }

    /// Recomputes every tree root from the leaves.
    fn rebuild(&mut self)
        requires
            old(self).heights() == shape(old(self).leaves@.len()),
        ensures
            final(self).wf(),
            final(self).leaves == old(self).leaves,
    {
        let ghost hs = self.heights();
        let ghost l = self@;
        proof {
            lemma_span_shape(l.len());
            assert(hs.take(0) =~= Seq::<nat>::empty());
        }
        let mut i: usize = 0;
        let mut start: usize = 0;
        while i < self.trees.len()
            invariant
                hs == self.heights(),
                hs == shape(l.len()),
                span(hs) == l.len(),
                l == self@,
                self.leaves == old(self).leaves,
                i <= hs.len(),
                start == root_start(hs, i as int),
                forall|j: int| 0 <= j < i ==> #[trigger] self.tree_nodes()[j] == forest_roots(l)[j],
            decreases hs.len() - i,
        {
            let h = self.trees[i].height;
            proof {
                lemma_tree_in_range(hs, i as int);
                lemma_root_start_step(hs, i as int);
            }
            let size = pow2_exec(h, self.leaves.len());
            let hash = subtree_hash(&self.leaves, start, h, size);
            let ghost tn = self.tree_nodes();
            let ghost t0 = self.trees@;
            self.trees.set(i, Tree { height: h, hash });
            proof {
                assert(self.trees@ == t0.update(i as int, Tree { height: h, hash }));
                assert(self.heights() =~= hs);
                assert(self.tree_nodes() =~= tn.update(i as int, node_of(hash)));
            }
            start = start + size;
            i = i + 1;
        }
        assert(self.tree_nodes() =~= forest_roots(l));
    }

    /// Empties the listed positions and recomputes the roots.
    pub(crate) fn clear_positions(&mut self, ps: &Vec<usize>)
        requires
            old(self).wf(),
            forall|k: int| 0 <= k < ps@.len() ==> ps@[k] < old(self)@.len(),
        ensures
            final(self).wf(),
            final(self)@ == cleared(old(self)@, ps@),
    {
        let ghost l0 = self@;
        let mut k: usize = 0;
        while k < ps.len()
            invariant
                k <= ps@.len(),
                self@ == cleared(l0, ps@.take(k as int)),
                self.heights() == shape(l0.len()),
                self.leaves@.len() == l0.len(),
                forall|j: int| 0 <= j < ps@.len() ==> ps@[j] < l0.len(),
            decreases ps.len() - k,
        {
            let p = ps[k];
            let ghost before = self@;
            self.leaves.set(p, None);
            proof {
                let t0 = ps@.take(k as int);
                let t1 = ps@.take(k + 1);
                assert(self@ =~= before.update(p as int, None));
                assert forall|q: int| 0 <= q < l0.len() implies #[trigger] self@[q] == cleared(l0, t1)[q] by {
                    if q == p as int {
                        assert(t1[k as int] == p);
                    } else {
                        if exists|w: int| 0 <= w < t0.len() && t0[w] as int == q {
                            let w = choose|w: int| 0 <= w < t0.len() && #[trigger] t0[w] as int == q;
                            assert(t1[w] == t0[w]);
                        }
                        if exists|w: int| 0 <= w < t1.len() && t1[w] as int == q {
                            let w = choose|w: int| 0 <= w < t1.len() && #[trigger] t1[w] as int == q;
                            assert(t0[w] == t1[w]);
                        }
                    }
                }
                assert(self@ =~= cleared(l0, ps@.take(k + 1)));
            }
            k = k + 1;
        }
        assert(ps@.take(k as int) =~= ps@);
        self.rebuild();
    }

    /// Deletes a batch of leaves, each with its proof. The batch is applied only
    /// if every proof is valid against the current roots; otherwise nothing changes.
    pub fn delete(&mut self, positions: &Vec<usize>, proofs: &Vec<Proof>) -> (r: Result<(), AccumulatorError>)
        requires
            old(self).wf(),
        ensures
            final(self).wf(),
            r is Ok <==> (positions@.len() == proofs@.len() && forall|k: int|
                0 <= k < positions@.len() ==> #[trigger] proofs@[k].valid_for(old(self)@, positions@[k] as nat)),
            r is Ok ==> final(self)@ == cleared(old(self)@, positions@),
            r is Err ==> r->Err_0 == AccumulatorError::ProofInvalid && final(self)@ == old(self)@,
    {
        if positions.len() != proofs.len() {
            return Err(AccumulatorError::ProofInvalid);
        }
        let mut k: usize = 0;
        while k < positions.len()
            invariant
                self.wf(),
                k <= positions@.len(),
                positions@.len() == proofs@.len(),
                forall|j: int| 0 <= j < k ==> #[trigger] proofs@[j].valid_for(self@, positions@[j] as nat),
            decreases positions.len() - k,
        {
            if !self.verify(positions[k], &proofs[k]) {
                return Err(AccumulatorError::ProofInvalid);
            }
            k = k + 1;
        }
        assert forall|j: int| 0 <= j < positions@.len() implies positions@[j] < self@.len() by {
            assert(proofs@[j].valid_for(self@, positions@[j] as nat));
        }
        self.clear_positions(positions);
        Ok(())
    }

    /// What position `pos` holds: its leaf while live, `None` once deleted or
    /// if it was never added.
    pub fn leaf(&self, pos: usize) -> (r: Option<NodeHash>)
        ensures
            node_of(r) == if pos < self@.len() {
                self@[pos as int]
            } else {
                None
            },
    {
        if pos < self.leaves.len() {
            self.leaves[pos]
        } else {
            None
        }
    }

    /// A copy of this accumulator, for a checkpoint.
    pub fn snapshot(&self) -> (r: Accumulator)
        requires
            self.wf(),
        ensures
            r.wf(),
            r@ == self@,
    {
        let mut leaves: Vec<Option<NodeHash>> = Vec::new();
        let mut i: usize = 0;
        while i < self.leaves.len()
            invariant
                i <= self.leaves@.len(),
                leaves@ == self.leaves@.take(i as int),
            decreases self.leaves.len() - i,
        {
            leaves.push(self.leaves[i]);
            i = i + 1;
            assert(leaves@ =~= self.leaves@.take(i as int));
        }
        let mut trees: Vec<Tree> = Vec::new();
        let mut j: usize = 0;
        while j < self.trees.len()
            invariant
                j <= self.trees@.len(),
                trees@ == self.trees@.take(j as int),
            decreases self.trees.len() - j,
        {
            trees.push(self.trees[j]);
            j = j + 1;
            assert(trees@ =~= self.trees@.take(j as int));
        }
        assert(leaves@ =~= self.leaves@);
        assert(trees@ =~= self.trees@);
        Accumulator { leaves, trees }
    }

    /// The first position whose live leaf is `leaf`.
    pub fn find_leaf(&self, leaf: &NodeHash) -> (r: Option<usize>)
        ensures
            r is Some ==> r->Some_0 < self@.len() && self@[r->Some_0 as int] == Some(leaf@) && forall|q: int|
                0 <= q < r->Some_0 ==> self@[q] != Some(leaf@),
            r is None ==> forall|q: int| 0 <= q < self@.len() ==> self@[q] != Some(leaf@),
    {
        let mut i: usize = 0;
        while i < self.leaves.len()
            invariant
                i <= self@.len(),
                self@.len() == self.leaves@.len(),
                forall|q: int| 0 <= q < i ==> self@[q] != Some(leaf@),
            decreases self.leaves.len() - i,
        {
            match self.leaves[i] {
                Some(h) => {
                    if same_hash(&h, leaf) {
                        return Some(i);
                    }
                },
                None => {},
            }
            i = i + 1;
        }
        None
    }

    /// Keeps the first `m` positions and drops the rest.
    pub(crate) fn truncate(&mut self, m: usize)
        requires
            old(self).wf(),
            m <= old(self)@.len(),
        ensures
            final(self).wf(),
            final(self)@ == old(self)@.take(m as int),
    {
        let ghost l = self@;
        let mut fresh = Accumulator::new();
        let mut i: usize = 0;
        while i < m
            invariant
                i <= m,
                m <= l.len(),
                l == self@,
                self.leaves@.len() == l.len(),
                fresh.wf(),
                fresh@ == l.take(i as int),
            decreases m - i,
        {
            fresh.push_node(self.leaves[i]);
            assert(l.take(i + 1) =~= l.take(i as int).push(node_of(self.leaves@[i as int])));
            i = i + 1;
        }
        *self = fresh;
    }

    /// Writes the recorded hash back into each listed position.
    pub(crate) fn restore_positions(&mut self, ds: &Vec<SpentLeaf>)
        requires
            old(self).wf(),
            forall|k: int| 0 <= k < ds@.len() ==> ds@[k].position < old(self)@.len(),
        ensures
            final(self).wf(),
            final(self)@ == restored(old(self)@, ds@),
    {
        let ghost l0 = self@;
        let mut k: usize = 0;
        while k < ds.len()
            invariant
                k <= ds@.len(),
                self@ == restored(l0, ds@.take(k as int)),
                self.heights() == shape(l0.len()),
                self.leaves@.len() == l0.len(),
                forall|j: int| 0 <= j < ds@.len() ==> ds@[j].position < l0.len(),
            decreases ds.len() - k,
        {
            let d = ds[k];
            let ghost before = self@;
            self.leaves.set(d.position, Some(d.hash));
            proof {
                assert(ds@.take(k + 1).drop_last() =~= ds@.take(k as int));
                assert(self@ =~= before.update(d.position as int, Some(d.hash@)));
            }
            k = k + 1;
        }
        assert(ds@.take(k as int) =~= ds@);
        self.rebuild();
    }
}

/// Every live leaf has a proof: the one `prove` builds folds up to the root of
/// its tree, which is among the forest's roots.
pub proof fn lemma_live_leaf_provable(l: Seq<Option<Seq<u8>>>, pos: nat)
    requires
        pos < l.len(),
        l[pos as int] is Some,
    ensures
        proof_valid(l, pos, l[pos as int]->Some_0, expected_siblings(l, pos)),
        forest_roots(l).contains(
            path_root(
                l[pos as int],
                (pos - root_start(shape(l.len()), root_index(shape(l.len()), pos) as int)) as nat,
                expected_siblings(l, pos),
            ),
        ),
{
    let hs = shape(l.len());
    lemma_span_shape(l.len());
    lemma_root_index(hs, pos);
    let i = root_index(hs, pos);
    let s = root_start(hs, i as int);
    lemma_tree_in_range(hs, i as int);
    lemma_path_matches(l, s, hs[i as int], (pos - s) as nat);
    assert(s + (pos - s) == pos);
    assert(forest_roots(l)[i as int] == subtree_root(l, s, hs[i as int]));
}

} // verus!
