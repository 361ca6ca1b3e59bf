use vstd::prelude::*;
use crate::hashing::{NodeHash, same_hash, sha256_of, u32_le, leaf_commitment};
use crate::accumulator::{Proof, expected_siblings};
use crate::prover::Prover;

verus! {

/// An output named by its transaction id and index.
#[derive(Debug, Clone, Copy)]
pub struct OutputRef {
    pub txid: NodeHash,
    pub vout: u32,
}

/// What a block asks of the accumulator: the positions it spends with their
/// proofs, and the leaves it creates.
#[derive(Debug)]
pub struct BlockPlan {
    pub positions: Vec<usize>,
    pub proofs: Vec<Proof>,
    pub leaves: Vec<NodeHash>,
}

/// The leaf hash of an output.
pub open spec fn commitment(o: OutputRef) -> Seq<u8> {
    sha256_of(o.txid@ + u32_le(o.vout))
}

/// Whether some position of `l` holds the live leaf `h`.
pub open spec fn holds_leaf(l: Seq<Option<Seq<u8>>>, h: Seq<u8>) -> bool {
    exists|q: int| 0 <= q < l.len() && l[q] == Some(h)
}

/// Both name the same output.
pub open spec fn same_output(a: OutputRef, b: OutputRef) -> bool {
    a.txid@ == b.txid@ && a.vout == b.vout
}

/// Whether `s` names the output `o`.
pub open spec fn listed(s: Seq<OutputRef>, o: OutputRef) -> bool {
    exists|k: int| 0 <= k < s.len() && same_output(#[trigger] s[k], o)
}

/// The outputs of `s` that `other` does not list, in order.
pub open spec fn unlisted(s: Seq<OutputRef>, other: Seq<OutputRef>) -> Seq<OutputRef>
    decreases s.len(),
{
    if s.len() == 0 {
        seq![]
    } else if listed(other, s.last()) {
        unlisted(s.drop_last(), other)
    } else {
        unlisted(s.drop_last(), other).push(s.last())
    }
}

/// Whether `o` is among `s`.
fn is_listed(s: &Vec<OutputRef>, o: &OutputRef) -> (r: bool)
    ensures
        r == listed(s@, *o),
{
    let mut k: usize = 0;
    while k < s.len()
        invariant
            k <= s@.len(),
            forall|j: int| 0 <= j < k ==> !same_output(#[trigger] s@[j], *o),
        decreases s.len() - k,
    {
        if s[k].vout == o.vout && same_hash(&s[k].txid, &o.txid) {
            assert(same_output(s@[k as int], *o));
            return true;
        }
        k = k + 1;
    }
    false
}

/// The outputs of `s` that `other` does not list, in order.
fn keep_unlisted(s: &Vec<OutputRef>, other: &Vec<OutputRef>) -> (r: Vec<OutputRef>)
    ensures
        r@ == unlisted(s@, other@),
{
    let mut out: Vec<OutputRef> = Vec::new();
    let mut i: usize = 0;
    while i < s.len()
        invariant
            i <= s@.len(),
            out@ == unlisted(s@.take(i as int), other@),
        decreases s.len() - i,
    {
        assert(s@.take(i + 1).drop_last() =~= s@.take(i as int));
        assert(s@.take(i + 1).last() == s@[i as int]);
        if !is_listed(other, &s[i]) {
            out.push(s[i]);
        }
        i = i + 1;
    }
    assert(s@.take(i as int) =~= s@);
    out
}

impl Prover {
    /// Works out what a block does to the accumulator. Outputs that the block
    /// both creates and spends never enter it. Every other spent output must be
    /// a live leaf: its first position and current proof are taken, in the order
    /// spent. The created leaves follow in the order created. Refused with the
    /// first spent output that is not live.
    pub fn prepare_block(&self, spends: &Vec<OutputRef>, creates: &Vec<OutputRef>) -> (r: Result<
        BlockPlan,
        OutputRef,
    >)
        requires
            self.wf(),
        ensures
            ({
                let sp = unlisted(spends@, creates@);
                let l = self.state();
                &&& r is Ok <==> forall|k: int| 0 <= k < sp.len() ==> #[trigger] holds_leaf(l, commitment(sp[k]))
                &&& r is Ok ==> {
                    let plan = r->Ok_0;
                    &&& plan.positions@.len() == sp.len()
                    &&& plan.proofs@.len() == sp.len()
                    &&& forall|k: int|
                        0 <= k < sp.len() ==> {
                            let p = #[trigger] plan.positions@[k];
                            &&& p < l.len()
                            &&& l[p as int] == Some(commitment(sp[k]))
                            &&& forall|q: int| 0 <= q < p ==> l[q] != Some(commitment(sp[k]))
                            &&& plan.proofs@[k].target == p
                            &&& plan.proofs@[k].leaf@ == commitment(sp[k])
                            &&& plan.proofs@[k].sibling_nodes() == expected_siblings(l, p as nat)
                        }
                    &&& plan.leaves@.len() == unlisted(creates@, spends@).len()
                    &&& forall|k: int|
                        0 <= k < plan.leaves@.len() ==> (#[trigger] plan.leaves@[k])@ == commitment(
                            unlisted(creates@, spends@)[k],
                        )
                }
                &&& r is Err ==> exists|k: int|
                    0 <= k < sp.len() && r->Err_0 == sp[k] && !#[trigger] holds_leaf(l, commitment(sp[k]))
            }),
    {
        let sp = keep_unlisted(spends, creates);
        let cr = keep_unlisted(creates, spends);
        let ghost l = self.state();
        let mut positions: Vec<usize> = Vec::new();
        let mut proofs: Vec<Proof> = Vec::new();
        let mut k: usize = 0;
        while k < sp.len()
            invariant
                self.wf(),
                l == self.state(),
                sp@ == unlisted(spends@, creates@),
                k <= sp@.len(),
                positions@.len() == k,
                proofs@.len() == k,
                forall|j: int|
                    0 <= j < k ==> {
                        let p = #[trigger] positions@[j];
                        &&& p < l.len()
                        &&& l[p as int] == Some(commitment(sp@[j]))
                        &&& forall|q: int| 0 <= q < p ==> l[q] != Some(commitment(sp@[j]))
                        &&& proofs@[j].target == p
                        &&& proofs@[j].leaf@ == commitment(sp@[j])
                        &&& proofs@[j].sibling_nodes() == expected_siblings(l, p as nat)
                    },
            decreases sp.len() - k,
        {
            let o = sp[k];
            let leaf = leaf_commitment(&o.txid, o.vout);
            assert(sp@[k as int] == o);
            match self.position_of(&leaf) {
                None => {
                    assert(!holds_leaf(l, commitment(sp@[k as int])));
                    return Err(o);
                },
                Some(p) => {
                    let proof = match self.request_proof(p) {
                        Ok(pr) => pr,
                        Err(_) => {
                            return Err(o);
                        },
                    };
                    let ghost ps0 = positions@;
                    let ghost pr0 = proofs@;
                    positions.push(p);
                    proofs.push(proof);
                    proof {
                        assert(positions@ == ps0.push(p));
                        assert(proofs@ == pr0.push(proof));
                        assert(proof.leaf@ == leaf@);
                        assert forall|j: int| 0 <= j < k + 1 implies {
                            let p = #[trigger] positions@[j];
                            &&& p < l.len()
                            &&& l[p as int] == Some(commitment(sp@[j]))
                            &&& forall|q: int| 0 <= q < p ==> l[q] != Some(commitment(sp@[j]))
                            &&& proofs@[j].target == p
                            &&& proofs@[j].leaf@ == commitment(sp@[j])
                            &&& proofs@[j].sibling_nodes() == expected_siblings(l, p as nat)
                        } by {
                            if j < k {
                                assert(positions@[j] == ps0[j]);
                                assert(proofs@[j] == pr0[j]);
                            }
                        }
                    }
                },
            }
            k = k + 1;
        }
        let mut leaves: Vec<NodeHash> = Vec::new();
        let mut i: usize = 0;
        while i < cr.len()
            invariant
                i <= cr@.len(),
                leaves@.len() == i,
                forall|j: int| 0 <= j < i ==> (#[trigger] leaves@[j])@ == commitment(cr@[j]),
            decreases cr.len() - i,
        {
            leaves.push(leaf_commitment(&cr[i].txid, cr[i].vout));
            i = i + 1;
        }
        proof {
            assert forall|j: int| 0 <= j < sp@.len() implies #[trigger] holds_leaf(l, commitment(sp@[j])) by {
                let p = positions@[j];
                assert(l[p as int] == Some(commitment(sp@[j])));
            }
        }
        Ok(BlockPlan { positions, proofs, leaves })
    }
}

} // verus!
