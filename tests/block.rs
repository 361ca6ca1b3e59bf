use utreexo_bridge::accumulator::Accumulator;
use utreexo_bridge::block::OutputRef;
use utreexo_bridge::chainview::Header;
use utreexo_bridge::hashing::leaf_commitment;
use utreexo_bridge::prover::Prover;

fn out(t: u8, vout: u32) -> OutputRef {
    OutputRef { txid: [t; 32], vout }
}

#[test]
fn plan_spends_then_creates_and_skips_same_block_outputs() {
    let mut p = Prover::new(Accumulator::new(), 5, 5);
    let g = Header { hash: [10; 32], prev_hash: [0; 32], height: 0, work: 1 };
    let plan0 = p.prepare_block(&vec![], &vec![out(1, 0), out(1, 1)]).unwrap();
    assert!(plan0.positions.is_empty());
    assert_eq!(plan0.leaves, vec![leaf_commitment(&[1; 32], 0), leaf_commitment(&[1; 32], 1)]);
    p.apply_block(g, &plan0.positions, &plan0.proofs, plan0.leaves).unwrap();

    let spends = vec![out(1, 1), out(2, 1)];
    let creates = vec![out(2, 0), out(2, 1)];
    let plan1 = p.prepare_block(&spends, &creates).unwrap();
    assert_eq!(plan1.positions, vec![1]);
    assert_eq!(plan1.proofs[0].target, 1);
    assert_eq!(plan1.proofs[0].leaf, leaf_commitment(&[1; 32], 1));
    assert_eq!(plan1.leaves, vec![leaf_commitment(&[2; 32], 0)]);
    let h1 = Header { hash: [11; 32], prev_hash: [10; 32], height: 1, work: 2 };
    p.apply_block(h1, &plan1.positions, &plan1.proofs, plan1.leaves).unwrap();
    assert_eq!(p.num_leaves(), 3);
    assert!(p.request_proof(1).is_err());
    assert!(p.request_proof(2).is_ok());
}

#[test]
fn plan_refuses_unknown_spend() {
    let p = Prover::new(Accumulator::new(), 5, 5);
    let err = p.prepare_block(&vec![out(3, 4)], &vec![]).unwrap_err();
    assert_eq!(err.txid, [3; 32]);
    assert_eq!(err.vout, 4);
}
