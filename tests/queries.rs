use utreexo_bridge::accumulator::Accumulator;
use utreexo_bridge::checkpoint::{answer, Checkpoints, ProofRequest, QueryError, RequestQueue};
use utreexo_bridge::chainview::Header;
use utreexo_bridge::prover::Prover;

fn filled(n: u8) -> Accumulator {
    let mut acc = Accumulator::new();
    for i in 1..=n {
        acc.add([i; 32]);
    }
    acc
}

#[test]
fn snapshot_keeps_roots() {
    let acc = filled(5);
    let snap = acc.snapshot();
    assert_eq!(snap.roots(), acc.roots());
    assert_eq!(snap.num_leaves(), 5);
}

#[test]
fn checkpoint_due_every_interval() {
    let cps = Checkpoints::new(10);
    assert!(cps.is_due(0));
    assert!(!cps.is_due(7));
    assert!(cps.is_due(20));
    assert!(!Checkpoints::new(0).is_due(10));
}

#[test]
fn historical_proof_uses_checkpoint() {
    let mut acc = filled(4);
    let mut cps = Checkpoints::new(1);
    cps.record(3, &acc);
    let p = acc.prove(1).unwrap();
    acc.delete(&vec![1], &vec![p]).unwrap();
    let old = cps.proof_at(3, 1).unwrap();
    assert_eq!(old.leaf, [2; 32]);
    assert_eq!(cps.proof_at(3, 9).unwrap_err(), QueryError::UnknownLeaf);
    assert_eq!(cps.proof_at(4, 1).unwrap_err(), QueryError::NoCheckpointAt(4));
}

#[test]
fn answer_routes_by_height() {
    let mut p = Prover::new(Accumulator::new(), 5, 5);
    let h = Header { hash: [9; 32], prev_hash: [0; 32], height: 0, work: 1 };
    p.apply_block(h, &vec![], &vec![], vec![[1; 32], [2; 32]]).unwrap();
    let cps = Checkpoints::new(1);
    let now = answer(&p, &cps, &ProofRequest { position: 1, at_height: None }).unwrap();
    assert_eq!(now.leaf, [2; 32]);
    assert_eq!(
        answer(&p, &cps, &ProofRequest { position: 5, at_height: None }).unwrap_err(),
        QueryError::UnknownLeaf
    );
    assert_eq!(
        answer(&p, &cps, &ProofRequest { position: 0, at_height: Some(0) }).unwrap_err(),
        QueryError::NoCheckpointAt(0)
    );
}

#[test]
fn queue_refuses_when_full() {
    let mut q = RequestQueue::new(2);
    let a = ProofRequest { position: 1, at_height: None };
    let b = ProofRequest { position: 2, at_height: Some(3) };
    assert_eq!(q.push(a), Ok(()));
    assert_eq!(q.push(b), Ok(()));
    assert_eq!(q.push(a), Err(QueryError::QueueFull));
    assert_eq!(q.pop(), Some(a));
    assert_eq!(q.pop(), Some(b));
    assert_eq!(q.pop(), None);
}
