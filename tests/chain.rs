use utreexo_bridge::accumulator::{Accumulator, AccumulatorError};
use utreexo_bridge::blockstore::{BlockIndex, Location, StoreError};
use utreexo_bridge::chainview::{ChainError, ChainEvent, ChainView, Header};
use utreexo_bridge::prover::{recover, Prover, ProverError};
use utreexo_bridge::undo::{SpentLeaf, UndoRecord};

fn header(tag: u8, prev: [u8; 32], height: usize) -> Header {
    let mut hash = [tag; 32];
    hash[0] = height as u8;
    Header { hash, prev_hash: prev, height, work: height as u128 + 1 }
}

fn chain(tag: u8, from: [u8; 32], start: usize, end: usize) -> Vec<Header> {
    let mut out = Vec::new();
    let mut prev = from;
    for h in start..=end {
        let hd = header(tag, prev, h);
        prev = hd.hash;
        out.push(hd);
    }
    out
}

fn leaves_for(tag: u8, height: usize) -> Vec<[u8; 32]> {
    vec![[tag ^ (2 * height as u8 + 1); 32], [tag ^ (2 * height as u8 + 2); 32]]
}

/// Applies a block that spends position `spend` (if any) and creates two leaves.
fn apply(p: &mut Prover, h: Header, tag: u8, spend: Option<usize>) {
    let (positions, proofs) = match spend {
        Some(pos) => (vec![pos], vec![p.request_proof(pos).unwrap()]),
        None => (vec![], vec![]),
    };
    assert_eq!(p.classify(&h), Ok(ChainEvent::Extended));
    assert_eq!(p.apply_block(h, &positions, &proofs, leaves_for(tag, h.height)), Ok(()));
}

#[test]
fn view_extends_and_detects_fork() {
    let mut v = ChainView::new(10);
    assert_eq!(v.current_tip(), None);
    let a = chain(0xA0, [0; 32], 0, 5);
    for h in &a {
        assert_eq!(v.accept_header(*h), Ok(ChainEvent::Extended));
    }
    assert_eq!(v.current_tip(), Some((a[5].hash, 5)));
    let b = chain(0xB0, a[3].hash, 4, 6);
    assert_eq!(v.accept_header(b[0]), Ok(ChainEvent::ReorgDetected(3)));
    assert_eq!(v.len(), 6);
    v.rewind_to(3);
    assert_eq!(v.current_tip(), Some((a[3].hash, 3)));
    assert_eq!(v.accept_header(b[0]), Ok(ChainEvent::Extended));
}

#[test]
fn view_refuses_unknown_parent_and_deep_fork() {
    let mut v = ChainView::new(2);
    assert_eq!(v.accept_header(header(1, [0; 32], 3)), Err(ChainError::NoCommonAncestor));
    let a = chain(0xA0, [0; 32], 0, 5);
    for h in &a {
        v.accept_header(*h).unwrap();
    }
    assert_eq!(v.accept_header(header(7, [7; 32], 4)), Err(ChainError::NoCommonAncestor));
    let deep = header(0xC0, a[1].hash, 2);
    assert_eq!(v.accept_header(deep), Err(ChainError::NoCommonAncestor));
    let near = header(0xC0, a[3].hash, 4);
    assert_eq!(v.accept_header(near), Ok(ChainEvent::ReorgDetected(3)));
}

#[test]
fn reorg_matches_direct_replay() {
    let a = chain(0xA0, [0; 32], 0, 5);
    let b = chain(0xB0, a[3].hash, 4, 6);
    let mut p = Prover::new(Accumulator::new(), 10, 10);
    for (i, h) in a.iter().enumerate() {
        let spend = if i >= 2 { Some(i - 2) } else { None };
        apply(&mut p, *h, 0xA0, spend);
    }
    assert_eq!(p.classify(&b[0]), Ok(ChainEvent::ReorgDetected(3)));
    assert_eq!(p.roll_back(3), Ok(()));
    assert_eq!(p.tip(), Some((a[3].hash, 3)));
    apply(&mut p, b[0], 0xB0, Some(2));
    for h in &b[1..] {
        apply(&mut p, *h, 0xB0, None);
    }

    let mut direct = Prover::new(Accumulator::new(), 10, 10);
    for (i, h) in a[..4].iter().enumerate() {
        let spend = if i >= 2 { Some(i - 2) } else { None };
        apply(&mut direct, *h, 0xA0, spend);
    }
    apply(&mut direct, b[0], 0xB0, Some(2));
    for h in &b[1..] {
        apply(&mut direct, *h, 0xB0, None);
    }
    assert_eq!(p.current_roots(), direct.current_roots());
    assert_eq!(p.tip(), direct.tip());
    assert_eq!(p.tip(), Some((b[2].hash, 6)));
}

#[test]
fn reorg_deeper_than_limit_is_refused() {
    let a = chain(0xA0, [0; 32], 0, 5);
    let mut p = Prover::new(Accumulator::new(), 10, 1);
    for h in &a {
        apply(&mut p, *h, 0xA0, None);
    }
    let roots = p.current_roots();
    assert_eq!(p.roll_back(3), Err(ProverError::ReorgTooDeep));
    assert_eq!(p.current_roots(), roots);
    assert_eq!(p.roll_back(4), Ok(()));
    assert_eq!(p.tip(), Some((a[4].hash, 4)));
}

#[test]
fn apply_block_refuses_wrong_header_and_bad_proof() {
    let a = chain(0xA0, [0; 32], 0, 2);
    let mut p = Prover::new(Accumulator::new(), 10, 10);
    assert_eq!(p.apply_block(a[1], &vec![], &vec![], vec![]), Err(ProverError::NotNext));
    apply(&mut p, a[0], 0xA0, None);
    let mut proof = p.request_proof(0).unwrap();
    proof.leaf = [0xEE; 32];
    assert_eq!(p.apply_block(a[1], &vec![0], &vec![proof], vec![[1; 32]]), Err(ProverError::ProofInvalid));
    assert_eq!(p.tip(), Some((a[0].hash, 0)));
    assert_eq!(p.request_proof(9).unwrap_err(), AccumulatorError::UnknownLeaf);
}

#[test]
fn recovery_twice_gives_same_state() {
    let a = chain(0xA0, [0; 32], 0, 3);
    let mut p = Prover::new(Accumulator::new(), 10, 10);
    for (i, h) in a.iter().enumerate() {
        let spend = if i >= 1 { Some(i - 1) } else { None };
        apply(&mut p, *h, 0xA0, spend);
    }
    let records: Vec<UndoRecord> = (0..4).map(|i| p.record_at(i).clone()).collect();
    let first = recover(Accumulator::new(), &records).unwrap();
    let second = recover(Accumulator::new(), &records).unwrap();
    assert_eq!(first.roots(), second.roots());
    assert_eq!(first.roots(), p.current_roots());
    assert_eq!(first.num_live(), 5);
}

#[test]
fn recovery_with_stale_record_fails() {
    let bad = vec![UndoRecord { deleted: vec![SpentLeaf { position: 0, hash: [1; 32] }], added: vec![] }];
    assert_eq!(recover(Accumulator::new(), &bad).unwrap_err(), AccumulatorError::UnknownLeaf);
}

#[test]
fn index_places_and_rotates() {
    let mut idx = BlockIndex::new(100);
    assert_eq!(idx.get(&[1; 32]), Err(StoreError::NotFound));
    assert_eq!(idx.put([1; 32], 60), Ok(Location { file_id: 0, offset: 0, length: 60 }));
    assert_eq!(idx.put([2; 32], 40), Ok(Location { file_id: 0, offset: 60, length: 40 }));
    assert_eq!(idx.put([3; 32], 1), Ok(Location { file_id: 1, offset: 0, length: 1 }));
    assert_eq!(idx.put([1; 32], 5), Ok(Location { file_id: 0, offset: 0, length: 60 }));
    assert_eq!(idx.put([4; 32], 500), Ok(Location { file_id: 2, offset: 0, length: 500 }));
    assert_eq!(idx.put([5; 32], 1), Ok(Location { file_id: 3, offset: 0, length: 1 }));
    assert_eq!(idx.get(&[2; 32]), Ok(Location { file_id: 0, offset: 60, length: 40 }));
}

#[test]
fn resume_twice_gives_same_tip_and_roots() {
    let a = chain(0xA0, [0; 32], 0, 4);
    let mut p = Prover::new(Accumulator::new(), 10, 10);
    for (i, h) in a.iter().enumerate() {
        let spend = if i >= 1 { Some(i - 1) } else { None };
        apply(&mut p, *h, 0xA0, spend);
    }
    let records = || -> Vec<UndoRecord> { (0..5).map(|i| p.record_at(i).clone()).collect() };
    let first = Prover::resume(Accumulator::new(), a.clone(), records(), 10, 10).ok().unwrap();
    let second = Prover::resume(Accumulator::new(), a.clone(), records(), 10, 10).ok().unwrap();
    assert_eq!(first.tip(), second.tip());
    assert_eq!(first.current_roots(), second.current_roots());
    assert_eq!(first.tip(), p.tip());
    assert_eq!(first.current_roots(), p.current_roots());
}

#[test]
fn resume_refuses_gaps_and_missing_records() {
    let a = chain(0xA0, [0; 32], 0, 2);
    let mut p = Prover::new(Accumulator::new(), 10, 10);
    for h in &a {
        apply(&mut p, *h, 0xA0, None);
    }
    let recs: Vec<UndoRecord> = (0..3).map(|i| p.record_at(i).clone()).collect();
    let short: Vec<UndoRecord> = recs[..2].to_vec();
    assert!(matches!(
        Prover::resume(Accumulator::new(), a.clone(), short, 10, 10),
        Err(ProverError::BadRecord)
    ));
    let gap = vec![a[0], a[2], a[1]];
    assert!(matches!(
        Prover::resume(Accumulator::new(), gap, recs.clone(), 10, 10),
        Err(ProverError::NotNext)
    ));
    let mut bad = recs.clone();
    bad[1] = UndoRecord { deleted: vec![SpentLeaf { position: 40, hash: [1; 32] }], added: vec![] };
    assert!(matches!(
        Prover::resume(Accumulator::new(), a.clone(), bad, 10, 10),
        Err(ProverError::BadRecord)
    ));
}
