use utreexo_bridge::accumulator::{Accumulator, AccumulatorError};
use utreexo_bridge::hashing::{hash_pair, leaf_commitment};

fn leaf(n: u8) -> [u8; 32] {
    [n; 32]
}

fn filled(n: u8) -> Accumulator {
    let mut acc = Accumulator::new();
    for i in 1..=n {
        acc.add(leaf(i));
    }
    acc
}

#[test]
fn sha256_of_zero_pair_is_known_digest() {
    let h = hash_pair(&[0u8; 32], &[0u8; 32]);
    let expected: [u8; 32] = [
        0xf5, 0xa5, 0xfd, 0x42, 0xd1, 0x6a, 0x20, 0x30, 0x27, 0x98, 0xef, 0x6e, 0xd3, 0x09, 0x97, 0x9b,
        0x43, 0x00, 0x3d, 0x23, 0x20, 0xd9, 0xf0, 0xe8, 0xea, 0x98, 0x31, 0xa9, 0x27, 0x59, 0xfb, 0x4b,
    ];
    assert_eq!(h, expected);
}

#[test]
fn hash_pair_is_order_sensitive() {
    let a = leaf(1);
    let b = leaf(2);
    assert_ne!(hash_pair(&a, &b), hash_pair(&b, &a));
    assert_ne!(hash_pair(&a, &b), a);
}

#[test]
fn positions_are_assigned_in_order() {
    let mut acc = Accumulator::new();
    assert_eq!(acc.add(leaf(1)), 0);
    assert_eq!(acc.add(leaf(2)), 1);
    assert_eq!(acc.add(leaf(3)), 2);
    assert_eq!(acc.num_leaves(), 3);
    assert_eq!(acc.num_live(), 3);
}

#[test]
fn empty_forest_has_no_roots() {
    let acc = Accumulator::new();
    assert!(acc.roots().is_empty());
    assert_eq!(acc.num_live(), 0);
}

#[test]
fn incremental_roots_match_from_scratch() {
    let acc = filled(7);
    let l: Vec<[u8; 32]> = (1..=7).map(leaf).collect();
    let r4 = hash_pair(&hash_pair(&l[0], &l[1]), &hash_pair(&l[2], &l[3]));
    let r2 = hash_pair(&l[4], &l[5]);
    assert_eq!(acc.roots(), vec![Some(r4), Some(r2), Some(l[6])]);

    let acc8 = filled(8);
    let right = hash_pair(&hash_pair(&l[4], &l[5]), &hash_pair(&l[6], &leaf(8)));
    assert_eq!(acc8.roots(), vec![Some(hash_pair(&r4, &right))]);
}

#[test]
fn every_live_leaf_proves_against_roots() {
    for n in 1..=9u8 {
        let acc = filled(n);
        for pos in 0..n as usize {
            let proof = acc.prove(pos).unwrap();
            assert_eq!(proof.target, pos);
            assert_eq!(proof.leaf, leaf(pos as u8 + 1));
            assert!(acc.verify(pos, &proof));
        }
    }
}

#[test]
fn prove_unknown_position_fails() {
    let acc = filled(3);
    assert_eq!(acc.prove(3).unwrap_err(), AccumulatorError::UnknownLeaf);
}

#[test]
fn delete_second_of_four_leaves() {
    let mut acc = filled(4);
    let before = acc.roots();
    assert_eq!(before.len(), 1);
    let proof = acc.prove(1).unwrap();
    assert_eq!(acc.delete(&vec![1], &vec![proof]), Ok(()));
    let after = acc.roots();
    assert_ne!(after, before);
    let expected = hash_pair(&leaf(1), &hash_pair(&leaf(3), &leaf(4)));
    assert_eq!(after, vec![Some(expected)]);
    for pos in [0usize, 2, 3] {
        let p = acc.prove(pos).unwrap();
        assert!(acc.verify(pos, &p));
    }
    assert_eq!(acc.prove(1).unwrap_err(), AccumulatorError::UnknownLeaf);
    assert_eq!(acc.num_leaves(), 4);
    assert_eq!(acc.num_live(), 3);
}

#[test]
fn delete_batch_with_one_bad_proof_changes_nothing() {
    let mut acc = filled(6);
    let before = acc.roots();
    let p0 = acc.prove(0).unwrap();
    let mut p2 = acc.prove(2).unwrap();
    let p4 = acc.prove(4).unwrap();
    p2.siblings[0] = Some(leaf(99));
    let r = acc.delete(&vec![0, 2, 4], &vec![p0, p2, p4]);
    assert_eq!(r, Err(AccumulatorError::ProofInvalid));
    assert_eq!(acc.roots(), before);
    assert_eq!(acc.num_live(), 6);
    assert!(acc.prove(0).is_ok());
    assert!(acc.prove(4).is_ok());
}

#[test]
fn delete_rejects_mismatched_lengths_and_deleted_leaves() {
    let mut acc = filled(4);
    let p0 = acc.prove(0).unwrap();
    assert_eq!(acc.delete(&vec![0, 1], &vec![p0.clone()]), Err(AccumulatorError::ProofInvalid));
    assert_eq!(acc.delete(&vec![0], &vec![p0.clone()]), Ok(()));
    assert_eq!(acc.delete(&vec![0], &vec![p0]), Err(AccumulatorError::ProofInvalid));
}

#[test]
fn deleting_a_whole_tree_empties_its_root() {
    let mut acc = filled(2);
    let p0 = acc.prove(0).unwrap();
    let p1 = acc.prove(1).unwrap();
    assert_eq!(acc.delete(&vec![0, 1], &vec![p0, p1]), Ok(()));
    assert_eq!(acc.roots(), vec![None]);
    assert_eq!(acc.num_live(), 0);
    let pos = acc.add(leaf(3));
    assert_eq!(pos, 2);
    assert_eq!(acc.roots(), vec![None, Some(leaf(3))]);
}

#[test]
fn leaf_commitment_depends_on_output_index() {
    let txid = [7u8; 32];
    let a = leaf_commitment(&txid, 0);
    let b = leaf_commitment(&txid, 1);
    assert_ne!(a, b);
    assert_eq!(a, leaf_commitment(&txid, 0));
    assert_ne!(a, txid);
}

#[test]
fn find_leaf_returns_live_position() {
    let mut acc = filled(4);
    assert_eq!(acc.find_leaf(&leaf(3)), Some(2));
    assert_eq!(acc.find_leaf(&leaf(9)), None);
    let p = acc.prove(2).unwrap();
    acc.delete(&vec![2], &vec![p]).unwrap();
    assert_eq!(acc.find_leaf(&leaf(3)), None);
}
