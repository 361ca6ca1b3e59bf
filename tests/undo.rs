use utreexo_bridge::accumulator::{Accumulator, AccumulatorError};
use utreexo_bridge::undo::{SpentLeaf, UndoRecord};

fn leaf(n: u8) -> [u8; 32] {
    [n; 32]
}

fn filled(n: u8) -> Accumulator {
    let mut acc = Accumulator::new();
    for i in 1..=n {
        acc.add(leaf(i));
    }
    acc
}

#[test]
fn record_apply_then_revert_restores_state() {
    let mut acc = filled(5);
    let roots = acc.roots();
    let rec = UndoRecord {
        deleted: vec![
            SpentLeaf { position: 1, hash: leaf(2) },
            SpentLeaf { position: 4, hash: leaf(5) },
        ],
        added: vec![leaf(10), leaf(11), leaf(12)],
    };
    assert_eq!(rec.apply(&mut acc), Ok(()));
    assert_eq!(acc.num_leaves(), 8);
    assert_eq!(acc.num_live(), 6);
    assert_ne!(acc.roots(), roots);
    assert_eq!(acc.leaf(1), None);
    assert_eq!(acc.leaf(7), Some(leaf(12)));
    assert_eq!(rec.revert(&mut acc), Ok(()));
    assert_eq!(acc.roots(), roots);
    assert_eq!(acc.num_leaves(), 5);
    assert_eq!(acc.num_live(), 5);
    assert_eq!(acc.leaf(1), Some(leaf(2)));
}

#[test]
fn record_with_dead_leaf_is_refused() {
    let mut acc = filled(3);
    let roots = acc.roots();
    let rec = UndoRecord { deleted: vec![SpentLeaf { position: 1, hash: leaf(9) }], added: vec![leaf(4)] };
    assert_eq!(rec.apply(&mut acc), Err(AccumulatorError::UnknownLeaf));
    assert_eq!(acc.roots(), roots);
    let rec2 = UndoRecord { deleted: vec![SpentLeaf { position: 7, hash: leaf(1) }], added: vec![] };
    assert_eq!(rec2.apply(&mut acc), Err(AccumulatorError::UnknownLeaf));
}

#[test]
fn revert_of_foreign_record_is_refused() {
    let mut acc = filled(3);
    let rec = UndoRecord { deleted: vec![], added: vec![leaf(8)] };
    assert_eq!(rec.revert(&mut acc), Err(AccumulatorError::RecordMismatch));
    let rec2 = UndoRecord { deleted: vec![SpentLeaf { position: 0, hash: leaf(1) }], added: vec![] };
    assert_eq!(rec2.revert(&mut acc), Err(AccumulatorError::RecordMismatch));
    assert_eq!(acc.num_leaves(), 3);
}
