use utreexo_bridge::codec::CodecError;
use utreexo_bridge::undo::{SpentLeaf, UndoRecord};

#[test]
fn record_stored_form_is_fixed_layout() {
    let rec = UndoRecord { deleted: vec![SpentLeaf { position: 1, hash: [2; 32] }], added: vec![[3; 32]] };
    let b = rec.encode();
    let mut expected = vec![1u8, 0, 0, 0, 0, 0, 0, 0, 1, 0, 0, 0, 0, 0, 0, 0, 1, 0, 0, 0, 0, 0, 0, 0];
    expected.extend_from_slice(&[2; 32]);
    expected.extend_from_slice(&[3; 32]);
    assert_eq!(b, expected);
}

#[test]
fn record_round_trips_through_bytes() {
    let rec = UndoRecord {
        deleted: vec![
            SpentLeaf { position: 70000, hash: [5; 32] },
            SpentLeaf { position: 3, hash: [6; 32] },
        ],
        added: vec![[7; 32], [8; 32], [9; 32]],
    };
    let back = UndoRecord::decode(&rec.encode()).unwrap();
    assert_eq!(back.deleted.len(), 2);
    assert_eq!(back.deleted[0].position, 70000);
    assert_eq!(back.deleted[0].hash, [5; 32]);
    assert_eq!(back.deleted[1].position, 3);
    assert_eq!(back.added, rec.added);
}

#[test]
fn empty_record_round_trips() {
    let rec = UndoRecord { deleted: vec![], added: vec![] };
    let b = rec.encode();
    assert_eq!(b.len(), 16);
    let back = UndoRecord::decode(&b).unwrap();
    assert!(back.deleted.is_empty() && back.added.is_empty());
}

#[test]
fn truncated_bytes_are_refused() {
    let rec = UndoRecord { deleted: vec![], added: vec![[1; 32]] };
    let mut b = rec.encode();
    b.pop();
    assert_eq!(UndoRecord::decode(&b).unwrap_err(), CodecError::BadLength);
    assert_eq!(UndoRecord::decode(&vec![0u8; 5]).unwrap_err(), CodecError::BadLength);
}
