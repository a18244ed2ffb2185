use automerge::transaction::Transactable;
use automerge::AutoCommit;

use tarsk::codec::deserialize_change_hashes;
use tarsk::codec::deserialize_changes;
use tarsk::codec::serialize_change_hashes;
use tarsk::codec::serialize_changes;
use tarsk::codec::ChangeHash;
use tarsk::codec::ChangeRecord;

fn records_from(doc: &mut AutoCommit) -> Vec<ChangeRecord> {
    doc.get_changes(&[])
        .into_iter()
        .map(|c| ChangeRecord {
            data: c.raw_bytes().to_vec(),
        })
        .collect()
}

#[test]
fn controller_test_change_hashes_roundtrip() {
    let change_hashes = vec![ChangeHash::new(vec![0; 32]).unwrap()];
    let raw = serialize_change_hashes(&change_hashes);
    let deserialized_change_hashes = deserialize_change_hashes(&raw);
    assert!(deserialized_change_hashes.is_ok());
    assert_eq!(change_hashes, deserialized_change_hashes.unwrap());
}

#[test]
fn mod_test_change_hashes_roundtrip() {
    let change_hashes = vec![ChangeHash::new(vec![0; 32]).unwrap()];
    let raw = serialize_change_hashes(&change_hashes);
    let deserialized_change_hashes = deserialize_change_hashes(&raw);
    assert!(deserialized_change_hashes.is_ok());
    assert_eq!(change_hashes, deserialized_change_hashes.unwrap());
}

#[test]
fn serialization_test_change_hashes_roundtrip() {
    let change_hashes = vec![ChangeHash::new(vec![0; 32]).unwrap()];
    let raw = serialize_change_hashes(&change_hashes);
    let deserialized_change_hashes = deserialize_change_hashes(&raw);
    assert!(deserialized_change_hashes.is_ok());
    assert_eq!(change_hashes, deserialized_change_hashes.unwrap());
}

#[test]
fn controller_test_change_roundtrip() {
    let mut doc = AutoCommit::new();
    let _ = doc.put(automerge::ROOT, "number", 1234);

    let changes = records_from(&mut doc);
    let raw = serialize_changes(&changes);
    let deserialized_changes = deserialize_changes(&raw);
    assert!(deserialized_changes.is_ok());
    assert_eq!(changes, deserialized_changes.unwrap());
}

#[test]
fn mod_test_change_roundtrip() {
    let mut doc = AutoCommit::new();
    let _ = doc.put(automerge::ROOT, "number", 1234);

    let changes = records_from(&mut doc);
    let raw = serialize_changes(&changes);
    let deserialized_changes = deserialize_changes(&raw);
    assert!(deserialized_changes.is_ok());
    assert_eq!(changes, deserialized_changes.unwrap());
}

#[test]
fn serialization_test_change_roundtrip() {
    let mut doc = AutoCommit::new();
    let _ = doc.put(automerge::ROOT, "number", 1234);

    let changes = records_from(&mut doc);
    let raw = serialize_changes(&changes);
    let deserialized_changes = deserialize_changes(&raw);
    assert!(deserialized_changes.is_ok());
    assert_eq!(changes, deserialized_changes.unwrap());
}

#[test]
fn test_frontier_roundtrip_empty() {
    let hashes: Vec<ChangeHash> = Vec::new();
    let raw = serialize_change_hashes(&hashes);
    assert_eq!(raw.len(), 0);
    assert_eq!(deserialize_change_hashes(&raw).unwrap(), hashes);
}

#[test]
fn test_frontier_roundtrip_many() {
    let hashes = vec![
        ChangeHash::new((0u8..32).collect()).unwrap(),
        ChangeHash::new(vec![0xAB; 32]).unwrap(),
        ChangeHash::new((32u8..64).collect()).unwrap(),
    ];
    let raw = serialize_change_hashes(&hashes);
    assert_eq!(raw.len(), 96);
    assert_eq!(raw[0], 0);
    assert_eq!(raw[33], 0xAB);
    assert_eq!(deserialize_change_hashes(&raw).unwrap(), hashes);
}

#[test]
fn test_frontier_rejects_partial_hash() {
    assert!(deserialize_change_hashes(&vec![0u8; 31]).is_err());
    assert!(deserialize_change_hashes(&vec![0u8; 33]).is_err());
    assert!(deserialize_change_hashes(&vec![1u8]).is_err());
    assert!(deserialize_change_hashes(&vec![0u8; 64]).is_ok());
}

#[test]
fn test_hash_width_is_checked() {
    assert!(ChangeHash::new(vec![0; 31]).is_none());
    assert!(ChangeHash::new(vec![0; 33]).is_none());
    assert!(ChangeHash::new(vec![7; 32]).is_some());
}

#[test]
fn test_changes_roundtrip_empty_batch() {
    let batch: Vec<ChangeRecord> = Vec::new();
    let raw = serialize_changes(&batch);
    assert_eq!(raw.len(), 0);
    assert_eq!(deserialize_changes(&raw).unwrap(), batch);
}

#[test]
fn test_changes_exact_framing() {
    let batch = vec![
        ChangeRecord { data: vec![9, 8, 7] },
        ChangeRecord { data: Vec::new() },
        ChangeRecord { data: vec![1] },
    ];
    let raw = serialize_changes(&batch);
    // one eight-byte little-endian length before each record
    assert_eq!(
        raw,
        vec![
            3, 0, 0, 0, 0, 0, 0, 0, 9, 8, 7, //
            0, 0, 0, 0, 0, 0, 0, 0, //
            1, 0, 0, 0, 0, 0, 0, 0, 1,
        ]
    );
    assert_eq!(deserialize_changes(&raw).unwrap(), batch);
}

#[test]
fn test_changes_reject_truncated_frame() {
    // frame announces three bytes but carries two
    let raw = vec![3, 0, 0, 0, 0, 0, 0, 0, 9, 8];
    assert!(deserialize_changes(&raw).is_err());
    // prefix shorter than a length
    assert!(deserialize_changes(&vec![3, 0, 0]).is_err());
}
