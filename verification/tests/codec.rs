use minikeyvalue::record::{Deleted, Record};

fn record(vols: &[&str], deleted: Deleted, hash: &str) -> Record {
    Record {
        rvolumes: vols.iter().map(|s| s.to_string()).collect(),
        deleted,
        hash: hash.to_string(),
    }
}

#[test]
fn new_record_is_the_absent_sentinel() {
    let r = Record::new();
    assert!(r.rvolumes.is_empty());
    assert!(matches!(r.deleted, Deleted::Hard));
    assert_eq!(r.hash, "");
}

#[test]
fn encodes_live_record_with_hash() {
    let r = record(&["v1:3001", "v2:3001"], Deleted::No, "7d793037a0760186574b0282f2f435e7");
    assert_eq!(r.encode(), "HASH7d793037a0760186574b0282f2f435e7v1:3001,v2:3001");
}

#[test]
fn encodes_soft_deleted_record() {
    let r = record(&["v1:3001"], Deleted::Soft, "");
    assert_eq!(r.encode(), "DELETEDv1:3001");
}

#[test]
fn encodes_soft_deleted_record_with_hash() {
    let r = record(&["v1"], Deleted::Soft, "0123456789abcdef0123456789abcdef");
    assert_eq!(r.encode(), "DELETEDHASH0123456789abcdef0123456789abcdefv1");
}

#[test]
fn partial_hash_is_not_serialized() {
    let r = record(&["v1"], Deleted::No, "abc");
    assert_eq!(r.encode(), "v1");
}

#[test]
fn decodes_live_record_with_hash() {
    let r = Record::decode("HASH7d793037a0760186574b0282f2f435e7v1:3001,v2:3001");
    assert!(matches!(r.deleted, Deleted::No));
    assert_eq!(r.hash, "7d793037a0760186574b0282f2f435e7");
    assert_eq!(r.rvolumes, vec!["v1:3001".to_string(), "v2:3001".to_string()]);
}

#[test]
fn decodes_soft_deleted_record() {
    let r = Record::decode("DELETEDv1,v2,v3");
    assert!(matches!(r.deleted, Deleted::Soft));
    assert_eq!(r.hash, "");
    assert_eq!(r.rvolumes.len(), 3);
}

#[test]
fn round_trips_live_record() {
    let r = record(&["a:1/sv03", "b:2"], Deleted::No, "0123456789abcdef0123456789abcdef");
    let decoded = Record::decode(&r.encode());
    assert!(matches!(decoded.deleted, Deleted::No));
    assert_eq!(decoded.hash, "0123456789abcdef0123456789abcdef");
    assert_eq!(decoded.rvolumes, r.rvolumes);
}

#[test]
fn round_trips_soft_deleted_record_without_hash() {
    let r = record(&["a:1", "b:2", "c:3"], Deleted::Soft, "");
    let decoded = Record::decode(&r.encode());
    assert!(matches!(decoded.deleted, Deleted::Soft));
    assert_eq!(decoded.hash, "");
    assert_eq!(decoded.rvolumes, r.rvolumes);
}
