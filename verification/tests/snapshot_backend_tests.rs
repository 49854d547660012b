use my_vector_db::backend::{replay_wal, BackendError, MyVectorDb, ReplayError};
use my_vector_db::hnsw::Hnsw;
use my_vector_db::snapshot::SnapError;
use my_vector_db::wal::{encode_record, OpType, WalEntry};

fn sample_index() -> Hnsw {
    let mut h = Hnsw::new(4, 16);
    h.insert(10, vec![1, 2, 3]);
    h.insert(20, vec![4, 5, 6]);
    h.insert(30, vec![-7, 8, 9]);
    h.insert(40, vec![0, 0, 1]);
    h
}

#[test]
fn snapshot_round_trip_preserves_everything() {
    let h = sample_index();
    let bytes = h.save_snapshot_bytes();
    let loaded = Hnsw::load_snapshot_bytes(&bytes).expect("own snapshot loads");
    assert_eq!(loaded.m, h.m);
    assert_eq!(loaded.m_max0, h.m_max0);
    assert_eq!(loaded.ef_construction, h.ef_construction);
    assert_eq!(loaded.max_layers, h.max_layers);
    assert_eq!(loaded.entry_point, h.entry_point);
    assert_eq!(loaded.nodes.len(), h.nodes.len());
    for (a, b) in loaded.nodes.iter().zip(h.nodes.iter()) {
        assert_eq!(a.id, b.id);
        assert_eq!(a.vector, b.vector);
        assert_eq!(a.layers, b.layers);
    }
    // and the image of the reloaded index is the same byte stream
    assert_eq!(loaded.save_snapshot_bytes(), bytes);
}

#[test]
fn snapshot_rejects_malformed_bytes() {
    assert!(matches!(Hnsw::load_snapshot_bytes(&vec![1, 2, 3]), Err(SnapError::Malformed)));
    let h = sample_index();
    let mut bytes = h.save_snapshot_bytes();
    bytes.pop();
    assert!(matches!(Hnsw::load_snapshot_bytes(&bytes), Err(SnapError::Malformed)));
}

#[test]
fn snapshot_rejects_invalid_structure() {
    let h = sample_index();
    let mut bytes = h.save_snapshot_bytes();
    // corrupt the stored `m` parameter (first 8 bytes) down to 1
    bytes[0] = 1;
    assert!(matches!(Hnsw::load_snapshot_bytes(&bytes), Err(SnapError::Invalid)));
}

#[test]
fn backend_put_then_search() {
    let mut db = MyVectorDb::new(16, 100);
    db.put(1, vec![1, 2, 3]).expect("first put succeeds");
    db.put(2, vec![4, 5, 6]).expect("second put succeeds");
    let results = db.search(&vec![1i64, 2, 3], 1).expect("valid query");
    assert_eq!(results.len(), 1);
    assert_eq!(results[0], (1, 0));
}

#[test]
fn backend_rejects_bad_puts() {
    let mut db = MyVectorDb::new(16, 100);
    assert_eq!(db.put(1, vec![]), Err(BackendError::InvalidArgument));
    db.put(1, vec![1, 2, 3]).unwrap();
    // reused id
    assert_eq!(db.put(1, vec![9, 9, 9]), Err(BackendError::InvalidArgument));
    // mismatched dimension
    assert_eq!(db.put(2, vec![1, 2]), Err(BackendError::InvalidArgument));
    // out-of-range coordinate
    assert_eq!(db.put(3, vec![1 << 40, 0, 0]), Err(BackendError::InvalidArgument));
    // empty query
    assert_eq!(db.search(&vec![], 1), Err(BackendError::InvalidArgument));
    // mismatched query dimension
    assert_eq!(db.search(&vec![1i64], 1), Err(BackendError::InvalidArgument));
}

#[test]
fn backend_logs_every_successful_put() {
    let mut db = MyVectorDb::new(16, 100);
    db.put(5, vec![1, 1]).unwrap();
    db.put(6, vec![2, 2]).unwrap();
    db.put(6, vec![3, 3]).unwrap_err(); // refused, must not be logged
    let entries = db.wal.read_all().expect("backend log always parses");
    assert_eq!(entries.len(), 2);
    assert_eq!(entries[0].vector_id, 5);
    assert_eq!(entries[0].vector, vec![1, 1]);
    assert!(matches!(entries[0].op, OpType::Insert));
    assert_eq!(entries[1].vector_id, 6);
}

#[test]
fn wal_replay_rebuilds_the_records() {
    let mut db = MyVectorDb::new(8, 32);
    db.put(1, vec![1, 2]).unwrap();
    db.put(2, vec![3, 4]).unwrap();
    db.put(3, vec![5, 6]).unwrap();
    let rebuilt = replay_wal(&db.wal.log, 8, 32).expect("clean log replays");
    assert_eq!(rebuilt.nodes.len(), 3);
    for (node, id) in rebuilt.nodes.iter().zip([1u32, 2, 3]) {
        assert_eq!(node.id, id);
    }
    // the rebuilt index answers queries
    let r = rebuilt.search(&vec![3i64, 4], 1);
    assert_eq!(r[0], (2, 0));
}

#[test]
fn wal_replay_errors_on_delete_and_damage() {
    let frame = encode_record(&WalEntry { op: OpType::Delete, vector_id: 1, vector: vec![1] });
    assert!(matches!(replay_wal(&frame, 8, 32), Err(ReplayError::Delete)));

    let mut db = MyVectorDb::new(8, 32);
    db.put(1, vec![1, 2]).unwrap();
    let mut bytes = db.wal.log.clone();
    bytes[12] ^= 0xFF;
    assert!(matches!(replay_wal(&bytes, 8, 32), Err(ReplayError::Corrupt)));

    // two inserts reusing an id cannot rebuild an index
    let mut log: Vec<u8> = Vec::new();
    log.extend(encode_record(&WalEntry { op: OpType::Insert, vector_id: 1, vector: vec![1] }));
    log.extend(encode_record(&WalEntry { op: OpType::Insert, vector_id: 1, vector: vec![2] }));
    assert!(matches!(replay_wal(&log, 8, 32), Err(ReplayError::Invalid)));
}

#[test]
fn backend_snapshot_is_loadable() {
    let mut db = MyVectorDb::new(16, 100);
    db.put(1, vec![1, 2, 3]).unwrap();
    db.put(2, vec![4, 5, 6]).unwrap();
    let bytes = db.snapshot();
    let loaded = Hnsw::load_snapshot_bytes(&bytes).expect("snapshot loads");
    assert_eq!(loaded.nodes.len(), 2);
    let r = loaded.search(&vec![4i64, 5, 6], 1);
    assert_eq!(r[0], (2, 0));
}
