use my_vector_db::wal::{encode_record, read_all_bytes, OpType, Wal, WalEntry, WalError};

#[test]
fn wal_round_trip_three_records() {
    let mut wal = Wal::new();
    wal.append(&WalEntry { op: OpType::Insert, vector_id: 1, vector: vec![1, 2, 3] });
    wal.append(&WalEntry { op: OpType::Insert, vector_id: 2, vector: vec![-4, 5, 6] });
    wal.append(&WalEntry { op: OpType::Delete, vector_id: 1, vector: vec![] });
    let entries = wal.read_all().expect("clean log must parse");
    assert_eq!(entries.len(), 3);
    assert_eq!(entries[0].vector_id, 1);
    assert_eq!(entries[0].vector, vec![1, 2, 3]);
    assert!(matches!(entries[0].op, OpType::Insert));
    assert_eq!(entries[1].vector, vec![-4, 5, 6]);
    assert!(matches!(entries[2].op, OpType::Delete));
    assert!(entries[2].vector.is_empty());
}

#[test]
fn wal_crc_detects_flipped_payload_byte() {
    let mut wal = Wal::new();
    wal.append(&WalEntry { op: OpType::Insert, vector_id: 9, vector: vec![7, 8, 9] });
    let mut bytes = wal.log.clone();
    // flip one payload byte (the payload starts after the 12-byte header)
    bytes[12] ^= 0x01;
    let r = read_all_bytes(&bytes);
    assert!(matches!(r, Err(WalError::CrcMismatch)));
}

#[test]
fn wal_truncated_tail_is_an_error() {
    let mut wal = Wal::new();
    wal.append(&WalEntry { op: OpType::Insert, vector_id: 1, vector: vec![1] });
    wal.append(&WalEntry { op: OpType::Insert, vector_id: 2, vector: vec![2] });
    let mut bytes = wal.log.clone();
    bytes.pop();
    let r = read_all_bytes(&bytes);
    assert!(matches!(r, Err(WalError::Truncated)));
    // a header cut mid-way is also an error, not a shorter answer
    let first = encode_record(&WalEntry { op: OpType::Insert, vector_id: 1, vector: vec![1] });
    let mut two = first.clone();
    two.extend_from_slice(&[0u8, 0, 0, 0, 0]);
    assert!(matches!(read_all_bytes(&two), Err(WalError::Truncated)));
}

#[test]
fn wal_malformed_payload_is_an_error() {
    // a frame whose payload length field claims more than remains
    let mut wal = Wal::new();
    wal.append(&WalEntry { op: OpType::Insert, vector_id: 3, vector: vec![1, 2] });
    let mut bytes = wal.log.clone();
    // shrink the payload: claim stays, bytes go
    bytes.truncate(bytes.len() - 8);
    assert!(matches!(read_all_bytes(&bytes), Err(WalError::Truncated)));

    // an unknown op tag inside an otherwise well-framed record
    let good = encode_record(&WalEntry { op: OpType::Insert, vector_id: 3, vector: vec![] });
    let mut payload: Vec<u8> = good[12..].to_vec();
    payload[0] = 0xFF; // op tag out of range
    let crc = crc32fast::hash(&payload);
    let mut framed: Vec<u8> = Vec::new();
    framed.extend_from_slice(&crc.to_le_bytes());
    framed.extend_from_slice(&(payload.len() as u64).to_le_bytes());
    framed.extend_from_slice(&payload);
    assert!(matches!(read_all_bytes(&framed), Err(WalError::Malformed)));
}

#[test]
fn wal_empty_log_reads_empty() {
    let wal = Wal::new();
    let entries = wal.read_all().expect("empty log parses");
    assert!(entries.is_empty());
}
