use vecdb_core::wal::{decode_records, encode_record, MAX_RECORD_LEN};

#[test]
fn frame_layout_and_crc() {
    let frame = encode_record(b"123456789");
    assert_eq!(&frame[0..4], &[9, 0, 0, 0]);
    assert_eq!(&frame[4..13], b"123456789");
    // CRC-32 (IEEE) check value of "123456789" is 0xCBF43926.
    assert_eq!(&frame[13..17], &[0x26, 0x39, 0xF4, 0xCB]);
    assert_eq!(frame.len(), 17);
}

#[test]
fn replay_returns_records_in_order() {
    let mut log = Vec::new();
    log.extend(encode_record(b"{\"Delete\":{\"id\":1}}"));
    log.extend(encode_record(b"second"));
    log.extend(encode_record(b"x"));
    let (recs, mismatch) = decode_records(&log);
    assert_eq!(recs, vec![b"{\"Delete\":{\"id\":1}}".to_vec(), b"second".to_vec(), b"x".to_vec()]);
    assert!(!mismatch);
}

#[test]
fn replay_of_empty_log_is_empty() {
    assert!(decode_records(&[]).0.is_empty());
    assert!(decode_records(&[1, 0, 0]).0.is_empty());
}

#[test]
fn torn_tail_keeps_earlier_records() {
    let mut log = Vec::new();
    log.extend(encode_record(b"alpha"));
    log.extend(encode_record(b"beta"));
    let full = log.len();
    log.extend(encode_record(b"gamma"));
    for cut in full..log.len() {
        let recs = decode_records(&log[..cut]);
        assert_eq!(recs, (vec![b"alpha".to_vec(), b"beta".to_vec()], false));
    }
}

#[test]
fn checksum_mismatch_stops_replay() {
    let mut log = Vec::new();
    log.extend(encode_record(b"alpha"));
    let second = log.len();
    log.extend(encode_record(b"beta"));
    log.extend(encode_record(b"gamma"));
    log[second + 5] ^= 0x01; // corrupt a payload byte of "beta"
    assert_eq!(decode_records(&log), (vec![b"alpha".to_vec()], true));
}

#[test]
fn zero_length_record_stops_replay() {
    let mut log = encode_record(b"alpha");
    log.extend(encode_record(b""));
    log.extend(encode_record(b"gamma"));
    assert_eq!(decode_records(&log).0, vec![b"alpha".to_vec()]);
}

#[test]
fn oversized_length_stops_replay() {
    let mut log = encode_record(b"alpha");
    let too_long = (MAX_RECORD_LEN as u32) + 1;
    log.extend(too_long.to_le_bytes());
    log.extend(vec![0u8; 16]);
    assert_eq!(decode_records(&log).0, vec![b"alpha".to_vec()]);
}

#[test]
fn every_single_byte_change_is_caught() {
    let first = encode_record(b"alpha");
    let second = encode_record(b"beta!");
    let third = encode_record(b"gamma");
    for pos in 4..second.len() {
        for flip in [0x01u8, 0x80, 0xFF, 0x5A] {
            let mut log = first.clone();
            let mut bad = second.clone();
            bad[pos] ^= flip;
            log.extend(bad);
            log.extend(third.iter());
            assert_eq!(decode_records(&log), (vec![b"alpha".to_vec()], true), "byte {} flip {}", pos, flip);
        }
    }
}
