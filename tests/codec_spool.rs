use rource::codec::{decode_record, frame_payload, log_to_bytes, serialize_logs, CodecError, DiskGourceLog};
use rource::record::{GourceActionType, GourceLogFormat};
use rource::spool::{batch_log_write, frame_size, log_write, DiskLogReader};

fn rec(timestamp: i64, file: &str, kind: GourceActionType, username: &str) -> GourceLogFormat {
    GourceLogFormat {
        timestamp,
        username: username.to_string(),
        kind,
        file: file.to_string(),
    }
}

#[test]
fn record_round_trips_through_codec() {
    let r = rec(1_700_000_000, "src/main.rs", GourceActionType::M, "Ada Lovelace");
    let f = log_to_bytes(&r).unwrap();
    assert_eq!(f.size as usize, f.data.len());
    assert!(!f.data.is_empty());
    assert_eq!(decode_record(&f.data).unwrap(), r);
}

#[test]
fn negative_timestamp_and_unicode_round_trip() {
    let r = rec(-42, "dir/ünïcödé.txt", GourceActionType::D, "Zoë#Team");
    let f = log_to_bytes(&r).unwrap();
    assert_eq!(decode_record(&f.data).unwrap(), r);
}

#[test]
fn payload_of_exactly_max_size_is_framed() {
    let r = rec(1, "a", GourceActionType::A, "u");
    let f = frame_payload(&r, vec![7u8; 65535]).unwrap();
    assert_eq!(f.size, 65535);
    assert_eq!(f.data.len(), 65535);
}

#[test]
fn payload_one_over_max_size_is_too_large() {
    let r = rec(1, "a", GourceActionType::A, "u");
    match frame_payload(&r, vec![7u8; 65536]) {
        Err(CodecError::RecordTooLarge(x)) => assert_eq!(x, r),
        other => panic!("unexpected {:?}", other),
    }
}

#[test]
fn huge_record_is_refused_with_the_record() {
    let r = rec(5, &"x".repeat(70_000), GourceActionType::A, "big");
    match log_to_bytes(&r) {
        Err(CodecError::RecordTooLarge(x)) => assert_eq!(x, r),
        other => panic!("unexpected {:?}", other),
    }
}

#[test]
fn encoding_is_the_packed_cbor_tuple() {
    let r = rec(1000, "ab", GourceActionType::D, "é");
    let f = log_to_bytes(&r).unwrap();
    assert_eq!(f.data, vec![0x84, 0x19, 0x03, 0xe8, 0x62, 0xc3, 0xa9, 0x02, 0x62, b'a', b'b']);
    let n = log_to_bytes(&rec(-25, "", GourceActionType::A, "")).unwrap();
    assert_eq!(n.data, vec![0x84, 0x38, 24, 0x60, 0x00, 0x60]);
}

#[test]
fn record_encoding_of_exactly_max_size_is_framed() {
    // head (1) + timestamp 0 (1) + empty username (1) + action (1) + file head (3)
    let r = rec(0, &"f".repeat(65535 - 7), GourceActionType::A, "");
    let f = log_to_bytes(&r).unwrap();
    assert_eq!(f.size, 65535);
    assert_eq!(f.data.len(), 65535);
    assert_eq!(decode_record(&f.data).unwrap(), r);
}

#[test]
fn record_encoding_one_over_max_size_is_too_large() {
    let r = rec(0, &"f".repeat(65536 - 7), GourceActionType::A, "");
    match log_to_bytes(&r) {
        Err(CodecError::RecordTooLarge(x)) => assert_eq!(x, r),
        other => panic!("unexpected {:?}", other),
    }
}

#[test]
fn garbage_payload_is_corrupt() {
    assert_eq!(decode_record(&[0xff, 0x00, 0x13]), Err(CodecError::CorruptRecord));
    assert_eq!(decode_record(&[]), Err(CodecError::CorruptRecord));
}

#[test]
fn serialize_logs_encodes_each_record_or_fails() {
    let ok = vec![rec(1, "a", GourceActionType::A, "x"), rec(2, "b", GourceActionType::D, "y")];
    let frames = serialize_logs(&ok).unwrap();
    assert_eq!(frames.len(), 2);
    assert_eq!(decode_record(&frames[1].data).unwrap(), ok[1]);
    let bad = vec![ok[0].clone(), rec(3, &"z".repeat(70_000), GourceActionType::M, "w")];
    assert!(matches!(serialize_logs(&bad), Err(CodecError::RecordTooLarge(_))));
}

#[test]
fn log_write_appends_length_then_payload() {
    let mut out = vec![9u8];
    log_write(&mut out, &DiskGourceLog { size: 258, data: vec![1, 2, 3] });
    assert_eq!(out, vec![9, 2, 1, 1, 2, 3]);
}

#[test]
fn batch_log_write_appends_frames_in_order() {
    let mut out = Vec::new();
    batch_log_write(
        &mut out,
        vec![
            DiskGourceLog { size: 1, data: vec![5] },
            DiskGourceLog { size: 2, data: vec![6, 7] },
        ],
    );
    assert_eq!(out, vec![1, 0, 5, 2, 0, 6, 7]);
}

#[test]
fn frame_size_reads_little_endian() {
    assert_eq!(frame_size([0x34, 0x12]), 0x1234);
    assert_eq!(frame_size([0xff, 0xff]), 65535);
}

#[test]
fn reader_counts_and_reads_frames() {
    let a = rec(10, "f1", GourceActionType::A, "u1");
    let b = rec(20, "f2", GourceActionType::M, "u2");
    let mut bytes = Vec::new();
    batch_log_write(&mut bytes, serialize_logs(&[a.clone(), b.clone()]).unwrap());
    let mut reader = DiskLogReader::new(bytes);
    assert_eq!(reader.record_count(), 2);
    assert_eq!(reader.next_record(), Some(Ok(a)));
    assert_eq!(reader.record_count(), 2);
    assert_eq!(reader.next_record(), Some(Ok(b)));
    assert_eq!(reader.next_record(), None);
}

#[test]
fn truncated_spool_yields_only_complete_frames() {
    let records: Vec<GourceLogFormat> =
        (0..5).map(|i| rec(i, &format!("file{}", i), GourceActionType::A, "me")).collect();
    let mut bytes = Vec::new();
    batch_log_write(&mut bytes, serialize_logs(&records).unwrap());
    let first_frame = log_to_bytes(&records[0]).unwrap().data.len() + 2;
    for cut in 0..bytes.len() {
        let mut reader = DiskLogReader::new(bytes[..cut].to_vec());
        let mut seen = Vec::new();
        while let Some(r) = reader.next_record() {
            seen.push(r.unwrap());
        }
        assert_eq!(seen.len(), cut / first_frame);
        assert_eq!(&seen[..], &records[..seen.len()]);
    }
}

#[test]
fn count_stops_at_a_truncated_final_frame() {
    let mut bytes = Vec::new();
    log_write(&mut bytes, &DiskGourceLog { size: 1, data: vec![0] });
    bytes.extend_from_slice(&[10, 0, 1]);
    let mut reader = DiskLogReader::new(bytes);
    assert_eq!(reader.record_count(), 1);
    assert_eq!(reader.next_frame(), Some(vec![0]));
    assert_eq!(reader.next_frame(), None);
}

#[test]
fn corrupt_complete_frame_is_reported() {
    let mut bytes = Vec::new();
    log_write(&mut bytes, &DiskGourceLog { size: 2, data: vec![0xff, 0xff] });
    let mut reader = DiskLogReader::new(bytes);
    assert_eq!(reader.next_record(), Some(Err(CodecError::CorruptRecord)));
}
