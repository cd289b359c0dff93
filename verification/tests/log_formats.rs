use lightgraph::bytes::log_header;
use lightgraph::storage::column_record::{column_payload_header, decode_column_record, parse_column_header};
use lightgraph::storage::store_log::{encode_record, replay_log, LogReadError, StoreLogBuffer};
use lightgraph::storage::wal_thread::{
    encode_delete, encode_insert, replay_wal, should_replay, WalAction, WalBatch, WalEvent, WalReadError,
};
use lightgraph::wal::{encode_frame, split_frames, TruncatedFrame, WalBuffer};

#[test]
fn wal_insert_frame_layout() {
    let mut buf = Vec::new();
    encode_insert(&mut buf, 7, b"abc");
    assert_eq!(buf, vec![12, 0, 0, 0, 1, 7, 0, 0, 0, 0, 0, 0, 0, b'a', b'b', b'c']);
}

#[test]
fn wal_delete_frame_layout() {
    let mut buf = Vec::new();
    encode_delete(&mut buf, 0x0102);
    assert_eq!(buf, vec![9, 0, 0, 0, 2, 2, 1, 0, 0, 0, 0, 0, 0]);
}

#[test]
fn wal_reads_back_written_records() {
    let mut buf = log_header();
    encode_insert(&mut buf, 7, b"abc");
    encode_delete(&mut buf, 9);
    encode_insert(&mut buf, u64::MAX, b"");
    let (frames, err) = replay_wal(&buf);
    assert_eq!(err, None);
    assert_eq!(frames, vec![(1, 7, b"abc".to_vec()), (2, 9, vec![]), (1, u64::MAX, vec![])]);
}

#[test]
fn wal_short_file_has_no_records() {
    assert_eq!(replay_wal(b"LG"), (vec![], None));
    assert_eq!(replay_wal(b""), (vec![], None));
}

#[test]
fn wal_bad_magic_is_refused() {
    assert_eq!(replay_wal(b"XXXX"), (vec![], Some(WalReadError::BadMagic)));
}

#[test]
fn wal_record_too_short_is_refused() {
    let mut buf = log_header();
    buf.extend_from_slice(&[8, 0, 0, 0, 1, 0, 0, 0, 0, 0, 0, 0]);
    assert_eq!(replay_wal(&buf), (vec![], Some(WalReadError::RecordTooShort)));
}

#[test]
fn wal_truncated_record_is_refused() {
    let mut buf = log_header();
    encode_insert(&mut buf, 1, b"xyz");
    buf.pop();
    assert_eq!(replay_wal(&buf), (vec![], Some(WalReadError::Truncated)));
}

#[test]
fn wal_torn_length_field_is_ignored() {
    let mut buf = log_header();
    encode_delete(&mut buf, 4);
    buf.extend_from_slice(&[1, 2]);
    assert_eq!(replay_wal(&buf), (vec![(2, 4, vec![])], None));
}

#[test]
fn wal_batch_writes_when_full() {
    let mut w = WalBatch::new(32);
    assert!(matches!(w.step(WalEvent::Insert(1, vec![0; 5]), false), WalAction::Continue));
    assert!(matches!(w.step(WalEvent::Delete(2), false), WalAction::Continue));
    match w.step(WalEvent::Delete(3), false) {
        WalAction::Write(bytes) => assert_eq!(bytes.len(), 18 + 13 + 13),
        _ => panic!("expected a write"),
    }
    match w.step(WalEvent::Flush, false) {
        WalAction::WriteAndReply(bytes) => assert!(bytes.is_empty()),
        _ => panic!("expected a flush"),
    }
}

#[test]
fn wal_batch_writes_when_timed_out() {
    let mut w = WalBatch::new(1 << 20);
    match w.step(WalEvent::Delete(5), true) {
        WalAction::Write(bytes) => assert_eq!(bytes, vec![9, 0, 0, 0, 2, 5, 0, 0, 0, 0, 0, 0, 0]),
        _ => panic!("expected a write"),
    }
    assert!(matches!(w.step(WalEvent::Idle { running: true }, true), WalAction::Continue));
}

#[test]
fn wal_batch_stops_when_idle_after_shutdown_request() {
    let mut w = WalBatch::new(64);
    assert!(matches!(w.step(WalEvent::Idle { running: false }, false), WalAction::Stop));
    w.step(WalEvent::Delete(1), false);
    match w.step(WalEvent::Idle { running: false }, false) {
        WalAction::Continue => {}
        _ => panic!("a pending batch keeps the writer running"),
    }
    match w.step(WalEvent::Shutdown, false) {
        WalAction::WriteAndStop(bytes) => assert_eq!(bytes.len(), 13),
        _ => panic!("expected shutdown"),
    }
}

#[test]
fn store_log_record_layout() {
    let mut buf = Vec::new();
    encode_record(&mut buf, 1, b"xy");
    assert_eq!(buf, vec![2, 0, 0, 0, 1, b'x', b'y']);
    let mut empty = Vec::new();
    encode_record(&mut empty, 0, b"");
    assert_eq!(empty, vec![0, 0, 0, 0, 0]);
}

#[test]
fn store_log_reads_back_and_skips_tombstones() {
    let mut buf = log_header();
    encode_record(&mut buf, 1, b"xy");
    encode_record(&mut buf, 0, b"zz");
    encode_record(&mut buf, 2, b"q");
    assert_eq!(replay_log(&buf), (vec![(1, b"xy".to_vec()), (2, b"q".to_vec())], None));
}

#[test]
fn store_log_errors() {
    assert_eq!(replay_log(b"ABCDEFG"), (vec![], Some(LogReadError::BadMagic)));
    let mut buf = log_header();
    encode_record(&mut buf, 1, b"xyz");
    buf.pop();
    assert_eq!(replay_log(&buf), (vec![], Some(LogReadError::Truncated)));
    let mut header_only = log_header();
    header_only.extend_from_slice(&[0, 0, 0, 0]);
    assert_eq!(replay_log(&header_only), (vec![], Some(LogReadError::Truncated)));
    assert_eq!(replay_log(b"LGD"), (vec![], None));
}

#[test]
fn store_log_group_commit() {
    let mut log = StoreLogBuffer::new(10, 4);
    assert_eq!(log.append_insert(b"abc", false), None);
    assert_eq!(log.size_bytes(), 12);
    let written = log.append_delete(b"1", false).unwrap();
    assert_eq!(written.len(), 14);
    assert_eq!(log.size_bytes(), 18);
    let forced = log.append_insert(b"", true).unwrap();
    assert_eq!(forced, vec![0, 0, 0, 0, 1]);
    assert!(log.sync_now().is_empty());
}

#[test]
fn store_log_sync_now_writes_each_record_once() {
    let mut log = StoreLogBuffer::new(1000, 4);
    log.append_insert(b"a", false);
    assert_eq!(log.sync_now(), vec![1, 0, 0, 0, 1, b'a']);
    assert_eq!(log.size_bytes(), 10);
    log.append_insert(b"b", false);
    assert_eq!(log.sync_now(), vec![1, 0, 0, 0, 1, b'b']);
    assert_eq!(log.size_bytes(), 16);
    assert!(log.sync_now().is_empty());
}

#[test]
fn wal_delivers_records_before_a_bad_one() {
    let mut buf = log_header();
    encode_insert(&mut buf, 7, b"abc");
    encode_delete(&mut buf, 9);
    buf.extend_from_slice(&[8, 0, 0, 0, 1, 0, 0, 0, 0, 0, 0, 0]);
    assert_eq!(
        replay_wal(&buf),
        (vec![(1, 7, b"abc".to_vec()), (2, 9, vec![])], Some(WalReadError::RecordTooShort))
    );
    let mut cut = log_header();
    encode_delete(&mut cut, 3);
    encode_insert(&mut cut, 1, b"xyz");
    cut.pop();
    assert_eq!(replay_wal(&cut), (vec![(2, 3, vec![])], Some(WalReadError::Truncated)));
}

#[test]
fn store_log_delivers_records_before_a_cut_one() {
    let mut buf = log_header();
    encode_record(&mut buf, 1, b"xy");
    encode_record(&mut buf, 2, b"q");
    encode_record(&mut buf, 1, b"long");
    buf.pop();
    assert_eq!(
        replay_log(&buf),
        (vec![(1, b"xy".to_vec()), (2, b"q".to_vec())], Some(LogReadError::Truncated))
    );
}

#[test]
fn transaction_log_frames_round_trip() {
    let mut buf = Vec::new();
    encode_frame(&mut buf, b"hello");
    encode_frame(&mut buf, b"");
    assert_eq!(&buf[..9], &[5, 0, 0, 0, b'h', b'e', b'l', b'l', b'o']);
    assert_eq!(split_frames(&buf), Ok(vec![b"hello".to_vec(), vec![]]));
    assert_eq!(split_frames(&[]), Ok(vec![]));
    let mut cut = Vec::new();
    encode_frame(&mut cut, b"abc");
    cut.pop();
    assert_eq!(split_frames(&cut), Err(TruncatedFrame));
}

#[test]
fn transaction_log_buffer_flushes_at_limit() {
    let mut w = WalBuffer::new();
    assert_eq!(w.write(b"abc", false), None);
    assert_eq!(w.flush(), vec![3, 0, 0, 0, b'a', b'b', b'c']);
    let big = vec![7u8; 65536];
    let out = w.write(&big, false).unwrap();
    assert_eq!(out.len(), 65540);
    assert_eq!(w.write(b"x", true), Some(vec![1, 0, 0, 0, b'x']));
}

#[test]
fn column_record_header_round_trip() {
    let mut payload = column_payload_header(3, "name");
    assert_eq!(payload, vec![3, 0, 0, 0, 4, b'n', b'a', b'm', b'e']);
    payload.push(42);
    assert_eq!(parse_column_header(&payload), Some((3, b"name".to_vec(), 9)));
    assert_eq!(decode_column_record(1, &payload), Some((3, "name".to_string(), 9)));
    assert_eq!(decode_column_record(2, &payload), None);
}

#[test]
fn column_record_header_rejections() {
    assert_eq!(parse_column_header(&[1, 0, 0, 0, 0]), None);
    assert_eq!(parse_column_header(&[1, 0, 0, 0, 9, b'a']), None);
    assert_eq!(parse_column_header(&[1, 0, 0, 0, 0, 7]), Some((1, vec![], 5)));
}

#[test]
fn column_record_name_is_decoded_leniently() {
    let payload = vec![0, 0, 0, 0, 2, 0xff, b'a', 0];
    assert_eq!(decode_column_record(1, &payload), Some((0, "\u{FFFD}a".to_string(), 7)));
}

#[test]
fn wal_batch_loses_and_reorders_nothing() {
    let mut w = WalBatch::new(20);
    let mut written = Vec::new();
    let mut expected = Vec::new();
    for i in 0..10u64 {
        let payload = vec![i as u8; i as usize];
        encode_insert(&mut expected, i, &payload);
        if let WalAction::Write(b) = w.step(WalEvent::Insert(i, payload), false) {
            written.extend_from_slice(&b);
        }
        encode_delete(&mut expected, i);
        if let WalAction::Write(b) = w.step(WalEvent::Delete(i), i % 3 == 0) {
            written.extend_from_slice(&b);
        }
    }
    if let WalAction::WriteAndStop(b) = w.step(WalEvent::Shutdown, false) {
        written.extend_from_slice(&b);
    }
    assert_eq!(written, expected);
    let mut log = log_header();
    log.extend_from_slice(&written);
    assert_eq!(replay_wal(&log).0.len(), 20);
}

#[test]
fn replay_only_logs_with_records() {
    assert!(!should_replay(None));
    assert!(!should_replay(Some(4)));
    assert!(should_replay(Some(5)));
}
