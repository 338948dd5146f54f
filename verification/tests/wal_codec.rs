//! The binary record form: encode/decode round trips, the torn tail, and
//! direct log access.

use walstore::page::{Page, PAGE_SIZE};
use walstore::wal::{decode_event, encode_event, WalEvent, WalReference};
use walstore::DbError;

fn page_of(byte: u8) -> Page {
    Page::from_vec(vec![byte; PAGE_SIZE])
}

#[test]
fn round_trip_modify_page() {
    let e = WalEvent::ModifyPageEvent {
        transaction_id: 7,
        file_id: 3,
        page_id: 11,
        undo: page_of(0xAA),
        redo: page_of(0xBB),
    };
    let bytes = encode_event(&e);
    assert_eq!(bytes.len(), 8218);
    let (d, len) = decode_event(&bytes, 0).expect("must decode");
    assert_eq!(len, 8218);
    match d {
        WalEvent::ModifyPageEvent { transaction_id, file_id, page_id, undo, redo } => {
            assert_eq!(transaction_id, 7);
            assert_eq!(file_id, 3);
            assert_eq!(page_id, 11);
            assert_eq!(undo.to_vec(), vec![0xAA; PAGE_SIZE]);
            assert_eq!(redo.to_vec(), vec![0xBB; PAGE_SIZE]);
        }
        _ => panic!("wrong variant"),
    }
}

#[test]
fn round_trip_commit_transaction() {
    let e = WalEvent::CommitTransactionEvent { transaction_id: u64::MAX };
    let bytes = encode_event(&e);
    assert_eq!(bytes.len(), 10);
    let (d, len) = decode_event(&bytes, 0).expect("must decode");
    assert_eq!(len, 10);
    match d {
        WalEvent::CommitTransactionEvent { transaction_id } => {
            assert_eq!(transaction_id, u64::MAX)
        }
        _ => panic!("wrong variant"),
    }
}

#[test]
fn round_trip_extend_file() {
    let e = WalEvent::ExtendFileEvent { transaction_id: 1, file_id: 2, extend_amt: -5 };
    let bytes = encode_event(&e);
    assert_eq!(bytes.len(), 26);
    let (d, len) = decode_event(&bytes, 0).expect("must decode");
    assert_eq!(len, 26);
    match d {
        WalEvent::ExtendFileEvent { transaction_id, file_id, extend_amt } => {
            assert_eq!(transaction_id, 1);
            assert_eq!(file_id, 2);
            assert_eq!(extend_amt, -5);
        }
        _ => panic!("wrong variant"),
    }
}

#[test]
fn round_trip_create_file() {
    let e = WalEvent::CreateFileEvent { transaction_id: 9, file_id: 4 };
    let bytes = encode_event(&e);
    assert_eq!(bytes.len(), 18);
    match decode_event(&bytes, 0).expect("must decode").0 {
        WalEvent::CreateFileEvent { transaction_id, file_id } => {
            assert_eq!(transaction_id, 9);
            assert_eq!(file_id, 4);
        }
        _ => panic!("wrong variant"),
    }
}

#[test]
fn round_trip_delete_file() {
    let e = WalEvent::DeleteFileEvent { transaction_id: 9, file_id: 4 };
    let bytes = encode_event(&e);
    assert_eq!(bytes.len(), 18);
    match decode_event(&bytes, 0).expect("must decode").0 {
        WalEvent::DeleteFileEvent { transaction_id, file_id } => {
            assert_eq!(transaction_id, 9);
            assert_eq!(file_id, 4);
        }
        _ => panic!("wrong variant"),
    }
}

#[test]
fn decode_rejects_garbage() {
    assert!(decode_event(&vec![], 0).is_none());
    assert!(decode_event(&vec![0x00, 0x01, 0x02], 0).is_none());
    // right marker, unknown tag
    assert!(decode_event(&vec![165, 99, 0, 0, 0, 0, 0, 0, 0, 0], 0).is_none());
    // right marker and tag, record cut short
    assert!(decode_event(&vec![165, 2, 0, 0], 0).is_none());
}

#[test]
fn log_appends_and_reads_back() {
    let mut wal = WalReference::new();
    let off1 = wal.commit_transaction(5).unwrap();
    let off2 = wal.create_file(6, 1).unwrap();
    assert_eq!(off1, 0);
    assert_eq!(off2, 10);
    assert_eq!(wal.size(), 28);
    match wal.read_entry(off1).unwrap() {
        WalEvent::CommitTransactionEvent { transaction_id } => assert_eq!(transaction_id, 5),
        _ => panic!("wrong variant"),
    }
    match wal.read_entry(off2).unwrap() {
        WalEvent::CreateFileEvent { transaction_id, file_id } => {
            assert_eq!(transaction_id, 6);
            assert_eq!(file_id, 1);
        }
        _ => panic!("wrong variant"),
    }
    // an offset in the middle of a record fails to decode
    assert_eq!(wal.read_entry(3).unwrap_err(), DbError::CorruptLog);
    wal.truncate().unwrap();
    assert_eq!(wal.size(), 0);
}
