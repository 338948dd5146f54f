//! The manager, checkpointing and recovery driven end to end over
//! in-memory storage: durability, isolation, extent enforcement,
//! checkpoint convergence and the undo chain.

use walstore::checkpoint::{checkpoint_step, checkpoint_until_idle, crash_recover};
use walstore::disk::Disk;
use walstore::page::{Page, PAGE_SIZE};
use walstore::transaction::TransactionManager;
use walstore::wal::{WalEvent, WalReference};
use walstore::DbError;

fn page_of(byte: u8) -> Page {
    Page::from_vec(vec![byte; PAGE_SIZE])
}

/// A manager over one pre-existing data file of two pages.
fn fresh_manager() -> TransactionManager {
    let mut disk = Disk::empty();
    disk.install_file(1, vec![page_of(0x01), page_of(0x02)]);
    TransactionManager::new(disk, WalReference::new())
}

/// Simulates a full process restart: keep what is on stable storage (the
/// data files and the log bytes), lose everything in memory, recover.
fn restart(m: TransactionManager) -> TransactionManager {
    let TransactionManager { wal, disk, .. } = m;
    let bytes = wal.tail_from(0);
    let mut m2 = TransactionManager::new(disk, WalReference::from_bytes(bytes));
    crash_recover(&mut m2).expect("recovery must succeed");
    m2
}

#[test]
fn read_sees_disk_content() {
    let m = fresh_manager();
    let mut t_m = m;
    let t1 = t_m.begin_transaction().unwrap();
    assert_eq!(t_m.read_page(t1, 1, 0).unwrap().to_vec(), vec![0x01; PAGE_SIZE]);
    assert_eq!(t_m.read_page(t1, 1, 1).unwrap().to_vec(), vec![0x02; PAGE_SIZE]);
}

#[test]
fn write_then_read_back_same_transaction() {
    let mut m = fresh_manager();
    let t1 = m.begin_transaction().unwrap();
    m.write_page(t1, 1, 0, &page_of(0xEE)).unwrap();
    assert_eq!(m.read_page(t1, 1, 0).unwrap().to_vec(), vec![0xEE; PAGE_SIZE]);
    // the data file itself is untouched until checkpoint time
    assert_eq!(m.disk.read_page(1, 0).unwrap().to_vec(), vec![0x01; PAGE_SIZE]);
}

#[test]
fn durability_across_restart() {
    let mut m = fresh_manager();
    let t1 = m.begin_transaction().unwrap();
    m.write_page(t1, 1, 0, &page_of(0xEE)).unwrap();
    m.commit_transaction(t1).unwrap();
    let mut m2 = restart(m);
    let t = m2.begin_transaction().unwrap();
    assert_eq!(m2.read_page(t, 1, 0).unwrap().to_vec(), vec![0xEE; PAGE_SIZE]);
    assert_eq!(m2.read_page(t, 1, 1).unwrap().to_vec(), vec![0x02; PAGE_SIZE]);
}

#[test]
fn uncommitted_write_discarded_at_recovery() {
    let mut m = fresh_manager();
    let t1 = m.begin_transaction().unwrap();
    m.write_page(t1, 1, 0, &page_of(0xEE)).unwrap();
    // no commit: a crash abandons the transaction
    let mut m2 = restart(m);
    let t = m2.begin_transaction().unwrap();
    assert_eq!(m2.read_page(t, 1, 0).unwrap().to_vec(), vec![0x01; PAGE_SIZE]);
}

#[test]
fn recovery_idempotence() {
    let mut m = fresh_manager();
    let t1 = m.begin_transaction().unwrap();
    m.write_page(t1, 1, 1, &page_of(0x44)).unwrap();
    m.commit_transaction(t1).unwrap();
    let m2 = restart(m);
    // second recovery over the already-clean log
    let mut m3 = restart(m2);
    assert_eq!(m3.wal().size(), 0);
    let t = m3.begin_transaction().unwrap();
    assert_eq!(m3.read_page(t, 1, 0).unwrap().to_vec(), vec![0x01; PAGE_SIZE]);
    assert_eq!(m3.read_page(t, 1, 1).unwrap().to_vec(), vec![0x44; PAGE_SIZE]);
}

#[test]
fn isolation_uncommitted_write_invisible() {
    let mut m = fresh_manager();
    let t1 = m.begin_transaction().unwrap();
    let t2 = m.begin_transaction().unwrap();
    m.write_page(t1, 1, 0, &page_of(0xAA)).unwrap();
    // T2 must see the pre-write value, not T1's uncommitted image
    assert_eq!(m.read_page(t2, 1, 0).unwrap().to_vec(), vec![0x01; PAGE_SIZE]);
    // even after T1 commits, T2's snapshot predates it
    m.commit_transaction(t1).unwrap();
    assert_eq!(m.read_page(t2, 1, 0).unwrap().to_vec(), vec![0x01; PAGE_SIZE]);
    // a transaction begun after the commit sees the new value
    let t3 = m.begin_transaction().unwrap();
    assert_eq!(m.read_page(t3, 1, 0).unwrap().to_vec(), vec![0xAA; PAGE_SIZE]);
}

#[test]
fn torn_tail_recovers_prefix() {
    let mut m = fresh_manager();
    let t1 = m.begin_transaction().unwrap();
    m.write_page(t1, 1, 0, &page_of(0x77)).unwrap();
    m.commit_transaction(t1).unwrap();
    // a crash tears the next append: well-formed prefix, then garbage
    let TransactionManager { wal, disk, .. } = m;
    let mut bytes = wal.tail_from(0);
    bytes.extend_from_slice(&[165, 1, 13, 13]); // a torn record header
    let mut m2 = TransactionManager::new(disk, WalReference::from_bytes(bytes));
    crash_recover(&mut m2).expect("a torn tail is not an error");
    let t = m2.begin_transaction().unwrap();
    assert_eq!(m2.read_page(t, 1, 0).unwrap().to_vec(), vec![0x77; PAGE_SIZE]);
    assert_eq!(m2.wal().size(), 0);
}

#[test]
fn extent_enforcement() {
    let mut m = fresh_manager();
    let t1 = m.begin_transaction().unwrap();
    // page 2 lies beyond the two-page extent
    assert_eq!(m.read_page(t1, 1, 2).unwrap_err(), DbError::InvalidAddress);
    assert_eq!(m.write_page(t1, 1, 2, &page_of(0x55)).unwrap_err(), DbError::InvalidAddress);
    // a committed extension covers the index; the identical call succeeds
    m.extend_file(t1, 1, 1).unwrap();
    m.commit_transaction(t1).unwrap();
    let t2 = m.begin_transaction().unwrap();
    assert_eq!(m.read_page(t2, 1, 2).unwrap().to_vec(), vec![0x00; PAGE_SIZE]);
    m.write_page(t2, 1, 2, &page_of(0x55)).unwrap();
    assert_eq!(m.read_page(t2, 1, 2).unwrap().to_vec(), vec![0x55; PAGE_SIZE]);
}

#[test]
fn extent_visible_to_extender_before_commit() {
    let mut m = fresh_manager();
    let t1 = m.begin_transaction().unwrap();
    m.extend_file(t1, 1, 1).unwrap();
    // the extending transaction sees its own extension at once
    assert_eq!(m.read_page(t1, 1, 2).unwrap().to_vec(), vec![0x00; PAGE_SIZE]);
    // another transaction does not
    let t2 = m.begin_transaction().unwrap();
    assert_eq!(m.read_page(t2, 1, 2).unwrap_err(), DbError::InvalidAddress);
}

#[test]
fn invalid_file_errors() {
    let mut m = fresh_manager();
    let t1 = m.begin_transaction().unwrap();
    assert_eq!(m.read_page(t1, 9, 0).unwrap_err(), DbError::InvalidFile);
    assert_eq!(m.write_page(t1, 9, 0, &page_of(0)).unwrap_err(), DbError::InvalidFile);
    assert_eq!(m.delete_file(t1, 9).unwrap_err(), DbError::InvalidFile);
    assert_eq!(m.extend_file(t1, 9, 1).unwrap_err(), DbError::InvalidFile);
    assert!(!m.file_exists_for_transaction(t1, 9).unwrap());
    assert!(m.file_exists_for_transaction(t1, 1).unwrap());
    assert!(m.page_exists_for_transaction(t1, 1, 1).unwrap());
    assert!(!m.page_exists_for_transaction(t1, 1, 2).unwrap());
}

#[test]
fn create_and_delete_files() {
    let mut m = fresh_manager();
    let t1 = m.begin_transaction().unwrap();
    let fid = m.create_file(t1).unwrap();
    assert_eq!(fid, 2);
    // the creator sees an empty file; others see nothing yet
    assert!(m.file_exists_for_transaction(t1, fid).unwrap());
    assert_eq!(m.read_page(t1, fid, 0).unwrap_err(), DbError::InvalidAddress);
    let t2 = m.begin_transaction().unwrap();
    assert!(!m.file_exists_for_transaction(t2, fid).unwrap());
    // grow it, write it, commit; a later transaction reads it
    m.extend_file(t1, fid, 1).unwrap();
    m.write_page(t1, fid, 0, &page_of(0x99)).unwrap();
    m.commit_transaction(t1).unwrap();
    let t3 = m.begin_transaction().unwrap();
    assert_eq!(m.read_page(t3, fid, 0).unwrap().to_vec(), vec![0x99; PAGE_SIZE]);
    // delete it; the deleter no longer sees it
    m.delete_file(t3, fid).unwrap();
    assert_eq!(m.read_page(t3, fid, 0).unwrap_err(), DbError::InvalidFile);
}

#[test]
fn checkpoint_convergence() {
    let mut m = fresh_manager();
    let t1 = m.begin_transaction().unwrap();
    m.write_page(t1, 1, 0, &page_of(0xD1)).unwrap();
    m.write_page(t1, 1, 1, &page_of(0xD2)).unwrap();
    m.commit_transaction(t1).unwrap();
    checkpoint_until_idle(&mut m).unwrap();
    // the committed transaction's redo images are applied to the file and
    // its entry is gone
    assert_eq!(m.disk.read_page(1, 0).unwrap().to_vec(), vec![0xD1; PAGE_SIZE]);
    assert_eq!(m.disk.read_page(1, 1).unwrap().to_vec(), vec![0xD2; PAGE_SIZE]);
    assert_eq!(m.transactions.len(), 0);
    // a further step reports no progress
    assert_eq!(checkpoint_step(&mut m).unwrap(), false);
    // truncation is now safe and changes nothing a reader can observe
    m.truncate_wal().unwrap();
    assert_eq!(m.wal().size(), 0);
    let t = m.begin_transaction().unwrap();
    assert_eq!(m.read_page(t, 1, 0).unwrap().to_vec(), vec![0xD1; PAGE_SIZE]);
    assert_eq!(m.read_page(t, 1, 1).unwrap().to_vec(), vec![0xD2; PAGE_SIZE]);
}

#[test]
fn checkpoint_leaves_open_transactions_tracked() {
    let mut m = fresh_manager();
    let t1 = m.begin_transaction().unwrap();
    m.write_page(t1, 1, 0, &page_of(0xD1)).unwrap();
    m.commit_transaction(t1).unwrap();
    let t_open = m.begin_transaction().unwrap();
    m.write_page(t_open, 1, 1, &page_of(0xD3)).unwrap();
    checkpoint_until_idle(&mut m).unwrap();
    assert_eq!(m.transactions.len(), 1);
    assert_eq!(m.transactions[0].transaction_id, t_open);
    // the open transaction's own view is intact
    assert_eq!(m.read_page(t_open, 1, 1).unwrap().to_vec(), vec![0xD3; PAGE_SIZE]);
}

#[test]
fn checkpoint_applies_file_operations() {
    let mut m = fresh_manager();
    let t1 = m.begin_transaction().unwrap();
    let fid = m.create_file(t1).unwrap();
    m.extend_file(t1, fid, 2).unwrap();
    m.commit_transaction(t1).unwrap();
    checkpoint_until_idle(&mut m).unwrap();
    assert!(m.disk.has_file(fid));
    assert_eq!(m.disk.page_count(fid).unwrap(), 2);
    let t2 = m.begin_transaction().unwrap();
    m.delete_file(t2, fid).unwrap();
    m.commit_transaction(t2).unwrap();
    checkpoint_until_idle(&mut m).unwrap();
    assert!(!m.disk.has_file(fid));
}

#[test]
fn no_progress_on_open_transactions_only() {
    let mut m = fresh_manager();
    let t1 = m.begin_transaction().unwrap();
    m.write_page(t1, 1, 0, &page_of(0xC0)).unwrap();
    // t1 never commits: the checkpointer must signal no progress
    assert_eq!(checkpoint_step(&mut m).unwrap(), false);
    assert_eq!(m.disk.read_page(1, 0).unwrap().to_vec(), vec![0x01; PAGE_SIZE]);
}

#[test]
fn undo_chain_within_one_transaction() {
    let mut m = fresh_manager();
    let t1 = m.begin_transaction().unwrap();
    let off1 = m.wal().size();
    m.write_page(t1, 1, 0, &page_of(0xB1)).unwrap();
    let off2 = m.wal().size();
    m.write_page(t1, 1, 0, &page_of(0xB2)).unwrap();
    // the first record's undo is the original on-disk image; the second
    // record's undo is the first record's redo — the chain walks back one
    // step at a time
    match m.wal().read_entry(off1).unwrap() {
        WalEvent::ModifyPageEvent { undo, redo, .. } => {
            assert_eq!(undo.to_vec(), vec![0x01; PAGE_SIZE]);
            assert_eq!(redo.to_vec(), vec![0xB1; PAGE_SIZE]);
        }
        _ => panic!("wrong variant"),
    }
    match m.wal().read_entry(off2).unwrap() {
        WalEvent::ModifyPageEvent { undo, redo, .. } => {
            assert_eq!(undo.to_vec(), vec![0xB1; PAGE_SIZE]);
            assert_eq!(redo.to_vec(), vec![0xB2; PAGE_SIZE]);
        }
        _ => panic!("wrong variant"),
    }
}

#[test]
fn transaction_ids_are_monotonic_and_reset_on_restart() {
    let mut m = fresh_manager();
    let t1 = m.begin_transaction().unwrap();
    let t2 = m.begin_transaction().unwrap();
    assert_eq!(t1, 1);
    assert_eq!(t2, 2);
    let mut m2 = restart(m);
    assert_eq!(m2.begin_transaction().unwrap(), 1);
}

#[test]
fn file_counter_seeded_from_storage() {
    let mut disk = Disk::empty();
    disk.install_file(7, vec![page_of(0)]);
    disk.install_file(3, vec![page_of(0)]);
    let mut m = TransactionManager::new(disk, WalReference::new());
    let t1 = m.begin_transaction().unwrap();
    // ids are never reused: the next file comes after the largest on disk
    assert_eq!(m.create_file(t1).unwrap(), 8);
}

#[test]
fn truncate_safe_with_idle_open_transaction() {
    let mut m = fresh_manager();
    let t1 = m.begin_transaction().unwrap();
    m.write_page(t1, 1, 0, &page_of(0xD7)).unwrap();
    m.commit_transaction(t1).unwrap();
    checkpoint_until_idle(&mut m).unwrap();
    // an open transaction that holds no record does not block truncation
    let t_idle = m.begin_transaction().unwrap();
    m.truncate_wal().unwrap();
    assert_eq!(m.wal().size(), 0);
    assert_eq!(m.read_page(t_idle, 1, 0).unwrap().to_vec(), vec![0xD7; PAGE_SIZE]);
}

#[test]
fn file_counter_reseeded_after_recovery() {
    let mut m = fresh_manager();
    let t1 = m.begin_transaction().unwrap();
    let fid = m.create_file(t1).unwrap();
    assert_eq!(fid, 2);
    m.commit_transaction(t1).unwrap();
    // the file exists only in the log; recovery brings it onto the disk
    // and the counter must not re-issue its id
    let mut m2 = restart(m);
    assert!(m2.disk.has_file(2));
    let t = m2.begin_transaction().unwrap();
    assert_eq!(m2.create_file(t).unwrap(), 3);
}
