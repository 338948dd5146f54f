//! The per-transaction page staging proxy: page-unit fetches, sliced
//! reads, buffered writes and the dirty set a flush step iterates.

use walstore::disk::Disk;
use walstore::memory::MemoryProxy;
use walstore::page::{Page, PAGE_SIZE};
use walstore::transaction::TransactionManager;
use walstore::wal::WalReference;
use walstore::DbError;

fn manager_with_counted_file() -> TransactionManager {
    // page 0 holds 0,1,2,...; page 1 holds 0xFF everywhere
    let mut p0 = vec![0u8; PAGE_SIZE];
    for (i, b) in p0.iter_mut().enumerate() {
        *b = (i % 256) as u8;
    }
    let mut disk = Disk::empty();
    disk.install_file(1, vec![Page::from_vec(p0), Page::from_vec(vec![0xFF; PAGE_SIZE])]);
    TransactionManager::new(disk, WalReference::new())
}

#[test]
fn read_aligned_slices_pages() {
    let mut m = manager_with_counted_file();
    let t1 = m.begin_transaction().unwrap();
    let mut proxy = MemoryProxy::new(t1, 1);
    // within page 0: bytes 16..20
    assert_eq!(proxy.read_aligned(&m, 16, 4).unwrap(), vec![16, 17, 18, 19]);
    // within page 1: address = PAGE_SIZE + 8
    assert_eq!(proxy.read_aligned(&m, PAGE_SIZE + 8, 2).unwrap(), vec![0xFF, 0xFF]);
    // a second read is served from the cache with the same result
    assert_eq!(proxy.read_aligned(&m, 16, 4).unwrap(), vec![16, 17, 18, 19]);
    assert!(proxy.dirty_pages().is_empty());
}

#[test]
fn read_aligned_propagates_visibility_errors() {
    let mut m = manager_with_counted_file();
    let t1 = m.begin_transaction().unwrap();
    let mut wrong_file = MemoryProxy::new(t1, 9);
    assert_eq!(wrong_file.read_aligned(&m, 0, 1).unwrap_err(), DbError::InvalidFile);
    let mut proxy = MemoryProxy::new(t1, 1);
    // page 2 lies beyond the file's extent
    assert_eq!(proxy.read_aligned(&m, 2 * PAGE_SIZE, 1).unwrap_err(), DbError::InvalidAddress);
}

#[test]
fn write_aligned_stages_and_tracks_dirty_pages() {
    let mut m = manager_with_counted_file();
    let t1 = m.begin_transaction().unwrap();
    let mut proxy = MemoryProxy::new(t1, 1);
    proxy.write_aligned(&m, 10, &vec![0xAB, 0xCD]).unwrap();
    // the patch is visible through the proxy, around untouched bytes
    assert_eq!(proxy.read_aligned(&m, 9, 4).unwrap(), vec![9, 0xAB, 0xCD, 12]);
    // nothing reached the manager yet
    assert_eq!(m.read_page(t1, 1, 0).unwrap().to_vec()[10], 10);
    assert_eq!(proxy.dirty_pages(), vec![0]);
    // a flush step hands each dirtied page to write_page once
    for pid in proxy.dirty_pages() {
        let image = proxy.cached_page(pid).unwrap();
        m.write_page(t1, 1, pid, &image).unwrap();
    }
    let after = m.read_page(t1, 1, 0).unwrap().to_vec();
    assert_eq!(after[10], 0xAB);
    assert_eq!(after[11], 0xCD);
    assert_eq!(after[9], 9);
}
