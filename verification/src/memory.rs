//! A per-transaction, per-file staging helper: fetches whole pages once,
//! serves finer-grained reads and writes by slicing them, and remembers
//! which pages were dirtied so a flush step can hand each one to
//! `write_page` exactly once. The address space is split into page-sized
//! units: page index = address divided by the page size, in-page offset =
//! address modulo the page size.

use vstd::prelude::*;

use crate::page::Page;
use crate::page::PAGE_SIZE;
use crate::transaction::assoc_find;
use crate::transaction::lemma_assoc_find_absent;
use crate::transaction::lemma_assoc_find_at;
use crate::transaction::lemma_assoc_find_push;
use crate::transaction::lemma_assoc_find_update;
use crate::transaction::FileId;
use crate::transaction::PageId;
use crate::transaction::TransactionId;
use crate::transaction::TransactionManager;
use crate::DbError;

verus! {

/// One cached page of the staged file.
pub struct CachedPage {
    pub page_id: PageId,
    pub image: Page,
}

pub open spec fn cached_key() -> spec_fn(CachedPage) -> PageId {
    |e: CachedPage| e.page_id
}

/// The staging proxy itself.
pub struct MemoryProxy {
    pub working_memory: Vec<CachedPage>,
    pub modified_set: Vec<PageId>,
    pub transaction: TransactionId,
    pub file: FileId,
}

impl MemoryProxy {
    pub open spec fn spec_transaction(self) -> TransactionId {
        self.transaction
    }

    pub open spec fn spec_file(self) -> FileId {
        self.file
    }

    /// The cached image of a page, if fetched or written through here.
    pub open spec fn spec_cached(self, pid: PageId) -> Option<Seq<u8>> {
        match assoc_find(self.working_memory@, cached_key(), pid) {
            Some(e) => Some(e.image@),
            None => None,
        }
    }

    /// Whether a write went through here to the page.
    pub open spec fn spec_dirty(self, pid: PageId) -> bool {
        self.modified_set@.contains(pid)
    }

    /// The bytes the proxy serves for a page: its cached image, else what
    /// the manager resolves for this transaction.
    pub open spec fn spec_view(self, m: TransactionManager, pid: PageId) -> Seq<u8> {
        match self.spec_cached(pid) {
            Some(b) => b,
            None => m.spec_resolve_page(self.transaction, self.file, pid),
        }
    }

    /// Cached pages are page-sized and unique, and every page not dirtied
    /// through the proxy still holds exactly what the manager resolves.
    pub open spec fn consistent(self, m: TransactionManager) -> bool {
        &&& forall|i: int|
            0 <= i < self.working_memory@.len() ==> (#[trigger] self.working_memory@[i]).image.wf()
        &&& forall|i: int, j: int|
            0 <= i < j < self.working_memory@.len() ==> (#[trigger] self.working_memory@[i]).page_id
                != (#[trigger] self.working_memory@[j]).page_id
        &&& forall|i: int|
            0 <= i < self.working_memory@.len() && !self.spec_dirty(
                (#[trigger] self.working_memory@[i]).page_id,
            ) ==> self.working_memory@[i].image@ == m.spec_resolve_page(
                self.transaction,
                self.file,
                self.working_memory@[i].page_id,
            )
    }

    /// A fresh proxy for one transaction and one file: nothing cached,
    /// nothing dirty.
    pub fn new(txn: TransactionId, file: FileId) -> (p: MemoryProxy)
        ensures
            p.spec_transaction() == txn,
            p.spec_file() == file,
            p.working_memory@ == Seq::<CachedPage>::empty(),
            p.modified_set@ == Seq::<PageId>::empty(),
            forall|m: TransactionManager| #[trigger] p.consistent(m),
            forall|q: PageId| #[trigger] p.spec_cached(q) is None,
    {
        let p = MemoryProxy {
            working_memory: Vec::new(),
            modified_set: Vec::new(),
            transaction: txn,
            file,
        };
        p
    }

    /// Index of a cached page.
    fn cache_index(&self, pid: PageId) -> (r: Option<usize>)
        ensures
            match r {
                Some(i) => {
                    &&& i < self.working_memory@.len()
                    &&& self.working_memory@[i as int].page_id == pid
                    &&& self.spec_cached(pid) == Some(self.working_memory@[i as int].image@)
                },
                None => self.spec_cached(pid) is None,
            },
    {
        let n = self.working_memory.len();
        let mut i: usize = 0;
        while i < n
            invariant
                i <= n == self.working_memory@.len(),
                forall|j: int| 0 <= j < i ==> (#[trigger] self.working_memory@[j]).page_id != pid,
            decreases n - i,
        {
            if self.working_memory[i].page_id == pid {
                proof {
                    assert(forall|j: int|
                        0 <= j < i ==> cached_key()(#[trigger] self.working_memory@[j])
                            != cached_key()(self.working_memory@[i as int]));
                    lemma_assoc_find_at(self.working_memory@, cached_key(), i as int);
                }
                return Some(i);
            }
            i = i + 1;
        }
        proof {
            assert(forall|j: int|
                0 <= j < n ==> cached_key()(#[trigger] self.working_memory@[j]) != pid);
            lemma_assoc_find_absent(self.working_memory@, cached_key(), pid);
        }
        None
    }

    /// Ensures the page is cached, fetching it from the manager on first
    /// touch; returns its index. Fails exactly as `read_page` would when
    /// the page is neither cached nor visible.
    fn fetch(&mut self, manager: &TransactionManager, pid: PageId) -> (r: Result<usize, DbError>)
        requires
            manager.inv(),
            old(self).consistent(*manager),
        ensures
            final(self).consistent(*manager),
            final(self).transaction == old(self).transaction,
            final(self).file == old(self).file,
            final(self).modified_set == old(self).modified_set,
            forall|q: PageId| #[trigger]
                final(self).spec_view(*manager, q) == old(self).spec_view(*manager, q),
            match r {
                Ok(i) => {
                    &&& i < final(self).working_memory@.len()
                    &&& final(self).working_memory@[i as int].page_id == pid
                    &&& final(self).working_memory@[i as int].image.wf()
                    &&& final(self).working_memory@[i as int].image@ == final(self).spec_view(
                        *manager,
                        pid,
                    )
                    &&& final(self).spec_cached(pid) is Some
                },
                Err(e) => {
                    &&& *final(self) == *old(self)
                    &&& old(self).spec_cached(pid) is None
                    &&& !manager.spec_page_visible(old(self).transaction, old(self).file, pid)
                    &&& (e == DbError::InvalidFile <==> !manager.spec_file_visible(
                        old(self).transaction,
                        old(self).file,
                    ))
                    &&& (e == DbError::InvalidAddress <==> manager.spec_file_visible(
                        old(self).transaction,
                        old(self).file,
                    ) && !manager.spec_page_visible(old(self).transaction, old(self).file, pid))
                },
            },
    {
        match self.cache_index(pid) {
            Some(i) => Ok(i),
            None => {
                let page = match manager.read_page(self.transaction, self.file, pid) {
                    Ok(p) => p,
                    Err(e) => {
                        proof {
                            if manager.spec_page_visible(self.transaction, self.file, pid) {
                                assert(false);
                            }
                        }
                        return Err(e);
                    },
                };
                let entry = CachedPage { page_id: pid, image: page };
                proof {
                    crate::transaction::lemma_assoc_find_none_keys(
                        old(self).working_memory@,
                        cached_key(),
                        pid,
                    );
                }
                let i = self.working_memory.len();
                self.working_memory.push(entry);
                proof {
                    assert forall|q: PageId| true implies #[trigger] assoc_find(
                        self.working_memory@,
                        cached_key(),
                        q,
                    ) == (if q == pid {
                        Some(self.working_memory@.last())
                    } else {
                        assoc_find(old(self).working_memory@, cached_key(), q)
                    }) by {
                        lemma_assoc_find_push(
                            old(self).working_memory@,
                            cached_key(),
                            self.working_memory@.last(),
                            q,
                        );
                        if assoc_find(old(self).working_memory@, cached_key(), q) is Some {
                            crate::transaction::lemma_assoc_find_has_key(
                                old(self).working_memory@,
                                cached_key(),
                                q,
                            );
                        }
                    }
                }
                Ok(i)
            },
        }
    }

    /// Read `size` bytes at `address`, which must lie within one page.
    /// Served from the cached page, fetched on first touch.
    pub fn read_aligned(&mut self, manager: &TransactionManager, address: usize, size: usize) -> (r:
        Result<Vec<u8>, DbError>)
        requires
            manager.inv(),
            old(self).consistent(*manager),
            address % PAGE_SIZE + size <= PAGE_SIZE,
        ensures
            final(self).consistent(*manager),
            final(self).transaction == old(self).transaction,
            final(self).file == old(self).file,
            final(self).modified_set == old(self).modified_set,
            forall|q: PageId| #[trigger]
                final(self).spec_view(*manager, q) == old(self).spec_view(*manager, q),
            r is Ok ==> r->Ok_0@ == old(self).spec_view(
                *manager,
                (address / PAGE_SIZE) as u64,
            ).subrange(
                (address % PAGE_SIZE) as int,
                address % PAGE_SIZE + size,
            ),
            (old(self).spec_cached((address / PAGE_SIZE) as u64) is Some
                || manager.spec_page_visible(
                old(self).transaction,
                old(self).file,
                (address / PAGE_SIZE) as u64,
            )) ==> r is Ok,
            r is Err ==> {
                let e = r->Err_0;
                &&& *final(self) == *old(self)
                &&& old(self).spec_cached((address / PAGE_SIZE) as u64) is None
                &&& (e == DbError::InvalidFile <==> !manager.spec_file_visible(
                    old(self).transaction,
                    old(self).file,
                ))
                &&& (e == DbError::InvalidAddress <==> manager.spec_file_visible(
                    old(self).transaction,
                    old(self).file,
                ) && !manager.spec_page_visible(
                    old(self).transaction,
                    old(self).file,
                    (address / PAGE_SIZE) as u64,
                ))
            },
    {
        let pid = (address / PAGE_SIZE) as u64;
        let start = address % PAGE_SIZE;
        let i = match self.fetch(manager, pid) {
            Ok(i) => i,
            Err(e) => {
                return Err(e);
            },
        };
        let image = &self.working_memory[i].image;
        let mut out: Vec<u8> = Vec::new();
        let mut j: usize = 0;
        while j < size
            invariant
                j <= size,
                start + size <= PAGE_SIZE,
                i < self.working_memory@.len(),
                image == &self.working_memory@[i as int].image,
                image.wf(),
                out@.len() == j,
                forall|x: int| 0 <= x < j ==> out@[x] == image@[start + x],
            decreases size - j,
        {
            out.push(image.get(start + j));
            j = j + 1;
        }
        proof {
            assert(out@ =~= image@.subrange(start as int, start + size));
        }
        Ok(out)
    }

    /// Write `data` at `address`, which must lie within one page. The
    /// page is fetched on first touch, patched in the cache, and marked
    /// dirty; nothing reaches the manager until a flush hands the page to
    /// `write_page`.
    pub fn write_aligned(&mut self, manager: &TransactionManager, address: usize, data: &Vec<u8>)
        -> (r: Result<(), DbError>)
        requires
            manager.inv(),
            old(self).consistent(*manager),
            address % PAGE_SIZE + data@.len() <= PAGE_SIZE,
        ensures
            final(self).consistent(*manager),
            final(self).transaction == old(self).transaction,
            final(self).file == old(self).file,
            r is Ok ==> {
                let pid = (address / PAGE_SIZE) as u64;
                let start = (address % PAGE_SIZE) as int;
                &&& final(self).spec_dirty(pid)
                &&& (forall|q: PageId|
                    q != pid ==> #[trigger] final(self).spec_dirty(q) == old(self).spec_dirty(q))
                &&& (forall|q: PageId|
                    q != pid ==> #[trigger] final(self).spec_view(*manager, q) == old(
                        self,
                    ).spec_view(*manager, q))
                &&& final(self).spec_view(*manager, pid) == old(self).spec_view(
                    *manager,
                    pid,
                ).map(
                    |x: int, b: u8|
                        if start <= x < start + data@.len() {
                            data@[x - start]
                        } else {
                            b
                        },
                )
            },
            (old(self).spec_cached((address / PAGE_SIZE) as u64) is Some
                || manager.spec_page_visible(
                old(self).transaction,
                old(self).file,
                (address / PAGE_SIZE) as u64,
            )) ==> r is Ok,
            r is Err ==> {
                let e = r->Err_0;
                &&& *final(self) == *old(self)
                &&& old(self).spec_cached((address / PAGE_SIZE) as u64) is None
                &&& (e == DbError::InvalidFile <==> !manager.spec_file_visible(
                    old(self).transaction,
                    old(self).file,
                ))
                &&& (e == DbError::InvalidAddress <==> manager.spec_file_visible(
                    old(self).transaction,
                    old(self).file,
                ) && !manager.spec_page_visible(
                    old(self).transaction,
                    old(self).file,
                    (address / PAGE_SIZE) as u64,
                ))
            },
    {
        let pid = (address / PAGE_SIZE) as u64;
        let start = address % PAGE_SIZE;
        let size = data.len();
        let i = match self.fetch(manager, pid) {
            Ok(i) => i,
            Err(e) => {
                return Err(e);
            },
        };
        let ghost before = *self;
        let mut e = self.working_memory.remove(i);
        let mut j: usize = 0;
        while j < size
            invariant
                j <= size == data@.len(),
                start + size <= PAGE_SIZE,
                e.page_id == pid,
                e.image.wf(),
                forall|x: int| 0 <= x < j ==> e.image@[start + x] == data@[x],
                forall|x: int|
                    0 <= x < PAGE_SIZE && !(start <= x < start + j) ==> e.image@[x]
                        == before.working_memory@[i as int].image@[x],
            decreases size - j,
        {
            e.image.set(start + j, data[j]);
            j = j + 1;
        }
        self.working_memory.insert(i, e);
        let already = match self.dirty_index(pid) {
            Some(_) => true,
            None => false,
        };
        if !already {
            self.modified_set.push(pid);
        }
        proof {
            let nf = self.working_memory@[i as int];
            assert(self.working_memory@ =~= before.working_memory@.update(i as int, nf));
            assert forall|q: PageId| true implies #[trigger] assoc_find(
                self.working_memory@,
                cached_key(),
                q,
            ) == (if q == pid {
                Some(nf)
            } else {
                assoc_find(before.working_memory@, cached_key(), q)
            }) by {
                lemma_assoc_find_update(before.working_memory@, cached_key(), i as int, nf, q);
            }
            assert(self.spec_dirty(pid)) by {
                if already {
                } else {
                    assert(self.modified_set@.last() == pid);
                }
            }
            assert forall|q: PageId| q != pid implies #[trigger] self.spec_dirty(q)
                == before.spec_dirty(q) by {
                if !already && self.spec_dirty(q) {
                    let x = choose|x: int|
                        0 <= x < self.modified_set@.len() && self.modified_set@[x] == q;
                    assert(before.modified_set@[x] == q);
                }
                if before.spec_dirty(q) {
                    let x = choose|x: int|
                        0 <= x < before.modified_set@.len() && before.modified_set@[x] == q;
                    assert(self.modified_set@[x] == q);
                }
            }
            assert forall|q: PageId| q != pid implies #[trigger] self.spec_view(*manager, q)
                == old(self).spec_view(*manager, q) by {
                assert(self.spec_cached(q) == before.spec_cached(q));
                assert(before.spec_view(*manager, q) == old(self).spec_view(*manager, q));
            }
            assert(before.spec_view(*manager, pid) == old(self).spec_view(*manager, pid));
            assert(self.spec_view(*manager, pid) =~= before.spec_view(*manager, pid).map(
                |x: int, b: u8|
                    if start <= x < start + data@.len() {
                        data@[x - start]
                    } else {
                        b
                    },
            ));
            assert forall|i2: int|
                0 <= i2 < self.working_memory@.len() && !self.spec_dirty(
                    (#[trigger] self.working_memory@[i2]).page_id,
                ) implies self.working_memory@[i2].image@ == manager.spec_resolve_page(
                self.transaction,
                self.file,
                self.working_memory@[i2].page_id,
            ) by {
                assert(self.working_memory@[i2].page_id != pid || i2 == i);
                if i2 != i {
                    assert(self.working_memory@[i2] == before.working_memory@[i2]);
                    assert(!before.spec_dirty(before.working_memory@[i2].page_id));
                }
            }
        }
        Ok(())
    }

    /// Index of a page in the dirty set.
    fn dirty_index(&self, pid: PageId) -> (r: Option<usize>)
        ensures
            r is Some <==> self.spec_dirty(pid),
    {
        let n = self.modified_set.len();
        let mut i: usize = 0;
        while i < n
            invariant
                i <= n == self.modified_set@.len(),
                forall|j: int| 0 <= j < i ==> self.modified_set@[j] != pid,
            decreases n - i,
        {
            if self.modified_set[i] == pid {
                proof {
                    assert(self.modified_set@[i as int] == pid);
                }
                return Some(i);
            }
            i = i + 1;
        }
        None
    }

    /// The pages dirtied through this proxy, for a flush step to iterate.
    pub fn dirty_pages(&self) -> (r: Vec<PageId>)
        ensures
            r@ == self.modified_set@,
            forall|q: PageId| r@.contains(q) <==> self.spec_dirty(q),
    {
        let n = self.modified_set.len();
        let mut r: Vec<PageId> = Vec::new();
        let mut i: usize = 0;
        while i < n
            invariant
                i <= n == self.modified_set@.len(),
                r@.len() == i,
                forall|j: int| 0 <= j < i ==> r@[j] == self.modified_set@[j],
            decreases n - i,
        {
            r.push(self.modified_set[i]);
            i = i + 1;
        }
        proof {
            assert(r@ =~= self.modified_set@);
        }
        r
    }

    /// The cached image of a page, for a flush step to hand to
    /// `write_page`.
    pub fn cached_page(&self, pid: PageId) -> (r: Option<Page>)
        ensures
            match r {
                Some(p) => self.spec_cached(pid) == Some(p@),
                None => self.spec_cached(pid) is None,
            },
    {
        match self.cache_index(pid) {
            Some(i) => Some(self.working_memory[i].image.copied()),
            None => None,
        }
    }
}

} // verus!
