//! The transaction manager: the authority for what a transaction may see,
//! and the dispatcher that turns page writes into durable log entries plus
//! index bookkeeping.
//!
//! Visibility is snapshot-based: a transaction sees its own events, and the
//! events of every transaction that had committed by the time it began. A
//! page read resolves to the newest visible logged image, falling back to
//! the data file; a page write first resolves the current image — which
//! becomes the undo image, chaining step by step through the transaction's
//! own earlier writes — then appends to the log before anything else.

use vstd::prelude::*;

use crate::disk::spec_clip_u64;
use crate::disk::Disk;
use crate::page::zero_page;
use crate::page::Page;
use crate::page::PAGE_SIZE;
use crate::wal::lemma_wal_append_effect;
use crate::wal::spec_decode;
use crate::wal::COMMIT_TRANSACTION_LEN;
use crate::wal::CREATE_FILE_LEN;
use crate::wal::DELETE_FILE_LEN;
use crate::wal::EXTEND_FILE_LEN;
use crate::wal::MODIFY_PAGE_LEN;
use crate::wal::WalEvent;
use crate::wal::WalEventModel;
use crate::wal::WalReference;
use crate::DbError;

verus! {

pub type TransactionId = u64;

pub type FileId = u64;

pub type PageId = u64;

/// Composite key naming one page slot across all files.
#[derive(Clone, Copy, PartialEq, Eq, Structural)]
pub struct PageOffset {
    pub file_id: FileId,
    pub page_id: PageId,
}

/// A log offset paired with the transaction that made the record: the unit
/// stored in per-key event lists.
#[derive(Clone, Copy, PartialEq, Eq, Structural)]
pub struct TransactionWalOffset {
    pub transaction_id: TransactionId,
    pub wal_offset: u64,
}

/// The per-page event index: one append-ordered list per touched page slot.
pub struct PageEventList {
    pub key: PageOffset,
    pub list: Vec<TransactionWalOffset>,
}

/// The per-file event index: one append-ordered list per touched file.
pub struct FileEventList {
    pub file_id: FileId,
    pub list: Vec<TransactionWalOffset>,
}

/// One tracked transaction: the log offsets of its own records, the set of
/// transactions that had committed when it began, and whether it has
/// committed since.
pub struct TransactionEntry {
    pub transaction_id: TransactionId,
    pub offsets: Vec<u64>,
    pub snapshot: Vec<TransactionId>,
    pub committed: bool,
}

/// The first element whose key is `k`, scanning from the front.
pub open spec fn assoc_find<T, K>(s: Seq<T>, key: spec_fn(T) -> K, k: K) -> Option<T>
    decreases s.len(),
{
    if s.len() == 0 {
        None
    } else if key(s.first()) == k {
        Some(s.first())
    } else {
        assoc_find(s.drop_first(), key, k)
    }
}

/// When element `i` is the first with its key, the scan lands on it.
pub proof fn lemma_assoc_find_at<T, K>(s: Seq<T>, key: spec_fn(T) -> K, i: int)
    requires
        0 <= i < s.len(),
        forall|j: int| 0 <= j < i ==> key(#[trigger] s[j]) != key(s[i]),
    ensures
        assoc_find(s, key, key(s[i])) == Some(s[i]),
    decreases i,
{
    if i > 0 {
        assert(s.drop_first()[i - 1] == s[i]);
        assert(forall|j: int| 0 <= j < i - 1 ==> key(#[trigger] s.drop_first()[j]) != key(s[i]));
        lemma_assoc_find_at(s.drop_first(), key, i - 1);
    }
}

/// When no element has the key, the scan yields nothing.
pub proof fn lemma_assoc_find_absent<T, K>(s: Seq<T>, key: spec_fn(T) -> K, k: K)
    requires
        forall|j: int| 0 <= j < s.len() ==> key(#[trigger] s[j]) != k,
    ensures
        assoc_find(s, key, k) is None,
    decreases s.len(),
{
    if s.len() > 0 {
        lemma_assoc_find_absent(s.drop_first(), key, k);
    }
}

/// A found element bears the key it was found under, at some index.
pub proof fn lemma_assoc_find_has_key<T, K>(s: Seq<T>, key: spec_fn(T) -> K, k: K)
    requires
        assoc_find(s, key, k) is Some,
    ensures
        key(assoc_find(s, key, k)->Some_0) == k,
        exists|i: int| 0 <= i < s.len() && s[i] == assoc_find(s, key, k)->Some_0,
    decreases s.len(),
{
    if s.len() > 0 && key(s.first()) != k {
        lemma_assoc_find_has_key(s.drop_first(), key, k);
        let i = choose|i: int|
            0 <= i < s.drop_first().len() && s.drop_first()[i] == assoc_find(
                s.drop_first(),
                key,
                k,
            )->Some_0;
        assert(s[i + 1] == assoc_find(s, key, k)->Some_0);
    }
}

/// How replacing element `i` (the only one with its key) moves the scan.
pub proof fn lemma_assoc_find_update<T, K>(s: Seq<T>, key: spec_fn(T) -> K, i: int, nv: T, k: K)
    requires
        0 <= i < s.len(),
        key(nv) == key(s[i]),
        forall|j: int| 0 <= j < s.len() && j != i ==> key(#[trigger] s[j]) != key(s[i]),
    ensures
        assoc_find(s.update(i, nv), key, k) == (if k == key(nv) {
            Some(nv)
        } else {
            assoc_find(s, key, k)
        }),
    decreases i,
{
    let upd = s.update(i, nv);
    if i == 0 {
        assert(upd.first() == nv);
        if k != key(nv) {
            assert(upd.drop_first() =~= s.drop_first());
        }
    } else {
        assert(upd.first() == s.first());
        assert(upd.drop_first() =~= s.drop_first().update(i - 1, nv));
        assert(s.drop_first()[i - 1] == s[i]);
        assert(forall|j: int|
            0 <= j < s.drop_first().len() && j != i - 1 ==> key(#[trigger] s.drop_first()[j]) != key(
                s.drop_first()[i - 1],
            ));
        lemma_assoc_find_update(s.drop_first(), key, i - 1, nv, k);
    }
}

/// How a push at the end moves the scan.
pub proof fn lemma_assoc_find_push<T, K>(s: Seq<T>, key: spec_fn(T) -> K, nv: T, k: K)
    ensures
        assoc_find(s, key, k) is Some ==> assoc_find(s.push(nv), key, k) == assoc_find(s, key, k),
        assoc_find(s, key, k) is None && k == key(nv) ==> assoc_find(s.push(nv), key, k) == Some(
            nv,
        ),
        assoc_find(s, key, k) is None && k != key(nv) ==> assoc_find(s.push(nv), key, k) is None,
    decreases s.len(),
{
    if s.len() == 0 {
        assert(s.push(nv)[0] == nv);
        assert(s.push(nv).first() == nv);
        assert(s.push(nv).drop_first() =~= Seq::<T>::empty());
        if k != key(nv) {
            assert(assoc_find(s.push(nv), key, k) == assoc_find(s.push(nv).drop_first(), key, k));
            assert(assoc_find(Seq::<T>::empty(), key, k) is None);
        }
    } else {
        assert(s.push(nv).first() == s.first());
        assert(s.push(nv).drop_first() =~= s.drop_first().push(nv));
        lemma_assoc_find_push(s.drop_first(), key, nv, k);
        if key(s.first()) == k {
            assert(assoc_find(s.push(nv), key, k) == Some(s.first()));
            assert(assoc_find(s, key, k) == Some(s.first()));
        } else {
            assert(assoc_find(s.push(nv), key, k) == assoc_find(s.drop_first().push(nv), key, k));
            assert(assoc_find(s, key, k) == assoc_find(s.drop_first(), key, k));
        }
    }
}

/// How removing element `i` (the only one with its key) moves the scan.
pub proof fn lemma_assoc_find_remove<T, K>(s: Seq<T>, key: spec_fn(T) -> K, i: int, k: K)
    requires
        0 <= i < s.len(),
        forall|j: int| 0 <= j < s.len() && j != i ==> key(#[trigger] s[j]) != key(s[i]),
    ensures
        assoc_find(s.remove(i), key, k) == (if k == key(s[i]) {
            None
        } else {
            assoc_find(s, key, k)
        }),
    decreases i,
{
    let rem = s.remove(i);
    if i == 0 {
        assert(rem =~= s.drop_first());
        if k == key(s[i]) {
            assert(forall|j: int| 0 <= j < rem.len() ==> key(#[trigger] rem[j]) != key(s[i]));
            lemma_assoc_find_absent(rem, key, k);
        }
    } else {
        assert(rem.first() == s.first());
        assert(rem.drop_first() =~= s.drop_first().remove(i - 1));
        assert(s.drop_first()[i - 1] == s[i]);
        assert(forall|j: int|
            0 <= j < s.drop_first().len() && j != i - 1 ==> key(#[trigger] s.drop_first()[j]) != key(
                s.drop_first()[i - 1],
            ));
        lemma_assoc_find_remove(s.drop_first(), key, i - 1, k);
    }
}

/// The key projections the manager's three indexes are scanned by.
pub open spec fn page_key() -> spec_fn(PageEventList) -> PageOffset {
    |e: PageEventList| e.key
}

pub open spec fn file_key() -> spec_fn(FileEventList) -> FileId {
    |e: FileEventList| e.file_id
}

pub open spec fn txn_key() -> spec_fn(TransactionEntry) -> TransactionId {
    |e: TransactionEntry| e.transaction_id
}

/// A file's visible extent stepped over one visible event: creation resets
/// it to zero pages, deletion removes it, an extent change adds its delta
/// (held within what a 64-bit page counter can express), and any other
/// event leaves it alone.
pub open spec fn spec_apply_file_event(cur: Option<int>, m: WalEventModel) -> Option<int> {
    match m {
        WalEventModel::CreateFileEvent { .. } => Some(0),
        WalEventModel::DeleteFileEvent { .. } => None,
        WalEventModel::ExtendFileEvent { extend_amt, .. } => match cur {
            Some(n) => Some(spec_clip_u64(n + extend_amt)),
            None => None,
        },
        _ => cur,
    }
}

/// The in-memory state of the storage engine. The write-ahead log and the
/// data files are held as plain values; a thin shell mirrors them onto
/// stable storage.
pub struct TransactionManager {
    /// WAL reference used to guarantee atomicity of changes.
    pub wal: WalReference,
    /// The data files that checkpointing writes and reads fall back to.
    pub disk: Disk,
    /// Per-page lists of uncheckpointed modification records.
    pub page_events: Vec<PageEventList>,
    /// Per-file lists of uncheckpointed create/delete/extend records.
    pub file_events: Vec<FileEventList>,
    /// Every transaction begun and not yet fully checkpointed.
    pub transactions: Vec<TransactionEntry>,
    /// Id of the most recent transaction; ephemeral, reset each restart.
    pub transaction: u64,
    /// Id of the most recently created file; never reused after deletion.
    pub file: u64,
}

impl TransactionManager {
    /// The tracked entry of a transaction, if any.
    pub open spec fn spec_txn(self, t: TransactionId) -> Option<TransactionEntry> {
        assoc_find(self.transactions@, txn_key(), t)
    }

    pub open spec fn is_registered(self, t: TransactionId) -> bool {
        self.spec_txn(t) is Some
    }

    /// Begun and not yet committed.
    pub open spec fn is_open(self, t: TransactionId) -> bool {
        self.spec_txn(t) matches Some(e) && !e.committed
    }

    /// Committed but not yet fully checkpointed.
    pub open spec fn is_committed(self, t: TransactionId) -> bool {
        self.spec_txn(t) matches Some(e) && e.committed
    }

    /// Whether `viewer` sees the events of `author`: itself, or any
    /// transaction that had committed when `viewer` began.
    pub open spec fn sees(self, viewer: TransactionId, author: TransactionId) -> bool {
        author == viewer || (self.spec_txn(viewer) matches Some(e) && e.snapshot@.contains(author))
    }

    /// The record at a log offset decodes.
    pub open spec fn offset_decodes(self, off: u64) -> bool {
        spec_decode(self.wal.bytes(), off as int) is Some
    }

    /// The record at a log offset, as a model event.
    pub open spec fn event_at(self, off: u64) -> WalEventModel {
        spec_decode(self.wal.bytes(), off as int)->Some_0.0
    }

    /// The per-page event list of one page slot; empty if never touched.
    pub open spec fn spec_page_list(self, k: PageOffset) -> Seq<TransactionWalOffset> {
        match assoc_find(self.page_events@, page_key(), k) {
            Some(e) => e.list@,
            None => Seq::empty(),
        }
    }

    /// The per-file event list of one file; empty if never touched.
    pub open spec fn spec_file_list(self, f: FileId) -> Seq<TransactionWalOffset> {
        match assoc_find(self.file_events@, file_key(), f) {
            Some(e) => e.list@,
            None => Seq::empty(),
        }
    }

    /// The newest entry of `list` whose author `viewer` sees, if any.
    pub open spec fn spec_last_visible(
        self,
        viewer: TransactionId,
        list: Seq<TransactionWalOffset>,
    ) -> Option<u64>
        decreases list.len(),
    {
        if list.len() == 0 {
            None
        } else if self.sees(viewer, list.last().transaction_id) {
            Some(list.last().wal_offset)
        } else {
            self.spec_last_visible(viewer, list.drop_last())
        }
    }

    /// A file's extent before any logged event: its page count on disk.
    pub open spec fn spec_file_base(self, file: FileId) -> Option<int> {
        if self.disk@.dom().contains(file) {
            Some(self.disk@[file].len() as int)
        } else {
            None
        }
    }

    /// The extent fold over the visible prefix of a file event list.
    pub open spec fn spec_file_state_from(
        self,
        viewer: TransactionId,
        list: Seq<TransactionWalOffset>,
        cur: Option<int>,
    ) -> Option<int>
        decreases list.len(),
    {
        if list.len() == 0 {
            cur
        } else {
            let step = if self.sees(viewer, list.first().transaction_id) {
                spec_apply_file_event(cur, self.event_at(list.first().wal_offset))
            } else {
                cur
            };
            self.spec_file_state_from(viewer, list.drop_first(), step)
        }
    }

    /// The file's state as `viewer` sees it: `Some(extent)` when visible
    /// with that many addressable pages, `None` when not visible at all.
    pub open spec fn spec_file_state(self, viewer: TransactionId, file: FileId) -> Option<int> {
        self.spec_file_state_from(viewer, self.spec_file_list(file), self.spec_file_base(file))
    }

    pub open spec fn spec_file_visible(self, viewer: TransactionId, file: FileId) -> bool {
        self.spec_file_state(viewer, file) is Some
    }

    /// A page is visible when its file is and its index is in extent.
    pub open spec fn spec_page_visible(
        self,
        viewer: TransactionId,
        file: FileId,
        page: PageId,
    ) -> bool {
        self.spec_file_state(viewer, file) matches Some(n) && (page as int) < n
    }

    /// What the page slot holds on disk: the stored image, or a zero page
    /// beyond the file's physical end or for a file not yet on disk.
    pub open spec fn spec_disk_page(self, file: FileId, page: PageId) -> Seq<u8> {
        if self.disk@.dom().contains(file) && (page as int) < self.disk@[file].len() {
            self.disk@[file][page as int]
        } else {
            zero_page()
        }
    }

    /// The byte image `viewer` reads at a page slot: the redo image of the
    /// newest visible logged modification, else the disk content.
    pub open spec fn spec_resolve_page(
        self,
        viewer: TransactionId,
        file: FileId,
        page: PageId,
    ) -> Seq<u8> {
        match self.spec_last_visible(
            viewer,
            self.spec_page_list(PageOffset { file_id: file, page_id: page }),
        ) {
            Some(off) => self.event_at(off)->ModifyPageEvent_redo,
            None => self.spec_disk_page(file, page),
        }
    }

    /// One per-page index entry is sound: its record decodes to a page
    /// modification of exactly this page slot by exactly this transaction,
    /// which is still tracked and still carries this record.
    pub open spec fn page_entry_ok(self, k: PageOffset, o: TransactionWalOffset) -> bool {
        &&& self.offset_decodes(o.wal_offset)
        &&& self.event_at(o.wal_offset) matches WalEventModel::ModifyPageEvent {
            transaction_id,
            file_id,
            page_id,
            ..
        } && transaction_id == o.transaction_id && file_id == k.file_id && page_id == k.page_id
        &&& self.spec_txn(o.transaction_id) matches Some(e) && e.offsets@.contains(o.wal_offset)
    }

    /// One per-file index entry is sound, in the same sense.
    pub open spec fn file_entry_ok(self, f: FileId, o: TransactionWalOffset) -> bool {
        &&& self.offset_decodes(o.wal_offset)
        &&& match self.event_at(o.wal_offset) {
            WalEventModel::CreateFileEvent { transaction_id, file_id } => transaction_id
                == o.transaction_id && file_id == f,
            WalEventModel::DeleteFileEvent { transaction_id, file_id } => transaction_id
                == o.transaction_id && file_id == f,
            WalEventModel::ExtendFileEvent { transaction_id, file_id, .. } => transaction_id
                == o.transaction_id && file_id == f,
            _ => false,
        }
        &&& self.spec_txn(o.transaction_id) matches Some(e) && e.offsets@.contains(o.wal_offset)
    }

    /// One tracked transaction is sound: every record it carries decodes,
    /// was made by it, and the list is append-ordered (strictly ascending).
    pub open spec fn txn_entry_ok(self, e: TransactionEntry) -> bool {
        &&& forall|j: int|
            0 <= j < e.offsets@.len() ==> self.offset_decodes(#[trigger] e.offsets@[j])
        &&& forall|j: int|
            0 <= j < e.offsets@.len() ==> crate::wal::event_transaction_id(
                self.event_at(#[trigger] e.offsets@[j]),
            ) == e.transaction_id
        &&& forall|j: int|
            0 <= j < e.offsets@.len() ==> match crate::wal::event_file_id(
                self.event_at(#[trigger] e.offsets@[j]),
            ) {
                Some(f) => f <= self.file,
                None => true,
            }
        &&& forall|j1: int, j2: int|
            0 <= j1 < j2 < e.offsets@.len() ==> #[trigger] e.offsets@[j1] < #[trigger] e.offsets@[j2]
    }

    /// The manager's invariant, established at construction over a clean
    /// log and preserved by every operation.
    pub open spec fn inv(self) -> bool {
        &&& self.wal.clean()
        &&& self.disk.wf()
        // indexes are sound
        &&& forall|i: int, j: int|
            0 <= i < self.page_events@.len() && 0 <= j
                < (#[trigger] self.page_events@[i]).list@.len() ==> self.page_entry_ok(
                self.page_events@[i].key,
                #[trigger] self.page_events@[i].list@[j],
            )
        &&& forall|i: int, j: int|
            0 <= i < self.file_events@.len() && 0 <= j
                < (#[trigger] self.file_events@[i]).list@.len() ==> self.file_entry_ok(
                self.file_events@[i].file_id,
                #[trigger] self.file_events@[i].list@[j],
            )
        &&& forall|i: int|
            0 <= i < self.transactions@.len() ==> self.txn_entry_ok(
                #[trigger] self.transactions@[i],
            )
        // index keys are unique
        &&& forall|i: int, j: int|
            0 <= i < j < self.page_events@.len() ==> (#[trigger] self.page_events@[i]).key != (
            #[trigger] self.page_events@[j]).key
        &&& forall|i: int, j: int|
            0 <= i < j < self.file_events@.len() ==> (#[trigger] self.file_events@[i]).file_id != (
            #[trigger] self.file_events@[j]).file_id
        &&& forall|i: int, j: int|
            0 <= i < j < self.transactions@.len() ==> (#[trigger] self.transactions@[i]).transaction_id
                != (#[trigger] self.transactions@[j]).transaction_id
        // counters bound every id in use
        &&& forall|i: int|
            0 <= i < self.transactions@.len() ==> (#[trigger] self.transactions@[i]).transaction_id
                <= self.transaction
        &&& forall|f: u64| self.disk@.dom().contains(f) ==> f <= self.file
        &&& forall|i: int|
            0 <= i < self.file_events@.len() ==> (#[trigger] self.file_events@[i]).file_id
                <= self.file
        &&& forall|i: int|
            0 <= i < self.page_events@.len() ==> (#[trigger] self.page_events@[i]).key.file_id
                <= self.file
    }
}


impl TransactionManager {
    /// Index of a transaction's entry.
    fn txn_index(&self, t: TransactionId) -> (r: Option<usize>)
        ensures
            match r {
                Some(i) => {
                    &&& i < self.transactions@.len()
                    &&& self.transactions@[i as int].transaction_id == t
                    &&& self.spec_txn(t) == Some(self.transactions@[i as int])
                },
                None => self.spec_txn(t) is None,
            },
    {
        let n = self.transactions.len();
        let mut i: usize = 0;
        while i < n
            invariant
                i <= n == self.transactions@.len(),
                forall|j: int|
                    0 <= j < i ==> (#[trigger] self.transactions@[j]).transaction_id != t,
            decreases n - i,
        {
            if self.transactions[i].transaction_id == t {
                proof {
                    assert(forall|j: int|
                        0 <= j < i ==> txn_key()(#[trigger] self.transactions@[j]) != txn_key()(
                            self.transactions@[i as int],
                        ));
                    lemma_assoc_find_at(self.transactions@, txn_key(), i as int);
                }
                return Some(i);
            }
            i = i + 1;
        }
        proof {
            assert(forall|j: int|
                0 <= j < n ==> txn_key()(#[trigger] self.transactions@[j]) != t);
            lemma_assoc_find_absent(self.transactions@, txn_key(), t);
        }
        None
    }

    /// Index of a page slot's event list.
    fn page_index(&self, k: PageOffset) -> (r: Option<usize>)
        ensures
            match r {
                Some(i) => {
                    &&& i < self.page_events@.len()
                    &&& self.page_events@[i as int].key == k
                    &&& assoc_find(self.page_events@, page_key(), k) == Some(
                        self.page_events@[i as int],
                    )
                    &&& self.spec_page_list(k) == self.page_events@[i as int].list@
                },
                None => {
                    &&& assoc_find(self.page_events@, page_key(), k) is None
                    &&& self.spec_page_list(k) == Seq::<TransactionWalOffset>::empty()
                },
            },
    {
        let n = self.page_events.len();
        let mut i: usize = 0;
        while i < n
            invariant
                i <= n == self.page_events@.len(),
                forall|j: int| 0 <= j < i ==> (#[trigger] self.page_events@[j]).key != k,
            decreases n - i,
        {
            if self.page_events[i].key.file_id == k.file_id && self.page_events[i].key.page_id
                == k.page_id {
                proof {
                    assert(self.page_events@[i as int].key == k);
                    assert(forall|j: int|
                        0 <= j < i ==> page_key()(#[trigger] self.page_events@[j]) != page_key()(
                            self.page_events@[i as int],
                        ));
                    lemma_assoc_find_at(self.page_events@, page_key(), i as int);
                }
                return Some(i);
            }
            i = i + 1;
        }
        proof {
            assert(forall|j: int| 0 <= j < n ==> page_key()(#[trigger] self.page_events@[j]) != k);
            lemma_assoc_find_absent(self.page_events@, page_key(), k);
        }
        None
    }

    /// Index of a file's event list.
    fn file_index(&self, f: FileId) -> (r: Option<usize>)
        ensures
            match r {
                Some(i) => {
                    &&& i < self.file_events@.len()
                    &&& self.file_events@[i as int].file_id == f
                    &&& assoc_find(self.file_events@, file_key(), f) == Some(
                        self.file_events@[i as int],
                    )
                    &&& self.spec_file_list(f) == self.file_events@[i as int].list@
                },
                None => {
                    &&& assoc_find(self.file_events@, file_key(), f) is None
                    &&& self.spec_file_list(f) == Seq::<TransactionWalOffset>::empty()
                },
            },
    {
        let n = self.file_events.len();
        let mut i: usize = 0;
        while i < n
            invariant
                i <= n == self.file_events@.len(),
                forall|j: int| 0 <= j < i ==> (#[trigger] self.file_events@[j]).file_id != f,
            decreases n - i,
        {
            if self.file_events[i].file_id == f {
                proof {
                    assert(forall|j: int|
                        0 <= j < i ==> file_key()(#[trigger] self.file_events@[j]) != file_key()(
                            self.file_events@[i as int],
                        ));
                    lemma_assoc_find_at(self.file_events@, file_key(), i as int);
                }
                return Some(i);
            }
            i = i + 1;
        }
        proof {
            assert(forall|j: int| 0 <= j < n ==> file_key()(#[trigger] self.file_events@[j]) != f);
            lemma_assoc_find_absent(self.file_events@, file_key(), f);
        }
        None
    }

    /// Whether `viewer` sees the events of `author`.
    fn txn_sees(&self, viewer: TransactionId, author: TransactionId) -> (r: bool)
        ensures
            r == self.sees(viewer, author),
    {
        if viewer == author {
            return true;
        }
        match self.txn_index(viewer) {
            None => false,
            Some(i) => {
                let snapshot = &self.transactions[i].snapshot;
                let n = snapshot.len();
                let mut j: usize = 0;
                while j < n
                    invariant
                        j <= n == snapshot@.len(),
                        i < self.transactions@.len(),
                        self.spec_txn(viewer) == Some(self.transactions@[i as int]),
                        snapshot@ == self.transactions@[i as int].snapshot@,
                        forall|x: int| 0 <= x < j ==> snapshot@[x] != author,
                    decreases n - j,
                {
                    if snapshot[j] == author {
                        proof {
                            assert(self.transactions@[i as int].snapshot@[j as int] == author);
                        }
                        return true;
                    }
                    j = j + 1;
                }
                proof {
                    assert(!self.transactions@[i as int].snapshot@.contains(author));
                }
                false
            },
        }
    }

    /// The extent of `file` as `viewer` sees it, or `None` when the file is
    /// not visible at all.
    fn visible_file_state(&self, viewer: TransactionId, file: FileId) -> (r: Option<u64>)
        requires
            self.inv(),
        ensures
            match r {
                Some(n) => self.spec_file_state(viewer, file) == Some(n as int),
                None => self.spec_file_state(viewer, file) is None,
            },
    {
        let base: Option<u64> = self.disk.page_count(file);
        let list_idx = self.file_index(file);
        let i = match list_idx {
            Some(i) => i,
            None => {
                proof {
                    assert(self.spec_file_state_from(
                        viewer,
                        Seq::<TransactionWalOffset>::empty(),
                        self.spec_file_base(file),
                    ) == self.spec_file_base(file));
                }
                return base;
            },
        };
        let list = &self.file_events[i].list;
        let ghost lv = list@;
        let n = list.len();
        let mut cur: Option<u64> = base;
        let mut j: usize = 0;
        proof {
            assert(lv.skip(0) =~= lv);
        }
        while j < n
            invariant
                self.inv(),
                j <= n == lv.len(),
                lv == self.spec_file_list(file),
                i < self.file_events@.len(),
                self.file_events@[i as int].list@ == lv,
                self.file_events@[i as int].file_id == file,
                self.spec_file_state_from(
                    viewer,
                    lv.skip(j as int),
                    match cur {
                        Some(c) => Some(c as int),
                        None => None,
                    },
                ) == self.spec_file_state(viewer, file),
            decreases n - j,
        {
            let two = self.file_events[i].list[j];
            let ghost cur0: Option<int> = match cur {
                Some(c) => Some(c as int),
                None => None,
            };
            if self.txn_sees(viewer, two.transaction_id) {
                proof {
                    assert(self.file_entry_ok(file, lv[j as int]));
                }
                let ev = match self.wal.read_entry(two.wal_offset) {
                    Ok(ev) => ev,
                    Err(_) => {
                        proof {
                            assert(false);
                        }
                        return None;
                    },
                };
                match ev {
                    WalEvent::CreateFileEvent { .. } => {
                        cur = Some(0);
                    },
                    WalEvent::DeleteFileEvent { .. } => {
                        cur = None;
                    },
                    WalEvent::ExtendFileEvent { extend_amt, .. } => {
                        cur = match cur {
                            Some(c) => {
                                let next: i128 = c as i128 + extend_amt as i128;
                                let clipped: u64 = if next < 0 {
                                    0
                                } else if next > u64::MAX as i128 {
                                    u64::MAX
                                } else {
                                    next as u64
                                };
                                Some(clipped)
                            },
                            None => None,
                        };
                    },
                    _ => {
                        proof {
                            assert(false);
                        }
                    },
                }
                proof {
                    let stepped = spec_apply_file_event(cur0, self.event_at(lv[j as int].wal_offset));
                    assert(match cur {
                        Some(c) => Some(c as int),
                        None => None::<int>,
                    } == stepped);
                }
            }
            proof {
                let stepped = if self.sees(viewer, lv[j as int].transaction_id) {
                    spec_apply_file_event(cur0, self.event_at(lv[j as int].wal_offset))
                } else {
                    cur0
                };
                assert(lv.skip(j as int).first() == lv[j as int]);
                assert(lv.skip(j as int).drop_first() =~= lv.skip(j as int + 1));
                assert(self.spec_file_state_from(viewer, lv.skip(j as int), cur0)
                    == self.spec_file_state_from(viewer, lv.skip(j as int + 1), stepped));
            }
            j = j + 1;
        }
        proof {
            assert(lv.skip(n as int) =~= Seq::<TransactionWalOffset>::empty());
        }
        cur
    }

    /// Check whether the file `file` can be read by the given transaction.
    pub fn file_exists_for_transaction(&self, txn: TransactionId, file: FileId) -> (r: Result<
        bool,
        DbError,
    >)
        requires
            self.inv(),
        ensures
            r == Ok::<bool, DbError>(self.spec_file_visible(txn, file)),
    {
        Ok(self.visible_file_state(txn, file).is_some())
    }

    /// Check whether the page at `offset` can be read by the given
    /// transaction.
    pub fn page_exists_for_transaction(
        &self,
        txn: TransactionId,
        file: FileId,
        offset: PageId,
    ) -> (r: Result<bool, DbError>)
        requires
            self.inv(),
        ensures
            r == Ok::<bool, DbError>(self.spec_page_visible(txn, file, offset)),
    {
        match self.visible_file_state(txn, file) {
            Some(n) => Ok(offset < n),
            None => Ok(false),
        }
    }

    /// The undo image carried by the record at `wal_offset`, which must be
    /// a page modification.
    pub fn get_undo_page_from_wal_event(&self, wal_offset: u64) -> (r: Result<Page, DbError>)
        ensures
            (self.offset_decodes(wal_offset) && self.event_at(wal_offset)
                matches WalEventModel::ModifyPageEvent { .. }) ==> {
                &&& r is Ok
                &&& r->Ok_0.wf()
                &&& r->Ok_0@ == self.event_at(wal_offset)->ModifyPageEvent_undo
            },
            !(self.offset_decodes(wal_offset) && self.event_at(wal_offset)
                matches WalEventModel::ModifyPageEvent { .. }) ==> r == Err::<Page, DbError>(
                DbError::CorruptLog,
            ),
    {
        match self.wal.read_entry(wal_offset) {
            Ok(WalEvent::ModifyPageEvent { undo, .. }) => Ok(undo),
            Ok(_) => Err(DbError::CorruptLog),
            Err(e) => Err(e),
        }
    }

    /// The redo image carried by the record at `wal_offset`, which must be
    /// a page modification.
    pub fn get_redo_page_from_wal_event(&self, wal_offset: u64) -> (r: Result<Page, DbError>)
        ensures
            (self.offset_decodes(wal_offset) && self.event_at(wal_offset)
                matches WalEventModel::ModifyPageEvent { .. }) ==> {
                &&& r is Ok
                &&& r->Ok_0.wf()
                &&& r->Ok_0@ == self.event_at(wal_offset)->ModifyPageEvent_redo
            },
            !(self.offset_decodes(wal_offset) && self.event_at(wal_offset)
                matches WalEventModel::ModifyPageEvent { .. }) ==> r == Err::<Page, DbError>(
                DbError::CorruptLog,
            ),
    {
        match self.wal.read_entry(wal_offset) {
            Ok(WalEvent::ModifyPageEvent { redo, .. }) => Ok(redo),
            Ok(_) => Err(DbError::CorruptLog),
            Err(e) => Err(e),
        }
    }

    /// The redo image of the newest logged modification of this page slot
    /// that `txn` sees, if any.
    fn get_page_from_undo_cache(&self, txn: TransactionId, file: FileId, offset: PageId) -> (r:
        Option<Page>)
        requires
            self.inv(),
        ensures
            ({
                let k = PageOffset { file_id: file, page_id: offset };
                match self.spec_last_visible(txn, self.spec_page_list(k)) {
                    Some(off) => {
                        &&& r is Some
                        &&& r->Some_0.wf()
                        &&& r->Some_0@ == self.event_at(off)->ModifyPageEvent_redo
                    },
                    None => r is None,
                }
            }),
    {
        let k = PageOffset { file_id: file, page_id: offset };
        let i = match self.page_index(k) {
            Some(i) => i,
            None => {
                return None;
            },
        };
        let list = &self.page_events[i].list;
        let ghost lv = list@;
        let mut j: usize = list.len();
        proof {
            assert(lv.take(j as int) =~= lv);
        }
        while j > 0
            invariant
                self.inv(),
                j <= lv.len(),
                i < self.page_events@.len(),
                self.page_events@[i as int].list@ == lv,
                self.page_events@[i as int].key == k,
                k == (PageOffset { file_id: file, page_id: offset }),
                lv == self.spec_page_list(k),
                self.spec_last_visible(txn, lv.take(j as int)) == self.spec_last_visible(txn, lv),
            decreases j,
        {
            let jj = j - 1;
            let two = self.page_events[i].list[jj];
            proof {
                assert(lv.take(j as int).last() == lv[jj as int]);
            }
            if self.txn_sees(txn, two.transaction_id) {
                proof {
                    assert(self.page_entry_ok(k, lv[jj as int]));
                    assert(self.spec_last_visible(txn, lv.take(j as int)) == Some(
                        lv[jj as int].wal_offset,
                    ));
                }
                match self.get_redo_page_from_wal_event(two.wal_offset) {
                    Ok(p) => {
                        return Some(p);
                    },
                    Err(_) => {
                        proof {
                            assert(false);
                        }
                        return None;
                    },
                }
            }
            proof {
                assert(lv.take(j as int).drop_last() =~= lv.take(jj as int));
            }
            j = jj;
        }
        proof {
            assert(lv.take(0) =~= Seq::<TransactionWalOffset>::empty());
        }
        None
    }

    /// The page slot's content on disk: the stored page, or a zero page
    /// beyond the file's physical end or for a file not yet checkpointed
    /// into being.
    fn get_page_from_file(&self, file: FileId, offset: PageId) -> (r: Result<Page, DbError>)
        requires
            self.inv(),
        ensures
            r is Ok,
            r->Ok_0.wf(),
            r->Ok_0@ == self.spec_disk_page(file, offset),
    {
        match self.disk.read_page(file, offset) {
            Some(p) => Ok(p),
            None => Ok(Page::zeroed()),
        }
    }

    /// In the context of `txn`, read the page of `file` at `offset` (a page
    /// index, not a byte address). Fails with `InvalidFile` when the file
    /// is not visible to `txn`, with `InvalidAddress` when the index lies
    /// outside the file's visible extent; otherwise returns the newest
    /// visible logged image, else the on-disk content.
    pub fn read_page(&self, txn: TransactionId, file: FileId, offset: PageId) -> (r: Result<
        Page,
        DbError,
    >)
        requires
            self.inv(),
        ensures
            !self.spec_file_visible(txn, file) ==> r == Err::<Page, DbError>(DbError::InvalidFile),
            self.spec_file_visible(txn, file) && !self.spec_page_visible(txn, file, offset) ==> r
                == Err::<Page, DbError>(DbError::InvalidAddress),
            self.spec_page_visible(txn, file, offset) ==> {
                &&& r is Ok
                &&& r->Ok_0.wf()
                &&& r->Ok_0@ == self.spec_resolve_page(txn, file, offset)
            },
    {
        match self.visible_file_state(txn, file) {
            None => Err(DbError::InvalidFile),
            Some(n) => {
                if offset >= n {
                    Err(DbError::InvalidAddress)
                } else {
                    match self.get_page_from_undo_cache(txn, file, offset) {
                        Some(page) => Ok(page),
                        None => self.get_page_from_file(file, offset),
                    }
                }
            },
        }
    }
}


/// An element of a prefix is still found after the sequence possibly grew
/// by one at the end.
pub proof fn lemma_push_contains_opt<A>(pre: Seq<A>, post: Seq<A>, x: A)
    requires
        pre.contains(x),
        post == pre || (post.len() == pre.len() + 1 && forall|i: int|
            0 <= i < pre.len() ==> post[i] == pre[i]),
    ensures
        post.contains(x),
{
    let i = choose|i: int| 0 <= i < pre.len() && pre[i] == x;
    assert(post[i] == x);
}

/// A pushed element is found wherever the old ones were.
pub proof fn lemma_push_contains<A>(s: Seq<A>, v: A, x: A)
    requires
        s.contains(x),
    ensures
        s.push(v).contains(x),
{
    let i = choose|i: int| 0 <= i < s.len() && s[i] == x;
    assert(s.push(v)[i] == x);
}

/// An absent key appears on no element.
pub proof fn lemma_assoc_find_none_keys<T, K>(s: Seq<T>, key: spec_fn(T) -> K, k: K)
    requires
        assoc_find(s, key, k) is None,
    ensures
        forall|j: int| 0 <= j < s.len() ==> key(#[trigger] s[j]) != k,
    decreases s.len(),
{
    if s.len() > 0 {
        lemma_assoc_find_none_keys(s.drop_first(), key, k);
        assert forall|j: int| 0 <= j < s.len() implies key(#[trigger] s[j]) != k by {
            if j > 0 {
                assert(s.drop_first()[j - 1] == s[j]);
            }
        }
    }
}

/// How one successful page write relates the manager's state before and
/// after: the modification record (whose undo image is what the writer
/// itself would have read) stands appended to the log and indexed under its
/// page slot and its transaction, and nothing else has moved.
pub open spec fn spec_wrote(
    pre: TransactionManager,
    post: TransactionManager,
    txn: TransactionId,
    file: FileId,
    offset: PageId,
    redo: Seq<u8>,
) -> bool {
    let off0 = pre.wal.bytes().len() as u64;
    let two = TransactionWalOffset { transaction_id: txn, wal_offset: off0 };
    let k = PageOffset { file_id: file, page_id: offset };
    let ev = WalEventModel::ModifyPageEvent {
        transaction_id: txn,
        file_id: file,
        page_id: offset,
        undo: pre.spec_resolve_page(txn, file, offset),
        redo: redo,
    };
    &&& pre.wal.clean()
    &&& post.wal.clean()
    &&& post.wal.events() == pre.wal.events().push(ev)
    &&& post.spec_page_list(k) == pre.spec_page_list(k).push(two)
    &&& forall|k2: PageOffset| k2 != k ==> post.spec_page_list(k2) == pre.spec_page_list(k2)
    &&& forall|f2: FileId| #[trigger] post.spec_file_list(f2) == pre.spec_file_list(f2)
    &&& forall|t2: TransactionId| t2 != txn ==> post.spec_txn(t2) == pre.spec_txn(t2)
    &&& post.spec_txn(txn) is Some
    &&& pre.spec_txn(txn) is Some
    &&& post.spec_txn(txn)->Some_0.transaction_id == txn
    &&& post.spec_txn(txn)->Some_0.snapshot == pre.spec_txn(txn)->Some_0.snapshot
    &&& post.spec_txn(txn)->Some_0.committed == pre.spec_txn(txn)->Some_0.committed
    &&& post.spec_txn(txn)->Some_0.offsets@ == pre.spec_txn(txn)->Some_0.offsets@.push(off0)
    &&& post.disk == pre.disk
    &&& post.transaction == pre.transaction
    &&& post.file == pre.file
}

impl TransactionManager {
    /// A file visible to anyone bears an id the counter has already issued.
    pub proof fn lemma_visible_file_bound(self, viewer: TransactionId, file: FileId)
        requires
            self.inv(),
            self.spec_file_visible(viewer, file),
        ensures
            file <= self.file,
    {
        if self.disk@.dom().contains(file) {
        } else {
            let list = self.spec_file_list(file);
            if list.len() == 0 {
                assert(self.spec_file_state(viewer, file) is None);
            } else {
                match assoc_find(self.file_events@, file_key(), file) {
                    Some(e) => {
                        lemma_assoc_find_has_key(self.file_events@, file_key(), file);
                    },
                    None => {},
                }
            }
        }
    }

    /// Appends `off` to the offset list of the transaction entry at `i`.
    fn push_txn_offset_at(&mut self, i: usize, off: u64)
        requires
            i < old(self).transactions@.len(),
        ensures
            final(self).transactions@.len() == old(self).transactions@.len(),
            forall|j: int|
                0 <= j < old(self).transactions@.len() && j != i ==> final(self).transactions@[j]
                    == old(self).transactions@[j],
            final(self).transactions@[i as int].transaction_id == old(self).transactions@[i as int].transaction_id,
            final(self).transactions@[i as int].snapshot == old(self).transactions@[i as int].snapshot,
            final(self).transactions@[i as int].committed == old(self).transactions@[i as int].committed,
            final(self).transactions@[i as int].offsets@ == old(self).transactions@[i as int].offsets@.push(off),
            final(self).wal == old(self).wal,
            final(self).disk == old(self).disk,
            final(self).page_events == old(self).page_events,
            final(self).file_events == old(self).file_events,
            final(self).transaction == old(self).transaction,
            final(self).file == old(self).file,
    {
        let mut e = self.transactions.remove(i);
        e.offsets.push(off);
        self.transactions.insert(i, e);
        proof {
            assert(self.transactions@ =~= old(self).transactions@.update(
                i as int,
                final(self).transactions@[i as int],
            ));
        }
    }

    /// Marks the transaction entry at `i` committed.
    fn set_txn_committed(&mut self, i: usize)
        requires
            i < old(self).transactions@.len(),
        ensures
            final(self).transactions@.len() == old(self).transactions@.len(),
            forall|j: int|
                0 <= j < old(self).transactions@.len() && j != i ==> final(self).transactions@[j]
                    == old(self).transactions@[j],
            final(self).transactions@[i as int].transaction_id == old(self).transactions@[i as int].transaction_id,
            final(self).transactions@[i as int].snapshot == old(self).transactions@[i as int].snapshot,
            final(self).transactions@[i as int].committed == true,
            final(self).transactions@[i as int].offsets == old(self).transactions@[i as int].offsets,
            final(self).wal == old(self).wal,
            final(self).disk == old(self).disk,
            final(self).page_events == old(self).page_events,
            final(self).file_events == old(self).file_events,
            final(self).transaction == old(self).transaction,
            final(self).file == old(self).file,
    {
        let mut e = self.transactions.remove(i);
        e.committed = true;
        self.transactions.insert(i, e);
        proof {
            assert(self.transactions@ =~= old(self).transactions@.update(
                i as int,
                final(self).transactions@[i as int],
            ));
        }
    }

    /// Indexes a record under its page slot, appending to the slot's list
    /// (creating the list on the slot's first touch).
    fn add_page_event(&mut self, txn: TransactionId, file: FileId, offset: PageId, wal_offset: u64)
        requires
            forall|i: int, j: int|
                0 <= i < j < old(self).page_events@.len() ==> (
                #[trigger] old(self).page_events@[i]).key != (
                #[trigger] old(self).page_events@[j]).key,
        ensures
            ({
                let k = PageOffset { file_id: file, page_id: offset };
                let two = TransactionWalOffset { transaction_id: txn, wal_offset };
                &&& final(self).spec_page_list(k) == old(self).spec_page_list(k).push(two)
                &&& forall|k2: PageOffset|
                    k2 != k ==> final(self).spec_page_list(k2) == old(self).spec_page_list(k2)
                &&& forall|i: int, j: int|
                    0 <= i < j < final(self).page_events@.len() ==> (
                    #[trigger] final(self).page_events@[i]).key != (
                    #[trigger] final(self).page_events@[j]).key
                &&& (exists|i: int|
                    0 <= i < old(self).page_events@.len() && (#[trigger] old(self).page_events@[i]).key == k && final(self).page_events@.len() == old(self).page_events@.len() && (forall|i2: int|
                        0 <= i2 < old(self).page_events@.len() && i2 != i ==> final(self).page_events@[i2] == old(self).page_events@[i2]) && final(self).page_events@[i].key == k && final(self).page_events@[i].list@ == old(self).page_events@[i].list@.push(two)) || (assoc_find(
                    old(self).page_events@,
                    page_key(),
                    k,
                ) is None && final(self).page_events@.len() == old(self).page_events@.len() + 1 && (
                forall|i2: int|
                    0 <= i2 < old(self).page_events@.len() ==> final(self).page_events@[i2] == old(self).page_events@[i2]) && final(self).page_events@.last().key == k && final(self).page_events@.last().list@ == seq![two])
            }),
            final(self).wal == old(self).wal,
            final(self).disk == old(self).disk,
            final(self).file_events == old(self).file_events,
            final(self).transactions == old(self).transactions,
            final(self).transaction == old(self).transaction,
            final(self).file == old(self).file,
    {
        let k = PageOffset { file_id: file, page_id: offset };
        let two = TransactionWalOffset { transaction_id: txn, wal_offset };
        match self.page_index(k) {
            Some(i) => {
                let mut e = self.page_events.remove(i);
                e.list.push(two);
                self.page_events.insert(i, e);
                proof {
                    let nf = self.page_events@[i as int];
                    assert(self.page_events@ =~= old(self).page_events@.update(
                        i as int,
                        nf,
                    ));
                    assert forall|k2: PageOffset| true implies #[trigger] assoc_find(
                        final(self).page_events@,
                        page_key(),
                        k2,
                    ) == (if k2 == k {
                        Some(nf)
                    } else {
                        assoc_find(old(self).page_events@, page_key(), k2)
                    }) by {
                        lemma_assoc_find_update(old(self).page_events@, page_key(), i as int, nf, k2);
                    }
                    assert(old(self).page_events@[i as int].key == k);
                    assert(self.page_events@[i as int].list@ == old(self).page_events@[i as int].list@.push(two));
                }
            },
            None => {
                proof {
                    lemma_assoc_find_none_keys(old(self).page_events@, page_key(), k);
                }
                let mut list: Vec<TransactionWalOffset> = Vec::new();
                list.push(two);
                let nf = PageEventList { key: k, list };
                self.page_events.push(nf);
                proof {
                    assert forall|k2: PageOffset| true implies #[trigger] assoc_find(
                        final(self).page_events@,
                        page_key(),
                        k2,
                    ) == (if k2 == k {
                        Some(final(self).page_events@.last())
                    } else {
                        assoc_find(old(self).page_events@, page_key(), k2)
                    }) by {
                        lemma_assoc_find_push(
                            old(self).page_events@,
                            page_key(),
                            final(self).page_events@.last(),
                            k2,
                        );
                        if assoc_find(old(self).page_events@, page_key(), k2) is Some {
                            lemma_assoc_find_has_key(old(self).page_events@, page_key(), k2);
                        }
                    }
                    assert(self.spec_page_list(k) =~= old(self).spec_page_list(k).push(two));
                    assert(self.page_events@.last().key == k);
                    assert(self.page_events@.last().list@ =~= seq![two]);
                    assert(forall|i2: int|
                        0 <= i2 < old(self).page_events@.len() ==> self.page_events@[i2] == old(self).page_events@[i2]);
                }
            },
        }
    }

    /// Indexes a record under its file, appending to the file's list
    /// (creating the list on the file's first touch).
    fn add_file_event(&mut self, txn: TransactionId, file: FileId, wal_offset: u64)
        requires
            forall|i: int, j: int|
                0 <= i < j < old(self).file_events@.len() ==> (
                #[trigger] old(self).file_events@[i]).file_id != (
                #[trigger] old(self).file_events@[j]).file_id,
        ensures
            ({
                let two = TransactionWalOffset { transaction_id: txn, wal_offset };
                &&& final(self).spec_file_list(file) == old(self).spec_file_list(file).push(two)
                &&& forall|f2: FileId|
                    f2 != file ==> final(self).spec_file_list(f2) == old(self).spec_file_list(f2)
                &&& forall|i: int, j: int|
                    0 <= i < j < final(self).file_events@.len() ==> (
                    #[trigger] final(self).file_events@[i]).file_id != (
                    #[trigger] final(self).file_events@[j]).file_id
                &&& (exists|i: int|
                    0 <= i < old(self).file_events@.len() && (#[trigger] old(self).file_events@[i]).file_id == file && final(self).file_events@.len() == old(self).file_events@.len() && (forall|i2: int|
                        0 <= i2 < old(self).file_events@.len() && i2 != i ==> final(self).file_events@[i2] == old(self).file_events@[i2]) && final(self).file_events@[i].file_id == file && final(self).file_events@[i].list@ == old(self).file_events@[i].list@.push(two)) || (assoc_find(
                    old(self).file_events@,
                    file_key(),
                    file,
                ) is None && final(self).file_events@.len() == old(self).file_events@.len() + 1 && (
                forall|i2: int|
                    0 <= i2 < old(self).file_events@.len() ==> final(self).file_events@[i2] == old(self).file_events@[i2]) && final(self).file_events@.last().file_id == file && final(self).file_events@.last().list@ == seq![two])
            }),
            final(self).wal == old(self).wal,
            final(self).disk == old(self).disk,
            final(self).page_events == old(self).page_events,
            final(self).transactions == old(self).transactions,
            final(self).transaction == old(self).transaction,
            final(self).file == old(self).file,
    {
        let two = TransactionWalOffset { transaction_id: txn, wal_offset };
        match self.file_index(file) {
            Some(i) => {
                let mut e = self.file_events.remove(i);
                e.list.push(two);
                self.file_events.insert(i, e);
                proof {
                    let nf = self.file_events@[i as int];
                    assert(self.file_events@ =~= old(self).file_events@.update(
                        i as int,
                        nf,
                    ));
                    assert forall|f2: FileId| true implies #[trigger] assoc_find(
                        final(self).file_events@,
                        file_key(),
                        f2,
                    ) == (if f2 == file {
                        Some(nf)
                    } else {
                        assoc_find(old(self).file_events@, file_key(), f2)
                    }) by {
                        lemma_assoc_find_update(old(self).file_events@, file_key(), i as int, nf, f2);
                    }
                    assert(old(self).file_events@[i as int].file_id == file);
                    assert(self.file_events@[i as int].list@ == old(self).file_events@[i as int].list@.push(two));
                }
            },
            None => {
                proof {
                    lemma_assoc_find_none_keys(old(self).file_events@, file_key(), file);
                }
                let mut list: Vec<TransactionWalOffset> = Vec::new();
                list.push(two);
                let nf = FileEventList { file_id: file, list };
                self.file_events.push(nf);
                proof {
                    assert forall|f2: FileId| true implies #[trigger] assoc_find(
                        final(self).file_events@,
                        file_key(),
                        f2,
                    ) == (if f2 == file {
                        Some(final(self).file_events@.last())
                    } else {
                        assoc_find(old(self).file_events@, file_key(), f2)
                    }) by {
                        lemma_assoc_find_push(
                            old(self).file_events@,
                            file_key(),
                            final(self).file_events@.last(),
                            f2,
                        );
                        if assoc_find(old(self).file_events@, file_key(), f2) is Some {
                            lemma_assoc_find_has_key(old(self).file_events@, file_key(), f2);
                        }
                    }
                    assert(self.spec_file_list(file) =~= old(self).spec_file_list(
                        file,
                    ).push(two));
                    assert(self.file_events@.last().file_id == file);
                    assert(self.file_events@.last().list@ =~= seq![two]);
                    assert(forall|i2: int|
                        0 <= i2 < old(self).file_events@.len() ==> self.file_events@[i2] == old(self).file_events@[i2]);
                }
            },
        }
    }
}


impl TransactionManager {
    /// Records a log offset in its transaction's own event list.
    fn add_event_to_transaction_list(&mut self, txn: TransactionId, wal_offset: u64)
        requires
            old(self).is_registered(txn),
            forall|i: int, j: int|
                0 <= i < j < old(self).transactions@.len() ==> (
                #[trigger] old(self).transactions@[i]).transaction_id != (
                #[trigger] old(self).transactions@[j]).transaction_id,
        ensures
            final(self).spec_txn(txn) is Some,
            final(self).spec_txn(txn)->Some_0.transaction_id == txn,
            final(self).spec_txn(txn)->Some_0.snapshot == old(self).spec_txn(txn)->Some_0.snapshot,
            final(self).spec_txn(txn)->Some_0.committed == old(self).spec_txn(txn)->Some_0.committed,
            final(self).spec_txn(txn)->Some_0.offsets@ == old(self).spec_txn(
                txn,
            )->Some_0.offsets@.push(wal_offset),
            forall|t2: TransactionId| t2 != txn ==> final(self).spec_txn(t2) == old(self).spec_txn(t2),
            final(self).transactions@.len() == old(self).transactions@.len(),
            exists|i: int|
                0 <= i < old(self).transactions@.len() && (#[trigger] old(self).transactions@[i]).transaction_id == txn && (forall|i2: int|
                    0 <= i2 < old(self).transactions@.len() && i2 != i ==> final(self).transactions@[i2] == old(self).transactions@[i2]) && final(self).transactions@[i] == final(self).spec_txn(txn)->Some_0,
            final(self).wal == old(self).wal,
            final(self).disk == old(self).disk,
            final(self).page_events == old(self).page_events,
            final(self).file_events == old(self).file_events,
            final(self).transaction == old(self).transaction,
            final(self).file == old(self).file,
    {
        let i = match self.txn_index(txn) {
            Some(i) => i,
            None => {
                proof {
                    assert(false);
                }
                return;
            },
        };
        self.push_txn_offset_at(i, wal_offset);
        proof {
            let nf = self.transactions@[i as int];
            assert(self.transactions@ =~= old(self).transactions@.update(i as int, nf));
            assert forall|t2: TransactionId| true implies #[trigger] assoc_find(
                self.transactions@,
                txn_key(),
                t2,
            ) == (if t2 == txn {
                Some(nf)
            } else {
                assoc_find(old(self).transactions@, txn_key(), t2)
            }) by {
                lemma_assoc_find_update(old(self).transactions@, txn_key(), i as int, nf, t2);
            }
            assert(old(self).transactions@[i as int].transaction_id == txn);
        }
    }

    /// Marks a transaction's entry committed.
    fn mark_transaction_committed(&mut self, txn: TransactionId)
        requires
            old(self).is_registered(txn),
            forall|i: int, j: int|
                0 <= i < j < old(self).transactions@.len() ==> (
                #[trigger] old(self).transactions@[i]).transaction_id != (
                #[trigger] old(self).transactions@[j]).transaction_id,
        ensures
            final(self).spec_txn(txn) is Some,
            final(self).spec_txn(txn)->Some_0.transaction_id == txn,
            final(self).spec_txn(txn)->Some_0.snapshot == old(self).spec_txn(txn)->Some_0.snapshot,
            final(self).spec_txn(txn)->Some_0.committed == true,
            final(self).spec_txn(txn)->Some_0.offsets == old(self).spec_txn(txn)->Some_0.offsets,
            forall|t2: TransactionId| t2 != txn ==> final(self).spec_txn(t2) == old(self).spec_txn(t2),
            final(self).transactions@.len() == old(self).transactions@.len(),
            exists|i: int|
                0 <= i < old(self).transactions@.len() && (#[trigger] old(self).transactions@[i]).transaction_id == txn && (forall|i2: int|
                    0 <= i2 < old(self).transactions@.len() && i2 != i ==> final(self).transactions@[i2] == old(self).transactions@[i2]) && final(self).transactions@[i] == final(self).spec_txn(txn)->Some_0,
            final(self).wal == old(self).wal,
            final(self).disk == old(self).disk,
            final(self).page_events == old(self).page_events,
            final(self).file_events == old(self).file_events,
            final(self).transaction == old(self).transaction,
            final(self).file == old(self).file,
    {
        let i = match self.txn_index(txn) {
            Some(i) => i,
            None => {
                proof {
                    assert(false);
                }
                return;
            },
        };
        self.set_txn_committed(i);
        proof {
            let nf = self.transactions@[i as int];
            assert(self.transactions@ =~= old(self).transactions@.update(i as int, nf));
            assert forall|t2: TransactionId| true implies #[trigger] assoc_find(
                self.transactions@,
                txn_key(),
                t2,
            ) == (if t2 == txn {
                Some(nf)
            } else {
                assoc_find(old(self).transactions@, txn_key(), t2)
            }) by {
                lemma_assoc_find_update(old(self).transactions@, txn_key(), i as int, nf, t2);
            }
            assert(old(self).transactions@[i as int].transaction_id == txn);
        }
    }
}


impl TransactionManager {
    /// Begin a transaction: allocates the next id and registers an empty
    /// entry whose snapshot is exactly the set of currently committed
    /// transactions. Fails only on counter exhaustion.
    pub fn begin_transaction(&mut self) -> (r: Result<TransactionId, DbError>)
        requires
            old(self).inv(),
        ensures
            final(self).inv(),
            old(self).transaction == u64::MAX ==> r == Err::<TransactionId, DbError>(
                DbError::CounterExhausted,
            ) && *final(self) == *old(self),
            old(self).transaction < u64::MAX ==> {
                let t = (old(self).transaction + 1) as u64;
                &&& r == Ok::<TransactionId, DbError>(t)
                &&& final(self).transaction == t
                &&& !old(self).is_registered(t)
                &&& final(self).spec_txn(t) is Some
                &&& final(self).spec_txn(t)->Some_0.transaction_id == t
                &&& final(self).spec_txn(t)->Some_0.committed == false
                &&& final(self).spec_txn(t)->Some_0.offsets@ == Seq::<u64>::empty()
                &&& forall|a: TransactionId|
                    final(self).spec_txn(t)->Some_0.snapshot@.contains(a) <==> old(self).is_committed(a)
                &&& forall|t2: TransactionId|
                    t2 != t ==> final(self).spec_txn(t2) == old(self).spec_txn(t2)
                &&& final(self).wal == old(self).wal
                &&& final(self).disk == old(self).disk
                &&& final(self).page_events == old(self).page_events
                &&& final(self).file_events == old(self).file_events
                &&& final(self).file == old(self).file
            },
    {
        if self.transaction == u64::MAX {
            return Err(DbError::CounterExhausted);
        }
        let t = self.transaction + 1;
        let n = self.transactions.len();
        let mut snapshot: Vec<TransactionId> = Vec::new();
        let mut i: usize = 0;
        while i < n
            invariant
                self.inv(),
                i <= n == self.transactions@.len(),
                forall|x: int|
                    0 <= x < snapshot@.len() ==> self.is_committed(#[trigger] snapshot@[x]),
                forall|j: int|
                    0 <= j < i && (#[trigger] self.transactions@[j]).committed ==> snapshot@.contains(
                        self.transactions@[j].transaction_id,
                    ),
            decreases n - i,
        {
            if self.transactions[i].committed {
                let ghost prev = snapshot@;
                snapshot.push(self.transactions[i].transaction_id);
                proof {
                    assert(forall|j: int|
                        0 <= j < i ==> txn_key()(#[trigger] self.transactions@[j]) != txn_key()(
                            self.transactions@[i as int],
                        ));
                    lemma_assoc_find_at(self.transactions@, txn_key(), i as int);
                    assert forall|j: int|
                        0 <= j < i + 1 && (#[trigger] self.transactions@[j]).committed implies snapshot@.contains(
                        self.transactions@[j].transaction_id,
                    ) by {
                        if j < i {
                            lemma_push_contains(
                                prev,
                                self.transactions@[i as int].transaction_id,
                                self.transactions@[j].transaction_id,
                            );
                        } else {
                            assert(snapshot@.last() == self.transactions@[i as int].transaction_id);
                        }
                    }
                }
            }
            i = i + 1;
        }
        let entry = TransactionEntry { transaction_id: t, offsets: Vec::new(), snapshot, committed: false };
        proof {
            assert(forall|j: int|
                0 <= j < self.transactions@.len() ==> txn_key()(
                    #[trigger] self.transactions@[j],
                ) != t);
            lemma_assoc_find_absent(self.transactions@, txn_key(), t);
        }
        self.transactions.push(entry);
        self.transaction = t;
        proof {
            let m0 = *old(self);
            assert forall|t2: TransactionId| true implies #[trigger] assoc_find(
                self.transactions@,
                txn_key(),
                t2,
            ) == (if t2 == t {
                Some(self.transactions@.last())
            } else {
                assoc_find(m0.transactions@, txn_key(), t2)
            }) by {
                lemma_assoc_find_push(m0.transactions@, txn_key(), self.transactions@.last(), t2);
                if assoc_find(m0.transactions@, txn_key(), t2) is Some {
                    lemma_assoc_find_has_key(m0.transactions@, txn_key(), t2);
                }
            }
            assert forall|a: TransactionId|
                self.spec_txn(t)->Some_0.snapshot@.contains(a) <==> m0.is_committed(a) by {
                if m0.is_committed(a) {
                    lemma_assoc_find_has_key(m0.transactions@, txn_key(), a);
                }
            }
            assert forall|i2: int| 0 <= i2 < self.transactions@.len() implies self.txn_entry_ok(
                #[trigger] self.transactions@[i2],
            ) by {
                if i2 < m0.transactions@.len() {
                    assert(m0.txn_entry_ok(m0.transactions@[i2]));
                    assert(self.transactions@[i2] == m0.transactions@[i2]);
                }
            }
            assert forall|i2: int, j: int|
                0 <= i2 < self.page_events@.len() && 0 <= j
                    < self.page_events@[i2].list@.len() implies self.page_entry_ok(
                self.page_events@[i2].key,
                #[trigger] self.page_events@[i2].list@[j],
            ) by {
                assert(m0.page_entry_ok(m0.page_events@[i2].key, m0.page_events@[i2].list@[j]));
            }
            assert forall|i2: int, j: int|
                0 <= i2 < self.file_events@.len() && 0 <= j
                    < self.file_events@[i2].list@.len() implies self.file_entry_ok(
                self.file_events@[i2].file_id,
                #[trigger] self.file_events@[i2].list@[j],
            ) by {
                assert(m0.file_entry_ok(m0.file_events@[i2].file_id, m0.file_events@[i2].list@[j]));
            }
        }
        Ok(t)
    }

    /// Commit a transaction: durably logs the commit record, then marks the
    /// entry committed so that transactions begun from now on see its
    /// events. The entry itself stays until checkpointing has applied all
    /// of its records.
    pub fn commit_transaction(&mut self, txn: TransactionId) -> (r: Result<(), DbError>)
        requires
            old(self).inv(),
            old(self).is_open(txn),
            old(self).wal.bytes().len() + COMMIT_TRANSACTION_LEN <= usize::MAX,
        ensures
            final(self).inv(),
            r == Ok::<(), DbError>(()),
            final(self).wal.events() == old(self).wal.events().push(
                WalEventModel::CommitTransactionEvent { transaction_id: txn },
            ),
            final(self).is_committed(txn),
            final(self).spec_txn(txn)->Some_0.snapshot == old(self).spec_txn(txn)->Some_0.snapshot,
            final(self).spec_txn(txn)->Some_0.offsets == old(self).spec_txn(txn)->Some_0.offsets,
            forall|t2: TransactionId| t2 != txn ==> final(self).spec_txn(t2) == old(self).spec_txn(t2),
            final(self).disk == old(self).disk,
            final(self).page_events == old(self).page_events,
            final(self).file_events == old(self).file_events,
            final(self).transaction == old(self).transaction,
            final(self).file == old(self).file,
    {
        let ghost m0 = *old(self);
        match self.wal.commit_transaction(txn) {
            Ok(_) => {},
            Err(_) => {
                proof {
                    assert(false);
                }
                return Ok(());
            },
        }
        let ghost m1 = *self;
        proof {
            lemma_wal_append_effect(
                m0.wal,
                m1.wal,
                WalEventModel::CommitTransactionEvent { transaction_id: txn },
            );
        }
        self.mark_transaction_committed(txn);
        proof {
            assert forall|i2: int| 0 <= i2 < self.transactions@.len() implies self.txn_entry_ok(
                #[trigger] self.transactions@[i2],
            ) by {
                let i0 = choose|i0: int|
                    0 <= i0 < m1.transactions@.len() && (#[trigger] m1.transactions@[i0]).transaction_id
                        == txn && (forall|i3: int|
                        0 <= i3 < m1.transactions@.len() && i3 != i0 ==> self.transactions@[i3]
                            == m1.transactions@[i3]) && self.transactions@[i0] == self.spec_txn(
                        txn,
                    )->Some_0;
                assert(m0.txn_entry_ok(m0.transactions@[i2]));
                let e2 = self.transactions@[i2];
                if i2 == i0 {
                    assert(forall|j: int|
                        0 <= j < i0 ==> txn_key()(#[trigger] m0.transactions@[j]) != txn_key()(
                            m0.transactions@[i0],
                        ));
                    lemma_assoc_find_at(m0.transactions@, txn_key(), i0);
                    assert(m0.spec_txn(txn)->Some_0 == m0.transactions@[i0]);
                    assert(e2.offsets == m0.transactions@[i2].offsets);
                    assert(e2.transaction_id == m0.transactions@[i2].transaction_id);
                } else {
                    assert(e2 == m0.transactions@[i2]);
                }
                assert forall|j: int| 0 <= j < e2.offsets@.len() implies self.offset_decodes(
                    #[trigger] e2.offsets@[j],
                ) && crate::wal::event_transaction_id(self.event_at(e2.offsets@[j]))
                    == e2.transaction_id && match crate::wal::event_file_id(
                    self.event_at(e2.offsets@[j]),
                ) {
                    Some(f) => f <= self.file,
                    None => true,
                } by {
                    assert(m0.offset_decodes(m0.transactions@[i2].offsets@[j]));
                    assert(e2.offsets@[j] == m0.transactions@[i2].offsets@[j]);
                }
                assert(forall|j1: int, j2: int|
                    0 <= j1 < j2 < e2.offsets@.len() ==> #[trigger] e2.offsets@[j1]
                        < #[trigger] e2.offsets@[j2]);
            }
            assert forall|i2: int, j: int|
                0 <= i2 < self.page_events@.len() && 0 <= j
                    < self.page_events@[i2].list@.len() implies self.page_entry_ok(
                self.page_events@[i2].key,
                #[trigger] self.page_events@[i2].list@[j],
            ) by {
                let o = self.page_events@[i2].list@[j];
                assert(m0.page_entry_ok(m0.page_events@[i2].key, m0.page_events@[i2].list@[j]));
                if o.transaction_id == txn {
                    assert(self.spec_txn(txn)->Some_0.offsets == m0.spec_txn(txn)->Some_0.offsets);
                } else {
                    assert(self.spec_txn(o.transaction_id) == m0.spec_txn(o.transaction_id));
                }
            }
            assert forall|i2: int, j: int|
                0 <= i2 < self.file_events@.len() && 0 <= j
                    < self.file_events@[i2].list@.len() implies self.file_entry_ok(
                self.file_events@[i2].file_id,
                #[trigger] self.file_events@[i2].list@[j],
            ) by {
                let o = self.file_events@[i2].list@[j];
                assert(m0.file_entry_ok(m0.file_events@[i2].file_id, m0.file_events@[i2].list@[j]));
                if o.transaction_id == txn {
                    assert(self.spec_txn(txn)->Some_0.offsets == m0.spec_txn(txn)->Some_0.offsets);
                } else {
                    assert(self.spec_txn(o.transaction_id) == m0.spec_txn(o.transaction_id));
                }
            }
        }
        Ok(())
    }

    /// In the context of `txn`, write a page to `file` at `offset` (a page
    /// index, not a byte address). The current visible image — resolved
    /// exactly as a read would, so a second write within one transaction
    /// chains through the first — becomes the undo image; the record is
    /// durably appended to the log and indexed before the call returns. The
    /// data file itself is never touched here: only checkpointing mutates
    /// it.
    pub fn write_page(&mut self, txn: TransactionId, file: FileId, offset: PageId, new_page: &Page)
        -> (r: Result<(), DbError>)
        requires
            old(self).inv(),
            new_page.wf(),
            old(self).is_open(txn),
            old(self).wal.bytes().len() + MODIFY_PAGE_LEN <= usize::MAX,
        ensures
            final(self).inv(),
            !old(self).spec_file_visible(txn, file) ==> r == Err::<(), DbError>(
                DbError::InvalidFile,
            ) && *final(self) == *old(self),
            old(self).spec_file_visible(txn, file) && !old(self).spec_page_visible(
                txn,
                file,
                offset,
            ) ==> r == Err::<(), DbError>(DbError::InvalidAddress) && *final(self) == *old(self),
            old(self).spec_page_visible(txn, file, offset) ==> r == Ok::<(), DbError>(())
                && spec_wrote(*old(self), *final(self), txn, file, offset, new_page@),
    {
        let old_page = match self.read_page(txn, file, offset) {
            Ok(p) => p,
            Err(e) => {
                return Err(e);
            },
        };
        let ghost m0 = *old(self);
        let ghost ev = WalEventModel::ModifyPageEvent {
            transaction_id: txn,
            file_id: file,
            page_id: offset,
            undo: m0.spec_resolve_page(txn, file, offset),
            redo: new_page@,
        };
        let wal_offset = match self.wal.modify_page(txn, file, offset, &old_page, new_page) {
            Ok(o) => o,
            Err(_) => {
                proof {
                    assert(false);
                }
                return Err(DbError::IoFailure);
            },
        };
        let ghost m1 = *self;
        proof {
            lemma_wal_append_effect(m0.wal, m1.wal, ev);
            m0.lemma_visible_file_bound(txn, file);
        }
        self.add_page_event(txn, file, offset, wal_offset);
        let ghost m2 = *self;
        self.add_event_to_transaction_list(txn, wal_offset);
        proof {
            let k = PageOffset { file_id: file, page_id: offset };
            let two = TransactionWalOffset { transaction_id: txn, wal_offset };
            // every transaction entry is still sound, and the writer's list
            // gained exactly the new, strictly larger offset
            assert forall|i2: int| 0 <= i2 < self.transactions@.len() implies self.txn_entry_ok(
                #[trigger] self.transactions@[i2],
            ) by {
                let i0 = choose|i0: int|
                    0 <= i0 < m2.transactions@.len() && (#[trigger] m2.transactions@[i0]).transaction_id
                        == txn && (forall|i3: int|
                        0 <= i3 < m2.transactions@.len() && i3 != i0 ==> self.transactions@[i3]
                            == m2.transactions@[i3]) && self.transactions@[i0] == self.spec_txn(
                        txn,
                    )->Some_0;
                assert(m0.txn_entry_ok(m0.transactions@[i2]));
                let e2 = self.transactions@[i2];
                if i2 == i0 {
                    let eold = m0.transactions@[i2];
                    assert(forall|j: int|
                        0 <= j < i0 ==> txn_key()(#[trigger] m0.transactions@[j]) != txn_key()(
                            m0.transactions@[i0],
                        ));
                    lemma_assoc_find_at(m0.transactions@, txn_key(), i0);
                    assert(m0.spec_txn(txn)->Some_0 == eold);
                    assert(e2.offsets@ == eold.offsets@.push(wal_offset));
                    assert forall|j: int| 0 <= j < e2.offsets@.len() implies self.offset_decodes(
                        #[trigger] e2.offsets@[j],
                    ) && crate::wal::event_transaction_id(self.event_at(e2.offsets@[j]))
                        == e2.transaction_id && match crate::wal::event_file_id(
                        self.event_at(e2.offsets@[j]),
                    ) {
                        Some(f) => f <= self.file,
                        None => true,
                    } by {
                        if j < eold.offsets@.len() {
                            assert(e2.offsets@[j] == eold.offsets@[j]);
                            assert(m0.offset_decodes(eold.offsets@[j]));
                        } else {
                            assert(e2.offsets@[j] == wal_offset);
                        }
                    }
                    assert forall|j1: int, j2: int|
                        0 <= j1 < j2 < e2.offsets@.len() implies #[trigger] e2.offsets@[j1]
                        < #[trigger] e2.offsets@[j2] by {
                        if j2 < eold.offsets@.len() {
                            assert(eold.offsets@[j1] < eold.offsets@[j2]);
                        } else {
                            assert(e2.offsets@[j2] == wal_offset);
                            assert(m0.offset_decodes(eold.offsets@[j1]));
                            assert(eold.offsets@[j1] + 2 <= m0.wal.bytes().len());
                        }
                    }
                } else {
                    assert(e2 == m0.transactions@[i2]);
                    assert forall|j: int| 0 <= j < e2.offsets@.len() implies self.offset_decodes(
                        #[trigger] e2.offsets@[j],
                    ) && crate::wal::event_transaction_id(self.event_at(e2.offsets@[j]))
                        == e2.transaction_id && match crate::wal::event_file_id(
                        self.event_at(e2.offsets@[j]),
                    ) {
                        Some(f) => f <= self.file,
                        None => true,
                    } by {
                        assert(m0.offset_decodes(e2.offsets@[j]));
                    }
                }
            }
            // every page index entry is still sound, the new one included
            assert forall|i2: int, j: int|
                0 <= i2 < self.page_events@.len() && 0 <= j
                    < self.page_events@[i2].list@.len() implies self.page_entry_ok(
                self.page_events@[i2].key,
                #[trigger] self.page_events@[i2].list@[j],
            ) by {
                let ke = self.page_events@[i2].key;
                let o = self.page_events@[i2].list@[j];
                let in_old = i2 < m0.page_events@.len() && j < m0.page_events@[i2].list@.len()
                    && m0.page_events@[i2] == self.page_events@[i2];
                if exists|i: int|
                    0 <= i < m0.page_events@.len() && (#[trigger] m0.page_events@[i]).key == k
                        && m2.page_events@.len() == m0.page_events@.len() && (forall|i3: int|
                        0 <= i3 < m0.page_events@.len() && i3 != i ==> m2.page_events@[i3]
                            == m0.page_events@[i3]) && m2.page_events@[i].key == k
                        && m2.page_events@[i].list@ == m0.page_events@[i].list@.push(two) {
                    let iu = choose|i: int|
                        0 <= i < m0.page_events@.len() && (#[trigger] m0.page_events@[i]).key == k
                            && m2.page_events@.len() == m0.page_events@.len() && (forall|i3: int|
                            0 <= i3 < m0.page_events@.len() && i3 != i ==> m2.page_events@[i3]
                                == m0.page_events@[i3]) && m2.page_events@[i].key == k
                            && m2.page_events@[i].list@ == m0.page_events@[i].list@.push(two);
                    if i2 == iu && j == m0.page_events@[iu].list@.len() {
                        assert(o == two);
                        assert(self.spec_txn(txn)->Some_0.offsets@.last() == wal_offset);
                    } else {
                        assert(m0.page_entry_ok(
                            m0.page_events@[i2].key,
                            m0.page_events@[i2].list@[j],
                        ));
                        assert(o == m0.page_events@[i2].list@[j]);
                        if o.transaction_id == txn {
                            let eold = m0.spec_txn(txn)->Some_0;
                            lemma_push_contains(eold.offsets@, wal_offset, o.wal_offset);
                        }
                    }
                } else {
                    if i2 == m0.page_events@.len() {
                        assert(self.page_events@[i2] == m2.page_events@.last());
                        assert(o == two);
                        assert(self.spec_txn(txn)->Some_0.offsets@.last() == wal_offset);
                    } else {
                        assert(m0.page_entry_ok(
                            m0.page_events@[i2].key,
                            m0.page_events@[i2].list@[j],
                        ));
                        assert(o == m0.page_events@[i2].list@[j]);
                        if o.transaction_id == txn {
                            let eold = m0.spec_txn(txn)->Some_0;
                            lemma_push_contains(eold.offsets@, wal_offset, o.wal_offset);
                        }
                    }
                }
            }
            // file index entries are untouched and still sound
            assert forall|i2: int, j: int|
                0 <= i2 < self.file_events@.len() && 0 <= j
                    < self.file_events@[i2].list@.len() implies self.file_entry_ok(
                self.file_events@[i2].file_id,
                #[trigger] self.file_events@[i2].list@[j],
            ) by {
                let o = self.file_events@[i2].list@[j];
                assert(m0.file_entry_ok(m0.file_events@[i2].file_id, m0.file_events@[i2].list@[j]));
                if o.transaction_id == txn {
                    let eold = m0.spec_txn(txn)->Some_0;
                    lemma_push_contains(eold.offsets@, wal_offset, o.wal_offset);
                }
            }
            // key bounds and uniqueness carry over to any fresh entry
            assert forall|i2: int| 0 <= i2 < self.page_events@.len() implies (
            #[trigger] self.page_events@[i2]).key.file_id <= self.file by {
                if i2 < m0.page_events@.len() && self.page_events@[i2] == m0.page_events@[i2] {
                } else {
                    assert(self.page_events@[i2].key == k);
                }
            }
            let off0 = m0.wal.bytes().len() as u64;
            assert(wal_offset == off0);
            assert(self.wal.events() == m0.wal.events().push(ev));
            assert forall|k2: PageOffset| true implies #[trigger] self.spec_page_list(k2) == (if k2
                == k {
                m0.spec_page_list(k).push(two)
            } else {
                m0.spec_page_list(k2)
            }) by {
                assert(m1.page_events@ == m0.page_events@);
                assert(m1.spec_page_list(k2) == m0.spec_page_list(k2));
                assert(self.page_events@ == m2.page_events@);
                assert(self.spec_page_list(k2) == m2.spec_page_list(k2));
            }
            assert forall|f2: FileId| true implies #[trigger] self.spec_file_list(f2)
                == m0.spec_file_list(f2) by {
                assert(self.file_events@ == m0.file_events@);
            }
            assert forall|t2: TransactionId| t2 != txn implies #[trigger] self.spec_txn(t2)
                == m0.spec_txn(t2) by {
                assert(m2.transactions@ == m0.transactions@);
                assert(m2.spec_txn(t2) == m0.spec_txn(t2));
            }
            assert(m2.transactions@ == m0.transactions@);
            assert(m2.spec_txn(txn) == m0.spec_txn(txn));
            assert(self.spec_txn(txn)->Some_0.offsets@ == m0.spec_txn(txn)->Some_0.offsets@.push(
                off0,
            ));
            assert(spec_wrote(m0, *self, txn, file, offset, new_page@));
        }
        Ok(())
    }
}


impl TransactionManager {
    /// Appends one file-level record (create, delete or extent change) to
    /// the log and indexes it under its file and its transaction.
    fn log_file_event(&mut self, txn: TransactionId, file: FileId, e: &WalEvent) -> (off: u64)
        requires
            old(self).inv(),
            old(self).is_open(txn),
            e.wf(),
            match e@ {
                WalEventModel::CreateFileEvent { transaction_id, file_id } => transaction_id == txn
                    && file_id == file,
                WalEventModel::DeleteFileEvent { transaction_id, file_id } => transaction_id == txn
                    && file_id == file,
                WalEventModel::ExtendFileEvent { transaction_id, file_id, .. } => transaction_id
                    == txn && file_id == file,
                _ => false,
            },
            old(self).wal.bytes().len() + crate::wal::spec_encode(e@).len() <= usize::MAX,
            file <= old(self).file,
        ensures
            final(self).inv(),
            off == old(self).wal.bytes().len() as u64,
            final(self).wal.clean(),
            final(self).wal.events() == old(self).wal.events().push(e@),
            final(self).spec_file_list(file) == old(self).spec_file_list(file).push(
                TransactionWalOffset { transaction_id: txn, wal_offset: off },
            ),
            forall|f2: FileId|
                f2 != file ==> final(self).spec_file_list(f2) == old(self).spec_file_list(f2),
            forall|k2: PageOffset| #[trigger]
                final(self).spec_page_list(k2) == old(self).spec_page_list(k2),
            forall|t2: TransactionId| t2 != txn ==> final(self).spec_txn(t2) == old(self).spec_txn(t2),
            final(self).spec_txn(txn) is Some,
            final(self).spec_txn(txn)->Some_0.transaction_id == txn,
            final(self).spec_txn(txn)->Some_0.snapshot == old(self).spec_txn(txn)->Some_0.snapshot,
            final(self).spec_txn(txn)->Some_0.committed == old(self).spec_txn(txn)->Some_0.committed,
            final(self).spec_txn(txn)->Some_0.offsets@ == old(self).spec_txn(
                txn,
            )->Some_0.offsets@.push(off),
            final(self).disk == old(self).disk,
            final(self).page_events == old(self).page_events,
            final(self).transaction == old(self).transaction,
            final(self).file == old(self).file,
    {
        let ghost m0 = *old(self);
        proof {
            crate::wal::lemma_encode_len(e@);
        }
        let wal_offset = self.wal.append_event(e);
        let ghost m1 = *self;
        proof {
            lemma_wal_append_effect(m0.wal, m1.wal, e@);
        }
        self.add_file_event(txn, file, wal_offset);
        let ghost m2 = *self;
        self.add_event_to_transaction_list(txn, wal_offset);
        proof {
            let two = TransactionWalOffset { transaction_id: txn, wal_offset };
            assert forall|i2: int| 0 <= i2 < self.transactions@.len() implies self.txn_entry_ok(
                #[trigger] self.transactions@[i2],
            ) by {
                let i0 = choose|i0: int|
                    0 <= i0 < m2.transactions@.len() && (#[trigger] m2.transactions@[i0]).transaction_id
                        == txn && (forall|i3: int|
                        0 <= i3 < m2.transactions@.len() && i3 != i0 ==> self.transactions@[i3]
                            == m2.transactions@[i3]) && self.transactions@[i0] == self.spec_txn(
                        txn,
                    )->Some_0;
                assert(m0.txn_entry_ok(m0.transactions@[i2]));
                let e2 = self.transactions@[i2];
                if i2 == i0 {
                    let eold = m0.transactions@[i2];
                    assert(forall|j: int|
                        0 <= j < i0 ==> txn_key()(#[trigger] m0.transactions@[j]) != txn_key()(
                            m0.transactions@[i0],
                        ));
                    lemma_assoc_find_at(m0.transactions@, txn_key(), i0);
                    assert(m0.spec_txn(txn)->Some_0 == eold);
                    assert(e2.offsets@ == eold.offsets@.push(wal_offset));
                    assert forall|j: int| 0 <= j < e2.offsets@.len() implies self.offset_decodes(
                        #[trigger] e2.offsets@[j],
                    ) && crate::wal::event_transaction_id(self.event_at(e2.offsets@[j]))
                        == e2.transaction_id && match crate::wal::event_file_id(
                        self.event_at(e2.offsets@[j]),
                    ) {
                        Some(f) => f <= self.file,
                        None => true,
                    } by {
                        if j < eold.offsets@.len() {
                            assert(e2.offsets@[j] == eold.offsets@[j]);
                            assert(m0.offset_decodes(eold.offsets@[j]));
                        } else {
                            assert(e2.offsets@[j] == wal_offset);
                        }
                    }
                    assert forall|j1: int, j2: int|
                        0 <= j1 < j2 < e2.offsets@.len() implies #[trigger] e2.offsets@[j1]
                        < #[trigger] e2.offsets@[j2] by {
                        if j2 < eold.offsets@.len() {
                            assert(eold.offsets@[j1] < eold.offsets@[j2]);
                        } else {
                            assert(e2.offsets@[j2] == wal_offset);
                            assert(m0.offset_decodes(eold.offsets@[j1]));
                            assert(eold.offsets@[j1] + 2 <= m0.wal.bytes().len());
                        }
                    }
                } else {
                    assert(e2 == m0.transactions@[i2]);
                    assert forall|j: int| 0 <= j < e2.offsets@.len() implies self.offset_decodes(
                        #[trigger] e2.offsets@[j],
                    ) && crate::wal::event_transaction_id(self.event_at(e2.offsets@[j]))
                        == e2.transaction_id && match crate::wal::event_file_id(
                        self.event_at(e2.offsets@[j]),
                    ) {
                        Some(f) => f <= self.file,
                        None => true,
                    } by {
                        assert(m0.offset_decodes(e2.offsets@[j]));
                    }
                }
            }
            assert forall|i2: int, j: int|
                0 <= i2 < self.file_events@.len() && 0 <= j
                    < self.file_events@[i2].list@.len() implies self.file_entry_ok(
                self.file_events@[i2].file_id,
                #[trigger] self.file_events@[i2].list@[j],
            ) by {
                let o = self.file_events@[i2].list@[j];
                if exists|i: int|
                    0 <= i < m0.file_events@.len() && (#[trigger] m0.file_events@[i]).file_id
                        == file && m2.file_events@.len() == m0.file_events@.len() && (forall|
                        i3: int,
                    |
                        0 <= i3 < m0.file_events@.len() && i3 != i ==> m2.file_events@[i3]
                            == m0.file_events@[i3]) && m2.file_events@[i].file_id == file
                        && m2.file_events@[i].list@ == m0.file_events@[i].list@.push(two) {
                    let iu = choose|i: int|
                        0 <= i < m0.file_events@.len() && (#[trigger] m0.file_events@[i]).file_id
                            == file && m2.file_events@.len() == m0.file_events@.len() && (forall|
                            i3: int,
                        |
                            0 <= i3 < m0.file_events@.len() && i3 != i ==> m2.file_events@[i3]
                                == m0.file_events@[i3]) && m2.file_events@[i].file_id == file
                            && m2.file_events@[i].list@ == m0.file_events@[i].list@.push(two);
                    if i2 == iu && j == m0.file_events@[iu].list@.len() {
                        assert(o == two);
                        assert(self.spec_txn(txn)->Some_0.offsets@.last() == wal_offset);
                    } else {
                        assert(m0.file_entry_ok(
                            m0.file_events@[i2].file_id,
                            m0.file_events@[i2].list@[j],
                        ));
                        assert(o == m0.file_events@[i2].list@[j]);
                        if o.transaction_id == txn {
                            let eold = m0.spec_txn(txn)->Some_0;
                            lemma_push_contains(eold.offsets@, wal_offset, o.wal_offset);
                        }
                    }
                } else {
                    if i2 == m0.file_events@.len() {
                        assert(self.file_events@[i2] == m2.file_events@.last());
                        assert(o == two);
                        assert(self.spec_txn(txn)->Some_0.offsets@.last() == wal_offset);
                    } else {
                        assert(m0.file_entry_ok(
                            m0.file_events@[i2].file_id,
                            m0.file_events@[i2].list@[j],
                        ));
                        assert(o == m0.file_events@[i2].list@[j]);
                        if o.transaction_id == txn {
                            let eold = m0.spec_txn(txn)->Some_0;
                            lemma_push_contains(eold.offsets@, wal_offset, o.wal_offset);
                        }
                    }
                }
            }
            assert forall|i2: int, j: int|
                0 <= i2 < self.page_events@.len() && 0 <= j
                    < self.page_events@[i2].list@.len() implies self.page_entry_ok(
                self.page_events@[i2].key,
                #[trigger] self.page_events@[i2].list@[j],
            ) by {
                let o = self.page_events@[i2].list@[j];
                assert(m0.page_entry_ok(m0.page_events@[i2].key, m0.page_events@[i2].list@[j]));
                if o.transaction_id == txn {
                    let eold = m0.spec_txn(txn)->Some_0;
                    lemma_push_contains(eold.offsets@, wal_offset, o.wal_offset);
                }
            }
            assert forall|i2: int| 0 <= i2 < self.file_events@.len() implies (
            #[trigger] self.file_events@[i2]).file_id <= self.file by {
                if i2 < m0.file_events@.len() && self.file_events@[i2] == m0.file_events@[i2] {
                } else {
                    assert(self.file_events@[i2].file_id == file);
                }
            }
            assert forall|k2: PageOffset| true implies #[trigger] self.spec_page_list(k2)
                == m0.spec_page_list(k2) by {
                assert(self.page_events@ == m0.page_events@);
            }
            assert forall|f2: FileId| f2 != file implies #[trigger] self.spec_file_list(f2)
                == m0.spec_file_list(f2) by {
                assert(m1.file_events@ == m0.file_events@);
                assert(m1.spec_file_list(f2) == m0.spec_file_list(f2));
                assert(self.file_events@ == m2.file_events@);
                assert(self.spec_file_list(f2) == m2.spec_file_list(f2));
            }
            assert(m1.spec_file_list(file) == m0.spec_file_list(file)) by {
                assert(m1.file_events@ == m0.file_events@);
            }
            assert(self.spec_file_list(file) == m2.spec_file_list(file)) by {
                assert(self.file_events@ == m2.file_events@);
            }
            assert(m2.spec_txn(txn) == m0.spec_txn(txn)) by {
                assert(m2.transactions@ == m0.transactions@);
            }
        }
        wal_offset
    }
}


impl TransactionManager {
    /// Under an id the counter has never issued, nothing is indexed and
    /// nothing is on disk.
    proof fn lemma_fresh_file(self, fid: FileId)
        requires
            self.inv(),
            fid > self.file,
        ensures
            self.spec_file_list(fid) == Seq::<TransactionWalOffset>::empty(),
            !self.disk@.dom().contains(fid),
    {
        assert(forall|j: int|
            0 <= j < self.file_events@.len() ==> file_key()(#[trigger] self.file_events@[j]) != fid);
        lemma_assoc_find_absent(self.file_events@, file_key(), fid);
    }

    /// In the context of `txn`, create a new empty file and return its id,
    /// allocated from the file counter and never reused. The creation is
    /// durably logged; the file itself comes into being at checkpoint time.
    /// Fails only on counter exhaustion.
    pub fn create_file(&mut self, txn: TransactionId) -> (r: Result<FileId, DbError>)
        requires
            old(self).inv(),
            old(self).is_open(txn),
            old(self).wal.bytes().len() + CREATE_FILE_LEN <= usize::MAX,
        ensures
            final(self).inv(),
            old(self).file == u64::MAX ==> r == Err::<FileId, DbError>(DbError::CounterExhausted)
                && *final(self) == *old(self),
            old(self).file < u64::MAX ==> {
                let fid = (old(self).file + 1) as u64;
                let off = old(self).wal.bytes().len() as u64;
                &&& r == Ok::<FileId, DbError>(fid)
                &&& final(self).file == fid
                &&& final(self).wal.events() == old(self).wal.events().push(
                    WalEventModel::CreateFileEvent { transaction_id: txn, file_id: fid },
                )
                &&& final(self).spec_file_list(fid) == seq![
                    TransactionWalOffset { transaction_id: txn, wal_offset: off },
                ]
                &&& forall|f2: FileId|
                    f2 != fid ==> final(self).spec_file_list(f2) == old(self).spec_file_list(f2)
                &&& forall|k2: PageOffset| #[trigger]
                    final(self).spec_page_list(k2) == old(self).spec_page_list(k2)
                &&& forall|t2: TransactionId|
                    t2 != txn ==> final(self).spec_txn(t2) == old(self).spec_txn(t2)
                &&& final(self).spec_txn(txn) is Some
                &&& final(self).spec_txn(txn)->Some_0.snapshot == old(self).spec_txn(
                    txn,
                )->Some_0.snapshot
                &&& final(self).spec_txn(txn)->Some_0.committed == old(self).spec_txn(
                    txn,
                )->Some_0.committed
                &&& final(self).spec_txn(txn)->Some_0.offsets@ == old(self).spec_txn(
                    txn,
                )->Some_0.offsets@.push(off)
                &&& final(self).disk == old(self).disk
                &&& final(self).transaction == old(self).transaction
            },
    {
        if self.file == u64::MAX {
            return Err(DbError::CounterExhausted);
        }
        let fid = self.file + 1;
        proof {
            old(self).lemma_fresh_file(fid);
        }
        self.file = fid;
        let ghost mm = *self;
        proof {
            assert forall|i2: int, j: int|
                0 <= i2 < mm.page_events@.len() && 0 <= j
                    < mm.page_events@[i2].list@.len() implies mm.page_entry_ok(
                mm.page_events@[i2].key,
                #[trigger] mm.page_events@[i2].list@[j],
            ) by {
                assert(old(self).page_entry_ok(
                    old(self).page_events@[i2].key,
                    old(self).page_events@[i2].list@[j],
                ));
            }
            assert forall|i2: int, j: int|
                0 <= i2 < mm.file_events@.len() && 0 <= j
                    < mm.file_events@[i2].list@.len() implies mm.file_entry_ok(
                mm.file_events@[i2].file_id,
                #[trigger] mm.file_events@[i2].list@[j],
            ) by {
                assert(old(self).file_entry_ok(
                    old(self).file_events@[i2].file_id,
                    old(self).file_events@[i2].list@[j],
                ));
            }
            assert forall|i2: int| 0 <= i2 < mm.transactions@.len() implies mm.txn_entry_ok(
                #[trigger] mm.transactions@[i2],
            ) by {
                assert(old(self).txn_entry_ok(old(self).transactions@[i2]));
            }
            assert(mm.inv());
        }
        let e = WalEvent::CreateFileEvent { transaction_id: txn, file_id: fid };
        proof {
            crate::wal::lemma_encode_len(e@);
        }
        let off = self.log_file_event(txn, fid, &e);
        proof {
            assert(old(self).spec_file_list(fid) =~= Seq::<TransactionWalOffset>::empty());
            assert(self.spec_file_list(fid) =~= seq![
                TransactionWalOffset { transaction_id: txn, wal_offset: off },
            ]);
        }
        Ok(fid)
    }

    /// In the context of `txn`, durably log that `file` is to be deleted.
    /// Fails with `InvalidFile` when the file is not visible to `txn`.
    pub fn delete_file(&mut self, txn: TransactionId, file: FileId) -> (r: Result<(), DbError>)
        requires
            old(self).inv(),
            old(self).is_open(txn),
            old(self).wal.bytes().len() + DELETE_FILE_LEN <= usize::MAX,
        ensures
            final(self).inv(),
            !old(self).spec_file_visible(txn, file) ==> r == Err::<(), DbError>(
                DbError::InvalidFile,
            ) && *final(self) == *old(self),
            old(self).spec_file_visible(txn, file) ==> {
                let off = old(self).wal.bytes().len() as u64;
                &&& r == Ok::<(), DbError>(())
                &&& final(self).wal.events() == old(self).wal.events().push(
                    WalEventModel::DeleteFileEvent { transaction_id: txn, file_id: file },
                )
                &&& final(self).spec_file_list(file) == old(self).spec_file_list(file).push(
                    TransactionWalOffset { transaction_id: txn, wal_offset: off },
                )
                &&& forall|f2: FileId|
                    f2 != file ==> final(self).spec_file_list(f2) == old(self).spec_file_list(f2)
                &&& forall|k2: PageOffset| #[trigger]
                    final(self).spec_page_list(k2) == old(self).spec_page_list(k2)
                &&& forall|t2: TransactionId|
                    t2 != txn ==> final(self).spec_txn(t2) == old(self).spec_txn(t2)
                &&& final(self).spec_txn(txn) is Some
                &&& final(self).spec_txn(txn)->Some_0.transaction_id == txn
                &&& final(self).spec_txn(txn)->Some_0.snapshot == old(self).spec_txn(
                    txn,
                )->Some_0.snapshot
                &&& final(self).spec_txn(txn)->Some_0.committed == old(self).spec_txn(
                    txn,
                )->Some_0.committed
                &&& final(self).spec_txn(txn)->Some_0.offsets@ == old(self).spec_txn(
                    txn,
                )->Some_0.offsets@.push(off)
                &&& final(self).disk == old(self).disk
                &&& final(self).transaction == old(self).transaction
                &&& final(self).file == old(self).file
            },
    {
        match self.visible_file_state(txn, file) {
            None => Err(DbError::InvalidFile),
            Some(_) => {
                proof {
                    old(self).lemma_visible_file_bound(txn, file);
                }
                let e = WalEvent::DeleteFileEvent { transaction_id: txn, file_id: file };
                proof {
                    crate::wal::lemma_encode_len(e@);
                }
                let _off = self.log_file_event(txn, file, &e);
                Ok(())
            },
        }
    }

    /// In the context of `txn`, durably log that the extent of `file` is to
    /// change by `extend_amt` pages (negative to shrink; the running extent
    /// is held within what a 64-bit page counter can express). Fails with
    /// `InvalidFile` when the file is not visible to `txn`.
    pub fn extend_file(&mut self, txn: TransactionId, file: FileId, extend_amt: i64) -> (r: Result<
        (),
        DbError,
    >)
        requires
            old(self).inv(),
            old(self).is_open(txn),
            old(self).wal.bytes().len() + EXTEND_FILE_LEN <= usize::MAX,
        ensures
            final(self).inv(),
            !old(self).spec_file_visible(txn, file) ==> r == Err::<(), DbError>(
                DbError::InvalidFile,
            ) && *final(self) == *old(self),
            old(self).spec_file_visible(txn, file) ==> {
                let off = old(self).wal.bytes().len() as u64;
                &&& r == Ok::<(), DbError>(())
                &&& final(self).wal.events() == old(self).wal.events().push(
                    WalEventModel::ExtendFileEvent { transaction_id: txn, file_id: file, extend_amt },
                )
                &&& final(self).spec_file_list(file) == old(self).spec_file_list(file).push(
                    TransactionWalOffset { transaction_id: txn, wal_offset: off },
                )
                &&& forall|f2: FileId|
                    f2 != file ==> final(self).spec_file_list(f2) == old(self).spec_file_list(f2)
                &&& forall|k2: PageOffset| #[trigger]
                    final(self).spec_page_list(k2) == old(self).spec_page_list(k2)
                &&& forall|t2: TransactionId|
                    t2 != txn ==> final(self).spec_txn(t2) == old(self).spec_txn(t2)
                &&& final(self).spec_txn(txn) is Some
                &&& final(self).spec_txn(txn)->Some_0.transaction_id == txn
                &&& final(self).spec_txn(txn)->Some_0.snapshot == old(self).spec_txn(
                    txn,
                )->Some_0.snapshot
                &&& final(self).spec_txn(txn)->Some_0.committed == old(self).spec_txn(
                    txn,
                )->Some_0.committed
                &&& final(self).spec_txn(txn)->Some_0.offsets@ == old(self).spec_txn(
                    txn,
                )->Some_0.offsets@.push(off)
                &&& final(self).disk == old(self).disk
                &&& final(self).transaction == old(self).transaction
                &&& final(self).file == old(self).file
            },
    {
        match self.visible_file_state(txn, file) {
            None => Err(DbError::InvalidFile),
            Some(_) => {
                proof {
                    old(self).lemma_visible_file_bound(txn, file);
                }
                let e = WalEvent::ExtendFileEvent { transaction_id: txn, file_id: file, extend_amt };
                proof {
                    crate::wal::lemma_encode_len(e@);
                }
                let _off = self.log_file_event(txn, file, &e);
                Ok(())
            },
        }
    }

    /// Constructs a manager over storage as found: the given data files and
    /// write-ahead log. The file counter is seeded from the largest file id
    /// present; the transaction counter starts at zero, as transaction ids
    /// are never persisted. `crash_recover` must run before any transaction
    /// is admitted; over a log with no torn tail the manager is ready as
    /// constructed.
    pub fn new(disk: Disk, wal: WalReference) -> (m: TransactionManager)
        requires
            disk.wf(),
        ensures
            m.wal == wal,
            m.disk == disk,
            m.page_events@ == Seq::<PageEventList>::empty(),
            m.file_events@ == Seq::<FileEventList>::empty(),
            m.transactions@ == Seq::<TransactionEntry>::empty(),
            m.transaction == 0,
            forall|f: u64| disk@.dom().contains(f) ==> f <= m.file,
            m.file != 0 ==> disk@.dom().contains(m.file),
            wal.clean() ==> m.inv(),
    {
        let ids = disk.file_ids();
        let mut file: u64 = 0;
        let n = ids.len();
        let mut i: usize = 0;
        while i < n
            invariant
                i <= n == ids@.len(),
                ids@.len() == disk.files@.len(),
                forall|j: int| 0 <= j < ids@.len() ==> ids@[j] == (#[trigger] disk.files@[j]).file_id,
                disk.wf(),
                forall|j: int| 0 <= j < i ==> #[trigger] ids@[j] <= file,
                file == 0 || exists|j: int| 0 <= j < i && #[trigger] ids@[j] == file,
            decreases n - i,
        {
            if ids[i] > file {
                file = ids[i];
                proof {
                    assert(ids@[i as int] == file);
                }
            }
            i = i + 1;
        }
        let m = TransactionManager {
            wal,
            disk,
            page_events: Vec::new(),
            file_events: Vec::new(),
            transactions: Vec::new(),
            transaction: 0,
            file,
        };
        proof {
            assert forall|f: u64| m.disk@.dom().contains(f) implies f <= m.file by {
                crate::disk::lemma_find_has_id(m.disk.files@, f);
                let idx = choose|idx: int|
                    0 <= idx < m.disk.files@.len() && m.disk.files@[idx] == crate::disk::spec_find(
                        m.disk.files@,
                        f,
                    )->Some_0;
                assert(ids@[idx] == f);
            }
            if m.file != 0 {
                let j = choose|j: int| 0 <= j < ids@.len() && ids@[j] == m.file;
                assert(m.disk.files@[j].file_id == m.file);
                assert(forall|j2: int|
                    0 <= j2 < j ==> (#[trigger] m.disk.files@[j2]).file_id
                        != m.disk.files@[j].file_id);
                crate::disk::lemma_find_at(m.disk.files@, j);
            }
        }
        m
    }

    /// Whether a transaction is begun and not yet committed.
    pub fn transaction_is_open(&self, txn: TransactionId) -> (r: bool)
        ensures
            r == self.is_open(txn),
    {
        match self.txn_index(txn) {
            Some(i) => !self.transactions[i].committed,
            None => false,
        }
    }

    /// Read access to the write-ahead log.
    pub fn wal(&self) -> (r: &WalReference)
        ensures
            *r == self.wal,
    {
        &self.wal
    }

    /// With no transaction tracked, no index holds any record at all.
    pub proof fn lemma_indexes_empty(self)
        requires
            self.inv(),
            forall|i: int|
                0 <= i < self.transactions@.len() ==> (#[trigger] self.transactions@[i]).offsets@.len()
                    == 0,
        ensures
            forall|k: PageOffset| (#[trigger] self.spec_page_list(k)).len() == 0,
            forall|f: FileId| (#[trigger] self.spec_file_list(f)).len() == 0,
    {
        assert forall|k: PageOffset| true implies (#[trigger] self.spec_page_list(k)).len()
            == 0 by {
            if assoc_find(self.page_events@, page_key(), k) is Some {
                lemma_assoc_find_has_key(self.page_events@, page_key(), k);
                let i0 = choose|i0: int|
                    0 <= i0 < self.page_events@.len() && self.page_events@[i0] == assoc_find(
                        self.page_events@,
                        page_key(),
                        k,
                    )->Some_0;
                if self.page_events@[i0].list@.len() > 0 {
                    assert(self.page_entry_ok(
                        self.page_events@[i0].key,
                        self.page_events@[i0].list@[0],
                    ));
                    let a = self.page_events@[i0].list@[0].transaction_id;
                    lemma_assoc_find_has_key(self.transactions@, txn_key(), a);
                    let ti = choose|ti: int|
                        0 <= ti < self.transactions@.len() && self.transactions@[ti] == assoc_find(
                            self.transactions@,
                            txn_key(),
                            a,
                        )->Some_0;
                    assert(self.transactions@[ti].offsets@.len() == 0);
                }
            }
        }
        assert forall|f: FileId| true implies (#[trigger] self.spec_file_list(f)).len() == 0 by {
            if assoc_find(self.file_events@, file_key(), f) is Some {
                lemma_assoc_find_has_key(self.file_events@, file_key(), f);
                let i0 = choose|i0: int|
                    0 <= i0 < self.file_events@.len() && self.file_events@[i0] == assoc_find(
                        self.file_events@,
                        file_key(),
                        f,
                    )->Some_0;
                if self.file_events@[i0].list@.len() > 0 {
                    assert(self.file_entry_ok(
                        self.file_events@[i0].file_id,
                        self.file_events@[i0].list@[0],
                    ));
                    let a = self.file_events@[i0].list@[0].transaction_id;
                    lemma_assoc_find_has_key(self.transactions@, txn_key(), a);
                    let ti = choose|ti: int|
                        0 <= ti < self.transactions@.len() && self.transactions@[ti] == assoc_find(
                            self.transactions@,
                            txn_key(),
                            a,
                        )->Some_0;
                    assert(self.transactions@[ti].offsets@.len() == 0);
                }
            }
        }
    }

    /// Resets the log to empty. Sound only once checkpointing has drained
    /// every tracked transaction: then no index holds a log offset, every
    /// read resolves from the data files alone, and no read result changes.
    pub fn truncate_wal(&mut self) -> (r: Result<(), DbError>)
        requires
            old(self).inv(),
            forall|i: int|
                0 <= i < old(self).transactions@.len() ==> (#[trigger] old(self).transactions@[i]).offsets@.len() == 0,
        ensures
            final(self).inv(),
            r == Ok::<(), DbError>(()),
            final(self).wal.events() == Seq::<WalEventModel>::empty(),
            final(self).wal.bytes() == Seq::<u8>::empty(),
            final(self).disk == old(self).disk,
            final(self).page_events == old(self).page_events,
            final(self).file_events == old(self).file_events,
            final(self).transactions == old(self).transactions,
            final(self).transaction == old(self).transaction,
            final(self).file == old(self).file,
            forall|v: TransactionId, f: FileId, p: PageId| #[trigger]
                final(self).spec_resolve_page(v, f, p) == old(self).spec_resolve_page(v, f, p),
            forall|v: TransactionId, f: FileId| #[trigger]
                final(self).spec_file_state(v, f) == old(self).spec_file_state(v, f),
    {
        proof {
            old(self).lemma_indexes_empty();
        }
        match self.wal.truncate() {
            Ok(_) => {},
            Err(_) => {
                proof {
                    assert(false);
                }
                return Ok(());
            },
        }
        proof {
            let m0 = *old(self);
            assert forall|i: int| 0 <= i < self.transactions@.len() implies self.txn_entry_ok(
                #[trigger] self.transactions@[i],
            ) by {
                assert(old(self).transactions@[i].offsets@.len() == 0);
            }
            assert forall|i: int, j: int|
                0 <= i < self.page_events@.len() && 0 <= j
                    < self.page_events@[i].list@.len() implies self.page_entry_ok(
                self.page_events@[i].key,
                #[trigger] self.page_events@[i].list@[j],
            ) by {
                assert(forall|j2: int|
                    0 <= j2 < i ==> page_key()(#[trigger] m0.page_events@[j2]) != page_key()(
                        m0.page_events@[i],
                    ));
                lemma_assoc_find_at(m0.page_events@, page_key(), i);
                assert(m0.spec_page_list(m0.page_events@[i].key).len() == 0);
            }
            assert forall|i: int, j: int|
                0 <= i < self.file_events@.len() && 0 <= j
                    < self.file_events@[i].list@.len() implies self.file_entry_ok(
                self.file_events@[i].file_id,
                #[trigger] self.file_events@[i].list@[j],
            ) by {
                assert(forall|j2: int|
                    0 <= j2 < i ==> file_key()(#[trigger] m0.file_events@[j2]) != file_key()(
                        m0.file_events@[i],
                    ));
                lemma_assoc_find_at(m0.file_events@, file_key(), i);
                assert(m0.spec_file_list(m0.file_events@[i].file_id).len() == 0);
            }
            assert forall|v: TransactionId, f: FileId, p: PageId| true implies #[trigger] self.spec_resolve_page(
                v,
                f,
                p,
            ) == m0.spec_resolve_page(v, f, p) by {
                let k = PageOffset { file_id: f, page_id: p };
                assert(self.page_events@ == m0.page_events@);
                assert(self.spec_page_list(k) == m0.spec_page_list(k));
                assert(self.spec_page_list(k).len() == 0);
                assert(self.spec_last_visible(v, self.spec_page_list(k)) is None);
                assert(m0.spec_last_visible(v, m0.spec_page_list(k)) is None);
            }
            assert forall|v: TransactionId, f: FileId| true implies #[trigger] self.spec_file_state(
                v,
                f,
            ) == m0.spec_file_state(v, f) by {
                assert(self.file_events@ == m0.file_events@);
                assert(self.spec_file_list(f) == m0.spec_file_list(f));
                assert(self.spec_file_list(f).len() == 0);
            }
        }
        Ok(())
    }
}


/// How much checkpoint work is pending in one tracked transaction: its
/// unapplied records, plus one for reclaiming the entry once committed.
pub open spec fn entry_weight(e: TransactionEntry) -> nat {
    e.offsets@.len() + if e.committed {
        1nat
    } else {
        0nat
    }
}

/// The total checkpoint work pending across all tracked transactions.
pub open spec fn spec_pending_from(s: Seq<TransactionEntry>) -> nat
    decreases s.len(),
{
    if s.len() == 0 {
        0nat
    } else {
        entry_weight(s.first()) + spec_pending_from(s.drop_first())
    }
}

pub proof fn lemma_pending_update(s: Seq<TransactionEntry>, i: int, nf: TransactionEntry)
    requires
        0 <= i < s.len(),
    ensures
        spec_pending_from(s.update(i, nf)) + entry_weight(s[i]) == spec_pending_from(s)
            + entry_weight(nf),
    decreases i,
{
    if i == 0 {
        assert(s.update(0, nf).first() == nf);
        assert(s.update(0, nf).drop_first() =~= s.drop_first());
    } else {
        assert(s.update(i, nf).first() == s.first());
        assert(s.update(i, nf).drop_first() =~= s.drop_first().update(i - 1, nf));
        assert(s.drop_first()[i - 1] == s[i]);
        lemma_pending_update(s.drop_first(), i - 1, nf);
    }
}

pub proof fn lemma_pending_remove(s: Seq<TransactionEntry>, i: int)
    requires
        0 <= i < s.len(),
    ensures
        spec_pending_from(s.remove(i)) + entry_weight(s[i]) == spec_pending_from(s),
    decreases i,
{
    if i == 0 {
        assert(s.remove(0) =~= s.drop_first());
    } else {
        assert(s.remove(i).first() == s.first());
        assert(s.remove(i).drop_first() =~= s.drop_first().remove(i - 1));
        assert(s.drop_first()[i - 1] == s[i]);
        lemma_pending_remove(s.drop_first(), i - 1);
    }
}

impl TransactionManager {
    /// The total checkpoint work pending: zero exactly when no committed
    /// transaction remains to apply or reclaim.
    pub open spec fn spec_pending(self) -> nat {
        spec_pending_from(self.transactions@)
    }

    /// Drops every occurrence of record `o` from the event list of page
    /// slot `k`; every surviving element stood in the old list and is not
    /// `o`.
    pub(crate) fn remove_page_offset(&mut self, k: PageOffset, o: u64)
        requires
            forall|i: int, j: int|
                0 <= i < j < old(self).page_events@.len() ==> (
                #[trigger] old(self).page_events@[i]).key != (
                #[trigger] old(self).page_events@[j]).key,
        ensures
            forall|k2: PageOffset|
                k2 != k ==> final(self).spec_page_list(k2) == old(self).spec_page_list(k2),
            forall|j: int|
                0 <= j < final(self).spec_page_list(k).len() ==> ((#[trigger] final(self).spec_page_list(k)[j]).wal_offset != o && exists|j0: int|
                    0 <= j0 < old(self).spec_page_list(k).len() && #[trigger] old(self).spec_page_list(k)[j0] == final(self).spec_page_list(k)[j]),
            forall|j0: int|
                0 <= j0 < old(self).spec_page_list(k).len() && (#[trigger] old(self).spec_page_list(k)[j0]).wal_offset != o ==> final(self).spec_page_list(k).contains(
                    old(self).spec_page_list(k)[j0],
                ),
            forall|i: int, j: int|
                0 <= i < j < final(self).page_events@.len() ==> (
                #[trigger] final(self).page_events@[i]).key != (
                #[trigger] final(self).page_events@[j]).key,
            forall|i: int|
                0 <= i < final(self).page_events@.len() ==> exists|i0: int|
                    0 <= i0 < old(self).page_events@.len() && (#[trigger] final(self).page_events@[i]).key == (#[trigger] old(self).page_events@[i0]).key,
            final(self).wal == old(self).wal,
            final(self).disk == old(self).disk,
            final(self).file_events == old(self).file_events,
            final(self).transactions == old(self).transactions,
            final(self).transaction == old(self).transaction,
            final(self).file == old(self).file,
    {
        let i = match self.page_index(k) {
            Some(i) => i,
            None => {
                proof {
                    assert forall|i2: int| 0 <= i2 < self.page_events@.len() implies exists|
                        i0: int,
                    |
                        0 <= i0 < old(self).page_events@.len() && (#[trigger] self.page_events@[i2]).key
                            == (#[trigger] old(self).page_events@[i0]).key by {
                        assert(old(self).page_events@[i2].key == self.page_events@[i2].key);
                    }
                }
                return;
            },
        };
        let mut e = self.page_events.remove(i);
        let ghost lv = e.list@;
        let mut kept: Vec<TransactionWalOffset> = Vec::new();
        let n = e.list.len();
        let mut j: usize = 0;
        while j < n
            invariant
                j <= n == lv.len(),
                e.list@ == lv,
                forall|x: int|
                    0 <= x < kept@.len() ==> ((#[trigger] kept@[x]).wal_offset != o && exists|
                        j0: int,
                    | 0 <= j0 < lv.len() && #[trigger] lv[j0] == kept@[x]),
                forall|j0: int|
                    0 <= j0 < j && (#[trigger] lv[j0]).wal_offset != o ==> kept@.contains(lv[j0]),
            decreases n - j,
        {
            let ghost prev = kept@;
            let two = e.list[j];
            if two.wal_offset != o {
                kept.push(two);
                proof {
                    assert(lv[j as int] == kept@.last());
                }
            }
            proof {
                assert forall|j0: int| 0 <= j0 < j + 1 && (#[trigger] lv[j0]).wal_offset
                    != o implies kept@.contains(lv[j0]) by {
                    if j0 < j {
                        lemma_push_contains_opt(prev, kept@, lv[j0]);
                    } else {
                        assert(kept@.last() == lv[j0]);
                    }
                }
            }
            j = j + 1;
        }
        e.list = kept;
        self.page_events.insert(i, e);
        proof {
            let nf = self.page_events@[i as int];
            assert(self.page_events@ =~= old(self).page_events@.update(i as int, nf));
            assert forall|k2: PageOffset| true implies #[trigger] assoc_find(
                self.page_events@,
                page_key(),
                k2,
            ) == (if k2 == k {
                Some(nf)
            } else {
                assoc_find(old(self).page_events@, page_key(), k2)
            }) by {
                lemma_assoc_find_update(old(self).page_events@, page_key(), i as int, nf, k2);
            }
            assert forall|i2: int| 0 <= i2 < self.page_events@.len() implies exists|i0: int|
                0 <= i0 < old(self).page_events@.len() && (#[trigger] self.page_events@[i2]).key
                    == (#[trigger] old(self).page_events@[i0]).key by {
                if i2 != i {
                    assert(old(self).page_events@[i2].key == self.page_events@[i2].key);
                } else {
                    assert(old(self).page_events@[i as int].key == self.page_events@[i2].key);
                }
            }
        }
    }

    /// Drops every occurrence of record `o` from the event list of `f`.
    pub(crate) fn remove_file_offset(&mut self, f: FileId, o: u64)
        requires
            forall|i: int, j: int|
                0 <= i < j < old(self).file_events@.len() ==> (
                #[trigger] old(self).file_events@[i]).file_id != (
                #[trigger] old(self).file_events@[j]).file_id,
        ensures
            forall|f2: FileId|
                f2 != f ==> final(self).spec_file_list(f2) == old(self).spec_file_list(f2),
            forall|j: int|
                0 <= j < final(self).spec_file_list(f).len() ==> ((#[trigger] final(self).spec_file_list(f)[j]).wal_offset != o && exists|j0: int|
                    0 <= j0 < old(self).spec_file_list(f).len() && #[trigger] old(self).spec_file_list(f)[j0] == final(self).spec_file_list(f)[j]),
            forall|j0: int|
                0 <= j0 < old(self).spec_file_list(f).len() && (#[trigger] old(self).spec_file_list(f)[j0]).wal_offset != o ==> final(self).spec_file_list(f).contains(
                    old(self).spec_file_list(f)[j0],
                ),
            forall|i: int, j: int|
                0 <= i < j < final(self).file_events@.len() ==> (
                #[trigger] final(self).file_events@[i]).file_id != (
                #[trigger] final(self).file_events@[j]).file_id,
            forall|i: int|
                0 <= i < final(self).file_events@.len() ==> exists|i0: int|
                    0 <= i0 < old(self).file_events@.len() && (#[trigger] final(self).file_events@[i]).file_id == (#[trigger] old(self).file_events@[i0]).file_id,
            final(self).wal == old(self).wal,
            final(self).disk == old(self).disk,
            final(self).page_events == old(self).page_events,
            final(self).transactions == old(self).transactions,
            final(self).transaction == old(self).transaction,
            final(self).file == old(self).file,
    {
        let i = match self.file_index(f) {
            Some(i) => i,
            None => {
                proof {
                    assert forall|i2: int| 0 <= i2 < self.file_events@.len() implies exists|
                        i0: int,
                    |
                        0 <= i0 < old(self).file_events@.len() && (#[trigger] self.file_events@[i2]).file_id
                            == (#[trigger] old(self).file_events@[i0]).file_id by {
                        assert(old(self).file_events@[i2].file_id == self.file_events@[i2].file_id);
                    }
                }
                return;
            },
        };
        let mut e = self.file_events.remove(i);
        let ghost lv = e.list@;
        let mut kept: Vec<TransactionWalOffset> = Vec::new();
        let n = e.list.len();
        let mut j: usize = 0;
        while j < n
            invariant
                j <= n == lv.len(),
                e.list@ == lv,
                forall|x: int|
                    0 <= x < kept@.len() ==> ((#[trigger] kept@[x]).wal_offset != o && exists|
                        j0: int,
                    | 0 <= j0 < lv.len() && #[trigger] lv[j0] == kept@[x]),
                forall|j0: int|
                    0 <= j0 < j && (#[trigger] lv[j0]).wal_offset != o ==> kept@.contains(lv[j0]),
            decreases n - j,
        {
            let ghost prev = kept@;
            let two = e.list[j];
            if two.wal_offset != o {
                kept.push(two);
                proof {
                    assert(lv[j as int] == kept@.last());
                }
            }
            proof {
                assert forall|j0: int| 0 <= j0 < j + 1 && (#[trigger] lv[j0]).wal_offset
                    != o implies kept@.contains(lv[j0]) by {
                    if j0 < j {
                        lemma_push_contains_opt(prev, kept@, lv[j0]);
                    } else {
                        assert(kept@.last() == lv[j0]);
                    }
                }
            }
            j = j + 1;
        }
        e.list = kept;
        self.file_events.insert(i, e);
        proof {
            let nf = self.file_events@[i as int];
            assert(self.file_events@ =~= old(self).file_events@.update(i as int, nf));
            assert forall|f2: FileId| true implies #[trigger] assoc_find(
                self.file_events@,
                file_key(),
                f2,
            ) == (if f2 == f {
                Some(nf)
            } else {
                assoc_find(old(self).file_events@, file_key(), f2)
            }) by {
                lemma_assoc_find_update(old(self).file_events@, file_key(), i as int, nf, f2);
            }
            assert forall|i2: int| 0 <= i2 < self.file_events@.len() implies exists|i0: int|
                0 <= i0 < old(self).file_events@.len() && (#[trigger] self.file_events@[i2]).file_id
                    == (#[trigger] old(self).file_events@[i0]).file_id by {
                if i2 != i {
                    assert(old(self).file_events@[i2].file_id == self.file_events@[i2].file_id);
                } else {
                    assert(old(self).file_events@[i as int].file_id == self.file_events@[i2].file_id);
                }
            }
        }
    }

    /// Drops the oldest record from the transaction entry at `i`.
    pub(crate) fn pop_txn_head_at(&mut self, i: usize)
        requires
            i < old(self).transactions@.len(),
            old(self).transactions@[i as int].offsets@.len() > 0,
        ensures
            final(self).transactions@.len() == old(self).transactions@.len(),
            forall|j: int|
                0 <= j < old(self).transactions@.len() && j != i ==> final(self).transactions@[j]
                    == old(self).transactions@[j],
            final(self).transactions@[i as int].transaction_id == old(self).transactions@[i as int].transaction_id,
            final(self).transactions@[i as int].snapshot == old(self).transactions@[i as int].snapshot,
            final(self).transactions@[i as int].committed == old(self).transactions@[i as int].committed,
            final(self).transactions@[i as int].offsets@ == old(self).transactions@[i as int].offsets@.drop_first(),
            final(self).wal == old(self).wal,
            final(self).disk == old(self).disk,
            final(self).page_events == old(self).page_events,
            final(self).file_events == old(self).file_events,
            final(self).transaction == old(self).transaction,
            final(self).file == old(self).file,
    {
        let mut e = self.transactions.remove(i);
        e.offsets.remove(0);
        self.transactions.insert(i, e);
        proof {
            assert(self.transactions@ =~= old(self).transactions@.update(
                i as int,
                self.transactions@[i as int],
            ));
            assert(self.transactions@[i as int].offsets@ =~= old(self).transactions@[i as int].offsets@.drop_first());
        }
    }

    /// Removes the transaction entry at `i` outright.
    pub(crate) fn remove_txn_entry_at(&mut self, i: usize)
        requires
            i < old(self).transactions@.len(),
        ensures
            final(self).transactions@ == old(self).transactions@.remove(i as int),
            final(self).wal == old(self).wal,
            final(self).disk == old(self).disk,
            final(self).page_events == old(self).page_events,
            final(self).file_events == old(self).file_events,
            final(self).transaction == old(self).transaction,
            final(self).file == old(self).file,
    {
        self.transactions.remove(i);
    }
}


impl TransactionManager {
    /// Every element of a page slot's event list is a sound index entry.
    pub proof fn lemma_page_list_entry_ok(self, k: PageOffset, j: int)
        requires
            self.inv(),
            0 <= j < self.spec_page_list(k).len(),
        ensures
            self.page_entry_ok(k, self.spec_page_list(k)[j]),
    {
        lemma_assoc_find_has_key(self.page_events@, page_key(), k);
        let i0 = choose|i0: int|
            0 <= i0 < self.page_events@.len() && self.page_events@[i0] == assoc_find(
                self.page_events@,
                page_key(),
                k,
            )->Some_0;
        assert(self.page_entry_ok(self.page_events@[i0].key, self.page_events@[i0].list@[j]));
    }

    /// Every element of a file's event list is a sound index entry.
    pub proof fn lemma_file_list_entry_ok(self, f: FileId, j: int)
        requires
            self.inv(),
            0 <= j < self.spec_file_list(f).len(),
        ensures
            self.file_entry_ok(f, self.spec_file_list(f)[j]),
    {
        lemma_assoc_find_has_key(self.file_events@, file_key(), f);
        let i0 = choose|i0: int|
            0 <= i0 < self.file_events@.len() && self.file_events@[i0] == assoc_find(
                self.file_events@,
                file_key(),
                f,
            )->Some_0;
        assert(self.file_entry_ok(self.file_events@[i0].file_id, self.file_events@[i0].list@[j]));
    }

    /// A newest-visible scan answers with the offset of some list element.
    pub proof fn lemma_last_visible_some(self, v: TransactionId, list: Seq<TransactionWalOffset>)
        requires
            self.spec_last_visible(v, list) is Some,
        ensures
            exists|j: int|
                0 <= j < list.len() && (#[trigger] list[j]).wal_offset == self.spec_last_visible(
                    v,
                    list,
                )->Some_0,
        decreases list.len(),
    {
        if self.sees(v, list.last().transaction_id) {
            assert(list[list.len() - 1].wal_offset == self.spec_last_visible(v, list)->Some_0);
        } else {
            self.lemma_last_visible_some(v, list.drop_last());
            let j = choose|j: int|
                0 <= j < list.drop_last().len() && (#[trigger] list.drop_last()[j]).wal_offset
                    == self.spec_last_visible(v, list.drop_last())->Some_0;
            assert(list[j].wal_offset == self.spec_last_visible(v, list)->Some_0);
        }
    }

    /// What a viewer reads is always exactly one page of bytes.
    pub proof fn lemma_resolve_wf(self, v: TransactionId, f: FileId, p: PageId)
        requires
            self.inv(),
        ensures
            self.spec_resolve_page(v, f, p).len() == PAGE_SIZE,
    {
        let k = PageOffset { file_id: f, page_id: p };
        let list = self.spec_page_list(k);
        match self.spec_last_visible(v, list) {
            Some(off) => {
                self.lemma_last_visible_some(v, list);
                let j = choose|j: int|
                    0 <= j < list.len() && (#[trigger] list[j]).wal_offset == off;
                self.lemma_page_list_entry_ok(k, j);
                crate::wal::lemma_decode_some_props(self.wal.bytes(), off as int);
            },
            None => {
                if self.disk@.dom().contains(f) && (p as int) < self.disk@[f].len() {
                    crate::disk::lemma_find_has_id(self.disk.files@, f);
                    let idx = choose|idx: int|
                        0 <= idx < self.disk.files@.len() && self.disk.files@[idx]
                            == crate::disk::spec_find(self.disk.files@, f)->Some_0;
                    assert(self.disk.files@[idx].pages@[p as int].wf());
                }
            },
        }
    }

    /// A newest-visible scan depends only on what the viewer sees.
    pub proof fn lemma_last_visible_congruent(
        self,
        other: TransactionManager,
        v: TransactionId,
        list: Seq<TransactionWalOffset>,
    )
        requires
            forall|a: TransactionId| #[trigger] other.sees(v, a) == self.sees(v, a),
        ensures
            other.spec_last_visible(v, list) == self.spec_last_visible(v, list),
        decreases list.len(),
    {
        if list.len() > 0 {
            self.lemma_last_visible_congruent(other, v, list.drop_last());
        }
    }

    /// An extent fold depends only on what the viewer sees and on the
    /// records the list names.
    pub proof fn lemma_file_state_congruent(
        self,
        other: TransactionManager,
        v: TransactionId,
        list: Seq<TransactionWalOffset>,
        cur: Option<int>,
    )
        requires
            forall|a: TransactionId| #[trigger] other.sees(v, a) == self.sees(v, a),
            forall|j: int|
                0 <= j < list.len() ==> other.event_at((#[trigger] list[j]).wal_offset)
                    == self.event_at(list[j].wal_offset),
        ensures
            other.spec_file_state_from(v, list, cur) == self.spec_file_state_from(v, list, cur),
        decreases list.len(),
    {
        if list.len() > 0 {
            assert(list[0] == list.first());
            let step = if self.sees(v, list.first().transaction_id) {
                spec_apply_file_event(cur, self.event_at(list.first().wal_offset))
            } else {
                cur
            };
            assert(forall|j: int|
                0 <= j < list.drop_first().len() ==> #[trigger] list.drop_first()[j] == list[j
                    + 1]);
            self.lemma_file_state_congruent(other, v, list.drop_first(), step);
        }
    }
}

/// Isolation: a page write by a transaction that a viewer does not see —
/// itself uncommitted when the viewer began — changes nothing the viewer
/// can read: every page resolves to the same bytes as before the write,
/// and every file keeps its visible extent.
pub proof fn lemma_write_isolation(
    pre: TransactionManager,
    post: TransactionManager,
    txn: TransactionId,
    file: FileId,
    offset: PageId,
    redo: Seq<u8>,
    viewer: TransactionId,
    qf: FileId,
    qp: PageId,
)
    requires
        pre.inv(),
        post.inv(),
        redo.len() == PAGE_SIZE,
        spec_wrote(pre, post, txn, file, offset, redo),
        !pre.sees(viewer, txn),
    ensures
        post.spec_resolve_page(viewer, qf, qp) == pre.spec_resolve_page(viewer, qf, qp),
        post.spec_file_state(viewer, qf) == pre.spec_file_state(viewer, qf),
{
    let off0 = pre.wal.bytes().len() as u64;
    let two = TransactionWalOffset { transaction_id: txn, wal_offset: off0 };
    let k = PageOffset { file_id: file, page_id: offset };
    let ev = WalEventModel::ModifyPageEvent {
        transaction_id: txn,
        file_id: file,
        page_id: offset,
        undo: pre.spec_resolve_page(txn, file, offset),
        redo: redo,
    };
    pre.lemma_resolve_wf(txn, file, offset);
    crate::wal::lemma_wal_append_effect(pre.wal, post.wal, ev);
    assert(viewer != txn);
    assert forall|a: TransactionId| #[trigger] post.sees(viewer, a) == pre.sees(viewer, a) by {
        assert(post.spec_txn(viewer) == pre.spec_txn(viewer));
    }
    // the visible extent of any file is untouched
    let flist = pre.spec_file_list(qf);
    assert(post.spec_file_list(qf) == flist);
    assert forall|j: int| 0 <= j < flist.len() implies post.event_at(
        (#[trigger] flist[j]).wal_offset,
    ) == pre.event_at(flist[j].wal_offset) by {
        pre.lemma_file_list_entry_ok(qf, j);
    }
    pre.lemma_file_state_congruent(post, viewer, flist, pre.spec_file_base(qf));
    assert(post.spec_file_base(qf) == pre.spec_file_base(qf));
    // the resolved image of any page slot is untouched
    let kq = PageOffset { file_id: qf, page_id: qp };
    let plist = pre.spec_page_list(kq);
    if kq == k {
        assert(post.spec_page_list(kq) == plist.push(two));
        assert(plist.push(two).last() == two);
        assert(!post.sees(viewer, txn));
        assert(plist.push(two).drop_last() =~= plist);
        assert(post.spec_last_visible(viewer, plist.push(two)) == post.spec_last_visible(
            viewer,
            plist,
        ));
    } else {
        assert(post.spec_page_list(kq) == plist);
    }
    pre.lemma_last_visible_congruent(post, viewer, plist);
    match pre.spec_last_visible(viewer, plist) {
        Some(off) => {
            pre.lemma_last_visible_some(viewer, plist);
            let j = choose|j: int| 0 <= j < plist.len() && (#[trigger] plist[j]).wal_offset == off;
            pre.lemma_page_list_entry_ok(kq, j);
            assert(post.event_at(off) == pre.event_at(off));
        },
        None => {
            assert(post.spec_disk_page(qf, qp) == pre.spec_disk_page(qf, qp));
        },
    }
}

/// Same-transaction undo chain: when one transaction writes the same page
/// twice, the second record's undo image is the first record's redo image —
/// the transaction reads its own first write — while the first record's
/// undo image is what stood before the transaction touched the page. So a
/// newest-first walk over the undo images restores the original content,
/// one step at a time.
pub proof fn lemma_undo_chain(
    m0: TransactionManager,
    m1: TransactionManager,
    m2: TransactionManager,
    txn: TransactionId,
    file: FileId,
    offset: PageId,
    v1: Seq<u8>,
    v2: Seq<u8>,
)
    requires
        m0.inv(),
        m1.inv(),
        v1.len() == PAGE_SIZE,
        m0.wal.bytes().len() <= usize::MAX,
        spec_wrote(m0, m1, txn, file, offset, v1),
        spec_wrote(m1, m2, txn, file, offset, v2),
    ensures
        m1.spec_resolve_page(txn, file, offset) == v1,
        m1.wal.events().last() == (WalEventModel::ModifyPageEvent {
            transaction_id: txn,
            file_id: file,
            page_id: offset,
            undo: m0.spec_resolve_page(txn, file, offset),
            redo: v1,
        }),
        m2.wal.events().last() == (WalEventModel::ModifyPageEvent {
            transaction_id: txn,
            file_id: file,
            page_id: offset,
            undo: v1,
            redo: v2,
        }),
{
    let off0 = m0.wal.bytes().len() as u64;
    let two0 = TransactionWalOffset { transaction_id: txn, wal_offset: off0 };
    let k = PageOffset { file_id: file, page_id: offset };
    let ev0 = WalEventModel::ModifyPageEvent {
        transaction_id: txn,
        file_id: file,
        page_id: offset,
        undo: m0.spec_resolve_page(txn, file, offset),
        redo: v1,
    };
    m0.lemma_resolve_wf(txn, file, offset);
    crate::wal::lemma_wal_append_effect(m0.wal, m1.wal, ev0);
    assert(m1.spec_page_list(k) == m0.spec_page_list(k).push(two0));
    assert(m0.spec_page_list(k).push(two0).last() == two0);
    assert(m1.sees(txn, txn));
    assert(m1.spec_last_visible(txn, m1.spec_page_list(k)) == Some(off0));
    assert(m1.event_at(off0) == ev0);
    assert(m1.spec_resolve_page(txn, file, offset) == v1);
}


impl TransactionManager {
    /// An extent fold over a list grown by one entry at the end: the new
    /// entry's record applies last, if the viewer sees its author.
    pub proof fn lemma_file_state_push(
        self,
        v: TransactionId,
        list: Seq<TransactionWalOffset>,
        e: TransactionWalOffset,
        cur: Option<int>,
    )
        ensures
            self.spec_file_state_from(v, list.push(e), cur) == (if self.sees(v, e.transaction_id) {
                spec_apply_file_event(
                    self.spec_file_state_from(v, list, cur),
                    self.event_at(e.wal_offset),
                )
            } else {
                self.spec_file_state_from(v, list, cur)
            }),
        decreases list.len(),
    {
        if list.len() == 0 {
            assert(list.push(e)[0] == e);
            assert(list.push(e).first() == e);
            assert(list.push(e).drop_first() =~= Seq::<TransactionWalOffset>::empty());
            assert(self.spec_file_state_from(v, list, cur) == cur);
            let step = if self.sees(v, e.transaction_id) {
                spec_apply_file_event(cur, self.event_at(e.wal_offset))
            } else {
                cur
            };
            assert(self.spec_file_state_from(v, list.push(e), cur) == self.spec_file_state_from(
                v,
                list.push(e).drop_first(),
                step,
            ));
            assert(self.spec_file_state_from(v, Seq::<TransactionWalOffset>::empty(), step)
                == step);
        } else {
            assert(list.push(e).first() == list.first());
            assert(list.push(e).drop_first() =~= list.drop_first().push(e));
            let step = if self.sees(v, list.first().transaction_id) {
                spec_apply_file_event(cur, self.event_at(list.first().wal_offset))
            } else {
                cur
            };
            self.lemma_file_state_push(v, list.drop_first(), e, step);
            assert(self.spec_file_state_from(v, list.push(e), cur) == self.spec_file_state_from(
                v,
                list.drop_first().push(e),
                step,
            ));
        }
    }
}

/// Extent change, as a viewer who sees the extending transaction reads it:
/// a logged extent change of `extend_amt` pages moves the file's visible
/// extent from `n` to exactly `n + extend_amt` (held within a 64-bit page
/// counter), and leaves an invisible file invisible. Together with the
/// read and write contracts: once the new extent covers a page index, the
/// identical read or write call succeeds.
pub proof fn lemma_extend_file_state(
    pre: TransactionManager,
    post: TransactionManager,
    txn: TransactionId,
    file: FileId,
    extend_amt: i64,
    viewer: TransactionId,
)
    requires
        pre.inv(),
        post.inv(),
        pre.wal.bytes().len() + EXTEND_FILE_LEN <= usize::MAX,
        post.wal.clean(),
        post.wal.events() == pre.wal.events().push(
            WalEventModel::ExtendFileEvent { transaction_id: txn, file_id: file, extend_amt },
        ),
        post.spec_file_list(file) == pre.spec_file_list(file).push(
            TransactionWalOffset {
                transaction_id: txn,
                wal_offset: pre.wal.bytes().len() as u64,
            },
        ),
        post.disk == pre.disk,
        forall|a: TransactionId| #[trigger] post.sees(viewer, a) == pre.sees(viewer, a),
        post.sees(viewer, txn),
    ensures
        post.spec_file_state(viewer, file) == (match pre.spec_file_state(viewer, file) {
            Some(n) => Some(spec_clip_u64(n + extend_amt)),
            None => None,
        }),
{
    let ev = WalEventModel::ExtendFileEvent { transaction_id: txn, file_id: file, extend_amt };
    let off0 = pre.wal.bytes().len() as u64;
    let two = TransactionWalOffset { transaction_id: txn, wal_offset: off0 };
    crate::wal::lemma_wal_append_effect(pre.wal, post.wal, ev);
    assert(post.event_at(off0) == ev);
    let list = pre.spec_file_list(file);
    let base = pre.spec_file_base(file);
    assert(post.spec_file_base(file) == base);
    assert forall|j: int| 0 <= j < list.len() implies post.event_at(
        (#[trigger] list[j]).wal_offset,
    ) == pre.event_at(list[j].wal_offset) by {
        pre.lemma_file_list_entry_ok(file, j);
    }
    pre.lemma_file_state_congruent(post, viewer, list, base);
    post.lemma_file_state_push(viewer, list, two, base);
    assert(post.spec_file_state_from(viewer, list, base) == pre.spec_file_state(viewer, file));
}

} // verus!
