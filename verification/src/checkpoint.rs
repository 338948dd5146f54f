//! Checkpointing and crash recovery: the two paths that reconcile the
//! write-ahead log with the data files.
//!
//! Checkpointing applies one committed record at a time, oldest first, and
//! reclaims the entry once a transaction is fully applied; it never blocks,
//! signalling "no progress" instead. Recovery scans the log from the start,
//! replays the records of transactions that reached a commit record, and
//! silently discards everything from the first undecodable position on — a
//! torn trailing record is expected after a crash, not an error.

use vstd::prelude::*;

use crate::disk::spec_clip_u64;
use crate::disk::spec_resize;
use crate::disk::spec_set_page;
use crate::transaction::assoc_find;
use crate::transaction::lemma_assoc_find_at;
use crate::transaction::lemma_pending_remove;
use crate::transaction::lemma_pending_update;
use crate::transaction::lemma_push_contains;
use crate::transaction::page_key;
use crate::transaction::txn_key;
use crate::transaction::PageOffset;
use crate::transaction::TransactionManager;
use crate::wal::event_transaction_id;
use crate::wal::spec_parse;
use crate::wal::spec_parse_from;
use crate::wal::WalEvent;
use crate::wal::WalEventModel;
use crate::DbError;

verus! {

/// What applying one logged record does to the data files: a page
/// modification writes its redo image (growing the file, or bringing a not
/// yet checkpointed file into being), an extent change resizes, creation
/// installs an empty file, deletion removes it, and a commit record changes
/// nothing.
pub open spec fn spec_disk_apply(d: Map<u64, Seq<Seq<u8>>>, m: WalEventModel) -> Map<
    u64,
    Seq<Seq<u8>>,
> {
    match m {
        WalEventModel::ModifyPageEvent { file_id, page_id, redo, .. } => {
            let pages = if d.dom().contains(file_id) {
                d[file_id]
            } else {
                Seq::empty()
            };
            d.insert(file_id, spec_set_page(pages, page_id as int, redo))
        },
        WalEventModel::CommitTransactionEvent { .. } => d,
        WalEventModel::ExtendFileEvent { file_id, extend_amt, .. } => {
            if d.dom().contains(file_id) {
                d.insert(
                    file_id,
                    spec_resize(d[file_id], spec_clip_u64(d[file_id].len() + extend_amt)),
                )
            } else {
                d
            }
        },
        WalEventModel::CreateFileEvent { file_id, .. } => d.insert(file_id, Seq::empty()),
        WalEventModel::DeleteFileEvent { file_id, .. } => d.remove(file_id),
    }
}

/// Whether the machine can represent the outcome of applying `m`: page
/// counts are held in memory, so a grown file must fit a `usize`.
pub open spec fn spec_apply_fits(d: Map<u64, Seq<Seq<u8>>>, m: WalEventModel) -> bool {
    match m {
        WalEventModel::ModifyPageEvent { page_id, .. } => (page_id as int) < usize::MAX,
        WalEventModel::ExtendFileEvent { file_id, extend_amt, .. } => !d.dom().contains(file_id)
            || spec_clip_u64(d[file_id].len() + extend_amt) <= usize::MAX,
        _ => true,
    }
}

/// Whether `t` reaches a commit record somewhere in `es`.
pub open spec fn spec_committed_in(es: Seq<WalEventModel>, t: u64) -> bool {
    exists|i: int|
        0 <= i < es.len() && es[i] == (WalEventModel::CommitTransactionEvent { transaction_id: t })
}

/// The transactions that reach a commit record in `es`.
pub open spec fn spec_committed_set(es: Seq<WalEventModel>) -> Set<u64> {
    Set::new(|t: u64| spec_committed_in(es, t))
}

/// The data files after replaying, in order, every record of `es` whose
/// transaction is in `c`, and discarding the rest.
pub open spec fn spec_replay(
    d: Map<u64, Seq<Seq<u8>>>,
    es: Seq<WalEventModel>,
    c: Set<u64>,
) -> Map<u64, Seq<Seq<u8>>>
    decreases es.len(),
{
    if es.len() == 0 {
        d
    } else {
        let d1 = if c.contains(event_transaction_id(es.first())) {
            spec_disk_apply(d, es.first())
        } else {
            d
        };
        spec_replay(d1, es.drop_first(), c)
    }
}

/// Whether the machine can represent every step of that replay.
pub open spec fn spec_replay_fits(
    d: Map<u64, Seq<Seq<u8>>>,
    es: Seq<WalEventModel>,
    c: Set<u64>,
) -> bool
    decreases es.len(),
{
    if es.len() == 0 {
        true
    } else {
        let hit = c.contains(event_transaction_id(es.first()));
        let d1 = if hit {
            spec_disk_apply(d, es.first())
        } else {
            d
        };
        (!hit || spec_apply_fits(d, es.first())) && spec_replay_fits(d1, es.drop_first(), c)
    }
}

/// The data files crash recovery leaves behind, given the files and the log
/// bytes as the crash left them.
pub open spec fn spec_recover(d: Map<u64, Seq<Seq<u8>>>, b: Seq<u8>) -> Map<u64, Seq<Seq<u8>>> {
    spec_replay(d, spec_parse(b), spec_committed_set(spec_parse(b)))
}

/// Replay splits at any point: the suffix continues from where the prefix
/// left the files.
pub proof fn lemma_replay_concat(
    d: Map<u64, Seq<Seq<u8>>>,
    a: Seq<WalEventModel>,
    b: Seq<WalEventModel>,
    c: Set<u64>,
)
    ensures
        spec_replay(d, a + b, c) == spec_replay(spec_replay(d, a, c), b, c),
        spec_replay_fits(d, a + b, c) == (spec_replay_fits(d, a, c) && spec_replay_fits(
            spec_replay(d, a, c),
            b,
            c,
        )),
    decreases a.len(),
{
    if a.len() == 0 {
        assert(a + b =~= b);
    } else {
        assert((a + b).first() == a.first());
        assert((a + b).drop_first() =~= a.drop_first() + b);
        let d1 = if c.contains(event_transaction_id(a.first())) {
            spec_disk_apply(d, a.first())
        } else {
            d
        };
        lemma_replay_concat(d1, a.drop_first(), b, c);
    }
}

/// One more record replays on top of everything before it.
pub proof fn lemma_replay_push(
    d: Map<u64, Seq<Seq<u8>>>,
    es: Seq<WalEventModel>,
    m: WalEventModel,
    c: Set<u64>,
)
    ensures
        spec_replay(d, es.push(m), c) == (if c.contains(event_transaction_id(m)) {
            spec_disk_apply(spec_replay(d, es, c), m)
        } else {
            spec_replay(d, es, c)
        }),
        spec_replay_fits(d, es.push(m), c) == (spec_replay_fits(d, es, c) && (!c.contains(
            event_transaction_id(m),
        ) || spec_apply_fits(spec_replay(d, es, c), m))),
{
    assert(es.push(m) =~= es + seq![m]);
    lemma_replay_concat(d, es, seq![m], c);
    let dd = spec_replay(d, es, c);
    assert(seq![m].first() == m);
    assert(seq![m].drop_first() =~= Seq::<WalEventModel>::empty());
    let d1 = if c.contains(event_transaction_id(m)) {
        spec_disk_apply(dd, m)
    } else {
        dd
    };
    assert(spec_replay(dd, seq![m], c) == spec_replay(d1, seq![m].drop_first(), c));
    assert(spec_replay_fits(d1, seq![m].drop_first(), c));
    assert(spec_replay_fits(dd, seq![m], c) == (!c.contains(event_transaction_id(m))
        || spec_apply_fits(dd, m)));
}

/// A commit record extends the committed set by exactly its transaction;
/// any other record leaves it alone.
pub proof fn lemma_committed_push(es: Seq<WalEventModel>, m: WalEventModel, a: u64)
    ensures
        spec_committed_in(es.push(m), a) == (spec_committed_in(es, a) || m == (
        WalEventModel::CommitTransactionEvent { transaction_id: a })),
{
    if spec_committed_in(es.push(m), a) {
        let i = choose|i: int|
            0 <= i < es.push(m).len() && es.push(m)[i] == (WalEventModel::CommitTransactionEvent {
                transaction_id: a,
            });
        if i < es.len() {
            assert(es[i] == (WalEventModel::CommitTransactionEvent { transaction_id: a }));
        }
    }
    if spec_committed_in(es, a) {
        let i = choose|i: int|
            0 <= i < es.len() && es[i] == (WalEventModel::CommitTransactionEvent {
                transaction_id: a,
            });
        assert(es.push(m)[i] == (WalEventModel::CommitTransactionEvent { transaction_id: a }));
    }
    if m == (WalEventModel::CommitTransactionEvent { transaction_id: a }) {
        assert(es.push(m)[es.len() as int] == m);
    }
}

/// Apply a logged record to the data files. Done during checkpointing and
/// crash recovery; nowhere else are the data files mutated. Fails, leaving
/// the files unchanged, only when the machine cannot represent the result.
pub fn apply_wal_event(event: &WalEvent, manager: &mut TransactionManager) -> (r: Result<
    (),
    DbError,
>)
    requires
        old(manager).disk.wf(),
        event.wf(),
    ensures
        final(manager).disk.wf(),
        final(manager).wal == old(manager).wal,
        final(manager).page_events == old(manager).page_events,
        final(manager).file_events == old(manager).file_events,
        final(manager).transactions == old(manager).transactions,
        final(manager).transaction == old(manager).transaction,
        final(manager).file == old(manager).file,
        spec_apply_fits(old(manager).disk@, event@) ==> r == Ok::<(), DbError>(()) && final(manager).disk@ == spec_disk_apply(old(manager).disk@, event@),
        !spec_apply_fits(old(manager).disk@, event@) ==> r == Err::<(), DbError>(
            DbError::IoFailure,
        ) && final(manager).disk == old(manager).disk,
{
    match event {
        WalEvent::ModifyPageEvent { file_id, page_id, redo, .. } => {
            manager.disk.set_page(*file_id, *page_id, redo)
        },
        WalEvent::CommitTransactionEvent { .. } => Ok(()),
        WalEvent::ExtendFileEvent { file_id, extend_amt, .. } => {
            match manager.disk.page_count(*file_id) {
                None => Ok(()),
                Some(n) => {
                    let next: i128 = n as i128 + *extend_amt as i128;
                    let clipped: u64 = if next < 0 {
                        0
                    } else if next > u64::MAX as i128 {
                        u64::MAX
                    } else {
                        next as u64
                    };
                    proof {
                        assert(clipped as int == spec_clip_u64(
                            old(manager).disk@[*file_id].len() + *extend_amt,
                        ));
                    }
                    if clipped > usize::MAX as u64 {
                        return Err(DbError::IoFailure);
                    }
                    manager.disk.resize_file(*file_id, clipped)
                },
            }
        },
        WalEvent::CreateFileEvent { file_id, .. } => {
            manager.disk.create_file(*file_id);
            Ok(())
        },
        WalEvent::DeleteFileEvent { file_id, .. } => {
            manager.disk.delete_file(*file_id);
            Ok(())
        },
    }
}


/// The oldest still-indexed record of any committed transaction: its
/// owner `t` and offset `o`. Each transaction's record list is ascending,
/// so a list's head is its oldest record; the oldest overall is the least
/// head among committed transactions.
pub open spec fn spec_oldest_committed(m: TransactionManager, t: u64, o: u64) -> bool {
    &&& m.is_committed(t)
    &&& m.spec_txn(t)->Some_0.offsets@.len() > 0
    &&& o == m.spec_txn(t)->Some_0.offsets@[0]
    &&& forall|t2: u64|
        #[trigger] m.is_committed(t2) && m.spec_txn(t2)->Some_0.offsets@.len() > 0 ==> o
            <= m.spec_txn(t2)->Some_0.offsets@[0]
}

/// Try to make one bounded unit of checkpoint progress: apply the oldest
/// record whose transaction has committed to the data files and drop it
/// from every index, or reclaim a committed transaction whose records are
/// all applied. Returns `Ok(false)` — no progress, every remaining record
/// belongs to a transaction not yet committed — rather than blocking; the
/// caller decides whether to wait. Fails, changing nothing, only when the
/// machine cannot represent a grown file.
pub fn checkpoint_step(manager: &mut TransactionManager) -> (r: Result<bool, DbError>)
    requires
        old(manager).inv(),
    ensures
        final(manager).inv(),
        (forall|i: int|
            0 <= i < old(manager).transactions@.len() ==> !(#[trigger] old(manager).transactions@[i]).committed) ==> r == Ok::<bool, DbError>(false),
        r == Ok::<bool, DbError>(false) ==> *final(manager) == *old(manager) && (forall|i: int|
            0 <= i < old(manager).transactions@.len() ==> !(#[trigger] old(manager).transactions@[i]).committed),
        r == Ok::<bool, DbError>(true) ==> final(manager).spec_pending() < old(manager).spec_pending() && final(manager).wal == old(manager).wal && final(manager).transaction
            == old(manager).transaction && final(manager).file == old(manager).file && ((exists|
            t: u64,
        |
            {
                &&& #[trigger] old(manager).is_committed(t)
                &&& old(manager).spec_txn(t)->Some_0.offsets@.len() == 0
                &&& final(manager).spec_txn(t) is None
                &&& (forall|t2: u64|
                    t2 != t ==> final(manager).spec_txn(t2) == old(manager).spec_txn(t2))
                &&& final(manager).disk == old(manager).disk
                &&& final(manager).page_events == old(manager).page_events
                &&& final(manager).file_events == old(manager).file_events
            }) || (exists|t: u64, o: u64|
            {
                &&& #[trigger] spec_oldest_committed(*old(manager), t, o)
                &&& final(manager).disk@ == spec_disk_apply(
                    old(manager).disk@,
                    old(manager).event_at(o),
                )
                &&& (old(manager).spec_txn(t)->Some_0.offsets@.len() == 1 ==> final(manager).spec_txn(t) is None)
                &&& (old(manager).spec_txn(t)->Some_0.offsets@.len() > 1 ==> final(manager).spec_txn(t) is Some && final(manager).spec_txn(t)->Some_0.offsets@ == old(manager).spec_txn(t)->Some_0.offsets@.drop_first() && final(manager).spec_txn(
                    t,
                )->Some_0.snapshot == old(manager).spec_txn(t)->Some_0.snapshot && final(manager).spec_txn(t)->Some_0.committed)
                &&& (forall|t2: u64|
                    t2 != t ==> final(manager).spec_txn(t2) == old(manager).spec_txn(t2))
                &&& (forall|k2: PageOffset, j: int|
                    0 <= j < final(manager).spec_page_list(k2).len() ==> (#[trigger] final(manager).spec_page_list(k2)[j]).wal_offset != o && old(manager).spec_page_list(
                        k2,
                    ).contains(final(manager).spec_page_list(k2)[j]))
                &&& (forall|f2: u64, j: int|
                    0 <= j < final(manager).spec_file_list(f2).len() ==> (#[trigger] final(manager).spec_file_list(f2)[j]).wal_offset != o && old(manager).spec_file_list(
                        f2,
                    ).contains(final(manager).spec_file_list(f2)[j]))
                &&& (forall|k2: PageOffset, j: int|
                    0 <= j < old(manager).spec_page_list(k2).len() && (#[trigger] old(manager).spec_page_list(k2)[j]).wal_offset != o ==> final(manager).spec_page_list(
                        k2,
                    ).contains(old(manager).spec_page_list(k2)[j]))
                &&& (forall|f2: u64, j: int|
                    0 <= j < old(manager).spec_file_list(f2).len() && (#[trigger] old(manager).spec_file_list(f2)[j]).wal_offset != o ==> final(manager).spec_file_list(
                        f2,
                    ).contains(old(manager).spec_file_list(f2)[j]))
            })),
        r is Err ==> r == Err::<bool, DbError>(DbError::IoFailure) && *final(manager) == *old(manager)
            && (exists|t: u64, o: u64|
            #[trigger] spec_oldest_committed(*old(manager), t, o) && !spec_apply_fits(
                old(manager).disk@,
                old(manager).event_at(o),
            )),
{
    let n = manager.transactions.len();
    let mut best: Option<usize> = None;
    let mut i: usize = 0;
    while i < n
        invariant
            *manager == *old(manager),
            old(manager).inv(),
            i <= n == manager.transactions@.len(),
            match best {
                Some(b) => b < i && manager.transactions@[b as int].committed
                    && manager.transactions@[b as int].offsets@.len() > 0 && (forall|j: int|
                    0 <= j < i && (#[trigger] manager.transactions@[j]).committed
                        ==> manager.transactions@[j].offsets@.len() > 0
                        && manager.transactions@[b as int].offsets@[0]
                        <= manager.transactions@[j].offsets@[0]),
                None => forall|j: int|
                    0 <= j < i ==> !(#[trigger] manager.transactions@[j]).committed,
            },
        decreases n - i,
    {
        if manager.transactions[i].committed {
            if manager.transactions[i].offsets.len() == 0 {
                proof {
                    lemma_pending_remove(manager.transactions@, i as int);
                }
                let ghost m0 = *manager;
                let ghost tgone = manager.transactions@[i as int].transaction_id;
                proof {
                    assert(forall|j2: int|
                        0 <= j2 < i ==> txn_key()(#[trigger] m0.transactions@[j2]) != txn_key()(
                            m0.transactions@[i as int],
                        ));
                    lemma_assoc_find_at(m0.transactions@, txn_key(), i as int);
                    assert(m0.spec_txn(tgone) == Some(m0.transactions@[i as int]));
                    assert(m0.transactions@[i as int].offsets@.len() == 0);
                }
                manager.remove_txn_entry_at(i);
                proof {
                    assert forall|t2: u64| t2 != tgone implies #[trigger] manager.spec_txn(t2)
                        == m0.spec_txn(t2) by {
                        crate::transaction::lemma_assoc_find_remove(
                            m0.transactions@,
                            txn_key(),
                            i as int,
                            t2,
                        );
                    }
                    assert forall|i2: int, j: int|
                        0 <= i2 < manager.page_events@.len() && 0 <= j
                            < manager.page_events@[i2].list@.len() implies manager.page_entry_ok(
                        manager.page_events@[i2].key,
                        #[trigger] manager.page_events@[i2].list@[j],
                    ) by {
                        assert(m0.page_entry_ok(
                            m0.page_events@[i2].key,
                            m0.page_events@[i2].list@[j],
                        ));
                        let o = manager.page_events@[i2].list@[j];
                        assert(o.transaction_id != tgone);
                    }
                    assert forall|i2: int, j: int|
                        0 <= i2 < manager.file_events@.len() && 0 <= j
                            < manager.file_events@[i2].list@.len() implies manager.file_entry_ok(
                        manager.file_events@[i2].file_id,
                        #[trigger] manager.file_events@[i2].list@[j],
                    ) by {
                        assert(m0.file_entry_ok(
                            m0.file_events@[i2].file_id,
                            m0.file_events@[i2].list@[j],
                        ));
                        let o = manager.file_events@[i2].list@[j];
                        assert(o.transaction_id != tgone);
                    }
                    assert forall|i2: int|
                        0 <= i2 < manager.transactions@.len() implies manager.txn_entry_ok(
                        #[trigger] manager.transactions@[i2],
                    ) by {
                        if i2 < i {
                            assert(m0.txn_entry_ok(m0.transactions@[i2]));
                            assert(manager.transactions@[i2] == m0.transactions@[i2]);
                        } else {
                            assert(m0.txn_entry_ok(m0.transactions@[i2 + 1]));
                            assert(manager.transactions@[i2] == m0.transactions@[i2 + 1]);
                        }
                    }
                    assert(manager.inv());
                    crate::transaction::lemma_assoc_find_remove(
                        m0.transactions@,
                        txn_key(),
                        i as int,
                        tgone,
                    );
                    assert(manager.spec_txn(tgone) is None);
                    assert(m0.is_committed(tgone));
                    assert(old(manager).transactions@[i as int].committed);
                }
                return Ok(true);
            }
            best = match best {
                None => Some(i),
                Some(b) => {
                    if manager.transactions[i].offsets[0] < manager.transactions[b].offsets[0] {
                        Some(i)
                    } else {
                        Some(b)
                    }
                },
            };
        }
        i = i + 1;
    }
    let b = match best {
        None => {
            return Ok(false);
        },
        Some(b) => b,
    };
    let ghost m0 = *manager;
    let ghost t = m0.transactions@[b as int].transaction_id;
    let o = manager.transactions[b].offsets[0];
    proof {
        assert(m0.txn_entry_ok(m0.transactions@[b as int]));
        assert(m0.transactions@[b as int].offsets@[0] == o);
        assert(m0.offset_decodes(o));
        assert(crate::wal::event_transaction_id(m0.event_at(o)) == t);
        assert(forall|j2: int|
            0 <= j2 < b ==> txn_key()(#[trigger] m0.transactions@[j2]) != txn_key()(
                m0.transactions@[b as int],
            ));
        lemma_assoc_find_at(m0.transactions@, txn_key(), b as int);
        assert(m0.spec_txn(t) == Some(m0.transactions@[b as int]));
        assert(m0.is_committed(t));
        assert forall|t2: u64|
            #[trigger] m0.is_committed(t2) && m0.spec_txn(t2)->Some_0.offsets@.len()
                > 0 implies o <= m0.spec_txn(t2)->Some_0.offsets@[0] by {
            crate::transaction::lemma_assoc_find_has_key(m0.transactions@, txn_key(), t2);
            let j = choose|j: int|
                0 <= j < m0.transactions@.len() && m0.transactions@[j] == assoc_find(
                    m0.transactions@,
                    txn_key(),
                    t2,
                )->Some_0;
            assert(m0.transactions@[j].committed);
        }
        assert(spec_oldest_committed(m0, t, o));
    }
    let ev = match manager.wal.read_entry(o) {
        Ok(e) => e,
        Err(_) => {
            proof {
                assert(false);
            }
            return Ok(false);
        },
    };
    match apply_wal_event(&ev, manager) {
        Ok(_) => {},
        Err(e) => {
            proof {
                assert(!spec_apply_fits(m0.disk@, m0.event_at(o)));
            }
            return Err(e);
        },
    }
    let ghost ma = *manager;
    proof {
        assert(ma.wal == m0.wal);
        assert(ma.transactions@ == m0.transactions@);
        assert(ma.page_events@ == m0.page_events@);
        assert(ma.file_events@ == m0.file_events@);
    }
    match &ev {
        WalEvent::ModifyPageEvent { file_id, page_id, .. } => {
            let k = PageOffset { file_id: *file_id, page_id: *page_id };
            manager.remove_page_offset(k, o);
        },
        WalEvent::CommitTransactionEvent { .. } => {},
        WalEvent::ExtendFileEvent { file_id, .. } => {
            manager.remove_file_offset(*file_id, o);
        },
        WalEvent::CreateFileEvent { file_id, .. } => {
            manager.remove_file_offset(*file_id, o);
        },
        WalEvent::DeleteFileEvent { file_id, .. } => {
            manager.remove_file_offset(*file_id, o);
        },
    }
    let ghost mr = *manager;
    proof {
        assert(mr.transactions@ == m0.transactions@);
        assert(crate::transaction::spec_pending_from(mr.transactions@) == m0.spec_pending());
    }
    manager.pop_txn_head_at(b);
    let ghost m3 = *manager;
    proof {
        lemma_pending_update(mr.transactions@, b as int, m3.transactions@[b as int]);
    }
    let now_empty = manager.transactions[b].offsets.len() == 0;
    if now_empty {
        proof {
            lemma_pending_remove(m3.transactions@, b as int);
        }
        manager.remove_txn_entry_at(b);
    }
    proof {
        let m4 = *manager;
        let ev_m = ev@;
        // how each transaction's tracked entry moved
        assert(m3.transactions@ =~= mr.transactions@.update(b as int, m3.transactions@[b as int]));
        assert forall|t2: u64| t2 != t implies #[trigger] m4.spec_txn(t2) == m0.spec_txn(t2) by {
            crate::transaction::lemma_assoc_find_update(
                mr.transactions@,
                txn_key(),
                b as int,
                m3.transactions@[b as int],
                t2,
            );
            if now_empty {
                crate::transaction::lemma_assoc_find_remove(m3.transactions@, txn_key(), b as int, t2);
            }
        }
        assert(forall|j2: int|
            0 <= j2 < b ==> txn_key()(#[trigger] m0.transactions@[j2]) != txn_key()(
                m0.transactions@[b as int],
            ));
        lemma_assoc_find_at(m0.transactions@, txn_key(), b as int);
        assert(m0.spec_txn(t) == Some(m0.transactions@[b as int]));
        assert(m3.transactions@ =~= mr.transactions@.update(b as int, m3.transactions@[b as int]));
        crate::transaction::lemma_assoc_find_update(
            mr.transactions@,
            txn_key(),
            b as int,
            m3.transactions@[b as int],
            t,
        );
        assert(m3.spec_txn(t) == Some(m3.transactions@[b as int]));
        if now_empty {
            crate::transaction::lemma_assoc_find_remove(m3.transactions@, txn_key(), b as int, t);
            assert(m4.spec_txn(t) is None);
        } else {
            assert(m4.spec_txn(t) == Some(m3.transactions@[b as int]));
        }
        let old_offsets = m0.transactions@[b as int].offsets@;
        // an index entry of `t` other than `o` sits past the popped head
        assert forall|o2: u64| old_offsets.contains(o2) && o2 != o implies m4.spec_txn(t) is Some
            && m4.spec_txn(t)->Some_0.offsets@.contains(o2) by {
            let idx = choose|idx: int| 0 <= idx < old_offsets.len() && old_offsets[idx] == o2;
            assert(idx != 0);
            assert(old_offsets.drop_first()[idx - 1] == o2);
            assert(!now_empty);
        }
        // page index entries are still sound
        assert forall|i2: int, j: int|
            0 <= i2 < m4.page_events@.len() && 0 <= j
                < m4.page_events@[i2].list@.len() implies m4.page_entry_ok(
            m4.page_events@[i2].key,
            #[trigger] m4.page_events@[i2].list@[j],
        ) by {
            let bigk = m4.page_events@[i2].key;
            let o2 = m4.page_events@[i2].list@[j];
            assert(forall|j2: int|
                0 <= j2 < i2 ==> page_key()(#[trigger] m4.page_events@[j2]) != bigk);
            lemma_assoc_find_at(m4.page_events@, page_key(), i2);
            assert(m4.spec_page_list(bigk) == m4.page_events@[i2].list@);
            assert(m4.page_events@ == mr.page_events@);
            assert(m4.spec_page_list(bigk) == mr.spec_page_list(bigk));
            let provenance = match ev_m {
                WalEventModel::ModifyPageEvent { file_id, page_id, .. } => {
                    let k = PageOffset { file_id, page_id };
                    assert(ma.page_events@ == m0.page_events@);
                    assert(ma.spec_page_list(bigk) == m0.spec_page_list(bigk));
                    if bigk == k {
                        assert(mr.spec_page_list(k)[j] == o2);
                        let j0 = choose|j0: int|
                            0 <= j0 < ma.spec_page_list(k).len() && ma.spec_page_list(k)[j0] == o2;
                        j0
                    } else {
                        assert(mr.spec_page_list(bigk) == ma.spec_page_list(bigk));
                        j
                    }
                },
                _ => {
                    assert(mr.page_events@ == m0.page_events@);
                    assert(mr.spec_page_list(bigk) == m0.spec_page_list(bigk));
                    j
                },
            };
            assert(0 <= provenance < m0.spec_page_list(bigk).len() && m0.spec_page_list(
                bigk,
            )[provenance] == o2);
            crate::transaction::lemma_assoc_find_has_key(m0.page_events@, page_key(), bigk);
            let i0 = choose|i0: int|
                0 <= i0 < m0.page_events@.len() && m0.page_events@[i0] == assoc_find(
                    m0.page_events@,
                    page_key(),
                    bigk,
                )->Some_0;
            assert(m0.page_entry_ok(m0.page_events@[i0].key, m0.page_events@[i0].list@[provenance]));
            assert(m0.page_entry_ok(bigk, o2));
            assert(o2.wal_offset != o) by {
                if o2.wal_offset == o {
                    assert(m0.event_at(o) matches WalEventModel::ModifyPageEvent { .. });
                    match ev_m {
                        WalEventModel::ModifyPageEvent { file_id, page_id, .. } => {
                            assert(bigk == (PageOffset { file_id, page_id }));
                        },
                        _ => {},
                    }
                }
            }
            if o2.transaction_id == t {
                assert(old_offsets.contains(o2.wal_offset));
            }
        }
        // file index entries are still sound
        assert forall|i2: int, j: int|
            0 <= i2 < m4.file_events@.len() && 0 <= j
                < m4.file_events@[i2].list@.len() implies m4.file_entry_ok(
            m4.file_events@[i2].file_id,
            #[trigger] m4.file_events@[i2].list@[j],
        ) by {
            let bigf = m4.file_events@[i2].file_id;
            let o2 = m4.file_events@[i2].list@[j];
            assert(forall|j2: int|
                0 <= j2 < i2 ==> crate::transaction::file_key()(#[trigger] m4.file_events@[j2])
                    != bigf);
            lemma_assoc_find_at(m4.file_events@, crate::transaction::file_key(), i2);
            assert(m4.spec_file_list(bigf) == m4.file_events@[i2].list@);
            assert(m4.file_events@ == mr.file_events@);
            assert(m4.spec_file_list(bigf) == mr.spec_file_list(bigf));
            let is_file_event = ev_m matches WalEventModel::ExtendFileEvent { .. } || ev_m matches WalEventModel::CreateFileEvent { .. } || ev_m matches WalEventModel::DeleteFileEvent { .. };
            let target: u64 = match ev_m {
                WalEventModel::ExtendFileEvent { file_id, .. } => file_id,
                WalEventModel::CreateFileEvent { file_id, .. } => file_id,
                WalEventModel::DeleteFileEvent { file_id, .. } => file_id,
                _ => 0u64,
            };
            let provenance: int = if is_file_event {
                assert(ma.file_events@ == m0.file_events@);
                assert(ma.spec_file_list(bigf) == m0.spec_file_list(bigf));
                if bigf == target {
                    assert(mr.spec_file_list(bigf)[j] == o2);
                    choose|j0: int|
                        0 <= j0 < ma.spec_file_list(bigf).len() && ma.spec_file_list(bigf)[j0]
                            == o2
                } else {
                    assert(mr.spec_file_list(bigf) == ma.spec_file_list(bigf));
                    j
                }
            } else {
                assert(mr.file_events@ == m0.file_events@);
                assert(mr.spec_file_list(bigf) == m0.spec_file_list(bigf));
                j
            };
            assert(0 <= provenance < m0.spec_file_list(bigf).len() && m0.spec_file_list(
                bigf,
            )[provenance] == o2);
            crate::transaction::lemma_assoc_find_has_key(
                m0.file_events@,
                crate::transaction::file_key(),
                bigf,
            );
            let i0 = choose|i0: int|
                0 <= i0 < m0.file_events@.len() && m0.file_events@[i0] == assoc_find(
                    m0.file_events@,
                    crate::transaction::file_key(),
                    bigf,
                )->Some_0;
            assert(m0.file_entry_ok(m0.file_events@[i0].file_id, m0.file_events@[i0].list@[provenance]));
            assert(m0.file_entry_ok(bigf, o2));
            assert(o2.wal_offset != o) by {
                if o2.wal_offset == o {
                    match ev_m {
                        WalEventModel::ExtendFileEvent { file_id, .. } => {
                            assert(bigf == file_id);
                        },
                        WalEventModel::CreateFileEvent { file_id, .. } => {
                            assert(bigf == file_id);
                        },
                        WalEventModel::DeleteFileEvent { file_id, .. } => {
                            assert(bigf == file_id);
                        },
                        _ => {},
                    }
                }
            }
            if o2.transaction_id == t {
                assert(old_offsets.contains(o2.wal_offset));
            }
        }
        // tracked transactions are still sound
        assert forall|i2: int| 0 <= i2 < m4.transactions@.len() implies m4.txn_entry_ok(
            #[trigger] m4.transactions@[i2],
        ) by {
            let e2 = m4.transactions@[i2];
            if now_empty {
                let iold: int = if i2 < b {
                    i2
                } else {
                    i2 + 1
                };
                assert(e2 == m0.transactions@[iold]);
                assert(m0.txn_entry_ok(m0.transactions@[iold]));
            } else {
                if i2 == b {
                    assert(m0.txn_entry_ok(m0.transactions@[i2]));
                    assert(e2.offsets@ == old_offsets.drop_first());
                    assert forall|j: int| 0 <= j < e2.offsets@.len() implies m4.offset_decodes(
                        #[trigger] e2.offsets@[j],
                    ) && crate::wal::event_transaction_id(m4.event_at(e2.offsets@[j]))
                        == e2.transaction_id by {
                        assert(e2.offsets@[j] == old_offsets[j + 1]);
                        assert(m0.offset_decodes(old_offsets[j + 1]));
                    }
                    assert forall|j1: int, j2: int|
                        0 <= j1 < j2 < e2.offsets@.len() implies #[trigger] e2.offsets@[j1]
                        < #[trigger] e2.offsets@[j2] by {
                        assert(e2.offsets@[j1] == old_offsets[j1 + 1]);
                        assert(e2.offsets@[j2] == old_offsets[j2 + 1]);
                        assert(old_offsets[j1 + 1] < old_offsets[j2 + 1]);
                    }
                } else {
                    assert(e2 == m0.transactions@[i2]);
                    assert(m0.txn_entry_ok(m0.transactions@[i2]));
                    assert forall|j: int| 0 <= j < e2.offsets@.len() implies m4.offset_decodes(
                        #[trigger] e2.offsets@[j],
                    ) && crate::wal::event_transaction_id(m4.event_at(e2.offsets@[j]))
                        == e2.transaction_id by {
                        assert(m0.offset_decodes(e2.offsets@[j]));
                    }
                }
            }
        }
        // id bounds carry over through the entry maps
        assert forall|i2: int| 0 <= i2 < m4.page_events@.len() implies (
        #[trigger] m4.page_events@[i2]).key.file_id <= m4.file by {
            let i0 = choose|i0: int|
                0 <= i0 < m0.page_events@.len() && (#[trigger] m4.page_events@[i2]).key == (
                #[trigger] m0.page_events@[i0]).key;
            assert(m0.page_events@[i0].key.file_id <= m0.file);
        }
        assert forall|i2: int| 0 <= i2 < m4.file_events@.len() implies (
        #[trigger] m4.file_events@[i2]).file_id <= m4.file by {
            let i0 = choose|i0: int|
                0 <= i0 < m0.file_events@.len() && (#[trigger] m4.file_events@[i2]).file_id == (
                #[trigger] m0.file_events@[i0]).file_id;
            assert(m0.file_events@[i0].file_id <= m0.file);
        }
        assert forall|i2: int, j2: int|
            0 <= i2 < j2 < m4.transactions@.len() implies (#[trigger] m4.transactions@[i2]).transaction_id
            != (#[trigger] m4.transactions@[j2]).transaction_id by {
            if now_empty {
                let a: int = if i2 < b {
                    i2
                } else {
                    i2 + 1
                };
                let c2: int = if j2 < b {
                    j2
                } else {
                    j2 + 1
                };
                assert(m4.transactions@[i2] == m0.transactions@[a]);
                assert(m4.transactions@[j2] == m0.transactions@[c2]);
                assert(m0.transactions@[a].transaction_id != m0.transactions@[c2].transaction_id);
            } else {
                assert(m4.transactions@[i2].transaction_id
                    == m0.transactions@[i2].transaction_id);
                assert(m4.transactions@[j2].transaction_id
                    == m0.transactions@[j2].transaction_id);
            }
        }
        assert forall|i2: int| 0 <= i2 < m4.transactions@.len() implies (
        #[trigger] m4.transactions@[i2]).transaction_id <= m4.transaction by {
            if now_empty {
                let a: int = if i2 < b {
                    i2
                } else {
                    i2 + 1
                };
                assert(m4.transactions@[i2] == m0.transactions@[a]);
            } else {
                assert(m4.transactions@[i2].transaction_id
                    == m0.transactions@[i2].transaction_id);
            }
        }
        assert forall|f: u64| m4.disk@.dom().contains(f) implies f <= m4.file by {
            assert(m4.disk@ == spec_disk_apply(m0.disk@, ev_m));
            if !m0.disk@.dom().contains(f) {
                assert(crate::wal::event_file_id(ev_m) == Some(f));
                assert(m0.event_at(o) == ev_m);
            }
        }
        assert(m4.inv());
        assert(m4.spec_pending() < m0.spec_pending());
        assert(m4.disk@ == spec_disk_apply(m0.disk@, m0.event_at(o)));
        // every page index kept exactly its other records, none of them `o`
        assert forall|k2: PageOffset, j: int|
            0 <= j < m4.spec_page_list(k2).len() implies (#[trigger] m4.spec_page_list(
                k2,
            )[j]).wal_offset != o && m0.spec_page_list(k2).contains(m4.spec_page_list(k2)[j]) by {
            assert(m4.page_events@ == mr.page_events@);
            assert(m4.spec_page_list(k2) == mr.spec_page_list(k2));
            match ev_m {
                WalEventModel::ModifyPageEvent { file_id, page_id, .. } => {
                    let k = PageOffset { file_id, page_id };
                    assert(ma.page_events@ == m0.page_events@);
                    assert(ma.spec_page_list(k2) == m0.spec_page_list(k2));
                    if k2 == k {
                        assert(mr.spec_page_list(k)[j] == m4.spec_page_list(k2)[j]);
                        let j0 = choose|j0: int|
                            0 <= j0 < ma.spec_page_list(k).len() && ma.spec_page_list(k)[j0]
                                == mr.spec_page_list(k)[j];
                        assert(m0.spec_page_list(k2)[j0] == m4.spec_page_list(k2)[j]);
                    } else {
                        assert(mr.spec_page_list(k2) == ma.spec_page_list(k2));
                        m0.lemma_page_list_entry_ok(k2, j);
                        assert(m0.spec_page_list(k2)[j] == m4.spec_page_list(k2)[j]);
                    }
                },
                _ => {
                    assert(mr.page_events@ == m0.page_events@);
                    assert(mr.spec_page_list(k2) == m0.spec_page_list(k2));
                    m0.lemma_page_list_entry_ok(k2, j);
                    assert(m0.spec_page_list(k2)[j] == m4.spec_page_list(k2)[j]);
                },
            }
        }
        assert forall|k2: PageOffset, j: int|
            0 <= j < m0.spec_page_list(k2).len() && (#[trigger] m0.spec_page_list(
                k2,
            )[j]).wal_offset != o implies m4.spec_page_list(k2).contains(
            m0.spec_page_list(k2)[j],
        ) by {
            assert(m4.spec_page_list(k2) == mr.spec_page_list(k2));
            match ev_m {
                WalEventModel::ModifyPageEvent { file_id, page_id, .. } => {
                    let k = PageOffset { file_id, page_id };
                    assert(ma.spec_page_list(k2) == m0.spec_page_list(k2));
                    if k2 == k {
                        assert(ma.spec_page_list(k)[j] == m0.spec_page_list(k2)[j]);
                        assert(mr.spec_page_list(k).contains(ma.spec_page_list(k)[j]));
                    } else {
                        assert(mr.spec_page_list(k2) == ma.spec_page_list(k2));
                        assert(mr.spec_page_list(k2)[j] == m0.spec_page_list(k2)[j]);
                    }
                },
                _ => {
                    assert(mr.spec_page_list(k2) == m0.spec_page_list(k2));
                    assert(mr.spec_page_list(k2)[j] == m0.spec_page_list(k2)[j]);
                },
            }
        }
        // and likewise every file index
        assert forall|f2: u64, j: int|
            0 <= j < m4.spec_file_list(f2).len() implies (#[trigger] m4.spec_file_list(
                f2,
            )[j]).wal_offset != o && m0.spec_file_list(f2).contains(m4.spec_file_list(f2)[j]) by {
            assert(m4.file_events@ == mr.file_events@);
            assert(m4.spec_file_list(f2) == mr.spec_file_list(f2));
            let target: u64 = match ev_m {
                WalEventModel::ExtendFileEvent { file_id, .. } => file_id,
                WalEventModel::CreateFileEvent { file_id, .. } => file_id,
                WalEventModel::DeleteFileEvent { file_id, .. } => file_id,
                _ => 0u64,
            };
            let is_file_event = ev_m matches WalEventModel::ExtendFileEvent { .. } || ev_m
                matches WalEventModel::CreateFileEvent { .. } || ev_m
                matches WalEventModel::DeleteFileEvent { .. };
            if is_file_event {
                assert(ma.file_events@ == m0.file_events@);
                assert(ma.spec_file_list(f2) == m0.spec_file_list(f2));
                if f2 == target {
                    assert(mr.spec_file_list(f2)[j] == m4.spec_file_list(f2)[j]);
                    let j0 = choose|j0: int|
                        0 <= j0 < ma.spec_file_list(f2).len() && ma.spec_file_list(f2)[j0]
                            == mr.spec_file_list(f2)[j];
                    assert(m0.spec_file_list(f2)[j0] == m4.spec_file_list(f2)[j]);
                } else {
                    assert(mr.spec_file_list(f2) == ma.spec_file_list(f2));
                    m0.lemma_file_list_entry_ok(f2, j);
                    assert(m0.spec_file_list(f2)[j] == m4.spec_file_list(f2)[j]);
                }
            } else {
                assert(mr.file_events@ == m0.file_events@);
                assert(mr.spec_file_list(f2) == m0.spec_file_list(f2));
                m0.lemma_file_list_entry_ok(f2, j);
                assert(m0.spec_file_list(f2)[j] == m4.spec_file_list(f2)[j]);
            }
        }
        assert forall|f2: u64, j: int|
            0 <= j < m0.spec_file_list(f2).len() && (#[trigger] m0.spec_file_list(
                f2,
            )[j]).wal_offset != o implies m4.spec_file_list(f2).contains(
            m0.spec_file_list(f2)[j],
        ) by {
            assert(m4.spec_file_list(f2) == mr.spec_file_list(f2));
            let target: u64 = match ev_m {
                WalEventModel::ExtendFileEvent { file_id, .. } => file_id,
                WalEventModel::CreateFileEvent { file_id, .. } => file_id,
                WalEventModel::DeleteFileEvent { file_id, .. } => file_id,
                _ => 0u64,
            };
            let is_file_event = ev_m matches WalEventModel::ExtendFileEvent { .. } || ev_m
                matches WalEventModel::CreateFileEvent { .. } || ev_m
                matches WalEventModel::DeleteFileEvent { .. };
            if is_file_event {
                assert(ma.spec_file_list(f2) == m0.spec_file_list(f2));
                if f2 == target {
                    assert(ma.spec_file_list(f2)[j] == m0.spec_file_list(f2)[j]);
                    assert(mr.spec_file_list(f2).contains(ma.spec_file_list(f2)[j]));
                } else {
                    assert(mr.spec_file_list(f2) == ma.spec_file_list(f2));
                    assert(mr.spec_file_list(f2)[j] == m0.spec_file_list(f2)[j]);
                }
            } else {
                assert(mr.spec_file_list(f2) == m0.spec_file_list(f2));
                assert(mr.spec_file_list(f2)[j] == m0.spec_file_list(f2)[j]);
            }
        }
        assert(spec_oldest_committed(m0, t, o));
        assert(old(manager).transactions@[b as int].committed);
    }
    Ok(true)
}


/// Whether a plain vector holds the value.
fn vec_contains(v: &Vec<u64>, x: u64) -> (r: bool)
    ensures
        r == v@.contains(x),
{
    let n = v.len();
    let mut i: usize = 0;
    while i < n
        invariant
            i <= n == v@.len(),
            forall|j: int| 0 <= j < i ==> v@[j] != x,
        decreases n - i,
    {
        if v[i] == x {
            proof {
                assert(v@[i as int] == x);
            }
            return true;
        }
        i = i + 1;
    }
    false
}

/// Drive checkpoint steps until a no-progress signal: afterwards no
/// committed transaction remains tracked — every one of their records has
/// been applied to the data files and their entries reclaimed.
pub fn checkpoint_until_idle(manager: &mut TransactionManager) -> (r: Result<(), DbError>)
    requires
        old(manager).inv(),
    ensures
        final(manager).inv(),
        (forall|i: int|
            0 <= i < old(manager).transactions@.len() ==> !(#[trigger] old(manager).transactions@[i]).committed) ==> r == Ok::<(), DbError>(()) && *final(manager)
            == *old(manager),
        r is Ok ==> forall|i: int|
            0 <= i < final(manager).transactions@.len() ==> !(#[trigger] final(manager).transactions@[i]).committed,
        final(manager).wal == old(manager).wal,
        final(manager).transaction == old(manager).transaction,
        final(manager).file == old(manager).file,
        r is Err ==> r == Err::<(), DbError>(DbError::IoFailure) && (exists|t: u64, o: u64|
            #[trigger] spec_oldest_committed(*final(manager), t, o) && !spec_apply_fits(
                final(manager).disk@,
                final(manager).event_at(o),
            )),
{
    loop
        invariant
            manager.inv(),
            manager.wal == old(manager).wal,
            manager.transaction == old(manager).transaction,
            manager.file == old(manager).file,
            (forall|i: int|
                0 <= i < old(manager).transactions@.len() ==> !(#[trigger] old(manager).transactions@[i]).committed) ==> *manager == *old(manager),
        decreases manager.spec_pending(),
    {
        match checkpoint_step(manager) {
            Ok(true) => {},
            Ok(false) => {
                return Ok(());
            },
            Err(e) => {
                return Err(e);
            },
        }
    }
}

/// Read and apply all valid log records: replay, in order, every record of
/// a transaction that reached its commit record; discard the records of
/// transactions that never committed; and treat the first undecodable
/// position — a torn trailing write — as the end of the log, raising no
/// error for it. The log is then truncated and the manager left ready to
/// admit transactions. Fails only when the machine cannot represent a
/// replayed file.
pub fn crash_recover(manager: &mut TransactionManager) -> (r: Result<(), DbError>)
    requires
        old(manager).disk.wf(),
        old(manager).transactions@.len() == 0,
        old(manager).page_events@.len() == 0,
        old(manager).file_events@.len() == 0,
    ensures
        r is Ok <==> spec_replay_fits(
            old(manager).disk@,
            spec_parse(old(manager).wal.bytes()),
            spec_committed_set(spec_parse(old(manager).wal.bytes())),
        ),
        r is Ok ==> {
            &&& final(manager).inv()
            &&& final(manager).wal.events() == Seq::<WalEventModel>::empty()
            &&& final(manager).wal.bytes() == Seq::<u8>::empty()
            &&& final(manager).disk@ == spec_recover(old(manager).disk@, old(manager).wal.bytes())
            &&& final(manager).transactions@ == old(manager).transactions@
            &&& final(manager).page_events@ == old(manager).page_events@
            &&& final(manager).file_events@ == old(manager).file_events@
            &&& final(manager).transaction == old(manager).transaction
            &&& old(manager).file <= final(manager).file
            &&& (forall|f: u64|
                final(manager).disk@.dom().contains(f) ==> f <= final(manager).file)
            &&& (final(manager).file != old(manager).file ==> final(manager).disk@.dom().contains(
                final(manager).file,
            ))
        },
        r is Err ==> r == Err::<(), DbError>(DbError::IoFailure),
{
    let ghost b = old(manager).wal.bytes();
    let ghost full = spec_parse(b);
    let ghost cset = spec_committed_set(full);
    let ghost d0 = old(manager).disk@;
    let total = manager.wal.size();

    // first pass: which transactions reached a commit record
    let mut committed: Vec<u64> = Vec::new();
    let mut pos: u64 = 0;
    let ghost mut done: Seq<WalEventModel> = Seq::empty();
    proof {
        assert(done + spec_parse_from(b, 0) =~= spec_parse_from(b, 0));
    }
    let mut cur = manager.wal.decode_at(pos);
    while cur.is_some()
        invariant
            *manager == *old(manager),
            total == b.len(),
            manager.wal.bytes() == b,
            pos <= total,
            spec_parse_from(b, 0) == done + spec_parse_from(b, pos as int),
            match cur {
                Some(p) => crate::wal::spec_decode(b, pos as int) is Some && p.0@
                    == crate::wal::spec_decode(b, pos as int)->Some_0.0 && p.1 as int
                    == crate::wal::spec_decode(b, pos as int)->Some_0.1,
                None => crate::wal::spec_decode(b, pos as int) is None,
            },
            forall|a: u64| committed@.contains(a) <==> spec_committed_in(done, a),
        decreases b.len() - pos,
    {
        let (e, l) = cur.unwrap();
        proof {
            crate::wal::lemma_decode_some_props(b, pos as int);
        }
        match &e {
            WalEvent::CommitTransactionEvent { transaction_id } => {
                let tc = *transaction_id;
                proof {
                    assert(e@ == (WalEventModel::CommitTransactionEvent { transaction_id: tc }));
                }
                if !vec_contains(&committed, tc) {
                    let ghost prev = committed@;
                    committed.push(tc);
                    proof {
                        assert forall|a: u64| committed@.contains(a) <==> spec_committed_in(
                            done.push(e@),
                            a,
                        ) by {
                            lemma_committed_push(done, e@, a);
                            if prev.contains(a) {
                                lemma_push_contains(prev, tc, a);
                            }
                            if a == tc {
                                assert(committed@.last() == tc);
                            }
                            if committed@.contains(a) {
                                let x = choose|x: int|
                                    0 <= x < committed@.len() && committed@[x] == a;
                                if x < prev.len() {
                                    assert(prev[x] == a);
                                }
                            }
                        }
                    }
                } else {
                    proof {
                        assert forall|a: u64| committed@.contains(a) <==> spec_committed_in(
                            done.push(e@),
                            a,
                        ) by {
                            lemma_committed_push(done, e@, a);
                        }
                    }
                }
            },
            _ => {
                proof {
                    assert forall|a: u64| committed@.contains(a) <==> spec_committed_in(
                        done.push(e@),
                        a,
                    ) by {
                        lemma_committed_push(done, e@, a);
                    }
                }
            },
        }
        proof {
            assert(spec_parse_from(b, pos as int) == seq![e@] + spec_parse_from(
                b,
                pos as int + l as int,
            ));
            assert(done + spec_parse_from(b, pos as int) =~= done.push(e@) + spec_parse_from(
                b,
                pos as int + l as int,
            ));
            done = done.push(e@);
        }
        pos = pos + l;
        cur = manager.wal.decode_at(pos);
    }
    proof {
        assert(spec_parse_from(b, pos as int) =~= Seq::<WalEventModel>::empty());
        assert(full =~= done);
        assert(forall|a: u64| committed@.contains(a) <==> cset.contains(a));
    }

    // second pass: replay the committed records, in order
    let mut pos2: u64 = 0;
    let ghost mut done2: Seq<WalEventModel> = Seq::empty();
    proof {
        assert(done2 + spec_parse_from(b, 0) =~= spec_parse_from(b, 0));
        assert(spec_replay(d0, done2, cset) =~= d0);
    }
    let mut cur2 = manager.wal.decode_at(pos2);
    while cur2.is_some()
        invariant
            manager.wal == old(manager).wal,
            manager.transactions@ == old(manager).transactions@,
            manager.page_events@ == old(manager).page_events@,
            manager.file_events@ == old(manager).file_events@,
            manager.transaction == old(manager).transaction,
            manager.file == old(manager).file,
            manager.disk.wf(),
            total == b.len(),
            manager.wal.bytes() == b,
            b == old(manager).wal.bytes(),
            d0 == old(manager).disk@,
            pos2 <= total,
            full == spec_parse(b),
            cset == spec_committed_set(full),
            spec_parse_from(b, 0) == done2 + spec_parse_from(b, pos2 as int),
            manager.disk@ == spec_replay(d0, done2, cset),
            spec_replay_fits(d0, done2, cset),
            match cur2 {
                Some(p) => crate::wal::spec_decode(b, pos2 as int) is Some && p.0@
                    == crate::wal::spec_decode(b, pos2 as int)->Some_0.0 && p.0.wf() && p.1 as int
                    == crate::wal::spec_decode(b, pos2 as int)->Some_0.1,
                None => crate::wal::spec_decode(b, pos2 as int) is None,
            },
            forall|a: u64| committed@.contains(a) <==> cset.contains(a),
        decreases b.len() - pos2,
    {
        let (e, l) = cur2.unwrap();
        proof {
            crate::wal::lemma_decode_some_props(b, pos2 as int);
        }
        let t = crate::wal::transaction_id_of(&e);
        if vec_contains(&committed, t) {
            match apply_wal_event(&e, manager) {
                Ok(_) => {
                    proof {
                        lemma_replay_push(d0, done2, e@, cset);
                    }
                },
                Err(err) => {
                    proof {
                        lemma_replay_push(d0, done2, e@, cset);
                        assert(!spec_replay_fits(d0, done2.push(e@), cset));
                        assert(spec_parse_from(b, pos2 as int) == seq![e@] + spec_parse_from(
                            b,
                            pos2 as int + l as int,
                        ));
                        assert(full =~= done2.push(e@) + spec_parse_from(
                            b,
                            pos2 as int + l as int,
                        ));
                        lemma_replay_concat(
                            d0,
                            done2.push(e@),
                            spec_parse_from(b, pos2 as int + l as int),
                            cset,
                        );
                        assert(!spec_replay_fits(d0, full, cset));
                    }
                    return Err(DbError::IoFailure);
                },
            }
        } else {
            proof {
                lemma_replay_push(d0, done2, e@, cset);
            }
        }
        proof {
            assert(spec_parse_from(b, pos2 as int) == seq![e@] + spec_parse_from(
                b,
                pos2 as int + l as int,
            ));
            assert(done2 + spec_parse_from(b, pos2 as int) =~= done2.push(e@) + spec_parse_from(
                b,
                pos2 as int + l as int,
            ));
            done2 = done2.push(e@);
        }
        pos2 = pos2 + l;
        cur2 = manager.wal.decode_at(pos2);
    }
    proof {
        assert(spec_parse_from(b, pos2 as int) =~= Seq::<WalEventModel>::empty());
        assert(full =~= done2);
        assert(manager.disk@ == spec_recover(d0, b));
        assert(spec_replay_fits(d0, full, cset));
    }

    // the log is now fully reconciled with the data files
    match manager.wal.truncate() {
        Ok(_) => {},
        Err(_) => {
            proof {
                assert(false);
            }
            return Err(DbError::IoFailure);
        },
    }

    // reseed the file counter over the recovered files
    let ghost file0 = manager.file;
    let ids = manager.disk.file_ids();
    let n = ids.len();
    let mut mx: u64 = manager.file;
    let mut i: usize = 0;
    while i < n
        invariant
            i <= n == ids@.len(),
            ids@.len() == manager.disk.files@.len(),
            forall|j: int|
                0 <= j < ids@.len() ==> ids@[j] == (#[trigger] manager.disk.files@[j]).file_id,
            manager.disk.wf(),
            file0 <= mx,
            forall|j: int| 0 <= j < i ==> #[trigger] ids@[j] <= mx,
            mx == file0 || exists|j: int| 0 <= j < i && #[trigger] ids@[j] == mx,
        decreases n - i,
    {
        if ids[i] > mx {
            mx = ids[i];
            proof {
                assert(ids@[i as int] == mx);
            }
        }
        i = i + 1;
    }
    manager.file = mx;
    proof {
        if mx != file0 {
            let j = choose|j: int| 0 <= j < ids@.len() && ids@[j] == mx;
            assert(manager.disk.files@[j].file_id == mx);
            assert(forall|j2: int|
                0 <= j2 < j ==> (#[trigger] manager.disk.files@[j2]).file_id
                    != manager.disk.files@[j].file_id);
            crate::disk::lemma_find_at(manager.disk.files@, j);
        }
    }
    proof {
        assert forall|f: u64| manager.disk@.dom().contains(f) implies f <= manager.file by {
            crate::disk::lemma_find_has_id(manager.disk.files@, f);
            let idx = choose|idx: int|
                0 <= idx < manager.disk.files@.len() && manager.disk.files@[idx]
                    == crate::disk::spec_find(manager.disk.files@, f)->Some_0;
            assert(ids@[idx] == f);
        }
        assert(manager.inv());
    }
    Ok(())
}

/// Recovery is idempotent: over the empty log a clean recovery leaves,
/// replay changes nothing, so a second `crash_recover` in succession
/// reproduces the same on-disk state.
pub proof fn lemma_recovery_idempotent(d: Map<u64, Seq<Seq<u8>>>)
    ensures
        spec_recover(d, Seq::<u8>::empty()) == d,
{
    assert(spec_parse(Seq::<u8>::empty()) =~= Seq::<WalEventModel>::empty());
}

/// Replay never touches a file that no replayed record names.
pub proof fn lemma_replay_skips_file(
    d: Map<u64, Seq<Seq<u8>>>,
    es: Seq<WalEventModel>,
    c: Set<u64>,
    f: u64,
)
    requires
        d.dom().contains(f),
        forall|j: int|
            0 <= j < es.len() && c.contains(event_transaction_id(#[trigger] es[j]))
                ==> crate::wal::event_file_id(es[j]) != Some(f),
    ensures
        spec_replay(d, es, c).dom().contains(f),
        spec_replay(d, es, c)[f] == d[f],
    decreases es.len(),
{
    if es.len() > 0 {
        let d1 = if c.contains(event_transaction_id(es.first())) {
            spec_disk_apply(d, es.first())
        } else {
            d
        };
        assert(es[0] == es.first());
        assert(d1.dom().contains(f) && d1[f] == d[f]);
        assert(forall|j: int|
            0 <= j < es.drop_first().len() && c.contains(
                event_transaction_id(#[trigger] es.drop_first()[j]),
            ) ==> crate::wal::event_file_id(es.drop_first()[j]) != Some(f)) by {
            assert(forall|j: int|
                0 <= j < es.drop_first().len() ==> #[trigger] es.drop_first()[j] == es[j + 1]);
        }
        lemma_replay_skips_file(d1, es.drop_first(), c, f);
    }
}

/// Durability: once a page write's record stands in the log and its
/// transaction reaches a commit record, recovery reproduces the written
/// image at its page slot — whatever else the log holds, as long as no
/// later record of a committed transaction touches that file.
pub proof fn lemma_recover_durable(
    d: Map<u64, Seq<Seq<u8>>>,
    es: Seq<WalEventModel>,
    i: int,
    t: u64,
    f: u64,
    p: u64,
    undo: Seq<u8>,
    redo: Seq<u8>,
)
    requires
        0 <= i < es.len(),
        es[i] == (WalEventModel::ModifyPageEvent {
            transaction_id: t,
            file_id: f,
            page_id: p,
            undo,
            redo,
        }),
        spec_committed_in(es, t),
        forall|j: int|
            i < j < es.len() && spec_committed_set(es).contains(
                event_transaction_id(#[trigger] es[j]),
            ) ==> crate::wal::event_file_id(es[j]) != Some(f),
    ensures
        spec_replay(d, es, spec_committed_set(es)).dom().contains(f),
        (p as int) < spec_replay(d, es, spec_committed_set(es))[f].len(),
        spec_replay(d, es, spec_committed_set(es))[f][p as int] == redo,
{
    let c = spec_committed_set(es);
    let a = es.take(i + 1);
    let rest = es.skip(i + 1);
    assert(es =~= a + rest);
    lemma_replay_concat(d, a, rest, c);
    let before = spec_replay(d, es.take(i), c);
    assert(a =~= es.take(i).push(es[i]));
    lemma_replay_push(d, es.take(i), es[i], c);
    assert(c.contains(t));
    let dmid = spec_replay(d, a, c);
    assert(dmid == spec_disk_apply(before, es[i]));
    assert(dmid.dom().contains(f));
    assert(dmid[f] == crate::disk::spec_set_page(
        if before.dom().contains(f) {
            before[f]
        } else {
            Seq::empty()
        },
        p as int,
        redo,
    ));
    assert((p as int) < dmid[f].len() && dmid[f][p as int] == redo);
    assert(forall|j: int|
        0 <= j < rest.len() && c.contains(event_transaction_id(#[trigger] rest[j]))
            ==> crate::wal::event_file_id(rest[j]) != Some(f)) by {
        assert(forall|j: int| 0 <= j < rest.len() ==> #[trigger] rest[j] == es[i + 1 + j]);
    }
    lemma_replay_skips_file(dmid, rest, c, f);
}


/// Durability, end to end: once `write_page` has returned success and the
/// transaction's commit record has been logged, a crash recovery over the
/// log bytes as they then stand — against whatever data files the crash
/// left behind — reproduces the written image at its page slot.
pub proof fn lemma_write_commit_durable(
    m0: TransactionManager,
    m1: TransactionManager,
    m2: TransactionManager,
    txn: u64,
    file: u64,
    offset: u64,
    redo: Seq<u8>,
    d: Map<u64, Seq<Seq<u8>>>,
)
    requires
        m0.inv(),
        m1.inv(),
        redo.len() == crate::page::PAGE_SIZE,
        crate::transaction::spec_wrote(m0, m1, txn, file, offset, redo),
        m2.wal.clean(),
        m2.wal.events() == m1.wal.events().push(
            WalEventModel::CommitTransactionEvent { transaction_id: txn },
        ),
    ensures
        spec_recover(d, m2.wal.bytes()).dom().contains(file),
        (offset as int) < spec_recover(d, m2.wal.bytes())[file].len(),
        spec_recover(d, m2.wal.bytes())[file][offset as int] == redo,
{
    let es = m2.wal.events();
    let i = m0.wal.events().len() as int;
    let ev = WalEventModel::ModifyPageEvent {
        transaction_id: txn,
        file_id: file,
        page_id: offset,
        undo: m0.spec_resolve_page(txn, file, offset),
        redo: redo,
    };
    let commit = WalEventModel::CommitTransactionEvent { transaction_id: txn };
    assert(es.len() == i + 2);
    assert(es[i] == ev);
    assert(es[i + 1] == commit);
    assert(spec_committed_in(es, txn)) by {
        assert(es[i + 1] == (WalEventModel::CommitTransactionEvent { transaction_id: txn }));
    }
    assert forall|j: int|
        i < j < es.len() && spec_committed_set(es).contains(
            event_transaction_id(#[trigger] es[j]),
        ) implies crate::wal::event_file_id(es[j]) != Some(file) by {
        assert(j == i + 1);
    }
    lemma_recover_durable(d, es, i, txn, file, offset, m0.spec_resolve_page(txn, file, offset), redo);
    // the log bytes parse back to exactly these events
    crate::wal::lemma_parse_wf(m2.wal.bytes(), 0);
    assert(spec_parse(m2.wal.bytes()) == es);
}

} // verus!
