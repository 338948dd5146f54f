//! The write-ahead log: durable source of truth for every mutating intent.
//!
//! Records are encoded in a self-describing binary form: a one-byte validity
//! marker, a one-byte tag that fixes the record's length, and a fixed-size
//! payload of little-endian integers and raw page images. The marker and tag
//! make a torn trailing write detectable: a forward scan stops at the first
//! position that does not decode, and everything before it is intact.

use vstd::bytes::lemma_auto_spec_u64_to_from_le_bytes;
use vstd::bytes::spec_u64_from_le_bytes;
use vstd::bytes::spec_u64_to_le_bytes;
use vstd::bytes::u64_from_le_bytes;
use vstd::bytes::u64_to_le_bytes;
use vstd::prelude::*;
use vstd::slice::slice_subrange;

use crate::page::Page;
use crate::page::PAGE_SIZE;
use crate::DbError;

verus! {

/// Byte position of a record in the log: a stable handle to that record
/// until the log is truncated.
pub type WalOffset = u64;

/// Marker byte that opens every record.
pub const WAL_MAGIC: u8 = 165;

pub const TAG_MODIFY_PAGE: u8 = 1;

pub const TAG_COMMIT_TRANSACTION: u8 = 2;

pub const TAG_EXTEND_FILE: u8 = 3;

pub const TAG_CREATE_FILE: u8 = 4;

pub const TAG_DELETE_FILE: u8 = 5;

/// Encoded length of a `ModifyPageEvent`: marker, tag, three ids, two pages.
pub const MODIFY_PAGE_LEN: usize = 8218;

pub const COMMIT_TRANSACTION_LEN: usize = 10;

pub const EXTEND_FILE_LEN: usize = 26;

pub const CREATE_FILE_LEN: usize = 18;

pub const DELETE_FILE_LEN: usize = 18;

/// One logged mutation intent.
///
/// A `ModifyPageEvent` carries both the full pre-image (`undo`) and
/// post-image (`redo`), so neither recovery nor rollback ever needs a valid
/// read of the data file to reconstruct a page in either direction.
#[derive(Debug)]
pub enum WalEvent {
    ModifyPageEvent {
        transaction_id: u64,
        file_id: u64,
        page_id: u64,
        undo: Page,
        redo: Page,
    },
    CommitTransactionEvent { transaction_id: u64 },
    ExtendFileEvent { transaction_id: u64, file_id: u64, extend_amt: i64 },
    CreateFileEvent { transaction_id: u64, file_id: u64 },
    DeleteFileEvent { transaction_id: u64, file_id: u64 },
}

/// The mathematical image of a `WalEvent`: page images as byte sequences.
#[verifier::ext_equal]
pub enum WalEventModel {
    ModifyPageEvent {
        transaction_id: u64,
        file_id: u64,
        page_id: u64,
        undo: Seq<u8>,
        redo: Seq<u8>,
    },
    CommitTransactionEvent { transaction_id: u64 },
    ExtendFileEvent { transaction_id: u64, file_id: u64, extend_amt: i64 },
    CreateFileEvent { transaction_id: u64, file_id: u64 },
    DeleteFileEvent { transaction_id: u64, file_id: u64 },
}

impl View for WalEvent {
    type V = WalEventModel;

    open spec fn view(&self) -> WalEventModel {
        match *self {
            WalEvent::ModifyPageEvent { transaction_id, file_id, page_id, ref undo, ref redo } => {
                WalEventModel::ModifyPageEvent {
                    transaction_id,
                    file_id,
                    page_id,
                    undo: undo@,
                    redo: redo@,
                }
            },
            WalEvent::CommitTransactionEvent { transaction_id } => {
                WalEventModel::CommitTransactionEvent { transaction_id }
            },
            WalEvent::ExtendFileEvent { transaction_id, file_id, extend_amt } => {
                WalEventModel::ExtendFileEvent { transaction_id, file_id, extend_amt }
            },
            WalEvent::CreateFileEvent { transaction_id, file_id } => {
                WalEventModel::CreateFileEvent { transaction_id, file_id }
            },
            WalEvent::DeleteFileEvent { transaction_id, file_id } => {
                WalEventModel::DeleteFileEvent { transaction_id, file_id }
            },
        }
    }
}

impl WalEvent {
    /// Page images, where the event carries any, hold exactly one page.
    pub open spec fn wf(&self) -> bool {
        event_model_wf(self@)
    }

    /// The transaction that logged the event.
    pub open spec fn spec_transaction_id(&self) -> u64 {
        event_transaction_id(self@)
    }
}

/// A model event is well formed when its page images are page-sized.
pub open spec fn event_model_wf(m: WalEventModel) -> bool {
    match m {
        WalEventModel::ModifyPageEvent { undo, redo, .. } => {
            undo.len() == PAGE_SIZE && redo.len() == PAGE_SIZE
        },
        _ => true,
    }
}

/// The transaction id carried by any event.
pub open spec fn event_transaction_id(m: WalEventModel) -> u64 {
    match m {
        WalEventModel::ModifyPageEvent { transaction_id, .. } => transaction_id,
        WalEventModel::CommitTransactionEvent { transaction_id } => transaction_id,
        WalEventModel::ExtendFileEvent { transaction_id, .. } => transaction_id,
        WalEventModel::CreateFileEvent { transaction_id, .. } => transaction_id,
        WalEventModel::DeleteFileEvent { transaction_id, .. } => transaction_id,
    }
}

/// The file a record concerns, where it concerns one.
pub open spec fn event_file_id(m: WalEventModel) -> Option<u64> {
    match m {
        WalEventModel::ModifyPageEvent { file_id, .. } => Some(file_id),
        WalEventModel::CommitTransactionEvent { .. } => None,
        WalEventModel::ExtendFileEvent { file_id, .. } => Some(file_id),
        WalEventModel::CreateFileEvent { file_id, .. } => Some(file_id),
        WalEventModel::DeleteFileEvent { file_id, .. } => Some(file_id),
    }
}

/// The transaction id a record carries, read off the exec value.
pub fn transaction_id_of(e: &WalEvent) -> (r: u64)
    ensures
        r == event_transaction_id(e@),
{
    match e {
        WalEvent::ModifyPageEvent { transaction_id, .. } => *transaction_id,
        WalEvent::CommitTransactionEvent { transaction_id } => *transaction_id,
        WalEvent::ExtendFileEvent { transaction_id, .. } => *transaction_id,
        WalEvent::CreateFileEvent { transaction_id, .. } => *transaction_id,
        WalEvent::DeleteFileEvent { transaction_id, .. } => *transaction_id,
    }
}

/// The record tag of an event.
pub open spec fn event_tag(m: WalEventModel) -> u8 {
    match m {
        WalEventModel::ModifyPageEvent { .. } => TAG_MODIFY_PAGE,
        WalEventModel::CommitTransactionEvent { .. } => TAG_COMMIT_TRANSACTION,
        WalEventModel::ExtendFileEvent { .. } => TAG_EXTEND_FILE,
        WalEventModel::CreateFileEvent { .. } => TAG_CREATE_FILE,
        WalEventModel::DeleteFileEvent { .. } => TAG_DELETE_FILE,
    }
}

/// The encoded length that a tag announces; 0 for an invalid tag.
pub open spec fn tag_len(tag: u8) -> int {
    if tag == TAG_MODIFY_PAGE {
        MODIFY_PAGE_LEN as int
    } else if tag == TAG_COMMIT_TRANSACTION {
        COMMIT_TRANSACTION_LEN as int
    } else if tag == TAG_EXTEND_FILE {
        EXTEND_FILE_LEN as int
    } else if tag == TAG_CREATE_FILE {
        CREATE_FILE_LEN as int
    } else if tag == TAG_DELETE_FILE {
        DELETE_FILE_LEN as int
    } else {
        0
    }
}

pub open spec fn valid_tag(tag: u8) -> bool {
    tag_len(tag) > 0
}

/// The binary encoding of one event.
pub open spec fn spec_encode(m: WalEventModel) -> Seq<u8> {
    match m {
        WalEventModel::ModifyPageEvent { transaction_id, file_id, page_id, undo, redo } => {
            seq![WAL_MAGIC, TAG_MODIFY_PAGE] + spec_u64_to_le_bytes(transaction_id)
                + spec_u64_to_le_bytes(file_id) + spec_u64_to_le_bytes(page_id) + undo + redo
        },
        WalEventModel::CommitTransactionEvent { transaction_id } => {
            seq![WAL_MAGIC, TAG_COMMIT_TRANSACTION] + spec_u64_to_le_bytes(transaction_id)
        },
        WalEventModel::ExtendFileEvent { transaction_id, file_id, extend_amt } => {
            seq![WAL_MAGIC, TAG_EXTEND_FILE] + spec_u64_to_le_bytes(transaction_id)
                + spec_u64_to_le_bytes(file_id) + spec_u64_to_le_bytes(extend_amt as u64)
        },
        WalEventModel::CreateFileEvent { transaction_id, file_id } => {
            seq![WAL_MAGIC, TAG_CREATE_FILE] + spec_u64_to_le_bytes(transaction_id)
                + spec_u64_to_le_bytes(file_id)
        },
        WalEventModel::DeleteFileEvent { transaction_id, file_id } => {
            seq![WAL_MAGIC, TAG_DELETE_FILE] + spec_u64_to_le_bytes(transaction_id)
                + spec_u64_to_le_bytes(file_id)
        },
    }
}

/// A little-endian u64 read at byte position `off`.
pub open spec fn spec_read_u64(b: Seq<u8>, off: int) -> u64 {
    spec_u64_from_le_bytes(b.subrange(off, off + 8))
}

/// Decodes exactly one record at `off`: the event and the record's length.
/// `None` on malformed bytes — expected and benign only at the physical end
/// of the log.
pub open spec fn spec_decode(b: Seq<u8>, off: int) -> Option<(WalEventModel, int)> {
    if 0 <= off && off + 2 <= b.len() && b[off] == WAL_MAGIC && valid_tag(b[off + 1]) && off
        + tag_len(b[off + 1]) <= b.len() {
        let tag = b[off + 1];
        let l = tag_len(tag);
        if tag == TAG_MODIFY_PAGE {
            Some(
                (
                    WalEventModel::ModifyPageEvent {
                        transaction_id: spec_read_u64(b, off + 2),
                        file_id: spec_read_u64(b, off + 10),
                        page_id: spec_read_u64(b, off + 18),
                        undo: b.subrange(off + 26, off + 4122),
                        redo: b.subrange(off + 4122, off + 8218),
                    },
                    l,
                ),
            )
        } else if tag == TAG_COMMIT_TRANSACTION {
            Some(
                (
                    WalEventModel::CommitTransactionEvent {
                        transaction_id: spec_read_u64(b, off + 2),
                    },
                    l,
                ),
            )
        } else if tag == TAG_EXTEND_FILE {
            Some(
                (
                    WalEventModel::ExtendFileEvent {
                        transaction_id: spec_read_u64(b, off + 2),
                        file_id: spec_read_u64(b, off + 10),
                        extend_amt: spec_read_u64(b, off + 18) as i64,
                    },
                    l,
                ),
            )
        } else if tag == TAG_CREATE_FILE {
            Some(
                (
                    WalEventModel::CreateFileEvent {
                        transaction_id: spec_read_u64(b, off + 2),
                        file_id: spec_read_u64(b, off + 10),
                    },
                    l,
                ),
            )
        } else {
            Some(
                (
                    WalEventModel::DeleteFileEvent {
                        transaction_id: spec_read_u64(b, off + 2),
                        file_id: spec_read_u64(b, off + 10),
                    },
                    l,
                ),
            )
        }
    } else {
        None
    }
}

/// Every successful decode is of a well-formed event whose announced length
/// matches its encoding and stays within the buffer.
pub proof fn lemma_decode_some_props(b: Seq<u8>, off: int)
    requires
        spec_decode(b, off) is Some,
    ensures
        ({
            let (m, l) = spec_decode(b, off)->Some_0;
            &&& event_model_wf(m)
            &&& l == tag_len(event_tag(m))
            &&& l == spec_encode(m).len()
            &&& 2 <= l
            &&& 0 <= off
            &&& off + l <= b.len()
        }),
{
    let (m, l) = spec_decode(b, off)->Some_0;
    lemma_auto_spec_u64_to_from_le_bytes();
}

/// Decoding reads back exactly what encoding wrote, wherever the encoded
/// bytes stand in a larger buffer.
pub proof fn lemma_decode_encode(b: Seq<u8>, off: int, m: WalEventModel)
    requires
        event_model_wf(m),
        0 <= off,
        off + spec_encode(m).len() <= b.len(),
        b.subrange(off, off + spec_encode(m).len()) == spec_encode(m),
    ensures
        spec_decode(b, off) == Some((m, spec_encode(m).len() as int)),
{
    lemma_auto_spec_u64_to_from_le_bytes();
    let enc = spec_encode(m);
    let el = enc.len() as int;
    assert forall|k: int| 0 <= k < el implies b[off + k] == enc[k] by {
        assert(b.subrange(off, off + el)[k] == b[off + k]);
    }
    assert forall|lo: int, hi: int| 0 <= lo <= hi <= el implies #[trigger] b.subrange(
        off + lo,
        off + hi,
    ) == enc.subrange(lo, hi) by {
        assert forall|i: int| 0 <= i < hi - lo implies b.subrange(off + lo, off + hi)[i]
            == enc.subrange(lo, hi)[i] by {
            assert(b[off + (lo + i)] == enc[lo + i]);
        }
        assert(b.subrange(off + lo, off + hi) =~= enc.subrange(lo, hi));
    }
    let tag = event_tag(m);
    assert(enc[0] == WAL_MAGIC);
    assert(enc[1] == tag);
    match m {
        WalEventModel::ModifyPageEvent { transaction_id, file_id, page_id, undo, redo } => {
            assert(enc.subrange(2, 10) =~= spec_u64_to_le_bytes(transaction_id));
            assert(enc.subrange(10, 18) =~= spec_u64_to_le_bytes(file_id));
            assert(enc.subrange(18, 26) =~= spec_u64_to_le_bytes(page_id));
            assert(enc.subrange(26, 4122) =~= undo);
            assert(enc.subrange(4122, 8218) =~= redo);
            assert(b.subrange(off + 2, off + 10) == spec_u64_to_le_bytes(transaction_id));
            assert(b.subrange(off + 10, off + 18) == spec_u64_to_le_bytes(file_id));
            assert(b.subrange(off + 18, off + 26) == spec_u64_to_le_bytes(page_id));
            assert(b.subrange(off + 26, off + 4122) == undo);
            assert(b.subrange(off + 4122, off + 8218) == redo);
            assert(spec_decode(b, off)->Some_0.0 =~= m);
        },
        WalEventModel::CommitTransactionEvent { transaction_id } => {
            assert(enc.subrange(2, 10) =~= spec_u64_to_le_bytes(transaction_id));
            assert(b.subrange(off + 2, off + 10) == spec_u64_to_le_bytes(transaction_id));
            assert(spec_decode(b, off)->Some_0.0 =~= m);
        },
        WalEventModel::ExtendFileEvent { transaction_id, file_id, extend_amt } => {
            assert(enc.subrange(2, 10) =~= spec_u64_to_le_bytes(transaction_id));
            assert(enc.subrange(10, 18) =~= spec_u64_to_le_bytes(file_id));
            assert(enc.subrange(18, 26) =~= spec_u64_to_le_bytes(#[verifier::truncate] (extend_amt as u64)));
            assert(b.subrange(off + 2, off + 10) == spec_u64_to_le_bytes(transaction_id));
            assert(b.subrange(off + 10, off + 18) == spec_u64_to_le_bytes(file_id));
            assert(b.subrange(off + 18, off + 26) == spec_u64_to_le_bytes(
                #[verifier::truncate] (extend_amt as u64),
            ));
            assert((#[verifier::truncate] (extend_amt as u64)) as i64 == extend_amt) by (bit_vector);
            assert(spec_decode(b, off)->Some_0.0 =~= m);
        },
        WalEventModel::CreateFileEvent { transaction_id, file_id } => {
            assert(enc.subrange(2, 10) =~= spec_u64_to_le_bytes(transaction_id));
            assert(enc.subrange(10, 18) =~= spec_u64_to_le_bytes(file_id));
            assert(b.subrange(off + 2, off + 10) == spec_u64_to_le_bytes(transaction_id));
            assert(b.subrange(off + 10, off + 18) == spec_u64_to_le_bytes(file_id));
            assert(spec_decode(b, off)->Some_0.0 =~= m);
        },
        WalEventModel::DeleteFileEvent { transaction_id, file_id } => {
            assert(enc.subrange(2, 10) =~= spec_u64_to_le_bytes(transaction_id));
            assert(enc.subrange(10, 18) =~= spec_u64_to_le_bytes(file_id));
            assert(b.subrange(off + 2, off + 10) == spec_u64_to_le_bytes(transaction_id));
            assert(b.subrange(off + 10, off + 18) == spec_u64_to_le_bytes(file_id));
            assert(spec_decode(b, off)->Some_0.0 =~= m);
        },
    }
}


/// A decode looks only at its own record's window: bytes appended after it
/// change nothing.
pub proof fn lemma_decode_append(b: Seq<u8>, ext: Seq<u8>, off: int)
    requires
        spec_decode(b, off) is Some,
    ensures
        spec_decode(b + ext, off) == spec_decode(b, off),
{
    let (m, l) = spec_decode(b, off)->Some_0;
    lemma_decode_some_props(b, off);
    let c = b + ext;
    assert forall|lo: int, hi: int| 0 <= lo <= hi <= b.len() implies #[trigger] c.subrange(lo, hi)
        == b.subrange(lo, hi) by {
        assert(c.subrange(lo, hi) =~= b.subrange(lo, hi));
    }
    assert(spec_decode(c, off)->Some_0.0 =~= m);
}

/// A decode is unmoved by dropping bytes that lie wholly before its record.
pub proof fn lemma_decode_shift(prefix: Seq<u8>, c: Seq<u8>, off: int)
    requires
        0 <= off,
    ensures
        spec_decode(prefix + c, prefix.len() + off) == spec_decode(c, off),
{
    let b = prefix + c;
    let p = prefix.len() as int;
    if spec_decode(c, off) is Some {
        lemma_decode_some_props(c, off);
        assert(b[p + off] == c[off]);
        assert(b[p + off + 1] == c[off + 1]);
        let tag = c[off + 1];
        assert(b.subrange(p + off + 2, p + off + 10) =~= c.subrange(off + 2, off + 10));
        if tag == TAG_MODIFY_PAGE {
            assert(b.subrange(p + off + 10, p + off + 18) =~= c.subrange(off + 10, off + 18));
            assert(b.subrange(p + off + 18, p + off + 26) =~= c.subrange(off + 18, off + 26));
            assert(b.subrange(p + off + 26, p + off + 4122) =~= c.subrange(off + 26, off + 4122));
            assert(b.subrange(p + off + 4122, p + off + 8218) =~= c.subrange(
                off + 4122,
                off + 8218,
            ));
        } else if tag == TAG_EXTEND_FILE {
            assert(b.subrange(p + off + 10, p + off + 18) =~= c.subrange(off + 10, off + 18));
            assert(b.subrange(p + off + 18, p + off + 26) =~= c.subrange(off + 18, off + 26));
        } else if tag == TAG_CREATE_FILE || tag == TAG_DELETE_FILE {
            assert(b.subrange(p + off + 10, p + off + 18) =~= c.subrange(off + 10, off + 18));
        }
        assert(spec_decode(b, p + off)->Some_0.0 =~= spec_decode(c, off)->Some_0.0);
    } else {
        if 0 <= off && off + 2 <= c.len() {
            assert(b[p + off] == c[off]);
            assert(b[p + off + 1] == c[off + 1]);
        }
    }
}

/// All records readable by a forward scan from `off`: decode one, step past
/// it, stop at the first position that fails to decode.
pub open spec fn spec_parse_from(b: Seq<u8>, off: int) -> Seq<WalEventModel>
    decreases b.len() - off,
{
    match spec_decode(b, off) {
        Some((m, l)) => {
            if 2 <= l && off + l <= b.len() {
                seq![m] + spec_parse_from(b, off + l)
            } else {
                seq![m]
            }
        },
        None => Seq::empty(),
    }
}

/// The events a crash-recovery scan of the whole log yields.
pub open spec fn spec_parse(b: Seq<u8>) -> Seq<WalEventModel> {
    spec_parse_from(b, 0)
}

/// The byte image of a whole event sequence, records laid end to end.
pub open spec fn spec_encode_log(es: Seq<WalEventModel>) -> Seq<u8>
    decreases es.len(),
{
    if es.len() == 0 {
        Seq::empty()
    } else {
        spec_encode(es.first()) + spec_encode_log(es.drop_first())
    }
}

pub open spec fn events_wf(es: Seq<WalEventModel>) -> bool {
    forall|i: int| 0 <= i < es.len() ==> event_model_wf(#[trigger] es[i])
}

/// Appending one record to a log image appends its encoding.
pub proof fn lemma_encode_log_push(es: Seq<WalEventModel>, m: WalEventModel)
    ensures
        spec_encode_log(es.push(m)) == spec_encode_log(es) + spec_encode(m),
    decreases es.len(),
{
    if es.len() == 0 {
        assert(es.push(m).drop_first() =~= Seq::<WalEventModel>::empty());
        assert(es.push(m)[0] == m);
        assert(es.push(m).first() == m);
        assert(spec_encode_log(es.push(m)) == spec_encode(m) + spec_encode_log(
            Seq::<WalEventModel>::empty(),
        ));
        assert(spec_encode(m) + spec_encode_log(Seq::<WalEventModel>::empty()) =~= spec_encode(m));
        assert(spec_encode_log(es) + spec_encode(m) =~= spec_encode(m));
    } else {
        assert(es.push(m).drop_first() =~= es.drop_first().push(m));
        assert(es.push(m).first() == es.first());
        lemma_encode_log_push(es.drop_first(), m);
        assert(spec_encode(es.first()) + (spec_encode_log(es.drop_first()) + spec_encode(m)) =~= (
        spec_encode(es.first()) + spec_encode_log(es.drop_first())) + spec_encode(m));
    }
}

/// A scan is unmoved by dropping whole records that lie before its start.
pub proof fn lemma_parse_shift(prefix: Seq<u8>, c: Seq<u8>, off: int)
    requires
        0 <= off,
    ensures
        spec_parse_from(prefix + c, prefix.len() + off) == spec_parse_from(c, off),
    decreases c.len() - off,
{
    let b = prefix + c;
    let p = prefix.len() as int;
    lemma_decode_shift(prefix, c, off);
    match spec_decode(c, off) {
        Some((m, l)) => {
            lemma_decode_some_props(c, off);
            lemma_parse_shift(prefix, c, off + l);
        },
        None => {},
    }
}

/// Torn-tail tolerance, in its general form: a scan of a well-formed log
/// image followed by any further bytes yields exactly the log's events,
/// followed by whatever the scan makes of the tail. In particular, when the
/// tail does not begin with a decodable record, the scan yields exactly the
/// well-formed prefix's events, and nothing of the garbage.
pub proof fn lemma_parse_concat(es: Seq<WalEventModel>, tail: Seq<u8>)
    requires
        events_wf(es),
    ensures
        spec_parse_from(spec_encode_log(es) + tail, 0) == es + spec_parse_from(tail, 0),
    decreases es.len(),
{
    if es.len() == 0 {
        assert(spec_encode_log(es) + tail =~= tail);
        assert(es + spec_parse_from(tail, 0) =~= spec_parse_from(tail, 0));
    } else {
        let e0 = es.first();
        let rest = es.drop_first();
        let enc0 = spec_encode(e0);
        let c = spec_encode_log(rest) + tail;
        let b = spec_encode_log(es) + tail;
        assert(b =~= enc0 + c);
        assert(event_model_wf(e0));
        lemma_auto_spec_u64_to_from_le_bytes();
        assert((enc0 + c).subrange(0, enc0.len() as int) =~= enc0);
        lemma_decode_encode(enc0 + c, 0, e0);
        assert(spec_decode(b, 0) == Some((e0, enc0.len() as int)));
        lemma_parse_shift(enc0, c, 0);
        assert(spec_parse_from(b, enc0.len() as int) == spec_parse_from(c, 0));
        assert(forall|i: int| 0 <= i < rest.len() ==> rest[i] == es[i + 1]);
        assert(events_wf(rest));
        lemma_parse_concat(rest, tail);
        assert(spec_parse_from(c, 0) == rest + spec_parse_from(tail, 0));
        assert(spec_parse_from(b, 0) == seq![e0] + (rest + spec_parse_from(tail, 0)));
        assert(seq![e0] + (rest + spec_parse_from(tail, 0)) =~= es + spec_parse_from(tail, 0));
    }
}

/// Torn-tail tolerance: a log made of a well-formed prefix followed by
/// garbage that does not itself begin with a decodable record yields
/// exactly the prefix's events — the garbage contributes nothing.
pub proof fn lemma_torn_tail(es: Seq<WalEventModel>, tail: Seq<u8>)
    requires
        events_wf(es),
        spec_decode(tail, 0) is None,
    ensures
        spec_parse(spec_encode_log(es) + tail) == es,
{
    lemma_parse_concat(es, tail);
    assert(spec_parse_from(tail, 0) =~= Seq::<WalEventModel>::empty());
    assert(es + spec_parse_from(tail, 0) =~= es);
}

/// A scan of a well-formed log image recovers exactly its events.
pub proof fn lemma_parse_encode_log(es: Seq<WalEventModel>)
    requires
        events_wf(es),
    ensures
        spec_parse(spec_encode_log(es)) == es,
{
    let empty = Seq::<u8>::empty();
    assert(spec_encode_log(es) + empty =~= spec_encode_log(es));
    lemma_parse_concat(es, empty);
    assert(es + spec_parse_from(empty, 0) =~= es);
}


/// Everything a forward scan yields is well formed.
pub proof fn lemma_parse_wf(b: Seq<u8>, off: int)
    ensures
        events_wf(spec_parse_from(b, off)),
    decreases b.len() - off,
{
    match spec_decode(b, off) {
        Some((m, l)) => {
            lemma_decode_some_props(b, off);
            lemma_parse_wf(b, off + l);
            let rest = spec_parse_from(b, off + l);
            assert forall|i: int| 0 <= i < spec_parse_from(b, off).len() implies event_model_wf(
                #[trigger] spec_parse_from(b, off)[i],
            ) by {
                if i > 0 {
                    assert(spec_parse_from(b, off)[i] == rest[i - 1]);
                }
            }
        },
        None => {},
    }
}

/// A well-formed event's encoding has exactly the length its tag announces.
pub proof fn lemma_encode_len(m: WalEventModel)
    requires
        event_model_wf(m),
    ensures
        spec_encode(m).len() == tag_len(event_tag(m)),
        2 <= spec_encode(m).len(),
{
    lemma_auto_spec_u64_to_from_le_bytes();
}

/// Copies one page image out of a byte buffer.
fn read_page_image(b: &Vec<u8>, off: usize) -> (p: Page)
    requires
        off + PAGE_SIZE <= b@.len(),
    ensures
        p.wf(),
        p@ == b@.subrange(off as int, off + PAGE_SIZE),
{
    let n: usize = b.len();
    let mut v: Vec<u8> = Vec::new();
    let mut i: usize = 0;
    while i < PAGE_SIZE
        invariant
            off + PAGE_SIZE <= n == b@.len(),
            i <= PAGE_SIZE,
            v@.len() == i,
            forall|j: int| 0 <= j < i ==> v@[j] == b@[off + j],
        decreases PAGE_SIZE - i,
    {
        v.push(b[off + i]);
        i = i + 1;
    }
    proof {
        assert(v@ =~= b@.subrange(off as int, off + PAGE_SIZE));
    }
    Page::from_vec(v)
}

/// Encodes one event into its binary record form.
pub fn encode_event(e: &WalEvent) -> (r: Vec<u8>)
    requires
        e.wf(),
    ensures
        r@ == spec_encode(e@),
{
    let mut out: Vec<u8> = Vec::new();
    match e {
        WalEvent::ModifyPageEvent { transaction_id, file_id, page_id, undo, redo } => {
            out.push(WAL_MAGIC);
            out.push(TAG_MODIFY_PAGE);
            let mut piece = u64_to_le_bytes(*transaction_id);
            out.append(&mut piece);
            let mut piece = u64_to_le_bytes(*file_id);
            out.append(&mut piece);
            let mut piece = u64_to_le_bytes(*page_id);
            out.append(&mut piece);
            let mut piece = undo.to_vec();
            out.append(&mut piece);
            let mut piece = redo.to_vec();
            out.append(&mut piece);
            proof {
                lemma_auto_spec_u64_to_from_le_bytes();
                assert(out@ =~= spec_encode(e@));
            }
        },
        WalEvent::CommitTransactionEvent { transaction_id } => {
            out.push(WAL_MAGIC);
            out.push(TAG_COMMIT_TRANSACTION);
            let mut piece = u64_to_le_bytes(*transaction_id);
            out.append(&mut piece);
            proof {
                lemma_auto_spec_u64_to_from_le_bytes();
                assert(out@ =~= spec_encode(e@));
            }
        },
        WalEvent::ExtendFileEvent { transaction_id, file_id, extend_amt } => {
            out.push(WAL_MAGIC);
            out.push(TAG_EXTEND_FILE);
            let mut piece = u64_to_le_bytes(*transaction_id);
            out.append(&mut piece);
            let mut piece = u64_to_le_bytes(*file_id);
            out.append(&mut piece);
            let mut piece = u64_to_le_bytes(#[verifier::truncate] (*extend_amt as u64));
            out.append(&mut piece);
            proof {
                lemma_auto_spec_u64_to_from_le_bytes();
                assert(out@ =~= spec_encode(e@));
            }
        },
        WalEvent::CreateFileEvent { transaction_id, file_id } => {
            out.push(WAL_MAGIC);
            out.push(TAG_CREATE_FILE);
            let mut piece = u64_to_le_bytes(*transaction_id);
            out.append(&mut piece);
            let mut piece = u64_to_le_bytes(*file_id);
            out.append(&mut piece);
            proof {
                lemma_auto_spec_u64_to_from_le_bytes();
                assert(out@ =~= spec_encode(e@));
            }
        },
        WalEvent::DeleteFileEvent { transaction_id, file_id } => {
            out.push(WAL_MAGIC);
            out.push(TAG_DELETE_FILE);
            let mut piece = u64_to_le_bytes(*transaction_id);
            out.append(&mut piece);
            let mut piece = u64_to_le_bytes(*file_id);
            out.append(&mut piece);
            proof {
                lemma_auto_spec_u64_to_from_le_bytes();
                assert(out@ =~= spec_encode(e@));
            }
        },
    }
    out
}

/// Reads one little-endian u64 out of a byte buffer.
fn read_u64_at(b: &Vec<u8>, off: usize) -> (x: u64)
    requires
        off + 8 <= b@.len(),
    ensures
        x == spec_read_u64(b@, off as int),
{
    let n: usize = b.len();
    u64_from_le_bytes(slice_subrange(b.as_slice(), off, off + 8))
}

/// Decodes exactly one record at `off`. `None` on malformed bytes: benign
/// only at the physical end of the log (a torn write from a crash), to be
/// treated as end-of-log by a forward scan.
pub fn decode_event(b: &Vec<u8>, off: usize) -> (r: Option<(WalEvent, usize)>)
    ensures
        spec_decode(b@, off as int) is Some ==> {
            &&& r is Some
            &&& r->Some_0.0@ == spec_decode(b@, off as int)->Some_0.0
            &&& r->Some_0.0.wf()
            &&& r->Some_0.1 == spec_decode(b@, off as int)->Some_0.1
        },
        spec_decode(b@, off as int) is None ==> r is None,
{
    let n = b.len();
    if n < 2 || off > n - 2 {
        return None;
    }
    if b[off] != WAL_MAGIC {
        return None;
    }
    let tag = b[off + 1];
    let l: usize = if tag == TAG_MODIFY_PAGE {
        MODIFY_PAGE_LEN
    } else if tag == TAG_COMMIT_TRANSACTION {
        COMMIT_TRANSACTION_LEN
    } else if tag == TAG_EXTEND_FILE {
        EXTEND_FILE_LEN
    } else if tag == TAG_CREATE_FILE {
        CREATE_FILE_LEN
    } else if tag == TAG_DELETE_FILE {
        DELETE_FILE_LEN
    } else {
        return None;
    };
    if l > n - off {
        return None;
    }
    if tag == TAG_MODIFY_PAGE {
        let transaction_id = read_u64_at(b, off + 2);
        let file_id = read_u64_at(b, off + 10);
        let page_id = read_u64_at(b, off + 18);
        let undo = read_page_image(b, off + 26);
        let redo = read_page_image(b, off + 4122);
        let e = WalEvent::ModifyPageEvent { transaction_id, file_id, page_id, undo, redo };
        proof {
            assert(e@ =~= spec_decode(b@, off as int)->Some_0.0);
        }
        Some((e, l))
    } else if tag == TAG_COMMIT_TRANSACTION {
        let transaction_id = read_u64_at(b, off + 2);
        let e = WalEvent::CommitTransactionEvent { transaction_id };
        proof {
            assert(e@ =~= spec_decode(b@, off as int)->Some_0.0);
        }
        Some((e, l))
    } else if tag == TAG_EXTEND_FILE {
        let transaction_id = read_u64_at(b, off + 2);
        let file_id = read_u64_at(b, off + 10);
        let raw = read_u64_at(b, off + 18);
        let e = WalEvent::ExtendFileEvent {
            transaction_id,
            file_id,
            extend_amt: #[verifier::truncate] (raw as i64),
        };
        proof {
            assert(e@ =~= spec_decode(b@, off as int)->Some_0.0);
        }
        Some((e, l))
    } else if tag == TAG_CREATE_FILE {
        let transaction_id = read_u64_at(b, off + 2);
        let file_id = read_u64_at(b, off + 10);
        let e = WalEvent::CreateFileEvent { transaction_id, file_id };
        proof {
            assert(e@ =~= spec_decode(b@, off as int)->Some_0.0);
        }
        Some((e, l))
    } else {
        let transaction_id = read_u64_at(b, off + 2);
        let file_id = read_u64_at(b, off + 10);
        let e = WalEvent::DeleteFileEvent { transaction_id, file_id };
        proof {
            assert(e@ =~= spec_decode(b@, off as int)->Some_0.0);
        }
        Some((e, l))
    }
}

/// The append-only event log. The byte image is the truth; the event view is
/// what a forward scan makes of it. A log is `clean` when the scan consumes
/// every byte — true of every log this type builds, and re-established by
/// recovery after a crash leaves a torn tail.
pub struct WalReference {
    log: Vec<u8>,
}

impl WalReference {
    /// The raw byte image of the log.
    pub closed spec fn bytes(&self) -> Seq<u8> {
        self.log@
    }

    /// The records a forward scan of the log yields.
    pub open spec fn events(&self) -> Seq<WalEventModel> {
        spec_parse(self.bytes())
    }

    /// The scan consumes every byte: no torn tail.
    pub open spec fn clean(&self) -> bool {
        self.bytes() == spec_encode_log(self.events())
    }

    /// A fresh, empty log.
    pub fn new() -> (w: WalReference)
        ensures
            w.bytes() == Seq::<u8>::empty(),
            w.events() == Seq::<WalEventModel>::empty(),
            w.clean(),
    {
        let w = WalReference { log: Vec::new() };
        proof {
            assert(spec_encode_log(w.events()) =~= Seq::<u8>::empty());
        }
        w
    }

    /// Adopts a byte image as found on stable storage, torn tail and all.
    pub fn from_bytes(bytes: Vec<u8>) -> (w: WalReference)
        ensures
            w.bytes() == bytes@,
    {
        WalReference { log: bytes }
    }

    /// The log's size in bytes: the offset the next record would get.
    pub fn size(&self) -> (n: u64)
        ensures
            n == self.bytes().len(),
    {
        self.log.len() as u64
    }

    /// Copies out the bytes from `offset` to the end, for a shell that
    /// mirrors fresh appends onto stable storage.
    pub fn tail_from(&self, offset: u64) -> (v: Vec<u8>)
        requires
            offset <= self.bytes().len(),
        ensures
            v@ == self.bytes().subrange(offset as int, self.bytes().len() as int),
    {
        let mut v: Vec<u8> = Vec::new();
        let mut i: usize = offset as usize;
        let n: usize = self.log.len();
        while i < n
            invariant
                offset <= i <= n,
                n == self.bytes().len(),
                v@.len() == i - offset,
                forall|j: int| 0 <= j < v@.len() ==> v@[j] == self.bytes()[offset + j],
            decreases n - i,
        {
            v.push(self.log[i]);
            i = i + 1;
        }
        proof {
            assert(v@ =~= self.bytes().subrange(offset as int, self.bytes().len() as int));
        }
        v
    }

    /// Appends one record at the end of the log. Returns the record's offset.
    pub(crate) fn append_event(&mut self, e: &WalEvent) -> (r: WalOffset)
        requires
            old(self).clean(),
            e.wf(),
            old(self).bytes().len() + spec_encode(e@).len() <= usize::MAX,
        ensures
            final(self).clean(),
            final(self).events() == old(self).events().push(e@),
            final(self).bytes() == old(self).bytes() + spec_encode(e@),
            r == old(self).bytes().len(),
    {
        let r = self.log.len() as u64;
        let mut enc = encode_event(e);
        self.log.append(&mut enc);
        proof {
            let es = old(self).events();
            lemma_parse_wf(old(self).bytes(), 0);
            assert forall|i: int| 0 <= i < es.push(e@).len() implies event_model_wf(
                #[trigger] es.push(e@)[i],
            ) by {
                if i < es.len() {
                    assert(es.push(e@)[i] == es[i]);
                } else {
                    assert(es.push(e@)[i] == e@);
                }
            }
            lemma_encode_log_push(es, e@);
            assert(self.log@ =~= spec_encode_log(es.push(e@)));
            lemma_parse_encode_log(es.push(e@));
        }
        r
    }

    /// Logs that a page is to be modified; `undo` is the page's content
    /// before the change, `redo` after. Durable before the offset returns.
    pub fn modify_page(
        &mut self,
        transaction_id: u64,
        file_id: u64,
        page_id: u64,
        undo: &Page,
        redo: &Page,
    ) -> (r: Result<WalOffset, DbError>)
        requires
            old(self).clean(),
            undo.wf(),
            redo.wf(),
            old(self).bytes().len() + MODIFY_PAGE_LEN <= usize::MAX,
        ensures
            final(self).clean(),
            r == Ok::<WalOffset, DbError>(old(self).bytes().len() as u64),
            final(self).events() == old(self).events().push(
                WalEventModel::ModifyPageEvent {
                    transaction_id,
                    file_id,
                    page_id,
                    undo: undo@,
                    redo: redo@,
                },
            ),
    {
        let e = WalEvent::ModifyPageEvent {
            transaction_id,
            file_id,
            page_id,
            undo: undo.copied(),
            redo: redo.copied(),
        };
        proof {
            lemma_encode_len(e@);
        }
        Ok(self.append_event(&e))
    }

    /// Logs that a transaction is to be committed.
    pub fn commit_transaction(&mut self, transaction_id: u64) -> (r: Result<WalOffset, DbError>)
        requires
            old(self).clean(),
            old(self).bytes().len() + COMMIT_TRANSACTION_LEN <= usize::MAX,
        ensures
            final(self).clean(),
            r == Ok::<WalOffset, DbError>(old(self).bytes().len() as u64),
            final(self).events() == old(self).events().push(
                WalEventModel::CommitTransactionEvent { transaction_id },
            ),
    {
        let e = WalEvent::CommitTransactionEvent { transaction_id };
        proof {
            lemma_encode_len(e@);
        }
        Ok(self.append_event(&e))
    }

    /// Logs that a file's extent is to change by `extend_amt` pages.
    pub fn extend_file(&mut self, transaction_id: u64, file_id: u64, extend_amt: i64) -> (r: Result<
        WalOffset,
        DbError,
    >)
        requires
            old(self).clean(),
            old(self).bytes().len() + EXTEND_FILE_LEN <= usize::MAX,
        ensures
            final(self).clean(),
            r == Ok::<WalOffset, DbError>(old(self).bytes().len() as u64),
            final(self).events() == old(self).events().push(
                WalEventModel::ExtendFileEvent { transaction_id, file_id, extend_amt },
            ),
    {
        let e = WalEvent::ExtendFileEvent { transaction_id, file_id, extend_amt };
        proof {
            lemma_encode_len(e@);
        }
        Ok(self.append_event(&e))
    }

    /// Logs that an empty file with id `file_id` is to be created.
    pub fn create_file(&mut self, transaction_id: u64, file_id: u64) -> (r: Result<
        WalOffset,
        DbError,
    >)
        requires
            old(self).clean(),
            old(self).bytes().len() + CREATE_FILE_LEN <= usize::MAX,
        ensures
            final(self).clean(),
            r == Ok::<WalOffset, DbError>(old(self).bytes().len() as u64),
            final(self).events() == old(self).events().push(
                WalEventModel::CreateFileEvent { transaction_id, file_id },
            ),
    {
        let e = WalEvent::CreateFileEvent { transaction_id, file_id };
        proof {
            lemma_encode_len(e@);
        }
        Ok(self.append_event(&e))
    }

    /// Logs that the file with id `file_id` is to be deleted.
    pub fn delete_file(&mut self, transaction_id: u64, file_id: u64) -> (r: Result<
        WalOffset,
        DbError,
    >)
        requires
            old(self).clean(),
            old(self).bytes().len() + DELETE_FILE_LEN <= usize::MAX,
        ensures
            final(self).clean(),
            r == Ok::<WalOffset, DbError>(old(self).bytes().len() as u64),
            final(self).events() == old(self).events().push(
                WalEventModel::DeleteFileEvent { transaction_id, file_id },
            ),
    {
        let e = WalEvent::DeleteFileEvent { transaction_id, file_id };
        proof {
            lemma_encode_len(e@);
        }
        Ok(self.append_event(&e))
    }

    /// Decodes the record at `offset` together with its length, so a
    /// forward scan can step to the next record. `None` on malformed bytes.
    pub fn decode_at(&self, offset: WalOffset) -> (r: Option<(WalEvent, u64)>)
        ensures
            spec_decode(self.bytes(), offset as int) is Some ==> {
                &&& r is Some
                &&& r->Some_0.0@ == spec_decode(self.bytes(), offset as int)->Some_0.0
                &&& r->Some_0.0.wf()
                &&& r->Some_0.1 == spec_decode(self.bytes(), offset as int)->Some_0.1
            },
            spec_decode(self.bytes(), offset as int) is None ==> r is None,
    {
        let n: usize = self.log.len();
        if offset > (usize::MAX as u64) {
            proof {
                assert(offset as int + 2 > self.bytes().len());
            }
            return None;
        }
        match decode_event(&self.log, offset as usize) {
            Some((e, l)) => Some((e, l as u64)),
            None => None,
        }
    }

    /// Reads the record at `offset`. Fails with `CorruptLog` on malformed
    /// bytes — expected and benign only at the physical end of the log.
    pub fn read_entry(&self, offset: WalOffset) -> (r: Result<WalEvent, DbError>)
        ensures
            spec_decode(self.bytes(), offset as int) is Some ==> {
                &&& r is Ok
                &&& r->Ok_0@ == spec_decode(self.bytes(), offset as int)->Some_0.0
                &&& r->Ok_0.wf()
            },
            spec_decode(self.bytes(), offset as int) is None ==> r == Err::<WalEvent, DbError>(
                DbError::CorruptLog,
            ),
    {
        let n: usize = self.log.len();
        if offset > (usize::MAX as u64) {
            proof {
                assert(offset as int + 2 > self.bytes().len());
            }
            return Err(DbError::CorruptLog);
        }
        match decode_event(&self.log, offset as usize) {
            Some((e, _len)) => Ok(e),
            None => Err(DbError::CorruptLog),
        }
    }

    /// Resets the log to empty. Only sound once checkpointing has
    /// established that no still-needed record remains.
    pub fn truncate(&mut self) -> (r: Result<(), DbError>)
        ensures
            r == Ok::<(), DbError>(()),
            final(self).bytes() == Seq::<u8>::empty(),
            final(self).events() == Seq::<WalEventModel>::empty(),
            final(self).clean(),
    {
        self.log.clear();
        proof {
            assert(spec_encode_log(self.events()) =~= Seq::<u8>::empty());
        }
        Ok(())
    }
}


/// What one append does to the byte image: the new record's bytes stand at
/// the old end, every record that decoded before still decodes unchanged,
/// and the new record decodes at the returned offset.
pub proof fn lemma_wal_append_effect(w1: WalReference, w2: WalReference, m: WalEventModel)
    requires
        w1.clean(),
        w2.clean(),
        event_model_wf(m),
        w2.events() == w1.events().push(m),
    ensures
        w2.bytes() == w1.bytes() + spec_encode(m),
        forall|off: u64|
            spec_decode(w1.bytes(), off as int) is Some ==> spec_decode(w2.bytes(), off as int)
                == spec_decode(w1.bytes(), off as int),
        forall|off: u64|
            spec_decode(w1.bytes(), off as int) is Some ==> off + 2 <= w1.bytes().len(),
        spec_decode(w2.bytes(), w1.bytes().len() as int) == Some(
            (m, spec_encode(m).len() as int),
        ),
{
    let es = w1.events();
    lemma_encode_log_push(es, m);
    assert(w2.bytes() == w1.bytes() + spec_encode(m));
    assert forall|off: u64| spec_decode(w1.bytes(), off as int) is Some implies spec_decode(
        w2.bytes(),
        off as int,
    ) == spec_decode(w1.bytes(), off as int) by {
        lemma_decode_append(w1.bytes(), spec_encode(m), off as int);
    }
    assert forall|off: u64| spec_decode(w1.bytes(), off as int) is Some implies off + 2
        <= w1.bytes().len() by {
        lemma_decode_some_props(w1.bytes(), off as int);
    }
    lemma_encode_len(m);
    let boundary = w1.bytes().len() as int;
    assert(w2.bytes().subrange(boundary, boundary + spec_encode(m).len()) =~= spec_encode(m));
    lemma_decode_encode(w2.bytes(), boundary, m);
}

} // verus!
