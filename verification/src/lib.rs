//! Core of a single-node, page-oriented transactional storage engine.
//!
//! The engine is built from three pieces: a write-ahead log (`wal`) whose
//! records are encoded in a self-describing binary form, a transaction
//! manager (`transaction`) that resolves page visibility per transaction and
//! turns page writes into durable log appends, and a checkpoint/recovery
//! driver (`checkpoint`) that reconciles the log with the data files.
//! The storage itself (the log bytes and the page files) is held as plain
//! values (`disk`), so every rule of the engine is stated and proved here;
//! reading and writing the real files is left to a thin shell around the
//! library.

use vstd::prelude::*;

pub mod memory;
pub mod page;
pub mod checkpoint;
pub mod disk;
pub mod transaction;
pub mod wal;

verus! {

/// Failure taxonomy of the engine.
///
/// `InvalidFile`: the file is not visible to the acting transaction.
/// `InvalidAddress`: the page index lies outside the file's visible extent.
/// `CorruptLog`: a log record failed to decode away from the tolerated tail.
/// `IoFailure`: the backing storage cannot represent the result.
/// `CounterExhausted`: an in-process id counter ran out.
#[derive(Clone, Copy, PartialEq, Eq, Structural, Debug)]
pub enum DbError {
    InvalidFile,
    InvalidAddress,
    CorruptLog,
    IoFailure,
    CounterExhausted,
}

} // verus!
