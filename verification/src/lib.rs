//! Keyed-record persistence engine for a small institution: a generic ordered
//! record store with snapshot serialization proved to read back exactly what
//! was written, a recoverable unique identifier generator, entity models for
//! people and monetary transactions, and an installment-payment plan engine
//! layered on the transaction store. File and clock I/O stay with the
//! caller; this crate holds the data, the rules, and their proofs.

pub mod cash;
mod clock;
pub mod codec;
pub mod database;
pub mod error;
pub mod ids;
pub mod manager;
pub mod store;
pub mod student;
mod text;

pub use manager::{
    CashBuilder, CashQuery, CashUpdater, FinancialStats, QmxManager, StudentBuilder, StudentQuery,
    StudentUpdater,
};

pub use store::{HasUid, RecordStore};
