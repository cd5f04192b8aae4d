//! An append-oriented time-series storage engine: series of fixed-size rows
//! keyed by 64-bit timestamps, packed into blocks of one flat data file and
//! indexed by a catalog of series and blocks.

pub mod bytes;
pub mod format;
pub mod metadata;
pub mod stream;
pub mod theorems;
pub mod timestamp;

pub use format::RowFormat;
pub use metadata::{BlockPlace, CommitError, InsertError, Metadata, Transaction, WriteFailure};
pub use timestamp::Timestamp;
