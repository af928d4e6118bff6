//! Replay support for a segmented transaction ledger: segment file names and
//! their grouping into chunks, and an in-memory index from transaction order
//! to transaction hash and block, with the searches that reconcile it with
//! local execution progress.

pub mod hash;
pub mod last_executed;
pub mod order_index;
pub mod segment;
pub mod text;

pub use text::{parse_u128, parse_u64};

pub use hash::Hash256;
pub use order_index::{IndexError, RecordError, SliceError, TxOrderHashBlock, TxOrderHashBlockGetter};
pub use last_executed::{LastExecutedSearch, SearchStep};
pub use segment::{collect_chunks, LedgerError, LedgerTxGetter, SegmentID};
