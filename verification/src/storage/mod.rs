//! The per-table storage engine and its parts.

pub mod block;
pub mod discovery;
pub mod durability;
pub mod error;
pub mod laws;
pub mod lsm_engine;
pub mod memtable;
pub mod record;
pub mod sorted;
pub mod sstable;
pub mod table;
pub mod writelog;

pub use block::Block;
pub use lsm_engine::{EngineStats, LSMEngine};
pub use memtable::MemTable;
pub use record::Record;
pub use sstable::SSTable;
pub use table::Table;
pub use writelog::LogEntry;
