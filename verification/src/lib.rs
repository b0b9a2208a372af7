//! A multiplexed, crash-safe write-ahead log.

pub mod frame;
pub mod mem;
pub mod multi_record_log;
pub mod rolling;
pub mod record;

pub use multi_record_log::MultiRecordLog;
pub use record::{LogError, Record, RecordView, Serializable};
