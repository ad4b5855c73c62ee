//! An embedded, partitioned, append-only log in the manner of Kafka, with its
//! rules stated as contracts and proved.
//!
//! The crate holds everything that decides: the record format, the segmented
//! log with its sparse index, crash recovery, retention, topic routing,
//! consumer cursors, committed offsets and the broker's registry. It performs
//! no I/O; a driver carries out the effects the log plans and hands file
//! contents back in.
#![allow(unused_imports)]

pub mod broker;
pub mod compression;
pub mod consumer;
pub mod disk;
pub mod durability;
pub mod duration;
pub mod error;
pub mod log;
pub mod offset_store;
pub mod outside;
pub mod partition;
pub mod position;
pub mod producer;
pub mod record;
pub mod retention;
pub mod scan;
pub mod segment;
pub mod sparse_index;
pub mod text;
pub mod topic;
pub mod wire;

pub use crate::broker::Kafko;
pub use crate::compression::Compression;
pub use crate::consumer::Consumer;
pub use crate::duration::Duration;
pub use crate::error::{IoError, KafkoError};
pub use crate::log::{Log, LogConfig};
pub use crate::partition::Partition;
pub use crate::position::RecordPosition;
pub use crate::record::Record;
pub use crate::segment::Segment;
pub use crate::sparse_index::SparseIndex;
pub use crate::topic::Topic;
