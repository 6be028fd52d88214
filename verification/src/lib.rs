//! A persistent, log-structured key-value store: the append-only log, the
//! in-memory index over it, recovery, compaction, and the request/response
//! records of the network service built on top of it.

pub mod error;
pub mod codec;
pub mod index;
pub mod kvs_engine;
pub mod engines;
pub mod protocol;
pub mod thread_pool;
pub mod laws;

pub use crate::engines::KvsEngine;
pub use crate::error::KvsError;
pub use crate::index::{Index, LogPosition};
pub use crate::kvs_engine::{KvStore, MetaData};
pub use crate::protocol::{Request, Response};
pub use crate::thread_pool::ThreadPool;
