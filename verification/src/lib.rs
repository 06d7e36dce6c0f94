//! A small embeddable key-value storage engine with interchangeable backends:
//! a log-structured engine with compaction, an in-memory engine, and an
//! adapter over an external embedded database. A dispatcher evaluates
//! commands against any backend, and pure front-end helpers parse the
//! line-oriented wire protocol and build HTTP-style replies.

pub mod cli;
pub mod codec;
pub mod engine;
pub mod err;
pub mod http;
pub mod kv_map;
pub mod kv_store;
pub mod mem_store;
pub mod protocol;
pub mod sled_store;
mod text;
pub mod thread_pool;

pub use engine::{KvsEngine, evaluate_command};
pub use err::Error;
pub use kv_map::KvMap;
pub use kv_store::{
    Command, CommandResponse, FileOp, KvStoreV2, DEFAULT_FILE_NAME as DEFAULT_FILE_NAME_KVS,
};
pub use mem_store::MemStore;
pub use sled_store::{SledStore, DEFAULT_FILE_NAME as DEFAULT_FILE_NAME_SLED};
pub use cli::{Engine, Server};
pub use thread_pool::{NaiveThreadPool, RayonThreadPool, SharedQueueThreadPool, ThreadPool};
