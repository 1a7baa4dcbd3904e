//! A log-structured key-value store whose storage rules are stated as
//! contracts and proved.
//!
//! The store keeps every segment of its append-only log as a byte image,
//! an index from each live key to the byte range of its latest `Set`
//! record, and a journal of the file operations that bring a directory of
//! `<gen>.log` files in line with those images.

pub mod error;
pub mod json;
pub mod command;
pub mod log;
pub mod history;
pub mod engines;
pub mod protocol;
pub mod thread_pool;

pub use engines::{KvStore, KvsEngine};
pub use error::{KvsError, Result};
pub use thread_pool::ThreadPool;
