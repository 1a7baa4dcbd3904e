//! The storage engine: segments, the writer of the active one, and the
//! store that keeps them together with its index.

pub mod handle;
pub mod journal;
pub mod kvs;
pub mod names;
pub mod segment;

pub use handle::{KvStore, KvsEngine};
pub use kvs::StoreWriter;
pub use names::{get_sorted_gen_files, log_path};
pub use segment::{FileOp, MyWriter, Segment};
