//! A multi-version hash tree over an append-only byte store.
pub mod algorithm;
pub mod endian;
pub mod entry;
pub mod error;
pub mod guarantees;
pub mod hash;
pub mod laws;
pub mod memory;
pub mod model;
pub mod mvht;
pub mod roundtrip;
pub mod search;
pub mod storage;
pub mod text;
pub mod tree;

pub use crate::algorithm::{Index, INDEX_SIZE};
pub use crate::entry::MAX_PAYLOAD_SIZE;
pub use crate::hash::HASH_SIZE;
pub use crate::memory::MemStorage;
pub use crate::model::{DataSet, NodeHash, Value};
pub use crate::mvht::{MVHT, STORAGE_IDENTIFIER, STORAGE_VERSION};
pub use crate::storage::{Cursor, Reader, Storage};
