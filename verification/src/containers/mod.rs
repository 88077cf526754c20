//! Containers that are addressed by typed keys.

pub mod key_value_heap;
pub mod keyed_vec;
pub mod storage_key;

pub use key_value_heap::{HeapModel, KeyValueHeap};
pub use keyed_vec::KeyedVec;
pub use storage_key::StorageKey;
