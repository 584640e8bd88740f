//! Storage and batch-execution cores: a sharded, byte-budgeted block cache
//! with single-flight loading, and a k-way merge of sorted columnar chunks.

pub mod lru_shard;
pub mod block_cache;
pub mod chunk;
pub mod merge_sort_exchange;
pub mod expr_is_null;
