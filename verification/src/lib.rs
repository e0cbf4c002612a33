//! Building blocks for a heterogeneous (CPU/GPU) relational hash-join engine:
//! a tagged memory abstraction, a columnar tuple/relation model, an
//! open-addressing hash table with perfect and linear-probing disciplines,
//! and chunked (CPU) and grid-stride (GPU) build/probe drivers.

pub mod error;
pub mod hash_join;
pub mod hash_table;
pub mod memory;
pub mod memory_latency;
pub mod partition;
pub mod relation;
