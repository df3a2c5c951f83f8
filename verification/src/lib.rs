//! Two persistent key-value storage engines behind one contract: an
//! open-addressed linear-probing hash table with incremental growth, and a
//! log-structured merge tree with tiered compaction.

pub mod hash_table;
pub mod linear_probing;
pub mod lsmt;
