//! The memo of solved components.
//!
//! ```text
//!   buckets: [NodeId; 2^k]        one BST root per slot, indexed by hash & (2^k - 1)
//!        |
//!        +--> tree of Node        ordered by the FULL 64-bit hash, key bytes as tie-break
//!                 |
//!                 +--> blob       key bytes, then the witness bitset for SAT entries
//! ```

pub mod arena;
pub mod hash;
pub mod links;
pub mod table;
pub mod tree;
pub mod upkeep;

pub use arena::witness_len_for;
pub use hash::hash_key;
pub use table::{CacheStats, ComponentCache, TableShape, DEFAULT_BUDGET_BYTES, DEFAULT_TARGET_LOAD};
pub use tree::{Avl, BucketKind, BucketPolicy, Chain, Splay, Unbalanced};
