//! A fixed-capacity LRU cache that pairs a hash index with an intrusive
//! doubly-linked recency list, so that lookup, insertion, promotion and
//! eviction all run in amortized constant time against stable slots.
//!
//! The cache never resizes: all slots are allocated at construction, and
//! inserting into a full cache evicts the least-recently-used entry.
//! Values are handed out as reference-counted immutable key/value pairs,
//! so a reader may keep a result after the entry has been evicted or
//! replaced.

pub mod cache;
pub mod model;
pub mod support;

pub use cache::DefaultHashBuilder;
pub use cache::GWSCache;
pub use cache::Node;
pub use support::Meta;
pub use support::Status;
