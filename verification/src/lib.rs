//! Block-cache core for an embedded key-value store: a capacity-bounded,
//! weighted LRU cache with an eviction log, plus the small collaborators
//! around it (a filter-policy interface and a corruption reporter).

pub mod filter;
pub mod lru;
pub mod reporter;
