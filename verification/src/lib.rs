//! A bounded in-memory cache from text keys to values that evicts the
//! least-recently-used entry when its fixed capacity would be exceeded.
//!
//! [`cache_trait::CacheTrait`] declares the three operations every cache
//! offers and [`cache_lru::LruCache`] implements them with the LRU policy.
//! [`lru_state::LruState`] is the mathematical model the contracts are stated
//! over, with the laws of a single insert or lookup; [`history`] states what
//! holds after any sequence of them, and [`seq_facts`] holds the facts about
//! duplicate-free sequences that the proofs rest on.

pub mod cache_lru;
pub mod cache_trait;
pub mod history;
pub mod lru_state;
pub mod seq_facts;
