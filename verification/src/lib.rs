//! A verified core of the SPADE sequential pattern miner.
//!
//! Patterns are ordered sequences of event sets; every pattern is mapped to
//! its id-list, the sorted list of (sid, eid) positions witnessing it.
//! Expansion grows the frontier one BFS level at a time by temporal and
//! itemset joins over id-lists, pruning by a minimum support threshold.

pub mod records;
pub mod joins;
pub mod events;
pub mod table;
pub mod engine;
pub mod laws;

pub use records::Record;
pub use events::EventSet;
pub use engine::Spade;
