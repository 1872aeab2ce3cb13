//! A deterministic parallel executor for blocks of transactions over a shared
//! key-value state: a multi-version store, a dependency-tracking scheduler, a
//! write-once outcome array, and the driver that ties them together.

pub mod mvhashmap;
pub mod scheduler;
pub mod task;
pub mod outcome_array;
pub mod executor;
pub mod dict_db;
pub mod cli;
