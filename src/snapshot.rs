//! Snapshots of the state in a persistent arena.

pub mod pma;
