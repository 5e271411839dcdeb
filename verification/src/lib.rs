//! An epoch-based reclamation engine.
//!
//! Many readers and writers share mutable slots. A writer atomically swaps a
//! new value into a slot and *retires* the dislodged one; the engine defers
//! the retired value's destruction until every guard that might still observe
//! it has been released. Progress is tracked by a global epoch counter with
//! three logical phases; retired values wait in per-epoch garbage bags and are
//! handed back for destruction only once the epoch has advanced at least twice
//! past the phase under which they were retired.

pub mod cage;
pub mod canary;
pub mod collector;
pub mod slot;
