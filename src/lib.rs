//! A generational slot map: stable `Key` handles to stored values, with
//! slot reuse through a free list and per-slot generation counters that
//! make stale keys detectable.

pub mod model;
pub mod slot_map;

pub use model::Key;
pub use slot_map::FastSlotMap;
