//! An ordered-key map and set built on a cascade of sorted arrays.
//!
//! New entries land in a small unsorted hot slot; when it fills, its
//! contents are merged with a prefix of the sorted levels into the first
//! empty level.  Deletion marks a bit in a per-level live mask instead of
//! shifting the arrays, and a compaction pass redistributes a level whose
//! dead fraction grows too large.  A binary snapshot codec round-trips the
//! whole engine through a byte vector.

pub mod flags;
pub mod model;
pub mod hotslot;
pub mod merge;
pub mod level;
pub mod tiers;
pub mod civmap;
pub mod civset;
pub mod codec;
