//! A verified inventory ledger over a bounded three-dimensional storage grid.
//!
//! The library assigns storage positions to inventory items inside a grid of
//! rows, shelves and zones. Placement is delegated to a pluggable allocation
//! strategy (a stateful round-robin scan or a stateless nearest-to-origin
//! search), both of which share one availability predicate that is the single
//! source of truth for spatial legality. The ledger owns the occupancy map,
//! guards insertion with an admission filter chain, and keeps four derived
//! indices (count by id, count by name, anchors by id, anchors by expiry)
//! exactly consistent with the occupancy map.

use vstd::prelude::*;

mod clock;
pub mod allocators;
pub mod errors;
pub mod filters;
pub mod indexes;
pub mod item;
pub mod manager;
pub mod occupancy;
pub mod ordering;
pub mod slot;

verus! {

/// The extent of the storage grid along each axis.
pub const MAX_INVENTORY_SIZE: usize = 3;

/// The number of cells in the grid.
pub const NUM_SLOTS: usize = MAX_INVENTORY_SIZE * MAX_INVENTORY_SIZE * MAX_INVENTORY_SIZE;

} // verus!
