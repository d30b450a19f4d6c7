//! The ledger's error kinds. Every failure is returned to the caller; none
//! is fatal, and no failed operation leaves a partial mutation behind.

use vstd::prelude::*;

use crate::allocators::StrategyKind;
use crate::filters::FilterKind;
use crate::item::Item;
use crate::slot::Slot;

verus! {

#[derive(Debug)]
pub enum ManagerError {
    /// An admission filter rejected the candidate. Carries the rejected item
    /// and the filters that were in force at evaluation time (not which one
    /// vetoed).
    FilteredItem { item: Item, filters: Vec<FilterKind> },
    /// The allocation strategy exhausted its search without finding a legal
    /// anchor. Carries the candidate item and which strategy searched.
    FailedAllocation { allocator: StrategyKind, item: Item },
    /// A lookup addressed a coordinate with no occupant.
    NotFound { slot: Slot },
}

} // verus!
