//! The admission filter chain: independent boolean predicates over a
//! candidate item and the current occupancy.

use vstd::prelude::*;

use crate::item::{Item, Quality};
use crate::occupancy::{
    cell_weight, count_oversized, lemma_sum_cells_bound, lemma_sum_cells_take_all,
    lemma_sum_cells_take_step, oversized_weight, qty_weight, qty_with_id, sum_cells,
};
use crate::NUM_SLOTS;

verus! {

/// An admission filter: a pure predicate over a candidate item and the
/// current occupancy. The ledger admits an item only if every filter of its
/// chain accepts it.
pub trait Filter: Sized {
    /// What the filter decides.
    spec fn spec_filter(&self, item: Item, inventory: Seq<Option<Item>>) -> bool;

    fn filter(&self, item: &Item, inventory: &Vec<Option<Item>>) -> (r: bool)
        requires
            inventory@.len() == NUM_SLOTS,
        ensures
            r == self.spec_filter(*item, inventory@),
    ;
}

/// Caps the number of over-sized occupants: an over-sized candidate is
/// rejected once `max_allowed` over-sized items are present. Normal and
/// fragile candidates always pass.
#[derive(Clone, Copy, PartialEq, Eq, Structural, Debug)]
pub struct LimitOverSized {
    pub max_allowed: usize,
}

impl LimitOverSized {
    pub fn new(max_allowed: usize) -> (r: Self)
        ensures
            r == (LimitOverSized { max_allowed }),
    {
        LimitOverSized { max_allowed }
    }
}

impl Filter for LimitOverSized {
    open spec fn spec_filter(&self, item: Item, inventory: Seq<Option<Item>>) -> bool {
        match item.quality {
            Quality::Normal | Quality::Fragile { .. } => true,
            Quality::OverSized { .. } => count_oversized(inventory) < self.max_allowed,
        }
    }

    fn filter(&self, item: &Item, inventory: &Vec<Option<Item>>) -> (r: bool)
        ensures
            r == self.spec_filter(*item, inventory@),
    {
        if matches!(item.quality, Quality::Normal | Quality::Fragile { .. }) {
            return true;
        }
        let mut count: usize = 0;
        let mut i: usize = 0;
        while i < NUM_SLOTS
            invariant
                inventory@.len() == NUM_SLOTS,
                i <= NUM_SLOTS,
                count <= i,
                count == sum_cells(inventory@.take(i as int), oversized_weight()),
            decreases NUM_SLOTS - i,
        {
            proof {
                lemma_sum_cells_take_step(inventory@, oversized_weight(), i as int);
            }
            match &inventory[i] {
                Some(it) => {
                    if matches!(it.quality, Quality::OverSized { .. }) {
                        count += 1;
                    }
                },
                None => {},
            }
            i += 1;
        }
        proof {
            lemma_sum_cells_take_all(inventory@, oversized_weight());
        }
        count < self.max_allowed
    }
}

/// Caps the total quantity held under one id: a candidate with that id is
/// rejected if adding its quantity to the quantities of the occupants that
/// share the id would exceed `max_allowed`. Candidates with other ids always
/// pass.
#[derive(Clone, Copy, PartialEq, Eq, Structural, Debug)]
pub struct LimitItemQuantity {
    pub id: usize,
    pub max_allowed: usize,
}

impl LimitItemQuantity {
    pub fn new(id: usize, max_allowed: usize) -> (r: Self)
        ensures
            r == (LimitItemQuantity { id, max_allowed }),
    {
        LimitItemQuantity { id, max_allowed }
    }
}

impl Filter for LimitItemQuantity {
    open spec fn spec_filter(&self, item: Item, inventory: Seq<Option<Item>>) -> bool {
        ||| item.id != self.id
        ||| qty_with_id(inventory, self.id) + item.quantity <= self.max_allowed
    }

    fn filter(&self, item: &Item, inventory: &Vec<Option<Item>>) -> (r: bool)
        ensures
            r == self.spec_filter(*item, inventory@),
    {
        if item.id != self.id {
            return true;
        }
        let mut total: u128 = 0;
        let mut i: usize = 0;
        while i < NUM_SLOTS
            invariant
                inventory@.len() == NUM_SLOTS,
                i <= NUM_SLOTS,
                total == sum_cells(inventory@.take(i as int), qty_weight(self.id)),
            decreases NUM_SLOTS - i,
        {
            proof {
                lemma_sum_cells_take_step(inventory@, qty_weight(self.id), i as int);
                lemma_sum_cells_bound(
                    inventory@.take(i as int),
                    qty_weight(self.id),
                    usize::MAX as int,
                );
                assert((i as int) * (usize::MAX as int) <= 27 * (usize::MAX as int))
                    by (nonlinear_arith)
                    requires
                        0 <= i <= 27,
                ;
            }
            match &inventory[i] {
                Some(it) => {
                    if it.id == self.id {
                        total += it.quantity as u128;
                    }
                },
                None => {},
            }
            i += 1;
        }
        proof {
            lemma_sum_cells_take_all(inventory@, qty_weight(self.id));
            lemma_sum_cells_bound(inventory@, qty_weight(self.id), usize::MAX as int);
            assert(total + (item.quantity as int) <= 28 * (usize::MAX as int))
                by (nonlinear_arith)
                requires
                    total <= 27 * (usize::MAX as int),
                    item.quantity <= usize::MAX,
            ;
        }
        total + (item.quantity as u128) <= self.max_allowed as u128
    }
}

/// Bans one placement category outright: a candidate whose category equals
/// the banned category, payload included, is rejected.
#[derive(Clone, Copy, PartialEq, Eq, Structural, Debug)]
pub struct BanQuality {
    pub quality: Quality,
}

impl BanQuality {
    pub fn new(quality: Quality) -> (r: Self)
        ensures
            r == (BanQuality { quality }),
    {
        BanQuality { quality }
    }
}

impl Filter for BanQuality {
    open spec fn spec_filter(&self, item: Item, inventory: Seq<Option<Item>>) -> bool {
        item.quality != self.quality
    }

    fn filter(&self, item: &Item, inventory: &Vec<Option<Item>>) -> (r: bool)
        ensures
            r == self.spec_filter(*item, inventory@),
    {
        !(item.quality == self.quality)
    }
}

/// One link of a filter chain: any of the admission filters, with its
/// configuration.
#[derive(Clone, Copy, PartialEq, Eq, Structural, Debug)]
pub enum FilterKind {
    OverSizedCap(LimitOverSized),
    QuantityCap(LimitItemQuantity),
    Ban(BanQuality),
}

impl Filter for FilterKind {
    open spec fn spec_filter(&self, item: Item, inventory: Seq<Option<Item>>) -> bool {
        match self {
            FilterKind::OverSizedCap(f) => f.spec_filter(item, inventory),
            FilterKind::QuantityCap(f) => f.spec_filter(item, inventory),
            FilterKind::Ban(f) => f.spec_filter(item, inventory),
        }
    }

    fn filter(&self, item: &Item, inventory: &Vec<Option<Item>>) -> (r: bool)
        ensures
            r == self.spec_filter(*item, inventory@),
    {
        match self {
            FilterKind::OverSizedCap(f) => f.filter(item, inventory),
            FilterKind::QuantityCap(f) => f.filter(item, inventory),
            FilterKind::Ban(f) => f.filter(item, inventory),
        }
    }
}

/// Whether every filter of the chain accepts the candidate.
pub open spec fn spec_allowed(
    filters: Seq<FilterKind>,
    item: Item,
    inventory: Seq<Option<Item>>,
) -> bool {
    forall|i: int| 0 <= i < filters.len() ==> (#[trigger] filters[i]).spec_filter(item, inventory)
}

} // verus!
