//! The inventory ledger: owns the occupancy map, guards insertion with the
//! admission filter chain, delegates placement to the configured allocation
//! strategy, and keeps the four derived indices exactly consistent with the
//! occupancy map.

use vstd::prelude::*;

use crate::allocators::{
    spec_accepts, spec_available, spec_item_size, AllocStrategy, inv_at, lane_cell,
};
use crate::errors::ManagerError;
use crate::filters::{spec_allowed, Filter, FilterKind};
use crate::indexes::{
    add_date_slot, add_slot, bump_count, bump_name_count, distinct_id_keys, distinct_name_keys,
    distinct_slot_keys, drop_count, drop_name_count, lemma_lookup_count_absent,
    lemma_lookup_count_found, lemma_lookup_date_slots_absent, lemma_lookup_date_slots_found,
    lemma_lookup_slots_absent, lemma_lookup_slots_found, lookup_count, lookup_date_slots,
    lookup_name_count, lookup_slots, nonempty_date_lists, nonempty_slot_lists, positive_counts,
    positive_name_counts, remove_date_slot, remove_slot, sorted_date_keys,
};
use crate::item::{stamped, Item, Quality};
use crate::occupancy::{
    any_item, count_with_id, count_with_name, expired_pred, expired_seq, id_weight, is_anchor_of,
    is_expiry_anchor, lemma_anchor_gives_count, lemma_cover_records_multiset,
    lemma_count_gives_anchor, lemma_select_cells_take_step, lemma_sum_cells_bound,
    lemma_sum_cells_update, name_weight, occupant_seq, selected_anchor,
};
use crate::ordering::{
    insert_by_name, insert_position, lemma_insert_by_name_at, lemma_sort_by_name_sorted,
    sort_by_name, sorted_by_name,
};
use crate::slot::{lemma_lin_injective, Slot};
use crate::{MAX_INVENTORY_SIZE, NUM_SLOTS};

verus! {

/// Whether two coordinates share a row and shelf.
pub open spec fn same_lane(s1: Slot, s2: Slot) -> bool {
    s1.row == s2.row && s1.shelf == s2.shelf
}

/// Footprint legality of the whole occupancy map: every occupant's footprint
/// lies inside the grid, and on each row and shelf an occupant's footprint
/// ends before the next occupant's anchor.
pub open spec fn footprints_legal(inv: Seq<Option<Item>>) -> bool {
    &&& forall|s: Slot|
        s.in_grid() ==> ((#[trigger] inv[s.lin()]) matches Some(it) ==> s.zone + spec_item_size(
            it,
        ) <= MAX_INVENTORY_SIZE)
    &&& forall|s1: Slot, s2: Slot|
        #![trigger inv[s1.lin()], inv[s2.lin()]]
        s1.in_grid() && s2.in_grid() && same_lane(s1, s2) && s1.zone < s2.zone && inv[s1.lin()]
            is Some && inv[s2.lin()] is Some ==> s1.zone + spec_item_size(inv[s1.lin()]->0)
            <= s2.zone
}

/// Exactness of the four derived indices against an occupancy map: each is a
/// pure function of the occupancy, with no empty or zero-valued entries.
pub open spec fn indexes_wf(
    inv: Seq<Option<Item>>,
    ids: Seq<(usize, usize)>,
    names: Seq<(String, usize)>,
    slots: Seq<(usize, Vec<Slot>)>,
    dates: Seq<(i64, Vec<Slot>)>,
) -> bool {
    &&& distinct_id_keys(ids)
    &&& positive_counts(ids)
    &&& forall|id: usize| #[trigger] lookup_count(ids, id) == count_with_id(inv, id)
    &&& distinct_name_keys(names)
    &&& positive_name_counts(names)
    &&& forall|nm: Seq<char>| #[trigger] lookup_name_count(names, nm) == count_with_name(inv, nm)
    &&& distinct_slot_keys(slots)
    &&& nonempty_slot_lists(slots)
    &&& forall|id: usize| (#[trigger] lookup_slots(slots, id)).no_duplicates()
    &&& forall|id: usize, s: Slot|
        #[trigger] lookup_slots(slots, id).contains(s) <==> is_anchor_of(inv, s, id)
    &&& sorted_date_keys(dates)
    &&& nonempty_date_lists(dates)
    &&& forall|d: i64| (#[trigger] lookup_date_slots(dates, d)).no_duplicates()
    &&& forall|d: i64, s: Slot|
        #[trigger] lookup_date_slots(dates, d).contains(s) <==> is_expiry_anchor(inv, s, d)
}

/// Footprint legality, as it holds of every well-formed ledger state: an
/// occupant's footprint cell `z` lies inside the grid, and no other
/// occupant's footprint on the same row and shelf covers it.
pub proof fn lemma_footprints_disjoint(inv: Seq<Option<Item>>, s1: Slot, s2: Slot, z: int)
    requires
        inv.len() == NUM_SLOTS,
        footprints_legal(inv),
        s1.in_grid(),
        s2.in_grid(),
        same_lane(s1, s2),
        s1 != s2,
        inv[s1.lin()] is Some,
        inv[s2.lin()] is Some,
        s1.zone <= z < s1.zone + spec_item_size(inv[s1.lin()]->0),
    ensures
        z < MAX_INVENTORY_SIZE,
        !(s2.zone <= z < s2.zone + spec_item_size(inv[s2.lin()]->0)),
{
    if s1.zone == s2.zone {
        assert(s1 == s2);
    }
}

/// Committing an item at an available anchor keeps every footprint legal.
proof fn lemma_insert_preserves_legal(inv: Seq<Option<Item>>, slot: Slot, item: Item)
    requires
        inv.len() == NUM_SLOTS,
        footprints_legal(inv),
        slot.in_grid(),
        spec_available(inv, slot, item),
    ensures
        footprints_legal(inv.update(slot.lin(), Some(item))),
{
    let newinv = inv.update(slot.lin(), Some(item));
    assert forall|s: Slot|
        s.in_grid() implies ((#[trigger] newinv[s.lin()]) matches Some(it) ==> s.zone
        + spec_item_size(it) <= MAX_INVENTORY_SIZE) by {
        if s.lin() == slot.lin() {
            lemma_lin_injective(s, slot);
        } else {
            assert(newinv[s.lin()] == inv[s.lin()]);
        }
    }
    assert forall|s1: Slot, s2: Slot|
        #![trigger newinv[s1.lin()], newinv[s2.lin()]]
        s1.in_grid() && s2.in_grid() && same_lane(s1, s2) && s1.zone < s2.zone && newinv[s1.lin()]
            is Some && newinv[s2.lin()] is Some implies s1.zone + spec_item_size(
        newinv[s1.lin()]->0,
    ) <= s2.zone by {
        if s1.lin() == slot.lin() {
            lemma_lin_injective(s1, slot);
            // s2 lies to the right of the fresh anchor on its lane
            assert(s2.lin() != slot.lin());
            assert(newinv[s2.lin()] == inv[s2.lin()]);
            assert(lane_cell(slot, s2.zone as int) == s2.lin());
            assert(inv_at(inv, slot, s2.zone as int) == inv[s2.lin()]);
            if s2.zone < slot.zone + spec_item_size(item) {
                assert(inv_at(inv, slot, s2.zone as int) is None);
            }
        } else if s2.lin() == slot.lin() {
            lemma_lin_injective(s2, slot);
            assert(newinv[s1.lin()] == inv[s1.lin()]);
            assert(lane_cell(slot, s1.zone as int) == s1.lin());
            assert(inv_at(inv, slot, s1.zone as int) == inv[s1.lin()]);
        } else {
            assert(newinv[s1.lin()] == inv[s1.lin()]);
            assert(newinv[s2.lin()] == inv[s2.lin()]);
        }
    }
}

/// Clearing a cell keeps every footprint legal.
proof fn lemma_remove_preserves_legal(inv: Seq<Option<Item>>, l: int)
    requires
        inv.len() == NUM_SLOTS,
        footprints_legal(inv),
        0 <= l < NUM_SLOTS,
    ensures
        footprints_legal(inv.update(l, None)),
{
    let newinv = inv.update(l, None);
    assert forall|s: Slot|
        s.in_grid() implies ((#[trigger] newinv[s.lin()]) matches Some(it) ==> s.zone
        + spec_item_size(it) <= MAX_INVENTORY_SIZE) by {
        if newinv[s.lin()] is Some {
            assert(newinv[s.lin()] == inv[s.lin()]);
        }
    }
    assert forall|s1: Slot, s2: Slot|
        #![trigger newinv[s1.lin()], newinv[s2.lin()]]
        s1.in_grid() && s2.in_grid() && same_lane(s1, s2) && s1.zone < s2.zone && newinv[s1.lin()]
            is Some && newinv[s2.lin()] is Some implies s1.zone + spec_item_size(
        newinv[s1.lin()]->0,
    ) <= s2.zone by {
        assert(newinv[s1.lin()] == inv[s1.lin()]);
        assert(newinv[s2.lin()] == inv[s2.lin()]);
    }
}

/// The inventory ledger, generic over the allocation strategy chosen at
/// construction.
#[derive(Debug)]
pub struct Manager<A: AllocStrategy> {
    pub inventory: Vec<Option<Item>>,
    pub allocator: A,
    pub filters: Vec<FilterKind>,
    // derived indices
    pub map_ids: Vec<(usize, usize)>,
    pub map_names: Vec<(String, usize)>,
    pub map_slots: Vec<(usize, Vec<Slot>)>,
    pub map_dates: Vec<(i64, Vec<Slot>)>,
}

impl<A: AllocStrategy> Manager<A> {
    /// The ledger's invariant: a full occupancy map with legal footprints,
    /// a valid strategy state, and indices that are exact functions of the
    /// occupancy map.
    pub open spec fn wf(&self) -> bool {
        &&& self.inventory@.len() == NUM_SLOTS
        &&& self.allocator.wf()
        &&& footprints_legal(self.inventory@)
        &&& indexes_wf(
            self.inventory@,
            self.map_ids@,
            self.map_names@,
            self.map_slots@,
            self.map_dates@,
        )
    }

    pub fn new(allocator: A, filters: Vec<FilterKind>) -> (r: Manager<A>)
        requires
            allocator.wf(),
        ensures
            r.wf(),
            r.allocator == allocator,
            r.filters == filters,
            forall|i: int| 0 <= i < NUM_SLOTS ==> r.inventory@[i] is None,
            r.map_ids@.len() == 0,
            r.map_names@.len() == 0,
            r.map_slots@.len() == 0,
            r.map_dates@.len() == 0,
    {
        let mut inventory: Vec<Option<Item>> = Vec::new();
        let mut i: usize = 0;
        while i < NUM_SLOTS
            invariant
                i <= NUM_SLOTS,
                inventory@.len() == i,
                forall|j: int| 0 <= j < i ==> inventory@[j] is None,
            decreases NUM_SLOTS - i,
        {
            inventory.push(None);
            i += 1;
        }
        let r = Manager {
            inventory,
            allocator,
            filters,
            map_ids: Vec::new(),
            map_names: Vec::new(),
            map_slots: Vec::new(),
            map_dates: Vec::new(),
        };
        proof {
            assert forall|id: usize| #[trigger] lookup_count(r.map_ids@, id) == count_with_id(
                r.inventory@,
                id,
            ) by {
                crate::occupancy::lemma_sum_cells_zero(r.inventory@, id_weight(id));
            }
            assert forall|nm: Seq<char>| #[trigger] lookup_name_count(r.map_names@, nm)
                == count_with_name(r.inventory@, nm) by {
                crate::occupancy::lemma_sum_cells_zero(r.inventory@, name_weight(nm));
            }
        }
        r
    }

    /// Replace the admission filter chain wholesale.
    pub fn set_filters(&mut self, filters: Vec<FilterKind>)
        ensures
            *final(self) == (Manager { filters, ..*old(self) }),
            old(self).wf() ==> final(self).wf(),
    {
        self.filters = filters;
    }

    /// Append one filter to the chain.
    pub fn insert_filter(&mut self, filter: FilterKind)
        ensures
            final(self).filters@ == old(self).filters@.push(filter),
            *final(self) == (Manager { filters: final(self).filters, ..*old(self) }),
            old(self).wf() ==> final(self).wf(),
    {
        self.filters.push(filter);
    }

    /// Whether every filter of the chain admits the candidate.
    pub fn is_allowed_by_filters(&self, item: &Item) -> (r: bool)
        requires
            self.wf(),
        ensures
            r == spec_allowed(self.filters@, *item, self.inventory@),
    {
        let n = self.filters.len();
        let mut i: usize = 0;
        while i < n
            invariant
                self.wf(),
                n == self.filters@.len(),
                i <= n,
                forall|j: int|
                    0 <= j < i ==> (#[trigger] self.filters@[j]).spec_filter(
                        *item,
                        self.inventory@,
                    ),
            decreases n - i,
        {
            let f = self.filters[i];
            if !f.filter(item, &self.inventory) {
                return false;
            }
            i += 1;
        }
        true
    }

    /// Admit, place and commit an item, updating the occupancy map and all
    /// four indices as one step. A failed insertion leaves the occupancy map
    /// and every index exactly as they were.
    pub fn insert_item(&mut self, item: Item) -> (r: Result<(), ManagerError>)
        requires
            old(self).wf(),
        ensures
            final(self).wf(),
            final(self).filters == old(self).filters,
            match r {
                Ok(_) => {
                    &&& spec_allowed(old(self).filters@, item, old(self).inventory@)
                    &&& exists|slot: Slot, t: i64|
                        {
                            &&& slot.in_grid()
                            &&& #[trigger] spec_accepts(old(self).inventory@, slot, item)
                            &&& final(self).inventory@ == old(self).inventory@.update(
                                slot.lin(),
                                Some(#[trigger] stamped(item, t)),
                            )
                        }
                },
                Err(e) => {
                    &&& final(self).inventory == old(self).inventory
                    &&& final(self).map_ids == old(self).map_ids
                    &&& final(self).map_names == old(self).map_names
                    &&& final(self).map_slots == old(self).map_slots
                    &&& final(self).map_dates == old(self).map_dates
                    &&& match e {
                        ManagerError::FilteredItem { item: it, filters } => {
                            &&& !spec_allowed(old(self).filters@, item, old(self).inventory@)
                            &&& it == item
                            &&& filters@ == old(self).filters@
                            &&& final(self).allocator == old(self).allocator
                        },
                        ManagerError::FailedAllocation { allocator: k, item: it } => {
                            &&& spec_allowed(old(self).filters@, item, old(self).inventory@)
                            &&& it == item
                            &&& k == final(self).allocator.spec_kind()
                            &&& forall|s: Slot|
                                s.in_grid() && s.lin() >= old(self).allocator.start_at()
                                    ==> !spec_accepts(old(self).inventory@, s, item)
                        },
                        ManagerError::NotFound { .. } => false,
                    }
                },
            },
    {
        if !self.is_allowed_by_filters(&item) {
            let n = self.filters.len();
            let mut fs: Vec<FilterKind> = Vec::new();
            let mut i: usize = 0;
            while i < n
                invariant
                    n == self.filters@.len(),
                    i <= n,
                    fs@ == self.filters@.take(i as int),
                decreases n - i,
            {
                let f = self.filters[i];
                fs.push(f);
                proof {
                    assert(fs@ =~= self.filters@.take(i + 1));
                }
                i += 1;
            }
            proof {
                assert(fs@ =~= self.filters@);
            }
            return Err(ManagerError::FilteredItem { item, filters: fs });
        }
        let slot_opt = self.allocator.allocate(&item, &self.inventory);
        let slot = match slot_opt {
            Some(s) => s,
            None => {
                let kind = self.allocator.kind();
                return Err(ManagerError::FailedAllocation { allocator: kind, item });
            },
        };
        let ghost gitem = item;
        let mut placed = item;
        placed.update_timestamp();
        let ghost t0 = choose|t: i64| placed == stamped(gitem, t);
        proof {
            assert(spec_item_size(placed) == spec_item_size(gitem));
            assert(spec_available(self.inventory@, slot, placed));
            lemma_insert_preserves_legal(self.inventory@, slot, placed);
        }
        self._update_maps_on_insert(&slot, &placed);
        self._insert_item(slot, placed);
        proof {
            assert(spec_accepts(old(self).inventory@, slot, item));
            assert(self.inventory@ == old(self).inventory@.update(
                slot.lin(),
                Some(stamped(gitem, t0)),
            ));
        }
        Ok(())
    }

    /// Write the committed item into the occupancy map at its anchor.
    fn _insert_item(&mut self, slot: Slot, item: Item)
        requires
            slot.in_grid(),
            old(self).inventory@.len() == NUM_SLOTS,
        ensures
            final(self).inventory@ == old(self).inventory@.update(slot.lin(), Some(item)),
            final(self).allocator == old(self).allocator,
            final(self).filters == old(self).filters,
            final(self).map_ids == old(self).map_ids,
            final(self).map_names == old(self).map_names,
            final(self).map_slots == old(self).map_slots,
            final(self).map_dates == old(self).map_dates,
    {
        let idx = slot.linear_index();
        self.inventory[idx] = Some(item);
    }

    /// Bring all four indices in line with the occupancy map as it will be
    /// once `item` is committed at `slot`.
    fn _update_maps_on_insert(&mut self, slot: &Slot, item: &Item)
        requires
            slot.in_grid(),
            old(self).inventory@.len() == NUM_SLOTS,
            old(self).inventory@[slot.lin()] is None,
            indexes_wf(
                old(self).inventory@,
                old(self).map_ids@,
                old(self).map_names@,
                old(self).map_slots@,
                old(self).map_dates@,
            ),
        ensures
            final(self).inventory == old(self).inventory,
            final(self).allocator == old(self).allocator,
            final(self).filters == old(self).filters,
            indexes_wf(
                old(self).inventory@.update(slot.lin(), Some(*item)),
                final(self).map_ids@,
                final(self).map_names@,
                final(self).map_slots@,
                final(self).map_dates@,
            ),
    {
        broadcast use vstd::seq_lib::lemma_seq_contains_after_push;

        let ghost inv = self.inventory@;
        let ghost newinv = inv.update(slot.lin(), Some(*item));
        proof {
            lemma_sum_cells_bound(inv, id_weight(item.id), 1);
        }
        bump_count(&mut self.map_ids, item.id);
        proof {
            assert forall|id: usize| #[trigger] lookup_count(self.map_ids@, id) == count_with_id(
                newinv,
                id,
            ) by {
                lemma_sum_cells_update(inv, id_weight(id), slot.lin(), Some(*item));
            }
        }
        proof {
            lemma_sum_cells_bound(inv, name_weight(item.name@), 1);
        }
        bump_name_count(&mut self.map_names, &item.name);
        proof {
            assert forall|nm: Seq<char>| #[trigger] lookup_name_count(self.map_names@, nm)
                == count_with_name(newinv, nm) by {
                lemma_sum_cells_update(inv, name_weight(nm), slot.lin(), Some(*item));
            }
        }
        proof {
            // the fresh anchor is not yet registered under any id
            assert(!lookup_slots(self.map_slots@, item.id).contains(*slot));
        }
        add_slot(&mut self.map_slots, item.id, *slot);
        proof {
            let oldslots = old(self).map_slots@;
            assert forall|id: usize| (#[trigger] lookup_slots(self.map_slots@, id)).no_duplicates()
                by {
                if id == item.id {
                    let nl = lookup_slots(self.map_slots@, id);
                    let ol = lookup_slots(oldslots, id);
                    assert(nl == ol.push(*slot));
                    assert forall|a: int, b: int| 0 <= a < b < nl.len() implies nl[a] != nl[b] by {
                        if b == nl.len() - 1 {
                            if nl[a] == *slot {
                                assert(ol.contains(*slot));
                            }
                        } else {
                            assert(nl[a] == ol[a] && nl[b] == ol[b]);
                        }
                    }
                }
            }
            assert forall|id: usize, s: Slot|
                #[trigger] lookup_slots(self.map_slots@, id).contains(s) <==> is_anchor_of(
                newinv,
                s,
                id,
            ) by {
                if s.in_grid() && s.lin() == slot.lin() {
                    lemma_lin_injective(s, *slot);
                }
                if s.in_grid() && s != *slot {
                    assert(newinv[s.lin()] == inv[s.lin()]);
                }
                if id == item.id {
                    assert(lookup_slots(self.map_slots@, id) == lookup_slots(oldslots, id).push(
                        *slot,
                    ));
                }
            }
        }
        match &item.quality {
            Quality::Fragile { expiration_date, .. } => {
                let d = *expiration_date;
                proof {
                    assert(!lookup_date_slots(self.map_dates@, d).contains(*slot));
                }
                add_date_slot(&mut self.map_dates, d, *slot);
                proof {
                    let olddates = old(self).map_dates@;
                    assert forall|dd: i64|
                        (#[trigger] lookup_date_slots(self.map_dates@, dd)).no_duplicates() by {
                        if dd == d {
                            let nl = lookup_date_slots(self.map_dates@, dd);
                            let ol = lookup_date_slots(olddates, dd);
                            assert(nl == ol.push(*slot));
                            assert forall|a: int, b: int|
                                0 <= a < b < nl.len() implies nl[a] != nl[b] by {
                                if b == nl.len() - 1 {
                                    if nl[a] == *slot {
                                        assert(ol.contains(*slot));
                                    }
                                } else {
                                    assert(nl[a] == ol[a] && nl[b] == ol[b]);
                                }
                            }
                        }
                    }
                    assert forall|dd: i64, s: Slot|
                        #[trigger] lookup_date_slots(self.map_dates@, dd).contains(s)
                        <==> is_expiry_anchor(newinv, s, dd) by {
                        if s.in_grid() && s.lin() == slot.lin() {
                            lemma_lin_injective(s, *slot);
                        }
                        if s.in_grid() && s != *slot {
                            assert(newinv[s.lin()] == inv[s.lin()]);
                        }
                        if dd == d {
                            assert(lookup_date_slots(self.map_dates@, dd) == lookup_date_slots(
                                olddates,
                                dd,
                            ).push(*slot));
                        }
                    }
                }
            },
            _ => {
                proof {
                    assert forall|dd: i64, s: Slot|
                        #[trigger] lookup_date_slots(self.map_dates@, dd).contains(s)
                        <==> is_expiry_anchor(newinv, s, dd) by {
                        if s.in_grid() && s.lin() == slot.lin() {
                            lemma_lin_injective(s, *slot);
                        }
                        if s.in_grid() && s != *slot {
                            assert(newinv[s.lin()] == inv[s.lin()]);
                        }
                    }
                }
            },
        }
    }

    /// Read the occupant anchored at a coordinate.
    pub fn get_item(&self, row: usize, shelf: usize, zone: usize) -> (r: Option<&Item>)
        requires
            self.wf(),
        ensures
            ({
                let s = (Slot { row, shelf, zone });
                match r {
                    Some(it) => s.in_grid() && self.inventory@[s.lin()] == Some(*it),
                    None => !s.in_grid() || self.inventory@[s.lin()] is None,
                }
            }),
    {
        if row >= MAX_INVENTORY_SIZE || shelf >= MAX_INVENTORY_SIZE || zone
            >= MAX_INVENTORY_SIZE {
            return None;
        }
        let slot = Slot::new(row, shelf, zone);
        self._get_item(&slot)
    }

    fn _get_item(&self, slot: &Slot) -> (r: Option<&Item>)
        requires
            self.wf(),
            slot.in_grid(),
        ensures
            match r {
                Some(it) => self.inventory@[slot.lin()] == Some(*it),
                None => self.inventory@[slot.lin()] is None,
            },
    {
        let idx = slot.linear_index();
        match &self.inventory[idx] {
            Some(it) => Some(it),
            None => None,
        }
    }

    /// Remove the occupant anchored at a coordinate, updating every index;
    /// removal at an empty or out-of-grid coordinate is a silent no-op.
    pub fn remove_item(&mut self, row: usize, shelf: usize, zone: usize)
        requires
            old(self).wf(),
        ensures
            final(self).wf(),
            final(self).allocator == old(self).allocator,
            final(self).filters == old(self).filters,
            ({
                let s = (Slot { row, shelf, zone });
                if s.in_grid() && old(self).inventory@[s.lin()] is Some {
                    final(self).inventory@ == old(self).inventory@.update(s.lin(), None)
                } else {
                    *final(self) == *old(self)
                }
            }),
    {
        if row >= MAX_INVENTORY_SIZE || shelf >= MAX_INVENTORY_SIZE || zone
            >= MAX_INVENTORY_SIZE {
            return ;
        }
        let slot = Slot::new(row, shelf, zone);
        let idx = slot.linear_index();
        if self.inventory[idx].is_some() {
            let removed = self._remove_item(&slot);
            match removed {
                Some(item) => {
                    proof {
                        assert(old(self).inventory@ =~= self.inventory@.update(
                            slot.lin(),
                            Some(item),
                        ));
                        lemma_remove_preserves_legal(old(self).inventory@, slot.lin());
                        assert(old(self).inventory@.update(slot.lin(), None) =~= self.inventory@);
                    }
                    self._update_maps_on_remove(&slot, &item);
                },
                None => {
                    proof {
                        assert(false);
                    }
                },
            }
        }
    }

    /// Take the occupant anchored at `slot` out of the occupancy map.
    fn _remove_item(&mut self, slot: &Slot) -> (r: Option<Item>)
        requires
            slot.in_grid(),
            old(self).inventory@.len() == NUM_SLOTS,
        ensures
            r == old(self).inventory@[slot.lin()],
            final(self).inventory@ == old(self).inventory@.update(slot.lin(), None),
            final(self).allocator == old(self).allocator,
            final(self).filters == old(self).filters,
            final(self).map_ids == old(self).map_ids,
            final(self).map_names == old(self).map_names,
            final(self).map_slots == old(self).map_slots,
            final(self).map_dates == old(self).map_dates,
    {
        let idx = slot.linear_index();
        self.inventory[idx].take()
    }

    /// Bring all four indices in line with the occupancy map after the
    /// occupant `item` was taken out of `slot`.
    fn _update_maps_on_remove(&mut self, slot: &Slot, item: &Item)
        requires
            slot.in_grid(),
            old(self).inventory@.len() == NUM_SLOTS,
            old(self).inventory@[slot.lin()] is None,
            indexes_wf(
                old(self).inventory@.update(slot.lin(), Some(*item)),
                old(self).map_ids@,
                old(self).map_names@,
                old(self).map_slots@,
                old(self).map_dates@,
            ),
        ensures
            final(self).inventory == old(self).inventory,
            final(self).allocator == old(self).allocator,
            final(self).filters == old(self).filters,
            indexes_wf(
                old(self).inventory@,
                final(self).map_ids@,
                final(self).map_names@,
                final(self).map_slots@,
                final(self).map_dates@,
            ),
    {
        let ghost cur = self.inventory@;
        let ghost pre = cur.update(slot.lin(), Some(*item));
        proof {
            assert(pre.update(slot.lin(), None) =~= cur);
            lemma_anchor_gives_count(pre, *slot, item.id);
            crate::occupancy::lemma_sum_cells_lower(pre, name_weight(item.name@), slot.lin());
        }
        drop_count(&mut self.map_ids, item.id);
        proof {
            assert forall|id: usize| #[trigger] lookup_count(self.map_ids@, id) == count_with_id(
                cur,
                id,
            ) by {
                lemma_sum_cells_update(pre, id_weight(id), slot.lin(), None);
            }
        }
        drop_name_count(&mut self.map_names, &item.name);
        proof {
            assert forall|nm: Seq<char>| #[trigger] lookup_name_count(self.map_names@, nm)
                == count_with_name(cur, nm) by {
                lemma_sum_cells_update(pre, name_weight(nm), slot.lin(), None);
            }
        }
        proof {
            assert(is_anchor_of(pre, *slot, item.id));
            assert(lookup_slots(self.map_slots@, item.id).contains(*slot));
        }
        remove_slot(&mut self.map_slots, item.id, *slot);
        proof {
            let oldslots = old(self).map_slots@;
            assert forall|id: usize, s: Slot|
                #[trigger] lookup_slots(self.map_slots@, id).contains(s) <==> is_anchor_of(
                cur,
                s,
                id,
            ) by {
                if s.in_grid() && s.lin() == slot.lin() {
                    lemma_lin_injective(s, *slot);
                }
                if s.in_grid() && s != *slot {
                    assert(cur[s.lin()] == pre[s.lin()]);
                }
            }
        }
        match &item.quality {
            Quality::Fragile { expiration_date, .. } => {
                let d = *expiration_date;
                proof {
                    assert(is_expiry_anchor(pre, *slot, d));
                    assert(lookup_date_slots(self.map_dates@, d).contains(*slot));
                }
                remove_date_slot(&mut self.map_dates, d, *slot);
                proof {
                    assert forall|dd: i64, s: Slot|
                        #[trigger] lookup_date_slots(self.map_dates@, dd).contains(s)
                        <==> is_expiry_anchor(cur, s, dd) by {
                        if s.in_grid() && s.lin() == slot.lin() {
                            lemma_lin_injective(s, *slot);
                        }
                        if s.in_grid() && s != *slot {
                            assert(cur[s.lin()] == pre[s.lin()]);
                        }
                    }
                }
            },
            _ => {
                proof {
                    assert forall|dd: i64, s: Slot|
                        #[trigger] lookup_date_slots(self.map_dates@, dd).contains(s)
                        <==> is_expiry_anchor(cur, s, dd) by {
                        if s.in_grid() && s.lin() == slot.lin() {
                            lemma_lin_injective(s, *slot);
                        }
                        if s.in_grid() && s != *slot {
                            assert(cur[s.lin()] == pre[s.lin()]);
                        }
                    }
                }
            },
        }
    }

    /// How many occupants currently hold the given id.
    pub fn count_id(&self, id: usize) -> (r: usize)
        requires
            self.wf(),
        ensures
            r == count_with_id(self.inventory@, id),
    {
        let n = self.map_ids.len();
        let mut i: usize = 0;
        while i < n
            invariant
                self.wf(),
                n == self.map_ids@.len(),
                i <= n,
                forall|j: int| 0 <= j < i ==> (#[trigger] self.map_ids@[j]).0 != id,
            decreases n - i,
        {
            if self.map_ids[i].0 == id {
                proof {
                    lemma_lookup_count_found(self.map_ids@, i as int);
                }
                return self.map_ids[i].1;
            }
            i += 1;
        }
        proof {
            lemma_lookup_count_absent(self.map_ids@, id);
        }
        0
    }

    /// How many occupants currently hold the given display name.
    pub fn count_name(&self, name: &str) -> (r: usize)
        requires
            self.wf(),
        ensures
            r == count_with_name(self.inventory@, name@),
    {
        let key = name.to_owned();
        let n = self.map_names.len();
        let mut i: usize = 0;
        while i < n
            invariant
                self.wf(),
                key@ == name@,
                n == self.map_names@.len(),
                i <= n,
                forall|j: int| 0 <= j < i ==> (#[trigger] self.map_names@[j]).0@ != name@,
            decreases n - i,
        {
            if self.map_names[i].0 == key {
                proof {
                    crate::indexes::lemma_lookup_name_count_found(self.map_names@, i as int);
                }
                return self.map_names[i].1;
            }
            i += 1;
        }
        proof {
            crate::indexes::lemma_lookup_name_count_absent(self.map_names@, name@);
        }
        0
    }

    /// The anchors currently holding the given id, or `None` when there is
    /// none.
    pub fn find_id(&self, id: usize) -> (r: Option<&Vec<Slot>>)
        requires
            self.wf(),
        ensures
            match r {
                Some(v) => {
                    &&& count_with_id(self.inventory@, id) > 0
                    &&& v@.no_duplicates()
                    &&& forall|s: Slot|
                        #[trigger] v@.contains(s) <==> is_anchor_of(self.inventory@, s, id)
                },
                None => count_with_id(self.inventory@, id) == 0,
            },
    {
        let n = self.map_slots.len();
        let mut i: usize = 0;
        while i < n
            invariant
                self.wf(),
                n == self.map_slots@.len(),
                i <= n,
                forall|j: int| 0 <= j < i ==> (#[trigger] self.map_slots@[j]).0 != id,
            decreases n - i,
        {
            if self.map_slots[i].0 == id {
                proof {
                    lemma_lookup_slots_found(self.map_slots@, i as int);
                    let v = self.map_slots@[i as int].1@;
                    assert(v == lookup_slots(self.map_slots@, id));
                    assert(v.len() > 0);
                    assert(v.contains(v[0]));
                    assert(is_anchor_of(self.inventory@, v[0], id));
                    lemma_anchor_gives_count(self.inventory@, v[0], id);
                    assert forall|s: Slot| #[trigger] v.contains(s) implies is_anchor_of(
                        self.inventory@,
                        s,
                        id,
                    ) by {
                        assert(lookup_slots(self.map_slots@, id).contains(s));
                    }
                    assert forall|s: Slot|
                        is_anchor_of(self.inventory@, s, id) implies #[trigger] v.contains(s) by {
                        assert(lookup_slots(self.map_slots@, id).contains(s));
                    }
                }
                return Some(&self.map_slots[i].1);
            }
            i += 1;
        }
        proof {
            lemma_lookup_slots_absent(self.map_slots@, id);
            lemma_sum_cells_bound(self.inventory@, id_weight(id), 1);
            if count_with_id(self.inventory@, id) > 0 {
                lemma_count_gives_anchor(self.inventory@, id);
                let s = choose|s: Slot| is_anchor_of(self.inventory@, s, id);
                assert(lookup_slots(self.map_slots@, id).contains(s));
                assert(Seq::<Slot>::empty().contains(s));
                assert(false);
            }
        }
        None
    }

    /// Every occupant, ordered by display name. Occupants with equal names
    /// keep their occupancy-map (cell) order: the listing is the stable sort
    /// of the occupants, so it is deterministic for a given state.
    pub fn ord_by_name(&self) -> (r: Vec<Item>)
        requires
            self.wf(),
        ensures
            r@ == sort_by_name(occupant_seq(self.inventory@)),
            sorted_by_name(r@),
    {
        let mut out: Vec<Item> = Vec::new();
        proof {
            assert(self.inventory@.take(0) =~= Seq::<Option<Item>>::empty());
        }
        let mut idx: usize = 0;
        while idx < NUM_SLOTS
            invariant
                self.wf(),
                idx <= NUM_SLOTS,
                out@ == sort_by_name(occupant_seq(self.inventory@.take(idx as int))),
            decreases NUM_SLOTS - idx,
        {
            let ghost pre = occupant_seq(self.inventory@.take(idx as int));
            proof {
                lemma_select_cells_take_step(self.inventory@, any_item(), idx as int);
            }
            match &self.inventory[idx] {
                Some(it) => {
                    let copy = it.clone();
                    let j = insert_position(&out, &copy);
                    let ghost t = out@;
                    out.insert(j, copy);
                    proof {
                        lemma_insert_by_name_at(t, copy, j as int);
                        assert(t.insert(j as int, copy) =~= t.take(j as int) + seq![copy] + t.skip(
                            j as int,
                        ));
                        let s1 = occupant_seq(self.inventory@.take(idx + 1));
                        assert(s1 == pre + seq![*it]);
                        assert(s1.drop_last() =~= pre);
                        assert(s1.last() == *it);
                        assert(sort_by_name(s1) == insert_by_name(sort_by_name(pre), *it));
                        assert(out@ == insert_by_name(t, copy));
                    }
                },
                None => {
                    proof {
                        let s1 = occupant_seq(self.inventory@.take(idx + 1));
                        assert(s1 =~= pre);
                    }
                },
            }
            idx += 1;
        }
        proof {
            assert(self.inventory@.take(NUM_SLOTS as int) =~= self.inventory@);
            lemma_sort_by_name_sorted(occupant_seq(self.inventory@));
        }
        out
    }

    /// Every fragile occupant whose expiry is at or before `date`, resolved
    /// back to items through the occupancy map: exactly the expired
    /// occupants, counted with multiplicity, gathered through the expiry
    /// index in ascending date order.
    pub fn find_expired(&self, date: i64) -> (r: Vec<Item>)
        requires
            self.wf(),
        ensures
            r@.to_multiset() == expired_seq(self.inventory@, date).to_multiset(),
    {
        broadcast use vstd::seq_lib::lemma_seq_contains_after_push;

        let mut out: Vec<Item> = Vec::new();
        let ghost mut covered: Seq<Slot> = Seq::empty();
        let n = self.map_dates.len();
        let mut e: usize = 0;
        while e < n
            invariant
                self.wf(),
                n == self.map_dates@.len(),
                e <= n,
                covered.no_duplicates(),
                out@.len() == covered.len(),
                forall|k: int| 0 <= k < covered.len() ==> (#[trigger] covered[k]).in_grid(),
                forall|k: int|
                    0 <= k < covered.len() ==> out@[k] == self.inventory@[(
                    #[trigger] covered[k]).lin()]->0,
                forall|s: Slot|
                    #[trigger] covered.contains(s) <==> (exists|j: int|
                        0 <= j < e && (#[trigger] self.map_dates@[j]).0 <= date
                            && is_expiry_anchor(self.inventory@, s, self.map_dates@[j].0)),
            decreases n - e,
        {
            let d = self.map_dates[e].0;
            if d <= date {
                proof {
                    lemma_lookup_date_slots_found(self.map_dates@, e as int);
                }
                let m = self.map_dates[e].1.len();
                let mut q: usize = 0;
                while q < m
                    invariant
                        self.wf(),
                        n == self.map_dates@.len(),
                        e < n,
                        d == self.map_dates@[e as int].0,
                        d <= date,
                        m == self.map_dates@[e as int].1@.len(),
                        q <= m,
                        lookup_date_slots(self.map_dates@, d) == self.map_dates@[e as int].1@,
                        covered.no_duplicates(),
                        out@.len() == covered.len(),
                        forall|k: int|
                            0 <= k < covered.len() ==> (#[trigger] covered[k]).in_grid(),
                        forall|k: int|
                            0 <= k < covered.len() ==> out@[k] == self.inventory@[(
                            #[trigger] covered[k]).lin()]->0,
                        forall|s: Slot|
                            #[trigger] covered.contains(s) <==> ((exists|j: int|
                                0 <= j < e && (#[trigger] self.map_dates@[j]).0 <= date
                                    && is_expiry_anchor(self.inventory@, s, self.map_dates@[j].0))
                                || (exists|k: int|
                                0 <= k < q && self.map_dates@[e as int].1@[k] == s)),
                    decreases m - q,
                {
                    let s = self.map_dates[e].1[q];
                    proof {
                        assert(self.map_dates@[e as int].1@.contains(s));
                        assert(lookup_date_slots(self.map_dates@, d).contains(s));
                        assert(is_expiry_anchor(self.inventory@, s, d));
                        // `s` has not been gathered yet
                        if covered.contains(s) {
                            if exists|j: int|
                                0 <= j < e && (#[trigger] self.map_dates@[j]).0 <= date
                                    && is_expiry_anchor(self.inventory@, s, self.map_dates@[j].0) {
                                let j = choose|j: int|
                                    0 <= j < e && (#[trigger] self.map_dates@[j]).0 <= date
                                        && is_expiry_anchor(
                                        self.inventory@,
                                        s,
                                        self.map_dates@[j].0,
                                    );
                                assert(self.map_dates@[j].0 < d);
                                assert(false);
                            } else {
                                let k = choose|k: int|
                                    0 <= k < q && self.map_dates@[e as int].1@[k] == s;
                                assert(self.map_dates@[e as int].1@[q as int] == s);
                                assert(lookup_date_slots(self.map_dates@, d).no_duplicates());
                                assert(false);
                            }
                        }
                    }
                    let sidx = s.linear_index();
                    let ghost pre_cov = covered;
                    let ghost pre_out = out@;
                    match &self.inventory[sidx] {
                        Some(it) => {
                            out.push(it.clone());
                            proof {
                                covered = covered.push(s);
                            }
                        },
                        None => {
                            proof {
                                assert(false);
                            }
                        },
                    }
                    proof {
                        assert(covered == pre_cov.push(s));
                        assert(out@.len() == covered.len());
                        assert forall|a: int, b: int|
                            0 <= a < b < covered.len() implies covered[a] != covered[b] by {
                            if b == covered.len() - 1 {
                                if covered[a] == s {
                                    assert(pre_cov[a] == s);
                                    assert(pre_cov.contains(s));
                                }
                            } else {
                                assert(covered[a] == pre_cov[a] && covered[b] == pre_cov[b]);
                            }
                        }
                        assert forall|k: int|
                            0 <= k < covered.len() implies (#[trigger] covered[k]).in_grid()
                            && out@[k] == self.inventory@[covered[k].lin()]->0 by {
                            if k < covered.len() - 1 {
                                assert(covered[k] == pre_cov[k]);
                                assert(out@[k] == pre_out[k]);
                            } else {
                                assert(covered[k] == s);
                            }
                        }
                        assert forall|x: Slot|
                            #[trigger] covered.contains(x) <==> ((exists|j: int|
                                0 <= j < e && (#[trigger] self.map_dates@[j]).0 <= date
                                    && is_expiry_anchor(self.inventory@, x, self.map_dates@[j].0))
                                || (exists|k: int|
                                0 <= k < q + 1 && self.map_dates@[e as int].1@[k] == x)) by {
                            vstd::seq_lib::lemma_seq_contains_after_push(pre_cov, s, x);
                            if covered.contains(x) {
                                if pre_cov.contains(x) {
                                    if exists|k: int|
                                        0 <= k < q && self.map_dates@[e as int].1@[k] == x {
                                        let k = choose|k: int|
                                            0 <= k < q && self.map_dates@[e as int].1@[k] == x;
                                        assert(0 <= k < q + 1 && self.map_dates@[e as int].1@[k]
                                            == x);
                                    }
                                } else {
                                    assert(x == s);
                                    assert(self.map_dates@[e as int].1@[q as int] == x);
                                }
                            }
                            if exists|k: int|
                                0 <= k < q + 1 && self.map_dates@[e as int].1@[k] == x {
                                let k = choose|k: int|
                                    0 <= k < q + 1 && self.map_dates@[e as int].1@[k] == x;
                                if k == q as int {
                                    assert(x == s);
                                    assert(covered.last() == s);
                                } else {
                                    assert(pre_cov.contains(x));
                                }
                            }
                            if exists|j: int|
                                0 <= j < e && (#[trigger] self.map_dates@[j]).0 <= date
                                    && is_expiry_anchor(self.inventory@, x, self.map_dates@[j].0) {
                                assert(pre_cov.contains(x));
                            }
                        }
                    }
                    q += 1;
                }
                proof {
                    assert forall|s: Slot|
                        #[trigger] covered.contains(s) <==> (exists|j: int|
                            0 <= j < e + 1 && (#[trigger] self.map_dates@[j]).0 <= date
                                && is_expiry_anchor(self.inventory@, s, self.map_dates@[j].0)) by {
                        if covered.contains(s) {
                            if exists|k: int| 0 <= k < m && self.map_dates@[e as int].1@[k] == s {
                                assert(lookup_date_slots(self.map_dates@, d).contains(s));
                                assert(is_expiry_anchor(self.inventory@, s, d));
                                assert(0 <= e < e + 1 && (self.map_dates@[e as int]).0 <= date
                                    && is_expiry_anchor(
                                    self.inventory@,
                                    s,
                                    self.map_dates@[e as int].0,
                                ));
                            }
                        }
                        if exists|j: int|
                            0 <= j < e + 1 && (#[trigger] self.map_dates@[j]).0 <= date
                                && is_expiry_anchor(self.inventory@, s, self.map_dates@[j].0) {
                            let j = choose|j: int|
                                0 <= j < e + 1 && (#[trigger] self.map_dates@[j]).0 <= date
                                    && is_expiry_anchor(self.inventory@, s, self.map_dates@[j].0);
                            if j == e {
                                assert(lookup_date_slots(self.map_dates@, d).contains(s));
                                let k = choose|k: int|
                                    0 <= k < self.map_dates@[e as int].1@.len()
                                        && self.map_dates@[e as int].1@[k] == s;
                                assert(covered.contains(s));
                            }
                        }
                    }
                }
            } else {
                proof {
                    assert forall|s: Slot|
                        #[trigger] covered.contains(s) <==> (exists|j: int|
                            0 <= j < e + 1 && (#[trigger] self.map_dates@[j]).0 <= date
                                && is_expiry_anchor(self.inventory@, s, self.map_dates@[j].0)) by {
                        if exists|j: int|
                            0 <= j < e + 1 && (#[trigger] self.map_dates@[j]).0 <= date
                                && is_expiry_anchor(self.inventory@, s, self.map_dates@[j].0) {
                            let j = choose|j: int|
                                0 <= j < e + 1 && (#[trigger] self.map_dates@[j]).0 <= date
                                    && is_expiry_anchor(self.inventory@, s, self.map_dates@[j].0);
                            assert(j < e);
                        }
                    }
                }
            }
            e += 1;
        }
        proof {
            assert forall|s: Slot|
                #[trigger] covered.contains(s) <==> selected_anchor(
                self.inventory@,
                s,
                expired_pred(date),
            ) by {
                if covered.contains(s) {
                    let j = choose|j: int|
                        0 <= j < n && (#[trigger] self.map_dates@[j]).0 <= date
                            && is_expiry_anchor(self.inventory@, s, self.map_dates@[j].0);
                    assert(is_expiry_anchor(self.inventory@, s, self.map_dates@[j].0));
                }
                if selected_anchor(self.inventory@, s, expired_pred(date)) {
                    match self.inventory@[s.lin()] {
                        Some(it) => {
                            match it.quality {
                                Quality::Fragile { expiration_date: d0, max_row: _ } => {
                                    assert(d0 <= date);
                                    assert(is_expiry_anchor(self.inventory@, s, d0));
                                    assert(lookup_date_slots(self.map_dates@, d0).contains(s));
                                    if forall|j: int|
                                        0 <= j < n ==> (#[trigger] self.map_dates@[j]).0 != d0 {
                                        lemma_lookup_date_slots_absent(self.map_dates@, d0);
                                        assert(false);
                                    }
                                    let j = choose|j: int|
                                        0 <= j < n && (#[trigger] self.map_dates@[j]).0 == d0;
                                    assert(0 <= j < n && self.map_dates@[j].0 <= date
                                        && is_expiry_anchor(
                                        self.inventory@,
                                        s,
                                        self.map_dates@[j].0,
                                    ));
                                },
                                _ => {
                                    assert(false);
                                },
                            }
                        },
                        None => {
                            assert(false);
                        },
                    }
                }
            }
            lemma_cover_records_multiset(self.inventory@, expired_pred(date), covered, out@);
        }
        out
    }
}

} // verus!
