//! The allocation engine: the shared availability predicate and the two
//! placement-search strategies.

use vstd::prelude::*;

use crate::item::{Item, Quality};
use crate::slot::{lemma_lin_injective, Slot};
use crate::{MAX_INVENTORY_SIZE, NUM_SLOTS};

verus! {

/// The number of cells an item's footprint covers: one for `Normal` and
/// `Fragile` items, the configured span for `OverSized` items.
pub open spec fn spec_item_size(item: Item) -> int {
    match item.quality {
        Quality::OverSized { size } => size as int,
        _ => 1,
    }
}

/// The linear position of the cell at zone `z` on the row and shelf of `slot`.
pub open spec fn lane_cell(slot: Slot, z: int) -> int {
    slot.row * MAX_INVENTORY_SIZE * MAX_INVENTORY_SIZE + slot.shelf * MAX_INVENTORY_SIZE + z
}

/// The cell at zone `z` on the row and shelf of `slot`.
pub open spec fn inv_at(inv: Seq<Option<Item>>, slot: Slot, z: int) -> Option<Item> {
    inv[lane_cell(slot, z)]
}

/// The availability predicate: whether `slot` can host `item` without leaving
/// the grid and without overlapping any existing occupant on the same row and
/// shelf. This is the single source of truth for spatial legality; the
/// strategies differ only in search order.
pub open spec fn spec_available(inv: Seq<Option<Item>>, slot: Slot, item: Item) -> bool {
    let size = spec_item_size(item);
    &&& slot.zone + size <= MAX_INVENTORY_SIZE
    &&& inv[slot.lin()] is None
    &&& forall|z: int|
        slot.zone <= z < slot.zone + size ==> #[trigger] inv_at(inv, slot, z) is None
    &&& forall|z: int|
        0 <= z < slot.zone ==> (#[trigger] inv_at(inv, slot, z) matches Some(blocker) ==> z
            + spec_item_size(blocker) <= slot.zone)
}

/// The category-specific acceptance rule: a `Fragile` item may only be
/// anchored at rows at or below its configured maximum row.
pub open spec fn spec_category_ok(slot: Slot, item: Item) -> bool {
    match item.quality {
        Quality::Fragile { max_row, .. } => slot.row <= max_row,
        _ => true,
    }
}

/// A candidate anchor that a strategy may return: available and acceptable
/// for the item's category.
pub open spec fn spec_accepts(inv: Seq<Option<Item>>, slot: Slot, item: Item) -> bool {
    spec_available(inv, slot, item) && spec_category_ok(slot, item)
}

/// The footprint size of an item.
pub fn get_item_size(item: &Item) -> (s: usize)
    ensures
        s == spec_item_size(*item),
{
    match item.quality {
        Quality::Normal | Quality::Fragile { .. } => 1,
        Quality::OverSized { size } => size,
    }
}

/// The availability predicate, executably: decides `spec_available`.
pub fn is_slot_available(slot: &Slot, item: &Item, inventory: &Vec<Option<Item>>) -> (r: bool)
    requires
        slot.in_grid(),
        inventory@.len() == NUM_SLOTS,
    ensures
        r == spec_available(inventory@, *slot, *item),
{
    let size = get_item_size(item);
    if size > MAX_INVENTORY_SIZE - slot.zone {
        return false;
    }
    let base = slot.row * MAX_INVENTORY_SIZE * MAX_INVENTORY_SIZE + slot.shelf
        * MAX_INVENTORY_SIZE;
    if inventory[base + slot.zone].is_some() {
        return false;
    }
    // forward check: no occupied anchor inside the candidate's footprint
    let mut z = slot.zone;
    while z < slot.zone + size
        invariant
            slot.in_grid(),
            inventory@.len() == NUM_SLOTS,
            base == slot.row * MAX_INVENTORY_SIZE * MAX_INVENTORY_SIZE + slot.shelf
                * MAX_INVENTORY_SIZE,
            slot.zone + size <= MAX_INVENTORY_SIZE,
            size == spec_item_size(*item),
            slot.zone <= z <= slot.zone + size,
            forall|zz: int|
                slot.zone <= zz < z ==> #[trigger] inv_at(inventory@, *slot, zz) is None,
        decreases slot.zone + size - z,
    {
        proof {
            assert(inv_at(inventory@, *slot, z as int) == inventory@[base + z as int]);
        }
        if inventory[base + z].is_some() {
            return false;
        }
        z += 1;
    }
    // backward check: no earlier occupant's footprint reaches the candidate
    let mut z2: usize = 0;
    while z2 < slot.zone
        invariant
            slot.in_grid(),
            inventory@.len() == NUM_SLOTS,
            base == slot.row * MAX_INVENTORY_SIZE * MAX_INVENTORY_SIZE + slot.shelf
                * MAX_INVENTORY_SIZE,
            z2 <= slot.zone,
            forall|zz: int|
                0 <= zz < z2 ==> (#[trigger] inv_at(inventory@, *slot, zz) matches Some(blocker) ==> zz
                    + spec_item_size(blocker) <= slot.zone),
        decreases slot.zone - z2,
    {
        proof {
            assert(inv_at(inventory@, *slot, z2 as int) == inventory@[base + z2 as int]);
        }
        match &inventory[base + z2] {
            Some(blocker) => {
                if get_item_size(blocker) > slot.zone - z2 {
                    return false;
                }
            },
            None => {},
        }
        z2 += 1;
    }
    true
}

/// Which concrete placement-search strategy an allocator is.
#[derive(Clone, Copy, PartialEq, Eq, Structural, Debug)]
pub enum StrategyKind {
    RoundRobin,
    Greedy,
}

/// A placement-search strategy. A strategy may keep internal search state
/// (`wf` is its validity); `start_at` is the lexicographic position from
/// which its next search scans, so a failed search means that no coordinate
/// at or beyond that position was acceptable.
pub trait AllocStrategy: Sized {
    /// Which of the concrete strategies this is.
    spec fn spec_kind(&self) -> StrategyKind;

    /// Validity of the strategy's internal search state.
    spec fn wf(&self) -> bool;

    /// The lexicographic position from which the next search scans.
    spec fn start_at(&self) -> int;

    fn kind(&self) -> (r: StrategyKind)
        ensures
            r == self.spec_kind(),
    ;

    /// Search for an anchor coordinate that can host `item`. A returned
    /// coordinate is available and acceptable for the item's category; a
    /// failed search rejected every coordinate at or beyond the strategy's
    /// scan start.
    fn allocate(&mut self, item: &Item, inventory: &Vec<Option<Item>>) -> (r: Option<Slot>)
        requires
            old(self).wf(),
            inventory@.len() == NUM_SLOTS,
        ensures
            final(self).wf(),
            match r {
                Some(slot) => slot.in_grid() && spec_accepts(inventory@, slot, *item),
                None => forall|s: Slot|
                    s.in_grid() && s.lin() >= old(self).start_at() ==> !spec_accepts(
                        inventory@,
                        s,
                        *item,
                    ),
            },
    ;
}

/// The stateful round-robin strategy: scans the grid in lexicographic
/// (row, shelf, zone) order, resuming from the last successful anchor.
#[derive(Debug)]
pub struct RoundRobinAllocator {
    pub prev_alloc: Option<Slot>,
}

impl RoundRobinAllocator {
    pub fn get_prev_alloc(&self) -> (r: &Option<Slot>)
        ensures
            r == self.prev_alloc,
    {
        &self.prev_alloc
    }

    pub fn set_prev_alloc(&mut self, new_alloc: Option<Slot>)
        requires
            new_alloc matches Some(s) ==> s.in_grid(),
        ensures
            final(self).prev_alloc == new_alloc,
    {
        self.prev_alloc = new_alloc;
    }

    pub fn get_start_pos(&self) -> (r: (usize, usize, usize))
        ensures
            match self.prev_alloc {
                Some(slot) => r == (slot.row, slot.shelf, slot.zone),
                None => r == (0usize, 0usize, 0usize),
            },
    {
        match &self.prev_alloc {
            Some(slot) => slot.as_tuple(),
            None => (0, 0, 0),
        }
    }
}

impl Default for RoundRobinAllocator {
    fn default() -> (r: Self)
        ensures
            r.prev_alloc is None,
    {
        Self { prev_alloc: None }
    }
}

impl AllocStrategy for RoundRobinAllocator {
    open spec fn spec_kind(&self) -> StrategyKind {
        StrategyKind::RoundRobin
    }

    open spec fn wf(&self) -> bool {
        self.prev_alloc matches Some(s) ==> s.in_grid()
    }

    open spec fn start_at(&self) -> int {
        match self.prev_alloc {
            Some(s) => s.lin(),
            None => 0,
        }
    }

    fn kind(&self) -> (r: StrategyKind)
        ensures
            r == self.spec_kind(),
    {
        StrategyKind::RoundRobin
    }

    /// Round-robin search. Beyond the strategy contract, consecutive
    /// successful searches make monotonic progress: a returned coordinate
    /// never lies lexicographically before the scan start (the previous
    /// success), it becomes the new scan start, and a failed search resets
    /// the scan start to the origin.
    fn allocate(&mut self, item: &Item, inventory: &Vec<Option<Item>>) -> (r: Option<Slot>)
        ensures
            match r {
                Some(slot) => {
                    &&& final(self).prev_alloc == Some(slot)
                    &&& slot.lin() >= old(self).start_at()
                    &&& forall|s: Slot|
                        s.in_grid() && old(self).start_at() <= s.lin() < slot.lin()
                            ==> !spec_accepts(inventory@, s, *item)
                },
                None => final(self).prev_alloc is None,
            },
    {
        let start: usize = match &self.prev_alloc {
            Some(s) => s.linear_index(),
            None => 0,
        };
        let mut idx: usize = start;
        while idx < NUM_SLOTS
            invariant
                *self == *old(self),
                start == old(self).start_at(),
                start <= idx,
                inventory@.len() == NUM_SLOTS,
                forall|s: Slot|
                    s.in_grid() && start <= s.lin() < idx ==> !spec_accepts(inventory@, s, *item),
            decreases NUM_SLOTS - idx,
        {
            let slot = Slot::from_linear_index(idx);
            if is_slot_available(&slot, item, inventory) {
                let ok = match &item.quality {
                    Quality::Normal | Quality::OverSized { .. } => true,
                    Quality::Fragile { max_row, .. } => slot.row <= *max_row,
                };
                if ok {
                    self.set_prev_alloc(Some(slot));
                    return Some(slot);
                }
            }
            proof {
                assert forall|s: Slot|
                    s.in_grid() && start <= s.lin() < idx + 1 implies !spec_accepts(
                    inventory@,
                    s,
                    *item,
                ) by {
                    if s.lin() == idx {
                        lemma_lin_injective(s, slot);
                    }
                }
            }
            idx += 1;
        }
        self.set_prev_alloc(None);
        None
    }
}

/// The stateless greedy strategy: returns an acceptable anchor of minimum
/// Manhattan distance from the origin.
#[derive(Debug)]
pub struct GreedyAllocator {}

/// Whether `v` holds the coordinate `slot`.
fn vec_contains_slot(v: &Vec<Slot>, slot: Slot) -> (r: bool)
    ensures
        r == v@.contains(slot),
{
    let mut i: usize = 0;
    while i < v.len()
        invariant
            i <= v@.len(),
            forall|j: int| 0 <= j < i ==> v@[j] != slot,
        decreases v@.len() - i,
    {
        if v[i] == slot {
            return true;
        }
        i += 1;
    }
    false
}

/// Append the coordinate (row, shelf, zone) to `out` if it lies in the grid
/// and is not yet present.
fn push_candidate(out: &mut Vec<Slot>, row: usize, shelf: usize, zone: usize, Ghost(dist): Ghost<
    int,
>)
    requires
        row + shelf + zone == dist,
        forall|i: int|
            0 <= i < old(out)@.len() ==> (#[trigger] old(out)@[i]).in_grid()
                && old(out)@[i].spec_distance() == dist,
        old(out)@.no_duplicates(),
    ensures
        forall|i: int|
            0 <= i < final(out)@.len() ==> (#[trigger] final(out)@[i]).in_grid()
                && final(out)@[i].spec_distance() == dist,
        final(out)@.no_duplicates(),
        forall|s: Slot|
            final(out)@.contains(s) <==> (old(out)@.contains(s) || (s == (Slot {
                row,
                shelf,
                zone,
            }) && s.in_grid())),
{
    broadcast use vstd::seq_lib::lemma_seq_contains_after_push;

    if row < MAX_INVENTORY_SIZE && shelf < MAX_INVENTORY_SIZE && zone < MAX_INVENTORY_SIZE {
        let slot = Slot { row, shelf, zone };
        if !vec_contains_slot(out, slot) {
            let ghost pre = out@;
            out.push(slot);
            proof {
                assert forall|i: int, j: int|
                    0 <= i < j < out@.len() implies out@[i] != out@[j] by {
                    if j < pre.len() {
                    } else {
                        assert(pre.contains(pre[i]) == false || true);
                        assert(out@[j] == slot);
                        if out@[i] == slot {
                            assert(pre.contains(slot));
                        }
                    }
                }
            }
        }
    }
}

impl GreedyAllocator {
    /// Every in-grid coordinate at Manhattan distance `dist` from the origin,
    /// each exactly once. For a fixed distance the coordinates are generated
    /// by enumerating the component triples that sum to the distance, taking
    /// every ordering of each triple, and keeping the first occurrence of
    /// each coordinate that lies in the grid.
    pub fn slots_by_distance(dist: usize) -> (r: Vec<Slot>)
        ensures
            forall|i: int|
                0 <= i < r@.len() ==> (#[trigger] r@[i]).in_grid() && r@[i].spec_distance()
                    == dist,
            r@.no_duplicates(),
            forall|s: Slot| s.in_grid() && s.spec_distance() == dist ==> r@.contains(s),
    {
        let mut out: Vec<Slot> = Vec::new();
        if dist > 3 * (MAX_INVENTORY_SIZE - 1) {
            // no in-grid coordinate reaches this distance
            return out;
        }
        let mut i: usize = 0;
        while i <= dist
            invariant
                dist <= 3 * (MAX_INVENTORY_SIZE - 1),
                i <= dist + 1,
                forall|q: int|
                    0 <= q < out@.len() ==> (#[trigger] out@[q]).in_grid() && out@[q].spec_distance()
                        == dist,
                out@.no_duplicates(),
                forall|s: Slot|
                    s.in_grid() && s.spec_distance() == dist && s.row < i ==> out@.contains(s),
            decreases dist + 1 - i,
        {
            let mut j: usize = 0;
            while j <= dist - i
                invariant
                    dist <= 3 * (MAX_INVENTORY_SIZE - 1),
                    i <= dist,
                    j <= dist - i + 1,
                    forall|q: int|
                        0 <= q < out@.len() ==> (#[trigger] out@[q]).in_grid()
                            && out@[q].spec_distance() == dist,
                    out@.no_duplicates(),
                    forall|s: Slot|
                        s.in_grid() && s.spec_distance() == dist && (s.row < i || (s.row == i
                            && s.shelf < j)) ==> out@.contains(s),
                decreases dist - i + 1 - j,
            {
                let k = dist - i - j;
                push_candidate(&mut out, i, j, k, Ghost(dist as int));
                push_candidate(&mut out, i, k, j, Ghost(dist as int));
                push_candidate(&mut out, j, i, k, Ghost(dist as int));
                push_candidate(&mut out, j, k, i, Ghost(dist as int));
                push_candidate(&mut out, k, i, j, Ghost(dist as int));
                push_candidate(&mut out, k, j, i, Ghost(dist as int));
                j += 1;
            }
            i += 1;
        }
        out
    }
}

impl AllocStrategy for GreedyAllocator {
    open spec fn spec_kind(&self) -> StrategyKind {
        StrategyKind::Greedy
    }

    open spec fn wf(&self) -> bool {
        true
    }

    open spec fn start_at(&self) -> int {
        0
    }

    fn kind(&self) -> (r: StrategyKind)
        ensures
            r == self.spec_kind(),
    {
        StrategyKind::Greedy
    }

    /// Nearest-first search. Beyond the strategy contract, a returned
    /// coordinate is of minimum Manhattan distance from the origin among all
    /// acceptable coordinates.
    fn allocate(&mut self, item: &Item, inventory: &Vec<Option<Item>>) -> (r: Option<Slot>)
        ensures
            match r {
                Some(slot) => forall|s: Slot|
                    s.in_grid() && spec_accepts(inventory@, s, *item) ==> slot.spec_distance()
                        <= s.spec_distance(),
                None => true,
            },
    {
        let mut dist: usize = 0;
        while dist <= 3 * (MAX_INVENTORY_SIZE - 1)
            invariant
                inventory@.len() == NUM_SLOTS,
                dist <= 3 * (MAX_INVENTORY_SIZE - 1) + 1,
                forall|s: Slot|
                    s.in_grid() && s.spec_distance() < dist ==> !spec_accepts(
                        inventory@,
                        s,
                        *item,
                    ),
            decreases 3 * (MAX_INVENTORY_SIZE - 1) + 1 - dist,
        {
            let layer = GreedyAllocator::slots_by_distance(dist);
            let mut q: usize = 0;
            while q < layer.len()
                invariant
                    inventory@.len() == NUM_SLOTS,
                    q <= layer@.len(),
                    forall|i: int|
                        0 <= i < layer@.len() ==> (#[trigger] layer@[i]).in_grid()
                            && layer@[i].spec_distance() == dist,
                    forall|s: Slot| s.in_grid() && s.spec_distance() == dist ==> layer@.contains(s),
                    forall|s: Slot|
                        s.in_grid() && s.spec_distance() < dist ==> !spec_accepts(
                            inventory@,
                            s,
                            *item,
                        ),
                    forall|i: int|
                        0 <= i < q ==> !spec_accepts(inventory@, #[trigger] layer@[i], *item),
                decreases layer@.len() - q,
            {
                let slot = layer[q];
                if is_slot_available(&slot, item, inventory) {
                    let ok = match &item.quality {
                        Quality::Normal | Quality::OverSized { .. } => true,
                        Quality::Fragile { max_row, .. } => slot.row <= *max_row,
                    };
                    if ok {
                        return Some(slot);
                    }
                }
                q += 1;
            }
            proof {
                assert forall|s: Slot|
                    s.in_grid() && s.spec_distance() < dist + 1 implies !spec_accepts(
                    inventory@,
                    s,
                    *item,
                ) by {
                    if s.spec_distance() == dist {
                        let w = choose|i: int| 0 <= i < layer@.len() && layer@[i] == s;
                        assert(layer@.contains(s));
                        assert(layer@[choose|i: int|
                            0 <= i < layer@.len() && layer@[i] == s] == s);
                    }
                }
            }
            dist += 1;
        }
        proof {
            assert forall|s: Slot|
                s.in_grid() && s.lin() >= 0 implies !spec_accepts(inventory@, s, *item) by {
                assert(s.spec_distance() <= 3 * (MAX_INVENTORY_SIZE - 1));
            }
        }
        None
    }
}

} // verus!
