//! The coordinate model: a three-axis address inside the storage grid.

use vstd::prelude::*;

use crate::{MAX_INVENTORY_SIZE, NUM_SLOTS};

verus! {

/// A grid coordinate (row, shelf, zone). Each component of a coordinate that
/// addresses a cell of the grid lies in `[0, MAX_INVENTORY_SIZE)`.
#[derive(Clone, Copy, PartialEq, Eq, Structural, Hash, Debug)]
pub struct Slot {
    pub row: usize,
    pub shelf: usize,
    pub zone: usize,
}

impl Slot {
    /// Whether the coordinate addresses a cell of the grid.
    pub open spec fn in_grid(&self) -> bool {
        &&& self.row < MAX_INVENTORY_SIZE
        &&& self.shelf < MAX_INVENTORY_SIZE
        &&& self.zone < MAX_INVENTORY_SIZE
    }

    /// The position of this coordinate in the lexicographic (row, shelf, zone)
    /// enumeration of the grid.
    pub open spec fn lin(&self) -> int {
        self.row * MAX_INVENTORY_SIZE * MAX_INVENTORY_SIZE + self.shelf * MAX_INVENTORY_SIZE
            + self.zone
    }

    /// Manhattan distance from the origin.
    pub open spec fn spec_distance(&self) -> int {
        self.row + self.shelf + self.zone
    }

    pub fn new(row: usize, shelf: usize, zone: usize) -> (r: Self)
        ensures
            r == (Slot { row, shelf, zone }),
    {
        Self { row, shelf, zone }
    }

    pub fn as_tuple(&self) -> (r: (usize, usize, usize))
        ensures
            r == (self.row, self.shelf, self.zone),
    {
        (self.row, self.shelf, self.zone)
    }

    pub fn as_array(&self) -> (r: [usize; 3])
        ensures
            r@ == seq![self.row, self.shelf, self.zone],
    {
        let r = [self.row, self.shelf, self.zone];
        proof {
            assert(r@ =~= seq![self.row, self.shelf, self.zone]);
        }
        r
    }

    /// Manhattan distance from the origin.
    pub fn distance(&self) -> (r: usize)
        requires
            self.in_grid(),
        ensures
            r == self.spec_distance(),
    {
        self.row + self.shelf + self.zone
    }

    /// The lexicographic position of an in-grid coordinate, as a value.
    pub fn linear_index(&self) -> (r: usize)
        requires
            self.in_grid(),
        ensures
            r == self.lin(),
            r < NUM_SLOTS,
    {
        self.row * MAX_INVENTORY_SIZE * MAX_INVENTORY_SIZE + self.shelf * MAX_INVENTORY_SIZE
            + self.zone
    }

    /// The in-grid coordinate at a given lexicographic position.
    pub fn from_linear_index(idx: usize) -> (r: Self)
        requires
            idx < NUM_SLOTS,
        ensures
            r.in_grid(),
            r.lin() == idx,
    {
        let row = idx / (MAX_INVENTORY_SIZE * MAX_INVENTORY_SIZE);
        let rem = idx % (MAX_INVENTORY_SIZE * MAX_INVENTORY_SIZE);
        let shelf = rem / MAX_INVENTORY_SIZE;
        let zone = rem % MAX_INVENTORY_SIZE;
        Self { row, shelf, zone }
    }
}

/// The in-grid coordinate at a given lexicographic position, as a value.
pub open spec fn slot_at(idx: int) -> Slot {
    Slot {
        row: (idx / ((MAX_INVENTORY_SIZE * MAX_INVENTORY_SIZE) as int)) as usize,
        shelf: ((idx % ((MAX_INVENTORY_SIZE * MAX_INVENTORY_SIZE) as int)) / (
        MAX_INVENTORY_SIZE as int)) as usize,
        zone: ((idx % ((MAX_INVENTORY_SIZE * MAX_INVENTORY_SIZE) as int)) % (
        MAX_INVENTORY_SIZE as int)) as usize,
    }
}

pub proof fn lemma_slot_at(idx: int)
    requires
        0 <= idx < NUM_SLOTS,
    ensures
        slot_at(idx).in_grid(),
        slot_at(idx).lin() == idx,
{
}

/// Two in-grid coordinates with the same lexicographic position are the same
/// coordinate.
pub proof fn lemma_lin_injective(s1: Slot, s2: Slot)
    requires
        s1.in_grid(),
        s2.in_grid(),
        s1.lin() == s2.lin(),
    ensures
        s1 == s2,
{
}

impl From<(usize, usize, usize)> for Slot {
    fn from(value: (usize, usize, usize)) -> (r: Self)
        ensures
            r == (Slot { row: value.0, shelf: value.1, zone: value.2 }),
    {
        Self { row: value.0, shelf: value.1, zone: value.2 }
    }
}

impl vstd::std_specs::convert::FromSpecImpl<(usize, usize, usize)> for Slot {
    open spec fn obeys_from_spec() -> bool {
        true
    }

    open spec fn from_spec(value: (usize, usize, usize)) -> Slot {
        Slot { row: value.0, shelf: value.1, zone: value.2 }
    }
}

impl From<[usize; 3]> for Slot {
    fn from(value: [usize; 3]) -> (r: Self)
        ensures
            r == (Slot { row: value[0], shelf: value[1], zone: value[2] }),
    {
        Self { row: value[0], shelf: value[1], zone: value[2] }
    }
}

impl vstd::std_specs::convert::FromSpecImpl<[usize; 3]> for Slot {
    open spec fn obeys_from_spec() -> bool {
        true
    }

    open spec fn from_spec(value: [usize; 3]) -> Slot {
        Slot { row: value[0], shelf: value[1], zone: value[2] }
    }
}

} // verus!
