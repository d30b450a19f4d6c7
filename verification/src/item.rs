//! The inventory record model: placement categories and items.

use vstd::prelude::*;

verus! {

/// The placement category of an item.
///
/// - `Normal` items occupy exactly their anchor coordinate.
/// - `OverSized` items occupy `size` consecutive zones starting at their
///   anchor, on the same row and shelf.
/// - `Fragile` items occupy their anchor coordinate, may only be anchored at
///   rows at or below `max_row`, and carry an expiration timestamp
///   (seconds since the Unix epoch) used by time-based queries.
#[derive(Clone, Copy, PartialEq, Eq, Structural, Debug)]
pub enum Quality {
    Fragile { expiration_date: i64, max_row: usize },
    OverSized { size: usize },
    Normal,
}

/// An inventory record. The `timestamp` (seconds since the Unix epoch) is
/// `None` until the ledger commits the item, at which point the insertion
/// time is stamped.
#[derive(Debug)]
pub struct Item {
    pub id: usize,
    pub name: String,
    pub quantity: usize,
    pub quality: Quality,
    pub timestamp: Option<i64>,
}

/// Record equality: every field but the insertion timestamp.
pub open spec fn same_record(a: Item, b: Item) -> bool {
    &&& a.id == b.id
    &&& a.name@ == b.name@
    &&& a.quantity == b.quantity
    &&& a.quality == b.quality
}

/// The item as it is committed by the ledger: the same record, stamped with
/// the insertion time `t`.
pub open spec fn stamped(item: Item, t: i64) -> Item {
    Item { timestamp: Some(t), ..item }
}

impl Item {
    pub fn new(id: usize, name: &str, quantity: usize, quality: Quality) -> (r: Self)
        ensures
            r.id == id,
            r.name@ == name@,
            r.quantity == quantity,
            r.quality == quality,
            r.timestamp is None,
    {
        Self { id, name: name.to_owned(), quantity, quality, timestamp: None }
    }

    /// Stamp the record with an insertion time. The value of the stamp comes
    /// from the wall clock, so nothing is promised of it beyond presence.
    pub fn update_timestamp(&mut self)
        ensures
            exists|t: i64| *final(self) == #[trigger] stamped(*old(self), t),
    {
        let now = crate::clock::now_timestamp();
        self.timestamp = Some(now);
        proof {
            assert(*self == stamped(*old(self), now));
        }
    }
}

impl Clone for Item {
    fn clone(&self) -> (r: Self)
        ensures
            r == *self,
    {
        Self {
            id: self.id,
            name: self.name.clone(),
            quantity: self.quantity,
            quality: self.quality,
            timestamp: self.timestamp,
        }
    }
}

impl PartialEq for Item {
    /// Items compare by record: the insertion timestamp is not part of an
    /// item's identity.
    fn eq(&self, other: &Self) -> (r: bool)
    {
        self.id == other.id && self.name == other.name && self.quantity == other.quantity
            && self.quality == other.quality
    }
}

impl vstd::std_specs::cmp::PartialEqSpecImpl for Item {
    open spec fn obeys_eq_spec() -> bool {
        true
    }

    open spec fn eq_spec(&self, other: &Item) -> bool {
        same_record(*self, *other)
    }
}

} // verus!
