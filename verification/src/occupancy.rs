//! Spec-level views of the occupancy map: weighted sums and selections over
//! the cells of the grid, with the lemmas the ledger and the filters need.

use vstd::prelude::*;

use crate::item::{Item, Quality};
use crate::slot::{lemma_slot_at, slot_at, Slot};
use crate::NUM_SLOTS;

verus! {

/// The weight a cell contributes: `w` of its occupant, 0 when empty.
pub open spec fn cell_weight(c: Option<Item>, w: spec_fn(Item) -> int) -> int {
    match c {
        Some(it) => w(it),
        None => 0,
    }
}

/// The sum of `w` over all occupants of `inv`.
pub open spec fn sum_cells(inv: Seq<Option<Item>>, w: spec_fn(Item) -> int) -> int
    decreases inv.len(),
{
    if inv.len() == 0 {
        0
    } else {
        sum_cells(inv.drop_last(), w) + cell_weight(inv.last(), w)
    }
}

/// Weight 1 for occupants with the given id.
pub open spec fn id_weight(id: usize) -> spec_fn(Item) -> int {
    |it: Item| if it.id == id { 1int } else { 0int }
}

/// Weight 1 for occupants with the given display name.
pub open spec fn name_weight(name: Seq<char>) -> spec_fn(Item) -> int {
    |it: Item| if it.name@ == name { 1int } else { 0int }
}

/// Weight 1 for over-sized occupants.
pub open spec fn oversized_weight() -> spec_fn(Item) -> int {
    |it: Item| if it.quality matches Quality::OverSized { .. } { 1int } else { 0int }
}

/// The quantity of occupants with the given id, 0 for others.
pub open spec fn qty_weight(id: usize) -> spec_fn(Item) -> int {
    |it: Item| if it.id == id { it.quantity as int } else { 0int }
}

/// How many occupants of `inv` hold the given id.
pub open spec fn count_with_id(inv: Seq<Option<Item>>, id: usize) -> int {
    sum_cells(inv, id_weight(id))
}

/// How many occupants of `inv` hold the given display name.
pub open spec fn count_with_name(inv: Seq<Option<Item>>, name: Seq<char>) -> int {
    sum_cells(inv, name_weight(name))
}

/// How many occupants of `inv` are over-sized.
pub open spec fn count_oversized(inv: Seq<Option<Item>>) -> int {
    sum_cells(inv, oversized_weight())
}

/// The total quantity held by occupants of `inv` with the given id.
pub open spec fn qty_with_id(inv: Seq<Option<Item>>, id: usize) -> int {
    sum_cells(inv, qty_weight(id))
}

/// Extending the summed prefix by one cell adds that cell's weight.
pub proof fn lemma_sum_cells_take_step(inv: Seq<Option<Item>>, w: spec_fn(Item) -> int, i: int)
    requires
        0 <= i < inv.len(),
    ensures
        sum_cells(inv.take(i + 1), w) == sum_cells(inv.take(i), w) + cell_weight(inv[i], w),
{
    assert(inv.take(i + 1).drop_last() =~= inv.take(i));
    assert(inv.take(i + 1).last() == inv[i]);
}

/// The sum over the whole occupancy is the sum over the full prefix.
pub proof fn lemma_sum_cells_take_all(inv: Seq<Option<Item>>, w: spec_fn(Item) -> int)
    ensures
        sum_cells(inv.take(inv.len() as int), w) == sum_cells(inv, w),
{
    assert(inv.take(inv.len() as int) =~= inv);
}

/// A sum of cell weights bounded by `b` per cell lies between 0 and
/// `b * len`.
pub proof fn lemma_sum_cells_bound(inv: Seq<Option<Item>>, w: spec_fn(Item) -> int, b: int)
    requires
        forall|it: Item| 0 <= #[trigger] w(it) <= b,
        b >= 0,
    ensures
        0 <= sum_cells(inv, w) <= b * inv.len(),
    decreases inv.len(),
{
    if inv.len() == 0 {
    } else {
        lemma_sum_cells_bound(inv.drop_last(), w, b);
        assert(b * (inv.len() - 1) + b == b * inv.len()) by (nonlinear_arith);
    }
}

/// Replacing one cell changes the sum by the difference of the two weights.
pub proof fn lemma_sum_cells_update(
    inv: Seq<Option<Item>>,
    w: spec_fn(Item) -> int,
    i: int,
    c: Option<Item>,
)
    requires
        0 <= i < inv.len(),
    ensures
        sum_cells(inv.update(i, c), w) == sum_cells(inv, w) - cell_weight(inv[i], w)
            + cell_weight(c, w),
    decreases inv.len(),
{
    let upd = inv.update(i, c);
    if i == inv.len() - 1 {
        assert(upd.drop_last() =~= inv.drop_last());
        assert(upd.last() == c);
    } else {
        assert(upd.drop_last() =~= inv.drop_last().update(i, c));
        assert(upd.last() == inv.last());
        lemma_sum_cells_update(inv.drop_last(), w, i, c);
    }
}

/// A sum of 0/`positive` weights is zero exactly when no occupant carries a
/// positive weight.
pub proof fn lemma_sum_cells_zero(inv: Seq<Option<Item>>, w: spec_fn(Item) -> int)
    requires
        forall|it: Item| #[trigger] w(it) >= 0,
    ensures
        sum_cells(inv, w) == 0 <==> forall|i: int|
            0 <= i < inv.len() ==> cell_weight(#[trigger] inv[i], w) == 0,
    decreases inv.len(),
{
    if inv.len() == 0 {
    } else {
        lemma_sum_cells_zero(inv.drop_last(), w);
        lemma_sum_cells_bound_weak(inv.drop_last(), w);
        assert forall|i: int| 0 <= i < inv.len() - 1 implies inv.drop_last()[i] == inv[i] by {}
        assert(inv.last() == inv[inv.len() - 1]);
    }
}

/// A sum of non-negative weights is non-negative.
pub proof fn lemma_sum_cells_bound_weak(inv: Seq<Option<Item>>, w: spec_fn(Item) -> int)
    requires
        forall|it: Item| #[trigger] w(it) >= 0,
    ensures
        sum_cells(inv, w) >= 0,
    decreases inv.len(),
{
    if inv.len() == 0 {
    } else {
        lemma_sum_cells_bound_weak(inv.drop_last(), w);
    }
}

/// A sum of non-negative weights dominates each single cell's weight.
pub proof fn lemma_sum_cells_lower(inv: Seq<Option<Item>>, w: spec_fn(Item) -> int, i: int)
    requires
        forall|it: Item| #[trigger] w(it) >= 0,
        0 <= i < inv.len(),
    ensures
        sum_cells(inv, w) >= cell_weight(inv[i], w),
    decreases inv.len(),
{
    if i == inv.len() - 1 {
        lemma_sum_cells_bound_weak(inv.drop_last(), w);
    } else {
        assert(inv.drop_last()[i] == inv[i]);
        lemma_sum_cells_lower(inv.drop_last(), w, i);
    }
}

/// Whether `s` is the anchor of an occupant holding `id`.
pub open spec fn is_anchor_of(inv: Seq<Option<Item>>, s: Slot, id: usize) -> bool {
    s.in_grid() && (inv[s.lin()] matches Some(it) && it.id == id)
}

/// Whether `s` is the anchor of a fragile occupant whose expiry is `date`.
pub open spec fn is_expiry_anchor(inv: Seq<Option<Item>>, s: Slot, date: i64) -> bool {
    s.in_grid() && (inv[s.lin()] matches Some(it) && it.quality matches Quality::Fragile {
        expiration_date,
        ..
    } && expiration_date == date)
}

/// An occupant holding `id` puts the id's tally at one or more.
pub proof fn lemma_anchor_gives_count(inv: Seq<Option<Item>>, s: Slot, id: usize)
    requires
        inv.len() == NUM_SLOTS,
        is_anchor_of(inv, s, id),
    ensures
        count_with_id(inv, id) >= 1,
{
    lemma_sum_cells_lower(inv, id_weight(id), s.lin());
}

/// A positive tally for `id` names at least one anchor holding it.
pub proof fn lemma_count_gives_anchor(inv: Seq<Option<Item>>, id: usize)
    requires
        inv.len() == NUM_SLOTS,
        count_with_id(inv, id) > 0,
    ensures
        exists|s: Slot| is_anchor_of(inv, s, id),
{
    lemma_sum_cells_zero(inv, id_weight(id));
    let i = choose|i: int| 0 <= i < inv.len() && cell_weight(#[trigger] inv[i], id_weight(id)) != 0;
    lemma_slot_at(i);
    assert(is_anchor_of(inv, slot_at(i), id));
}

/// Whether an item is a fragile item whose expiry is at or before `date`.
pub open spec fn is_expired(it: Item, date: i64) -> bool {
    it.quality matches Quality::Fragile { expiration_date, .. } && expiration_date <= date
}

/// The occupants of `inv` whose records satisfy `p`, in cell order.
pub open spec fn select_cells(inv: Seq<Option<Item>>, p: spec_fn(Item) -> bool) -> Seq<Item>
    decreases inv.len(),
{
    if inv.len() == 0 {
        Seq::empty()
    } else {
        select_cells(inv.drop_last(), p) + (match inv.last() {
            Some(it) => if p(it) {
                seq![it]
            } else {
                Seq::empty()
            },
            None => Seq::empty(),
        })
    }
}

/// The predicate satisfied by every item.
pub open spec fn any_item() -> spec_fn(Item) -> bool {
    |it: Item| true
}

/// The predicate of fragile items expired at or before `date`.
pub open spec fn expired_pred(date: i64) -> spec_fn(Item) -> bool {
    |it: Item| is_expired(it, date)
}

/// All occupants of `inv`, in cell order.
pub open spec fn occupant_seq(inv: Seq<Option<Item>>) -> Seq<Item> {
    select_cells(inv, any_item())
}

/// The fragile occupants of `inv` expired at or before `date`, in cell order.
pub open spec fn expired_seq(inv: Seq<Option<Item>>, date: i64) -> Seq<Item> {
    select_cells(inv, expired_pred(date))
}

/// Whether `s` is the anchor of an occupant satisfying `p`.
pub open spec fn selected_anchor(inv: Seq<Option<Item>>, s: Slot, p: spec_fn(Item) -> bool) -> bool {
    s.in_grid() && (inv[s.lin()] matches Some(it) && p(it))
}


/// Extending the selected prefix by one cell appends that cell's occupant if
/// it is selected.
pub proof fn lemma_select_cells_take_step(inv: Seq<Option<Item>>, p: spec_fn(Item) -> bool, i: int)
    requires
        0 <= i < inv.len(),
    ensures
        select_cells(inv.take(i + 1), p) == select_cells(inv.take(i), p) + (match inv[i] {
            Some(it) => if p(it) {
                seq![it]
            } else {
                Seq::<Item>::empty()
            },
            None => Seq::<Item>::empty(),
        }),
{
    assert(inv.take(i + 1).drop_last() =~= inv.take(i));
    assert(inv.take(i + 1).last() == inv[i]);
}

/// The selection over the whole occupancy is the selection over the full
/// prefix.
pub proof fn lemma_select_cells_take_all(inv: Seq<Option<Item>>, p: spec_fn(Item) -> bool)
    ensures
        select_cells(inv.take(inv.len() as int), p) == select_cells(inv, p),
{
    assert(inv.take(inv.len() as int) =~= inv);
}


/// A selected occupant appears in the selection.
pub proof fn lemma_select_cells_contains(inv: Seq<Option<Item>>, p: spec_fn(Item) -> bool, l: int)
    requires
        0 <= l < inv.len(),
        inv[l] matches Some(it) && p(it),
    ensures
        select_cells(inv, p).contains(inv[l]->0),
    decreases inv.len(),
{
    if l == inv.len() - 1 {
        let s = select_cells(inv, p);
        assert(s == select_cells(inv.drop_last(), p) + seq![inv[l]->0]);
        assert(s[s.len() - 1] == inv[l]->0);
    } else {
        assert(inv.drop_last()[l] == inv[l]);
        lemma_select_cells_contains(inv.drop_last(), p, l);
        let s0 = select_cells(inv.drop_last(), p);
        let q = choose|q: int| 0 <= q < s0.len() && s0[q] == inv[l]->0;
        assert(select_cells(inv, p)[q] == inv[l]->0);
    }
}

/// A map with no selected occupant selects nothing.
pub proof fn lemma_select_cells_none(inv: Seq<Option<Item>>, p: spec_fn(Item) -> bool)
    requires
        forall|i: int| 0 <= i < inv.len() ==> ((#[trigger] inv[i]) matches Some(it) ==> !p(it)),
    ensures
        select_cells(inv, p) == Seq::<Item>::empty(),
    decreases inv.len(),
{
    if inv.len() > 0 {
        assert(forall|i: int|
            0 <= i < inv.len() - 1 ==> (#[trigger] inv.drop_last()[i]) == inv[i]);
        lemma_select_cells_none(inv.drop_last(), p);
        assert(inv.last() == inv[inv.len() - 1]);
        assert(select_cells(inv, p) =~= Seq::<Item>::empty());
    }
}

/// Clearing a selected occupant's cell takes exactly its record out of the
/// selection, counted as a multiset.
pub proof fn lemma_select_cells_update_none(
    inv: Seq<Option<Item>>,
    p: spec_fn(Item) -> bool,
    l: int,
)
    requires
        0 <= l < inv.len(),
        inv[l] matches Some(it) && p(it),
    ensures
        select_cells(inv.update(l, None), p).to_multiset() == select_cells(
            inv,
            p,
        ).to_multiset().remove(inv[l]->0),
    decreases inv.len(),
{
    broadcast use vstd::seq_lib::to_multiset_build;
    broadcast use vstd::seq_lib::to_multiset_contains;

    let it0 = inv[l]->0;
    let upd = inv.update(l, None);
    if l == inv.len() - 1 {
        assert(upd.drop_last() =~= inv.drop_last());
        assert(upd.last() is None);
        assert(select_cells(upd, p) =~= select_cells(inv.drop_last(), p));
        assert(select_cells(inv, p) =~= select_cells(inv.drop_last(), p).push(it0));
        let m0 = select_cells(inv.drop_last(), p).to_multiset();
        assert(select_cells(inv, p).to_multiset() == m0.insert(it0));
        assert(m0.insert(it0).remove(it0) =~= m0);
    } else {
        assert(inv.drop_last()[l] == inv[l]);
        lemma_select_cells_update_none(inv.drop_last(), p, l);
        lemma_select_cells_contains(inv.drop_last(), p, l);
        assert(upd.drop_last() =~= inv.drop_last().update(l, None));
        assert(upd.last() == inv.last());
        let d0 = select_cells(inv.drop_last(), p);
        let du = select_cells(inv.drop_last().update(l, None), p);
        assert(d0.to_multiset().count(it0) > 0);
        match inv.last() {
            Some(last_it) => {
                if p(last_it) {
                    assert(select_cells(inv, p) =~= d0.push(last_it));
                    assert(select_cells(upd, p) =~= du.push(last_it));
                    assert(select_cells(upd, p).to_multiset() == du.to_multiset().insert(last_it));
                    assert(du.to_multiset() == d0.to_multiset().remove(it0));
                    assert(d0.to_multiset().remove(it0).insert(last_it)
                        =~= d0.to_multiset().insert(last_it).remove(it0));
                } else {
                    assert(select_cells(inv, p) =~= d0);
                    assert(select_cells(upd, p) =~= du);
                }
            },
            None => {
                assert(select_cells(inv, p) =~= d0);
                assert(select_cells(upd, p) =~= du);
            },
        }
    }
}

/// The records of any duplicate-free enumeration of exactly the selected
/// anchors form, as a multiset, the selection itself.
pub proof fn lemma_cover_records_multiset(
    inv: Seq<Option<Item>>,
    p: spec_fn(Item) -> bool,
    anchors: Seq<Slot>,
    records: Seq<Item>,
)
    requires
        inv.len() == NUM_SLOTS,
        anchors.no_duplicates(),
        forall|s: Slot| #[trigger] anchors.contains(s) <==> selected_anchor(inv, s, p),
        records.len() == anchors.len(),
        forall|q: int|
            0 <= q < anchors.len() ==> records[q] == inv[(#[trigger] anchors[q]).lin()]->0,
    ensures
        records.to_multiset() == select_cells(inv, p).to_multiset(),
    decreases anchors.len(),
{
    broadcast use vstd::seq_lib::to_multiset_build;
    broadcast use vstd::seq_lib::to_multiset_contains;

    if anchors.len() == 0 {
        assert forall|i: int|
            0 <= i < inv.len() implies ((#[trigger] inv[i]) matches Some(it) ==> !p(it)) by {
            if inv[i] matches Some(it) && p(it) {
                lemma_slot_at(i);
                assert(selected_anchor(inv, slot_at(i), p));
                assert(anchors.contains(slot_at(i)));
            }
        }
        lemma_select_cells_none(inv, p);
        assert(records =~= Seq::<Item>::empty());
    } else {
        let s0 = anchors.last();
        assert(anchors.contains(s0));
        assert(selected_anchor(inv, s0, p));
        let it0 = inv[s0.lin()]->0;
        let upd = inv.update(s0.lin(), None);
        let rest = anchors.drop_last();
        let rrest = records.drop_last();
        assert forall|a: int, b: int| 0 <= a < b < rest.len() implies rest[a] != rest[b] by {
            assert(rest[a] == anchors[a] && rest[b] == anchors[b]);
        }
        assert forall|s: Slot| #[trigger] rest.contains(s) <==> selected_anchor(upd, s, p) by {
            if rest.contains(s) {
                let q = choose|q: int| 0 <= q < rest.len() && rest[q] == s;
                assert(anchors[q] == s);
                assert(anchors.contains(s));
                assert(selected_anchor(inv, s, p));
                assert(s != s0);
                if s.lin() == s0.lin() {
                    crate::slot::lemma_lin_injective(s, s0);
                }
                assert(upd[s.lin()] == inv[s.lin()]);
            }
            if selected_anchor(upd, s, p) {
                assert(upd[s.lin()] is Some);
                assert(s.lin() != s0.lin());
                assert(upd[s.lin()] == inv[s.lin()]);
                assert(selected_anchor(inv, s, p));
                assert(anchors.contains(s));
                let q = choose|q: int| 0 <= q < anchors.len() && anchors[q] == s;
                assert(s != s0);
                assert(q < anchors.len() - 1);
                assert(rest[q] == s);
            }
        }
        assert forall|q: int|
            0 <= q < rest.len() implies rrest[q] == upd[(#[trigger] rest[q]).lin()]->0 by {
            assert(rest[q] == anchors[q] && rrest[q] == records[q]);
            assert(rest.contains(rest[q]));
            assert(selected_anchor(upd, rest[q], p));
            assert(upd[rest[q].lin()] == inv[rest[q].lin()]);
        }
        lemma_cover_records_multiset(upd, p, rest, rrest);
        assert(records =~= rrest.push(records[records.len() - 1]));
        assert(records[records.len() - 1] == it0);
        assert(records.to_multiset() == rrest.to_multiset().insert(it0));
        lemma_select_cells_update_none(inv, p, s0.lin());
        lemma_select_cells_contains(inv, p, s0.lin());
        assert(select_cells(inv, p).to_multiset().count(it0) > 0);
        assert(select_cells(inv, p).to_multiset().remove(it0).insert(it0) =~= select_cells(
            inv,
            p,
        ).to_multiset());
    }
}

} // verus!
