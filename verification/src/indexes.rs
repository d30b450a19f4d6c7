//! The ledger's derived indices: association lists with unique keys, with
//! the operations insertion and removal need and the lemmas that relate them
//! to their lookup functions.

use vstd::prelude::*;

use crate::slot::Slot;

verus! {

// ---------------------------------------------------------------------------
// count by integer key
// ---------------------------------------------------------------------------
/// The tally stored under `key`, 0 when absent.
pub open spec fn lookup_count(entries: Seq<(usize, usize)>, key: usize) -> int
    decreases entries.len(),
{
    if entries.len() == 0 {
        0
    } else if entries.last().0 == key {
        entries.last().1 as int
    } else {
        lookup_count(entries.drop_last(), key)
    }
}

pub open spec fn distinct_id_keys(entries: Seq<(usize, usize)>) -> bool {
    forall|i: int, j: int|
        0 <= i < j < entries.len() ==> (#[trigger] entries[i]).0 != (#[trigger] entries[j]).0
}

pub open spec fn positive_counts(entries: Seq<(usize, usize)>) -> bool {
    forall|i: int| 0 <= i < entries.len() ==> (#[trigger] entries[i]).1 > 0
}

pub proof fn lemma_lookup_count_found(entries: Seq<(usize, usize)>, i: int)
    requires
        distinct_id_keys(entries),
        0 <= i < entries.len(),
    ensures
        lookup_count(entries, entries[i].0) == entries[i].1,
    decreases entries.len(),
{
    if i < entries.len() - 1 {
        assert(entries.drop_last()[i] == entries[i]);
        lemma_lookup_count_found(entries.drop_last(), i);
    }
}

pub proof fn lemma_lookup_count_absent(entries: Seq<(usize, usize)>, key: usize)
    requires
        forall|i: int| 0 <= i < entries.len() ==> (#[trigger] entries[i]).0 != key,
    ensures
        lookup_count(entries, key) == 0,
    decreases entries.len(),
{
    if entries.len() > 0 {
        assert(forall|i: int|
            0 <= i < entries.len() - 1 ==> (#[trigger] entries.drop_last()[i]) == entries[i]);
        lemma_lookup_count_absent(entries.drop_last(), key);
    }
}

pub proof fn lemma_lookup_count_update(entries: Seq<(usize, usize)>, i: int, v: usize, k: usize)
    requires
        distinct_id_keys(entries),
        0 <= i < entries.len(),
    ensures
        lookup_count(entries.update(i, (entries[i].0, v)), k) == (if k == entries[i].0 {
            v as int
        } else {
            lookup_count(entries, k)
        }),
    decreases entries.len(),
{
    let upd = entries.update(i, (entries[i].0, v));
    if i == entries.len() - 1 {
        assert(upd.drop_last() =~= entries.drop_last());
        assert(upd.last() == (entries[i].0, v));
    } else {
        assert(entries.drop_last()[i] == entries[i]);
        assert(upd.drop_last() =~= entries.drop_last().update(i, (entries.drop_last()[i].0, v)));
        assert(upd.last() == entries.last());
        lemma_lookup_count_update(entries.drop_last(), i, v, k);
    }
}

pub proof fn lemma_lookup_count_remove(entries: Seq<(usize, usize)>, i: int, k: usize)
    requires
        distinct_id_keys(entries),
        0 <= i < entries.len(),
    ensures
        lookup_count(entries.remove(i), k) == (if k == entries[i].0 {
            0int
        } else {
            lookup_count(entries, k)
        }),
    decreases entries.len(),
{
    let rem = entries.remove(i);
    if i == entries.len() - 1 {
        assert(rem =~= entries.drop_last());
        if k == entries[i].0 {
            assert(forall|j: int|
                0 <= j < rem.len() ==> (#[trigger] rem[j]) == entries[j] && entries[j].0 != k);
            lemma_lookup_count_absent(rem, k);
        }
    } else {
        assert(rem.last() == entries.last());
        assert(rem.drop_last() =~= entries.drop_last().remove(i));
        assert(entries.drop_last()[i] == entries[i]);
        lemma_lookup_count_remove(entries.drop_last(), i, k);
    }
}

/// Raise the tally under `key` by one (registering the key if absent).
pub(crate) fn bump_count(entries: &mut Vec<(usize, usize)>, key: usize)
    requires
        distinct_id_keys(old(entries)@),
        positive_counts(old(entries)@),
        lookup_count(old(entries)@, key) < usize::MAX,
    ensures
        distinct_id_keys(final(entries)@),
        positive_counts(final(entries)@),
        forall|k: usize|
            #[trigger] lookup_count(final(entries)@, k) == lookup_count(old(entries)@, k) + (if k
                == key {
                1int
            } else {
                0int
            }),
{
    let n = entries.len();
    let mut i: usize = 0;
    while i < n
        invariant
            entries@ == old(entries)@,
            n == entries@.len(),
            i <= n,
            distinct_id_keys(entries@),
            positive_counts(entries@),
            lookup_count(entries@, key) < usize::MAX,
            forall|j: int| 0 <= j < i ==> (#[trigger] entries@[j]).0 != key,
        decreases n - i,
    {
        if entries[i].0 == key {
            let c = entries[i].1;
            proof {
                lemma_lookup_count_found(entries@, i as int);
            }
            entries[i] = (key, c + 1);
            proof {
                assert forall|k: usize|
                    #[trigger] lookup_count(entries@, k) == lookup_count(old(entries)@, k) + (if k
                    == key {
                    1int
                } else {
                    0int
                }) by {
                    lemma_lookup_count_update(old(entries)@, i as int, (c + 1) as usize, k);
                }
            }
            return ;
        }
        i += 1;
    }
    proof {
        lemma_lookup_count_absent(entries@, key);
    }
    entries.push((key, 1));
    proof {
        assert(entries@.drop_last() =~= old(entries)@);
    }
}

/// Lower the tally under `key` by one, pruning the entry when it reaches zero.
pub(crate) fn drop_count(entries: &mut Vec<(usize, usize)>, key: usize)
    requires
        distinct_id_keys(old(entries)@),
        positive_counts(old(entries)@),
        lookup_count(old(entries)@, key) > 0,
    ensures
        distinct_id_keys(final(entries)@),
        positive_counts(final(entries)@),
        forall|k: usize|
            #[trigger] lookup_count(final(entries)@, k) == lookup_count(old(entries)@, k) - (if k
                == key {
                1int
            } else {
                0int
            }),
{
    let n = entries.len();
    let mut i: usize = 0;
    while i < n
        invariant
            entries@ == old(entries)@,
            n == entries@.len(),
            i <= n,
            distinct_id_keys(entries@),
            positive_counts(entries@),
            lookup_count(entries@, key) > 0,
            forall|j: int| 0 <= j < i ==> (#[trigger] entries@[j]).0 != key,
        decreases n - i,
    {
        if entries[i].0 == key {
            let c = entries[i].1;
            proof {
                lemma_lookup_count_found(entries@, i as int);
            }
            if c == 1 {
                entries.remove(i);
                proof {
                    assert forall|a: int, b: int|
                        0 <= a < b < entries@.len() implies (#[trigger] entries@[a]).0 != (
                    #[trigger] entries@[b]).0 by {
                        if a >= i as int {
                            assert(entries@[a] == old(entries)@[a + 1]);
                        }
                        if b >= i as int {
                            assert(entries@[b] == old(entries)@[b + 1]);
                        }
                    }
                    assert forall|k: usize|
                        #[trigger] lookup_count(entries@, k) == lookup_count(old(entries)@, k) - (
                    if k == key {
                        1int
                    } else {
                        0int
                    }) by {
                        lemma_lookup_count_remove(old(entries)@, i as int, k);
                    }
                }
            } else {
                entries[i] = (key, c - 1);
                proof {
                    assert forall|k: usize|
                        #[trigger] lookup_count(entries@, k) == lookup_count(old(entries)@, k) - (
                    if k == key {
                        1int
                    } else {
                        0int
                    }) by {
                        lemma_lookup_count_update(old(entries)@, i as int, (c - 1) as usize, k);
                    }
                }
            }
            return ;
        }
        i += 1;
    }
    proof {
        lemma_lookup_count_absent(entries@, key);
    }
}

// ---------------------------------------------------------------------------
// count by display name
// ---------------------------------------------------------------------------
/// The tally stored under the name `key`, 0 when absent.
pub open spec fn lookup_name_count(entries: Seq<(String, usize)>, key: Seq<char>) -> int
    decreases entries.len(),
{
    if entries.len() == 0 {
        0
    } else if entries.last().0@ == key {
        entries.last().1 as int
    } else {
        lookup_name_count(entries.drop_last(), key)
    }
}

pub open spec fn distinct_name_keys(entries: Seq<(String, usize)>) -> bool {
    forall|i: int, j: int|
        0 <= i < j < entries.len() ==> (#[trigger] entries[i]).0@ != (#[trigger] entries[j]).0@
}

pub open spec fn positive_name_counts(entries: Seq<(String, usize)>) -> bool {
    forall|i: int| 0 <= i < entries.len() ==> (#[trigger] entries[i]).1 > 0
}

pub proof fn lemma_lookup_name_count_found(entries: Seq<(String, usize)>, i: int)
    requires
        distinct_name_keys(entries),
        0 <= i < entries.len(),
    ensures
        lookup_name_count(entries, entries[i].0@) == entries[i].1,
    decreases entries.len(),
{
    if i < entries.len() - 1 {
        assert(entries.drop_last()[i] == entries[i]);
        lemma_lookup_name_count_found(entries.drop_last(), i);
    }
}

pub proof fn lemma_lookup_name_count_absent(entries: Seq<(String, usize)>, key: Seq<char>)
    requires
        forall|i: int| 0 <= i < entries.len() ==> (#[trigger] entries[i]).0@ != key,
    ensures
        lookup_name_count(entries, key) == 0,
    decreases entries.len(),
{
    if entries.len() > 0 {
        assert(forall|i: int|
            0 <= i < entries.len() - 1 ==> (#[trigger] entries.drop_last()[i]) == entries[i]);
        lemma_lookup_name_count_absent(entries.drop_last(), key);
    }
}

pub proof fn lemma_lookup_name_count_update(
    entries: Seq<(String, usize)>,
    i: int,
    e: (String, usize),
    k: Seq<char>,
)
    requires
        distinct_name_keys(entries),
        0 <= i < entries.len(),
        e.0@ == entries[i].0@,
    ensures
        lookup_name_count(entries.update(i, e), k) == (if k == entries[i].0@ {
            e.1 as int
        } else {
            lookup_name_count(entries, k)
        }),
    decreases entries.len(),
{
    let upd = entries.update(i, e);
    if i == entries.len() - 1 {
        assert(upd.drop_last() =~= entries.drop_last());
        assert(upd.last() == e);
    } else {
        assert(entries.drop_last()[i] == entries[i]);
        assert(upd.drop_last() =~= entries.drop_last().update(i, e));
        assert(upd.last() == entries.last());
        lemma_lookup_name_count_update(entries.drop_last(), i, e, k);
    }
}

pub proof fn lemma_lookup_name_count_remove(entries: Seq<(String, usize)>, i: int, k: Seq<char>)
    requires
        distinct_name_keys(entries),
        0 <= i < entries.len(),
    ensures
        lookup_name_count(entries.remove(i), k) == (if k == entries[i].0@ {
            0int
        } else {
            lookup_name_count(entries, k)
        }),
    decreases entries.len(),
{
    let rem = entries.remove(i);
    if i == entries.len() - 1 {
        assert(rem =~= entries.drop_last());
        if k == entries[i].0@ {
            assert(forall|j: int|
                0 <= j < rem.len() ==> (#[trigger] rem[j]) == entries[j] && entries[j].0@ != k);
            lemma_lookup_name_count_absent(rem, k);
        }
    } else {
        assert(rem.last() == entries.last());
        assert(rem.drop_last() =~= entries.drop_last().remove(i));
        assert(entries.drop_last()[i] == entries[i]);
        lemma_lookup_name_count_remove(entries.drop_last(), i, k);
    }
}

/// Raise the tally under `name` by one (registering the name if absent).
pub(crate) fn bump_name_count(entries: &mut Vec<(String, usize)>, name: &String)
    requires
        distinct_name_keys(old(entries)@),
        positive_name_counts(old(entries)@),
        lookup_name_count(old(entries)@, name@) < usize::MAX,
    ensures
        distinct_name_keys(final(entries)@),
        positive_name_counts(final(entries)@),
        forall|k: Seq<char>|
            #[trigger] lookup_name_count(final(entries)@, k) == lookup_name_count(
                old(entries)@,
                k,
            ) + (if k == name@ {
                1int
            } else {
                0int
            }),
{
    let n = entries.len();
    let mut i: usize = 0;
    while i < n
        invariant
            entries@ == old(entries)@,
            n == entries@.len(),
            i <= n,
            distinct_name_keys(entries@),
            positive_name_counts(entries@),
            lookup_name_count(entries@, name@) < usize::MAX,
            forall|j: int| 0 <= j < i ==> (#[trigger] entries@[j]).0@ != name@,
        decreases n - i,
    {
        if entries[i].0 == *name {
            let c = entries[i].1;
            let key = name.clone();
            let ghost gkey = key;
            proof {
                lemma_lookup_name_count_found(entries@, i as int);
            }
            entries[i] = (key, c + 1);
            proof {
                assert forall|k: Seq<char>|
                    #[trigger] lookup_name_count(entries@, k) == lookup_name_count(
                    old(entries)@,
                    k,
                ) + (if k == name@ {
                    1int
                } else {
                    0int
                }) by {
                    lemma_lookup_name_count_update(
                        old(entries)@,
                        i as int,
                        (gkey, (c + 1) as usize),
                        k,
                    );
                }
            }
            return ;
        }
        i += 1;
    }
    proof {
        lemma_lookup_name_count_absent(entries@, name@);
    }
    let key = name.clone();
    entries.push((key, 1));
    proof {
        assert(entries@.drop_last() =~= old(entries)@);
    }
}

/// Lower the tally under `name` by one, pruning the entry at zero.
pub(crate) fn drop_name_count(entries: &mut Vec<(String, usize)>, name: &String)
    requires
        distinct_name_keys(old(entries)@),
        positive_name_counts(old(entries)@),
        lookup_name_count(old(entries)@, name@) > 0,
    ensures
        distinct_name_keys(final(entries)@),
        positive_name_counts(final(entries)@),
        forall|k: Seq<char>|
            #[trigger] lookup_name_count(final(entries)@, k) == lookup_name_count(
                old(entries)@,
                k,
            ) - (if k == name@ {
                1int
            } else {
                0int
            }),
{
    let n = entries.len();
    let mut i: usize = 0;
    while i < n
        invariant
            entries@ == old(entries)@,
            n == entries@.len(),
            i <= n,
            distinct_name_keys(entries@),
            positive_name_counts(entries@),
            lookup_name_count(entries@, name@) > 0,
            forall|j: int| 0 <= j < i ==> (#[trigger] entries@[j]).0@ != name@,
        decreases n - i,
    {
        if entries[i].0 == *name {
            let c = entries[i].1;
            proof {
                lemma_lookup_name_count_found(entries@, i as int);
            }
            if c == 1 {
                entries.remove(i);
                proof {
                    assert forall|a: int, b: int|
                        0 <= a < b < entries@.len() implies (#[trigger] entries@[a]).0@ != (
                    #[trigger] entries@[b]).0@ by {
                        if a >= i as int {
                            assert(entries@[a] == old(entries)@[a + 1]);
                        }
                        if b >= i as int {
                            assert(entries@[b] == old(entries)@[b + 1]);
                        }
                    }
                    assert forall|k: Seq<char>|
                        #[trigger] lookup_name_count(entries@, k) == lookup_name_count(
                        old(entries)@,
                        k,
                    ) - (if k == name@ {
                        1int
                    } else {
                        0int
                    }) by {
                        lemma_lookup_name_count_remove(old(entries)@, i as int, k);
                    }
                }
            } else {
                let key = name.clone();
                let ghost gkey = key;
                entries[i] = (key, c - 1);
                proof {
                    assert forall|k: Seq<char>|
                        #[trigger] lookup_name_count(entries@, k) == lookup_name_count(
                        old(entries)@,
                        k,
                    ) - (if k == name@ {
                        1int
                    } else {
                        0int
                    }) by {
                        lemma_lookup_name_count_update(
                            old(entries)@,
                            i as int,
                            (gkey, (c - 1) as usize),
                            k,
                        );
                    }
                }
            }
            return ;
        }
        i += 1;
    }
    proof {
        lemma_lookup_name_count_absent(entries@, name@);
    }
}


// ---------------------------------------------------------------------------
// anchors by integer key
// ---------------------------------------------------------------------------
/// The anchors stored under `key`, empty when absent.
pub open spec fn lookup_slots(entries: Seq<(usize, Vec<Slot>)>, key: usize) -> Seq<Slot>
    decreases entries.len(),
{
    if entries.len() == 0 {
        Seq::empty()
    } else if entries.last().0 == key {
        entries.last().1@
    } else {
        lookup_slots(entries.drop_last(), key)
    }
}

pub open spec fn distinct_slot_keys(entries: Seq<(usize, Vec<Slot>)>) -> bool {
    forall|i: int, j: int|
        0 <= i < j < entries.len() ==> (#[trigger] entries[i]).0 != (#[trigger] entries[j]).0
}

pub open spec fn nonempty_slot_lists(entries: Seq<(usize, Vec<Slot>)>) -> bool {
    forall|i: int| 0 <= i < entries.len() ==> (#[trigger] entries[i]).1@.len() > 0
}

pub proof fn lemma_lookup_slots_found(entries: Seq<(usize, Vec<Slot>)>, i: int)
    requires
        distinct_slot_keys(entries),
        0 <= i < entries.len(),
    ensures
        lookup_slots(entries, entries[i].0) == entries[i].1@,
    decreases entries.len(),
{
    if i < entries.len() - 1 {
        assert(entries.drop_last()[i] == entries[i]);
        lemma_lookup_slots_found(entries.drop_last(), i);
    }
}

pub proof fn lemma_lookup_slots_absent(entries: Seq<(usize, Vec<Slot>)>, key: usize)
    requires
        forall|i: int| 0 <= i < entries.len() ==> (#[trigger] entries[i]).0 != key,
    ensures
        lookup_slots(entries, key) == Seq::<Slot>::empty(),
    decreases entries.len(),
{
    if entries.len() > 0 {
        assert(forall|i: int|
            0 <= i < entries.len() - 1 ==> (#[trigger] entries.drop_last()[i]) == entries[i]);
        lemma_lookup_slots_absent(entries.drop_last(), key);
    }
}

pub proof fn lemma_lookup_slots_update(
    entries: Seq<(usize, Vec<Slot>)>,
    i: int,
    e: (usize, Vec<Slot>),
    k: usize,
)
    requires
        distinct_slot_keys(entries),
        0 <= i < entries.len(),
        e.0 == entries[i].0,
    ensures
        lookup_slots(entries.update(i, e), k) == (if k == entries[i].0 {
            e.1@
        } else {
            lookup_slots(entries, k)
        }),
    decreases entries.len(),
{
    let upd = entries.update(i, e);
    if i == entries.len() - 1 {
        assert(upd.drop_last() =~= entries.drop_last());
        assert(upd.last() == e);
    } else {
        assert(entries.drop_last()[i] == entries[i]);
        assert(upd.drop_last() =~= entries.drop_last().update(i, e));
        assert(upd.last() == entries.last());
        lemma_lookup_slots_update(entries.drop_last(), i, e, k);
    }
}

pub proof fn lemma_lookup_slots_remove(entries: Seq<(usize, Vec<Slot>)>, i: int, k: usize)
    requires
        distinct_slot_keys(entries),
        0 <= i < entries.len(),
    ensures
        lookup_slots(entries.remove(i), k) == (if k == entries[i].0 {
            Seq::<Slot>::empty()
        } else {
            lookup_slots(entries, k)
        }),
    decreases entries.len(),
{
    let rem = entries.remove(i);
    if i == entries.len() - 1 {
        assert(rem =~= entries.drop_last());
        if k == entries[i].0 {
            assert(forall|j: int|
                0 <= j < rem.len() ==> (#[trigger] rem[j]) == entries[j] && entries[j].0 != k);
            lemma_lookup_slots_absent(rem, k);
        }
    } else {
        assert(rem.last() == entries.last());
        assert(rem.drop_last() =~= entries.drop_last().remove(i));
        assert(entries.drop_last()[i] == entries[i]);
        lemma_lookup_slots_remove(entries.drop_last(), i, k);
    }
}

/// Removing one occurrence from a duplicate-free sequence removes exactly
/// that coordinate.
pub proof fn lemma_remove_slot_membership(v: Seq<Slot>, j: int)
    requires
        v.no_duplicates(),
        0 <= j < v.len(),
    ensures
        v.remove(j).no_duplicates(),
        forall|s: Slot| #[trigger] v.remove(j).contains(s) <==> (v.contains(s) && s != v[j]),
{
    let rem = v.remove(j);
    assert forall|s: Slot| #[trigger] rem.contains(s) implies (v.contains(s) && s != v[j]) by {
        let q = choose|q: int| 0 <= q < rem.len() && rem[q] == s;
        if q < j {
            assert(v[q] == s);
        } else {
            assert(v[q + 1] == s);
        }
    }
    assert forall|s: Slot| v.contains(s) && s != v[j] implies #[trigger] rem.contains(s) by {
        let p = choose|p: int| 0 <= p < v.len() && v[p] == s;
        if p < j {
            assert(rem[p] == s);
        } else {
            assert(rem[p - 1] == s);
        }
    }
}

/// The position of `slot` in `v`.
fn find_slot_index(v: &Vec<Slot>, slot: Slot) -> (r: usize)
    requires
        v@.contains(slot),
    ensures
        r < v@.len(),
        v@[r as int] == slot,
{
    let n = v.len();
    let mut j: usize = 0;
    while j < n
        invariant
            n == v@.len(),
            j <= n,
            forall|q: int| 0 <= q < j ==> v@[q] != slot,
        decreases n - j,
    {
        if v[j] == slot {
            return j;
        }
        j += 1;
    }
    proof {
        let q = choose|q: int| 0 <= q < v@.len() && v@[q] == slot;
        assert(false);
    }
    0
}

/// Register `slot` under `key`, appending to the key's list.
pub(crate) fn add_slot(entries: &mut Vec<(usize, Vec<Slot>)>, key: usize, slot: Slot)
    requires
        distinct_slot_keys(old(entries)@),
        nonempty_slot_lists(old(entries)@),
    ensures
        distinct_slot_keys(final(entries)@),
        nonempty_slot_lists(final(entries)@),
        lookup_slots(final(entries)@, key) == lookup_slots(old(entries)@, key).push(slot),
        forall|k: usize|
            k != key ==> #[trigger] lookup_slots(final(entries)@, k) == lookup_slots(
                old(entries)@,
                k,
            ),
{
    let n = entries.len();
    let mut i: usize = 0;
    while i < n
        invariant
            entries@ == old(entries)@,
            n == entries@.len(),
            i <= n,
            distinct_slot_keys(entries@),
            nonempty_slot_lists(entries@),
            forall|j: int| 0 <= j < i ==> (#[trigger] entries@[j]).0 != key,
        decreases n - i,
    {
        if entries[i].0 == key {
            proof {
                lemma_lookup_slots_found(entries@, i as int);
            }
            entries[i].1.push(slot);
            proof {
                let e = (old(entries)@[i as int].0, entries@[i as int].1);
                assert(entries@ =~= old(entries)@.update(i as int, e));
                assert forall|k: usize| true implies #[trigger] lookup_slots(entries@, k) == (if k
                    == key {
                    lookup_slots(old(entries)@, key).push(slot)
                } else {
                    lookup_slots(old(entries)@, k)
                }) by {
                    lemma_lookup_slots_update(old(entries)@, i as int, e, k);
                }
            }
            return ;
        }
        i += 1;
    }
    proof {
        lemma_lookup_slots_absent(entries@, key);
    }
    let mut v: Vec<Slot> = Vec::new();
    v.push(slot);
    proof {
        assert(v@ =~= lookup_slots(old(entries)@, key).push(slot));
    }
    entries.push((key, v));
    proof {
        assert(entries@.drop_last() =~= old(entries)@);
    }
}

/// Strike `slot` from the list under `key`, pruning the entry when its list
/// becomes empty.
pub(crate) fn remove_slot(entries: &mut Vec<(usize, Vec<Slot>)>, key: usize, slot: Slot)
    requires
        distinct_slot_keys(old(entries)@),
        nonempty_slot_lists(old(entries)@),
        lookup_slots(old(entries)@, key).no_duplicates(),
        lookup_slots(old(entries)@, key).contains(slot),
    ensures
        distinct_slot_keys(final(entries)@),
        nonempty_slot_lists(final(entries)@),
        lookup_slots(final(entries)@, key).no_duplicates(),
        forall|s2: Slot|
            #[trigger] lookup_slots(final(entries)@, key).contains(s2) <==> (lookup_slots(
                old(entries)@,
                key,
            ).contains(s2) && s2 != slot),
        forall|k: usize|
            k != key ==> #[trigger] lookup_slots(final(entries)@, k) == lookup_slots(
                old(entries)@,
                k,
            ),
{
    let n = entries.len();
    let mut i: usize = 0;
    while i < n
        invariant
            entries@ == old(entries)@,
            n == entries@.len(),
            i <= n,
            distinct_slot_keys(entries@),
            nonempty_slot_lists(entries@),
            lookup_slots(entries@, key).contains(slot),
            lookup_slots(entries@, key).no_duplicates(),
            forall|j: int| 0 <= j < i ==> (#[trigger] entries@[j]).0 != key,
        decreases n - i,
    {
        if entries[i].0 == key {
            proof {
                lemma_lookup_slots_found(entries@, i as int);
            }
            let m = entries[i].1.len();
            let j = find_slot_index(&entries[i].1, slot);
            if m == 1 {
                proof {
                    assert forall|a: int, b: int|
                        0 <= a < b < entries@.len() - 1 implies (#[trigger] entries@.remove(
                        i as int,
                    )[a]).0 != (#[trigger] entries@.remove(i as int)[b]).0 by {
                        if a >= i as int {
                            assert(entries@.remove(i as int)[a] == entries@[a + 1]);
                        }
                        if b >= i as int {
                            assert(entries@.remove(i as int)[b] == entries@[b + 1]);
                        }
                    }
                }
                entries.remove(i);
                proof {
                    assert forall|k: usize| true implies #[trigger] lookup_slots(entries@, k) == (
                    if k == key {
                        Seq::<Slot>::empty()
                    } else {
                        lookup_slots(old(entries)@, k)
                    }) by {
                        lemma_lookup_slots_remove(old(entries)@, i as int, k);
                    }
                    assert forall|s2: Slot|
                        #[trigger] lookup_slots(entries@, key).contains(s2) <==> (lookup_slots(
                        old(entries)@,
                        key,
                    ).contains(s2) && s2 != slot) by {
                        let ov = old(entries)@[i as int].1@;
                        if ov.contains(s2) {
                            let q = choose|q: int| 0 <= q < ov.len() && ov[q] == s2;
                            assert(q == 0);
                            assert(s2 == slot);
                        }
                    }
                }
            } else {
                proof {
                    lemma_remove_slot_membership(entries@[i as int].1@, j as int);
                }
                entries[i].1.remove(j);
                proof {
                    let e = (old(entries)@[i as int].0, entries@[i as int].1);
                    assert(entries@ =~= old(entries)@.update(i as int, e));
                    assert forall|k: usize| true implies #[trigger] lookup_slots(entries@, k) == (
                    if k == key {
                        old(entries)@[i as int].1@.remove(j as int)
                    } else {
                        lookup_slots(old(entries)@, k)
                    }) by {
                        lemma_lookup_slots_update(old(entries)@, i as int, e, k);
                    }
                }
            }
            return ;
        }
        i += 1;
    }
    proof {
        lemma_lookup_slots_absent(entries@, key);
        assert(false);
    }
}


// ---------------------------------------------------------------------------
// anchors by expiration timestamp, keys ascending
// ---------------------------------------------------------------------------
/// The anchors stored under expiry `key`, empty when absent.
pub open spec fn lookup_date_slots(entries: Seq<(i64, Vec<Slot>)>, key: i64) -> Seq<Slot>
    decreases entries.len(),
{
    if entries.len() == 0 {
        Seq::empty()
    } else if entries.last().0 == key {
        entries.last().1@
    } else {
        lookup_date_slots(entries.drop_last(), key)
    }
}

/// Keys strictly ascending: sorted, and in particular unique.
pub open spec fn sorted_date_keys(entries: Seq<(i64, Vec<Slot>)>) -> bool {
    forall|i: int, j: int|
        0 <= i < j < entries.len() ==> (#[trigger] entries[i]).0 < (#[trigger] entries[j]).0
}

pub open spec fn nonempty_date_lists(entries: Seq<(i64, Vec<Slot>)>) -> bool {
    forall|i: int| 0 <= i < entries.len() ==> (#[trigger] entries[i]).1@.len() > 0
}

pub proof fn lemma_lookup_date_slots_found(entries: Seq<(i64, Vec<Slot>)>, i: int)
    requires
        sorted_date_keys(entries),
        0 <= i < entries.len(),
    ensures
        lookup_date_slots(entries, entries[i].0) == entries[i].1@,
    decreases entries.len(),
{
    if i < entries.len() - 1 {
        assert(entries.drop_last()[i] == entries[i]);
        lemma_lookup_date_slots_found(entries.drop_last(), i);
    }
}

pub proof fn lemma_lookup_date_slots_absent(entries: Seq<(i64, Vec<Slot>)>, key: i64)
    requires
        forall|i: int| 0 <= i < entries.len() ==> (#[trigger] entries[i]).0 != key,
    ensures
        lookup_date_slots(entries, key) == Seq::<Slot>::empty(),
    decreases entries.len(),
{
    if entries.len() > 0 {
        assert(forall|i: int|
            0 <= i < entries.len() - 1 ==> (#[trigger] entries.drop_last()[i]) == entries[i]);
        lemma_lookup_date_slots_absent(entries.drop_last(), key);
    }
}

pub proof fn lemma_lookup_date_slots_update(
    entries: Seq<(i64, Vec<Slot>)>,
    i: int,
    e: (i64, Vec<Slot>),
    k: i64,
)
    requires
        sorted_date_keys(entries),
        0 <= i < entries.len(),
        e.0 == entries[i].0,
    ensures
        lookup_date_slots(entries.update(i, e), k) == (if k == entries[i].0 {
            e.1@
        } else {
            lookup_date_slots(entries, k)
        }),
    decreases entries.len(),
{
    let upd = entries.update(i, e);
    if i == entries.len() - 1 {
        assert(upd.drop_last() =~= entries.drop_last());
        assert(upd.last() == e);
    } else {
        assert(entries.drop_last()[i] == entries[i]);
        assert(upd.drop_last() =~= entries.drop_last().update(i, e));
        assert(upd.last() == entries.last());
        lemma_lookup_date_slots_update(entries.drop_last(), i, e, k);
    }
}

pub proof fn lemma_lookup_date_slots_remove(entries: Seq<(i64, Vec<Slot>)>, i: int, k: i64)
    requires
        sorted_date_keys(entries),
        0 <= i < entries.len(),
    ensures
        lookup_date_slots(entries.remove(i), k) == (if k == entries[i].0 {
            Seq::<Slot>::empty()
        } else {
            lookup_date_slots(entries, k)
        }),
    decreases entries.len(),
{
    let rem = entries.remove(i);
    if i == entries.len() - 1 {
        assert(rem =~= entries.drop_last());
        if k == entries[i].0 {
            assert(forall|j: int|
                0 <= j < rem.len() ==> (#[trigger] rem[j]) == entries[j] && entries[j].0 != k);
            lemma_lookup_date_slots_absent(rem, k);
        }
    } else {
        assert(rem.last() == entries.last());
        assert(rem.drop_last() =~= entries.drop_last().remove(i));
        assert(entries.drop_last()[i] == entries[i]);
        lemma_lookup_date_slots_remove(entries.drop_last(), i, k);
    }
}

pub proof fn lemma_lookup_date_slots_insert(
    entries: Seq<(i64, Vec<Slot>)>,
    i: int,
    e: (i64, Vec<Slot>),
    k: i64,
)
    requires
        0 <= i <= entries.len(),
        forall|j: int| 0 <= j < entries.len() ==> (#[trigger] entries[j]).0 != e.0,
    ensures
        lookup_date_slots(entries.insert(i, e), k) == (if k == e.0 {
            e.1@
        } else {
            lookup_date_slots(entries, k)
        }),
    decreases entries.len(),
{
    let ins = entries.insert(i, e);
    if i == entries.len() {
        assert(ins.drop_last() =~= entries);
        assert(ins.last() == e);
    } else {
        assert(ins.last() == entries.last());
        assert(ins.drop_last() =~= entries.drop_last().insert(i, e));
        assert(forall|j: int|
            0 <= j < entries.len() - 1 ==> (#[trigger] entries.drop_last()[j]) == entries[j]);
        lemma_lookup_date_slots_insert(entries.drop_last(), i, e, k);
    }
}

/// Register `slot` under expiry `date`, keeping the keys ascending.
pub(crate) fn add_date_slot(entries: &mut Vec<(i64, Vec<Slot>)>, date: i64, slot: Slot)
    requires
        sorted_date_keys(old(entries)@),
        nonempty_date_lists(old(entries)@),
    ensures
        sorted_date_keys(final(entries)@),
        nonempty_date_lists(final(entries)@),
        lookup_date_slots(final(entries)@, date) == lookup_date_slots(old(entries)@, date).push(
            slot,
        ),
        forall|k: i64|
            k != date ==> #[trigger] lookup_date_slots(final(entries)@, k) == lookup_date_slots(
                old(entries)@,
                k,
            ),
{
    let n = entries.len();
    let mut i: usize = 0;
    while i < n && entries[i].0 < date
        invariant
            entries@ == old(entries)@,
            n == entries@.len(),
            i <= n,
            sorted_date_keys(entries@),
            nonempty_date_lists(entries@),
            forall|j: int| 0 <= j < i ==> (#[trigger] entries@[j]).0 < date,
        decreases n - i,
    {
        i += 1;
    }
    if i < n && entries[i].0 == date {
        proof {
            lemma_lookup_date_slots_found(entries@, i as int);
        }
        entries[i].1.push(slot);
        proof {
            let e = (old(entries)@[i as int].0, entries@[i as int].1);
            assert(entries@ =~= old(entries)@.update(i as int, e));
            assert forall|k: i64| true implies #[trigger] lookup_date_slots(entries@, k) == (if k
                == date {
                lookup_date_slots(old(entries)@, date).push(slot)
            } else {
                lookup_date_slots(old(entries)@, k)
            }) by {
                lemma_lookup_date_slots_update(old(entries)@, i as int, e, k);
            }
        }
    } else {
        proof {
            assert forall|j: int| 0 <= j < entries@.len() implies (#[trigger] entries@[j]).0
                != date by {
                if j >= i as int {
                    assert(entries@[i as int].0 <= entries@[j].0);
                }
            }
            lemma_lookup_date_slots_absent(entries@, date);
        }
        let mut v: Vec<Slot> = Vec::new();
        v.push(slot);
        let ghost gv = v;
        entries.insert(i, (date, v));
        proof {
            assert(gv@ =~= lookup_date_slots(old(entries)@, date).push(slot));
            assert forall|k: i64| true implies #[trigger] lookup_date_slots(entries@, k) == (if k
                == date {
                gv@
            } else {
                lookup_date_slots(old(entries)@, k)
            }) by {
                lemma_lookup_date_slots_insert(old(entries)@, i as int, (date, gv), k);
            }
            assert forall|a: int, b: int|
                0 <= a < b < entries@.len() implies (#[trigger] entries@[a]).0 < (
            #[trigger] entries@[b]).0 by {
                if a < i as int && b == i as int {
                    assert(entries@[a] == old(entries)@[a]);
                } else if a == i as int && b > i as int {
                    assert(entries@[b] == old(entries)@[b - 1]);
                    assert(old(entries)@[i as int].0 <= old(entries)@[b - 1].0);
                } else if b < i as int {
                } else if a > i as int {
                    assert(entries@[a] == old(entries)@[a - 1]);
                    assert(entries@[b] == old(entries)@[b - 1]);
                } else if a < i as int && b > i as int {
                    assert(entries@[a] == old(entries)@[a]);
                    assert(entries@[b] == old(entries)@[b - 1]);
                }
            }
            assert forall|j: int| 0 <= j < entries@.len() implies (#[trigger] entries@[j]).1@.len()
                > 0 by {
                if j > i as int {
                    assert(entries@[j] == old(entries)@[j - 1]);
                } else if j < i as int {
                    assert(entries@[j] == old(entries)@[j]);
                }
            }
        }
    }
}

/// Strike `slot` from the list under expiry `date`, pruning the entry when
/// its list becomes empty.
pub(crate) fn remove_date_slot(entries: &mut Vec<(i64, Vec<Slot>)>, date: i64, slot: Slot)
    requires
        sorted_date_keys(old(entries)@),
        nonempty_date_lists(old(entries)@),
        lookup_date_slots(old(entries)@, date).no_duplicates(),
        lookup_date_slots(old(entries)@, date).contains(slot),
    ensures
        sorted_date_keys(final(entries)@),
        nonempty_date_lists(final(entries)@),
        lookup_date_slots(final(entries)@, date).no_duplicates(),
        forall|s2: Slot|
            #[trigger] lookup_date_slots(final(entries)@, date).contains(s2) <==> (
            lookup_date_slots(old(entries)@, date).contains(s2) && s2 != slot),
        forall|k: i64|
            k != date ==> #[trigger] lookup_date_slots(final(entries)@, k) == lookup_date_slots(
                old(entries)@,
                k,
            ),
{
    let n = entries.len();
    let mut i: usize = 0;
    while i < n
        invariant
            entries@ == old(entries)@,
            n == entries@.len(),
            i <= n,
            sorted_date_keys(entries@),
            nonempty_date_lists(entries@),
            lookup_date_slots(entries@, date).contains(slot),
            lookup_date_slots(entries@, date).no_duplicates(),
            forall|j: int| 0 <= j < i ==> (#[trigger] entries@[j]).0 != date,
        decreases n - i,
    {
        if entries[i].0 == date {
            proof {
                lemma_lookup_date_slots_found(entries@, i as int);
            }
            let m = entries[i].1.len();
            let j = find_slot_index(&entries[i].1, slot);
            if m == 1 {
                proof {
                    assert forall|a: int, b: int|
                        0 <= a < b < entries@.len() - 1 implies (#[trigger] entries@.remove(
                        i as int,
                    )[a]).0 < (#[trigger] entries@.remove(i as int)[b]).0 by {
                        if a >= i as int {
                            assert(entries@.remove(i as int)[a] == entries@[a + 1]);
                        }
                        if b >= i as int {
                            assert(entries@.remove(i as int)[b] == entries@[b + 1]);
                        }
                    }
                }
                entries.remove(i);
                proof {
                    assert forall|k: i64| true implies #[trigger] lookup_date_slots(entries@, k)
                        == (if k == date {
                        Seq::<Slot>::empty()
                    } else {
                        lookup_date_slots(old(entries)@, k)
                    }) by {
                        lemma_lookup_date_slots_remove(old(entries)@, i as int, k);
                    }
                    assert forall|s2: Slot|
                        #[trigger] lookup_date_slots(entries@, date).contains(s2) <==> (
                    lookup_date_slots(old(entries)@, date).contains(s2) && s2 != slot) by {
                        let ov = old(entries)@[i as int].1@;
                        if ov.contains(s2) {
                            let q = choose|q: int| 0 <= q < ov.len() && ov[q] == s2;
                            assert(q == 0);
                            assert(s2 == slot);
                        }
                    }
                }
            } else {
                proof {
                    lemma_remove_slot_membership(entries@[i as int].1@, j as int);
                }
                entries[i].1.remove(j);
                proof {
                    let e = (old(entries)@[i as int].0, entries@[i as int].1);
                    assert(entries@ =~= old(entries)@.update(i as int, e));
                    assert forall|k: i64| true implies #[trigger] lookup_date_slots(entries@, k)
                        == (if k == date {
                        old(entries)@[i as int].1@.remove(j as int)
                    } else {
                        lookup_date_slots(old(entries)@, k)
                    }) by {
                        lemma_lookup_date_slots_update(old(entries)@, i as int, e, k);
                    }
                }
            }
            return ;
        }
        i += 1;
    }
    proof {
        lemma_lookup_date_slots_absent(entries@, date);
        assert(false);
    }
}

} // verus!
