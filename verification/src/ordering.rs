//! Ordering of items by display name: the lexicographic order on names and
//! the stable insertion sort that `ord_by_name` is specified against.

use vstd::prelude::*;

use crate::item::Item;
use vstd::string::StrSliceExecFns;

verus! {

/// Lexicographic order on character sequences by code point, which agrees
/// with byte-wise comparison of their UTF-8 encodings.
pub open spec fn lex_le(a: Seq<char>, b: Seq<char>) -> bool
    decreases a.len(),
{
    if a.len() == 0 {
        true
    } else if b.len() == 0 {
        false
    } else if a[0] as u32 == b[0] as u32 {
        lex_le(a.drop_first(), b.drop_first())
    } else {
        (a[0] as u32) < (b[0] as u32)
    }
}

/// Items ordered by display name.
pub open spec fn name_le(a: Item, b: Item) -> bool {
    lex_le(a.name@, b.name@)
}

/// The order is total.
pub proof fn lemma_lex_le_total(a: Seq<char>, b: Seq<char>)
    ensures
        lex_le(a, b) || lex_le(b, a),
    decreases a.len(),
{
    if a.len() == 0 || b.len() == 0 {
    } else if a[0] as u32 == b[0] as u32 {
        lemma_lex_le_total(a.drop_first(), b.drop_first());
    }
}

/// The order is transitive.
pub proof fn lemma_lex_le_trans(a: Seq<char>, b: Seq<char>, c: Seq<char>)
    requires
        lex_le(a, b),
        lex_le(b, c),
    ensures
        lex_le(a, c),
    decreases a.len(),
{
    if a.len() == 0 {
    } else if b.len() == 0 {
    } else if c.len() == 0 {
    } else if a[0] as u32 == b[0] as u32 && b[0] as u32 == c[0] as u32 {
        lemma_lex_le_trans(a.drop_first(), b.drop_first(), c.drop_first());
    }
}

/// Insert `it` after every element whose name is at or before `it`'s own:
/// the insertion step of a stable sort.
pub open spec fn insert_by_name(s: Seq<Item>, it: Item) -> Seq<Item>
    decreases s.len(),
{
    if s.len() > 0 && name_le(s[0], it) {
        seq![s[0]] + insert_by_name(s.drop_first(), it)
    } else {
        seq![it] + s
    }
}

/// The stable insertion sort of a sequence of items by display name.
pub open spec fn sort_by_name(s: Seq<Item>) -> Seq<Item>
    decreases s.len(),
{
    if s.len() == 0 {
        Seq::empty()
    } else {
        insert_by_name(sort_by_name(s.drop_last()), s.last())
    }
}

/// Pairwise sortedness by name.
pub open spec fn sorted_by_name(s: Seq<Item>) -> bool {
    forall|i: int, j: int| 0 <= i < j < s.len() ==> name_le(#[trigger] s[i], #[trigger] s[j])
}

/// Inserting at the position the insertion scan finds: `insert_by_name`
/// places `it` exactly after the longest prefix of elements at or before it.
pub proof fn lemma_insert_by_name_at(s: Seq<Item>, it: Item, j: int)
    requires
        0 <= j <= s.len(),
        forall|q: int| 0 <= q < j ==> name_le(#[trigger] s[q], it),
        j < s.len() ==> !name_le(s[j], it),
    ensures
        insert_by_name(s, it) == s.take(j) + seq![it] + s.skip(j),
    decreases s.len(),
{
    if j == 0 {
        assert(insert_by_name(s, it) =~= s.take(0) + seq![it] + s.skip(0));
    } else {
        assert(name_le(s[0], it));
        let rest = s.drop_first();
        assert forall|q: int| 0 <= q < j - 1 implies name_le(#[trigger] rest[q], it) by {
            assert(rest[q] == s[q + 1]);
        }
        assert(j - 1 < rest.len() ==> !name_le(rest[j - 1], it));
        lemma_insert_by_name_at(rest, it, j - 1);
        assert(seq![s[0]] + (rest.take(j - 1) + seq![it] + rest.skip(j - 1)) =~= s.take(j)
            + seq![it] + s.skip(j));
    }
}

/// The insertion step keeps the sequence sorted.
pub proof fn lemma_insert_by_name_sorted(s: Seq<Item>, it: Item)
    requires
        sorted_by_name(s),
    ensures
        sorted_by_name(insert_by_name(s, it)),
    decreases s.len(),
{
    let pos = longest_le_prefix(s, it);
    lemma_longest_le_prefix(s, it);
    lemma_insert_by_name_at(s, it, pos);
    let r = s.take(pos) + seq![it] + s.skip(pos);
    assert forall|x: int, y: int| 0 <= x < y < r.len() implies name_le(#[trigger] r[x], #[trigger] r[y]) by {
        if x < pos && y < pos {
            assert(r[x] == s[x] && r[y] == s[y]);
        } else if x < pos && y == pos {
            assert(r[x] == s[x] && r[y] == it);
        } else if x < pos && y > pos {
            assert(r[x] == s[x] && r[y] == s[y - 1]);
        } else if x == pos && y > pos {
            assert(r[x] == it && r[y] == s[y - 1]);
            assert(!name_le(s[pos], it));
            lemma_lex_le_total(s[pos].name@, it.name@);
            assert(name_le(it, s[pos]));
            if y - 1 > pos {
                assert(name_le(s[pos], s[y - 1]));
                lemma_lex_le_trans(it.name@, s[pos].name@, s[y - 1].name@);
            }
        } else {
            assert(r[x] == s[x - 1] && r[y] == s[y - 1]);
        }
    }
}

/// The length of the longest prefix of `s` whose names are at or before
/// `it`'s own.
pub open spec fn longest_le_prefix(s: Seq<Item>, it: Item) -> int
    decreases s.len(),
{
    if s.len() > 0 && name_le(s[0], it) {
        1 + longest_le_prefix(s.drop_first(), it)
    } else {
        0
    }
}

/// `longest_le_prefix` is the position the insertion scan finds.
pub proof fn lemma_longest_le_prefix(s: Seq<Item>, it: Item)
    ensures
        0 <= longest_le_prefix(s, it) <= s.len(),
        forall|q: int| 0 <= q < longest_le_prefix(s, it) ==> name_le(#[trigger] s[q], it),
        longest_le_prefix(s, it) < s.len() ==> !name_le(s[longest_le_prefix(s, it)], it),
    decreases s.len(),
{
    if s.len() > 0 && name_le(s[0], it) {
        let rest = s.drop_first();
        lemma_longest_le_prefix(rest, it);
        let p = longest_le_prefix(s, it);
        assert forall|q: int| 0 <= q < p implies name_le(#[trigger] s[q], it) by {
            if q > 0 {
                assert(rest[q - 1] == s[q]);
            }
        }
        if p < s.len() {
            assert(s[p] == rest[p - 1]);
        }
    }
}

/// The sort is sorted.
pub proof fn lemma_sort_by_name_sorted(s: Seq<Item>)
    ensures
        sorted_by_name(sort_by_name(s)),
    decreases s.len(),
{
    if s.len() > 0 {
        lemma_sort_by_name_sorted(s.drop_last());
        lemma_insert_by_name_sorted(sort_by_name(s.drop_last()), s.last());
    }
}

/// Whether `a`'s name comes at or before `b`'s, decided character by
/// character.
pub fn name_le_exec(a: &String, b: &String) -> (r: bool)
    ensures
        r == lex_le(a@, b@),
{
    let la = a.as_str().unicode_len();
    let lb = b.as_str().unicode_len();
    let mut i: usize = 0;
    proof {
        assert(a@.skip(0) =~= a@);
        assert(b@.skip(0) =~= b@);
    }
    loop
        invariant
            i <= la,
            i <= lb,
            la == a@.len(),
            lb == b@.len(),
            lex_le(a@, b@) == lex_le(a@.skip(i as int), b@.skip(i as int)),
        decreases la - i,
    {
        if i >= la {
            return true;
        }
        if i >= lb {
            return false;
        }
        let ca = a.as_str().get_char(i);
        let cb = b.as_str().get_char(i);
        if (ca as u32) != (cb as u32) {
            return (ca as u32) < (cb as u32);
        }
        proof {
            assert(a@.skip(i as int).drop_first() =~= a@.skip(i + 1));
            assert(b@.skip(i as int).drop_first() =~= b@.skip(i + 1));
        }
        i += 1;
    }
}


/// The position at which the insertion scan places `it`: past every leading
/// element whose name is at or before `it`'s own.
pub fn insert_position(s: &Vec<Item>, it: &Item) -> (r: usize)
    ensures
        r <= s@.len(),
        forall|q: int| 0 <= q < r ==> name_le(#[trigger] s@[q], *it),
        r < s@.len() ==> !name_le(s@[r as int], *it),
{
    let n = s.len();
    let mut j: usize = 0;
    while j < n
        invariant
            n == s@.len(),
            j <= n,
            forall|q: int| 0 <= q < j ==> name_le(#[trigger] s@[q], *it),
        decreases n - j,
    {
        if !name_le_exec(&s[j].name, &it.name) {
            return j;
        }
        j += 1;
    }
    j
}

} // verus!
