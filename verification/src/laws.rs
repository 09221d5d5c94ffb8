//! Laws of the ring, stated over the table's view and lookup spec and
//! proved once and for all. Each connects the contracts of `add`, `delete`
//! and `get`: what a lookup returns after a given history of updates.

use crate::hash::hash_of;
use crate::table::RingTable;
use crate::table::lemma_lower_bound_of_char;
use crate::table::lemma_sorted_key_unique;
use vstd::prelude::*;

verus! {

/// A table holding one single entry — the state `add(x)` leaves an empty
/// table in — answers every lookup with that entry's item: the successor
/// search either lands on the lone key or wraps around to it.
pub proof fn lemma_lone_entry_serves_all(t: RingTable, x: u64, y: u64)
    requires
        t.wf(),
        t@ == Map::<u64, u64>::empty().insert(hash_of(x), x),
    ensures
        t.spec_get(y) == Some(x),
{
    let s = t.entries_seq();
    let h = hash_of(x);
    assert(t@.dom().contains(h));
    assert(t.contains_hash(h));
    assert(s.len() >= 1);
    if s.len() >= 2 {
        assert(s[0].0 < s[1].0);
        assert(t@.dom().contains(s[0].0));
        assert(t@.dom().contains(s[1].0));
        assert(false);
    }
    let i = choose|i: int| 0 <= i < s.len() && (#[trigger] s[i]).0 == h;
    assert(i == 0);
    assert(t.item_at_hash(h) == s[0].1);
    assert(t@[h] == x);
    if s[0].0 >= hash_of(y) {
        lemma_lower_bound_of_char(s, hash_of(y), 0);
    } else {
        lemma_lower_bound_of_char(s, hash_of(y), 1);
    }
}

/// `add(x)` and then `delete(x)` on an empty table is, at the level of
/// views, no change at all: the insert is undone by the remove.
pub proof fn lemma_add_then_delete_restores_empty(x: u64)
    ensures
        Map::<u64, u64>::empty().insert(hash_of(x), x).remove(hash_of(x)) == Map::<
            u64,
            u64,
        >::empty(),
{
    assert(Map::<u64, u64>::empty().insert(hash_of(x), x).remove(hash_of(x)) =~= Map::<
        u64,
        u64,
    >::empty());
}

/// A table whose view is empty holds no entries, so every lookup on it
/// returns absent.
pub proof fn lemma_empty_ring_get_absent(t: RingTable, y: u64)
    requires
        t.wf(),
        t@ == Map::<u64, u64>::empty(),
    ensures
        t.spec_get(y) is None,
{
    let s = t.entries_seq();
    if s.len() > 0 {
        assert(t.contains_hash(s[0].0));
        assert(t@.dom().contains(s[0].0));
    }
}

/// Adding `x` twice in a row leaves the same view as adding it once: the
/// second insert overwrites the first, it does not duplicate.
pub proof fn lemma_add_twice_adds_once(m: Map<u64, u64>, x: u64)
    ensures
        m.insert(hash_of(x), x).insert(hash_of(x), x) == m.insert(hash_of(x), x),
{
    assert(m.insert(hash_of(x), x).insert(hash_of(x), x) =~= m.insert(hash_of(x), x));
}

/// A well-formed table never holds two entries under one hash: an entry's
/// hash picks out exactly one position.
pub proof fn lemma_one_entry_per_hash(t: RingTable, i: int, j: int)
    requires
        t.wf(),
        0 <= i < t.spec_len(),
        0 <= j < t.spec_len(),
        t.entries_seq()[i].0 == t.entries_seq()[j].0,
    ensures
        i == j,
{
    lemma_sorted_key_unique(t.entries_seq(), i, j);
}

/// Wraparound: when the query's hash lies strictly above every key in a
/// non-empty table, the successor search falls off the top and resolves to
/// the entry with the lowest key.
pub proof fn lemma_wraparound(t: RingTable, y: u64)
    requires
        t.wf(),
        t.spec_len() > 0,
        forall|i: int| 0 <= i < t.spec_len() ==> (#[trigger] t.entries_seq()[i]).0 < hash_of(y),
    ensures
        t.spec_get(y) == Some(t.entries_seq()[0].1),
{
    lemma_lower_bound_of_char(t.entries_seq(), hash_of(y), t.entries_seq().len() as int);
}

} // verus!
