//! The sequential core of a ring: a sorted table of `(hash, item)` entries,
//! keys strictly ascending and unique, each key the hash of its item. The
//! table's view is the map from hash to item; `add` and `delete` are exactly
//! map insert and remove, and `get` is the clockwise successor lookup.

use crate::hash::hash_of;
use crate::hash::hash_value;
use vstd::prelude::*;

verus! {

/// Keys strictly ascending (hence unique).
pub open spec fn keys_sorted(s: Seq<(u64, u64)>) -> bool {
    forall|i: int, j: int| 0 <= i < j < s.len() ==> (#[trigger] s[i]).0 < (#[trigger] s[j]).0
}

/// Every key is the hash of the item stored under it.
pub open spec fn keys_hashed(s: Seq<(u64, u64)>) -> bool {
    forall|i: int| 0 <= i < s.len() ==> (#[trigger] s[i]).0 == hash_of(s[i].1)
}

/// Index of the first entry whose key is at or above `h`; `s.len()` when
/// every key is below `h`.
pub open spec fn lower_bound_of(s: Seq<(u64, u64)>, h: u64) -> int
    decreases s.len(),
{
    if s.len() == 0 {
        0
    } else if s[0].0 >= h {
        0
    } else {
        1 + lower_bound_of(s.drop_first(), h)
    }
}

/// `lower_bound_of` is the unique position with everything below it under
/// `h` and, when in range, a key at or above `h` at it.
pub proof fn lemma_lower_bound_of_char(s: Seq<(u64, u64)>, h: u64, r: int)
    requires
        0 <= r <= s.len(),
        forall|i: int| 0 <= i < r ==> (#[trigger] s[i]).0 < h,
        r < s.len() ==> s[r].0 >= h,
    ensures
        lower_bound_of(s, h) == r,
    decreases s.len(),
{
    if s.len() == 0 {
    } else if s[0].0 >= h {
        assert(r == 0);
    } else {
        let t = s.drop_first();
        assert forall|i: int| 0 <= i < r - 1 implies (#[trigger] t[i]).0 < h by {
            assert(t[i] == s[i + 1]);
        }
        if r - 1 < t.len() {
            assert(t[r - 1] == s[r]);
        }
        lemma_lower_bound_of_char(t, h, r - 1);
    }
}

/// In a sorted table a key picks out at most one index.
pub proof fn lemma_sorted_key_unique(s: Seq<(u64, u64)>, i: int, j: int)
    requires
        keys_sorted(s),
        0 <= i < s.len(),
        0 <= j < s.len(),
        s[i].0 == s[j].0,
    ensures
        i == j,
{
    if i < j {
        assert(s[i].0 < s[j].0);
    }
    if j < i {
        assert(s[j].0 < s[i].0);
    }
}

pub struct RingTable {
    entries: Vec<(u64, u64)>,
}

impl RingTable {
    /// The entries in storage order: ascending by key.
    pub closed spec fn entries_seq(&self) -> Seq<(u64, u64)> {
        self.entries@
    }

    pub open spec fn wf(&self) -> bool {
        keys_sorted(self.entries_seq()) && keys_hashed(self.entries_seq())
    }

    pub open spec fn spec_len(&self) -> nat {
        self.entries_seq().len()
    }

    /// Some entry is filed under hash `k`.
    pub open spec fn contains_hash(&self, k: u64) -> bool {
        exists|i: int|
            0 <= i < self.entries_seq().len() && (#[trigger] self.entries_seq()[i]).0 == k
    }

    /// The item filed under hash `k` (meaningful when `contains_hash(k)`).
    pub open spec fn item_at_hash(&self, k: u64) -> u64 {
        let i = choose|i: int|
            0 <= i < self.entries_seq().len() && (#[trigger] self.entries_seq()[i]).0 == k;
        self.entries_seq()[i].1
    }

    /// What `get` returns: absent on an empty table; otherwise the item at
    /// the first key at or above the query's hash, wrapping to the lowest
    /// key when the query's hash is above every key.
    pub open spec fn spec_get(&self, item: u64) -> Option<u64> {
        let s = self.entries_seq();
        let lb = lower_bound_of(s, hash_of(item));
        if s.len() == 0 {
            None
        } else if lb == s.len() {
            Some(s[0].1)
        } else {
            Some(s[lb].1)
        }
    }

    pub fn new() -> (r: Self)
        ensures
            r.wf(),
            r.spec_len() == 0,
            r@ == Map::<u64, u64>::empty(),
    {
        let r = RingTable { entries: Vec::new() };
        proof {
            assert(r@ =~= Map::<u64, u64>::empty());
        }
        r
    }

    pub fn len(&self) -> (r: usize)
        ensures
            r == self.spec_len(),
    {
        self.entries.len()
    }

    /// Binary search for the first index whose key is at or above `h`.
    fn lower_bound(&self, h: u64) -> (r: usize)
        requires
            self.wf(),
        ensures
            r as int == lower_bound_of(self.entries_seq(), h),
            r <= self.spec_len(),
            forall|i: int| 0 <= i < r ==> (#[trigger] self.entries_seq()[i]).0 < h,
            r < self.spec_len() ==> self.entries_seq()[r as int].0 >= h,
    {
        let mut lo: usize = 0;
        let mut hi: usize = self.entries.len();
        while lo < hi
            invariant
                lo <= hi <= self.entries@.len(),
                self.wf(),
                forall|i: int| 0 <= i < lo ==> (#[trigger] self.entries@[i]).0 < h,
                forall|i: int| hi <= i < self.entries@.len() ==> (#[trigger] self.entries@[i]).0 >= h,
            decreases hi - lo,
        {
            let mid: usize = lo + (hi - lo) / 2;
            if self.entries[mid].0 < h {
                proof {
                    assert forall|i: int| 0 <= i < mid + 1 implies (#[trigger] self.entries@[i]).0
                        < h by {
                        if i < mid {
                            assert(self.entries@[i].0 < self.entries@[mid as int].0);
                        }
                    }
                }
                lo = mid + 1;
            } else {
                proof {
                    assert forall|i: int|
                        mid <= i < self.entries@.len() implies (#[trigger] self.entries@[i]).0
                        >= h by {
                        if mid < i {
                            assert(self.entries@[mid as int].0 < self.entries@[i].0);
                        }
                    }
                }
                hi = mid;
            }
        }
        proof {
            lemma_lower_bound_of_char(self.entries_seq(), h, lo as int);
        }
        lo
    }

    /// Files `item` under its hash. An entry already at that hash — the
    /// same item again, or a colliding one — is overwritten: the newest
    /// writer for a given hash wins.
    pub fn add(&mut self, item: u64)
        requires
            old(self).wf(),
        ensures
            final(self).wf(),
            final(self)@ == old(self)@.insert(hash_of(item), item),
    {
        let h = hash_value(item);
        let idx = self.lower_bound(h);
        let ghost s0 = self.entries_seq();
        if idx < self.entries.len() && self.entries[idx].0 == h {
            self.entries[idx] = (h, item);
            proof {
                self.lemma_add_overwrite(*old(self), s0, idx as int, h, item);
            }
        } else {
            self.entries.insert(idx, (h, item));
            proof {
                self.lemma_add_insert(*old(self), s0, idx as int, h, item);
            }
        }
    }

    /// After an in-place overwrite at the index already holding key `h`,
    /// the table is still well formed and its view is the map insert.
    proof fn lemma_add_overwrite(
        &self,
        prev: Self,
        s0: Seq<(u64, u64)>,
        idx: int,
        h: u64,
        item: u64,
    )
        requires
            prev.wf(),
            s0 == prev.entries_seq(),
            0 <= idx < s0.len(),
            s0[idx].0 == h,
            h == hash_of(item),
            self.entries_seq() == s0.update(idx, (h, item)),
        ensures
            self.wf(),
            self@ == prev@.insert(h, item),
    {
        let s1 = self.entries_seq();
        assert forall|i: int| 0 <= i < s1.len() implies (#[trigger] s1[i]).0 == s0[i].0 by {}
        assert forall|k: u64| #[trigger] prev.contains_hash(k) implies self.contains_hash(k) by {
            let i = choose|i: int| 0 <= i < s0.len() && (#[trigger] s0[i]).0 == k;
            assert(s1[i].0 == k);
        }
        assert forall|k: u64| #[trigger] self.contains_hash(k) implies prev.contains_hash(k) by {
            let i = choose|i: int| 0 <= i < s1.len() && (#[trigger] s1[i]).0 == k;
            assert(s0[i].0 == k);
        }
        assert(self.contains_hash(h)) by {
            assert(s1[idx].0 == h);
        }
        assert(self.item_at_hash(h) == item) by {
            let i = choose|i: int| 0 <= i < s1.len() && (#[trigger] s1[i]).0 == h;
            lemma_sorted_key_unique(s1, i, idx);
        }
        assert forall|k: u64|
            #[trigger] self.contains_hash(k) && k != h implies self.item_at_hash(k)
            == prev.item_at_hash(k) by {
            let i1 = choose|i: int| 0 <= i < s1.len() && (#[trigger] s1[i]).0 == k;
            let i0 = choose|i: int| 0 <= i < s0.len() && (#[trigger] s0[i]).0 == k;
            lemma_sorted_key_unique(s0, i0, i1);
            assert(i1 != idx);
            assert(s1[i1] == s0[i1]);
        }
        assert(self@ =~= prev@.insert(h, item));
    }

    /// After inserting a fresh entry `(h, item)` at the lower-bound index,
    /// the table is still well formed and its view is the map insert.
    proof fn lemma_add_insert(
        &self,
        prev: Self,
        s0: Seq<(u64, u64)>,
        idx: int,
        h: u64,
        item: u64,
    )
        requires
            prev.wf(),
            s0 == prev.entries_seq(),
            0 <= idx <= s0.len(),
            forall|i: int| 0 <= i < idx ==> (#[trigger] s0[i]).0 < h,
            idx < s0.len() ==> s0[idx].0 >= h,
            idx < s0.len() ==> s0[idx].0 != h,
            h == hash_of(item),
            self.entries_seq() == s0.insert(idx, (h, item)),
        ensures
            self.wf(),
            self@ == prev@.insert(h, item),
    {
        let s1 = self.entries_seq();
        assert(s1.len() == s0.len() + 1);
        assert forall|i: int| 0 <= i < s1.len() implies (#[trigger] s1[i]) == (if i < idx {
            s0[i]
        } else if i == idx {
            (h, item)
        } else {
            s0[i - 1]
        }) by {}
        // keys from idx on in s0 are strictly above h
        assert forall|j: int| idx <= j < s0.len() implies (#[trigger] s0[j]).0 > h by {
            if idx < j {
                assert(s0[idx].0 < s0[j].0);
            }
        }
        assert(keys_sorted(s1)) by {
            assert forall|i: int, j: int| 0 <= i < j < s1.len() implies (#[trigger] s1[i]).0 < (
            #[trigger] s1[j]).0 by {}
        }
        assert(keys_hashed(s1)) by {
            assert forall|i: int| 0 <= i < s1.len() implies (#[trigger] s1[i]).0 == hash_of(
                s1[i].1,
            ) by {}
        }
        assert forall|k: u64| #[trigger] prev.contains_hash(k) implies self.contains_hash(k) by {
            let i = choose|i: int| 0 <= i < s0.len() && (#[trigger] s0[i]).0 == k;
            if i < idx {
                assert(s1[i].0 == k);
            } else {
                assert(s1[i + 1].0 == k);
            }
        }
        assert forall|k: u64|
            #[trigger] self.contains_hash(k) && k != h implies prev.contains_hash(k) by {
            let i = choose|i: int| 0 <= i < s1.len() && (#[trigger] s1[i]).0 == k;
            if i < idx {
                assert(s0[i].0 == k);
            } else {
                assert(i != idx);
                assert(s0[i - 1].0 == k);
            }
        }
        assert(self.contains_hash(h)) by {
            assert(s1[idx].0 == h);
        }
        assert(self.item_at_hash(h) == item) by {
            let i = choose|i: int| 0 <= i < s1.len() && (#[trigger] s1[i]).0 == h;
            lemma_sorted_key_unique(s1, i, idx);
        }
        assert forall|k: u64|
            #[trigger] self.contains_hash(k) && k != h implies self.item_at_hash(k)
            == prev.item_at_hash(k) by {
            let i1 = choose|i: int| 0 <= i < s1.len() && (#[trigger] s1[i]).0 == k;
            let i0 = choose|i: int| 0 <= i < s0.len() && (#[trigger] s0[i]).0 == k;
            assert(i1 != idx);
            if i1 < idx {
                lemma_sorted_key_unique(s0, i0, i1);
            } else {
                lemma_sorted_key_unique(s0, i0, i1 - 1);
                assert(s1[i1] == s0[i1 - 1]);
            }
        }
        assert(self@ =~= prev@.insert(h, item));
    }

    /// Removes the entry filed under `item`'s hash; a silent no-op when no
    /// entry is filed there.
    pub fn delete(&mut self, item: u64)
        requires
            old(self).wf(),
        ensures
            final(self).wf(),
            final(self)@ == old(self)@.remove(hash_of(item)),
    {
        let h = hash_value(item);
        let idx = self.lower_bound(h);
        let ghost s0 = self.entries_seq();
        if idx < self.entries.len() && self.entries[idx].0 == h {
            self.entries.remove(idx);
            proof {
                self.lemma_delete_present(*old(self), s0, idx as int, h);
            }
        } else {
            proof {
                assert forall|i: int|
                    0 <= i < s0.len() implies (#[trigger] s0[i]).0 != h by {
                    if idx <= i && (idx as int) < s0.len() {
                        if idx < i {
                            assert(s0[idx as int].0 < s0[i].0);
                        }
                    }
                }
                assert(!self.contains_hash(h));
                assert(self@ =~= old(self)@.remove(h));
            }
        }
    }

    /// After removing the one entry filed under `h`, the table is still
    /// well formed and its view is the map remove.
    proof fn lemma_delete_present(&self, prev: Self, s0: Seq<(u64, u64)>, idx: int, h: u64)
        requires
            prev.wf(),
            s0 == prev.entries_seq(),
            0 <= idx < s0.len(),
            s0[idx].0 == h,
            self.entries_seq() == s0.remove(idx),
        ensures
            self.wf(),
            self@ == prev@.remove(h),
    {
        let s1 = self.entries_seq();
        assert(s1.len() == s0.len() - 1);
        assert forall|i: int| 0 <= i < s1.len() implies (#[trigger] s1[i]) == (if i < idx {
            s0[i]
        } else {
            s0[i + 1]
        }) by {}
        assert(keys_sorted(s1)) by {
            assert forall|i: int, j: int| 0 <= i < j < s1.len() implies (#[trigger] s1[i]).0 < (
            #[trigger] s1[j]).0 by {}
        }
        assert(keys_hashed(s1)) by {
            assert forall|i: int| 0 <= i < s1.len() implies (#[trigger] s1[i]).0 == hash_of(
                s1[i].1,
            ) by {}
        }
        assert forall|k: u64|
            #[trigger] prev.contains_hash(k) && k != h implies self.contains_hash(k) by {
            let i = choose|i: int| 0 <= i < s0.len() && (#[trigger] s0[i]).0 == k;
            assert(i != idx);
            if i < idx {
                assert(s1[i].0 == k);
            } else {
                assert(s1[i - 1].0 == k);
            }
        }
        assert forall|k: u64| #[trigger] self.contains_hash(k) implies prev.contains_hash(k) && k
            != h by {
            let i = choose|i: int| 0 <= i < s1.len() && (#[trigger] s1[i]).0 == k;
            if i < idx {
                assert(s0[i].0 == k);
                if k == h {
                    lemma_sorted_key_unique(s0, i, idx);
                }
            } else {
                assert(s0[i + 1].0 == k);
                if k == h {
                    lemma_sorted_key_unique(s0, i + 1, idx);
                }
            }
        }
        assert forall|k: u64| #[trigger] self.contains_hash(k) implies self.item_at_hash(k)
            == prev.item_at_hash(k) by {
            let i1 = choose|i: int| 0 <= i < s1.len() && (#[trigger] s1[i]).0 == k;
            let i0 = choose|i: int| 0 <= i < s0.len() && (#[trigger] s0[i]).0 == k;
            if i1 < idx {
                lemma_sorted_key_unique(s0, i0, i1);
            } else {
                lemma_sorted_key_unique(s0, i0, i1 + 1);
                assert(s1[i1] == s0[i1 + 1]);
            }
        }
        assert(self@ =~= prev@.remove(h));
    }

    /// Clockwise successor lookup: absent only on an empty table; otherwise
    /// the item at the first key at or above `hash_of(item)`, wrapping to
    /// the lowest key when the hash is above every key.
    pub fn get(&self, item: u64) -> (r: Option<u64>)
        requires
            self.wf(),
        ensures
            r == self.spec_get(item),
            r is None <==> self.spec_len() == 0,
    {
        if self.entries.is_empty() {
            return None;
        }
        let h = hash_value(item);
        let idx = self.lower_bound(h);
        if idx == self.entries.len() {
            Some(self.entries[0].1)
        } else {
            Some(self.entries[idx].1)
        }
    }
}

impl View for RingTable {
    type V = Map<u64, u64>;

    /// The table as the map from hash to stored item.
    open spec fn view(&self) -> Map<u64, u64> {
        Map::new(|k: u64| self.contains_hash(k), |k: u64| self.item_at_hash(k))
    }
}

} // verus!
