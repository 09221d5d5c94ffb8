//! A grid of independent rings addressed by position. The grid is a routing
//! facade: it owns a fixed-length fleet of rings, forwards `add` and
//! `delete` to the ring at a given index, and ignores an out-of-range index
//! as a silent no-op. Rings in a grid share nothing with one another.

use crate::ring::HashRing;
use vstd::prelude::*;

verus! {

pub struct HashRingGrid {
    fleet: Vec<HashRing>,
}

impl HashRingGrid {
    /// The fleet in index order.
    pub closed spec fn fleet_seq(&self) -> Seq<HashRing> {
        self.fleet@
    }

    /// Every ring in the fleet keeps the ring lock invariant.
    pub open spec fn wf(&self) -> bool {
        forall|i: int| 0 <= i < self.fleet_seq().len() ==> (#[trigger] self.fleet_seq()[i]).wf()
    }

    pub open spec fn spec_size(&self) -> nat {
        self.fleet_seq().len()
    }

    /// A grid of `size` independent, empty rings. `size == 0` is legal and
    /// yields a grid with no usable slots.
    pub fn new(size: usize) -> (r: Self)
        ensures
            r.wf(),
            r.spec_size() == size,
    {
        let mut fleet: Vec<HashRing> = Vec::new();
        let mut i: usize = 0;
        while i < size
            invariant
                i <= size,
                fleet@.len() == i,
                forall|j: int| 0 <= j < fleet@.len() ==> (#[trigger] fleet@[j]).wf(),
            decreases size - i,
        {
            fleet.push(HashRing::new());
            i = i + 1;
        }
        HashRingGrid { fleet }
    }

    /// How many rings the grid holds; fixed at construction.
    pub fn size(&self) -> (r: usize)
        ensures
            r == self.spec_size(),
    {
        self.fleet.len()
    }

    /// The ring at `index`, or nothing when `index` is out of range.
    pub fn ring(&self, index: usize) -> (r: Option<&HashRing>)
        ensures
            match r {
                Some(h) => index < self.spec_size() && *h == self.fleet_seq()[index as int],
                None => index >= self.spec_size(),
            },
    {
        if index < self.fleet.len() {
            Some(&self.fleet[index])
        } else {
            None
        }
    }

    /// Forwards to the indexed ring's `add`; an out-of-range index touches
    /// no ring at all — a silent no-op, not an error.
    pub fn add_to_ring(&self, index: usize, item: u64)
        requires
            self.wf(),
    {
        if index < self.fleet.len() {
            let target = &self.fleet[index];
            proof {
                assert(*target == self.fleet_seq()[index as int]);
            }
            target.add(item);
        }
    }

    /// Forwards to the indexed ring's `delete`; the same out-of-range
    /// policy as `add_to_ring`.
    pub fn delete_from_ring(&self, index: usize, item: u64)
        requires
            self.wf(),
    {
        if index < self.fleet.len() {
            let target = &self.fleet[index];
            proof {
                assert(*target == self.fleet_seq()[index as int]);
            }
            target.delete(item);
        }
    }
}

} // verus!
