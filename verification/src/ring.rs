//! A ring: one sorted table shared behind a reader/writer lock. Writers
//! (`add`, `delete`) exclude everything else on the same ring; readers
//! (`get`) may run in parallel. The lock's invariant keeps every table that
//! is ever stored in it well formed, so every lookup answers from some
//! well-formed table.

use crate::hash::hash_of;
use crate::hash::hash_value;
use crate::table::RingTable;
use vstd::prelude::*;
use vstd::rwlock::RwLock;
use vstd::rwlock::RwLockPredicate;

verus! {

/// The lock invariant of a ring: only well-formed tables go in.
pub struct RingPred {}

impl RwLockPredicate<RingTable> for RingPred {
    open spec fn inv(self, t: RingTable) -> bool {
        t.wf()
    }
}

/// A shareable consistent-hashing ring. All operations take `&self`: a
/// reference to one ring can be handed to many callers (or wrapped in an
/// `Arc` to clone owning handles), and all of them operate on the same
/// underlying table, serialized by the lock.
pub struct HashRing {
    lock: RwLock<RingTable, RingPred>,
}

impl HashRing {
    /// The lock admits exactly the well-formed tables.
    pub closed spec fn wf(&self) -> bool {
        forall|t: RingTable| self.lock.inv(t) <==> t.wf()
    }

    /// A new ring over an empty table.
    pub fn new() -> (r: Self)
        ensures
            r.wf(),
    {
        let lock = RwLock::new(RingTable::new(), Ghost(RingPred {}));
        HashRing { lock }
    }

    /// The hash the ring files `item` under; a pure function of the item.
    pub fn hash(&self, item: u64) -> (r: u64)
        ensures
            r == hash_of(item),
    {
        hash_value(item)
    }

    /// Files `item` under its hash in the shared table, overwriting any
    /// entry already at that hash. Holds the write lock for the update, so
    /// the table seen and left behind is well formed; the new table's view
    /// is the old one's with `(hash_of(item), item)` inserted.
    pub fn add(&self, item: u64)
        requires
            self.wf(),
    {
        let (mut t, wh) = self.lock.acquire_write();
        t.add(item);
        wh.release_write(t);
    }

    /// Removes the entry under `item`'s hash from the shared table, a
    /// silent no-op when none is there. Holds the write lock for the
    /// update; the new table's view is the old one's with `hash_of(item)`
    /// removed.
    pub fn delete(&self, item: u64)
        requires
            self.wf(),
    {
        let (mut t, wh) = self.lock.acquire_write();
        t.delete(item);
        wh.release_write(t);
    }

    /// Clockwise successor lookup under a read lock: the answer is exactly
    /// `spec_get` of the well-formed table the ring held at the lookup.
    pub fn get(&self, item: u64) -> (r: Option<u64>)
        requires
            self.wf(),
        ensures
            exists|t: RingTable| t.wf() && r == #[trigger] t.spec_get(item),
    {
        let rh = self.lock.acquire_read();
        let t = rh.borrow();
        let r = t.get(item);
        proof {
            assert(t.wf() && r == t.spec_get(item));
        }
        rh.release_read();
        r
    }
}

} // verus!
