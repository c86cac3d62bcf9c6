//! The per-key lock table: a process-wide set of keys currently owned by a
//! mutation. Holding a key here is what serializes PUT, DELETE, UNLINK and
//! REBALANCE on that key.
use vstd::prelude::*;

use crate::index::str_equal;

verus! {

/// The set of keys currently locked.
pub struct LockTable {
    held: Vec<String>,
}

impl LockTable {
    /// No key is ever held twice.
    pub closed spec fn wf(&self) -> bool {
        forall|i: int, j: int|
            0 <= i < j < self.held@.len() ==> (#[trigger] self.held@[i])@ != (
            #[trigger] self.held@[j])@
    }

    /// Whether `k` is currently locked.
    pub closed spec fn locked(&self, k: Seq<char>) -> bool {
        exists|i: int| 0 <= i < self.held@.len() && (#[trigger] self.held@[i])@ == k
    }

    /// An empty table: nothing is locked.
    pub fn new() -> (r: LockTable)
        ensures
            r.wf(),
            forall|k: Seq<char>| !r.locked(k),
    {
        LockTable { held: Vec::new() }
    }

    /// Atomically takes the lock on `key` if it is free; returns false, and
    /// changes nothing, if some other request holds it.
    pub fn try_lock(&mut self, key: &str) -> (r: bool)
        requires
            old(self).wf(),
        ensures
            final(self).wf(),
            r == !old(self).locked(key@),
            final(self).locked(key@),
            forall|k: Seq<char>|
                k != key@ ==> final(self).locked(k) == old(self).locked(k),
    {
        let n = self.held.len();
        let mut i: usize = 0;
        while i < n
            invariant
                i <= n,
                self.wf(),
                self.held@ == old(self).held@,
                n == self.held@.len(),
                forall|m: int| 0 <= m < i ==> (#[trigger] self.held@[m])@ != key@,
            decreases n - i,
        {
            if str_equal(self.held[i].as_str(), key) {
                return false;
            }
            i += 1;
        }
        assert(!self.locked(key@));
        let ghost before = self.held@;
        self.held.push(key.to_owned());
        proof {
            assert(self.held@[before.len() as int]@ == key@);
            assert forall|k: Seq<char>| k != key@ implies self.locked(k) == old(
                self,
            ).locked(k) by {
                if old(self).locked(k) {
                    let m = choose|m: int|
                        0 <= m < before.len() && (#[trigger] before[m])@ == k;
                    assert(self.held@[m]@ == k);
                }
                if self.locked(k) {
                    let m = choose|m: int|
                        0 <= m < self.held@.len() && (#[trigger] self.held@[m])@ == k;
                    assert(m < before.len());
                    assert(before[m]@ == k);
                }
            }
        }
        true
    }

    /// Releases the lock on `key`; a no-op when it is not held.
    pub fn unlock(&mut self, key: &str)
        requires
            old(self).wf(),
        ensures
            final(self).wf(),
            !final(self).locked(key@),
            forall|k: Seq<char>|
                k != key@ ==> final(self).locked(k) == old(self).locked(k),
    {
        let n = self.held.len();
        let mut i: usize = 0;
        while i < n
            invariant
                i <= n,
                self.wf(),
                self.held@ == old(self).held@,
                n == self.held@.len(),
                forall|m: int| 0 <= m < i ==> (#[trigger] self.held@[m])@ != key@,
            decreases n - i,
        {
            if str_equal(self.held[i].as_str(), key) {
                let ghost before = self.held@;
                let _ = self.held.remove(i);
                proof {
                    assert(forall|m: int|
                        0 <= m < self.held@.len() ==> (#[trigger] self.held@[m]) == if m < i {
                            before[m]
                        } else {
                            before[m + 1]
                        });
                    assert forall|k: Seq<char>| k != key@ implies self.locked(k) == old(
                        self,
                    ).locked(k) by {
                        if old(self).locked(k) {
                            let m = choose|m: int|
                                0 <= m < before.len() && (#[trigger] before[m])@ == k;
                            assert(before[m]@ != key@);
                            assert(m != i);
                            if m < i {
                                assert(self.held@[m]@ == k);
                            } else {
                                assert(self.held@[m - 1]@ == k);
                            }
                        }
                        if self.locked(k) {
                            let m = choose|m: int|
                                0 <= m < self.held@.len() && (#[trigger] self.held@[m])@ == k;
                            if m < i {
                                assert(before[m]@ == k);
                            } else {
                                assert(before[m + 1]@ == k);
                            }
                        }
                    }
                    assert(!self.locked(key@)) by {
                        if self.locked(key@) {
                            let m = choose|m: int|
                                0 <= m < self.held@.len() && (#[trigger] self.held@[m])@
                                    == key@;
                            if m < i {
                                assert(before[m]@ == key@);
                            } else {
                                assert(before[m + 1]@ == key@);
                                assert(before[i as int]@ == key@);
                            }
                        }
                    }
                }
                return ;
            }
            i += 1;
        }
        assert(!self.locked(key@));
    }
}

} // verus!
