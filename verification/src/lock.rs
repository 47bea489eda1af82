//! Single-writer locking, keyed by repository identity.
//!
//! A `LockTable` is an explicit record of which repository identities are
//! held, owned by whoever opens repositories; there is no ambient global
//! table.  The state machine per identity is unlocked, then locked by a
//! holder, then unlocked again on release.
use vstd::prelude::*;

use crate::bytes::{bytes_eq, read_bytes};
use crate::errors::RepoError;

verus! {

/// How lock contention is handled when a repository is opened.
#[derive(Debug, Clone, Copy, PartialEq, Eq, Structural)]
pub enum LockStrategy {
    /// Fail immediately with `AlreadyLocked` if the repository is locked.
    Abort,
}

/// The lock records for every repository opened through one table.
pub struct LockTable {
    held: Vec<Vec<u8>>,
}

impl LockTable {
    /// Whether the identity `id` is currently locked.
    pub closed spec fn holds(&self, id: Seq<u8>) -> bool {
        exists|i: int| 0 <= i < self.held@.len() && (#[trigger] self.held@[i])@ == id
    }

    /// A table with nothing locked.
    pub fn new() -> (r: LockTable)
        ensures
            forall|id: Seq<u8>| !r.holds(id),
    {
        LockTable { held: Vec::new() }
    }

    /// Whether `id` is locked.
    pub fn is_locked(&self, id: &Vec<u8>) -> (r: bool)
        ensures
            r == self.holds(id@),
    {
        let n = self.held.len();
        let mut i: usize = 0;
        while i < n
            invariant
                i <= n,
                n == self.held@.len(),
                forall|j: int| 0 <= j < i ==> (#[trigger] self.held@[j])@ != id@,
            decreases n - i,
        {
            if bytes_eq(self.held[i].as_slice(), id.as_slice()) {
                return true;
            }
            i = i + 1;
        }
        false
    }

    /// Take the lock on `id`.  Under the abort strategy this succeeds if
    /// and only if `id` is not already locked; contention is
    /// `AlreadyLocked`, never a silent wait.
    pub fn acquire(&mut self, id: &Vec<u8>, strategy: LockStrategy) -> (r: Result<(), RepoError>)
        ensures
            r is Ok <==> !old(self).holds(id@),
            r is Ok ==> final(self).holds(id@),
            r matches Err(e) ==> e == RepoError::AlreadyLocked && *final(self) == *old(self),
            forall|x: Seq<u8>| x != id@ ==> final(self).holds(x) == old(self).holds(x),
    {
        match strategy {
            LockStrategy::Abort => {
                if self.is_locked(id) {
                    return Err(RepoError::AlreadyLocked);
                }
                let k = read_bytes(id, 0, id.len());
                proof {
                    assert(k@ =~= id@);
                }
                let ghost oldheld = self.held@;
                self.held.push(k);
                proof {
                    assert(self.held@[self.held@.len() - 1]@ == id@);
                    assert forall|x: Seq<u8>| x != id@ implies self.holds(x) == old(self).holds(
                        x,
                    ) by {
                        if self.holds(x) {
                            let i = choose|i: int|
                                0 <= i < self.held@.len() && (#[trigger] self.held@[i])@ == x;
                            assert(oldheld[i]@ == x);
                        }
                        if old(self).holds(x) {
                            let i = choose|i: int|
                                0 <= i < oldheld.len() && (#[trigger] oldheld[i])@ == x;
                            assert(self.held@[i]@ == x);
                        }
                    }
                }
                Ok(())
            },
        }
    }

    /// Release the lock on `id`; releasing an unheld lock is a no-op.
    pub fn release(&mut self, id: &Vec<u8>)
        ensures
            !final(self).holds(id@),
            forall|x: Seq<u8>| x != id@ ==> final(self).holds(x) == old(self).holds(x),
    {
        let n = self.held.len();
        let mut kept: Vec<Vec<u8>> = Vec::new();
        let mut i: usize = 0;
        while i < n
            invariant
                i <= n,
                n == self.held@.len(),
                forall|j: int| 0 <= j < kept@.len() ==> (#[trigger] kept@[j])@ != id@,
                forall|j: int|
                    0 <= j < kept@.len() ==> exists|m: int|
                        0 <= m < i && (#[trigger] kept@[j])@ == self.held@[m]@,
                forall|m: int|
                    0 <= m < i && (#[trigger] self.held@[m])@ != id@ ==> exists|j: int|
                        0 <= j < kept@.len() && (#[trigger] kept@[j])@ == self.held@[m]@,
            decreases n - i,
        {
            let ghost oldkept = kept@;
            if !bytes_eq(self.held[i].as_slice(), id.as_slice()) {
                let k = read_bytes(&self.held[i], 0, self.held[i].len());
                proof {
                    assert(k@ =~= self.held@[i as int]@);
                }
                kept.push(k);
                proof {
                    assert(forall|j: int| 0 <= j < oldkept.len() ==> kept@[j] == oldkept[j]);
                    assert(kept@[kept@.len() - 1]@ == self.held@[i as int]@);
                }
            }
            proof {
                assert forall|m: int|
                    0 <= m < i + 1 && (#[trigger] self.held@[m])@ != id@ implies exists|j: int|
                    0 <= j < kept@.len() && (#[trigger] kept@[j])@ == self.held@[m]@ by {
                    if m < i {
                        let j = choose|j: int|
                            0 <= j < oldkept.len() && (#[trigger] oldkept[j])@ == self.held@[m]@;
                        assert(kept@[j]@ == self.held@[m]@);
                    } else {
                        assert(kept@[kept@.len() - 1]@ == self.held@[m]@);
                    }
                }
            }
            i = i + 1;
        }
        let ghost oldheld = self.held@;
        self.held = kept;
        proof {
            assert forall|x: Seq<u8>| x != id@ implies self.holds(x) == old(self).holds(x) by {
                if self.holds(x) {
                    let j = choose|j: int|
                        0 <= j < self.held@.len() && (#[trigger] self.held@[j])@ == x;
                }
                if old(self).holds(x) {
                    let m = choose|m: int|
                        0 <= m < oldheld.len() && (#[trigger] oldheld[m])@ == x;
                }
            }
        }
    }
}

} // verus!
