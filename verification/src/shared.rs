//! Shared-bound coordinator: a single lock-protected cell holding the
//! global incumbent objective value and the solution witnessing it.
//! Workers write it when they find a strictly better feasible solution;
//! whoever composes workers — the solver's own dispatcher, or a caller
//! running workers on its own threads — reads it to tighten the seed it
//! hands the next worker and to fold a better incumbent into the
//! reduction.  The lock's invariant is that every published value other
//! than the positive-infinity sentinel is the exact objective of the
//! feasible witness stored beside it, so a reader may adopt what it
//! finds without further checks; the cell only ever tightens, and a
//! stale or missed read merely costs extra work.
use vstd::prelude::*;
use vstd::rwlock::{RwLock, RwLockPredicate};

use crate::model::{feasible, objective_value, ProblemView};

verus! {

/// The cell's contents: the best objective published so far and the
/// solution achieving it.  `i64::MAX` stands for "nothing found yet".
pub struct Incumbent {
    pub value: i64,
    pub witness: Vec<u8>,
}

/// The lock invariant, fixed at construction: a finite value is the
/// exact objective of the feasible witness beside it.
pub struct IncumbentPred {
    pub p: ProblemView,
}

impl RwLockPredicate<Incumbent> for IncumbentPred {
    open spec fn inv(self, v: Incumbent) -> bool {
        v.value == i64::MAX || (feasible(self.p, v.witness@) && objective_value(self.p, v.witness@)
            == v.value)
    }
}

/// The coordinator handle shared by all workers of one solve call.
pub struct SharedBound {
    lock: RwLock<Incumbent, IncumbentPred>,
}

impl SharedBound {
    /// The problem whose incumbents this cell may hold.
    pub closed spec fn problem(&self) -> ProblemView {
        self.lock.pred().p
    }

    /// A fresh cell holding the sentinel: no incumbent yet.
    pub fn new(Ghost(p): Ghost<ProblemView>) -> (r: SharedBound)
        ensures
            r.problem() == p,
    {
        SharedBound {
            lock: RwLock::new(
                Incumbent { value: i64::MAX, witness: Vec::new() },
                Ghost(IncumbentPred { p }),
            ),
        }
    }

    /// Reads the cell; if it holds a value strictly better than
    /// `current`, hands back that value and a copy of its witness.
    pub fn read_if_better(&self, current: i64) -> (r: Option<(i64, Vec<u8>)>)
        ensures
            r matches Some(b) ==> b.0 < current && feasible(self.problem(), b.1@)
                && objective_value(self.problem(), b.1@) == b.0,
    {
        let handle = self.lock.acquire_read();
        let result = if handle.borrow().value < current {
            let found = handle.borrow();
            Some((found.value, crate::worker::copy_bits(&found.witness)))
        } else {
            None
        };
        handle.release_read();
        result
    }

    /// Publishes `value` with its witness when it strictly beats what
    /// the cell holds; otherwise the cell is left as it was, so the cell
    /// is monotone.
    pub fn offer(&self, value: i64, witness: &Vec<u8>)
        requires
            value != i64::MAX ==> feasible(self.problem(), witness@) && objective_value(
                self.problem(),
                witness@,
            ) == value,
    {
        let (current, write_handle) = self.lock.acquire_write();
        if value < current.value {
            write_handle.release_write(
                Incumbent { value, witness: crate::worker::copy_bits(witness) },
            );
        } else {
            write_handle.release_write(current);
        }
    }
}

} // verus!
