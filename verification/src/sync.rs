//! Locks that live inside the data they guard. The spinning locks themselves work on
//! atomics and stay outside this library; what is here is their common interface and
//! the lock for a single hart, which never has to wait.
use vstd::prelude::*;

pub mod optimistic;

verus! {

/// A lock held inside the value it guards.
pub trait InteriorLock {
    fn is_locked(&self) -> bool;

    fn lock(&mut self);

    fn try_lock(&mut self) -> bool;

    fn unlock(&mut self);
}

/// A lock that readers share and a writer holds alone.
pub trait InteriorReadWriteLock: InteriorLock {
    fn lock_mut(&mut self);

    fn try_lock_mut(&mut self) -> bool;
}

} // verus!
