//! How much memory a process uses, by region.
use vstd::prelude::*;

verus! {

/// Pages of memory a process holds, by region.
#[derive(Debug, Clone, Copy, PartialEq, Eq, Structural)]
pub struct MemoryUsage {
    pub page: usize,
    pub program: usize,
    pub heap: usize,
    pub stack: usize,
}

impl MemoryUsage {
    /// No memory in any region.
    pub fn new() -> (r: MemoryUsage)
        ensures
            r == (MemoryUsage { page: 0, program: 0, heap: 0, stack: 0 }),
    {
        Self { page: 0, program: 0, heap: 0, stack: 0 }
    }
}

} // verus!
