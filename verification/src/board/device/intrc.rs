//! The platform-level interrupt controller of the board.
use vstd::prelude::*;

verus! {

/// The interrupt controller: where its registers are and how far they reach.
pub struct InterruptController {
    address: usize,
    size: usize,
}

impl InterruptController {
    pub closed spec fn spec_address(&self) -> usize {
        self.address
    }

    pub closed spec fn spec_size(&self) -> usize {
        self.size
    }

    pub fn new(addr: usize, size: usize) -> (r: Self)
        ensures
            r.spec_address() == addr,
            r.spec_size() == size,
    {
        InterruptController { address: addr, size }
    }

    /// Where the registers start.
    pub fn address(&self) -> (r: usize)
        ensures
            r == self.spec_address(),
    {
        self.address
    }

    /// How many bytes the registers take.
    pub fn size(&self) -> (r: usize)
        ensures
            r == self.spec_size(),
    {
        self.size
    }
}

} // verus!
