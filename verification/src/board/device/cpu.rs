//! The processors of the board.
use vstd::prelude::*;

verus! {

/// The address translation a processor offers.
#[derive(Debug, Clone, Copy, PartialEq, Eq, Structural)]
pub enum MmuType {
    Bare,
    Sv32,
    Sv39,
    Sv48,
    Sv57,
}

impl MmuType {
    /// The width of the virtual addresses the translation takes, as its name gives
    /// it (Sv39: 39 bits); 0 where there is no translation.
    pub open spec fn address_bits(self) -> nat {
        match self {
            MmuType::Bare => 0,
            MmuType::Sv32 => 32,
            MmuType::Sv39 => 39,
            MmuType::Sv48 => 48,
            MmuType::Sv57 => 57,
        }
    }
}

/// A processor: its hart id, clock frequency and address translation.
pub struct Cpu {
    id: usize,
    frequency: usize,
    mmu: MmuType,
}

impl Cpu {
    pub closed spec fn spec_id(&self) -> usize {
        self.id
    }

    pub closed spec fn spec_freq(&self) -> usize {
        self.frequency
    }

    pub closed spec fn spec_mmu(&self) -> MmuType {
        self.mmu
    }

    pub fn new(id: usize, freq: usize, mmu_type: MmuType) -> (r: Cpu)
        ensures
            r.spec_id() == id,
            r.spec_freq() == freq,
            r.spec_mmu() == mmu_type,
    {
        Cpu { id, frequency: freq, mmu: mmu_type }
    }

    /// The hart id.
    pub fn id(&self) -> (r: usize)
        ensures
            r == self.spec_id(),
    {
        self.id
    }

    /// The clock frequency.
    pub fn freq(&self) -> (r: usize)
        ensures
            r == self.spec_freq(),
    {
        self.frequency
    }

    /// The address translation.
    pub fn mmu(&self) -> (r: MmuType)
        ensures
            r == self.spec_mmu(),
    {
        self.mmu
    }
}

} // verus!
