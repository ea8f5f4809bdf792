//! Sv39 physical and virtual addresses.
use vstd::prelude::*;

verus! {

/// A physical address.
#[derive(Clone, Copy, PartialEq, Eq, PartialOrd, Ord, Structural)]
pub struct PhysicalAddress(pub u64);

/// A virtual address.
#[derive(Clone, Copy, PartialEq, Eq, PartialOrd, Ord, Structural)]
pub struct VirtualAddress(pub u64);

proof fn lemma_vpn_masks(v: u64)
    by (bit_vector)
    ensures
        v & 0x1FF000u64 == ((v >> 12u64) & 0x1FFu64) << 12u64,
        v & 0x3FE00000u64 == ((v >> 21u64) & 0x1FFu64) << 21u64,
        v & 0x7FC0000000u64 == ((v >> 30u64) & 0x1FFu64) << 30u64,
        v & 0xFFFu64 == v % 4096,
        ((v >> 12u64) & 0x1FFu64) << 12u64 == (v / 0x1000 % 512) * 0x1000,
        ((v >> 21u64) & 0x1FFu64) << 21u64 == (v / 0x20_0000 % 512) * 0x20_0000,
        ((v >> 30u64) & 0x1FFu64) << 30u64 == (v / 0x4000_0000 % 512) * 0x4000_0000,
{
}

impl VirtualAddress {
    /// The three Sv39 virtual page number fields, each left in place: the level-0
    /// index times 4 KiB, the level-1 index times 2 MiB, the level-2 index times 1 GiB.
    pub fn vpn(&self) -> (r: (u64, u64, u64))
        ensures
            r.0 == (self.0 / 0x1000 % 512) * 0x1000,
            r.1 == (self.0 / 0x20_0000 % 512) * 0x20_0000,
            r.2 == (self.0 / 0x4000_0000 % 512) * 0x4000_0000,
    {
        proof {
            lemma_vpn_masks(self.0);
        }
        (self.0 & 0x1FF000, self.0 & 0x3FE00000, self.0 & 0x7FC0000000)
    }

    /// The offset within the 4 KiB page.
    pub fn offset(&self) -> (r: u64)
        ensures
            r == self.0 % 4096,
    {
        proof {
            lemma_vpn_masks(self.0);
        }
        self.0 & 0xFFF
    }
}

impl From<u64> for PhysicalAddress {
    fn from(val: u64) -> (r: Self)
        ensures
            r.0 == val,
    {
        PhysicalAddress(val)
    }
}

impl vstd::std_specs::convert::FromSpecImpl<u64> for PhysicalAddress {
    open spec fn obeys_from_spec() -> bool {
        true
    }

    open spec fn from_spec(v: u64) -> PhysicalAddress {
        PhysicalAddress(v)
    }
}

impl From<PhysicalAddress> for u64 {
    fn from(val: PhysicalAddress) -> (r: Self)
        ensures
            r == val.0,
    {
        val.0
    }
}

impl vstd::std_specs::convert::FromSpecImpl<PhysicalAddress> for u64 {
    open spec fn obeys_from_spec() -> bool {
        true
    }

    open spec fn from_spec(v: PhysicalAddress) -> u64 {
        v.0
    }
}

impl From<u64> for VirtualAddress {
    fn from(val: u64) -> (r: Self)
        ensures
            r.0 == val,
    {
        VirtualAddress(val)
    }
}

impl vstd::std_specs::convert::FromSpecImpl<u64> for VirtualAddress {
    open spec fn obeys_from_spec() -> bool {
        true
    }

    open spec fn from_spec(v: u64) -> VirtualAddress {
        VirtualAddress(v)
    }
}

impl From<VirtualAddress> for u64 {
    fn from(val: VirtualAddress) -> (r: Self)
        ensures
            r == val.0,
    {
        val.0
    }
}

impl vstd::std_specs::convert::FromSpecImpl<VirtualAddress> for u64 {
    open spec fn obeys_from_spec() -> bool {
        true
    }

    open spec fn from_spec(v: VirtualAddress) -> u64 {
        v.0
    }
}

} // verus!
