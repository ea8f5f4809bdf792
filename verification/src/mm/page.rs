//! Page table entries: the RISC-V entry layout, its flag bits and the operations on
//! a single entry.
use vstd::prelude::*;
use vstd::arithmetic::power2::pow2;
use crate::mm::frame::{FramePool, FrameTracker, frame_range, frames_below};

verus! {

pub const PAGE_SIZE: usize = 4096;
pub const PAGE_BITS: usize = 12;

/// The flag bits of a page table entry, and the combinations the kernel uses.
#[derive(Debug, Clone, Copy, PartialEq, Eq, Structural)]
pub enum PageEntryFlag {
    Valid,
    Readable,
    Writeable,
    Executable,
    User,
    Global,
    Accessed,
    Dirty,
    Cow,
    CowWriteable,
    PrefabKernelDevice,
    PrefabKernelProgram,
    PrefabKernelTrapframe,
    PrefabKernelTrampoline,
    PrefabUserStack,
    PrefabUserTrapframe,
    PrefabUserTrampoline,
}

pub const FLAG_VALID: u64 = 0b1;
pub const FLAG_READABLE: u64 = 0b10;
pub const FLAG_WRITEABLE: u64 = 0b100;
pub const FLAG_EXECUTABLE: u64 = 0b1000;
pub const FLAG_USER: u64 = 0b1_0000;
pub const FLAG_GLOBAL: u64 = 0b10_0000;
pub const FLAG_ACCESSED: u64 = 0b100_0000;
pub const FLAG_DIRTY: u64 = 0b1000_0000;
pub const FLAG_COW: u64 = 0b1_0000_0000;
pub const FLAG_COW_WRITEABLE: u64 = 0b10_0000_0000;
/// Every flag bit an entry can carry.
pub const FLAGS_FULL: u64 = 0b11_1111_1111;

/// The bits of each flag or combination.
pub open spec fn flag_bits(f: PageEntryFlag) -> u64 {
    match f {
        PageEntryFlag::Valid => 0b1,
        PageEntryFlag::Readable => 0b10,
        PageEntryFlag::Writeable => 0b100,
        PageEntryFlag::Executable => 0b1000,
        PageEntryFlag::User => 0b1_0000,
        PageEntryFlag::Global => 0b10_0000,
        PageEntryFlag::Accessed => 0b100_0000,
        PageEntryFlag::Dirty => 0b1000_0000,
        PageEntryFlag::Cow => 0b1_0000_0000,
        PageEntryFlag::CowWriteable => 0b10_0000_0000,
        // valid, readable, writeable, accessed, dirty
        PageEntryFlag::PrefabKernelDevice => 0b1100_0111,
        // valid, readable, writeable, executable, accessed, dirty
        PageEntryFlag::PrefabKernelProgram => 0b1100_1111,
        PageEntryFlag::PrefabKernelTrapframe => 0b1100_0111,
        PageEntryFlag::PrefabKernelTrampoline => 0b1100_1111,
        // valid, readable, writeable, user
        PageEntryFlag::PrefabUserStack => 0b1_0111,
        PageEntryFlag::PrefabUserTrapframe => 0b1100_0111,
        PageEntryFlag::PrefabUserTrampoline => 0b1100_1111,
    }
}

impl PageEntryFlag {
    /// The bits of this flag or combination.
    pub fn bits(&self) -> (r: u64)
        ensures
            r == flag_bits(*self),
            r & !FLAGS_FULL == 0,
    {
        let r: u64 = match self {
            PageEntryFlag::Valid => FLAG_VALID,
            PageEntryFlag::Readable => FLAG_READABLE,
            PageEntryFlag::Writeable => FLAG_WRITEABLE,
            PageEntryFlag::Executable => FLAG_EXECUTABLE,
            PageEntryFlag::User => FLAG_USER,
            PageEntryFlag::Global => FLAG_GLOBAL,
            PageEntryFlag::Accessed => FLAG_ACCESSED,
            PageEntryFlag::Dirty => FLAG_DIRTY,
            PageEntryFlag::Cow => FLAG_COW,
            PageEntryFlag::CowWriteable => FLAG_COW_WRITEABLE,
            PageEntryFlag::PrefabKernelDevice => FLAG_VALID | FLAG_READABLE | FLAG_WRITEABLE | FLAG_ACCESSED | FLAG_DIRTY,
            PageEntryFlag::PrefabKernelProgram => FLAG_VALID | FLAG_READABLE | FLAG_WRITEABLE | FLAG_EXECUTABLE | FLAG_ACCESSED | FLAG_DIRTY,
            PageEntryFlag::PrefabKernelTrapframe => FLAG_VALID | FLAG_READABLE | FLAG_WRITEABLE | FLAG_ACCESSED | FLAG_DIRTY,
            PageEntryFlag::PrefabKernelTrampoline => FLAG_VALID | FLAG_READABLE | FLAG_WRITEABLE | FLAG_EXECUTABLE | FLAG_ACCESSED | FLAG_DIRTY,
            PageEntryFlag::PrefabUserStack => FLAG_VALID | FLAG_READABLE | FLAG_WRITEABLE | FLAG_USER,
            PageEntryFlag::PrefabUserTrapframe => FLAG_VALID | FLAG_READABLE | FLAG_WRITEABLE | FLAG_ACCESSED | FLAG_DIRTY,
            PageEntryFlag::PrefabUserTrampoline => FLAG_VALID | FLAG_READABLE | FLAG_WRITEABLE | FLAG_EXECUTABLE | FLAG_ACCESSED | FLAG_DIRTY,
        };
        assert(FLAG_VALID | FLAG_READABLE | FLAG_WRITEABLE | FLAG_ACCESSED | FLAG_DIRTY == 0b1100_0111u64
            && FLAG_VALID | FLAG_READABLE | FLAG_WRITEABLE | FLAG_EXECUTABLE | FLAG_ACCESSED | FLAG_DIRTY == 0b1100_1111u64
            && FLAG_VALID | FLAG_READABLE | FLAG_WRITEABLE | FLAG_USER == 0b1_0111u64) by (bit_vector);
        assert(r & !FLAGS_FULL == 0) by (bit_vector)
            requires
                r == 1u64 || r == 2u64 || r == 4u64 || r == 8u64 || r == 16u64 || r == 32u64 || r == 64u64
                || r == 128u64 || r == 256u64 || r == 512u64 || r == 0b1100_0111u64 || r == 0b1100_1111u64
                || r == 0b1_0111u64;
        r
    }
}

/// A set of flags, as the bits of an entry: a value with no bit outside
/// [`FLAGS_FULL`].
pub open spec fn is_flag_set(bits: u64) -> bool {
    bits & !FLAGS_FULL == 0
}

/// Whether `v` fits the primitive an entry is stored in (32 or 64 bits wide).
pub open spec fn fits(v: u64, wide: bool) -> bool {
    wide || v <= 0xFFFF_FFFF
}

/// A page table entry stored in an unsigned integer (`u64` when `WIDE`, else `u32`).
/// `LENGTH` is the number of low bits that hold the entry (flags and page number),
/// `DEPTH` the number of table levels and `SIZE` the index bits per level.
pub struct PageTableEntryPrimitive<const WIDE: bool, const LENGTH: usize, const DEPTH: usize, const SIZE: usize>(u64);

/// Sv32: 32-bit entries, two levels of 10 index bits.
pub type PageTableEntry32 = PageTableEntryPrimitive<false, 34, 2, 10>;
/// Sv39: 64-bit entries, three levels of 9 index bits.
pub type PageTableEntry39 = PageTableEntryPrimitive<true, 56, 3, 9>;
/// Sv48: 64-bit entries, four levels of 9 index bits.
pub type PageTableEntry48 = PageTableEntryPrimitive<true, 56, 4, 9>;
/// Sv57: 64-bit entries, five levels of 9 index bits.
pub type PageTableEntry57 = PageTableEntryPrimitive<true, 56, 5, 9>;
/// The entry format the kernel uses.
pub type PageEntryImpl = PageTableEntry39;

proof fn lemma_shift_add_no_overflow(x: u64, f: u64)
    by (bit_vector)
    requires
        f & !0b11_1111_1111u64 == 0,
    ensures
        (x << 10u64) as int + f as int <= u64::MAX,
        (x << 10u64) + f == (x << 10u64) | f,
        ((x << 10u64) | f) & 0b11_1111_1111u64 == f,
{
}

/// The fields of an entry written from page number `p` and flags `f`, where `p` has
/// fewer than `l - 10` bits.
proof fn lemma_entry_fields(p: u64, f: u64, l: u64)
    by (bit_vector)
    requires
        f & !0b11_1111_1111u64 == 0,
        10 < l < 64,
        p < 1u64 << (l - 10) as u64,
    ensures
        ((((p << 10u64) | f) & (((1u64 << l) - 1) as u64)) >> 10u64) == p,
        ((p << 10u64) | f) & 0b11_1111_1111u64 == f,
        ((p << 10u64) | f) & 1u64 == f & 1u64,
        ((p << 10u64) | f) & 0b1110u64 == f & 0b1110u64,
        l <= 32 ==> ((p << 10u64) | f) <= 0xFFFF_FFFFu64,
{
}

/// A 32-bit entry read with a mask of `len >= 32` bits gives back its page number.
proof fn lemma_entry_narrow(p: u64, f: u64, len: u64)
    by (bit_vector)
    requires
        f & !0b11_1111_1111u64 == 0,
        32 <= len < 64,
        p < 1u64 << 22u64,
    ensures
        ((((p << 10u64) | f) & (((1u64 << len) - 1) as u64)) >> 10u64) == p,
{
}

/// Setting flag bits keeps the page number, adds to the flags and keeps a 32-bit
/// value within 32 bits.
proof fn lemma_or_flags(v: u64, flags: u64, l: u64)
    by (bit_vector)
    requires
        flags & !0b11_1111_1111u64 == 0,
        10 < l < 64,
    ensures
        (((v | flags) & (((1u64 << l) - 1) as u64)) >> 10u64) == ((v & (((1u64 << l) - 1) as u64)) >> 10u64),
        (v | flags) & 0b11_1111_1111u64 == (v & 0b11_1111_1111u64) | flags,
        ((v | flags) & 1u64 != 0) == (v & 1u64 != 0 || flags & 1u64 != 0),
        ((v | flags) & 0b1110u64 != 0) == (v & 0b1110u64 != 0 || flags & 0b1110u64 != 0),
        v <= 0xFFFF_FFFFu64 ==> (v | flags) <= 0xFFFF_FFFFu64,
{
}

/// The zero entry is not valid.
proof fn lemma_zero_entry()
    by (bit_vector)
    ensures
        0u64 & 1u64 == 0,
{
}

/// The readable, writeable and executable bits of a flag set are a flag set.
proof fn lemma_rwx(flags: u64)
    by (bit_vector)
    ensures
        FLAG_READABLE | FLAG_WRITEABLE | FLAG_EXECUTABLE == 0b1110u64,
        (flags & 0b1110u64) & !0b11_1111_1111u64 == 0,
{
}

impl<const WIDE: bool, const LENGTH: usize, const DEPTH: usize, const SIZE: usize>
    PageTableEntryPrimitive<WIDE, LENGTH, DEPTH, SIZE> {
    /// The raw value of the entry.
    pub closed spec fn value(&self) -> u64 {
        self.0
    }

    /// The entry stored in the primitive holds the value.
    pub closed spec fn wf(&self) -> bool {
        fits(self.0, WIDE)
    }

    /// The valid bit is set.
    pub open spec fn spec_valid(&self) -> bool {
        self.value() & 1u64 != 0
    }

    /// One of readable, writeable, executable is set: the entry maps a page.
    pub open spec fn spec_leaf(&self) -> bool {
        self.value() & 0b1110u64 != 0
    }

    /// The flag bits.
    pub open spec fn spec_flags(&self) -> u64 {
        self.value() & FLAGS_FULL
    }

    /// The physical page number held in bits 10 up to `LENGTH`.
    pub open spec fn spec_ppn(&self) -> u64 {
        (self.value() & (((1u64 << LENGTH as u64) - 1) as u64)) >> 10u64
    }

    /// The parameters describe one of the RISC-V formats: 64-bit entries with nine
    /// index bits per level, or 32-bit entries with ten, and a virtual page number of
    /// `DEPTH * SIZE` bits that fits a `usize`.
    pub open spec fn format_ok() -> bool {
        &&& WIDE ==> SIZE == 9 && 10 < LENGTH < 64
        &&& !WIDE ==> SIZE == 10 && 32 <= LENGTH < 64
        &&& 1 <= DEPTH
        &&& DEPTH * SIZE + PAGE_BITS < usize::BITS
    }

    /// The physical page numbers an entry can hold are those below this bound.
    pub open spec fn ppn_bound() -> u64 {
        if WIDE {
            1u64 << (LENGTH - 10) as u64
        } else {
            1u64 << 22u64
        }
    }

    /// The bound on the physical page numbers an entry can hold.
    pub fn ppn_limit() -> (r: u64)
        requires
            Self::format_ok(),
        ensures
            r == Self::ppn_bound(),
    {
        if WIDE {
            let l = (LENGTH - 10) as u64;
            1u64 << l
        } else {
            1u64 << 22u64
        }
    }

    /// An entry with raw value `v`, which must fit the primitive.
    pub fn from_bits(v: u64) -> (r: Self)
        requires
            fits(v, WIDE),
        ensures
            r.value() == v,
            r.wf(),
    {
        PageTableEntryPrimitive(v)
    }

    /// The raw value of the entry.
    pub fn bits(&self) -> (r: u64)
        ensures
            r == self.value(),
    {
        self.0
    }

    /// The size of the lower half of the virtual address space, in bytes.
    pub fn space_size() -> (r: usize)
        requires
            DEPTH * SIZE + PAGE_BITS - 1 < usize::BITS,
        ensures
            r == 1usize << (DEPTH * SIZE + PAGE_BITS - 1) as usize,
    {
        1usize << (DEPTH * SIZE + PAGE_BITS - 1)
    }

    /// The highest address: all bits set.
    pub fn top_address() -> (r: usize)
        ensures
            r == !0usize,
    {
        let zero: u64 = 0;
        let all = !zero;
        let r = #[verifier::truncate] (all as usize);
        assert(r == !0usize) by (bit_vector)
            requires all == !zero, zero == 0u64, r == all as usize;
        r
    }

    /// Whether the entry points to a page (some of readable, writeable, executable is
    /// set) rather than to a next-level table.
    pub fn is_leaf(&self) -> (r: bool)
        ensures
            r == (self.value() & 0b1110u64 != 0),
    {
        self.0 & 0b1110 != 0
    }

    /// Whether the valid bit is set.
    pub fn is_valid(&self) -> (r: bool)
        ensures
            r == (self.value() & 1u64 != 0),
    {
        self.0 & 0b1 != 0
    }

    /// Sets the given flags, unless the result does not fit the primitive.
    pub fn set_flags(&mut self, flags: u64)
        requires
            is_flag_set(flags),
        ensures
            fits(old(self).value() | flags, WIDE) ==> final(self).value() == old(self).value() | flags,
            !fits(old(self).value() | flags, WIDE) ==> final(self).value() == old(self).value(),
            old(self).wf() && Self::format_ok() ==> {
                &&& final(self).wf()
                &&& final(self).spec_ppn() == old(self).spec_ppn()
                &&& final(self).spec_flags() == old(self).spec_flags() | flags
                &&& final(self).spec_valid() == (old(self).spec_valid() || flags & 1u64 != 0)
                &&& final(self).spec_leaf() == (old(self).spec_leaf() || flags & 0b1110u64 != 0)
            },
    {
        proof {
            if old(self).wf() && Self::format_ok() {
                lemma_or_flags(self.0, flags, LENGTH as u64);
            }
        }
        let pre = self.0 | flags;
        if WIDE || pre <= 0xFFFF_FFFF {
            self.0 = pre;
        }
    }

    /// Clears the given flags.
    pub fn clear_flags(&mut self, flags: u64)
        requires
            is_flag_set(flags),
        ensures
            final(self).value() == old(self).value() & !flags,
    {
        assert(!0u64 == u64::MAX && !0u64 - flags == !flags) by (bit_vector);
        let pre = self.0 & (!0u64 - flags);
        proof {
            let v = self.0;
            if !WIDE {
                assert(v <= 0xFFFF_FFFF ==> v & !flags <= 0xFFFF_FFFF) by (bit_vector);
            }
        }
        self.0 = pre;
    }

    /// Whether any of the given flags is set.
    pub fn has_flags(&self, flags: u64) -> (r: bool)
        ensures
            r == (self.value() & flags != 0),
    {
        self.0 & flags != 0
    }

    /// The flag bits of the entry.
    pub fn flags(&self) -> (r: u64)
        ensures
            r == self.value() & FLAGS_FULL,
            is_flag_set(r),
    {
        let v = self.0;
        let r = v & FLAGS_FULL;
        assert(r & !FLAGS_FULL == 0) by (bit_vector)
            requires r == v & 0b11_1111_1111u64;
        r
    }

    /// The physical page number: bits 10 up to `LENGTH` of the entry.
    pub fn physical_page_number(&self) -> (r: usize)
        requires
            LENGTH < 64,
        ensures
            r == (((self.value() & (((1u64 << LENGTH as u64) - 1) as u64)) >> 10u64) as usize),
    {
        let length = LENGTH as u64;
        assert(1u64 << length >= 1) by (bit_vector)
            requires length < 64;
        let mask = (1u64 << length) - 1;
        #[verifier::truncate] (((self.0 & mask) >> 10) as usize)
    }

    /// Points the entry at page `ppn` with the given flags, unless the value does not
    /// fit the primitive.
    pub fn set(&mut self, ppn: usize, flags: u64)
        requires
            is_flag_set(flags),
        ensures
            fits(((ppn as u64) << 10u64) | flags, WIDE) ==> final(self).value() == ((ppn as u64) << 10u64) | flags,
            !fits(((ppn as u64) << 10u64) | flags, WIDE) ==> final(self).value() == old(self).value(),
            Self::format_ok() && (ppn as u64) < Self::ppn_bound() ==> {
                &&& final(self).wf()
                &&& final(self).spec_ppn() == ppn as u64
                &&& final(self).spec_flags() == flags
                &&& final(self).spec_valid() == (flags & 1u64 != 0)
                &&& final(self).spec_leaf() == (flags & 0b1110u64 != 0)
            },
    {
        let p = ppn as u64;
        proof {
            lemma_shift_add_no_overflow(p, flags);
            if Self::format_ok() && p < Self::ppn_bound() {
                let l: u64 = if WIDE { LENGTH as u64 } else { 32u64 };
                if WIDE {
                    assert(Self::ppn_bound() == 1u64 << (l - 10) as u64);
                } else {
                    assert(Self::ppn_bound() == 1u64 << (l - 10) as u64);
                }
                lemma_entry_fields(p, flags, l);
                if !WIDE {
                    let len = LENGTH as u64;
                    lemma_entry_narrow(p, flags, len);
                }
            }
        }
        let pre = (p << 10) + flags;
        if WIDE || pre <= 0xFFFF_FFFF {
            self.0 = pre;
        }
    }

    /// Zeroes the entry.
    pub fn clear(&mut self)
        ensures
            final(self).value() == 0,
    {
        self.0 = 0;
    }
}


/// The flags of an entry that maps a page: valid, and at least one of readable,
/// writeable and executable.
pub open spec fn leaf_flags(f: u64) -> bool {
    &&& is_flag_set(f)
    &&& f & 1u64 != 0
    &&& f & 0b1110u64 != 0
}

/// Why an entry could not be written.
pub enum PageEntryWriteError {
    /// A page is mapped there already: its number and flags.
    LeafExists(usize, u64),
    /// A next-level table is there already.
    BranchExists,
    /// No frame could be had for a new table or page.
    TrackerUnavailable,
}

/// What an entry of a table holds.
pub enum PageEntryType<'t, const WIDE: bool, const LENGTH: usize, const DEPTH: usize, const SIZE: usize> {
    Invalid,
    /// A mapped page: its number and flags.
    Leaf(usize, u64),
    /// A next-level table.
    Branch(&'t PageTable<WIDE, LENGTH, DEPTH, SIZE>),
}

/// A page table: the entries of one table page, the next-level tables its branch
/// entries point to, and the frames it owns, each by entry index.
pub struct PageTable<const WIDE: bool, const LENGTH: usize, const DEPTH: usize, const SIZE: usize> {
    location: usize,
    entries: Vec<PageTableEntryPrimitive<WIDE, LENGTH, DEPTH, SIZE>>,
    branches: Vec<Option<PageTable<WIDE, LENGTH, DEPTH, SIZE>>>,
    managed: Vec<Option<FrameTracker>>,
}

impl<const WIDE: bool, const LENGTH: usize, const DEPTH: usize, const SIZE: usize>
    PageTable<WIDE, LENGTH, DEPTH, SIZE> {
    /// The entry format is one of the RISC-V formats.
    pub open spec fn format_ok() -> bool {
        PageTableEntryPrimitive::<WIDE, LENGTH, DEPTH, SIZE>::format_ok()
    }

    /// The bound on the physical page numbers an entry can hold.
    pub open spec fn ppn_bound() -> u64 {
        PageTableEntryPrimitive::<WIDE, LENGTH, DEPTH, SIZE>::ppn_bound()
    }

    /// The bound on the physical page numbers an entry can hold.
    pub fn ppn_limit() -> (r: u64)
        requires
            Self::format_ok(),
        ensures
            r == Self::ppn_bound(),
    {
        PageTableEntryPrimitive::<WIDE, LENGTH, DEPTH, SIZE>::ppn_limit()
    }

    /// The number of entries in one table page.
    pub open spec fn ec() -> nat {
        if WIDE {
            512
        } else {
            1024
        }
    }

    /// The number of pages one entry of a level-`level` table covers.
    pub open spec fn span(level: nat) -> nat {
        pow2(level * SIZE as nat)
    }

    /// The entry of a level-`level` table that page `vpn` goes through.
    pub open spec fn index_at(vpn: nat, level: nat) -> nat {
        (vpn / Self::span(level)) % Self::ec()
    }

    /// The page the table lives in.
    pub closed spec fn spec_location(&self) -> usize {
        self.location
    }

    /// The entry at `i`.
    pub closed spec fn entry_at(&self, i: nat) -> PageTableEntryPrimitive<WIDE, LENGTH, DEPTH, SIZE> {
        self.entries@[i as int]
    }

    /// The entry at `i` is not valid.
    pub open spec fn is_vacant(&self, i: nat) -> bool {
        !self.entry_at(i).spec_valid()
    }

    /// The next-level table of entry `i`, if any.
    pub closed spec fn table_at(&self, i: nat) -> Option<Self> {
        self.branches@[i as int]
    }

    /// The frame owned through entry `i`, if any.
    pub closed spec fn managed_at(&self, i: nat) -> Option<FrameTracker> {
        self.managed@[i as int]
    }

    /// One table page: as many entries, table slots and frame slots as a page holds,
    /// each entry fitting its primitive, and a table exactly where a valid entry is not
    /// a leaf.
    pub closed spec fn inv(&self) -> bool {
        &&& self.entries@.len() == Self::ec()
        &&& self.branches@.len() == Self::ec()
        &&& self.managed@.len() == Self::ec()
        &&& forall|i: int| 0 <= i < Self::ec() ==> #[trigger] self.entries@[i].wf()
        &&& forall|i: int| 0 <= i < Self::ec() ==>
            (#[trigger] self.branches@[i] is Some <==> (self.entries@[i].spec_valid() && !self.entries@[i].spec_leaf()))
    }

    /// A well-formed table of level `level`: the table and every table below it keep
    /// [`Self::inv`], and only tables above level 0 have next-level tables.
    pub closed spec fn wf(&self, level: nat) -> bool
        decreases level,
    {
        &&& self.inv()
        &&& forall|i: int| 0 <= i < Self::ec() && #[trigger] self.branches@[i] is Some ==>
            level > 0 && self.branches@[i]->0.wf((level - 1) as nat)
    }

    /// Every page the level-`level` table or a table below it maps directly is
    /// aligned to the span of its entry: a leaf at level `l > 0` (a large page) holds
    /// a page number that is a multiple of `span(l)`.
    pub closed spec fn aligned(&self, level: nat) -> bool
        decreases level,
    {
        &&& forall|i: int| 0 <= i < self.entries@.len() && (#[trigger] self.entries@[i]).spec_valid()
            && self.entries@[i].spec_leaf() ==> self.entries@[i].spec_ppn() as nat % Self::span(level) == 0
        &&& forall|i: int| 0 <= i < self.branches@.len() && (#[trigger] self.branches@[i]) is Some && level > 0
            ==> self.branches@[i]->0.aligned((level - 1) as nat)
    }

    /// A table with no valid entry.
    pub closed spec fn is_empty(&self) -> bool {
        &&& self.inv()
        &&& forall|i: int| 0 <= i < Self::ec() ==> !(#[trigger] self.entries@[i]).spec_valid()
    }

    /// Where page `vpn` goes through this level-`level` table: the physical page and
    /// the flags of the entry that maps it, or `None`.
    pub closed spec fn translate(&self, level: nat, vpn: nat) -> Option<(nat, u64)>
        decreases level,
    {
        let i = Self::index_at(vpn, level);
        let e = self.entries@[i as int];
        if !e.spec_valid() {
            None
        } else if e.spec_leaf() {
            Some((e.spec_ppn() as nat + vpn % Self::span(level), e.spec_flags()))
        } else if level == 0 {
            None
        } else {
            match self.branches@[i as int] {
                Some(c) => c.translate((level - 1) as nat, vpn),
                None => None,
            }
        }
    }

    /// The two tables differ at most in the next-level table of entry `index`.
    pub closed spec fn same_but_table(&self, other: &Self, index: nat) -> bool {
        &&& self.location == other.location
        &&& self.entries@ == other.entries@
        &&& self.managed@ == other.managed@
        &&& self.branches@.len() == other.branches@.len()
        &&& forall|i: int| 0 <= i < self.branches@.len() && i != index ==> #[trigger] self.branches@[i] == other.branches@[i]
    }

    /// The two tables differ at most in entry `index` and what hangs off it.
    pub closed spec fn same_but(&self, other: &Self, index: nat) -> bool {
        &&& self.location == other.location
        &&& self.entries@.len() == other.entries@.len()
        &&& self.branches@.len() == other.branches@.len()
        &&& self.managed@.len() == other.managed@.len()
        &&& forall|i: int| 0 <= i < self.entries@.len() && i != index ==> #[trigger] self.entries@[i] == other.entries@[i]
        &&& forall|i: int| 0 <= i < self.branches@.len() && i != index ==> #[trigger] self.branches@[i] == other.branches@[i]
        &&& forall|i: int| 0 <= i < self.managed@.len() && i != index ==> #[trigger] self.managed@[i] == other.managed@[i]
    }

    /// A well-formed table keeps its shape.
    pub proof fn lemma_wf_inv(&self, level: nat)
        requires
            self.wf(level),
        ensures
            self.inv(),
    {
    }

    /// An empty table is well formed at every level and maps nothing.
    pub proof fn lemma_empty(&self, level: nat)
        requires
            self.is_empty(),
        ensures
            self.wf(level),
            forall|v: nat| #[trigger] self.translate(level, v) is None,
            forall|i: nat| i < Self::ec() ==> #[trigger] self.is_vacant(i),
    {
        assert forall|v: nat| #[trigger] self.translate(level, v) is None by {
            let i = Self::index_at(v, level);
            assert(0 <= i < Self::ec());
        }
    }

    /// The entry a page goes through decides its translation.
    pub proof fn lemma_translate_at(&self, level: nat, vpn: nat)
        requires
            self.inv(),
        ensures
            ({
                let i = Self::index_at(vpn, level);
                let e = self.entry_at(i);
                self.translate(level, vpn) == if !e.spec_valid() {
                    None
                } else if e.spec_leaf() {
                    Some((e.spec_ppn() as nat + vpn % Self::span(level), e.spec_flags()))
                } else if level == 0 {
                    None
                } else {
                    match self.table_at(i) {
                        Some(c) => c.translate((level - 1) as nat, vpn),
                        None => None,
                    }
                }
            }),
    {
    }

    /// Tables that differ only at entry `index` translate alike every page that does
    /// not go through that entry.
    pub proof fn lemma_same_but_translate(&self, other: &Self, index: nat, level: nat)
        requires
            self.same_but(other, index),
            self.inv(),
            other.inv(),
        ensures
            forall|v: nat| Self::index_at(v, level) != index ==> #[trigger] self.translate(level, v) == other.translate(level, v),
            forall|i: nat| i < Self::ec() && i != index ==> #[trigger] self.is_vacant(i) == other.is_vacant(i),
    {
        assert forall|v: nat| Self::index_at(v, level) != index implies #[trigger] self.translate(level, v) == other.translate(level, v) by {
            let i = Self::index_at(v, level);
            assert(self.entries@[i as int] == other.entries@[i as int]);
            assert(self.branches@[i as int] == other.branches@[i as int]);
        }
    }

    /// Differing only in the table of `index` is differing only at `index`, and
    /// chains.
    pub proof fn lemma_same_but_table(&self, other: &Self, third: &Self, index: nat)
        requires
            self.same_but_table(other, index),
        ensures
            self.same_but(other, index),
            other.same_but_table(third, index) ==> self.same_but_table(third, index),
            forall|i: nat| #[trigger] self.entry_at(i) == other.entry_at(i),
    {
    }

    /// Tables that differ at most in entry `index`, or in the table under it, agree on
    /// every other entry and the table under it.
    pub proof fn lemma_same_but_at(&self, other: &Self, index: nat)
        requires
            self.same_but(other, index) || self.same_but_table(other, index),
            other.shaped(),
        ensures
            forall|i: nat| i < Self::ec() && i != index ==>
                #[trigger] self.entry_at(i) == other.entry_at(i) && self.table_at(i) == other.table_at(i),
    {
    }

    /// A page of a well-formed level-`level` table that goes nowhere, through an entry
    /// that is in use, goes through a next-level table, where it goes nowhere either.
    pub proof fn lemma_untranslated_entry(&self, level: nat, v: nat)
        requires
            self.wf(level),
            self.translate(level, v) is None,
            !self.is_vacant(Self::index_at(v, level)),
        ensures
            level > 0,
            !self.entry_at(Self::index_at(v, level)).spec_leaf(),
            self.table_at(Self::index_at(v, level)) matches Some(c)
                && c.wf((level - 1) as nat) && c.translate((level - 1) as nat, v) is None,
    {
        let i = Self::index_at(v, level);
        assert(0 <= i < Self::ec());
        assert(self.branches@[i as int] is Some);
    }

    /// Putting a well-formed table of the level below back under entry `index` of a
    /// well-formed table that had one there gives a well-formed table, which goes
    /// through the new table for the pages of that entry.
    pub proof fn lemma_reattach(&self, orig: &Self, index: nat, level: nat)
        requires
            orig.wf(level),
            index < Self::ec(),
            orig.table_at(index) is Some,
            self.same_but_table(orig, index),
            self.table_at(index) is Some,
            self.table_at(index)->0.wf((level - 1) as nat),
        ensures
            self.wf(level),
            forall|v: nat| Self::index_at(v, level) == index ==>
                #[trigger] self.translate(level, v) == self.table_at(index)->0.translate((level - 1) as nat, v),
            forall|v: nat| Self::index_at(v, level) != index ==> #[trigger] self.translate(level, v) == orig.translate(level, v),
            forall|i: nat| i < Self::ec() ==> #[trigger] self.is_vacant(i) == orig.is_vacant(i),
    {
        assert(self.inv()) by {
            assert forall|i: int| 0 <= i < Self::ec() implies
                (#[trigger] self.branches@[i] is Some <==> (self.entries@[i].spec_valid() && !self.entries@[i].spec_leaf())) by {
                if i != index {
                    assert(self.branches@[i] == orig.branches@[i]);
                }
            }
        }
        assert forall|i: int| 0 <= i < Self::ec() && #[trigger] self.branches@[i] is Some implies
            level > 0 && self.branches@[i]->0.wf((level - 1) as nat) by {
            if i != index {
                assert(self.branches@[i] == orig.branches@[i]);
            } else {
                assert(orig.branches@[i] is Some);
            }
        }
        self.lemma_same_but_table(orig, orig, index);
        self.lemma_same_but_translate(orig, index, level);
        assert forall|v: nat| Self::index_at(v, level) == index implies
            #[trigger] self.translate(level, v) == self.table_at(index)->0.translate((level - 1) as nat, v) by {
            assert(orig.branches@[index as int] is Some);
        }
    }

    /// A table that differs from a well-formed one only at entry `index`, keeps its
    /// shape and hangs a well-formed table of the level below under that entry, if
    /// any, is well formed.
    pub proof fn lemma_same_but_wf(&self, other: &Self, index: nat, level: nat)
        requires
            other.wf(level),
            self.same_but(other, index),
            self.inv(),
            self.table_at(index) matches Some(c) ==> level > 0 && c.wf((level - 1) as nat),
        ensures
            self.wf(level),
    {
        assert forall|i: int| 0 <= i < Self::ec() && #[trigger] self.branches@[i] is Some implies
            level > 0 && self.branches@[i]->0.wf((level - 1) as nat) by {
            if i != index {
                assert(self.branches@[i] == other.branches@[i]);
            }
        }
    }

    /// A next-level table hangs under entry `index` of a well-formed table: the
    /// entry is a valid branch, the table is well formed one level down, and the
    /// pages of that entry go through it.
    pub proof fn lemma_branch(&self, index: nat, level: nat)
        requires
            self.wf(level),
            index < Self::ec(),
            self.table_at(index) is Some,
        ensures
            level > 0,
            !self.is_vacant(index),
            !self.entry_at(index).spec_leaf(),
            self.table_at(index)->0.wf((level - 1) as nat),
            forall|v: nat| Self::index_at(v, level) == index ==>
                #[trigger] self.translate(level, v) == self.table_at(index)->0.translate((level - 1) as nat, v),
    {
        assert(self.branches@[index as int] is Some);
    }

    /// An empty table maps no page, so it is aligned at every level.
    pub proof fn lemma_empty_aligned(&self, level: nat)
        requires
            self.is_empty(),
        ensures
            self.aligned(level),
    {
        assert forall|i: int| 0 <= i < self.branches@.len() && (#[trigger] self.branches@[i]) is Some && level > 0
            implies self.branches@[i]->0.aligned((level - 1) as nat) by {
            assert(!self.entries@[i].spec_valid());
        }
    }

    /// At level 0 every page is aligned.
    pub proof fn lemma_level0_aligned(&self)
        requires
            self.inv(),
        ensures
            self.aligned(0),
    {
        assert(Self::span(0) == 1) by {
            assert(0nat * SIZE as nat == 0);
            vstd::arithmetic::power2::lemma2_to64();
        }
    }

    /// In an aligned table, a valid leaf entry of a level-`level` table maps a page
    /// number that is a multiple of the entry's span: large pages are aligned.
    pub proof fn lemma_aligned_leaf(&self, index: nat, level: nat)
        requires
            self.aligned(level),
            self.inv(),
            index < Self::ec(),
            self.entry_at(index).spec_valid(),
            self.entry_at(index).spec_leaf(),
        ensures
            self.entry_at(index).spec_ppn() as nat % Self::span(level) == 0,
    {
        assert(self.entries@[index as int].spec_valid());
    }

    /// The table under entry `index` of an aligned table is aligned one level down.
    pub proof fn lemma_aligned_child(&self, index: nat, level: nat)
        requires
            self.aligned(level),
            self.inv(),
            index < Self::ec(),
            level > 0,
            self.table_at(index) is Some,
        ensures
            self.table_at(index)->0.aligned((level - 1) as nat),
    {
        assert(self.branches@[index as int] is Some);
    }

    /// A table that differs from an aligned one only at entry `index` is aligned when
    /// that entry, if a leaf, holds an aligned page number and the table under it, if
    /// any, is aligned.
    pub proof fn lemma_aligned_same_but(&self, other: &Self, index: nat, level: nat)
        requires
            other.aligned(level),
            self.same_but(other, index),
            self.inv(),
            index < Self::ec(),
            self.entry_at(index).spec_valid() && self.entry_at(index).spec_leaf()
                ==> self.entry_at(index).spec_ppn() as nat % Self::span(level) == 0,
            self.table_at(index) is Some && level > 0 ==> self.table_at(index)->0.aligned((level - 1) as nat),
        ensures
            self.aligned(level),
    {
        assert forall|i: int| 0 <= i < self.entries@.len() && (#[trigger] self.entries@[i]).spec_valid()
            && self.entries@[i].spec_leaf() implies self.entries@[i].spec_ppn() as nat % Self::span(level) == 0 by {
            if i != index {
                assert(self.entries@[i] == other.entries@[i]);
            }
        }
        assert forall|i: int| 0 <= i < self.branches@.len() && (#[trigger] self.branches@[i]) is Some && level > 0
            implies self.branches@[i]->0.aligned((level - 1) as nat) by {
            if i != index {
                assert(self.branches@[i] == other.branches@[i]);
            }
        }
    }

    /// A well-formed table has the shape of one table page.
    pub proof fn lemma_shaped(&self)
        requires
            self.inv(),
        ensures
            self.shaped(),
    {
    }

    /// A table that differs from another only in entry `index`, keeps the table slot
    /// of that entry and keeps it consistent with the entry, keeps [`Self::inv`] and
    /// well-formedness at every level.
    pub proof fn lemma_keeps_inv(&self, other: &Self, index: nat)
        requires
            other.inv(),
            self.same_but(other, index),
            index < Self::ec(),
            self.entry_at(index).wf(),
            self.table_at(index) == other.table_at(index),
            self.table_at(index) is Some <==> (self.entry_at(index).spec_valid() && !self.entry_at(index).spec_leaf()),
        ensures
            self.inv(),
            forall|l: nat| #[trigger] other.wf(l) ==> self.wf(l),
    {
        assert forall|i: int| 0 <= i < Self::ec() implies
            (#[trigger] self.branches@[i] is Some <==> (self.entries@[i].spec_valid() && !self.entries@[i].spec_leaf())) by {
            if i != index {
                assert(self.entries@[i] == other.entries@[i]);
                assert(self.branches@[i] == other.branches@[i]);
            }
        }
        assert forall|i: int| 0 <= i < Self::ec() implies #[trigger] self.entries@[i].wf() by {
            if i != index {
                assert(self.entries@[i] == other.entries@[i]);
            }
        }
        assert forall|l: nat| #[trigger] other.wf(l) implies self.wf(l) by {
            self.lemma_same_but_wf(other, index, l);
        }
    }

    /// The table has one page's worth of entries, table slots and frame slots.
    pub closed spec fn shaped(&self) -> bool {
        &&& self.entries@.len() == Self::ec()
        &&& self.branches@.len() == Self::ec()
        &&& self.managed@.len() == Self::ec()
    }

    /// The number of entries in one table page.
    pub fn entry_count() -> (r: usize)
        ensures
            r == Self::ec(),
    {
        if WIDE {
            PAGE_SIZE / 8
        } else {
            PAGE_SIZE / 4
        }
    }

    /// An empty table living in page `location` (a fresh frame is zeroed).
    pub fn from(location: usize) -> (r: Self)
        ensures
            r.is_empty(),
            r.spec_location() == location,
    {
        let count = Self::entry_count();
        let mut entries: Vec<PageTableEntryPrimitive<WIDE, LENGTH, DEPTH, SIZE>> = Vec::new();
        let mut branches: Vec<Option<Self>> = Vec::new();
        let mut managed: Vec<Option<FrameTracker>> = Vec::new();
        let mut i: usize = 0;
        while i < count
            invariant
                i <= count,
                count == Self::ec(),
                entries@.len() == i,
                branches@.len() == i,
                managed@.len() == i,
                forall|j: int| 0 <= j < i ==> (#[trigger] entries@[j]).wf() && entries@[j].value() == 0,
                forall|j: int| 0 <= j < i ==> #[trigger] branches@[j] is None,
            decreases count - i,
        {
            entries.push(PageTableEntryPrimitive::from_bits(0));
            branches.push(None);
            managed.push(None);
            i = i + 1;
        }
        let r = PageTable { location, entries, branches, managed };
        assert forall|j: int| 0 <= j < Self::ec() implies !(#[trigger] r.entries@[j]).spec_valid() by {
            assert(entries@[j].value() == 0);
            lemma_zero_entry();
        }
        r
    }

    /// The page the table lives in.
    pub fn page_number(&self) -> (r: usize)
        ensures
            r == self.spec_location(),
    {
        self.location
    }

    /// Whether entry `index` is valid.
    pub fn is_entry_created(&self, index: usize) -> (r: bool)
        requires
            self.inv(),
            index < Self::ec(),
        ensures
            r == !self.is_vacant(index as nat),
    {
        self.entries[index].is_valid()
    }

    /// Whether entry `index` points to a next-level table.
    pub fn is_table_created(&self, index: usize) -> (r: bool)
        requires
            self.inv(),
            index < Self::ec(),
        ensures
            r == (self.table_at(index as nat) is Some),
    {
        let entry = &self.entries[index];
        entry.is_valid() && !entry.is_leaf()
    }

    /// Maps page `ppn` with `flags` at entry `index`, which must not be valid.
    pub fn create_leaf(&mut self, index: usize, ppn: usize, flags: u64) -> (r: Result<(), PageEntryWriteError>)
        requires
            old(self).inv(),
            index < Self::ec(),
            leaf_flags(flags),
            Self::format_ok(),
            (ppn as u64) < Self::ppn_bound(),
        ensures
            r is Ok <==> old(self).is_vacant(index as nat),
            r matches Err(e) ==> *final(self) == *old(self) && e == (if old(self).entry_at(index as nat).spec_leaf() {
                PageEntryWriteError::LeafExists(
                    old(self).entry_at(index as nat).spec_ppn() as usize,
                    old(self).entry_at(index as nat).spec_flags(),
                )
            } else {
                PageEntryWriteError::BranchExists
            }),
            r is Ok ==> {
                &&& final(self).same_but(&*old(self), index as nat)
                &&& final(self).entry_at(index as nat).spec_ppn() == ppn as u64
                &&& final(self).entry_at(index as nat).spec_flags() == flags
                &&& final(self).table_at(index as nat) is None
                &&& final(self).managed_at(index as nat) == old(self).managed_at(index as nat)
            },
            final(self).inv(),
            forall|l: nat| #[trigger] old(self).wf(l) ==> final(self).wf(l),
            forall|l: nat, v: nat| r is Ok && Self::index_at(v, l) == index ==>
                #[trigger] final(self).translate(l, v) == Some(((ppn + v % Self::span(l)) as nat, flags)),
            forall|l: nat, v: nat| Self::index_at(v, l) != index ==>
                #[trigger] final(self).translate(l, v) == old(self).translate(l, v),
            forall|i: nat| i < Self::ec() && i != index ==> #[trigger] final(self).is_vacant(i) == old(self).is_vacant(i),
    {
        if !self.entries[index].is_valid() {
            self.entries[index].set(ppn, flags);
            proof {
                let ghost o = *old(self);
                assert(self.same_but(&o, index as nat));
                assert forall|i: int| 0 <= i < Self::ec() implies
                    (#[trigger] self.branches@[i] is Some <==> (self.entries@[i].spec_valid() && !self.entries@[i].spec_leaf())) by {
                    if i != index {
                        assert(self.entries@[i] == o.entries@[i]);
                    }
                }
                assert forall|i: int| 0 <= i < Self::ec() implies #[trigger] self.entries@[i].wf() by {
                    if i != index {
                        assert(self.entries@[i] == o.entries@[i]);
                    }
                }
                assert forall|l: nat| #[trigger] o.wf(l) implies self.wf(l) by {
                    self.lemma_same_but_wf(&o, index as nat, l);
                }
                assert forall|l: nat, v: nat| Self::index_at(v, l) != index implies
                    #[trigger] self.translate(l, v) == o.translate(l, v) by {
                    self.lemma_same_but_translate(&o, index as nat, l);
                }
                self.lemma_same_but_translate(&o, index as nat, 0);
            }
            Ok(())
        } else {
            let entry = &self.entries[index];
            if entry.is_leaf() {
                Err(PageEntryWriteError::LeafExists(entry.physical_page_number(), entry.flags()))
            } else {
                Err(PageEntryWriteError::BranchExists)
            }
        }
    }

    /// Swaps the next-level table slot of entry `index` with `slot`.
    pub(crate) fn replace_table(&mut self, index: usize, slot: Option<Self>) -> (r: Option<Self>)
        requires
            old(self).shaped(),
            index < Self::ec(),
        ensures
            r == old(self).table_at(index as nat),
            final(self).table_at(index as nat) == slot,
            final(self).same_but_table(&*old(self), index as nat),
            final(self).shaped(),
    {
        let mut slot = slot;
        std::mem::swap(&mut self.branches[index], &mut slot);
        slot
    }

    /// Makes sure entry `index` points to a next-level table, taking a frame for a new
    /// one from `pool` where the entry is not valid.
    pub fn ensure_table_created(&mut self, index: usize, pool: &mut FramePool) -> (r: Result<(), PageEntryWriteError>)
        requires
            old(self).inv(),
            index < Self::ec(),
            Self::format_ok(),
        ensures
            final(self).inv(),
            old(self).table_at(index as nat) is Some ==> r is Ok && *final(self) == *old(self),
            !old(self).is_vacant(index as nat) && old(self).entry_at(index as nat).spec_leaf() ==>
                *final(self) == *old(self) && r == Err::<(), _>(PageEntryWriteError::LeafExists(
                    old(self).entry_at(index as nat).spec_ppn() as usize,
                    old(self).entry_at(index as nat).spec_flags(),
                )),
            old(self).is_vacant(index as nat) ==> (r is Ok || (r == Err::<(), _>(PageEntryWriteError::TrackerUnavailable) && *final(self) == *old(self))),
            old(self).is_vacant(index as nat) && r is Ok ==> {
                &&& final(self).same_but(&*old(self), index as nat)
                &&& final(self).table_at(index as nat) matches Some(c) && c.is_empty()
            },
            r is Ok ==> final(self).table_at(index as nat) is Some,
            final(pool).free().subset_of(old(pool).free()),
            r == Err::<(), _>(PageEntryWriteError::TrackerUnavailable)
                && frames_below(old(pool).free(), Self::ppn_bound() as int) ==> final(pool).free() == Set::<usize>::empty(),
            forall|l: nat| #[trigger] old(self).aligned(l) ==> final(self).aligned(l),
            forall|l: nat| l > 0 && #[trigger] old(self).wf(l) ==> final(self).wf(l),
            forall|l: nat, v: nat| #[trigger] final(self).translate(l, v) == old(self).translate(l, v),
            forall|i: nat| i < Self::ec() && i != index ==> #[trigger] final(self).is_vacant(i) == old(self).is_vacant(i),
    {
        if self.entries[index].is_valid() {
            let entry = &self.entries[index];
            if !entry.is_leaf() {
                Ok(())
            } else {
                Err(PageEntryWriteError::LeafExists(entry.physical_page_number(), entry.flags()))
            }
        } else {
            match pool.borrow(1) {
                Some(frame) => {
                    let ppn = frame.start();
                    if (ppn as u64) < Self::ppn_limit() {
                        assert(is_flag_set(FLAG_VALID) && FLAG_VALID & 1u64 != 0 && FLAG_VALID & 0b1110u64 == 0) by (bit_vector);
                        self.entries[index].set(ppn, FLAG_VALID);
                        let table = Self::from(ppn);
                        self.managed.set(index, Some(frame));
                        self.branches.set(index, Some(table));
                        proof {
                            let ghost o = *old(self);
                            assert(self.same_but(&o, index as nat));
                            assert forall|i: int| 0 <= i < Self::ec() implies
                                (#[trigger] self.branches@[i] is Some <==> (self.entries@[i].spec_valid() && !self.entries@[i].spec_leaf())) by {
                                if i != index {
                                    assert(self.entries@[i] == o.entries@[i]);
                                    assert(self.branches@[i] == o.branches@[i]);
                                }
                            }
                            assert forall|i: int| 0 <= i < Self::ec() implies #[trigger] self.entries@[i].wf() by {
                                if i != index {
                                    assert(self.entries@[i] == o.entries@[i]);
                                }
                            }
                            assert forall|l: nat| l > 0 && #[trigger] o.wf(l) implies self.wf(l) by {
                                table.lemma_empty((l - 1) as nat);
                                self.lemma_same_but_wf(&o, index as nat, l);
                            }
                            assert forall|l: nat, v: nat| #[trigger] self.translate(l, v) == o.translate(l, v) by {
                                self.lemma_same_but_translate(&o, index as nat, l);
                                if Self::index_at(v, l) == index {
                                    if l > 0 {
                                        table.lemma_empty((l - 1) as nat);
                                        assert(table.translate((l - 1) as nat, v) is None);
                                    }
                                }
                            }
                            self.lemma_same_but_translate(&o, index as nat, 0);
                            assert forall|l: nat| #[trigger] o.aligned(l) implies self.aligned(l) by {
                                table.lemma_empty_aligned((l - 1) as nat);
                                self.lemma_aligned_same_but(&o, index as nat, l);
                            }
                        }
                        Ok(())
                    } else {
                        proof {
                            assert(frame_range(ppn as int, ppn + 1).contains(ppn));
                        }
                        Err(PageEntryWriteError::TrackerUnavailable)
                    }
                },
                None => Err(PageEntryWriteError::TrackerUnavailable),
            }
        }
    }

    /// Clears entry `index` and drops the next-level table under it, giving back the
    /// page number it held; the frame owned through the entry stays owned.
    pub fn free_entry(&mut self, index: usize) -> (r: Option<usize>)
        requires
            old(self).inv(),
            index < Self::ec(),
            Self::format_ok(),
        ensures
            old(self).is_vacant(index as nat) ==> r is None && *final(self) == *old(self),
            !old(self).is_vacant(index as nat) ==> {
                &&& r == Some(old(self).entry_at(index as nat).spec_ppn() as usize)
                &&& final(self).is_vacant(index as nat)
                &&& final(self).table_at(index as nat) is None
                &&& final(self).managed_at(index as nat) == old(self).managed_at(index as nat)
                &&& final(self).same_but(&*old(self), index as nat)
            },
            final(self).inv(),
            forall|l: nat| #[trigger] old(self).wf(l) ==> final(self).wf(l),
            forall|l: nat, v: nat| Self::index_at(v, l) == index ==> #[trigger] final(self).translate(l, v) is None,
            forall|l: nat, v: nat| Self::index_at(v, l) != index ==>
                #[trigger] final(self).translate(l, v) == old(self).translate(l, v),
    {
        if self.entries[index].is_valid() {
            let number = self.entries[index].physical_page_number();
            self.entries[index].clear();
            self.branches.set(index, None);
            proof {
                let ghost o = *old(self);
                lemma_zero_entry();
                assert(fits(0u64, WIDE));
                assert(self.same_but(&o, index as nat));
                assert forall|i: int| 0 <= i < Self::ec() implies
                    (#[trigger] self.branches@[i] is Some <==> (self.entries@[i].spec_valid() && !self.entries@[i].spec_leaf())) by {
                    if i != index {
                        assert(self.entries@[i] == o.entries@[i]);
                        assert(self.branches@[i] == o.branches@[i]);
                    }
                }
                assert forall|i: int| 0 <= i < Self::ec() implies #[trigger] self.entries@[i].wf() by {
                    if i != index {
                        assert(self.entries@[i] == o.entries@[i]);
                    }
                }
                assert forall|l: nat| #[trigger] o.wf(l) implies self.wf(l) by {
                    self.lemma_same_but_wf(&o, index as nat, l);
                }
                assert forall|l: nat, v: nat| Self::index_at(v, l) != index implies
                    #[trigger] self.translate(l, v) == o.translate(l, v) by {
                    self.lemma_same_but_translate(&o, index as nat, l);
                }
            }
            Some(number)
        } else {
            None
        }
    }

    /// The next-level table under entry `index`, if the entry is a valid branch.
    pub fn get_table(&self, index: usize) -> (r: Option<&Self>)
        requires
            self.inv(),
            index < Self::ec(),
        ensures
            r is Some == self.table_at(index as nat) is Some,
            r matches Some(t) ==> *t == self.table_at(index as nat)->0,
    {
        let entry = &self.entries[index];
        if entry.is_valid() && !entry.is_leaf() {
            self.branches[index].as_ref()
        } else {
            None
        }
    }

    /// What entry `index` holds.
    pub fn get_entry_type(&self, index: usize) -> (r: PageEntryType<'_, WIDE, LENGTH, DEPTH, SIZE>)
        requires
            self.inv(),
            index < Self::ec(),
            Self::format_ok(),
        ensures
            self.is_vacant(index as nat) ==> r is Invalid,
            !self.is_vacant(index as nat) && self.entry_at(index as nat).spec_leaf() ==> r == PageEntryType::<'_, WIDE, LENGTH, DEPTH, SIZE>::Leaf(
                self.entry_at(index as nat).spec_ppn() as usize,
                self.entry_at(index as nat).spec_flags(),
            ),
            !self.is_vacant(index as nat) && !self.entry_at(index as nat).spec_leaf() ==>
                (r matches PageEntryType::Branch(t) && *t == self.table_at(index as nat)->0),
    {
        let entry = &self.entries[index];
        if entry.is_valid() {
            if entry.is_leaf() {
                PageEntryType::Leaf(entry.physical_page_number(), entry.flags())
            } else {
                match self.branches[index].as_ref() {
                    Some(table) => PageEntryType::Branch(table),
                    None => PageEntryType::Invalid,
                }
            }
        } else {
            PageEntryType::Invalid
        }
    }

    /// Maps page `ppn` at entry `index` unless it is mapped already: where the entry
    /// maps `ppn` already, its readable, writeable and executable bits gain those of
    /// `flags` and `false` comes back; where it is free, it is set and `true` comes
    /// back.
    pub fn ensure_leaf_created(&mut self, index: usize, ppn: usize, flags: u64) -> (r: Result<bool, PageEntryWriteError>)
        requires
            old(self).inv(),
            index < Self::ec(),
            leaf_flags(flags),
            Self::format_ok(),
            (ppn as u64) < Self::ppn_bound(),
        ensures
            final(self).inv(),
            final(self).same_but(&*old(self), index as nat),
            final(self).table_at(index as nat) == old(self).table_at(index as nat),
            final(self).managed_at(index as nat) == old(self).managed_at(index as nat),
            forall|l: nat| #[trigger] old(self).wf(l) ==> final(self).wf(l),
            old(self).is_vacant(index as nat) ==> r == Ok::<bool, PageEntryWriteError>(true)
                && final(self).entry_at(index as nat).spec_ppn() == ppn as u64
                && final(self).entry_at(index as nat).spec_flags() == flags,
            !old(self).is_vacant(index as nat) && !old(self).entry_at(index as nat).spec_leaf() ==>
                r == Err::<bool, PageEntryWriteError>(PageEntryWriteError::BranchExists) && *final(self) == *old(self),
            !old(self).is_vacant(index as nat) && old(self).entry_at(index as nat).spec_leaf() ==> {
                let e = old(self).entry_at(index as nat);
                if e.spec_ppn() as usize == ppn {
                    &&& r == Ok::<bool, PageEntryWriteError>(false)
                    &&& final(self).entry_at(index as nat).spec_ppn() == e.spec_ppn()
                    &&& final(self).entry_at(index as nat).spec_flags() == e.spec_flags() | (flags & 0b1110u64)
                } else {
                    &&& r == Err::<bool, PageEntryWriteError>(PageEntryWriteError::LeafExists(e.spec_ppn() as usize, e.spec_flags()))
                    &&& *final(self) == *old(self)
                }
            },
    {
        let ghost o = *old(self);
        if self.entries[index].is_valid() {
            if self.entries[index].is_leaf() {
                if self.entries[index].physical_page_number() == ppn {
                    let rwx = flags & (FLAG_READABLE | FLAG_WRITEABLE | FLAG_EXECUTABLE);
                    proof {
                        lemma_rwx(flags);
                    }
                    self.entries[index].set_flags(rwx);
                    proof {
                        assert(self.same_but(&o, index as nat));
                        self.lemma_keeps_inv(&o, index as nat);
                    }
                    Ok(false)
                } else {
                    let entry = &self.entries[index];
                    Err(PageEntryWriteError::LeafExists(entry.physical_page_number(), entry.flags()))
                }
            } else {
                Err(PageEntryWriteError::BranchExists)
            }
        } else {
            self.entries[index].set(ppn, flags);
            proof {
                assert(self.same_but(&o, index as nat));
                self.lemma_keeps_inv(&o, index as nat);
            }
            Ok(true)
        }
    }

    /// Maps the first frame of `tracker` with `flags` at entry `index`, which must not
    /// be valid, and keeps the tracker with the table.
    pub fn create_managed_leaf(&mut self, index: usize, tracker: FrameTracker, flags: u64) -> (r: Result<(), PageEntryWriteError>)
        requires
            old(self).inv(),
            index < Self::ec(),
            leaf_flags(flags),
            Self::format_ok(),
            (tracker.spec_start() as u64) < Self::ppn_bound(),
        ensures
            r is Ok <==> old(self).is_vacant(index as nat),
            r matches Err(e) ==> *final(self) == *old(self) && e == (if old(self).entry_at(index as nat).spec_leaf() {
                PageEntryWriteError::LeafExists(
                    old(self).entry_at(index as nat).spec_ppn() as usize,
                    old(self).entry_at(index as nat).spec_flags(),
                )
            } else {
                PageEntryWriteError::BranchExists
            }),
            r is Ok ==> {
                &&& final(self).same_but(&*old(self), index as nat)
                &&& final(self).entry_at(index as nat).spec_ppn() == tracker.spec_start() as u64
                &&& final(self).entry_at(index as nat).spec_flags() == flags
                &&& final(self).table_at(index as nat) is None
                &&& final(self).managed_at(index as nat) == Some(tracker)
            },
            final(self).inv(),
            forall|l: nat| #[trigger] old(self).wf(l) ==> final(self).wf(l),
            forall|l: nat, v: nat| r is Ok && Self::index_at(v, l) == index ==>
                #[trigger] final(self).translate(l, v) == Some(((tracker.spec_start() + v % Self::span(l)) as nat, flags)),
            forall|l: nat, v: nat| Self::index_at(v, l) != index ==>
                #[trigger] final(self).translate(l, v) == old(self).translate(l, v),
    {
        let ppn = tracker.start();
        if !self.entries[index].is_valid() {
            self.entries[index].set(ppn, flags);
            self.managed.set(index, Some(tracker));
            proof {
                let ghost o = *old(self);
                assert(self.same_but(&o, index as nat));
                self.lemma_keeps_inv(&o, index as nat);
                assert forall|l: nat, v: nat| Self::index_at(v, l) != index implies
                    #[trigger] self.translate(l, v) == o.translate(l, v) by {
                    self.lemma_same_but_translate(&o, index as nat, l);
                }
            }
            Ok(())
        } else {
            let entry = &self.entries[index];
            if entry.is_leaf() {
                Err(PageEntryWriteError::LeafExists(entry.physical_page_number(), entry.flags()))
            } else {
                Err(PageEntryWriteError::BranchExists)
            }
        }
    }

    /// Makes sure entry `index` maps a page: where it maps one already, its readable,
    /// writeable and executable bits gain those of `flags` and `false` comes back;
    /// where it is free, a frame from `pool` is mapped with `flags`, kept with the
    /// table, and `true` comes back.
    pub fn ensure_managed_leaf_created(&mut self, index: usize, pool: &mut FramePool, flags: u64) -> (r: Result<bool, PageEntryWriteError>)
        requires
            old(self).inv(),
            index < Self::ec(),
            leaf_flags(flags),
            Self::format_ok(),
        ensures
            final(self).inv(),
            final(self).same_but(&*old(self), index as nat),
            final(self).table_at(index as nat) == old(self).table_at(index as nat),
            forall|l: nat| #[trigger] old(self).wf(l) ==> final(self).wf(l),
            !old(self).is_vacant(index as nat) && !old(self).entry_at(index as nat).spec_leaf() ==>
                r == Err::<bool, PageEntryWriteError>(PageEntryWriteError::BranchExists) && *final(self) == *old(self),
            !old(self).is_vacant(index as nat) && old(self).entry_at(index as nat).spec_leaf() ==> {
                &&& r == Ok::<bool, PageEntryWriteError>(false)
                &&& final(self).entry_at(index as nat).spec_ppn() == old(self).entry_at(index as nat).spec_ppn()
                &&& final(self).entry_at(index as nat).spec_flags() == old(self).entry_at(index as nat).spec_flags() | (flags & 0b1110u64)
                &&& final(self).managed_at(index as nat) == old(self).managed_at(index as nat)
            },
            old(self).is_vacant(index as nat) ==> (r == Ok::<bool, PageEntryWriteError>(true) && {
                &&& final(self).entry_at(index as nat).spec_flags() == flags
                &&& final(self).managed_at(index as nat) matches Some(t)
                &&& final(self).entry_at(index as nat).spec_ppn() == t.spec_start() as u64
            }) || (r == Err::<bool, PageEntryWriteError>(PageEntryWriteError::TrackerUnavailable) && *final(self) == *old(self)),
            final(pool).free().subset_of(old(pool).free()),
            r == Err::<bool, _>(PageEntryWriteError::TrackerUnavailable)
                && frames_below(old(pool).free(), Self::ppn_bound() as int) ==> final(pool).free() == Set::<usize>::empty(),
    {
        let ghost o = *old(self);
        if self.entries[index].is_valid() {
            if self.entries[index].is_leaf() {
                let rwx = flags & (FLAG_READABLE | FLAG_WRITEABLE | FLAG_EXECUTABLE);
                proof {
                    lemma_rwx(flags);
                }
                self.entries[index].set_flags(rwx);
                proof {
                    assert(self.same_but(&o, index as nat));
                    self.lemma_keeps_inv(&o, index as nat);
                }
                Ok(false)
            } else {
                Err(PageEntryWriteError::BranchExists)
            }
        } else {
            match pool.borrow(1) {
                Some(tracker) => {
                    if (tracker.start() as u64) < Self::ppn_limit() {
                        match self.create_managed_leaf(index, tracker, flags) {
                            Ok(()) => Ok(true),
                            Err(e) => Err(e),
                        }
                    } else {
                        proof {
                            assert(frame_range(tracker.spec_start() as int, tracker.spec_start() + 1).contains(tracker.spec_start()));
                        }
                        Err(PageEntryWriteError::TrackerUnavailable)
                    }
                },
                None => Err(PageEntryWriteError::TrackerUnavailable),
            }
        }
    }

    /// The mappings of entry `i` of a level-`level` table whose block starts at
    /// virtual page `base`: a leaf gives its first virtual page, physical page, page
    /// count and flags; a next-level table gives its own mappings.
    pub closed spec fn entry_leaves(&self, level: nat, base: nat, i: nat) -> Seq<(usize, usize, usize, u64)>
        decreases level, Self::ec() - i, 0nat,
    {
        if i < Self::ec() && i < self.entries@.len() && i < self.branches@.len() {
            let e = self.entries@[i as int];
            if !e.spec_valid() {
                Seq::empty()
            } else if e.spec_leaf() {
                seq![((base + i * Self::span(level)) as usize, e.spec_ppn() as usize, Self::span(level) as usize, e.spec_flags())]
            } else if level == 0 {
                Seq::empty()
            } else {
                match self.branches@[i as int] {
                    Some(c) => c.leaves_from((level - 1) as nat, base + i * Self::span(level), 0),
                    None => Seq::empty(),
                }
            }
        } else {
            Seq::empty()
        }
    }

    /// The mappings of entries `i` onwards, in index order.
    pub closed spec fn leaves_from(&self, level: nat, base: nat, i: nat) -> Seq<(usize, usize, usize, u64)>
        decreases level, Self::ec() - i, 1nat,
    {
        if i < Self::ec() {
            self.entry_leaves(level, base, i) + self.leaves_from(level, base, i + 1)
        } else {
            Seq::empty()
        }
    }

    /// Appends the mappings of entries `i` onwards of this level-`level` table, whose
    /// block starts at virtual page `base`, to `out`.
    fn collect_leaves(&self, level: usize, base: usize, i: usize, out: &mut Vec<(usize, usize, usize, u64)>)
        requires
            self.wf(level as nat),
            Self::format_ok(),
            level < DEPTH,
            i <= Self::ec(),
            base + Self::span(level as nat + 1) <= usize::MAX,
            Self::span(level as nat + 1) == Self::span(level as nat) * Self::ec(),
            forall|l: nat| l <= level ==> #[trigger] Self::span(l + 1) == Self::span(l) * Self::ec(),
        ensures
            final(out)@ == old(out)@ + self.leaves_from(level as nat, base as nat, i as nat),
        decreases level, Self::ec() - i,
    {
        let count = Self::entry_count();
        let mut k = i;
        while k < count
            invariant
                self.wf(level as nat),
                Self::format_ok(),
                level < DEPTH,
                count == Self::ec(),
                i <= k <= count,
                base + Self::span(level as nat + 1) <= usize::MAX,
                Self::span(level as nat + 1) == Self::span(level as nat) * Self::ec(),
                forall|l: nat| l <= level ==> #[trigger] Self::span(l + 1) == Self::span(l) * Self::ec(),
                out@ + self.leaves_from(level as nat, base as nat, k as nat) == old(out)@ + self.leaves_from(level as nat, base as nat, i as nat),
            decreases count - k,
        {
            let ghost before = out@;
            let ghost span = Self::span(level as nat);
            proof {
                assert(k * span + span <= count * span) by (nonlinear_arith)
                    requires k < count, span >= 0;
                assert(k * span <= count * span) by (nonlinear_arith)
                    requires k < count, span >= 0;
                self.lemma_wf_inv(level as nat);
            }
            let entry = &self.entries[k];
            if entry.is_valid() {
                if entry.is_leaf() {
                    let size = Self::span_at(level);
                    out.push((base + k * size, entry.physical_page_number(), size, entry.flags()));
                } else if level > 0 {
                    match &self.branches[k] {
                        Some(child) => {
                            proof {
                                self.lemma_branch(k as nat, level as nat);
                                assert(Self::span((level - 1) as nat + 1) == Self::span(level as nat));
                            }
                            let size = Self::span_at(level);
                            child.collect_leaves(level - 1, base + k * size, 0, out);
                        },
                        None => {},
                    }
                }
            }
            proof {
                assert(self.leaves_from(level as nat, base as nat, k as nat)
                    == self.entry_leaves(level as nat, base as nat, k as nat) + self.leaves_from(level as nat, base as nat, (k + 1) as nat));
                assert(out@ == before + self.entry_leaves(level as nat, base as nat, k as nat));
                assert(out@ + self.leaves_from(level as nat, base as nat, (k + 1) as nat)
                    =~= before + self.leaves_from(level as nat, base as nat, k as nat));
            }
            k = k + 1;
        }
        proof {
            assert(self.leaves_from(level as nat, base as nat, k as nat) =~= Seq::<(usize, usize, usize, u64)>::empty());
        }
    }

    /// The number of pages one entry of a level-`level` table covers.
    fn span_at(level: usize) -> (r: usize)
        requires
            Self::format_ok(),
            level < DEPTH,
        ensures
            r == Self::span(level as nat),
    {
        proof {
            if WIDE {
                assert(level * 9 <= DEPTH * 9) by (nonlinear_arith) requires level < DEPTH;
            } else {
                assert(level * 10 <= DEPTH * 10) by (nonlinear_arith) requires level < DEPTH;
            }
            vstd::bits::lemma_usize_pow2_no_overflow((level * SIZE) as nat);
            vstd::bits::lemma_usize_shl_is_mul(1, (level * SIZE) as usize);
        }
        1usize << (level * SIZE)
    }

    /// Every mapping of this level-`level` table, whose block starts at virtual page
    /// `base`, depth first in index order: in increasing order of virtual page, each
    /// ending before the next begins, all within the table's block.
    pub fn mappings(&self, level: usize, base: usize) -> (r: Vec<(usize, usize, usize, u64)>)
        requires
            self.wf(level as nat),
            Self::format_ok(),
            level < DEPTH,
            base + Self::span(level as nat + 1) <= usize::MAX,
        ensures
            r@ == self.leaves_from(level as nat, base as nat, 0),
            ordered_within(r@, base as nat, base as nat + Self::span(level as nat + 1)),
            base as nat % Self::span(level as nat + 1) == 0 ==> forall|v: nat|
                base <= v < base + Self::span(level as nat + 1) && (#[trigger] self.translate(level as nat, v)) is Some
                ==> covers(r@, v),
            base as nat % Self::span(level as nat + 1) == 0 && usize::BITS == 64 ==> forall|k: int|
                0 <= k < r@.len() ==> self.holds_mapping(level as nat, #[trigger] r@[k]),
            forall|k: int| 0 <= k < r@.len() ==> Self::sized_at_most(#[trigger] r@[k], level as nat),
    {
        let mut out = Vec::new();
        proof {
            Self::lemma_span_step(level as nat);
            assert(Self::ec() * Self::span(level as nat) == Self::span(level as nat) * Self::ec()) by (nonlinear_arith);
            self.lemma_leaves_sized(level as nat, base as nat, 0);
            self.lemma_leaves_ordered(level as nat, base as nat, 0);
            if base as nat % Self::span(level as nat + 1) == 0 {
                assert forall|v: nat| base <= v < base + Self::span(level as nat + 1)
                    && (#[trigger] self.translate(level as nat, v)) is Some implies covers(self.leaves_from(level as nat, base as nat, 0), v) by {
                    assert(base + 0 * Self::span(level as nat) == base);
                    self.lemma_leaves_complete(level as nat, base as nat, 0, v);
                }
                if usize::BITS == 64 {
                    self.lemma_leaves_sound(level as nat, base as nat, 0);
                }
            }
            assert(base + 0 * Self::span(level as nat) == base);
            assert forall|l: nat| l <= level implies #[trigger] Self::span(l + 1) == Self::span(l) * Self::ec() by {
                Self::lemma_span_step(l);
            }
        }
        self.collect_leaves(level, base, 0, &mut out);
        assert(out@ =~= Seq::<(usize, usize, usize, u64)>::empty() + self.leaves_from(level as nat, base as nat, 0));
        out
    }

    /// One entry of a level `level + 1` table covers as many pages as a whole
    /// level-`level` table.
    pub proof fn lemma_span_step(level: nat)
        requires
            Self::format_ok(),
        ensures
            Self::span(level + 1) == Self::span(level) * Self::ec(),
    {
        vstd::arithmetic::power2::lemma2_to64();
        if WIDE {
            assert((level + 1) * 9 == level * 9 + 9);
            vstd::arithmetic::power2::lemma_pow2_adds(level * 9, 9);
        } else {
            assert((level + 1) * 10 == level * 10 + 10);
            vstd::arithmetic::power2::lemma_pow2_adds(level * 10, 10);
        }
    }

    /// The mappings of entry `i` of a well-formed level-`level` table whose block
    /// starts at `base` lie in order, each non-empty and after the last, within the
    /// pages of that entry.
    proof fn lemma_entry_leaves_ordered(&self, level: nat, base: nat, i: nat)
        requires
            self.wf(level),
            Self::format_ok(),
            i < Self::ec(),
            base + Self::ec() * Self::span(level) <= usize::MAX,
        ensures
            ordered_within(self.entry_leaves(level, base, i), base + i * Self::span(level),
                base + (i + 1) * Self::span(level)),
        decreases level, Self::ec() - i, 0nat,
    {
        let sp = Self::span(level);
        assert(sp > 0) by {
            vstd::arithmetic::power2::lemma_pow2_pos(level * SIZE as nat);
        }
        assert(i * sp + sp == (i + 1) * sp) by (nonlinear_arith);
        assert((i + 1) * sp <= Self::ec() * sp) by (nonlinear_arith) requires i + 1 <= Self::ec(), sp > 0;
        let e = self.entries@[i as int];
        if e.spec_valid() && !e.spec_leaf() && level > 0 {
            if let Some(c) = self.branches@[i as int] {
                Self::lemma_span_step((level - 1) as nat);
                assert(((level - 1) as nat) + 1 == level);
                let b2 = base + i * sp;
                assert(b2 + Self::ec() * Self::span((level - 1) as nat) == base + (i + 1) * sp) by (nonlinear_arith)
                    requires b2 == base + i * sp, sp == Self::span((level - 1) as nat) * Self::ec(), i * sp + sp == (i + 1) * sp;
                c.lemma_leaves_ordered((level - 1) as nat, b2, 0);
                assert(b2 + 0 * Self::span((level - 1) as nat) == b2);
            }
        }
    }

    /// The mappings of a well-formed level-`level` table whose block starts at `base`,
    /// from entry `i` on, lie in order of their first virtual page, each non-empty and
    /// ending before the next begins, within the pages of those entries.
    pub proof fn lemma_leaves_ordered(&self, level: nat, base: nat, i: nat)
        requires
            self.wf(level),
            Self::format_ok(),
            i <= Self::ec(),
            base + Self::ec() * Self::span(level) <= usize::MAX,
        ensures
            ordered_within(self.leaves_from(level, base, i), base + i * Self::span(level),
                base + Self::ec() * Self::span(level)),
        decreases level, Self::ec() - i, 1nat,
    {
        let sp = Self::span(level);
        if i < Self::ec() {
            assert(i * sp <= (i + 1) * sp && (i + 1) * sp <= Self::ec() * sp) by (nonlinear_arith)
                requires i + 1 <= Self::ec();
            self.lemma_entry_leaves_ordered(level, base, i);
            self.lemma_leaves_ordered(level, base, i + 1);
            lemma_ordered_concat(self.entry_leaves(level, base, i), self.leaves_from(level, base, i + 1),
                base + i * sp, base + (i + 1) * sp, base + Self::ec() * sp);
        } else {
            assert(self.leaves_from(level, base, i) =~= Seq::<(usize, usize, usize, u64)>::empty());
        }
    }

    /// A page `o` pages into entry `i` of a table whose block starts at `base` goes
    /// through entry `i`, at offset `o` within it.
    proof fn lemma_in_entry(base: nat, i: nat, o: nat, level: nat)
        requires
            Self::format_ok(),
            base % (Self::ec() * Self::span(level)) == 0,
            i < Self::ec(),
            o < Self::span(level),
        ensures
            Self::index_at(base + i * Self::span(level) + o, level) == i,
            (base + i * Self::span(level) + o) % Self::span(level) == o,
    {
        let sp = Self::span(level) as int;
        let ec = Self::ec() as int;
        assert(sp > 0) by {
            vstd::arithmetic::power2::lemma_pow2_pos(level * SIZE as nat);
        }
        assert(ec * sp > 0) by (nonlinear_arith) requires ec > 0, sp > 0;
        let b = base as int;
        let q = b / (ec * sp);
        vstd::arithmetic::div_mod::lemma_fundamental_div_mod(b, ec * sp);
        let v = b + i * sp + o;
        assert(v == (q * ec + i) * sp + o) by (nonlinear_arith)
            requires b == (ec * sp) * q + b % (ec * sp), b % (ec * sp) == 0, v == b + i * sp + o;
        assert(q >= 0) by (nonlinear_arith) requires b >= 0, ec * sp > 0, q == b / (ec * sp);
        vstd::arithmetic::div_mod::lemma_fundamental_div_mod_converse(v, sp, q * ec + i, o as int);
        vstd::arithmetic::div_mod::lemma_fundamental_div_mod_converse(q * ec + i, ec, q, i as int);
    }

    /// The mapping `m` (first page, first frame, page count, flags) is what this
    /// level-`level` table translates each of its pages to.
    pub open spec fn holds_mapping(&self, level: nat, m: (usize, usize, usize, u64)) -> bool {
        forall|v: nat| m.0 <= v < m.0 + m.2 ==> #[trigger] self.translate(level, v)
            == Some(((m.1 + (v - m.0)) as nat, m.3))
    }

    /// Each mapping listed for entry `i` of a well-formed level-`level` table whose
    /// block starts at `base` is what the table translates those pages to.
    proof fn lemma_entry_leaves_sound(&self, level: nat, base: nat, i: nat)
        requires
            self.wf(level),
            Self::format_ok(),
            usize::BITS == 64,
            i < Self::ec(),
            base + Self::ec() * Self::span(level) <= usize::MAX,
            base % (Self::ec() * Self::span(level)) == 0,
        ensures
            forall|k: int| 0 <= k < self.entry_leaves(level, base, i).len()
                ==> self.holds_mapping(level, #[trigger] self.entry_leaves(level, base, i)[k]),
        decreases level, Self::ec() - i, 0nat,
    {
        let sp = Self::span(level);
        let l = self.entry_leaves(level, base, i);
        assert(sp > 0) by {
            vstd::arithmetic::power2::lemma_pow2_pos(level * SIZE as nat);
        }
        assert((i + 1) * sp <= Self::ec() * sp) by (nonlinear_arith) requires i + 1 <= Self::ec(), sp > 0;
        assert(i * sp + sp == (i + 1) * sp) by (nonlinear_arith);
        let e = self.entries@[i as int];
        if e.spec_valid() && e.spec_leaf() {
            assert(usize::MAX == u64::MAX);
            assert(e.spec_ppn() as usize == e.spec_ppn());
            assert forall|k: int| 0 <= k < l.len() implies self.holds_mapping(level, #[trigger] l[k]) by {
                assert(l[k].0 == base + i * sp);
                assert forall|v: nat| l[k].0 <= v < l[k].0 + l[k].2 implies #[trigger] self.translate(level, v)
                    == Some(((l[k].1 + (v - l[k].0)) as nat, l[k].3)) by {
                    Self::lemma_in_entry(base, i, (v - (base + i * sp)) as nat, level);
                }
            }
        } else if e.spec_valid() && level > 0 {
            if let Some(c) = self.branches@[i as int] {
                Self::lemma_span_step((level - 1) as nat);
                let sc = Self::span((level - 1) as nat);
                let b2 = base + i * sp;
                assert(sp == Self::ec() * sc) by (nonlinear_arith) requires sp == sc * Self::ec();
                assert(b2 + Self::ec() * sc == base + (i + 1) * sp);
                Self::lemma_in_entry(base, i, 0, level);
                assert(b2 % sp == 0);
                assert(b2 % (Self::ec() * sc) == 0);
                c.lemma_leaves_sound((level - 1) as nat, b2, 0);
                c.lemma_leaves_ordered((level - 1) as nat, b2, 0);
                assert(b2 + 0 * sc == b2);
                assert forall|k: int| 0 <= k < l.len() implies self.holds_mapping(level, #[trigger] l[k]) by {
                    assert(c.holds_mapping((level - 1) as nat, l[k]));
                    assert forall|v: nat| l[k].0 <= v < l[k].0 + l[k].2 implies #[trigger] self.translate(level, v)
                        == Some(((l[k].1 + (v - l[k].0)) as nat, l[k].3)) by {
                        assert(b2 <= v < b2 + sp);
                        Self::lemma_in_entry(base, i, (v - b2) as nat, level);
                        assert(c.translate((level - 1) as nat, v) == Some(((l[k].1 + (v - l[k].0)) as nat, l[k].3)));
                    }
                }
            }
        }
    }

    /// Each mapping listed from entry `i` on of a well-formed level-`level` table whose
    /// block starts at `base` is what the table translates those pages to.
    pub proof fn lemma_leaves_sound(&self, level: nat, base: nat, i: nat)
        requires
            self.wf(level),
            Self::format_ok(),
            usize::BITS == 64,
            i <= Self::ec(),
            base + Self::ec() * Self::span(level) <= usize::MAX,
            base % (Self::ec() * Self::span(level)) == 0,
        ensures
            forall|k: int| 0 <= k < self.leaves_from(level, base, i).len()
                ==> self.holds_mapping(level, #[trigger] self.leaves_from(level, base, i)[k]),
        decreases level, Self::ec() - i, 1nat,
    {
        if i < Self::ec() {
            self.lemma_entry_leaves_sound(level, base, i);
            self.lemma_leaves_sound(level, base, i + 1);
            let a = self.entry_leaves(level, base, i);
            let b = self.leaves_from(level, base, i + 1);
            let c = self.leaves_from(level, base, i);
            assert(c == a + b);
            assert forall|k: int| 0 <= k < c.len() implies self.holds_mapping(level, #[trigger] c[k]) by {
                if k < a.len() {
                    assert(c[k] == a[k]);
                } else {
                    assert(c[k] == b[k - a.len()]);
                }
            }
        } else {
            assert(self.leaves_from(level, base, i) =~= Seq::<(usize, usize, usize, u64)>::empty());
        }
    }

    /// Each page in the block of entry `i` onwards that this well-formed
    /// level-`level` table maps, its block starting at `base`, lies within one of
    /// the mappings listed from entry `i` on.
    pub proof fn lemma_leaves_complete(&self, level: nat, base: nat, i: nat, v: nat)
        requires
            self.wf(level),
            Self::format_ok(),
            i <= Self::ec(),
            base + Self::ec() * Self::span(level) <= usize::MAX,
            base % (Self::ec() * Self::span(level)) == 0,
            base + i * Self::span(level) <= v < base + Self::ec() * Self::span(level),
            self.translate(level, v) is Some,
        ensures
            covers(self.leaves_from(level, base, i), v),
        decreases level, Self::ec() - i,
    {
        let sp = Self::span(level);
        assert(sp > 0) by {
            vstd::arithmetic::power2::lemma_pow2_pos(level * SIZE as nat);
        }
        if i >= Self::ec() {
            assert(base + i * sp >= base + Self::ec() * sp) by (nonlinear_arith) requires i >= Self::ec(), sp > 0;
        }
        let a = self.entry_leaves(level, base, i);
        let b = self.leaves_from(level, base, i + 1);
        assert(self.leaves_from(level, base, i) == a + b);
        assert(i * sp + sp == (i + 1) * sp) by (nonlinear_arith);
        assert((i + 1) * sp <= Self::ec() * sp) by (nonlinear_arith) requires i + 1 <= Self::ec(), sp > 0;
        if v >= base + (i + 1) * sp {
            self.lemma_leaves_complete(level, base, i + 1, v);
            let k = choose|k: int| 0 <= k < b.len() && (#[trigger] b[k]).0 <= v < b[k].0 + b[k].2;
            assert((a + b)[k + a.len()] == b[k]);
        } else {
            let o = (v - (base + i * sp)) as nat;
            Self::lemma_in_entry(base, i, o, level);
            let e = self.entries@[i as int];
            self.lemma_wf_inv(level);
            if e.spec_valid() && e.spec_leaf() {
                assert(a[0].0 == base + i * sp);
                assert((a + b)[0] == a[0]);
            } else {
                assert(e.spec_valid() && level > 0);
                let c = self.branches@[i as int]->0;
                assert(self.branches@[i as int] is Some);
                Self::lemma_span_step((level - 1) as nat);
                let sc = Self::span((level - 1) as nat);
                let b2 = base + i * sp;
                assert(sp == Self::ec() * sc) by (nonlinear_arith) requires sp == sc * Self::ec();
                Self::lemma_in_entry(base, i, 0, level);
                assert(b2 % (Self::ec() * sc) == 0);
                assert(b2 + 0 * sc == b2);
                c.lemma_leaves_complete((level - 1) as nat, b2, 0, v);
                assert(a == c.leaves_from((level - 1) as nat, b2, 0));
                let k = choose|k: int| 0 <= k < a.len() && (#[trigger] a[k]).0 <= v < a[k].0 + a[k].2;
                assert((a + b)[k] == a[k]);
            }
        }
    }

    /// The mapping `m` covers as many pages as one entry of some level up to `level`:
    /// `entry_count()` to the power of that level.
    pub open spec fn sized_at_most(m: (usize, usize, usize, u64), level: nat) -> bool {
        exists|j: nat| j <= level && m.2 == #[trigger] Self::span(j)
    }

    /// Each mapping listed for entry `i` of a well-formed level-`level` table covers
    /// the pages of one entry of its own level.
    proof fn lemma_entry_leaves_sized(&self, level: nat, base: nat, i: nat)
        requires
            self.wf(level),
            Self::format_ok(),
            i < Self::ec(),
            base + Self::ec() * Self::span(level) <= usize::MAX,
        ensures
            forall|k: int| 0 <= k < self.entry_leaves(level, base, i).len()
                ==> Self::sized_at_most(#[trigger] self.entry_leaves(level, base, i)[k], level),
        decreases level, Self::ec() - i, 0nat,
    {
        let sp = Self::span(level);
        let l = self.entry_leaves(level, base, i);
        assert(sp > 0) by {
            vstd::arithmetic::power2::lemma_pow2_pos(level * SIZE as nat);
        }
        assert(sp <= Self::ec() * sp) by (nonlinear_arith) requires Self::ec() >= 1, sp > 0 {
            assert(Self::ec() >= 1) by {
                vstd::arithmetic::power2::lemma_pow2_pos(SIZE as nat);
            }
        }
        let e = self.entries@[i as int];
        if e.spec_valid() && e.spec_leaf() {
            assert forall|k: int| 0 <= k < l.len() implies Self::sized_at_most(#[trigger] l[k], level) by {
                assert(l[k].2 == Self::span(level));
            }
        } else if e.spec_valid() && level > 0 {
            if let Some(c) = self.branches@[i as int] {
                Self::lemma_span_step((level - 1) as nat);
                let sc = Self::span((level - 1) as nat);
                let b2 = base + i * sp;
                assert(sp == Self::ec() * sc) by (nonlinear_arith) requires sp == sc * Self::ec();
                assert((i + 1) * sp <= Self::ec() * sp) by (nonlinear_arith) requires i + 1 <= Self::ec(), sp > 0;
                assert(i * sp + sp == (i + 1) * sp) by (nonlinear_arith);
                c.lemma_leaves_sized((level - 1) as nat, b2, 0);
                assert(l == c.leaves_from((level - 1) as nat, b2, 0));
                assert forall|k: int| 0 <= k < l.len() implies Self::sized_at_most(#[trigger] l[k], level) by {
                    assert(Self::sized_at_most(c.leaves_from((level - 1) as nat, b2, 0)[k], (level - 1) as nat));
                    assert(Self::sized_at_most(l[k], (level - 1) as nat));
                    let j = choose|j: nat| j <= (level - 1) as nat && l[k].2 == #[trigger] Self::span(j);
                    assert(j <= level && l[k].2 == Self::span(j));
                }
            }
        }
    }

    /// Each mapping listed from entry `i` on of a well-formed level-`level` table
    /// covers the pages of one entry of some level up to `level`.
    pub proof fn lemma_leaves_sized(&self, level: nat, base: nat, i: nat)
        requires
            self.wf(level),
            Self::format_ok(),
            i <= Self::ec(),
            base + Self::ec() * Self::span(level) <= usize::MAX,
        ensures
            forall|k: int| 0 <= k < self.leaves_from(level, base, i).len()
                ==> Self::sized_at_most(#[trigger] self.leaves_from(level, base, i)[k], level),
        decreases level, Self::ec() - i, 1nat,
    {
        if i < Self::ec() {
            self.lemma_entry_leaves_sized(level, base, i);
            self.lemma_leaves_sized(level, base, i + 1);
            let a = self.entry_leaves(level, base, i);
            let b = self.leaves_from(level, base, i + 1);
            let c = self.leaves_from(level, base, i);
            assert(c == a + b);
            assert forall|k: int| 0 <= k < c.len() implies Self::sized_at_most(#[trigger] c[k], level) by {
                if k < a.len() {
                    assert(c[k] == a[k]);
                } else {
                    assert(c[k] == b[k - a.len()]);
                }
            }
        } else {
            assert(self.leaves_from(level, base, i) =~= Seq::<(usize, usize, usize, u64)>::empty());
        }
    }
}


/// Page `v` lies within one of the mappings `s`.
pub open spec fn covers(s: Seq<(usize, usize, usize, u64)>, v: nat) -> bool {
    exists|k: int| 0 <= k < s.len() && (#[trigger] s[k]).0 <= v < s[k].0 + s[k].2
}

/// The mappings `s` lie in order between pages `lo` and `hi`: each covers at least
/// one page within them, and each ends before the next begins.
pub open spec fn ordered_within(s: Seq<(usize, usize, usize, u64)>, lo: nat, hi: nat) -> bool {
    &&& forall|k: int| 0 <= k < s.len() ==> lo <= (#[trigger] s[k]).0 && s[k].0 + s[k].2 <= hi && s[k].2 > 0
    &&& forall|j: int, k: int| 0 <= j < k < s.len() ==> #[trigger] s[j].0 + s[j].2 <= #[trigger] s[k].0
}

proof fn lemma_ordered_concat(a: Seq<(usize, usize, usize, u64)>, b: Seq<(usize, usize, usize, u64)>, lo: nat, mid: nat, hi: nat)
    requires
        ordered_within(a, lo, mid),
        ordered_within(b, mid, hi),
        lo <= mid <= hi,
    ensures
        ordered_within(a + b, lo, hi),
{
    let c = a + b;
    assert forall|j: int, k: int| 0 <= j < k < c.len() implies #[trigger] c[j].0 + c[j].2 <= #[trigger] c[k].0 by {
        if k < a.len() {
        } else if j >= a.len() {
            assert(c[j] == b[j - a.len()] && c[k] == b[k - a.len()]);
        } else {
            assert(c[j] == a[j] && c[k] == b[k - a.len()]);
        }
    }
    assert forall|k: int| 0 <= k < c.len() implies lo <= (#[trigger] c[k]).0 && c[k].0 + c[k].2 <= hi && c[k].2 > 0 by {
        if k < a.len() {
            assert(c[k] == a[k]);
        } else {
            assert(c[k] == b[k - a.len()]);
        }
    }
}

} // verus!
