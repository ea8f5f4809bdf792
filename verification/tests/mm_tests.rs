use erhino_kernel::mm::address::{PhysicalAddress, VirtualAddress};
use erhino_kernel::mm::frame::{FramePool, FrameTracker};
use erhino_kernel::mm::page::{
    PageEntryFlag, PageEntryType, PageEntryWriteError, PageTable, PageTableEntry39, FLAG_READABLE, FLAG_VALID,
    FLAG_WRITEABLE,
};
use erhino_kernel::mm::unit::{kernel_space, KernelUnit, MemoryUnitError};
use erhino_kernel::mm::usage::MemoryUsage;

type Table39 = PageTable<true, 56, 3, 9>;

const KERNEL_PROGRAM: u64 = 0b1100_1111;
const KERNEL_DEVICE: u64 = 0b1100_0111;

fn pool(start: usize, frames: usize) -> FramePool {
    let mut p = FramePool::new();
    p.add_frame(start, start + frames);
    p
}

#[test]
fn virtual_address_fields() {
    let v = VirtualAddress(0x4020_3456);
    assert_eq!(v.vpn(), (0x3000, 0x20_0000, 0x4000_0000));
    assert_eq!(v.offset(), 0x456);
    let p: PhysicalAddress = PhysicalAddress::from(0x8000_0000u64);
    assert!(p == PhysicalAddress(0x8000_0000));
}

#[test]
fn usage_starts_empty() {
    assert_eq!(MemoryUsage::new(), MemoryUsage { page: 0, program: 0, heap: 0, stack: 0 });
}

#[test]
fn flag_combinations() {
    assert_eq!(PageEntryFlag::Valid.bits(), 1);
    assert_eq!(PageEntryFlag::PrefabKernelDevice.bits(), KERNEL_DEVICE);
    assert_eq!(PageEntryFlag::PrefabKernelProgram.bits(), KERNEL_PROGRAM);
    assert_eq!(PageEntryFlag::PrefabUserStack.bits(), 0b1_0111);
    assert_eq!(PageEntryFlag::CowWriteable.bits(), 0b10_0000_0000);
}

#[test]
fn entry_fields() {
    let mut e = PageTableEntry39::from_bits(0);
    assert!(!e.is_valid());
    e.set(0x80123, FLAG_VALID | FLAG_READABLE);
    assert_eq!(e.bits(), (0x80123 << 10) | 0b11);
    assert!(e.is_valid());
    assert!(e.is_leaf());
    assert_eq!(e.physical_page_number(), 0x80123);
    assert_eq!(e.flags(), 0b11);
    e.set_flags(FLAG_WRITEABLE);
    assert!(e.has_flags(FLAG_WRITEABLE));
    e.clear_flags(FLAG_READABLE | FLAG_WRITEABLE);
    assert!(!e.is_leaf());
    assert_eq!(e.physical_page_number(), 0x80123);
    e.clear();
    assert_eq!(e.bits(), 0);
    assert_eq!(PageTableEntry39::top_address(), usize::MAX);
    assert_eq!(PageTableEntry39::space_size(), 1usize << 38);
    assert_eq!(PageTableEntry39::ppn_limit(), 1u64 << 46);
}

#[test]
fn frames_from_pool() {
    let mut p = pool(0x80000, 4);
    let t = p.borrow(2).unwrap();
    assert_eq!(t.len(), 2);
    assert!(t.start() >= 0x80000 && t.start() + 2 <= 0x80004);
    assert_eq!(t.start() % 2, 0);
    let u = p.borrow(2).unwrap();
    assert!(u.start() + 2 <= t.start() || t.start() + 2 <= u.start());
    assert!(p.borrow(1).is_none());
    assert!(p.allocate(1).is_none());
    let mut odd = pool(0x80001, 3);
    assert!(odd.borrow(3).is_none());
    assert_eq!(odd.borrow(2).unwrap().start(), 0x80002);
    assert_eq!(odd.allocate(1), Some(0x80001));
    assert!(odd.allocate(1).is_none());
    let tracker = FrameTracker::new(7, 3);
    assert_eq!((tracker.start(), tracker.len()), (7, 3));
}

#[test]
fn table_entries() {
    let mut p = pool(0x90000, 4);
    let mut table = Table39::from(0x80000);
    assert_eq!(Table39::entry_count(), 512);
    assert_eq!(table.page_number(), 0x80000);
    assert!(!table.is_entry_created(3));
    assert!(table.create_leaf(3, 0x100, KERNEL_PROGRAM).is_ok());
    assert!(table.is_entry_created(3));
    assert!(matches!(table.get_entry_type(3), PageEntryType::Leaf(0x100, KERNEL_PROGRAM)));
    assert!(matches!(table.create_leaf(3, 0x200, KERNEL_PROGRAM), Err(PageEntryWriteError::LeafExists(0x100, KERNEL_PROGRAM))));
    assert!(matches!(table.ensure_leaf_created(3, 0x100, FLAG_VALID | FLAG_WRITEABLE), Ok(false)));
    assert!(matches!(table.ensure_leaf_created(3, 0x101, KERNEL_PROGRAM), Err(PageEntryWriteError::LeafExists(0x100, _))));
    assert!(matches!(table.ensure_leaf_created(4, 0x101, KERNEL_PROGRAM), Ok(true)));
    assert!(table.ensure_table_created(5, &mut p).is_ok());
    assert!(table.is_table_created(5));
    assert!(table.get_table(5).is_some());
    assert!(matches!(table.get_entry_type(5), PageEntryType::Branch(_)));
    assert!(matches!(table.create_leaf(5, 0x1, KERNEL_PROGRAM), Err(PageEntryWriteError::BranchExists)));
    assert!(matches!(table.ensure_table_created(3, &mut p), Err(PageEntryWriteError::LeafExists(0x100, _))));
    assert_eq!(table.free_entry(3), Some(0x100));
    assert!(!table.is_entry_created(3));
    assert_eq!(table.free_entry(3), None);
    assert!(table.free_entry(5).is_some());
    assert!(!table.is_table_created(5));
    assert!(matches!(table.get_entry_type(6), PageEntryType::Invalid));
}

#[test]
fn managed_leaves() {
    let mut p = pool(0x90000, 2);
    let mut table = Table39::from(0x80000);
    assert!(table.create_managed_leaf(0, FrameTracker::new(0x90010, 1), KERNEL_PROGRAM).is_ok());
    assert!(matches!(table.get_entry_type(0), PageEntryType::Leaf(0x90010, KERNEL_PROGRAM)));
    assert!(matches!(table.ensure_managed_leaf_created(0, &mut p, KERNEL_PROGRAM), Ok(false)));
    assert!(matches!(table.ensure_managed_leaf_created(1, &mut p, KERNEL_PROGRAM), Ok(true)));
    assert!(matches!(table.ensure_managed_leaf_created(2, &mut p, KERNEL_PROGRAM), Ok(true)));
    assert!(matches!(table.ensure_managed_leaf_created(3, &mut p, KERNEL_PROGRAM), Err(PageEntryWriteError::TrackerUnavailable)));
}

#[test]
fn unit_needs_a_frame() {
    let mut empty = FramePool::new();
    assert_eq!(KernelUnit::new(&mut empty).err(), Some(MemoryUnitError::RanOutOfFrames));
    let mut one = pool(0x80000, 1);
    let mut unit = KernelUnit::new(&mut one).unwrap();
    assert_eq!(unit.satp(), 0x80000);
    assert!(unit.mappings().is_empty());
    assert_eq!(unit.map(&mut one, 0x10, 0x90000, 1, KERNEL_PROGRAM), Err(MemoryUnitError::RanOutOfFrames));
    assert!(unit.mappings().is_empty());
}

#[test]
fn top_page_number_of_sv39() {
    assert_eq!(KernelUnit::top_page_number(), 1 << 26);
}

#[test]
fn map_small_pages() {
    let mut p = pool(0x80000, 16);
    let mut unit = KernelUnit::new(&mut p).unwrap();
    assert_eq!(unit.map(&mut p, 0x10, 0x90000, 3, KERNEL_PROGRAM), Ok(()));
    assert_eq!(
        unit.mappings(),
        vec![(0x10, 0x90000, 1, KERNEL_PROGRAM), (0x11, 0x90001, 1, KERNEL_PROGRAM), (0x12, 0x90002, 1, KERNEL_PROGRAM)]
    );
    assert_eq!(unit.regions(), vec![(0x10, 0x90000, 3, KERNEL_PROGRAM)]);
}

#[test]
fn map_uses_large_pages() {
    let mut p = pool(0x80000, 16);
    let mut unit = KernelUnit::new(&mut p).unwrap();
    assert_eq!(unit.map(&mut p, 0x200, 0x90200, 512, KERNEL_DEVICE), Ok(()));
    assert_eq!(unit.mappings(), vec![(0x200, 0x90200, 512, KERNEL_DEVICE)]);
    assert_eq!(unit.map(&mut p, 0x40000, 0x40000, 0x40000, KERNEL_DEVICE), Ok(()));
    assert_eq!(
        unit.mappings(),
        vec![(0x200, 0x90200, 512, KERNEL_DEVICE), (0x40000, 0x40000, 0x40000, KERNEL_DEVICE)]
    );
}

#[test]
fn map_across_a_large_page_boundary() {
    let mut p = pool(0x80000, 16);
    let mut unit = KernelUnit::new(&mut p).unwrap();
    assert_eq!(unit.map(&mut p, 0x1F0, 0xA0000, 32, KERNEL_PROGRAM), Ok(()));
    let m = unit.mappings();
    assert_eq!(m.len(), 32);
    for (k, entry) in m.iter().enumerate() {
        assert_eq!(*entry, (0x1F0 + k, 0xA0000 + k, 1, KERNEL_PROGRAM));
    }
    assert_eq!(unit.regions(), vec![(0x1F0, 0xA0000, 32, KERNEL_PROGRAM)]);
}

#[test]
fn map_large_then_small_remainder() {
    let mut p = pool(0x80000, 16);
    let mut unit = KernelUnit::new(&mut p).unwrap();
    assert_eq!(unit.map(&mut p, 0x200, 0x90200, 514, KERNEL_PROGRAM), Ok(()));
    assert_eq!(
        unit.mappings(),
        vec![(0x200, 0x90200, 512, KERNEL_PROGRAM), (0x400, 0x90400, 1, KERNEL_PROGRAM), (0x401, 0x90401, 1, KERNEL_PROGRAM)]
    );
    assert_eq!(unit.regions(), vec![(0x200, 0x90200, 514, KERNEL_PROGRAM)]);
}

#[test]
fn map_refuses_overwrite() {
    let mut p = pool(0x80000, 16);
    let mut unit = KernelUnit::new(&mut p).unwrap();
    assert_eq!(unit.map(&mut p, 0x10, 0x90000, 1, KERNEL_PROGRAM), Ok(()));
    assert_eq!(unit.map(&mut p, 0x10, 0x95000, 1, KERNEL_PROGRAM), Err(MemoryUnitError::EntryOverwrite));
    assert_eq!(unit.map(&mut p, 0x200, 0x90200, 512, KERNEL_PROGRAM), Ok(()));
    assert_eq!(unit.map(&mut p, 0x210, 0x95000, 1, KERNEL_PROGRAM), Err(MemoryUnitError::EntryOverwrite));
    assert_eq!(unit.mappings(), vec![(0x10, 0x90000, 1, KERNEL_PROGRAM), (0x200, 0x90200, 512, KERNEL_PROGRAM)]);
}

#[test]
fn map_of_nothing_changes_nothing() {
    let mut p = pool(0x80000, 16);
    let mut unit = KernelUnit::new(&mut p).unwrap();
    assert_eq!(unit.map(&mut p, 0x10, 0x90000, 0, KERNEL_PROGRAM), Ok(()));
    assert!(unit.mappings().is_empty());
}

#[test]
fn kernel_address_space() {
    let mut p = pool(0x70000, 16);
    let (unit, satp) = kernel_space(&mut p, 0x80000, 0x88000, 0x87000).unwrap();
    assert!(satp >= 0x70000 && satp < 0x70010);
    assert_eq!(unit.satp(), satp);
    assert_eq!(
        unit.regions(),
        vec![
            (0, 0, 0x80000, KERNEL_DEVICE),
            (0x80000, 0x80000, 0x8000, KERNEL_PROGRAM),
            (0x7FF_FFFF, 0x87000, 1, KERNEL_PROGRAM),
        ]
    );
}

#[test]
fn kernel_space_without_frames() {
    let mut p = FramePool::new();
    assert_eq!(kernel_space(&mut p, 0x80000, 0x88000, 0x87000).err(), Some(MemoryUnitError::RanOutOfFrames));
}

#[test]
fn running_out_of_frames_empties_the_pool() {
    let mut p = pool(0x70000, 2);
    assert_eq!(kernel_space(&mut p, 0x80000, 0x88000, 0x87000).err(), Some(MemoryUnitError::RanOutOfFrames));
    assert!(p.borrow(1).is_none());
    let mut one = pool(0x90000, 1);
    assert!(KernelUnit::new(&mut one).is_ok());
    assert!(one.borrow(1).is_none());
}

#[test]
fn large_pages_only_where_both_numbers_are_aligned() {
    let mut p = pool(0x80000, 16);
    let mut unit = KernelUnit::new(&mut p).unwrap();
    assert_eq!(unit.map(&mut p, 0x200, 0x90201, 512, KERNEL_PROGRAM), Ok(()));
    let m = unit.mappings();
    assert_eq!(m.len(), 512);
    assert!(m.iter().all(|entry| entry.2 == 1));
    assert_eq!(unit.regions(), vec![(0x200, 0x90201, 512, KERNEL_PROGRAM)]);
}

#[test]
fn released_frames_merge_back_into_blocks() {
    let mut p = FramePool::new();
    p.add_frame(0x100, 0x104);
    let tracker = p.borrow(1).unwrap();
    assert_eq!(tracker.start(), 0x100);
    assert_eq!(p.allocate(4), None);
    p.release(tracker);
    assert_eq!(p.allocate(4), Some(0x100));
    assert_eq!(p.allocate(1), None);
    p.dealloc(0x100, 4);
    assert_eq!(p.allocate(2), Some(0x100));
}

#[test]
fn multi_frame_blocks_come_from_added_ranges() {
    let mut p = FramePool::new();
    p.add_frame(0x80000, 0x88000);
    let first = p.allocate(8).unwrap();
    assert_eq!(first % 8, 0);
    let tracker = p.borrow(0x4000).unwrap();
    assert_eq!(tracker.start() % 0x4000, 0);
    assert_eq!(p.allocate(0x8000), None);
    let mut small = FramePool::new();
    small.add_frame(0x101, 0x104);
    assert_eq!(small.allocate(4), None);
    assert_eq!(small.allocate(2), Some(0x102));
}

#[test]
fn map_goes_through_tables_already_there() {
    let mut p = pool(0x80000, 16);
    let mut unit = KernelUnit::new(&mut p).unwrap();
    assert_eq!(unit.map(&mut p, 0x10, 0x90000, 1, KERNEL_PROGRAM), Ok(()));
    assert_eq!(unit.map(&mut p, 0x11, 0x90001, 2, KERNEL_PROGRAM), Ok(()));
    assert_eq!(unit.map(&mut p, 0x300, 0x90300, 0x100, KERNEL_DEVICE), Ok(()));
    assert_eq!(unit.regions(), vec![(0x10, 0x90000, 3, KERNEL_PROGRAM), (0x300, 0x90300, 0x100, KERNEL_DEVICE)]);
    assert_eq!(unit.map(&mut p, 0x400, 0x90400, 512, KERNEL_DEVICE), Ok(()));
    assert_eq!(unit.map(&mut p, 0x200, 0x90200, 512, KERNEL_DEVICE), Err(MemoryUnitError::EntryOverwrite));
}
