use erhino_kernel::mm::page::{FLAG_EXECUTABLE, FLAG_READABLE, FLAG_USER, FLAG_VALID, FLAG_WRITEABLE};
use erhino_kernel::proc::mem::layout::{MemoryLayout, BLOCK_SIZE};
use erhino_kernel::proc::sch::smooth::{ProcessCell, ProcessTable, SmoothScheduler, ThreadCell};
use erhino_kernel::proc::thread::Thread;
use erhino_kernel::proc::{flags_to_permission, Process, ProcessSpawnError, ProcessState};

fn table_of(names: &[&str]) -> ProcessTable {
    let mut table = ProcessTable::new();
    for name in names {
        table.add(Process::new(String::from(*name), 0x1000));
    }
    table
}

#[test]
fn new_process_and_thread() {
    let p = Process::new(String::from("init"), 0x1_0000);
    assert_eq!(p.name, "init");
    assert_eq!((p.pid, p.parent, p.entry_point), (0, 0, 0x1_0000));
    assert_eq!(p.state, ProcessState::Ready);
    let t = Thread::new(String::from("worker"));
    assert_eq!((t.name.as_str(), t.tid, t.state), ("worker", 0, ProcessState::Ready));
    let cell = ThreadCell::new(t, 4);
    assert_eq!(cell.generation, 4);
    assert!(!cell.locked);
    let pc = ProcessCell::new(p, 2);
    assert_eq!(pc.generation, 2);
    assert_eq!(pc.threads.len(), 1);
    assert_eq!(pc.threads[0].thread.name, "main");
    assert_eq!(pc.threads[0].generation, 2);
}

#[test]
fn table_gives_increasing_ids() {
    let mut table = ProcessTable::new();
    assert_eq!(table.len(), 0);
    assert_eq!(table.add(Process::new(String::from("a"), 0)), 0);
    assert_eq!(table.add(Process::new(String::from("b"), 0)), 1);
    assert_eq!(table.add(Process::new(String::from("c"), 0)), 2);
    assert_eq!(table.len(), 3);
}

#[test]
fn scheduler_alternates_processes() {
    let mut table = table_of(&["a", "b"]);
    let mut sch = SmoothScheduler::new(0);
    assert!(sch.current(&table).is_none());
    assert_eq!(sch.switch_next(&mut table), (0, 0));
    assert_eq!(sch.switch_next(&mut table), (0, 0));
    assert_eq!(sch.switch_next(&mut table), (1, 0));
    assert_eq!(sch.switch_next(&mut table), (1, 0));
    assert_eq!(sch.switch_next(&mut table), (0, 0));
    assert_eq!(sch.switch_next(&mut table), (1, 0));
    let (p, t) = sch.current(&table).unwrap();
    assert_eq!(p.pid, 1);
    assert_eq!(t.state, ProcessState::Running);
}

#[test]
fn scheduler_single_process_keeps_running() {
    let mut table = table_of(&["only"]);
    let mut sch = SmoothScheduler::new(1);
    for _ in 0..5 {
        assert_eq!(sch.switch_next(&mut table), (0, 0));
    }
}

#[test]
fn finish_marks_thread_dead() {
    let mut table = table_of(&["a", "b"]);
    let mut sch = SmoothScheduler::new(0);
    sch.finish(&mut table);
    assert_eq!(sch.switch_next(&mut table), (0, 0));
    sch.finish(&mut table);
    let (p, t) = sch.current(&table).unwrap();
    assert_eq!(p.name, "a");
    assert_eq!(t.state, ProcessState::Dead);
}

#[test]
fn pick_process_prefers_behind() {
    let mut table = table_of(&["a", "b", "c"]);
    assert_eq!(table.pick_process(), 0);
}

#[test]
fn permissions_from_segment_flags() {
    assert_eq!(flags_to_permission(0), FLAG_VALID | FLAG_USER);
    assert_eq!(flags_to_permission(0b101), FLAG_VALID | FLAG_USER | FLAG_EXECUTABLE | FLAG_READABLE);
    assert_eq!(flags_to_permission(0b110), FLAG_VALID | FLAG_USER | FLAG_WRITEABLE | FLAG_READABLE);
    assert_eq!(flags_to_permission(0b111), 0b1_1111);
    assert_eq!(flags_to_permission(0b1000), FLAG_VALID | FLAG_USER);
}

#[test]
fn stacks_fill_from_the_middle() {
    let mut layout = MemoryLayout::new(0x4000_0000);
    let mid = 0x2000_0000;
    assert_eq!(layout.new_stack(1), Ok(mid + BLOCK_SIZE));
    assert_eq!(layout.new_stack(2), Ok(mid + 2 * BLOCK_SIZE));
    assert_eq!(layout.new_stack(3), Ok(mid + 3 * BLOCK_SIZE));
    layout.finalize_stack(2);
    assert_eq!(layout.new_stack(4), Ok(mid + 2 * BLOCK_SIZE));
    layout.finalize_stack(3);
    layout.finalize_stack(1);
    assert_eq!(layout.new_stack(5), Ok(mid + BLOCK_SIZE));
    assert_eq!(layout.top(), 0x4000_0000);
}

#[test]
fn first_stack_is_one_block_above_the_middle() {
    let mut layout = MemoryLayout::new(0x40_0000_0000);
    assert_eq!(BLOCK_SIZE, 0x80_0000);
    assert_eq!(layout.new_stack(1), Ok(0x20_0080_0000));
}

#[test]
fn finalize_looks_only_at_the_front() {
    let mut layout = MemoryLayout::new(0x1000_0000);
    let mid = 0x0800_0000;
    layout.new_stack(1).unwrap();
    layout.new_stack(2).unwrap();
    layout.new_stack(3).unwrap();
    layout.finalize_stack(3);
    assert_eq!(layout.new_stack(4), Ok(mid + 4 * BLOCK_SIZE));
}

fn elf_image(machine: u16, kind: u16, entry: u64) -> Vec<u8> {
    let mut image = vec![0u8; 64];
    image[0..4].copy_from_slice(&[0x7f, b'E', b'L', b'F']);
    image[4] = 2;
    image[5] = 1;
    image[6] = 1;
    image[16..18].copy_from_slice(&kind.to_le_bytes());
    image[18..20].copy_from_slice(&machine.to_le_bytes());
    image[20..24].copy_from_slice(&1u32.to_le_bytes());
    image[24..32].copy_from_slice(&entry.to_le_bytes());
    image[52..54].copy_from_slice(&64u16.to_le_bytes());
    image
}

#[test]
fn process_from_elf_image() {
    match Process::from_elf(&elf_image(0xF3, 2, 0x1_0000), "init") {
        Ok(p) => {
            assert_eq!(p.name, "init");
            assert_eq!((p.pid, p.parent, p.entry_point), (0, 0, 0x1_0000));
            assert_eq!(p.state, ProcessState::Ready);
        }
        Err(e) => panic!("a process was expected, got {:?}", e),
    }
    assert_eq!(Process::from_elf(&elf_image(0x3E, 2, 0x1_0000), "x").err(), Some(ProcessSpawnError::WrongTarget));
    assert_eq!(Process::from_elf(&elf_image(0xF3, 3, 0x1_0000), "so").err(), Some(ProcessSpawnError::WrongTarget));
    assert_eq!(Process::from_elf(b"not an image", "bad").err(), Some(ProcessSpawnError::BrokenBinary));
    assert_eq!(Process::from_elf(&[], "empty").err(), Some(ProcessSpawnError::BrokenBinary));
}

#[test]
fn process_from_header_summary() {
    assert_eq!(Process::from_summary(None, "a").err(), Some(ProcessSpawnError::BrokenBinary));
    assert_eq!(Process::from_summary(Some((5, true, false)), "a").err(), Some(ProcessSpawnError::WrongTarget));
    assert_eq!(Process::from_summary(Some((5, false, true)), "a").err(), Some(ProcessSpawnError::WrongTarget));
    assert_eq!(Process::from_summary(Some((0x2000, true, true)), "a").ok().map(|p| p.entry_point), Some(0x2000));
}
