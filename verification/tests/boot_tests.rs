use erhino_kernel::fal::{DentryMeta, File, FilesystemAbstractLayerError};
use erhino_kernel::fs::Vfs;
use erhino_kernel::path::Path;
use erhino_kernel::proc::sch::smooth::{ProcessTable, SmoothScheduler};
use erhino_kernel::proc::{Process, ProcessSpawnError};
use erhino_kernel::rt::{load_initfs, BootError};

fn elf_image(machine: u16, kind: u16, entry: u64) -> Vec<u8> {
    let mut image = vec![0u8; 64];
    image[0..4].copy_from_slice(&[0x7f, b'E', b'L', b'F']);
    image[4] = 2;
    image[5] = 1;
    image[6] = 1;
    image[16..18].copy_from_slice(&kind.to_le_bytes());
    image[18..20].copy_from_slice(&machine.to_le_bytes());
    image[20..24].copy_from_slice(&1u32.to_le_bytes());
    image[24..32].copy_from_slice(&entry.to_le_bytes());
    image[52..54].copy_from_slice(&64u16.to_le_bytes());
    image
}

fn path(text: &str) -> Path {
    Path::from(text).unwrap()
}

#[test]
fn initfs_files_and_programs() {
    let mut vfs = Vfs::init();
    let mut table = ProcessTable::new();
    table.add(Process::new(String::from("kernel"), 0));
    let files = vec![
        (String::from("etc/motd"), 0x9000_0000, b"hello".to_vec()),
        (String::from("bin/init"), 0x9000_1000, elf_image(0xF3, 2, 0x1_0000)),
        (String::from("bin/sh"), 0x9000_2000, elf_image(0xF3, 2, 0x2_0000)),
    ];
    let pids = match load_initfs(&mut vfs, &mut table, &files) {
        Ok(pids) => pids,
        Err(_) => panic!("the files were expected to load"),
    };
    assert_eq!(pids, vec![1, 2]);
    assert_eq!(table.len(), 3);
    let motd = vfs.lookup(&path("/boot/etc/motd"), &vec![]).ok().unwrap();
    assert_eq!(motd.size(), 5);
    assert!(matches!(motd.meta(), DentryMeta::File(File::Stream)));
    assert!(matches!(vfs.lookup(&path("/boot/bin"), &vec![]).ok().unwrap().meta(), DentryMeta::Directory(_)));
    let mut sch = SmoothScheduler::new(0);
    assert!(sch.can_switch(&table));
    assert_eq!(sch.switch_next(&mut table), (0, 0));
    let _ = sch.switch_next(&mut table);
    let (p, _) = sch.current(&table).unwrap();
    assert_eq!(p.name, "kernel");
}

#[test]
fn initfs_refuses_a_foreign_program() {
    let mut vfs = Vfs::init();
    let mut table = ProcessTable::new();
    let files = vec![(String::from("bin/x86"), 0x1000, elf_image(0x3E, 2, 0x1_0000))];
    assert!(matches!(load_initfs(&mut vfs, &mut table, &files), Err(BootError::Spawn(ProcessSpawnError::WrongTarget))));
    assert_eq!(table.len(), 0);
    let broken = vec![(String::from("bin/broken"), 0x1000, b"junk".to_vec())];
    let mut vfs2 = Vfs::init();
    assert!(matches!(load_initfs(&mut vfs2, &mut table, &broken), Err(BootError::Spawn(ProcessSpawnError::BrokenBinary))));
}

#[test]
fn initfs_refuses_clashing_files() {
    let mut vfs = Vfs::init();
    let mut table = ProcessTable::new();
    let files = vec![(String::from("a"), 0x1000, vec![1]), (String::from("a"), 0x2000, vec![2])];
    assert!(matches!(
        load_initfs(&mut vfs, &mut table, &files),
        Err(BootError::Filesystem(FilesystemAbstractLayerError::Conflict))
    ));
    let mut twice = Vfs::init();
    assert!(load_initfs(&mut twice, &mut table, &vec![]).is_ok());
    assert!(matches!(load_initfs(&mut twice, &mut table, &vec![]), Err(BootError::Filesystem(_))));
}

#[test]
fn scheduling_needs_a_runnable_table() {
    let table = ProcessTable::new();
    assert!(!SmoothScheduler::new(0).can_switch(&table));
}
