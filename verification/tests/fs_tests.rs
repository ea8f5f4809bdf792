use erhino_kernel::fal::{
    Dentry, DentryMeta, DentryObject, DentryType, File, FilesystemAbstractLayerError, PropertyKind, ATTR_EXECUTABLE,
    ATTR_READABLE,
};
use erhino_kernel::fs::procfs::{FsLayer, ProcessEntry, Procfs};
use erhino_kernel::fs::{get_local_index, Vfs};
use erhino_kernel::mm::usage::MemoryUsage;
use erhino_kernel::path::Path;

fn path(text: &str) -> Path {
    Path::from(text).unwrap()
}

fn names(entries: &[Dentry]) -> Vec<String> {
    entries.iter().map(|d| d.name().clone()).collect()
}

fn entry(pid: u64, page: usize, program: usize, heap: usize, stack: usize) -> ProcessEntry {
    ProcessEntry { pid, usage: MemoryUsage { page, program, heap, stack } }
}

#[test]
fn local_indices() {
    assert_eq!(get_local_index(0x1_0000_0000), Some(0));
    assert_eq!(get_local_index(0x3_0000_0007), Some(2));
    assert_eq!(get_local_index(42), None);
}

#[test]
fn procfs_layers() {
    assert_eq!(Procfs::parse(&path("/")).ok(), Some(FsLayer::Root));
    assert_eq!(Procfs::parse(&path("/12")).ok(), Some(FsLayer::Proc(12)));
    assert_eq!(Procfs::parse(&path("/12/Pid")).ok(), Some(FsLayer::PropPid(12)));
    assert_eq!(Procfs::parse(&path("/12/Memory")).ok(), Some(FsLayer::Memory));
    assert_eq!(Procfs::parse(&path("/12/Memory/Page")).ok(), Some(FsLayer::MemoryPage(12)));
    assert_eq!(Procfs::parse(&path("/12/Memory/Stack")).ok(), Some(FsLayer::MemoryStack(12)));
    assert!(matches!(Procfs::parse(&path("/x/Pid")), Err(FilesystemAbstractLayerError::NotFound)));
    assert!(matches!(Procfs::parse(&path("/12/Other")), Err(FilesystemAbstractLayerError::NotFound)));
    assert!(matches!(Procfs::parse(&path("/12/Pid/More")), Err(FilesystemAbstractLayerError::NotFound)));
    assert!(matches!(Procfs::parse(&path("12")), Err(FilesystemAbstractLayerError::InvalidPath)));
    assert_eq!(Procfs::parse(&path("/+7")).ok(), Some(FsLayer::Proc(7)));
    assert_eq!(Procfs::parse(&path("/18446744073709551615")).ok(), Some(FsLayer::Proc(u64::MAX)));
    assert!(matches!(Procfs::parse(&path("/18446744073709551616")), Err(FilesystemAbstractLayerError::NotFound)));
    assert!(matches!(Procfs::parse(&path("/-7")), Err(FilesystemAbstractLayerError::NotFound)));
    assert!(matches!(Procfs::parse(&path("/+")), Err(FilesystemAbstractLayerError::NotFound)));
    assert!(matches!(Procfs::parse(&path("/7a")), Err(FilesystemAbstractLayerError::NotFound)));
    assert!(matches!(Procfs::layer(&path("/x/Memory/Heap"), Some(3)), Ok(FsLayer::MemoryHeap(3))));
}

#[test]
fn vfs_root_lists_processes_mount() {
    let vfs = Vfs::init();
    let root = vfs.lookup(&path("/"), &vec![]).ok().unwrap();
    match root.meta() {
        DentryMeta::Directory(subs) => {
            assert_eq!(names(subs), vec!["Processes"]);
            assert!(matches!(subs[0].meta(), DentryMeta::MountPoint(0x1_0000_0000)));
        }
        _ => panic!("the root is a directory"),
    }
}

#[test]
fn vfs_routes_into_procfs() {
    let vfs = Vfs::init();
    let pids = vec![1, 25];
    let mount = vfs.lookup(&path("/Processes"), &pids).ok().unwrap();
    assert!(matches!(mount.meta(), DentryMeta::MountPoint(0x1_0000_0000)));
    let listing = Procfs::new().lookup(&path("/"), &pids).ok().unwrap();
    match listing.meta() {
        DentryMeta::Directory(subs) => assert_eq!(names(subs), vec!["1", "25"]),
        _ => panic!("the process root is a directory"),
    }
    let process = vfs.lookup(&path("/Processes/25"), &pids).ok().unwrap();
    assert_eq!(process.name(), "25");
    match process.meta() {
        DentryMeta::Directory(subs) => assert_eq!(names(subs), vec!["Memory", "Pid"]),
        _ => panic!("a process is a directory"),
    }
    let memory = vfs.lookup(&path("/Processes/25/Memory"), &pids).ok().unwrap();
    match memory.meta() {
        DentryMeta::Directory(subs) => assert_eq!(names(subs), vec!["Page", "Program", "Heap", "Stack"]),
        _ => panic!("memory is a directory"),
    }
    let pid = vfs.lookup(&path("/Processes/25/Pid"), &pids).ok().unwrap();
    assert_eq!(pid.size(), 8);
    assert_eq!(pid.attributes(), ATTR_READABLE);
    assert!(matches!(pid.meta(), DentryMeta::File(File::Property(PropertyKind::Integer))));
    assert!(matches!(vfs.lookup(&path("/Processes/abc"), &pids), Err(FilesystemAbstractLayerError::InvalidPath)));
    assert!(matches!(vfs.lookup(&path("/Nowhere"), &pids), Err(FilesystemAbstractLayerError::NotFound)));
}

#[test]
fn vfs_reads_process_properties() {
    let vfs = Vfs::init();
    let procs = vec![entry(7, 1, 2, 3, 4), entry(9, 10, 20, 30, 40)];
    assert_eq!(vfs.read(&path("/Processes/7/Pid"), 8, &procs).ok(), Some(7i64.to_ne_bytes().to_vec()));
    assert_eq!(vfs.read(&path("/Processes/7/Memory/Heap"), 8, &procs).ok(), Some(3i64.to_ne_bytes().to_vec()));
    assert_eq!(vfs.read(&path("/Processes/9/Memory/Page"), 8, &procs).ok(), Some(10i64.to_ne_bytes().to_vec()));
    assert_eq!(vfs.read(&path("/Processes/9/Memory/Stack"), 8, &procs).ok(), Some(40i64.to_ne_bytes().to_vec()));
    assert!(matches!(vfs.read(&path("/Processes/8/Memory/Heap"), 8, &procs), Err(FilesystemAbstractLayerError::NotFound)));
    assert!(matches!(vfs.read(&path("/Processes"), 8, &procs), Err(FilesystemAbstractLayerError::Unsupported)));
    assert!(matches!(vfs.read(&path("/Processes/x"), 8, &procs), Err(FilesystemAbstractLayerError::InvalidPath)));
}

#[test]
fn vfs_creates_and_reads_properties() {
    let mut vfs = Vfs::init();
    assert!(vfs.create(&path("/Config"), DentryType::Directory, ATTR_READABLE).is_ok());
    assert!(vfs.create(&path("/Config/Level"), DentryType::Integer, ATTR_READABLE).is_ok());
    assert!(vfs.create(&path("/Config/Names"), DentryType::Integers, ATTR_READABLE).is_ok());
    assert!(vfs.create(&path("/Config/Title"), DentryType::String, ATTR_READABLE).is_ok());
    assert_eq!(vfs.read(&path("/Config/Level"), 8, &vec![]).ok(), Some(0i64.to_ne_bytes().to_vec()));
    assert_eq!(vfs.read(&path("/Config/Names"), 8, &vec![]).ok(), Some(vec![]));
    assert_eq!(vfs.read(&path("/Config/Title"), 8, &vec![]).ok(), Some(vec![]));
    assert!(matches!(vfs.create(&path("/Config/Level"), DentryType::Integer, 0), Err(FilesystemAbstractLayerError::Conflict)));
    assert!(matches!(vfs.create(&path("/Config/Level/Inner"), DentryType::Integer, 0), Err(FilesystemAbstractLayerError::Mistyped)));
    assert!(matches!(vfs.create(&path("/Missing/x"), DentryType::Integer, 0), Err(FilesystemAbstractLayerError::NotFound)));
    assert!(matches!(vfs.create(&path("/Config/Link"), DentryType::Link, 0), Err(FilesystemAbstractLayerError::Unsupported)));
    assert!(matches!(vfs.create(&path("/Processes/x"), DentryType::Integer, 0), Err(FilesystemAbstractLayerError::Mistyped)));
    assert!(matches!(vfs.create(&path("/Processes/1/x"), DentryType::Integer, 0), Err(FilesystemAbstractLayerError::Unsupported)));
    assert!(matches!(vfs.read(&path("/Config"), 8, &vec![]), Err(FilesystemAbstractLayerError::Unsupported)));
    let config = vfs.lookup(&path("/Config"), &vec![]).ok().unwrap();
    match config.meta() {
        DentryMeta::Directory(subs) => assert_eq!(names(subs), vec!["Level", "Names", "Title"]),
        _ => panic!("a directory was made"),
    }
}

#[test]
fn vfs_makes_directories() {
    let mut vfs = Vfs::init();
    assert!(vfs.make_directory(&path("/a/b/c"), ATTR_READABLE, &vec![]).is_ok());
    assert!(matches!(vfs.lookup(&path("/a/b/c"), &vec![]).ok().unwrap().meta(), DentryMeta::Directory(_)));
    assert!(vfs.make_directory(&path("/a/b"), ATTR_READABLE, &vec![]).is_ok());
    assert!(vfs.make_directory(&path("/Processes"), ATTR_READABLE, &vec![]).is_ok());
}

#[test]
fn vfs_refuses_writes() {
    let vfs = Vfs::init();
    assert!(matches!(vfs.write(&path("/Processes/1/Pid"), &vec![1]), Err(FilesystemAbstractLayerError::Unsupported)));
    assert!(matches!(vfs.write(&path("/"), &vec![]), Err(FilesystemAbstractLayerError::Unsupported)));
}

#[test]
fn vfs_mounts_and_streams() {
    let mut vfs = Vfs::init();
    assert!(vfs.mount_remote(&path("/Remote"), 42).is_ok());
    match vfs.lookup(&path("/Remote/x/y"), &vec![]) {
        Err(FilesystemAbstractLayerError::ForeignMountPoint(rest, mid)) => {
            assert_eq!(mid, 42);
            assert!(rest.is_absolute());
            assert_eq!(rest.len(), 2);
            assert_eq!(rest.name_at(0), "x");
        }
        _ => panic!("a foreign mount point was expected"),
    }
    assert!(matches!(vfs.mount_remote(&path("/"), 1), Err(FilesystemAbstractLayerError::InvalidPath)));
    assert!(vfs.mount_local(&path("/Proc2"), 0).is_ok());
    assert!(matches!(vfs.lookup(&path("/Proc2"), &vec![3]).ok().unwrap().meta(), DentryMeta::MountPoint(0x1_0000_0000)));
    let process = vfs.lookup(&path("/Proc2/3"), &vec![3]).ok().unwrap();
    match process.meta() {
        DentryMeta::Directory(subs) => assert_eq!(names(subs), vec!["Memory", "Pid"]),
        _ => panic!("a process is a directory"),
    }
    assert!(vfs.create_memory_stream(&path("/Image"), 0x8000_0000, 64, ATTR_READABLE).is_ok());
    assert!(matches!(vfs.lookup(&path("/Image"), &vec![]).ok().unwrap().meta(), DentryMeta::File(File::Stream)));
    assert!(matches!(vfs.read(&path("/Image"), 64, &vec![]), Err(FilesystemAbstractLayerError::Unsupported)));
    assert!(vfs.get_local_fs(0x1_0000_0000).is_some());
    assert!(vfs.get_local_fs(0x2_0000_0000).is_none());
    assert!(vfs.get_local_fs(42).is_none());
}

fn entry_size(name: &str) -> usize {
    std::mem::size_of::<DentryObject>() + ((name.len() + 7) & !7)
}

#[test]
fn objects_for_a_directory() {
    let mut vfs = Vfs::init();
    vfs.create(&path("/Config"), DentryType::Directory, ATTR_READABLE).ok().unwrap();
    vfs.create(&path("/Config/Level"), DentryType::Integer, ATTR_READABLE).ok().unwrap();
    let config = vfs.lookup(&path("/Config"), &vec![]).ok().unwrap();
    assert_eq!(vfs.measure(&config, &vec![]), entry_size("Config") + entry_size("Level"));
    let mut buffer = Vec::new();
    vfs.make_objects(&config, &mut buffer, &vec![]);
    assert_eq!(buffer.len(), 2);
    assert_eq!(buffer[0].0, DentryObject::new(DentryType::Directory, ATTR_READABLE, 0, 0, 0, 6));
    assert_eq!(buffer[0].1, "Config");
    assert_eq!(buffer[1].0, DentryObject::new(DentryType::Integer, ATTR_READABLE, 0, 0, 0, 5));
    assert_eq!(buffer[1].1, "Level");
}

#[test]
fn objects_for_a_mount_point() {
    let vfs = Vfs::init();
    let mount = Dentry::new(String::from("Processes"), 0, 0, 0, 0, DentryMeta::MountPoint(0x1_0000_0000));
    let pids = vec![4, 100];
    assert_eq!(vfs.measure(&mount, &pids), entry_size("Processes") + entry_size("") + entry_size("4") + entry_size("100"));
    let mut buffer = Vec::new();
    vfs.make_objects(&mount, &mut buffer, &pids);
    assert_eq!(buffer.len(), 4);
    assert_eq!(buffer[0].0.kind, DentryType::MountPoint);
    assert_eq!(buffer[1].0, DentryObject::new(DentryType::Directory, ATTR_EXECUTABLE | ATTR_READABLE, 0, 0, 0, 0));
    assert_eq!(buffer[3].1, "100");
}

#[test]
fn dentry_types_from_meta() {
    assert_eq!(DentryType::from(&DentryMeta::Link), DentryType::Link);
    assert_eq!(DentryType::from(&DentryMeta::File(File::Property(PropertyKind::Blob))), DentryType::Blob);
    assert_eq!(DentryType::from(&DentryMeta::Directory(vec![])), DentryType::Directory);
}

#[test]
fn procfs_names_processes_in_decimal() {
    let pids = vec![0, 9, 10, 907, u64::MAX];
    let listing = Procfs::new().lookup(&path("/"), &pids).ok().unwrap();
    match listing.meta() {
        DentryMeta::Directory(subs) => {
            assert_eq!(names(subs), vec!["0", "9", "10", "907", "18446744073709551615"]);
        }
        _ => panic!("the process root is a directory"),
    }
}
