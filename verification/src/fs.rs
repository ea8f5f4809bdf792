//! The kernel's file systems: the in-memory root file system, the process file
//! system mounted into it, and the routing of operations between them.
pub mod local;
pub mod rootfs;
pub mod procfs;

use vstd::prelude::*;
use crate::path::{Path, names_of};
use crate::fal::{ATTR_READABLE, ATTR_EXECUTABLE, Mid, Pid, Address, Dentry, DentryMeta, DentryType, DentryObject, FilesystemAbstractLayerError, type_of_meta};
use crate::fs::rootfs::{create_spec, lookup_spec, read_spec, Rootfs, LocalDentry, LocalDentryKind, Walk, walk, describes, reports_error, node_created,
    property_bytes, LocalFile, creatable, made_for, lemma_created_is_found};
use crate::fs::procfs::{decimal_text, Procfs, ProcessEntry, procfs_lookup, procfs_read, procfs_layer};

verus! {

/// A file system that lives in the kernel and is mounted into the root file system.
pub enum LocalMountpoint {
    Proc(Procfs),
}

/// The local file system slot that a mount id refers to: `(mid >> 32) - 1` when the
/// high half is not zero.
pub open spec fn local_index(mid: Mid) -> Option<int> {
    if (mid >> 32u64) > 0 {
        Some((mid >> 32u64) - 1)
    } else {
        None
    }
}

/// The local file system slot that a mount id refers to, if any.
pub fn get_local_index(mid: Mid) -> (r: Option<usize>)
    ensures
        r is None <==> local_index(mid) is None,
        r matches Some(i) ==> local_index(mid) == Some(i as int),
{
    let high = mid >> 32;
    if high > 0 {
        assert(high <= 0xFFFF_FFFFu64) by (bit_vector)
            requires high == mid >> 32u64;
        Some((high - 1) as usize)
    } else {
        None
    }
}

/// The file systems of the kernel: the root file system and the local file systems
/// that can be mounted into it, by slot.
pub struct Vfs {
    root: Rootfs,
    mountpoints: Vec<LocalMountpoint>,
}

/// Whether `mid` names a local file system among `count` slots.
pub open spec fn is_local(mid: Mid, count: nat) -> bool {
    local_index(mid) matches Some(i) && i < count
}

/// What a failed walk reports when its mount point is not local: the rest of the
/// path and the mount id.
pub open spec fn foreign_error<T>(r: Result<T, FilesystemAbstractLayerError>, rest: Seq<Seq<char>>, mid: Mid) -> bool {
    r matches Err(FilesystemAbstractLayerError::ForeignMountPoint(p, m)) && p.spec_absolute() && p.names() == rest && m == mid
}

impl Vfs {
    pub closed spec fn tree(&self) -> LocalDentry {
        self.root.tree()
    }

    pub closed spec fn root(&self) -> Rootfs {
        self.root
    }

    pub closed spec fn mount_count(&self) -> nat {
        self.mountpoints@.len()
    }

    pub closed spec fn wf(&self) -> bool {
        self.root.wf()
    }

    /// The kernel's file systems at start-up: the process file system in slot 0,
    /// mounted at `/Processes`.
    pub fn init() -> (r: Vfs)
        ensures
            r.wf(),
            r.mount_count() == 1,
            exists|d: LocalDentry| walk(r.tree(), seq![processes_name()]) == Walk::Found(d)
                && d.kind == LocalDentryKind::MountPoint(0x1_0000_0000),
    {
        let mut rootfs = Rootfs::new();
        let mut names: Vec<String> = Vec::new();
        names.push("Processes".to_owned());
        let path = Path::from_names(true, names);
        proof {
            reveal_strlit("Processes");
            assert("Processes"@ =~= processes_name());
            assert(path.names() =~= seq![processes_name()]);
            assert(path.names().drop_last() =~= Seq::<Seq<char>>::empty());
            assert(walk(rootfs.tree(), Seq::<Seq<char>>::empty()) == Walk::Found(rootfs.tree()));
            if let LocalDentryKind::Directory(subs) = rootfs.tree().kind {
                assert(!crate::fs::rootfs::has_named(subs@, processes_name()));
            }
        }
        let ghost before = rootfs;
        let one: u64 = 0 + 1;
        let mid: u64 = one << 32;
        assert(mid == 0x1_0000_0000u64) by (bit_vector)
            requires mid == one << 32u64, one == 1u64;
        let r = rootfs.mount(&path, mid);
        proof {
            let d = choose|d: LocalDentry| {
                &&& d.name@ == path.names().last()
                &&& d.created == 0 && d.modified == 0 && d.attr == crate::fal::ATTR_NONE
                &&& d.kind == LocalDentryKind::MountPoint(0x1_0000_0000)
                &&& #[trigger] node_created(before.tree(), rootfs.tree(), path.spec_absolute(),
                    path.names().drop_last(), d, r)
            };
            assert(r is Ok);
            lemma_created_is_found(before.tree(), rootfs.tree(), true, Seq::<Seq<char>>::empty(), d);
            assert(Seq::<Seq<char>>::empty().push(d.name@) =~= seq![processes_name()]);
        }
        let mut mountpoints: Vec<LocalMountpoint> = Vec::new();
        mountpoints.push(LocalMountpoint::Proc(Procfs::new()));
        Vfs { root: rootfs, mountpoints }
    }

    /// Mounts local slot `slot` at `path`.
    pub fn mount_local(&mut self, path: &Path, slot: usize) -> (r: Result<(), FilesystemAbstractLayerError>)
        requires
            old(self).wf(),
            slot < usize::MAX,
        ensures
            final(self).wf(),
            final(self).mount_count() == old(self).mount_count(),
            path.names().len() == 0 ==> (r matches Err(FilesystemAbstractLayerError::InvalidPath))
                && final(self).tree() == old(self).tree(),
            path.names().len() > 0 ==> exists|d: LocalDentry| {
                &&& d.name@ == path.names().last()
                &&& d.kind == LocalDentryKind::MountPoint((((slot + 1) as u64) << 32u64) as u64)
                &&& #[trigger] node_created(old(self).tree(), final(self).tree(), path.spec_absolute(),
                    path.names().drop_last(), d, r)
            },
    {
        let mid = ((slot as u64) + 1) << 32;
        self.root.mount(path, mid)
    }

    /// Mounts the file system served by process `service` at `path`.
    pub fn mount_remote(&mut self, path: &Path, service: Pid) -> (r: Result<(), FilesystemAbstractLayerError>)
        requires
            old(self).wf(),
        ensures
            final(self).wf(),
            final(self).mount_count() == old(self).mount_count(),
            path.names().len() == 0 ==> (r matches Err(FilesystemAbstractLayerError::InvalidPath))
                && final(self).tree() == old(self).tree(),
            path.names().len() > 0 ==> exists|d: LocalDentry| {
                &&& d.name@ == path.names().last()
                &&& d.kind == LocalDentryKind::MountPoint(service)
                &&& #[trigger] node_created(old(self).tree(), final(self).tree(), path.spec_absolute(),
                    path.names().drop_last(), d, r)
            },
    {
        self.root.mount(path, service)
    }

    /// Adds a read-only view of the `length` bytes at `address` as a stream at `path`.
    pub fn create_memory_stream(&mut self, path: &Path, address: Address, length: usize, attr: u8)
        -> (r: Result<(), FilesystemAbstractLayerError>)
        requires
            old(self).wf(),
        ensures
            final(self).wf(),
            final(self).mount_count() == old(self).mount_count(),
            path.names().len() == 0 ==> (r matches Err(FilesystemAbstractLayerError::InvalidPath))
                && final(self).tree() == old(self).tree(),
            path.names().len() > 0 ==> exists|d: LocalDentry| {
                &&& d.name@ == path.names().last()
                &&& d.attr == attr
                &&& d.kind == LocalDentryKind::File(LocalFile::Stream(address, length))
                &&& #[trigger] node_created(old(self).tree(), final(self).tree(), path.spec_absolute(),
                    path.names().drop_last(), d, r)
            },
    {
        self.root.create_stream(path, address, length, attr)
    }

    /// The local file system that `mid` names, if there is one.
    pub fn get_local_fs(&self, mid: Mid) -> (r: Option<&LocalMountpoint>)
        ensures
            r is Some <==> is_local(mid, self.mount_count()),
    {
        if let Some(index) = get_local_index(mid) {
            if index < self.mountpoints.len() {
                Some(&self.mountpoints[index])
            } else {
                None
            }
        } else {
            None
        }
    }
}

pub open spec fn processes_name() -> Seq<char> {
    seq!['P', 'r', 'o', 'c', 'e', 's', 's', 'e', 's']
}


/// What a lookup routed through the kernel's file systems gives: the root file
/// system's answer, except that a walk ending in a local mount point continues in
/// the process file system with the rest of the path.
pub open spec fn routed_lookup(tree: LocalDentry, count: nat, absolute: bool, names: Seq<Seq<char>>, pids: Seq<Pid>,
    r: Result<Dentry, FilesystemAbstractLayerError>) -> bool {
    if absolute && walk(tree, names) is Foreign {
        let rest = walk(tree, names)->Foreign_0;
        let mid = walk(tree, names)->Foreign_1;
        if is_local(mid, count) { procfs_lookup(r, true, rest, pids) } else { foreign_error(r, rest, mid) }
    } else {
        lookup_spec(tree, absolute, names, r)
    }
}

/// What a read routed through the kernel's file systems gives.
pub open spec fn routed_read(tree: LocalDentry, count: nat, absolute: bool, names: Seq<Seq<char>>, procs: Seq<ProcessEntry>,
    r: Result<Vec<u8>, FilesystemAbstractLayerError>) -> bool {
    if absolute && walk(tree, names) is Foreign {
        let rest = walk(tree, names)->Foreign_0;
        let mid = walk(tree, names)->Foreign_1;
        if is_local(mid, count) { procfs_read(r, true, rest, procs) } else { foreign_error(r, rest, mid) }
    } else {
        read_spec(tree, absolute, names, r)
    }
}

/// The answer of a creation routed through the kernel's file systems, the root file
/// system having answered `r0`: the process file system refuses every creation.
pub open spec fn routed_create(r0: Result<(), FilesystemAbstractLayerError>, count: nat, r: Result<(), FilesystemAbstractLayerError>) -> bool {
    match r0 {
        Err(FilesystemAbstractLayerError::ForeignMountPoint(p, mid)) => if is_local(mid, count) {
            r matches Err(FilesystemAbstractLayerError::Unsupported)
        } else {
            foreign_error(r, p.names(), mid)
        },
        _ => r == r0,
    }
}

/// Whether a path leads somewhere: an entry of the root file system, or a valid place
/// in a local file system mounted on the way.
pub open spec fn resolvable(tree: LocalDentry, count: nat, absolute: bool, names: Seq<Seq<char>>) -> bool {
    absolute && match walk(tree, names) {
        Walk::Found(_) => true,
        Walk::Foreign(rest, mid) => is_local(mid, count) && procfs_layer(true, rest) is Ok,
        _ => false,
    }
}

impl Vfs {
    /// The metadata at `path`, `pids` being the processes that exist.
    pub fn lookup(&self, path: &Path, pids: &Vec<Pid>) -> (r: Result<Dentry, FilesystemAbstractLayerError>)
        requires
            self.wf(),
        ensures
            routed_lookup(self.tree(), self.mount_count(), path.spec_absolute(), path.names(), pids@, r),
    {
        match self.root.lookup(path) {
            Err(FilesystemAbstractLayerError::ForeignMountPoint(rem, mid)) => match self.get_local_fs(mid) {
                Some(LocalMountpoint::Proc(procfs)) => procfs.lookup(&rem, pids),
                None => Err(FilesystemAbstractLayerError::ForeignMountPoint(rem, mid)),
            },
            r => r,
        }
    }

    /// Creates an empty directory or property at `path`.
    pub fn create(&mut self, path: &Path, kind: DentryType, attr: u8) -> (r: Result<(), FilesystemAbstractLayerError>)
        requires
            old(self).wf(),
        ensures
            final(self).wf(),
            final(self).mount_count() == old(self).mount_count(),
            exists|r0: Result<(), FilesystemAbstractLayerError>|
                create_spec(old(self).tree(), final(self).tree(), path.spec_absolute(), path.names(), kind, attr, r0)
                && #[trigger] routed_create(r0, old(self).mount_count(), r),
    {
        let r0 = self.root.create(path, kind, attr);
        let ghost g0 = r0;
        let r = match r0 {
            Err(FilesystemAbstractLayerError::ForeignMountPoint(rem, mid)) => match self.get_local_fs(mid) {
                Some(LocalMountpoint::Proc(procfs)) => procfs.create(&rem, kind, attr),
                None => Err(FilesystemAbstractLayerError::ForeignMountPoint(rem, mid)),
            },
            r => r,
        };
        assert(routed_create(g0, old(self).mount_count(), r));
        r
    }

    /// The bytes at `path`, `procs` being the processes that exist.
    pub fn read(&self, path: &Path, length: usize, procs: &Vec<ProcessEntry>) -> (r: Result<Vec<u8>, FilesystemAbstractLayerError>)
        ensures
            routed_read(self.tree(), self.mount_count(), path.spec_absolute(), path.names(), procs@, r),
    {
        match self.root.read(path) {
            Err(FilesystemAbstractLayerError::ForeignMountPoint(rem, mid)) => match self.get_local_fs(mid) {
                Some(LocalMountpoint::Proc(procfs)) => procfs.read(&rem, length, procs),
                None => Err(FilesystemAbstractLayerError::ForeignMountPoint(rem, mid)),
            },
            r => r,
        }
    }

    /// Nothing can be written: the root file system is read-only but for creation,
    /// and so is the process file system.
    pub fn write(&self, path: &Path, value: &Vec<u8>) -> (r: Result<(), FilesystemAbstractLayerError>)
        ensures
            r matches Err(FilesystemAbstractLayerError::Unsupported),
    {
        self.root.write(path, value)
    }

    /// Makes sure a directory exists at `path`: nothing happens when the path leads
    /// somewhere; when it is not found, the directories above it are made first, then
    /// the directory itself.
    pub fn make_directory(&mut self, path: &Path, attr: u8, pids: &Vec<Pid>) -> (r: Result<(), FilesystemAbstractLayerError>)
        requires
            old(self).wf(),
        ensures
            final(self).wf(),
            final(self).mount_count() == old(self).mount_count(),
            r is Ok ==> resolvable(final(self).tree(), final(self).mount_count(), path.spec_absolute(), path.names()),
            resolvable(old(self).tree(), old(self).mount_count(), path.spec_absolute(), path.names())
                ==> r is Ok && final(self).tree() == old(self).tree(),
        decreases path.names().len(),
    {
        let found = self.lookup(&path.clone(), pids);
        proof {
            if resolvable(self.tree(), self.mount_count(), path.spec_absolute(), path.names()) {
                assert(found is Ok);
            }
        }
        match found {
            Ok(_) => {
                proof {
                    if walk(self.tree(), path.names()) is Foreign {
                        let rest = walk(self.tree(), path.names())->Foreign_0;
                        let mid = walk(self.tree(), path.names())->Foreign_1;
                        if is_local(mid, self.mount_count()) {
                            assert(procfs_layer(true, rest) is Ok);
                        }
                    }
                }
                Ok(())
            },
            Err(FilesystemAbstractLayerError::NotFound) => {
                if let Some(parent) = path.parent() {
                    match self.make_directory(&parent, attr, pids) {
                        Ok(()) => {},
                        Err(e) => {
                            return Err(e);
                        },
                    }
                }
                let ghost before = self.tree();
                let r = self.create(path, DentryType::Directory, attr);
                proof {
                    if r is Ok {
                        let r0 = choose|r0: Result<(), FilesystemAbstractLayerError>|
                            create_spec(before, self.tree(), path.spec_absolute(), path.names(), DentryType::Directory, attr, r0)
                            && #[trigger] routed_create(r0, self.mount_count(), r);
                        assert(r0 is Ok);
                        let d = choose|d: LocalDentry| {
                            &&& made_for(d, DentryType::Directory, path.names().last(), attr)
                            &&& #[trigger] node_created(before, self.tree(), path.spec_absolute(), path.names().drop_last(), d, r0)
                        };
                        lemma_created_is_found(before, self.tree(), path.spec_absolute(), path.names().drop_last(), d);
                        assert(path.names().drop_last().push(d.name@) =~= path.names());
                        assert(path.spec_absolute());
                    }
                }
                r
            },
            Err(err) => Err(err),
        }
    }
}


/// The bytes an entry's name takes when handed out: its UTF-8 length rounded up to a
/// multiple of 8.
pub open spec fn name_slot(len: nat) -> int {
    ((len + 7) / 8) as int * 8
}

/// The UTF-8 length of a name.
pub open spec fn utf8_len(name: Seq<char>) -> nat {
    vstd::utf8::encode_utf8(name).len()
}

/// The bytes one entry takes when handed out: the fixed object, then its name.
pub open spec fn entry_bytes(name: Seq<char>) -> int {
    vstd::layout::size_of::<DentryObject>() + name_slot(utf8_len(name))
}

/// The bytes the entries `subs` take, one after the other.
pub open spec fn entries_bytes(subs: Seq<Dentry>) -> int
    decreases subs.len(),
{
    if subs.len() == 0 {
        0
    } else {
        entries_bytes(subs.drop_last()) + entry_bytes(subs.last().name@)
    }
}

/// The bytes the names of the processes `pids` take as entries of the process file
/// system's root.
pub open spec fn pids_bytes(pids: Seq<Pid>) -> int
    decreases pids.len(),
{
    if pids.len() == 0 {
        0
    } else {
        pids_bytes(pids.drop_last()) + entry_bytes(decimal_text(pids.last()))
    }
}

/// The bytes that handing out `d` takes: the entry itself, then the entries of a
/// directory, or the root of the file system mounted at a mount point with its
/// entries.
pub open spec fn measured(d: Dentry, pids: Seq<Pid>) -> int {
    match d.meta {
        DentryMeta::Directory(subs) => entry_bytes(d.name@) + entries_bytes(subs@),
        DentryMeta::MountPoint(_) => entry_bytes(d.name@) + entry_bytes(Seq::empty()) + pids_bytes(pids),
        _ => entry_bytes(d.name@),
    }
}

/// A mount point met on the way names a local file system.
pub open spec fn mounts_local(d: Dentry, count: nat) -> bool {
    d.meta matches DentryMeta::MountPoint(mid) ==> is_local(mid, count)
}

proof fn lemma_slot(len: usize)
    requires
        len + 7 <= usize::MAX,
    ensures
        (((len + 8 - 1) as usize) & !((8 - 1) as usize)) == name_slot(len as nat),
{
    let v = (len + 7) as usize;
    assert(v & !7usize == (v / 8) * 8) by (bit_vector);
}

/// Whether `o` is the object for an entry of type `kind` with these fields, and `n`
/// its name.
pub open spec fn object_is(o: (DentryObject, String), kind: DentryType, attributes: u8, created: u64, modified: u64,
    size: usize, name: Seq<char>) -> bool {
    &&& o.0 == DentryObject { kind, attributes, created, modified, size, name_length: utf8_len(name) as usize }
    &&& o.1@ == name
}

/// Whether `out` is what handing out `d` produces: its own object, then one per
/// entry of a directory (with zero times and size), or the mounted root and its
/// entries for a mount point.
pub open spec fn objects_of(d: Dentry, pids: Seq<Pid>, out: Seq<(DentryObject, String)>) -> bool {
    &&& out.len() >= 1
    &&& object_is(out[0], type_of_meta(d.meta), d.attributes, d.created, d.modified, d.size, d.name@)
    &&& match d.meta {
        DentryMeta::Directory(subs) => out.len() == 1 + subs@.len() && forall|i: int| 0 <= i < subs@.len() ==>
            #[trigger] object_is(out[1 + i], type_of_meta(subs@[i].meta), subs@[i].attributes, 0, 0, 0, subs@[i].name@),
        DentryMeta::MountPoint(_) => out.len() == 2 + pids.len()
            && object_is(out[1], DentryType::Directory, ATTR_EXECUTABLE | ATTR_READABLE, 0, 0, 0, Seq::empty())
            && forall|j: int| 0 <= j < pids.len() ==>
                #[trigger] object_is(out[2 + j], DentryType::Directory, ATTR_EXECUTABLE | ATTR_READABLE, 0, 0, 0, decimal_text(pids[j])),
        _ => out.len() == 1,
    }
}

impl Vfs {
    fn mounted_root(&self, mid: Mid, pids: &Vec<Pid>) -> (r: Dentry)
        requires
            is_local(mid, self.mount_count()),
        ensures
            crate::fs::procfs::layer_entry(r, crate::fs::procfs::FsLayer::Root, pids@),
    {
        let root = Path::from_names(true, Vec::new());
        assert(root.names() =~= Seq::<Seq<char>>::empty());
        match self.get_local_fs(mid) {
            Some(LocalMountpoint::Proc(procfs)) => match procfs.lookup(&root, pids) {
                Ok(mounted) => mounted,
                Err(_) => {
                    assert(false);
                    Dentry::new(String::new(), 0, 0, 0, 0, DentryMeta::Link)
                },
            },
            None => {
                assert(false);
                Dentry::new(String::new(), 0, 0, 0, 0, DentryMeta::Link)
            },
        }
    }

    /// The bytes that handing out `dentry` takes; a mount point must name a local
    /// file system, whose root is measured in its place.
    pub fn measure(&self, dentry: &Dentry, pids: &Vec<Pid>) -> (r: usize)
        requires
            mounts_local(*dentry, self.mount_count()),
            measured(*dentry, pids@) + 8 <= usize::MAX,
        ensures
            r == measured(*dentry, pids@),
        decreases (if dentry.meta is MountPoint { 1nat } else { 0nat }),
    {
        let object = core::mem::size_of::<DentryObject>();
        proof {
            assert(entry_bytes(dentry.name@) <= measured(*dentry, pids@)) by {
                lemma_entries_bytes_nonneg(*dentry, pids@);
            }
        }
        let len = dentry.name().as_str().len();
        proof {
            lemma_slot_bounds(len as nat);
            lemma_entries_bytes_nonneg(*dentry, pids@);
            lemma_slot(len);
        }
        let mut size = object + ((len + 8 - 1) & !(8 - 1));
        match dentry.meta() {
            DentryMeta::Directory(subs) => {
                let mut i: usize = 0;
                while i < subs.len()
                    invariant
                        i <= subs.len(),
                        dentry.meta == DentryMeta::Directory(*subs),
                        object == vstd::layout::size_of::<DentryObject>(),
                        size == entry_bytes(dentry.name@) + entries_bytes(subs@.subrange(0, i as int)),
                        measured(*dentry, pids@) + 8 <= usize::MAX,
                    decreases subs.len() - i,
                {
                    proof {
                        assert(subs@.subrange(0, i + 1).drop_last() =~= subs@.subrange(0, i as int));
                        lemma_entries_bytes_prefix(subs@, i + 1);
                        lemma_entries_bytes_monotone(subs@, i + 1);
                    }
                    let sub_len = subs[i].name().as_str().len();
                    proof {
                        lemma_slot_bounds(sub_len as nat);
                        lemma_entries_bytes_monotone(subs@.subrange(0, i + 1), i as int);
                        assert(subs@.subrange(0, i + 1).subrange(0, i as int) =~= subs@.subrange(0, i as int));
                        assert(entries_bytes(subs@.subrange(0, i + 1)) <= entries_bytes(subs@));
                        lemma_slot(sub_len);
                    }
                    size = size + object + ((sub_len + 8 - 1) & !(8 - 1));
                    i = i + 1;
                }
                assert(subs@.subrange(0, subs@.len() as int) =~= subs@);
                size
            },
            DentryMeta::MountPoint(mid) => {
                let mounted = self.mounted_root(*mid, pids);
                proof {
                    lemma_procfs_root_measured(mounted, pids@);
                }
                size + self.measure(&mounted, pids)
            },
            _ => size,
        }
    }

    /// Appends to `buffer` what handing out `dentry` produces; a mount point must name
    /// a local file system, whose root is handed out in its place.
    pub fn make_objects(&self, dentry: &Dentry, buffer: &mut Vec<(DentryObject, String)>, pids: &Vec<Pid>)
        requires
            mounts_local(*dentry, self.mount_count()),
        ensures
            final(buffer)@.len() >= old(buffer)@.len(),
            final(buffer)@.subrange(0, old(buffer)@.len() as int) == old(buffer)@,
            objects_of(*dentry, pids@, final(buffer)@.subrange(old(buffer)@.len() as int, final(buffer)@.len() as int)),
        decreases (if dentry.meta is MountPoint { 1nat } else { 0nat }),
    {
        let ghost start = buffer@.len();
        let meta = dentry.meta();
        let kind = DentryType::from(meta);
        buffer.push((DentryObject::new(kind, dentry.attributes(), dentry.created_at(), dentry.modified_at(),
            dentry.size(), dentry.name().as_str().len()), dentry.name().clone()));
        match meta {
            DentryMeta::Directory(subs) => {
                let mut i: usize = 0;
                while i < subs.len()
                    invariant
                        i <= subs.len(),
                        buffer@.len() == start + 1 + i,
                        buffer@.subrange(0, start as int) == old(buffer)@,
                        object_is(buffer@[start as int], kind, dentry.attributes, dentry.created, dentry.modified,
                            dentry.size, dentry.name@),
                        kind == type_of_meta(dentry.meta),
                        forall|j: int| 0 <= j < i ==> #[trigger] object_is(buffer@[start + 1 + j],
                            type_of_meta(subs@[j].meta), subs@[j].attributes, 0, 0, 0, subs@[j].name@),
                    decreases subs.len() - i,
                {
                    let sub = &subs[i];
                    let sub_kind = DentryType::from(sub.meta());
                    buffer.push((DentryObject::new(sub_kind, sub.attributes(), 0, 0, 0, sub.name().as_str().len()),
                        sub.name().clone()));
                    i = i + 1;
                }
                proof {
                    let out = buffer@.subrange(start as int, buffer@.len() as int);
                    assert forall|j: int| 0 <= j < subs@.len() implies #[trigger] object_is(out[1 + j],
                        type_of_meta(subs@[j].meta), subs@[j].attributes, 0, 0, 0, subs@[j].name@) by {
                        assert(out[1 + j] == buffer@[start + 1 + j]);
                    }
                    assert(buffer@.subrange(0, old(buffer)@.len() as int) =~= old(buffer)@);
                }
            },
            DentryMeta::MountPoint(mid) => {
                let mounted = self.mounted_root(*mid, pids);
                let ghost mid_len = buffer@.len();
                let ghost before = buffer@;
                self.make_objects(&mounted, buffer, pids);
                proof {
                    assert(buffer@.len() >= mid_len);
                    let out = buffer@.subrange(start as int, buffer@.len() as int);
                    let tail = buffer@.subrange(mid_len as int, buffer@.len() as int);
                    assert(before[start as int] == buffer@.subrange(0, mid_len as int)[start as int]);
                    assert(out[0] == before[start as int]);
                    assert(type_of_meta(mounted.meta) == DentryType::Directory);
                    assert(tail.len() == 1 + pids@.len());
                    assert(ATTR_READABLE | ATTR_EXECUTABLE == 5u8) by (bit_vector);
                    assert(ATTR_EXECUTABLE | ATTR_READABLE == 5u8) by (bit_vector);
                    assert(out[1] == tail[0]);
                    assert forall|j: int| 0 <= j < pids@.len() implies #[trigger] object_is(out[2 + j],
                        DentryType::Directory, ATTR_EXECUTABLE | ATTR_READABLE, 0, 0, 0, decimal_text(pids@[j])) by {
                        assert(out[2 + j] == tail[1 + j]);
                        let listed = crate::fs::procfs::listed(mounted);
                        let subs = mounted.meta->Directory_0;
                        assert(subs@ == listed);
                        assert(crate::fs::procfs::empty_directory(listed[j], decimal_text(pids@[j])));
                        assert(object_is(tail[1 + j], type_of_meta(subs@[j].meta), subs@[j].attributes, 0, 0, 0, subs@[j].name@));
                    }
                    assert(buffer@.subrange(0, old(buffer)@.len() as int) =~= old(buffer)@);
                }
            },
            _ => {
                proof {
                    assert(buffer@.subrange(0, old(buffer)@.len() as int) =~= old(buffer)@);
                }
            },
        }
    }
}

proof fn lemma_slot_bounds(len: nat)
    ensures
        len <= name_slot(len) <= len + 7,
{
    assert(len <= ((len + 7) / 8) as int * 8 <= len + 7) by (nonlinear_arith);
}

proof fn lemma_entries_bytes_nonneg(d: Dentry, pids: Seq<Pid>)
    ensures
        entry_bytes(d.name@) <= measured(d, pids),
{
    match d.meta {
        DentryMeta::Directory(subs) => lemma_entries_bytes_monotone(subs@, 0),
        DentryMeta::MountPoint(_) => lemma_pids_bytes_nonneg(pids),
        _ => {},
    }
}

proof fn lemma_pids_bytes_nonneg(pids: Seq<Pid>)
    ensures
        pids_bytes(pids) >= 0,
    decreases pids.len(),
{
    if pids.len() > 0 {
        lemma_pids_bytes_nonneg(pids.drop_last());
    }
}

proof fn lemma_entries_bytes_prefix(subs: Seq<Dentry>, n: int)
    requires
        0 < n <= subs.len(),
    ensures
        entries_bytes(subs.subrange(0, n)) == entries_bytes(subs.subrange(0, n - 1)) + entry_bytes(subs[n - 1].name@),
{
    assert(subs.subrange(0, n).drop_last() =~= subs.subrange(0, n - 1));
}

/// The bytes of a prefix of the entries are at most those of all of them.
proof fn lemma_entries_bytes_monotone(subs: Seq<Dentry>, n: int)
    requires
        0 <= n <= subs.len(),
    ensures
        0 <= entries_bytes(subs.subrange(0, n)) <= entries_bytes(subs),
    decreases subs.len(),
{
    if subs.len() > 0 {
        if n == subs.len() {
            assert(subs.subrange(0, n) =~= subs);
            lemma_entries_bytes_monotone(subs.drop_last(), n - 1);
            assert(subs.drop_last().subrange(0, n - 1) =~= subs.drop_last());
        } else {
            lemma_entries_bytes_monotone(subs.drop_last(), n);
            assert(subs.drop_last().subrange(0, n) =~= subs.subrange(0, n));
        }
    } else {
        assert(subs.subrange(0, n) =~= subs);
    }
}

/// The root of the process file system takes, with its entries, what a mount point of
/// it adds.
proof fn lemma_procfs_root_measured(mounted: Dentry, pids: Seq<Pid>)
    requires
        crate::fs::procfs::layer_entry(mounted, crate::fs::procfs::FsLayer::Root, pids),
    ensures
        measured(mounted, pids) == entry_bytes(Seq::empty()) + pids_bytes(pids),
{
    let listed = crate::fs::procfs::listed(mounted);
    lemma_listed_bytes(listed, pids);
}

proof fn lemma_listed_bytes(listed: Seq<Dentry>, pids: Seq<Pid>)
    requires
        listed.len() == pids.len(),
        forall|j: int| 0 <= j < pids.len() ==> #[trigger] crate::fs::procfs::empty_directory(listed[j], decimal_text(pids[j])),
    ensures
        entries_bytes(listed) == pids_bytes(pids),
    decreases pids.len(),
{
    if pids.len() > 0 {
        let n = pids.len() - 1;
        assert(crate::fs::procfs::empty_directory(listed[n], decimal_text(pids[n])));
        assert forall|j: int| 0 <= j < pids.drop_last().len() implies #[trigger] crate::fs::procfs::empty_directory(
            listed.drop_last()[j], decimal_text(pids.drop_last()[j])) by {
            assert(crate::fs::procfs::empty_directory(listed[j], decimal_text(pids[j])));
        }
        lemma_listed_bytes(listed.drop_last(), pids.drop_last());
    }
}

} // verus!
