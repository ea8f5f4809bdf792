//! Start-up: what the kernel reads from the device tree before anything else, and
//! how much memory a starving heap asks for.
use vstd::prelude::*;
use vstd::arithmetic::power2::pow2;
use crate::board::chosen_initfs;
use crate::board::tree::{DeviceTree, DeviceTreeNode, PropertyValue, first_value, nodes_in_order, derefs, same_text, contains_text};
use crate::mm::page::PAGE_SIZE;
use crate::fal::{Pid, FilesystemAbstractLayerError, DentryType, ATTR_READABLE, ATTR_EXECUTABLE, ATTR_PRIVILEGED_WRITEABLE};
use crate::fs::Vfs;
use crate::path::Path;
use crate::proc::{Process, ProcessSpawnError, elf_summary};
use crate::proc::sch::smooth::ProcessTable;

verus! {

/// The hart a child of the `cpus` node describes: a node of device type `cpu` with a
/// `reg` address whose `riscv,isa`, if a string, holds `imafdc`; its frequency is its
/// `clock-frequency` when that is given as an integer, else the time base when that
/// is not zero.
pub open spec fn hart_of(node: DeviceTreeNode, timebase: usize) -> Option<(usize, usize)> {
    let is_cpu = first_value(node.props@, "device_type"@) matches Some(PropertyValue::String(t)) && t@ == "cpu"@;
    let isa_ok = match first_value(node.props@, "riscv,isa"@) {
        Some(PropertyValue::String(isa)) => exists|i: int| 0 <= i && i + "imafdc"@.len() <= isa@.len()
            && #[trigger] isa@.subrange(i, i + "imafdc"@.len()) == "imafdc"@,
        _ => true,
    };
    if is_cpu && isa_ok {
        match first_value(node.props@, "reg"@) {
            Some(PropertyValue::Address(id, _)) => match first_value(node.props@, "clock-frequency"@) {
                Some(PropertyValue::Integer(f)) => Some((id as usize, f as usize)),
                Some(_) => None,
                None => if timebase != 0 {
                    Some((id as usize, timebase))
                } else {
                    None
                },
            },
            _ => None,
        }
    } else {
        None
    }
}

/// The harts the children `nodes` of the `cpus` node describe, in order.
pub open spec fn hart_list(nodes: Seq<DeviceTreeNode>, timebase: usize) -> Seq<(usize, usize)>
    decreases nodes.len(),
{
    if nodes.len() == 0 {
        Seq::empty()
    } else {
        let rest = hart_list(nodes.drop_last(), timebase);
        match hart_of(nodes.last(), timebase) {
            Some(h) => rest.push(h),
            None => rest,
        }
    }
}

/// The first node named `cpus` among `nodes`.
pub open spec fn first_cpus(nodes: Seq<DeviceTreeNode>) -> Option<DeviceTreeNode>
    decreases nodes.len(),
{
    if nodes.len() == 0 {
        None
    } else if nodes[0].name@ == "cpus"@ {
        Some(nodes[0])
    } else {
        first_cpus(nodes.drop_first())
    }
}

/// The `timebase-frequency` a `cpus` node gives as an integer, or 0.
pub open spec fn timebase_in(node: DeviceTreeNode) -> usize {
    match first_value(node.props@, "timebase-frequency"@) {
        Some(PropertyValue::Integer(f)) => f as usize,
        _ => 0,
    }
}

/// The harts to bring up: those under the first `cpus` node met breadth first.
pub open spec fn early_harts(tree: DeviceTree) -> Seq<(usize, usize)> {
    match first_cpus(nodes_in_order(tree)) {
        Some(cpus) => hart_list(cpus.nodes@, timebase_in(cpus)),
        None => Seq::empty(),
    }
}

/// The hart a child of the `cpus` node describes.
fn hart_entry(cpu: &DeviceTreeNode, timebase: usize) -> (r: Option<(usize, usize)>)
    ensures
        r == hart_of(*cpu, timebase),
{
    let is_cpu = match cpu.value("device_type") {
        Some(PropertyValue::String(t)) => same_text(t, "cpu"),
        _ => false,
    };
    if !is_cpu {
        return None;
    }
    if let Some(PropertyValue::String(isa)) = cpu.value("riscv,isa") {
        if !contains_text(isa.as_str(), "imafdc") {
            return None;
        }
    }
    if let Some(PropertyValue::Address(id, _)) = cpu.value("reg") {
        match cpu.value("clock-frequency") {
            Some(PropertyValue::Integer(frequency)) => Some((*id as usize, *frequency as usize)),
            Some(_) => None,
            None => if timebase != 0 {
                Some((*id as usize, timebase))
            } else {
                None
            },
        }
    } else {
        None
    }
}

/// What the kernel reads from the device tree first: where the initial file system
/// lies, which must be given and not be zero, and the harts to bring up, each with
/// its frequency.
pub fn early_init(tree: &DeviceTree) -> (r: Option<((usize, usize), Vec<(usize, usize)>)>)
    ensures
        r is None == (chosen_initfs(*tree) is None || chosen_initfs(*tree) == Some((0usize, 0usize))),
        r matches Some((initfs, harts)) ==> initfs == chosen_initfs(*tree)->0 && harts@ == early_harts(*tree),
{
    let initfs = match crate::board::initfs_of(tree) {
        Some(found) => found,
        None => return None,
    };
    if initfs.0 == 0 && initfs.1 == 0 {
        return None;
    }
    let mut harts: Vec<(usize, usize)> = Vec::new();
    let nodes = tree.nodes_in_order();
    let mut k: usize = 0;
    assert(derefs(nodes@).subrange(0, nodes@.len() as int) =~= derefs(nodes@));
    while k < nodes.len()
        invariant
            k <= nodes@.len(),
            derefs(nodes@) == nodes_in_order(*tree),
            first_cpus(nodes_in_order(*tree)) == first_cpus(derefs(nodes@).subrange(k as int, nodes@.len() as int)),
            harts@.len() == 0,
            chosen_initfs(*tree) == Some(initfs),
            !(initfs.0 == 0 && initfs.1 == 0),
        decreases nodes@.len() - k,
    {
        let node = nodes[k];
        let ghost rest = derefs(nodes@).subrange(k as int, nodes@.len() as int);
        assert(rest.drop_first() =~= derefs(nodes@).subrange(k + 1, nodes@.len() as int));
        if same_text(&node.name, "cpus") {
            let mut timebase_frequency: usize = 0;
            if let Some(PropertyValue::Integer(frequency)) = node.value("timebase-frequency") {
                timebase_frequency = *frequency as usize;
            }
            assert(harts@ =~= hart_list(node.nodes@.subrange(0, 0), timebase_frequency));
            let mut i: usize = 0;
            while i < node.nodes.len()
                invariant
                    i <= node.nodes@.len(),
                    harts@ == hart_list(node.nodes@.subrange(0, i as int), timebase_frequency),
                decreases node.nodes@.len() - i,
            {
                proof {
                    assert(node.nodes@.subrange(0, i + 1).drop_last() =~= node.nodes@.subrange(0, i as int));
                }
                if let Some(hart) = hart_entry(&node.nodes[i], timebase_frequency) {
                    harts.push(hart);
                }
                i = i + 1;
            }
            assert(node.nodes@.subrange(0, node.nodes@.len() as int) =~= node.nodes@);
            return Some((initfs, harts));
        }
        k = k + 1;
    }
    assert(derefs(nodes@).subrange(k as int, nodes@.len() as int) =~= Seq::<DeviceTreeNode>::empty());
    Some((initfs, harts))
}

/// The number of pages a heap that cannot serve `required` bytes asks for: the
/// smallest power of two whose pages hold them.
pub fn rescue_size(required: usize) -> (r: usize)
    requires
        required <= usize::MAX / 2,
    ensures
        exists|k: nat| r == pow2(k),
        required <= r * PAGE_SIZE,
        r == 1 || (r / 2) * PAGE_SIZE < required,
{
    let single = 1 * PAGE_SIZE;
    let mut size: usize = 1;
    let ghost mut k: nat = 0;
    proof {
        vstd::arithmetic::power2::lemma2_to64();
    }
    while required > size * single
        invariant
            single == PAGE_SIZE,
            required <= usize::MAX / 2,
            size == pow2(k),
            size >= 1,
            size * single <= usize::MAX,
            size == 1 || (size / 2) * single < required,
        decreases usize::MAX - size,
    {
        proof {
            vstd::arithmetic::power2::lemma_pow2_adds(k, 1);
            vstd::arithmetic::power2::lemma2_to64();
            assert(size * 2 * single <= usize::MAX) by (nonlinear_arith)
                requires size * single < required, required <= usize::MAX / 2;
            assert((size * 2) / 2 == size);
        }
        size = size * 2;
        proof {
            k = k + 1;
        }
    }
    size
}

/// Why the initial files could not be put in place.
pub enum BootError {
    Filesystem(FilesystemAbstractLayerError),
    Spawn(ProcessSpawnError),
}

/// Whether a file of the initial archive is a program: its name starts with `bin/`.
pub open spec fn is_program(name: Seq<char>) -> bool {
    name.len() >= 4 && name.subrange(0, 4) == seq!['b', 'i', 'n', '/']
}

/// The programs among `files`, in order.
pub open spec fn programs(files: Seq<(String, usize, Vec<u8>)>) -> Seq<(String, usize, Vec<u8>)>
    decreases files.len(),
{
    if files.len() == 0 {
        Seq::empty()
    } else {
        let rest = programs(files.drop_last());
        if is_program(files.last().0@) { rest.push(files.last()) } else { rest }
    }
}

fn starts_with_bin(name: &String) -> (r: bool)
    ensures
        r == is_program(name@),
{
    let text = name.as_str();
    let n = text.unicode_len();
    if n < 4 {
        return false;
    }
    let r = text.get_char(0) == 'b' && text.get_char(1) == 'i' && text.get_char(2) == 'n' && text.get_char(3) == '/';
    proof {
        if r {
            assert(name@.subrange(0, 4) =~= seq!['b', 'i', 'n', '/']);
        } else {
            if name@.subrange(0, 4) == seq!['b', 'i', 'n', '/'] {
                assert(name@.subrange(0, 4)[0] == name@[0]);
                assert(name@.subrange(0, 4)[1] == name@[1]);
                assert(name@.subrange(0, 4)[2] == name@[2]);
                assert(name@.subrange(0, 4)[3] == name@[3]);
            }
        }
    }
    r
}

/// Puts the files of the initial archive in place: `/boot` is made, and each file
/// `(name, address, bytes)` becomes a stream over its bytes at `/boot/{name}`, with
/// the directories above it made first; every program (a file under `bin/`) also
/// becomes a process, added to `table`. Gives the ids of those processes, in order.
pub fn load_initfs(vfs: &mut Vfs, table: &mut ProcessTable, files: &Vec<(String, usize, Vec<u8>)>)
    -> (r: Result<Vec<Pid>, BootError>)
    requires
        old(vfs).wf(),
    ensures
        final(vfs).wf(),
        final(vfs).mount_count() == old(vfs).mount_count(),
        final(table).cells().len() >= old(table).cells().len(),
        final(table).cells().subrange(0, old(table).cells().len() as int) == old(table).cells(),
        r matches Ok(pids) ==> {
            let ps = programs(files@);
            &&& pids@.len() == ps.len()
            &&& final(table).cells().len() == old(table).cells().len() + ps.len()
            &&& forall|k: int| 0 <= k < ps.len() ==> {
                let c = #[trigger] final(table).cells()[old(table).cells().len() + k];
                &&& c.proc.pid == pids@[k]
                &&& c.proc.name@ == ps[k].0@
                &&& elf_summary(ps[k].2@) matches Some((entry, riscv, exec)) && riscv && exec
                    && c.proc.entry_point == entry as usize
            }
        },
        r matches Err(BootError::Spawn(e)) ==> exists|k: int| 0 <= k < programs(files@).len()
            && #[trigger] crate::proc::image_outcome(elf_summary(programs(files@)[k].2@), programs(files@)[k].0@,
                Err::<Process, ProcessSpawnError>(e)),
{
    let directory = ATTR_READABLE | ATTR_EXECUTABLE | ATTR_PRIVILEGED_WRITEABLE;
    let stream = ATTR_EXECUTABLE | ATTR_READABLE;
    let boot_name = "boot".to_owned();
    let boot = Path::from_names(true, vec![boot_name.clone()]);
    if let Err(e) = vfs.create(&boot, DentryType::Directory, directory) {
        proof {
            assert(table.cells().subrange(0, table.cells().len() as int) =~= table.cells());
        }
        return Err(BootError::Filesystem(e));
    }
    let ghost start = old(table).cells();
    let mut pids: Vec<Pid> = Vec::new();
    let mut k: usize = 0;
    while k < files.len()
        invariant
            k <= files.len(),
            vfs.wf(),
            vfs.mount_count() == old(vfs).mount_count(),
            table.cells().len() == start.len() + pids@.len(),
            table.cells().subrange(0, start.len() as int) == start,
            start == old(table).cells(),
            pids@.len() == programs(files@.subrange(0, k as int)).len(),
            forall|m: int| 0 <= m < pids@.len() ==> {
                let c = #[trigger] table.cells()[start.len() + m];
                let f = programs(files@.subrange(0, k as int))[m];
                &&& c.proc.pid == pids@[m]
                &&& c.proc.name@ == f.0@
                &&& elf_summary(f.2@) matches Some((entry, riscv, exec)) && riscv && exec
                    && c.proc.entry_point == entry as usize
            },
        decreases files.len() - k,
    {
        let ghost before = programs(files@.subrange(0, k as int));
        proof {
            assert(files@.subrange(0, k + 1).drop_last() =~= files@.subrange(0, k as int));
        }
        let file = &files[k];
        let relative = match Path::from(file.0.as_str()) {
            Ok(p) => p,
            Err(()) => {
                return Err(BootError::Filesystem(FilesystemAbstractLayerError::InvalidPath));
            },
        };
        let path = relative.prepend_root(&boot_name);
        let parent = match path.parent() {
            Some(p) => p,
            None => {
                return Err(BootError::Filesystem(FilesystemAbstractLayerError::InvalidPath));
            },
        };
        if let Err(e) = vfs.make_directory(&parent, directory, &Vec::new()) {
            return Err(BootError::Filesystem(e));
        }
        if let Err(e) = vfs.create_memory_stream(&path, file.1, file.2.len(), stream) {
            return Err(BootError::Filesystem(e));
        }
        if starts_with_bin(&file.0) {
            proof {
                assert(programs(files@.subrange(0, k + 1)) == before.push(files@[k as int]));
            }
            match Process::from_elf(file.2.as_slice(), file.0.as_str()) {
                Ok(p) => {
                    let ghost cells = table.cells();
                    let pid = table.add(p);
                    pids.push(pid);
                    proof {
                        assert forall|m: int| 0 <= m < pids@.len() implies {
                            let c = #[trigger] table.cells()[start.len() + m];
                            let f = programs(files@.subrange(0, k + 1))[m];
                            &&& c.proc.pid == pids@[m]
                            &&& c.proc.name@ == f.0@
                            &&& elf_summary(f.2@) matches Some((entry, riscv, exec)) && riscv && exec
                                && c.proc.entry_point == entry as usize
                        } by {
                            if m < pids@.len() - 1 {
                                assert(table.cells()[start.len() + m] == cells[start.len() + m]);
                            }
                        }
                        assert(table.cells().subrange(0, start.len() as int) =~= start) by {
                            assert forall|m: int| 0 <= m < start.len() implies
                                table.cells().subrange(0, start.len() as int)[m] == start[m] by {
                                assert(table.cells()[m] == cells[m]);
                                assert(cells.subrange(0, start.len() as int)[m] == cells[m]);
                            }
                        }
                    }
                },
                Err(e) => {
                    proof {
                        let n = before.len() as int;
                        assert(programs(files@)[n] == files@[k as int]) by {
                            lemma_programs_prefix(files@, (k + 1) as int);
                        }
                        lemma_programs_prefix(files@, (k + 1) as int);
                    }
                    return Err(BootError::Spawn(e));
                },
            }
        } else {
            proof {
                assert(programs(files@.subrange(0, k + 1)) == before);
            }
        }
        k = k + 1;
    }
    proof {
        assert(files@.subrange(0, files.len() as int) =~= files@);
    }
    Ok(pids)
}

/// The programs of a prefix of the files come first among the programs of all.
proof fn lemma_programs_prefix(files: Seq<(String, usize, Vec<u8>)>, n: int)
    requires
        0 <= n <= files.len(),
    ensures
        programs(files.subrange(0, n)).len() <= programs(files).len(),
        forall|m: int| 0 <= m < programs(files.subrange(0, n)).len() ==>
            #[trigger] programs(files)[m] == programs(files.subrange(0, n))[m],
    decreases files.len() - n,
{
    if n < files.len() {
        lemma_programs_prefix(files, n + 1);
        assert(files.subrange(0, n + 1).drop_last() =~= files.subrange(0, n));
    } else {
        assert(files.subrange(0, n) =~= files);
    }
}

} // verus!
