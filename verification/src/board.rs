//! The board: what the device tree says of the machine the kernel runs on.
use vstd::prelude::*;
use crate::board::device::{DeviceMap, DeviceMapBuilder};
use crate::board::device::cpu::{Cpu, MmuType};
use crate::fs::procfs::decimal_text;
use crate::board::tree::{DeviceTree, DeviceTreeNode, PropertyValue, first_child, first_value, type_of, nodes_in_order, derefs, same_text};

pub mod device;
pub mod tree;

verus! {

/// Where `/chosen/initfs` says the initial file system lies: its address and length.
pub open spec fn chosen_initfs(tree: DeviceTree) -> Option<(usize, usize)> {
    match first_child(tree.root.nodes@, "chosen"@) {
        Some(i) => {
            let chosen = tree.root.nodes@[i];
            match first_child(chosen.nodes@, "initfs"@) {
                Some(j) => match first_value(chosen.nodes@[j].props@, "reg"@) {
                    Some(PropertyValue::Address(a, l)) => Some((a as usize, l as usize)),
                    _ => None,
                },
                None => None,
            }
        },
        None => None,
    }
}

/// The address translation an `mmu-type` string names.
pub open spec fn mmu_of(m: Seq<char>) -> MmuType {
    if m == "riscv,sv32"@ {
        MmuType::Sv32
    } else if m == "riscv,sv39"@ {
        MmuType::Sv39
    } else if m == "riscv,sv48"@ {
        MmuType::Sv48
    } else if m == "riscv,sv57"@ {
        MmuType::Sv57
    } else {
        MmuType::Bare
    }
}

/// `riscv,sv` followed by the decimal digits of 32, 39, 48 or 57 is the `mmu-type`
/// string of that translation.
proof fn lemma_mmu_text(n: u64)
    requires
        n == 32 || n == 39 || n == 48 || n == 57,
    ensures
        n == 32 ==> "riscv,sv"@ + decimal_text(n) == "riscv,sv32"@,
        n == 39 ==> "riscv,sv"@ + decimal_text(n) == "riscv,sv39"@,
        n == 48 ==> "riscv,sv"@ + decimal_text(n) == "riscv,sv48"@,
        n == 57 ==> "riscv,sv"@ + decimal_text(n) == "riscv,sv57"@,
{
    reveal_strlit("riscv,sv");
    reveal_strlit("riscv,sv32");
    reveal_strlit("riscv,sv39");
    reveal_strlit("riscv,sv48");
    reveal_strlit("riscv,sv57");
    let m = "riscv,sv"@ + decimal_text(n);
    let hi = decimal_text(n / 10);
    assert(hi == seq![(('0' as u8) + (n / 10 % 10) as u8) as char]);
    assert(m.len() == 10);
    assert(m[8] == (('0' as u8) + (n / 10) as u8) as char);
    assert(m[9] == (('0' as u8) + (n % 10) as u8) as char);
    if n == 32 {
        assert(m =~= "riscv,sv32"@);
    } else if n == 39 {
        assert(m =~= "riscv,sv39"@);
    } else if n == 48 {
        assert(m =~= "riscv,sv48"@);
    } else {
        assert(m =~= "riscv,sv57"@);
    }
}

/// An `mmu-type` of `riscv,sv` and then the decimal digits of 32, 39, 48 or 57 names
/// the translation whose virtual addresses have that many bits; and a string names a
/// translation only when it is that translation's own such name. So each name gives a
/// translation of its own.
pub proof fn lemma_mmu_names(n: u64, m: Seq<char>)
    requires
        n == 32 || n == 39 || n == 48 || n == 57,
    ensures
        mmu_of("riscv,sv"@ + decimal_text(n)).address_bits() == n,
        mmu_of(m) != MmuType::Bare ==>
            m == "riscv,sv"@ + decimal_text(mmu_of(m).address_bits() as u64),
{
    reveal_strlit("riscv,sv32");
    reveal_strlit("riscv,sv39");
    reveal_strlit("riscv,sv48");
    reveal_strlit("riscv,sv57");
    lemma_mmu_text(n);
    assert("riscv,sv39"@[9] != "riscv,sv32"@[9]);
    assert("riscv,sv48"@[8] != "riscv,sv32"@[8]);
    assert("riscv,sv48"@[8] != "riscv,sv39"@[8]);
    assert("riscv,sv57"@[8] != "riscv,sv32"@[8]);
    assert("riscv,sv57"@[8] != "riscv,sv39"@[8]);
    assert("riscv,sv57"@[8] != "riscv,sv48"@[8]);
    if mmu_of(m) != MmuType::Bare {
        lemma_mmu_text(mmu_of(m).address_bits() as u64);
    }
}

/// The processor a child of `/cpus` describes: one of type `cpu` that gives its hart
/// id and address translation, with its own clock frequency or else the time base,
/// which must not be zero.
pub open spec fn cpu_entry(node: DeviceTreeNode, timebase: usize) -> Option<(usize, usize, MmuType)> {
    if type_of(node.name@) == "cpu"@ {
        match (first_value(node.props@, "reg"@), first_value(node.props@, "mmu-type"@)) {
            (Some(PropertyValue::Address(h, _)), Some(PropertyValue::String(m))) => {
                let freq = match first_value(node.props@, "clock-frequency"@) {
                    Some(PropertyValue::Integer(f)) => f as usize,
                    _ => timebase,
                };
                if freq != 0 {
                    Some((h as usize, freq, mmu_of(m@)))
                } else {
                    None
                }
            },
            _ => None,
        }
    } else {
        None
    }
}

/// The processors the children `nodes` of `/cpus` describe, in order.
pub open spec fn cpu_list(nodes: Seq<DeviceTreeNode>, timebase: usize) -> Seq<(usize, usize, MmuType)>
    decreases nodes.len(),
{
    if nodes.len() == 0 {
        Seq::empty()
    } else {
        let rest = cpu_list(nodes.drop_last(), timebase);
        match cpu_entry(nodes.last(), timebase) {
            Some(c) => rest.push(c),
            None => rest,
        }
    }
}

/// The `timebase-frequency` of a node, or 0.
pub open spec fn timebase_of(node: DeviceTreeNode) -> usize {
    match first_value(node.props@, "timebase-frequency"@) {
        Some(PropertyValue::Integer(t)) => t as usize,
        _ => 0,
    }
}

/// The processors the board has, from the `/cpus` node.
pub open spec fn board_cpus(tree: DeviceTree) -> Seq<(usize, usize, MmuType)> {
    match first_child(tree.root.nodes@, "cpus"@) {
        Some(i) => {
            let cpus = tree.root.nodes@[i];
            cpu_list(cpus.nodes@, timebase_of(cpus))
        },
        None => Seq::empty(),
    }
}

/// The registers of a node that is a platform-level interrupt controller: it is an
/// interrupt controller, compatible with `riscv,plic0`, and gives its registers.
pub open spec fn plic_of(node: DeviceTreeNode) -> Option<(usize, usize)> {
    let controller = first_value(node.props@, "interrupt-controller"@) matches Some(PropertyValue::Empty);
    let compatible = match first_value(node.props@, "compatible"@) {
        Some(PropertyValue::String(c)) => c@ == "riscv,plic0"@,
        Some(PropertyValue::Strings(cs)) => exists|i: int| 0 <= i < cs@.len() && #[trigger] cs@[i]@ == "riscv,plic0"@,
        _ => false,
    };
    if controller && compatible {
        match first_value(node.props@, "reg"@) {
            Some(PropertyValue::Address(a, s)) => Some((a as usize, s as usize)),
            _ => None,
        }
    } else {
        None
    }
}

/// The registers of the first interrupt controller among `nodes`.
pub open spec fn first_plic(nodes: Seq<DeviceTreeNode>) -> Option<(usize, usize)>
    decreases nodes.len(),
{
    if nodes.len() == 0 {
        None
    } else {
        match plic_of(nodes[0]) {
            Some(x) => Some(x),
            None => first_plic(nodes.drop_first()),
        }
    }
}

/// The processors of a device map, as hart id, frequency and translation.
pub open spec fn cpu_view(cpus: Seq<Cpu>) -> Seq<(usize, usize, MmuType)> {
    cpus.map_values(|c: Cpu| (c.spec_id(), c.spec_freq(), c.spec_mmu()))
}

/// What the board is: its device tree, its devices and where its initial file
/// system lies.
pub struct BoardInfo {
    tree: DeviceTree,
    map: DeviceMap,
    initfs: Option<(usize, usize)>,
}

/// The address translation an `mmu-type` string names.
fn mmu_type_of(m: &String) -> (r: MmuType)
    ensures
        r == mmu_of(m@),
{
    if same_text(m, "riscv,sv32") {
        MmuType::Sv32
    } else if same_text(m, "riscv,sv39") {
        MmuType::Sv39
    } else if same_text(m, "riscv,sv48") {
        MmuType::Sv48
    } else if same_text(m, "riscv,sv57") {
        MmuType::Sv57
    } else {
        MmuType::Bare
    }
}

/// The registers of `node`, where it is a platform-level interrupt controller.
fn plic_registers(node: &DeviceTreeNode) -> (r: Option<(usize, usize)>)
    ensures
        r == plic_of(*node),
{
    if let Some(PropertyValue::Empty) = node.value("interrupt-controller") {
    } else {
        return None;
    }
    let compatible = match node.value("compatible") {
        Some(PropertyValue::String(c)) => same_text(c, "riscv,plic0"),
        Some(PropertyValue::Strings(cs)) => {
            let mut found = false;
            let mut i: usize = 0;
            while i < cs.len()
                invariant
                    i <= cs@.len(),
                    found == exists|j: int| 0 <= j < i && #[trigger] cs@[j]@ == "riscv,plic0"@,
                decreases cs@.len() - i,
            {
                if same_text(&cs[i], "riscv,plic0") {
                    found = true;
                }
                i = i + 1;
            }
            found
        },
        _ => false,
    };
    if !compatible {
        return None;
    }
    if let Some(PropertyValue::Address(addr, size)) = node.value("reg") {
        Some((*addr as usize, *size as usize))
    } else {
        None
    }
}

/// Where `/chosen/initfs` says the initial file system lies.
pub(crate) fn initfs_of(tree: &DeviceTree) -> (r: Option<(usize, usize)>)
    ensures
        r == chosen_initfs(*tree),
{
    if let Some(chosen) = tree.root().find_child("chosen") {
        if let Some(node) = chosen.find_child("initfs") {
            if let Some(PropertyValue::Address(addr, len)) = node.value("reg") {
                return Some((*addr as usize, *len as usize));
            }
        }
    }
    None
}

/// The processor a child of `/cpus` describes.
fn cpu_of(cpu: &DeviceTreeNode, timebase_frequency: usize) -> (r: Option<(usize, usize, MmuType)>)
    ensures
        r == cpu_entry(*cpu, timebase_frequency),
{
    proof {
        reveal_strlit("cpu");
    }
    if same_text(&cpu.type_prefix(), "cpu") {
        if let (Some(PropertyValue::Address(hartid, _)), Some(PropertyValue::String(mmu)))
            = (cpu.value("reg"), cpu.value("mmu-type")) {
            let freq = if let Some(PropertyValue::Integer(frequency)) = cpu.value("clock-frequency") {
                *frequency as usize
            } else {
                timebase_frequency
            };
            if freq != 0 {
                return Some((*hartid as usize, freq, mmu_type_of(mmu)));
            }
        }
    }
    None
}

/// Adds the processors under `/cpus` to `map`.
fn add_cpus(tree: &DeviceTree, map: &mut DeviceMapBuilder)
    requires
        old(map).spec_cpus().len() == 0,
    ensures
        cpu_view(final(map).spec_cpus()) == board_cpus(*tree),
        final(map).spec_intrc() == old(map).spec_intrc(),
{
    let mut timebase_frequency: usize = 0;
    if let Some(cpus) = tree.root().find_child("cpus") {
        if let Some(PropertyValue::Integer(timebase)) = cpus.value("timebase-frequency") {
            timebase_frequency = *timebase as usize;
        }
        assert(cpu_view(map.spec_cpus()) =~= Seq::<(usize, usize, MmuType)>::empty());
        assert(cpus.nodes@.subrange(0, 0) =~= Seq::<DeviceTreeNode>::empty());
        let mut i: usize = 0;
        while i < cpus.nodes.len()
            invariant
                i <= cpus.nodes@.len(),
                timebase_frequency == timebase_of(*cpus),
                cpu_view(map.spec_cpus()) == cpu_list(cpus.nodes@.subrange(0, i as int), timebase_frequency),
                map.spec_intrc() == old(map).spec_intrc(),
            decreases cpus.nodes@.len() - i,
        {
            let ghost before = map.spec_cpus();
            proof {
                assert(cpus.nodes@.subrange(0, i + 1).drop_last() =~= cpus.nodes@.subrange(0, i as int));
            }
            if let Some((hartid, freq, mmu_type)) = cpu_of(&cpus.nodes[i], timebase_frequency) {
                map.cpu(hartid, freq, mmu_type);
                assert(map.spec_cpus() =~= before.push(map.spec_cpus().last()));
                assert(cpu_view(map.spec_cpus()) =~= cpu_view(before).push((hartid, freq, mmu_type)));
            }
            i = i + 1;
        }
        assert(cpus.nodes@.subrange(0, cpus.nodes@.len() as int) =~= cpus.nodes@);
    } else {
        assert(cpu_view(map.spec_cpus()) =~= Seq::<(usize, usize, MmuType)>::empty());
    }
}

/// The registers of the first interrupt controller met breadth first.
fn find_plic(tree: &DeviceTree) -> (r: Option<(usize, usize)>)
    ensures
        r == first_plic(nodes_in_order(*tree)),
{
    let nodes = tree.nodes_in_order();
    let mut k: usize = 0;
    assert(derefs(nodes@).subrange(0, nodes@.len() as int) =~= derefs(nodes@));
    while k < nodes.len()
        invariant
            k <= nodes@.len(),
            derefs(nodes@) == nodes_in_order(*tree),
            first_plic(nodes_in_order(*tree)) == first_plic(derefs(nodes@).subrange(k as int, nodes@.len() as int)),
        decreases nodes@.len() - k,
    {
        let ghost rest = derefs(nodes@).subrange(k as int, nodes@.len() as int);
        assert(rest.drop_first() =~= derefs(nodes@).subrange(k + 1, nodes@.len() as int));
        if let Some(found) = plic_registers(nodes[k]) {
            return Some(found);
        }
        k = k + 1;
    }
    assert(derefs(nodes@).subrange(k as int, nodes@.len() as int) =~= Seq::<DeviceTreeNode>::empty());
    None
}

impl BoardInfo {
    pub closed spec fn spec_tree(&self) -> DeviceTree {
        self.tree
    }

    pub closed spec fn spec_map(&self) -> DeviceMap {
        self.map
    }

    pub closed spec fn spec_initfs(&self) -> Option<(usize, usize)> {
        self.initfs
    }

    /// Reads the board from its device tree: where `/chosen/initfs` puts the initial
    /// file system, the processors under `/cpus`, and the first interrupt controller
    /// met breadth first. A board needs an interrupt controller.
    pub fn from_device_tree(tree: DeviceTree) -> (r: Result<Self, ()>)
        ensures
            r is Ok == first_plic(nodes_in_order(tree)) is Some,
            r matches Ok(b) ==> {
                &&& b.spec_tree() == tree
                &&& b.spec_initfs() == chosen_initfs(tree)
                &&& cpu_view(b.spec_map().spec_cpus()) == board_cpus(tree)
                &&& (first_plic(nodes_in_order(tree)) matches Some((a, s))
                    && b.spec_map().spec_intrc().spec_address() == a && b.spec_map().spec_intrc().spec_size() == s)
            },
    {
        let initfs = initfs_of(&tree);
        let mut map = DeviceMap::builder();
        add_cpus(&tree, &mut map);
        if let Some((addr, size)) = find_plic(&tree) {
            map.intrc(addr, size);
        }
        match map.build() {
            Ok(built) => Ok(BoardInfo { initfs, tree, map: built }),
            Err(()) => Err(()),
        }
    }

    /// Where the initial file system lies, if the tree says.
    pub fn initfs(&self) -> (r: Option<(usize, usize)>)
        ensures
            r == self.spec_initfs(),
    {
        self.initfs
    }

    /// The devices of the board.
    pub fn map(&self) -> (r: &DeviceMap)
        ensures
            *r == self.spec_map(),
    {
        &self.map
    }
}

} // verus!
