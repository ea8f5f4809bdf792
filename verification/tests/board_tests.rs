use erhino_kernel::board::device::bus::BusKind;
use erhino_kernel::board::device::cpu::{Cpu, MmuType};
use erhino_kernel::board::device::intrc::InterruptController;
use erhino_kernel::board::device::peripheral::PeripheralKind;
use erhino_kernel::board::device::DeviceMap;
use erhino_kernel::board::tree::{DeviceTree, DeviceTreeNode, NodeProperty, PropertyValue};
use erhino_kernel::board::BoardInfo;
use erhino_kernel::rt::early_init;

fn prop(name: &str, value: PropertyValue) -> NodeProperty {
    NodeProperty { name: String::from(name), value }
}

fn node(name: &str, props: Vec<NodeProperty>, nodes: Vec<DeviceTreeNode>) -> DeviceTreeNode {
    DeviceTreeNode { name: String::from(name), props, nodes }
}

fn cpu(name: &str, hart: u64, mmu: &str, freq: Option<u64>) -> DeviceTreeNode {
    let mut props = vec![
        prop("device_type", PropertyValue::String(String::from("cpu"))),
        prop("riscv,isa", PropertyValue::String(String::from("rv64imafdc"))),
        prop("reg", PropertyValue::Address(hart, 0)),
        prop("mmu-type", PropertyValue::String(String::from(mmu))),
    ];
    if let Some(f) = freq {
        props.push(prop("clock-frequency", PropertyValue::Integer(f)));
    }
    node(name, props, vec![])
}

fn plic(address: u64) -> DeviceTreeNode {
    node(
        "plic@c000000",
        vec![
            prop("interrupt-controller", PropertyValue::Empty),
            prop("compatible", PropertyValue::Strings(vec![String::from("sifive,plic-1.0.0"), String::from("riscv,plic0")])),
            prop("reg", PropertyValue::Address(address, 0x600000)),
        ],
        vec![],
    )
}

fn board_tree(with_initfs: bool, with_plic: bool) -> DeviceTree {
    let cpus = node(
        "cpus",
        vec![prop("timebase-frequency", PropertyValue::Integer(10_000_000))],
        vec![
            cpu("cpu@0", 0, "riscv,sv39", None),
            cpu("cpu@1", 1, "riscv,sv48", Some(1_000_000_000)),
            node("cpu-map", vec![], vec![]),
        ],
    );
    let mut chosen_children = vec![];
    if with_initfs {
        chosen_children.push(node("initfs", vec![prop("reg", PropertyValue::Address(0x8800_0000, 0x10_0000))], vec![]));
    }
    let chosen = node("chosen", vec![], chosen_children);
    let mut soc_children = vec![node("uart@10000000", vec![], vec![])];
    if with_plic {
        soc_children.push(plic(0xc00_0000));
    }
    let soc = node("soc", vec![], soc_children);
    DeviceTree { root: node("", vec![], vec![chosen, cpus, soc]) }
}

#[test]
fn board_from_tree() {
    let board = BoardInfo::from_device_tree(board_tree(true, true)).unwrap();
    assert_eq!(board.initfs(), Some((0x8800_0000, 0x10_0000)));
    let cpus = board.map().cpus();
    assert_eq!(cpus.len(), 2);
    assert_eq!((cpus[0].id(), cpus[0].freq(), cpus[0].mmu()), (0, 10_000_000, MmuType::Sv39));
    assert_eq!((cpus[1].id(), cpus[1].freq(), cpus[1].mmu()), (1, 1_000_000_000, MmuType::Sv48));
    assert_eq!(board.map().intrc().address(), 0xc00_0000);
    assert_eq!(board.map().intrc().size(), 0x600000);
}

#[test]
fn board_needs_interrupt_controller() {
    assert!(BoardInfo::from_device_tree(board_tree(true, false)).is_err());
}

#[test]
fn board_without_initfs() {
    let board = BoardInfo::from_device_tree(board_tree(false, true)).unwrap();
    assert_eq!(board.initfs(), None);
}

#[test]
fn early_init_reads_initfs_and_harts() {
    let (initfs, harts) = early_init(&board_tree(true, false)).unwrap();
    assert_eq!(initfs, (0x8800_0000, 0x10_0000));
    assert_eq!(harts, vec![(0, 10_000_000), (1, 1_000_000_000)]);
    assert!(early_init(&board_tree(false, true)).is_none());
}

#[test]
fn early_init_skips_harts_without_the_isa() {
    let mut tree = board_tree(true, false);
    tree.root.nodes[1].nodes[1].props[1].value = PropertyValue::String(String::from("rv64ima"));
    let (_, harts) = early_init(&tree).unwrap();
    assert_eq!(harts, vec![(0, 10_000_000)]);
    tree.root.nodes[1].props.clear();
    let (_, harts) = early_init(&tree).unwrap();
    assert!(harts.is_empty());
}

#[test]
fn early_init_rejects_empty_initfs() {
    let mut tree = board_tree(true, true);
    tree.root.nodes[0].nodes[0].props[0].value = PropertyValue::Address(0, 0);
    assert!(early_init(&tree).is_none());
}

#[test]
fn tree_queries() {
    let tree = board_tree(true, true);
    let root = tree.root();
    assert_eq!(root.nodes().len(), 3);
    let cpus = root.find_child("cpus").unwrap();
    assert_eq!(cpus.name(), "cpus");
    assert!(matches!(cpus.value("timebase-frequency"), Some(PropertyValue::Integer(10_000_000))));
    assert!(cpus.value("missing").is_none());
    assert!(root.find_child("memory").is_none());
    assert_eq!(cpus.nodes()[1].type_prefix(), "cpu");
    assert_eq!(cpus.nodes()[2].type_prefix(), "cpu-map");
    let order: Vec<String> = tree.nodes_in_order().iter().map(|n| n.name().clone()).collect();
    assert_eq!(
        order,
        vec!["", "chosen", "cpus", "soc", "initfs", "cpu@0", "cpu@1", "cpu-map", "uart@10000000", "plic@c000000"]
    );
}

#[test]
fn device_map_builder() {
    let mut builder = DeviceMap::builder();
    builder.cpu(0, 100, MmuType::Sv39);
    assert!(DeviceMap::builder().build().is_err());
    builder.intrc(0x1000, 0x100);
    let map = builder.build().unwrap();
    assert_eq!(map.cpus().len(), 1);
    assert_eq!(map.intrc().address(), 0x1000);
    let c = Cpu::new(3, 5, MmuType::Bare);
    assert_eq!((c.id(), c.freq(), c.mmu()), (3, 5, MmuType::Bare));
    let i = InterruptController::new(7, 8);
    assert_eq!((i.address(), i.size()), (7, 8));
}

fn spi_node(with_reg: bool) -> DeviceTreeNode {
    let mut props = vec![
        prop("compatible", PropertyValue::String(String::from("sifive,spi0"))),
        prop("interrupt-parent", PropertyValue::PHandle(3)),
    ];
    if with_reg {
        props.push(prop("reg", PropertyValue::Address(0x1004_0000, 0x1000)));
    }
    node(
        "spi@10040000",
        props,
        vec![
            node("mmc", vec![prop("compatible", PropertyValue::String(String::from("mmc-spi-slot")))], vec![]),
            node("flash", vec![prop("compatible", PropertyValue::String(String::from("jedec,spi-nor")))], vec![]),
        ],
    )
}

#[test]
fn peripherals_from_nodes() {
    match PeripheralKind::from_device_node(&spi_node(true)) {
        Some(PeripheralKind::Bus(BusKind::Spi(_, devices))) => assert_eq!(devices.len(), 1),
        _ => panic!("an SPI bus was expected"),
    }
    assert!(PeripheralKind::from_device_node(&spi_node(false)).is_none());
    assert!(PeripheralKind::from_device_node(&node("uart@10000000", vec![], vec![])).is_none());
    let serial = node("serial@10000000", vec![prop("compatible", PropertyValue::String(String::from("ns16550a")))], vec![]);
    assert!(PeripheralKind::from_device_node(&serial).is_none());
}
