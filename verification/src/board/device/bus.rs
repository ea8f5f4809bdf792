//! Buses found in the device tree, and the devices on them.
use vstd::prelude::*;
use crate::board::tree::{DeviceTreeNode, PropertyValue, first_value, same_text};

verus! {

/// A bus and the devices on it.
pub enum BusKind {
    Spi(Spi, Vec<SpiDeviceKind>),
}

/// A device on an SPI bus.
pub enum SpiDeviceKind {
    Mmc(SpiMmc),
}

/// An SPI controller: what it is compatible with, its registers and its interrupt
/// parent.
pub struct Spi {
    compatible: String,
    address: usize,
    length: usize,
    intr_parent_id: usize,
}

/// A memory card on an SPI bus.
pub struct SpiMmc {
    compatible: String,
}

/// The `compatible` string of a node, if it has one.
pub open spec fn compatible_of(node: DeviceTreeNode) -> Option<Seq<char>> {
    match first_value(node.props@, "compatible"@) {
        Some(PropertyValue::String(v)) => Some(v@),
        _ => None,
    }
}

/// The `compatible` strings of the memory cards among `nodes`, in order.
pub open spec fn mmc_children(nodes: Seq<DeviceTreeNode>) -> Seq<Seq<char>>
    decreases nodes.len(),
{
    if nodes.len() == 0 {
        Seq::empty()
    } else {
        let last = nodes.last();
        let rest = mmc_children(nodes.drop_last());
        if last.name@ == "mmc"@ && compatible_of(last) is Some {
            rest.push(compatible_of(last)->0)
        } else {
            rest
        }
    }
}

/// The registers (address, length) and interrupt parent of an SPI node, where it
/// gives both.
pub open spec fn spi_fields(node: DeviceTreeNode) -> Option<(usize, usize, usize)> {
    match (first_value(node.props@, "reg"@), first_value(node.props@, "interrupt-parent"@)) {
        (Some(PropertyValue::Address(a, l)), Some(PropertyValue::PHandle(p))) => Some((a as usize, l as usize, p as usize)),
        _ => None,
    }
}

impl SpiDeviceKind {
    /// What the device is compatible with.
    pub open spec fn spec_compatible(&self) -> Seq<char> {
        match self {
            SpiDeviceKind::Mmc(m) => m.spec_compatible(),
        }
    }
}

impl SpiMmc {
    pub closed spec fn spec_compatible(&self) -> Seq<char> {
        self.compatible@
    }

    /// The memory card a node describes, where it says what it is compatible with.
    pub fn from_device_node(node: &DeviceTreeNode) -> (r: Option<SpiMmc>)
        ensures
            r is Some == compatible_of(*node) is Some,
            r matches Some(m) ==> m.spec_compatible() == compatible_of(*node)->0,
    {
        let compatible = if let Some(PropertyValue::String(value)) = node.value("compatible") {
            value.clone()
        } else {
            return None;
        };
        Some(SpiMmc { compatible })
    }
}

impl Spi {
    pub closed spec fn spec_compatible(&self) -> Seq<char> {
        self.compatible@
    }

    pub closed spec fn spec_fields(&self) -> (usize, usize, usize) {
        (self.address, self.length, self.intr_parent_id)
    }

    /// The SPI controller a node describes, with the memory cards below it; the node
    /// must give its registers and its interrupt parent.
    pub fn from_device_node(node: &DeviceTreeNode, compatible: String) -> (r: Option<(Self, Vec<SpiDeviceKind>)>)
        ensures
            r is Some == spi_fields(*node) is Some,
            r matches Some((s, d)) ==> {
                &&& s.spec_compatible() == compatible@
                &&& s.spec_fields() == spi_fields(*node)->0
                &&& d@.map_values(|k: SpiDeviceKind| k.spec_compatible()) == mmc_children(node.nodes@)
            },
    {
        let mut children = Vec::<SpiDeviceKind>::new();
        let (address, length) = if let Some(PropertyValue::Address(a, l)) = node.value("reg") {
            (*a as usize, *l as usize)
        } else {
            return None;
        };
        let intr_parent_id = if let Some(PropertyValue::PHandle(value)) = node.value("interrupt-parent") {
            *value as usize
        } else {
            return None;
        };
        assert(children@.map_values(|k: SpiDeviceKind| k.spec_compatible()) =~= Seq::<Seq<char>>::empty());
        Self::parse_children(node, &mut children);
        assert(Seq::<Seq<char>>::empty() + mmc_children(node.nodes@) =~= mmc_children(node.nodes@));
        Some((Spi { compatible, address, length, intr_parent_id }, children))
    }

    /// Adds the memory cards among the children of `node` to `container`.
    fn parse_children(node: &DeviceTreeNode, container: &mut Vec<SpiDeviceKind>)
        ensures
            final(container)@.map_values(|k: SpiDeviceKind| k.spec_compatible())
                == old(container)@.map_values(|k: SpiDeviceKind| k.spec_compatible()) + mmc_children(node.nodes@),
    {
        let ghost start = old(container)@.map_values(|k: SpiDeviceKind| k.spec_compatible());
        let mut i: usize = 0;
        while i < node.nodes.len()
            invariant
                i <= node.nodes@.len(),
                container@.map_values(|k: SpiDeviceKind| k.spec_compatible())
                    == start + mmc_children(node.nodes@.subrange(0, i as int)),
            decreases node.nodes@.len() - i,
        {
            let child = &node.nodes[i];
            let ghost before = container@;
            proof {
                assert(node.nodes@.subrange(0, i + 1).drop_last() =~= node.nodes@.subrange(0, i as int));
            }
            if same_text(&child.name, "mmc") {
                if let Some(mmc) = SpiMmc::from_device_node(child) {
                    container.push(SpiDeviceKind::Mmc(mmc));
                    assert(container@.map_values(|k: SpiDeviceKind| k.spec_compatible())
                        =~= before.map_values(|k: SpiDeviceKind| k.spec_compatible()).push(compatible_of(*child)->0));
                }
            }
            i = i + 1;
        }
        assert(node.nodes@.subrange(0, node.nodes@.len() as int) =~= node.nodes@);
    }
}

impl BusKind {
    /// The bus a node describes: for a node called `spi`, an SPI controller.
    pub fn from_device_node(node: &DeviceTreeNode, name: String, compatible: String) -> (r: Option<Self>)
        ensures
            name@ != "spi"@ ==> r is None,
            name@ == "spi"@ ==> (r is Some == spi_fields(*node) is Some),
            r matches Some(BusKind::Spi(s, d)) ==> {
                &&& s.spec_compatible() == compatible@
                &&& s.spec_fields() == spi_fields(*node)->0
                &&& d@.map_values(|k: SpiDeviceKind| k.spec_compatible()) == mmc_children(node.nodes@)
            },
    {
        if same_text(&name, "spi") {
            match Spi::from_device_node(node, compatible) {
                Some((s, d)) => Some(BusKind::Spi(s, d)),
                None => None,
            }
        } else {
            None
        }
    }
}

} // verus!
