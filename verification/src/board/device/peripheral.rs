//! Peripherals found in the device tree.
use vstd::prelude::*;
use crate::board::tree::{DeviceTreeNode, PropertyValue, type_of, same_text};
use crate::board::device::bus::{BusKind, SpiDeviceKind, compatible_of, spi_fields, mmc_children};

verus! {

/// What a peripheral is.
pub enum PeripheralKind {
    InterruptController(usize),
    Clock(usize),
    Serial,
    Bus(BusKind),
    Interface,
}

impl PeripheralKind {
    /// The peripheral a node describes: a node that says what it is compatible with
    /// and whose type is `spi` or `i2c` is read as a bus.
    pub fn from_device_node(node: &DeviceTreeNode) -> (r: Option<Self>)
        ensures
            r is Some == (compatible_of(*node) is Some && type_of(node.name@) == "spi"@ && spi_fields(*node) is Some),
            r matches Some(PeripheralKind::Bus(BusKind::Spi(s, d))) ==> {
                &&& s.spec_compatible() == compatible_of(*node)->0
                &&& s.spec_fields() == spi_fields(*node)->0
                &&& d@.map_values(|k: SpiDeviceKind| k.spec_compatible()) == mmc_children(node.nodes@)
            },
            r matches Some(k) ==> k is Bus,
    {
        let name = node.type_prefix();
        let compatible = if let Some(PropertyValue::String(value)) = node.value("compatible") {
            value.clone()
        } else {
            return None;
        };
        proof {
            reveal_strlit("spi");
            reveal_strlit("i2c");
        }
        if same_text(&name, "spi") || same_text(&name, "i2c") {
            match BusKind::from_device_node(node, name, compatible) {
                Some(b) => Some(PeripheralKind::Bus(b)),
                None => None,
            }
        } else {
            None
        }
    }
}

} // verus!
