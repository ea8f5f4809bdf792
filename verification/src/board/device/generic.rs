//! Devices described as the device tree gives them, with references between them
//! by index.
use vstd::prelude::*;

verus! {

/// A device: its name and type, what it is compatible with, and the index of its
/// parent.
pub struct GenericDevice {
    name: String,
    typ: String,
    compatible: Option<String>,
    parent: Option<usize>,
}

/// A device whose references are not resolved yet: its handle and parent.
pub struct GenericDeviceBuilder {
    handle: usize,
    parent: Option<usize>,
}

} // verus!
