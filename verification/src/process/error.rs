//! Why a program could not be loaded.
use vstd::prelude::*;

verus! {

/// Why a program could not be loaded: the image is broken, or built for another
/// machine or use.
#[derive(Debug, Clone, Copy, PartialEq, Eq, Structural)]
pub enum ProcessSpawnError {
    BrokenBinary,
    WrongTarget,
}

} // verus!
