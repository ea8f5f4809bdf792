//! Errors of the entries of a local file tree.
use vstd::prelude::*;

verus! {

/// Why an entry could not be made.
#[derive(Debug, Clone, Copy, PartialEq, Eq, Structural)]
pub enum LocalDentryError {
    InvalidFilename,
}

} // verus!
