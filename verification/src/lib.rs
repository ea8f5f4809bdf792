//! A verified core of a small RISC-V kernel: firmware calls, paging arithmetic,
//! page tables, the in-memory file tree and the process bookkeeping.
use vstd::prelude::*;

pub mod board;
pub mod sbi;
pub mod see;
pub mod rng;
pub mod timer;
pub mod hart;
pub mod mm;
pub mod path;
pub mod peripheral;
pub mod proc;
pub mod process;
pub mod rt;
pub mod bytes;
pub mod fal;
pub mod fs;
pub mod sync;

verus! {
} // verus!
