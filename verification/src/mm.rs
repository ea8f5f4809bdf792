//! Memory management: addresses, page table entries, page tables and the memory
//! unit that maps virtual page ranges onto physical ones.
pub mod address;
pub mod frame;
pub mod page;
pub mod unit;
pub mod usage;
