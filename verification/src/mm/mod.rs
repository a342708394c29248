//! Memory management: addresses, physical memory, page tables, address spaces.
pub mod address;
pub mod page_tale;
pub mod memory;
pub mod memory_set;
