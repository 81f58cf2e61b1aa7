//! Memory management: physical memory, Sv39 page tables, address spaces and allocators.
pub mod addr;
pub mod block;
pub mod bring;
pub mod change;
pub mod entry;
pub mod graft;
pub mod kernel;
pub mod laws;
pub mod moved;
pub mod phys;
pub mod prune;
pub mod region;
pub mod space;
pub mod sv39;
pub mod table;
pub mod walk;
pub mod ways;
