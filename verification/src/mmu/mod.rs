//! The first memory-management unit driver: page tables, address spaces and page faults.
pub mod fault;
pub mod frames;
pub mod kernel;
pub mod laws;
pub mod pt;
pub mod pte;
pub mod space;
pub mod table;
