//! Verified core of a small RISC-V kernel.
pub mod boot;
pub mod context;
pub mod drivers;
pub mod journal;
pub mod lock;
pub mod log;
pub mod memory;
pub mod mmu;
pub mod order;
pub mod panicking;
pub mod platform;
pub mod round_robin;
pub mod runtime;
pub mod schedule;
pub mod scheduler;
pub mod shell;
pub mod task;
pub mod text;
pub mod trap;
pub mod user;
