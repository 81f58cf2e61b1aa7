//! System calls and traps.
pub mod envcall;
pub mod laws;
pub mod trap;
