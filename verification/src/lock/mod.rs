//! Locks: the words that they keep, and the steps that change them.
//!
//! A processor takes a lock by atomic operations on its word. Every operation is a step here, so
//! that what holds after every step holds however the steps of several processors mix.
pub mod rw;
pub mod spin;
