//! The hardware description: reading the flattened device tree that the firmware hands over, and
//! the platform parameters found in it.
pub mod bytes;
pub mod cell;
pub mod config;
pub mod dev;
pub mod dtb;
pub mod encoding;
pub mod header;
pub mod laws;
pub mod probe;
pub mod tree;
pub mod walk;
