//! What the device drivers compute: register addresses, register values and bytes to send.
pub mod plic;
pub mod timer;
pub mod uart;
