//! The kernel log: levels and filters, messages, the ring that keeps the last ones, and the lines
//! that go to the console.
pub mod buf;
pub mod clock;
pub mod filter;
pub mod logger;
pub mod names;
pub mod palette;
pub mod record;
pub mod ring;
