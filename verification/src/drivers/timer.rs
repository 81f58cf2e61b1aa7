//! The timer.
use vstd::prelude::*;
use crate::text;

verus! {

/// Base of the registers.
pub const CLINT_BASE: u64 = 0x0200_0000;

/// Offset of the time at which the next interrupt comes.
pub const MTIMECMP: u64 = 0x4000;

/// Offset of the current time.
pub const MTIME: u64 = 0xBFF8;

/// Ticks in a second.
pub const TICKS_PER_SEC: u64 = 10_000_000;

/// The value of the interrupt register for an interrupt `interval` ticks after `now`.
pub fn set_timer(now: u64, interval: u64) -> (r: u64)
    requires
        now + interval <= u64::MAX,
    ensures
        r == now + interval,
{
    now + interval
}

/// The line that a timer interrupt prints.
pub fn handler() -> (r: Vec<u8>)
    ensures
        r@ == text::utf8("[timer] tick!\n"),
{
    let mut r: Vec<u8> = Vec::new();
    text::push_str(&mut r, "[timer] tick!\n");
    assert(r@ =~= text::utf8("[timer] tick!\n"));
    r
}

} // verus!
