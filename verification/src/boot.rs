//! What the first steps of the kernel compute.
use vstd::prelude::*;
use crate::context;
use crate::memory::phys::PAGE_SIZE;
use crate::text;

verus! {

/// Top of the boot stack: a page below the end of memory, aligned to sixteen bytes.
pub open spec fn boot_stack_top(dram_base: u64, dram_size: u64) -> int {
    let end = dram_base + dram_size - PAGE_SIZE;
    end - end % 16
}

/// Top of the boot stack.
pub fn stack_top(dram_base: u64, dram_size: u64) -> (r: u64)
    requires
        dram_base + dram_size <= u64::MAX,
        dram_base + dram_size >= PAGE_SIZE,
    ensures
        r == boot_stack_top(dram_base, dram_size),
{
    let end: u64 = dram_base + dram_size - PAGE_SIZE;
    end - end % 16
}

/// A trap on the empty boot stack stores its frame inside memory: the frame lies below the top, and
/// the top is below the end of memory.
pub proof fn law_boot_frame_in_memory(dram_base: u64, dram_size: u64)
    requires
        dram_base + dram_size <= u64::MAX,
        dram_size >= 2 * PAGE_SIZE,
    ensures
        dram_base <= boot_stack_top(dram_base, dram_size) - context::FRAME_SIZE,
        boot_stack_top(dram_base, dram_size) < dram_base + dram_size,
        boot_stack_top(dram_base, dram_size) % 16 == 0,
{
}

/// The line that says that the processor is up.
pub open spec fn booted_text(hart: u64, dram_base: u64, dram_size: u64) -> Seq<u8> {
    text::utf8("hart ") + text::dec(hart as nat) + text::utf8(" booted, DRAM: ")
        + text::hex_prefixed(dram_base as nat) + text::utf8("..") + text::hex_prefixed(
        (dram_base + dram_size) as nat,
    ) + text::utf8(" (") + text::dec((dram_size / 0x10_0000) as nat) + text::utf8(" MiB)")
}

/// The line that says that the processor is up.
pub fn booted_line(hart: u64, dram_base: u64, dram_size: u64) -> (r: Vec<u8>)
    requires
        dram_base + dram_size <= u64::MAX,
    ensures
        r@ == booted_text(hart, dram_base, dram_size),
{
    let mut r: Vec<u8> = Vec::new();
    text::push_str(&mut r, "hart ");
    text::push_dec(&mut r, hart);
    text::push_str(&mut r, " booted, DRAM: ");
    text::push_hex(&mut r, dram_base);
    text::push_str(&mut r, "..");
    text::push_hex(&mut r, dram_base + dram_size);
    text::push_str(&mut r, " (");
    text::push_dec(&mut r, dram_size / 0x10_0000);
    text::push_str(&mut r, " MiB)");
    assert(r@ =~= booted_text(hart, dram_base, dram_size));
    r
}

/// The boot stack ends a page below the end of memory, or up to fifteen bytes lower.
pub proof fn law_boot_stack_top(dram_base: u64, dram_size: u64)
    requires
        dram_base + dram_size >= 4096,
    ensures
        boot_stack_top(dram_base, dram_size) <= dram_base + dram_size - 4096,
        boot_stack_top(dram_base, dram_size) > dram_base + dram_size - 4096 - 16,
        boot_stack_top(dram_base, dram_size) % 16 == 0,
{
}

/// The line names the processor, the first address of memory, its end and its size in mebibytes.
pub proof fn law_booted_text(hart: u64, dram_base: u64, mib: u64)
    requires
        dram_base + mib * 1048576 <= u64::MAX,
    ensures
        booted_text(hart, dram_base, (mib * 1048576) as u64) == text::utf8("hart ") + text::dec(
            hart as nat,
        ) + text::utf8(" booted, DRAM: ") + text::hex_prefixed(dram_base as nat) + text::utf8("..")
            + text::hex_prefixed((dram_base + mib * 1048576) as nat) + text::utf8(" (") + text::dec(
            mib as nat,
        ) + text::utf8(" MiB)"),
{
    assert((mib * 1048576) / 1048576 == mib);
}

} // verus!
