//! The interrupt controller.
use vstd::prelude::*;

verus! {

/// Base of the registers.
pub const PLIC_BASE: u64 = 0x0C00_0000;

/// Interrupt of the serial port.
pub const UART0_IRQ: u32 = 10;

/// The processor context that interrupts go to.
pub const HART_ID: u64 = 0;

/// A register write: address and value.
#[derive(Clone, Copy, PartialEq, Eq, Structural, Debug)]
pub struct RegisterWrite {
    pub addr: u64,
    pub value: u32,
}

/// Address of the priority of a source.
pub fn priority_addr(source: u32) -> (r: u64)
    ensures
        r == PLIC_BASE + source * 4,
{
    PLIC_BASE + source as u64 * 4
}

/// Address of the priority threshold of a context.
pub fn threshold_addr(context: u64) -> (r: u64)
    requires
        context <= 0x3DFF,
    ensures
        r == PLIC_BASE + 0x20_0000 + context * 0x1000,
{
    PLIC_BASE + 0x20_0000 + context * 0x1000
}

/// Address of the register from which interrupts are claimed and to which they are completed.
pub fn claim_addr(context: u64) -> (r: u64)
    requires
        context <= 0x3DFF,
    ensures
        r == PLIC_BASE + 0x20_0004 + context * 0x1000,
{
    PLIC_BASE + 0x20_0004 + context * 0x1000
}

/// Address of the word with the enable bit of a source.
pub fn enable_addr(context: u64, source: u32) -> (r: u64)
    requires
        context <= 0x3DFF,
    ensures
        r == PLIC_BASE + 0x2000 + context * 0x80 + source as int / 32 * 4,
{
    PLIC_BASE + 0x2000 + context * 0x80 + (source / 32) as u64 * 4
}

/// Bit `n` of the word is set.
pub open spec fn bit_set(word: u32, n: u32) -> bool {
    (word >> n) & 1 == 1
}

/// The word with the enable bit of the source set.
pub open spec fn enabled(word: u32, source: u32) -> u32 {
    word | (1u32 << (source % 32))
}

/// The value that enables the source, if the word holds `word`.
pub fn enable_value(word: u32, source: u32) -> (r: u32)
    ensures
        r == enabled(word, source),
{
    word | (1u32 << (source % 32))
}

/// The write that gives a source its priority.
pub fn set_priority(source: u32, priority: u32) -> (r: RegisterWrite)
    ensures
        r.addr == PLIC_BASE + source * 4,
        r.value == priority,
{
    RegisterWrite { addr: priority_addr(source), value: priority }
}

/// The write that enables a source for a context, if the word with its enable bit holds `word`.
pub fn enable(context: u64, source: u32, word: u32) -> (r: RegisterWrite)
    requires
        context <= 0x3DFF,
    ensures
        r.addr == PLIC_BASE + 0x2000 + context * 0x80 + source as int / 32 * 4,
        r.value == enabled(word, source),
{
    RegisterWrite { addr: enable_addr(context, source), value: enable_value(word, source) }
}

/// The register that holds the source of the pending interrupt, zero if there is none.
pub fn claim() -> (addr: u64)
    ensures
        addr == 0x0C20_0004,
{
    claim_addr(HART_ID)
}

/// The write that tells the controller that the interrupt was handled.
pub fn complete(irq: u32) -> (r: RegisterWrite)
    ensures
        r == (RegisterWrite { addr: 0x0C20_0004, value: irq }),
{
    RegisterWrite { addr: claim_addr(HART_ID), value: irq }
}

/// The register writes that set the controller up for the serial port, if its enable word holds
/// `word`: the source gets a priority, every priority passes, and the source is enabled.
pub fn init(word: u32) -> (r: Vec<RegisterWrite>)
    ensures
        r@ == seq![
            RegisterWrite { addr: 0x0C00_0028, value: 1 },
            RegisterWrite { addr: 0x0C20_0000, value: 0 },
            RegisterWrite { addr: 0x0C00_2000, value: enabled(word, UART0_IRQ) },
        ],
{
    let mut r: Vec<RegisterWrite> = Vec::new();
    r.push(set_priority(UART0_IRQ, 1));
    r.push(RegisterWrite { addr: threshold_addr(HART_ID), value: 0 });
    r.push(enable(HART_ID, UART0_IRQ, word));
    r
}

/// Enabling a source sets its bit and leaves the other sources as they are.
pub proof fn law_enable_one_source(word: u32, source: u32, n: u32)
    requires
        n < 32,
    ensures
        bit_set(enabled(word, source), n) == (bit_set(word, n) || n == source % 32),
{
    assert(((word | (1u32 << (source % 32))) >> n) & 1 == 1 <==> ((word >> n) & 1 == 1 || n
        == source % 32)) by (bit_vector)
        requires
            n < 32,
    ;
}

} // verus!
