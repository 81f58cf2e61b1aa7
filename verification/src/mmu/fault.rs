//! Page faults.
use vstd::prelude::*;
use crate::memory::addr;
use crate::memory::addr::VirtAddr;
use crate::memory::entry::PteFlags;
use crate::memory::phys::PhysMem;
use crate::memory::table;
use crate::memory::walk;
use crate::mmu::space::AddressSpace;

verus! {

/// What was attempted when the page fault came.
#[derive(Clone, Copy, PartialEq, Eq, Structural, Debug)]
pub enum FaultKind {
    /// Instruction fetch.
    Instruction,
    /// Load.
    Load,
    /// Store or atomic operation.
    Store,
}

/// A page fault as the trap registers report it.
#[derive(Clone, Copy, PartialEq, Eq, Structural, Debug)]
pub struct PageFault {
    /// The address that was accessed.
    pub addr: VirtAddr,
    /// The instruction that accessed it.
    pub pc: u64,
    /// What was attempted.
    pub kind: FaultKind,
}

/// The exception code of a page fault.
pub open spec fn fault_code(kind: FaultKind) -> int {
    match kind {
        FaultKind::Instruction => 12,
        FaultKind::Load => 13,
        FaultKind::Store => 15,
    }
}

/// The low 39 bits of an address, sign extended from bit 38.
pub open spec fn sign_extended(a: u64) -> int {
    if (a as int) % (addr::VA_SPAN as int) < addr::VA_HALF {
        (a as int) % (addr::VA_SPAN as int)
    } else {
        (a as int) % (addr::VA_SPAN as int) + 0x1_0000_0000_0000_0000 - addr::VA_SPAN
    }
}

impl PageFault {
    /// The fault that the exception code and the trap registers describe.
    pub fn capture(code: u64, tval: u64, epc: u64) -> (r: PageFault)
        requires
            code == 12 || code == 13 || code == 15,
        ensures
            fault_code(r.kind) == code,
            r.addr.0 == sign_extended(tval),
            r.pc == epc,
    {
        let kind: FaultKind = if code == 12 {
            FaultKind::Instruction
        } else if code == 13 {
            FaultKind::Load
        } else {
            FaultKind::Store
        };
        PageFault { addr: VirtAddr::new_truncate(tval), pc: epc, kind }
    }
}

/// The flags of a page allow the access: execute for a fetch, read for a load, write for a store.
pub open spec fn allows(flags: int, kind: FaultKind) -> bool {
    match kind {
        FaultKind::Instruction => flags / 8 % 2 == 1,
        FaultKind::Load => flags / 2 % 2 == 1,
        FaultKind::Store => flags / 4 % 2 == 1,
    }
}

/// Whether the fault is resolved and the access can be retried: if and only if the page is mapped
/// after all, with flags that allow the access.
pub fn handle_page_fault(fault: &PageFault, space: &AddressSpace, mem: &PhysMem) -> (resolved: bool)
    requires
        mem.wf(),
        walk::walkable(mem@, space.root()),
    ensures
        resolved <==> (table::translation(
            mem@,
            space.root(),
            addr::page_number(fault.addr.0),
        ) matches Some((_, f)) && allows(f, fault.kind)),
{
    match space.translate(mem, fault.addr) {
        Some((_, flags)) => {
            let f: u64 = flags.0;
            assert((f & 2 == 2) == (f / 2 % 2 == 1)) by (bit_vector);
            assert((f & 4 == 4) == (f / 4 % 2 == 1)) by (bit_vector);
            assert((f & 8 == 8) == (f / 8 % 2 == 1)) by (bit_vector);
            let needed: u64 = match fault.kind {
                FaultKind::Instruction => PteFlags::X,
                FaultKind::Load => PteFlags::R,
                FaultKind::Store => PteFlags::W,
            };
            flags.contains(PteFlags::from_bits(needed))
        },
        None => false,
    }
}

/// Sign extension keeps the low 39 bits and copies the highest of them to all bits above.
pub proof fn law_sign_extended(a: u64)
    ensures
        sign_extended(a) % 0x80_0000_0000 == a as int % 0x80_0000_0000,
        (a as int / 0x40_0000_0000) % 2 == 0 ==> 0 <= sign_extended(a) < 0x40_0000_0000,
        (a as int / 0x40_0000_0000) % 2 == 1 ==> 0xFFFF_FFC0_0000_0000 <= sign_extended(a)
            <= u64::MAX,
{
    let b = a as int % 0x80_0000_0000;
    let q = a as int / 0x80_0000_0000;
    assert(a == q * 0x80_0000_0000 + b);
    assert(a as int / 0x40_0000_0000 == 2 * q + b / 0x40_0000_0000);
}

/// A fetch needs the execute flag, a load the read flag and a store the write flag.
pub proof fn law_needed_flags(flags: u64)
    ensures
        allows(flags as int, FaultKind::Instruction) <==> flags & 8 != 0,
        allows(flags as int, FaultKind::Load) <==> flags & 2 != 0,
        allows(flags as int, FaultKind::Store) <==> flags & 4 != 0,
        fault_code(FaultKind::Instruction) == 12,
        fault_code(FaultKind::Load) == 13,
        fault_code(FaultKind::Store) == 15,
{
    assert((flags / 8) % 2 == 1 <==> flags & 8 != 0) by (bit_vector);
    assert((flags / 4) % 2 == 1 <==> flags & 4 != 0) by (bit_vector);
    assert((flags / 2) % 2 == 1 <==> flags & 2 != 0) by (bit_vector);
}

} // verus!
