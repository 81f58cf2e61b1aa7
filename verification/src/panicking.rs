//! The report of a kernel panic.
use vstd::prelude::*;
use crate::text;
use crate::task::{TASK_STACK_BASE, TASK_STACK_SIZE};

verus! {

/// How much a panic reports.
#[derive(Clone, Copy, PartialEq, Eq, Structural, Debug)]
pub enum PanicVerbosity {
    /// The message and the registers.
    Normal,
    /// The message, the registers and the backtrace.
    Full,
}

/// The configured verbosity. It can be set once.
pub struct PanicConfig {
    level: Option<PanicVerbosity>,
}

impl PanicConfig {
    /// The level that was set.
    pub closed spec fn level(&self) -> Option<PanicVerbosity> {
        self.level
    }

    /// Nothing is set.
    pub fn new() -> (r: PanicConfig)
        ensures
            r.level() is None,
    {
        PanicConfig { level: None }
    }

    /// Sets the verbosity. Only the first call counts.
    pub fn set_verbosity(&mut self, level: PanicVerbosity)
        ensures
            final(self).level() == (if old(self).level() is Some {
                old(self).level()
            } else {
                Some(level)
            }),
    {
        if self.level.is_none() {
            self.level = Some(level);
        }
    }

    /// The verbosity; everything is reported if none was set.
    pub fn verbosity(&self) -> (r: PanicVerbosity)
        ensures
            r == (match self.level() {
                Some(l) => l,
                None => PanicVerbosity::Full,
            }),
    {
        match self.level {
            Some(l) => l,
            None => PanicVerbosity::Full,
        }
    }
}

/// The trap cause is an interrupt: its highest bit is set.
pub open spec fn is_interrupt(scause: u64) -> bool {
    scause >= 0x8000_0000_0000_0000
}

/// The number of the trap cause, without the interrupt bit.
pub open spec fn cause_code(scause: u64) -> int {
    scause as int % 0x8000_0000_0000_0000
}

/// What the trap cause means.
pub open spec fn cause_name(scause: u64) -> &'static str {
    let code = cause_code(scause);
    if is_interrupt(scause) {
        if code == 1 {
            "Supervisor software interrupt"
        } else if code == 3 {
            "Machine software interrupt"
        } else if code == 5 {
            "Supervisor timer interrupt"
        } else if code == 7 {
            "Machine timer interrupt"
        } else if code == 9 {
            "Supervisor external interrupt"
        } else if code == 11 {
            "Machine external interrupt"
        } else {
            "Unknown interrupt"
        }
    } else {
        if code == 0 {
            "Instruction address misaligned"
        } else if code == 1 {
            "Instruction access fault"
        } else if code == 2 {
            "Illegal instruction"
        } else if code == 3 {
            "Breakpoint"
        } else if code == 4 {
            "Load address misaligned"
        } else if code == 5 {
            "Load access fault"
        } else if code == 6 {
            "Store/AMO address misaligned"
        } else if code == 7 {
            "Store/AMO access fault"
        } else if code == 8 {
            "Environment call from U-mode"
        } else if code == 9 {
            "Environment call from S-mode"
        } else if code == 11 {
            "Environment call from M-mode"
        } else if code == 12 {
            "Instruction page fault"
        } else if code == 13 {
            "Load page fault"
        } else if code == 15 {
            "Store/AMO page fault"
        } else {
            "Unknown exception"
        }
    }
}

/// What the trap cause means.
pub fn decode_scause(scause: u64) -> (r: &'static str)
    ensures
        r == cause_name(scause),
{
    if scause >= 0x8000_0000_0000_0000 {
        match scause - 0x8000_0000_0000_0000 {
            1 => "Supervisor software interrupt",
            3 => "Machine software interrupt",
            5 => "Supervisor timer interrupt",
            7 => "Machine timer interrupt",
            9 => "Supervisor external interrupt",
            11 => "Machine external interrupt",
            _ => "Unknown interrupt",
        }
    } else {
        match scause {
            0 => "Instruction address misaligned",
            1 => "Instruction access fault",
            2 => "Illegal instruction",
            3 => "Breakpoint",
            4 => "Load address misaligned",
            5 => "Load access fault",
            6 => "Store/AMO address misaligned",
            7 => "Store/AMO access fault",
            8 => "Environment call from U-mode",
            9 => "Environment call from S-mode",
            11 => "Environment call from M-mode",
            12 => "Instruction page fault",
            13 => "Load page fault",
            15 => "Store/AMO page fault",
            _ => "Unknown exception",
        }
    }
}

/// Where a panic happened.
#[derive(Clone, Copy)]
pub struct Location<'a> {
    pub file: &'a str,
    pub line: u32,
    pub column: u32,
}

/// The registers when the panic happened.
#[derive(Clone, Copy)]
pub struct Registers {
    pub scause: u64,
    pub sepc: u64,
    pub sstatus: u64,
    pub stval: u64,
    pub satp: u64,
    pub sp: u64,
    pub s0: u64,
}

/// Bit `n` of the word, which is a power of two.
pub open spec fn has_bit(word: u64, bit: int) -> bool {
    (word as int / bit) % 2 == 1
}

/// The title: where the panic happened and its message.
pub open spec fn title(location: Option<Location>, message: Seq<u8>) -> Seq<u8> {
    text::utf8("\n\u{1b}[31m\u{1b}[1m\u{2500}\u{2500}\u{2500} KERNEL PANIC\u{1b}[0m\n") + (
    match location {
        Some(l) => text::utf8("  \u{1b}[1mpanicked at ") + text::utf8(l.file) + text::utf8(":")
            + text::dec(l.line as nat) + text::utf8(":") + text::dec(l.column as nat) + text::utf8(
            "\u{1b}[0m\n",
        ),
        None => Seq::empty(),
    }) + text::utf8("  \u{1b}[1m") + message + text::utf8("\u{1b}[0m\n\n")
}

/// The trap cause in words.
pub open spec fn cause_line(r: Registers) -> Seq<u8> {
    text::utf8("  scause:  ") + text::hex_word(r.scause as nat) + text::utf8(
        if is_interrupt(r.scause) {
            "  (Interrupt: "
        } else {
            "  (Exception: "
        },
    ) + text::utf8(cause_name(r.scause)) + text::utf8(")\n")
}

/// The status register and its bits.
pub open spec fn status_line(r: Registers) -> Seq<u8> {
    text::utf8("  sstatus: ") + text::hex_word(r.sstatus as nat) + text::utf8(
        if has_bit(r.sstatus, 256) {
            "  (SPP=S, "
        } else {
            "  (SPP=U, "
        },
    ) + text::utf8(
        if has_bit(r.sstatus, 32) {
            "SPIE=1, "
        } else {
            "SPIE=0, "
        },
    ) + text::utf8(
        if has_bit(r.sstatus, 2) {
            "SIE=1)\n"
        } else {
            "SIE=0)\n"
        },
    )
}

/// Page number of the root table that the address translation register points to.
pub open spec fn satp_ppn(satp: u64) -> int {
    satp as int % 0x1000_0000_0000
}

/// The address translation register, its mode and its root table.
pub open spec fn satp_line(r: Registers) -> Seq<u8> {
    text::utf8("  satp:    ") + text::hex_word(r.satp as nat) + text::utf8(
        if r.satp as int / 0x1000_0000_0000_0000 == 8 {
            "  (MODE=Sv39, PPN="
        } else {
            "  (MODE=??, PPN="
        },
    ) + text::hex_prefixed(satp_ppn(r.satp) as nat) + text::utf8(" \u{2192} root table ")
        + text::hex_prefixed((satp_ppn(r.satp) * 4096) as nat) + text::utf8(")\n")
}

/// The registers.
pub open spec fn registers_text(r: Registers) -> Seq<u8> {
    text::utf8("\u{1b}[36m\u{2500}\u{2500}\u{2500} CSRs\u{1b}[0m\n") + cause_line(r) + text::utf8(
        "  sepc:    ",
    ) + text::hex_word(r.sepc as nat) + text::utf8("\n") + status_line(r) + text::utf8(
        "  stval:   ",
    ) + text::hex_word(r.stval as nat) + text::utf8("\n  sp:      ") + text::hex_word(r.sp as nat)
        + text::utf8("\n") + satp_line(r) + text::utf8("  s0:      ") + text::hex_word(r.s0 as nat)
        + text::utf8("  (frame pointer, backtrace start)\n\n")
}

/// What the report starts with: the title and the registers, and the title of the backtrace if one
/// follows.
pub open spec fn head(
    location: Option<Location>,
    message: Seq<u8>,
    r: Registers,
    v: PanicVerbosity,
) -> Seq<u8> {
    title(location, message) + registers_text(r) + (if v == PanicVerbosity::Full {
        text::utf8("\u{1b}[33m\u{2500}\u{2500}\u{2500} Backtrace\u{1b}[0m\n")
    } else {
        Seq::empty()
    })
}

/// What the report ends with.
pub open spec fn foot(v: PanicVerbosity) -> Seq<u8> {
    (if v == PanicVerbosity::Full {
        text::utf8("\n")
    } else {
        Seq::empty()
    }) + text::utf8(
        "\u{1b}[31m\u{1b}[1m\u{2500}\u{2500}\u{2500} System halted (shutting down via SBI)\u{1b}[0m\n",
    )
}

/// Appends the title.
fn push_title(out: &mut Vec<u8>, location: Option<Location>, message: &str)
    ensures
        final(out)@ == old(out)@ + title(location, text::utf8(message)),
{
    text::push_str(out, "\n\u{1b}[31m\u{1b}[1m\u{2500}\u{2500}\u{2500} KERNEL PANIC\u{1b}[0m\n");
    match location {
        Some(l) => {
            text::push_str(out, "  \u{1b}[1mpanicked at ");
            text::push_str(out, l.file);
            text::push_str(out, ":");
            text::push_dec(out, l.line as u64);
            text::push_str(out, ":");
            text::push_dec(out, l.column as u64);
            text::push_str(out, "\u{1b}[0m\n");
        },
        None => {},
    }
    text::push_str(out, "  \u{1b}[1m");
    text::push_str(out, message);
    text::push_str(out, "\u{1b}[0m\n\n");
    assert(out@ =~= old(out)@ + title(location, text::utf8(message)));
}

/// Appends the trap cause in words.
fn push_cause(out: &mut Vec<u8>, r: &Registers)
    ensures
        final(out)@ == old(out)@ + cause_line(*r),
{
    text::push_str(out, "  scause:  ");
    text::push_hex_word(out, r.scause);
    if r.scause >= 0x8000_0000_0000_0000 {
        text::push_str(out, "  (Interrupt: ");
    } else {
        text::push_str(out, "  (Exception: ");
    }
    text::push_str(out, decode_scause(r.scause));
    text::push_str(out, ")\n");
    assert(out@ =~= old(out)@ + cause_line(*r));
}

/// Appends the status register and its bits.
fn push_status(out: &mut Vec<u8>, r: &Registers)
    ensures
        final(out)@ == old(out)@ + status_line(*r),
{
    text::push_str(out, "  sstatus: ");
    text::push_hex_word(out, r.sstatus);
    if (r.sstatus / 256) % 2 == 1 {
        text::push_str(out, "  (SPP=S, ");
    } else {
        text::push_str(out, "  (SPP=U, ");
    }
    if (r.sstatus / 32) % 2 == 1 {
        text::push_str(out, "SPIE=1, ");
    } else {
        text::push_str(out, "SPIE=0, ");
    }
    if (r.sstatus / 2) % 2 == 1 {
        text::push_str(out, "SIE=1)\n");
    } else {
        text::push_str(out, "SIE=0)\n");
    }
    assert(out@ =~= old(out)@ + status_line(*r));
}

/// Appends the address translation register, its mode and its root table.
fn push_satp(out: &mut Vec<u8>, r: &Registers)
    ensures
        final(out)@ == old(out)@ + satp_line(*r),
{
    let ppn: u64 = r.satp % 0x1000_0000_0000;
    text::push_str(out, "  satp:    ");
    text::push_hex_word(out, r.satp);
    if r.satp / 0x1000_0000_0000_0000 == 8 {
        text::push_str(out, "  (MODE=Sv39, PPN=");
    } else {
        text::push_str(out, "  (MODE=??, PPN=");
    }
    text::push_hex(out, ppn);
    text::push_str(out, " \u{2192} root table ");
    text::push_hex(out, ppn * 4096);
    text::push_str(out, ")\n");
    assert(out@ =~= old(out)@ + satp_line(*r));
}

/// Appends the registers.
fn push_registers(out: &mut Vec<u8>, r: &Registers)
    ensures
        final(out)@ == old(out)@ + registers_text(*r),
{
    text::push_str(out, "\u{1b}[36m\u{2500}\u{2500}\u{2500} CSRs\u{1b}[0m\n");
    push_cause(out, r);
    text::push_str(out, "  sepc:    ");
    text::push_hex_word(out, r.sepc);
    text::push_str(out, "\n");
    push_status(out, r);
    text::push_str(out, "  stval:   ");
    text::push_hex_word(out, r.stval);
    text::push_str(out, "\n  sp:      ");
    text::push_hex_word(out, r.sp);
    text::push_str(out, "\n");
    push_satp(out, r);
    text::push_str(out, "  s0:      ");
    text::push_hex_word(out, r.s0);
    text::push_str(out, "  (frame pointer, backtrace start)\n\n");
    assert(out@ =~= old(out)@ + registers_text(*r));
}

/// What the report starts with.
pub fn report_head(
    location: Option<Location>,
    message: &str,
    r: &Registers,
    v: PanicVerbosity,
) -> (out: Vec<u8>)
    ensures
        out@ == head(location, text::utf8(message), *r, v),
{
    let mut out: Vec<u8> = Vec::new();
    push_title(&mut out, location, message);
    push_registers(&mut out, r);
    if v == PanicVerbosity::Full {
        text::push_str(&mut out, "\u{1b}[33m\u{2500}\u{2500}\u{2500} Backtrace\u{1b}[0m\n");
    }
    assert(out@ =~= head(location, text::utf8(message), *r, v));
    out
}

/// What the report ends with.
pub fn report_foot(v: PanicVerbosity) -> (out: Vec<u8>)
    ensures
        out@ == foot(v),
{
    let mut out: Vec<u8> = Vec::new();
    if v == PanicVerbosity::Full {
        text::push_str(&mut out, "\n");
    }
    text::push_str(
        &mut out,
        "\u{1b}[31m\u{1b}[1m\u{2500}\u{2500}\u{2500} System halted (shutting down via SBI)\u{1b}[0m\n",
    );
    assert(out@ =~= foot(v));
    out
}

/// Size of the boot stack area at the start of memory.
pub const STACK_OFFSET: u64 = 8388608;

/// Most frames that a backtrace shows.
pub const MAX_BACKTRACE_FRAMES: u64 = 16;

/// The frame pointer lies in the boot stack or in the stack window of a task.
pub open spec fn on_stack(fp: u64, dram_base: u64) -> bool {
    ||| dram_base <= fp < dram_base + STACK_OFFSET
    ||| TASK_STACK_BASE <= fp < TASK_STACK_BASE + TASK_STACK_SIZE
}

/// A walk along the frame pointers: the return address of a frame is saved eight bytes below its
/// frame pointer, the frame pointer of the caller sixteen bytes below.
#[derive(Clone, Copy, PartialEq, Eq, Structural, Debug)]
pub struct Unwinder {
    /// Number of frames shown.
    pub shown: u64,
    /// The frame pointer.
    pub fp: u64,
}

/// What the walk does next.
#[derive(Clone, Copy, PartialEq, Eq, Structural, Debug)]
pub enum Unwind {
    /// The backtrace is complete.
    Done,
    /// There is no frame pointer to start from.
    NoFrame,
    /// The return address is at the first address, the next frame pointer at the second.
    Visit(u64, u64),
}

/// What the walk does next.
pub open spec fn next_unwind(u: Unwinder, dram_base: u64) -> Unwind {
    if u.shown >= MAX_BACKTRACE_FRAMES {
        Unwind::Done
    } else if !on_stack(u.fp, dram_base) || u.fp < 16 {
        if u.shown == 0 {
            Unwind::NoFrame
        } else {
            Unwind::Done
        }
    } else {
        Unwind::Visit((u.fp - 8) as u64, (u.fp - 16) as u64)
    }
}

/// The line for a frame.
pub open spec fn frame_line(i: u64, ra: u64) -> Seq<u8> {
    text::utf8("    [") + text::dec(i as nat) + text::utf8("] ") + text::hex_word(ra as nat)
        + text::utf8("\n")
}

/// The walk after a frame was visited. It ends where the next frame pointer is zero or unchanged.
pub open spec fn after_visit(u: Unwinder, next_fp: u64) -> Option<Unwinder> {
    if next_fp == 0 || next_fp == u.fp {
        None
    } else {
        Some(Unwinder { shown: (u.shown + 1) as u64, fp: next_fp })
    }
}

impl Unwinder {
    /// A walk that starts at the frame pointer `fp`.
    pub fn new(fp: u64) -> (r: Unwinder)
        ensures
            r == (Unwinder { shown: 0, fp }),
    {
        Unwinder { shown: 0, fp }
    }

    /// What to do next.
    pub fn next(&self, dram_base: u64) -> (r: Unwind)
        ensures
            r == next_unwind(*self, dram_base),
    {
        if self.shown >= MAX_BACKTRACE_FRAMES {
            return Unwind::Done;
        }
        let in_boot_stack: bool = dram_base <= self.fp && self.fp - dram_base < STACK_OFFSET;
        let in_task_stack: bool = TASK_STACK_BASE <= self.fp && self.fp < TASK_STACK_BASE
            + TASK_STACK_SIZE;
        if (!in_boot_stack && !in_task_stack) || self.fp < 16 {
            if self.shown == 0 {
                Unwind::NoFrame
            } else {
                Unwind::Done
            }
        } else {
            Unwind::Visit(self.fp - 8, self.fp - 16)
        }
    }

    /// Appends the line for the frame, whose return address is `ra`, and goes to the next frame.
    pub fn visit(&self, ra: u64, next_fp: u64, out: &mut Vec<u8>) -> (r: Option<Unwinder>)
        requires
            self.shown < MAX_BACKTRACE_FRAMES,
        ensures
            final(out)@ == old(out)@ + frame_line(self.shown, ra),
            r == after_visit(*self, next_fp),
    {
        text::push_str(out, "    [");
        text::push_dec(out, self.shown);
        text::push_str(out, "] ");
        text::push_hex_word(out, ra);
        text::push_str(out, "\n");
        assert(out@ =~= old(out)@ + frame_line(self.shown, ra));
        if next_fp == 0 || next_fp == self.fp {
            None
        } else {
            Some(Unwinder { shown: self.shown + 1, fp: next_fp })
        }
    }
}

/// The line for a backtrace that has no frame pointer to start from.
pub fn no_frame_line(out: &mut Vec<u8>)
    ensures
        final(out)@ == old(out)@ + text::utf8("    (no frame pointer available)\n"),
{
    text::push_str(out, "    (no frame pointer available)\n");
}

/// A backtrace ends: every visit brings it nearer to the largest number of frames, and there it
/// stops.
pub proof fn law_backtrace_ends(u: Unwinder, next_fp: u64, dram_base: u64)
    requires
        next_unwind(u, dram_base) is Visit,
    ensures
        u.shown < MAX_BACKTRACE_FRAMES,
        after_visit(u, next_fp) matches Some(v) ==> v.shown == u.shown + 1,
        after_visit(u, next_fp) matches Some(v) ==> (v.shown == MAX_BACKTRACE_FRAMES
            ==> next_unwind(v, dram_base) == Unwind::Done),
{
}

/// A backtrace never reads memory that lies more than sixteen bytes below a stack, nor wraps around
/// address zero.
pub proof fn law_backtrace_reads_stack(u: Unwinder, dram_base: u64, ra_at: u64, fp_at: u64)
    requires
        next_unwind(u, dram_base) == Unwind::Visit(ra_at, fp_at),
    ensures
        fp_at + 8 == ra_at,
        on_stack((fp_at + 16) as u64, dram_base),
{
}

/// A trap cause is a number and the bit that tells interrupts from exceptions.
pub proof fn law_cause_parts(scause: u64)
    ensures
        is_interrupt(scause) <==> scause & 0x8000_0000_0000_0000 != 0,
        is_interrupt(scause) ==> cause_code(scause) == scause - 0x8000_0000_0000_0000,
        !is_interrupt(scause) ==> cause_code(scause) == scause,
{
    assert(scause >= 0x8000_0000_0000_0000 <==> scause & 0x8000_0000_0000_0000 != 0) by (bit_vector);
}

/// The names of the interrupts: software, timer and external ones of the two privileged modes.
pub proof fn law_interrupt_names(code: u64)
    requires
        code < 0x8000_0000_0000_0000,
    ensures
        ({
            let name = cause_name((code + 0x8000_0000_0000_0000) as u64);
            &&& code == 1 ==> name == "Supervisor software interrupt"
            &&& code == 3 ==> name == "Machine software interrupt"
            &&& code == 5 ==> name == "Supervisor timer interrupt"
            &&& code == 7 ==> name == "Machine timer interrupt"
            &&& code == 9 ==> name == "Supervisor external interrupt"
            &&& code == 11 ==> name == "Machine external interrupt"
            &&& code % 2 == 0 || code > 11 ==> name == "Unknown interrupt"
        }),
{
}

/// The names of the exceptions, by their number.
pub proof fn law_exception_names(code: u64)
    requires
        code < 0x8000_0000_0000_0000,
    ensures
        code == 0 ==> cause_name(code) == "Instruction address misaligned",
        code == 1 ==> cause_name(code) == "Instruction access fault",
        code == 2 ==> cause_name(code) == "Illegal instruction",
        code == 3 ==> cause_name(code) == "Breakpoint",
        code == 4 ==> cause_name(code) == "Load address misaligned",
        code == 5 ==> cause_name(code) == "Load access fault",
        code == 6 ==> cause_name(code) == "Store/AMO address misaligned",
        code == 7 ==> cause_name(code) == "Store/AMO access fault",
        code == 8 ==> cause_name(code) == "Environment call from U-mode",
        code == 9 ==> cause_name(code) == "Environment call from S-mode",
        code == 11 ==> cause_name(code) == "Environment call from M-mode",
        code == 12 ==> cause_name(code) == "Instruction page fault",
        code == 13 ==> cause_name(code) == "Load page fault",
        code == 15 ==> cause_name(code) == "Store/AMO page fault",
        code == 10 || code == 14 || code > 15 ==> cause_name(code) == "Unknown exception",
{
}

/// The status line shows the previous mode (bit 8), whether interrupts were on before the trap (bit 5)
/// and whether they are on (bit 1).
pub proof fn law_status_bits(r: Registers)
    ensures
        has_bit(r.sstatus, 256) <==> r.sstatus & 0x100 != 0,
        has_bit(r.sstatus, 32) <==> r.sstatus & 0x20 != 0,
        has_bit(r.sstatus, 2) <==> r.sstatus & 0x2 != 0,
        r.sstatus & 0x100 != 0 && r.sstatus & 0x20 != 0 && r.sstatus & 0x2 == 0 ==> status_line(r)
            == text::utf8("  sstatus: ") + text::hex_word(r.sstatus as nat) + text::utf8(
            "  (SPP=S, ",
        ) + text::utf8("SPIE=1, ") + text::utf8("SIE=0)\n"),
        r.sstatus & 0x100 == 0 && r.sstatus & 0x20 == 0 && r.sstatus & 0x2 != 0 ==> status_line(r)
            == text::utf8("  sstatus: ") + text::hex_word(r.sstatus as nat) + text::utf8(
            "  (SPP=U, ",
        ) + text::utf8("SPIE=0, ") + text::utf8("SIE=1)\n"),
{
    let w = r.sstatus;
    assert((w / 256) % 2 == 1 <==> w & 0x100 != 0) by (bit_vector);
    assert((w / 32) % 2 == 1 <==> w & 0x20 != 0) by (bit_vector);
    assert((w / 2) % 2 == 1 <==> w & 0x2 != 0) by (bit_vector);
}

/// The translation register holds the page number of the root table in its low 44 bits: a register for
/// a table shows that table.
pub proof fn law_root_table_shown(r: Registers, ppn: u64)
    requires
        ppn < 0x1000_0000_0000,
        r.satp == 0x8000_0000_0000_0000 + ppn,
    ensures
        satp_line(r) == text::utf8("  satp:    ") + text::hex_word(r.satp as nat) + text::utf8(
            "  (MODE=Sv39, PPN=",
        ) + text::hex_prefixed(ppn as nat) + text::utf8(" \u{2192} root table ")
            + text::hex_prefixed((ppn * 4096) as nat) + text::utf8(")\n"),
{
}

/// The report shows every register under its own name.
pub proof fn law_registers_shown(r: Registers)
    ensures
        registers_text(r) == text::utf8("\u{1b}[36m\u{2500}\u{2500}\u{2500} CSRs\u{1b}[0m\n")
            + text::utf8("  scause:  ") + text::hex_word(r.scause as nat) + text::utf8(
            if r.scause >= 0x8000_0000_0000_0000 {
                "  (Interrupt: "
            } else {
                "  (Exception: "
            },
        ) + text::utf8(cause_name(r.scause)) + text::utf8(")\n") + text::utf8("  sepc:    ")
            + text::hex_word(r.sepc as nat) + text::utf8("\n") + status_line(r) + text::utf8(
            "  stval:   ",
        ) + text::hex_word(r.stval as nat) + text::utf8("\n  sp:      ") + text::hex_word(
            r.sp as nat,
        ) + text::utf8("\n") + satp_line(r) + text::utf8("  s0:      ") + text::hex_word(r.s0 as nat)
            + text::utf8("  (frame pointer, backtrace start)\n\n"),
{
    let a = text::utf8("\u{1b}[36m\u{2500}\u{2500}\u{2500} CSRs\u{1b}[0m\n");
    let b = text::utf8("  scause:  ") + text::hex_word(r.scause as nat);
    let c = text::utf8(
        if r.scause >= 0x8000_0000_0000_0000 {
            "  (Interrupt: "
        } else {
            "  (Exception: "
        },
    );
    let d = text::utf8(cause_name(r.scause));
    let e = text::utf8(")\n");
    assert(cause_line(r) == b + c + d + e);
    assert(a + (b + c + d + e) =~= a + text::utf8("  scause:  ") + text::hex_word(r.scause as nat)
        + c + d + e);
}

/// The backtrace follows a frame pointer if it lies in the first eight mebibytes of memory or in the
/// stack window of a task, at most sixteen times: the return address is read eight bytes below it, the
/// frame pointer of the caller sixteen bytes below.
pub proof fn law_backtrace_steps(u: Unwinder, dram_base: u64)
    ensures
        ({
            let boot = dram_base <= u.fp && u.fp < dram_base + 0x80_0000;
            let window = 0xC000_0000 <= u.fp && u.fp < 0xC000_4000;
            let next = next_unwind(u, dram_base);
            &&& u.shown < 16 && u.fp >= 16 && (boot || window) ==> next == Unwind::Visit(
                (u.fp - 8) as u64,
                (u.fp - 16) as u64,
            )
            &&& u.shown >= 16 ==> next == Unwind::Done
            &&& 0 < u.shown < 16 && !boot && !window ==> next == Unwind::Done
            &&& u.shown == 0 && !boot && !window ==> next == Unwind::NoFrame
        }),
{
}

/// A visit goes on at the caller's frame, unless there is none or it is the frame itself.
pub proof fn law_visit_goes_on(u: Unwinder, next_fp: u64)
    requires
        u.shown < 16,
    ensures
        next_fp == 0 || next_fp == u.fp ==> after_visit(u, next_fp) is None,
        next_fp != 0 && next_fp != u.fp ==> after_visit(u, next_fp) == Some(
            Unwinder { shown: (u.shown + 1) as u64, fp: next_fp },
        ),
{
}

/// The title names the file, the line and the column, in this order, and then the message; without a
/// place it is the message alone.
pub proof fn law_title(l: Location, message: Seq<u8>)
    ensures
        title(Some(l), message) == text::utf8(
            "\n\u{1b}[31m\u{1b}[1m\u{2500}\u{2500}\u{2500} KERNEL PANIC\u{1b}[0m\n",
        ) + (text::utf8("  \u{1b}[1mpanicked at ") + text::utf8(l.file) + text::utf8(":")
            + text::dec(l.line as nat) + text::utf8(":") + text::dec(l.column as nat) + text::utf8(
            "\u{1b}[0m\n",
        )) + text::utf8("  \u{1b}[1m") + message + text::utf8("\u{1b}[0m\n\n"),
        title(None, message) == text::utf8(
            "\n\u{1b}[31m\u{1b}[1m\u{2500}\u{2500}\u{2500} KERNEL PANIC\u{1b}[0m\n",
        ) + text::utf8("  \u{1b}[1m") + message + text::utf8("\u{1b}[0m\n\n"),
{
    let a = text::utf8(
        "\n\u{1b}[31m\u{1b}[1m\u{2500}\u{2500}\u{2500} KERNEL PANIC\u{1b}[0m\n",
    );
    assert(a + Seq::<u8>::empty() =~= a);
}

/// The report holds the title, the registers and, if everything is asked for, the backtrace.
pub proof fn law_report_parts(location: Option<Location>, message: Seq<u8>, r: Registers)
    ensures
        head(location, message, r, PanicVerbosity::Normal) == title(location, message)
            + registers_text(r),
        head(location, message, r, PanicVerbosity::Full) == title(location, message)
            + registers_text(r) + text::utf8(
            "\u{1b}[33m\u{2500}\u{2500}\u{2500} Backtrace\u{1b}[0m\n",
        ),
        foot(PanicVerbosity::Full) == text::utf8("\n") + foot(PanicVerbosity::Normal),
{
    let t = title(location, message) + registers_text(r);
    assert(t + Seq::<u8>::empty() =~= t);
    assert(foot(PanicVerbosity::Full) =~= text::utf8("\n") + foot(PanicVerbosity::Normal));
}

/// A frame is shown by its number and its return address.
pub proof fn law_frame_line(i: u64, ra: u64)
    ensures
        frame_line(i, ra) == text::utf8("    [") + text::dec(i as nat) + text::utf8("] ")
            + text::hex_word(ra as nat) + text::utf8("\n"),
{
}

} // verus!
