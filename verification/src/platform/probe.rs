//! The platform parameters as the device tree gives them.
//!
//! Properties come in any order: the registers and the interrupt of a node are kept until its end,
//! when it is known what kind of device it is. The nodes inside it keep their own.
use vstd::prelude::*;
use vstd::slice::slice_subrange;
use crate::platform::cell;
use crate::platform::cell::{read_cell_u32, read_cells};
use crate::platform::walk;
use crate::platform::walk::{FdtIter, Token, TokenView, WalkError};
use crate::text;

verus! {

/// Memory of the fallback platform.
pub const DRAM_BASE: u64 = 0x8000_0000;

/// Memory size of the fallback platform: 8 MiB.
pub const DRAM_SIZE: u64 = 0x80_0000;

/// Serial port of the fallback platform.
pub const UART_BASE: u64 = 0x1000_0000;

/// Interrupt of the serial port of the fallback platform.
pub const UART_IRQ: u32 = 10;

/// Timer of the fallback platform.
pub const CLINT_BASE: u64 = 0x0200_0000;

/// Interrupt controller of the fallback platform.
pub const PLIC_BASE: u64 = 0x0C00_0000;

/// Register size of the interrupt controller of the fallback platform.
pub const PLIC_SIZE: u64 = 0x30_0000;

/// Timer frequency of the fallback platform.
pub const TIMEBASE_FREQ: u64 = 10_000_000;

/// Kernel stack at the end of memory.
pub const STACK_RESERVE: u64 = 0x8000;

/// Deepest nesting of nodes that is followed.
pub const MAX_DEPTH: usize = 8;

/// The platform parameters.
#[derive(Clone, Copy, PartialEq, Eq, Structural, Debug)]
pub struct PlatformConfig {
    pub dram_base: u64,
    pub dram_size: u64,
    pub uart_base: u64,
    pub uart_irq: u32,
    pub clint_base: u64,
    pub plic_base: u64,
    pub plic_size: u64,
    pub timebase_freq: u64,
    /// Memory below the kernel that belongs to the firmware.
    pub firmware_reserve: u64,
    pub stack_reserve: u64,
    pub hart_count: u64,
}

/// The parameters of the fallback platform.
pub open spec fn qemu_virt() -> PlatformConfig {
    PlatformConfig {
        dram_base: DRAM_BASE,
        dram_size: DRAM_SIZE,
        uart_base: UART_BASE,
        uart_irq: UART_IRQ,
        clint_base: CLINT_BASE,
        plic_base: PLIC_BASE,
        plic_size: PLIC_SIZE,
        timebase_freq: TIMEBASE_FREQ,
        firmware_reserve: 0,
        stack_reserve: STACK_RESERVE,
        hart_count: 1,
    }
}

impl PlatformConfig {
    /// The parameters of the fallback platform.
    pub fn default_qemu_virt() -> (r: PlatformConfig)
        ensures
            r == qemu_virt(),
    {
        PlatformConfig {
            dram_base: DRAM_BASE,
            dram_size: DRAM_SIZE,
            uart_base: UART_BASE,
            uart_irq: UART_IRQ,
            clint_base: CLINT_BASE,
            plic_base: PLIC_BASE,
            plic_size: PLIC_SIZE,
            timebase_freq: TIMEBASE_FREQ,
            firmware_reserve: 0,
            stack_reserve: STACK_RESERVE,
            hart_count: 1,
        }
    }
}

/// Why the header of the device tree was refused.
#[derive(Clone, Copy, PartialEq, Eq, Structural, Debug)]
pub enum HeaderError {
    BadMagic,
    BadVersion,
    OutOfBounds,
}

/// Why the device tree could not be used.
#[derive(Clone, Copy, PartialEq, Eq, Structural, Debug)]
pub enum ProbeError {
    Header(HeaderError),
    Walk(WalkError),
    MissingMemory,
}

/// What is wrong, in words.
pub open spec fn described(e: ProbeError) -> &'static str {
    match e {
        ProbeError::Header(HeaderError::BadMagic) => "bad FDT magic",
        ProbeError::Header(HeaderError::BadVersion) => "unsupported FDT version",
        ProbeError::Header(HeaderError::OutOfBounds) => "FDT block out of bounds",
        ProbeError::Walk(WalkError::Truncated) => "FDT structure truncated",
        ProbeError::Walk(WalkError::Unbalanced) => "FDT nodes unbalanced",
        ProbeError::Walk(WalkError::BadStringOffset(_)) => "FDT string offset out of bounds",
        ProbeError::MissingMemory => "no /memory node found in DTB",
    }
}

impl ProbeError {
    /// What is wrong, in words.
    pub fn description(&self) -> (r: &'static str)
        ensures
            r == described(*self),
    {
        match *self {
            ProbeError::Header(HeaderError::BadMagic) => "bad FDT magic",
            ProbeError::Header(HeaderError::BadVersion) => "unsupported FDT version",
            ProbeError::Header(HeaderError::OutOfBounds) => "FDT block out of bounds",
            ProbeError::Walk(WalkError::Truncated) => "FDT structure truncated",
            ProbeError::Walk(WalkError::Unbalanced) => "FDT nodes unbalanced",
            ProbeError::Walk(WalkError::BadStringOffset(_)) => "FDT string offset out of bounds",
            ProbeError::MissingMemory => "no /memory node found in DTB",
        }
    }
}

/// What a node describes.
#[derive(Clone, Copy, PartialEq, Eq, Structural, Debug)]
pub enum NodeKind {
    Memory,
    Uart,
    Clint,
    Plic,
}

/// What was found so far.
#[derive(Clone, Copy, Debug)]
pub struct Found {
    /// Base and size of memory.
    pub memory: Option<(u64, u64)>,
    pub uart_base: Option<u64>,
    pub uart_irq: Option<u32>,
    pub clint_base: Option<u64>,
    /// Base and size of the interrupt controller.
    pub plic: Option<(u64, u64)>,
    pub timebase_freq: Option<u64>,
}

/// A text of the list, whose texts are separated by zero bytes, is `target`.
pub open spec fn listed(list: Seq<u8>, target: Seq<u8>) -> bool {
    exists|i: int, j: int| #[trigger] entry(list, i, j) && list.subrange(i, j) == target
}

/// The bytes from `i` to `j` are a text of the list.
pub open spec fn entry(list: Seq<u8>, i: int, j: int) -> bool {
    &&& 0 <= i < j <= list.len()
    &&& i == 0 || list[i - 1] == 0
    &&& j == list.len() || list[j] == 0
    &&& forall|k: int| i <= k < j ==> #[trigger] list[k] != 0
}

/// Whether a text of the list is `target`.
pub fn compatible_contains(list: &[u8], target: &str) -> (r: bool)
    ensures
        r == listed(list@, text::utf8(target)),
{
    let n: usize = list.len();
    let ghost s = list@;
    let ghost want = text::utf8(target);
    let mut start: usize = 0;
    let mut i: usize = 0;
    while i < n
        invariant
            start <= i <= n,
            n == list@.len(),
            s == list@,
            want == text::utf8(target),
            start == 0 || s[start - 1] == 0,
            forall|k: int| start <= k < i ==> #[trigger] s[k] != 0,
            forall|a: int, b: int| #[trigger]
                entry(s, a, b) && b < start ==> s.subrange(a, b) != want,
        decreases n - i,
    {
        if list[i] == 0 {
            if start < i {
                if text::is_text(slice_subrange(list, start, i), target) {
                    assert(entry(s, start as int, i as int));
                    return true;
                }
            }
            proof {
                assert forall|a: int, b: int| #[trigger] entry(s, a, b) && b < i + 1 implies
                    s.subrange(a, b) != want by {
                    if b >= start {
                        assert(b == i);
                        if a < start {
                            assert(s[start - 1] != 0);
                        } else if a > start {
                            assert(s[a - 1] != 0);
                        }
                    }
                }
            }
            start = i + 1;
        }
        i += 1;
    }
    if start < n {
        let last: bool = text::is_text(slice_subrange(list, start, n), target);
        proof {
            assert(entry(s, start as int, n as int));
            if listed(s, want) && !last {
                let (a, b) = choose|a: int, b: int| #[trigger]
                    entry(s, a, b) && s.subrange(a, b) == want;
                assert(b >= start);
                assert(b == n);
                if a < start {
                    assert(s[start - 1] != 0);
                } else if a > start {
                    assert(s[a - 1] != 0);
                }
            }
        }
        return last;
    }
    proof {
        if listed(s, want) {
            let (a, b) = choose|a: int, b: int| #[trigger]
                entry(s, a, b) && s.subrange(a, b) == want;
            assert(b == n);
            assert(s[n - 1] != 0);
        }
    }
    false
}

/// The bytes without the zero bytes at their end.
pub open spec fn trimmed(s: Seq<u8>) -> Seq<u8>
    decreases s.len(),
{
    if s.len() > 0 && s.last() == 0 {
        trimmed(s.drop_last())
    } else {
        s
    }
}

/// The bytes without the zero bytes at their end.
pub fn trim_zeros(s: &[u8]) -> (r: &[u8])
    ensures
        r@ == trimmed(s@),
{
    let mut n: usize = s.len();
    assert(s@.subrange(0, n as int) =~= s@);
    while n > 0 && s[n - 1] == 0
        invariant
            n <= s@.len(),
            trimmed(s@.subrange(0, n as int)) == trimmed(s@),
        decreases n,
    {
        proof {
            let t = s@.subrange(0, n as int);
            assert(t.drop_last() =~= s@.subrange(0, n - 1));
        }
        n -= 1;
    }
    slice_subrange(s, 0, n)
}

/// What an open node has said of itself.
#[derive(Clone, Copy, Debug)]
pub struct Pending {
    /// What the node describes.
    pub kind: Option<NodeKind>,
    /// Its registers: base and size.
    pub reg: Option<(u64, u64)>,
    /// Its interrupt.
    pub interrupt: Option<u32>,
}

/// The state of the search.
pub struct ProbeState {
    addr_cells: Vec<u32>,
    size_cells: Vec<u32>,
    open: Vec<Pending>,
    beyond: u64,
    found: Found,
}

/// The state of the search.
#[verifier::ext_equal]
pub struct Probe {
    /// For every depth, the number of address cells that the node there sets for its children.
    pub addr_cells: Seq<u32>,
    /// For every depth, the number of size cells that the node there sets for its children.
    pub size_cells: Seq<u32>,
    /// What the open nodes have said, the innermost one last.
    pub open: Seq<Pending>,
    /// Number of open nodes that are nested too deep to be followed.
    pub beyond: int,
    pub found: Found,
}

/// A node that has not said anything.
pub open spec fn silent() -> Pending {
    Pending { kind: None, reg: None, interrupt: None }
}

/// The state at the start.
pub open spec fn initial() -> Probe {
    Probe {
        addr_cells: Seq::new(8, |i: int| 2u32),
        size_cells: Seq::new(8, |i: int| 2u32),
        open: Seq::empty(),
        beyond: 0,
        found: Found {
            memory: None,
            uart_base: None,
            uart_irq: None,
            clint_base: None,
            plic: None,
            timebase_freq: None,
        },
    }
}

/// The nodes are followed as deep as there is room for them.
pub open spec fn sound(p: Probe) -> bool {
    &&& p.addr_cells.len() == 8
    &&& p.size_cells.len() == 8
    &&& p.open.len() <= 8
    &&& 0 <= p.beyond
    &&& p.beyond > 0 ==> p.open.len() == 8
}

/// A node begins: it takes over the cells of its parent, until it sets its own. Nodes that are nested
/// too deep are passed over.
pub open spec fn entered(p: Probe) -> Probe {
    let depth = p.open.len() as int;
    if depth >= 8 {
        Probe { beyond: p.beyond + 1, ..p }
    } else {
        Probe {
            addr_cells: if depth + 1 < 8 {
                p.addr_cells.update(depth + 1, p.addr_cells[depth])
            } else {
                p.addr_cells
            },
            size_cells: if depth + 1 < 8 {
                p.size_cells.update(depth + 1, p.size_cells[depth])
            } else {
                p.size_cells
            },
            open: p.open.push(silent()),
            ..p
        }
    }
}

/// What is known after a node.
pub open spec fn learned(f: Found, n: Pending) -> Found {
    match n.kind {
        Some(NodeKind::Memory) => match n.reg {
            Some(r) => Found { memory: Some(r), ..f },
            None => f,
        },
        Some(NodeKind::Uart) => Found {
            uart_base: match n.reg {
                Some(r) => Some(r.0),
                None => f.uart_base,
            },
            uart_irq: match n.interrupt {
                Some(i) => Some(i),
                None => f.uart_irq,
            },
            ..f
        },
        Some(NodeKind::Clint) => match n.reg {
            Some(r) => Found { clint_base: Some(r.0), ..f },
            None => f,
        },
        Some(NodeKind::Plic) => match n.reg {
            Some(r) => Found { plic: Some(r), ..f },
            None => f,
        },
        None => f,
    }
}

/// A node ends: what it has said of itself counts, and its parent goes on where it was.
pub open spec fn left(p: Probe) -> Probe {
    if p.beyond > 0 {
        Probe { beyond: p.beyond - 1, ..p }
    } else if p.open.len() == 0 {
        p
    } else {
        Probe { open: p.open.drop_last(), found: learned(p.found, p.open.last()), ..p }
    }
}

/// The innermost open node is `n`.
pub open spec fn saying(p: Probe, n: Pending) -> Probe {
    if p.open.len() == 0 {
        p
    } else {
        Probe { open: p.open.drop_last().push(n), ..p }
    }
}

/// The cells that the parent of the current node sets; two where there is no parent.
pub open spec fn parent_cells(cells: Seq<u32>, depth: int) -> u32 {
    if depth <= 1 {
        2
    } else {
        cells[depth - 1]
    }
}

/// The kind of device that the value of `compatible` names.
pub open spec fn kind_of(value: Seq<u8>) -> Option<NodeKind> {
    if listed(value, text::utf8("ns16550a")) || listed(value, text::utf8("ns16550")) {
        Some(NodeKind::Uart)
    } else if listed(value, text::utf8("riscv,clint0")) || listed(
        value,
        text::utf8("sifive,clint0"),
    ) {
        Some(NodeKind::Clint)
    } else if listed(value, text::utf8("riscv,plic0")) || listed(
        value,
        text::utf8("sifive,plic0"),
    ) {
        Some(NodeKind::Plic)
    } else {
        None
    }
}

/// The registers in the value of `reg`: a base of `ac` cells and a size of `sc` cells.
pub open spec fn registers(value: Seq<u8>, ac: u32, sc: u32) -> Option<(u64, u64)> {
    match (
        cell::cells_at(value, 0, ac),
        cell::cells_at(value, cell::offset_after(value, 0, ac), sc),
    ) {
        (Some(base), Some(size)) => Some((base, size)),
        _ => None,
    }
}

/// The current node has the property.
pub open spec fn noted(p: Probe, name: Seq<u8>, value: Seq<u8>) -> Probe {
    let depth = p.open.len() as int;
    if p.beyond > 0 {
        p
    } else if name == text::utf8("#address-cells") {
        match cell::cell_at(value, 0) {
            Some(v) if depth < 8 => Probe {
                addr_cells: p.addr_cells.update(depth, v),
                ..p
            },
            _ => p,
        }
    } else if name == text::utf8("#size-cells") {
        match cell::cell_at(value, 0) {
            Some(v) if depth < 8 => Probe {
                size_cells: p.size_cells.update(depth, v),
                ..p
            },
            _ => p,
        }
    } else if name == text::utf8("device_type") {
        if vstd::utf8::valid_utf8(value) && trimmed(value) == text::utf8("memory") {
            saying(p, Pending { kind: Some(NodeKind::Memory), ..p.open.last() })
        } else {
            p
        }
    } else if name == text::utf8("compatible") {
        match kind_of(value) {
            Some(k) => saying(p, Pending { kind: Some(k), ..p.open.last() }),
            None => p,
        }
    } else if name == text::utf8("reg") {
        match registers(
            value,
            parent_cells(p.addr_cells, depth),
            parent_cells(p.size_cells, depth),
        ) {
            Some(r) => saying(p, Pending { reg: Some(r), ..p.open.last() }),
            None => p,
        }
    } else if name == text::utf8("interrupts") {
        match cell::cell_at(value, 0) {
            Some(i) => saying(p, Pending { interrupt: Some(i), ..p.open.last() }),
            None => p,
        }
    } else if name == text::utf8("timebase-frequency") {
        match cell::cell_at(value, 0) {
            Some(f) => Probe {
                found: Found { timebase_freq: Some(f as u64), ..p.found },
                ..p
            },
            None => p,
        }
    } else {
        p
    }
}

/// The parameters: those of the fallback platform, and over them what was found. Memory must have
/// been found.
pub open spec fn concluded(f: Found) -> Result<PlatformConfig, ProbeError> {
    match f.memory {
        None => Err(ProbeError::MissingMemory),
        Some(m) => Ok(
            PlatformConfig {
                dram_base: m.0,
                dram_size: m.1,
                uart_base: match f.uart_base {
                    Some(b) => b,
                    None => UART_BASE,
                },
                uart_irq: match f.uart_irq {
                    Some(i) => i,
                    None => UART_IRQ,
                },
                clint_base: match f.clint_base {
                    Some(b) => b,
                    None => CLINT_BASE,
                },
                plic_base: match f.plic {
                    Some(p) => p.0,
                    None => PLIC_BASE,
                },
                plic_size: match f.plic {
                    Some(p) => p.1,
                    None => PLIC_SIZE,
                },
                timebase_freq: match f.timebase_freq {
                    Some(t) => t,
                    None => TIMEBASE_FREQ,
                },
                ..qemu_virt()
            },
        ),
    }
}

impl View for ProbeState {
    type V = Probe;

    closed spec fn view(&self) -> Probe {
        Probe {
            addr_cells: self.addr_cells@,
            size_cells: self.size_cells@,
            open: self.open@,
            beyond: self.beyond as int,
            found: self.found,
        }
    }
}

impl ProbeState {
    /// The state at the start.
    pub fn new() -> (r: ProbeState)
        ensures
            r@ == initial(),
            sound(r@),
    {
        let mut addr_cells: Vec<u32> = Vec::new();
        let mut size_cells: Vec<u32> = Vec::new();
        let mut i: usize = 0;
        while i < MAX_DEPTH
            invariant
                i <= 8,
                addr_cells@ =~= Seq::new(i as nat, |k: int| 2u32),
                size_cells@ =~= Seq::new(i as nat, |k: int| 2u32),
            decreases 8 - i,
        {
            addr_cells.push(2);
            size_cells.push(2);
            i += 1;
        }
        let r = ProbeState {
            addr_cells,
            size_cells,
            open: Vec::new(),
            beyond: 0,
            found: Found {
                memory: None,
                uart_base: None,
                uart_irq: None,
                clint_base: None,
                plic: None,
                timebase_freq: None,
            },
        };
        assert(r@ =~= initial());
        r
    }

    /// A node begins.
    pub fn enter_node(&mut self)
        requires
            sound(old(self)@),
            old(self)@.beyond < u64::MAX,
        ensures
            final(self)@ == entered(old(self)@),
            sound(final(self)@),
    {
        let d: usize = self.open.len();
        if d >= MAX_DEPTH {
            self.beyond = self.beyond + 1;
            return ;
        }
        if d + 1 < MAX_DEPTH {
            let a: u32 = self.addr_cells[d];
            let s: u32 = self.size_cells[d];
            self.addr_cells.set(d + 1, a);
            self.size_cells.set(d + 1, s);
        }
        self.open.push(Pending { kind: None, reg: None, interrupt: None });
        assert(self@ =~= entered(old(self)@));
    }

    /// A node ends: what it describes is kept.
    pub fn finish_node(&mut self)
        requires
            sound(old(self)@),
        ensures
            final(self)@ == left(old(self)@),
            sound(final(self)@),
    {
        if self.beyond > 0 {
            self.beyond = self.beyond - 1;
            return ;
        }
        let node: Pending = match self.open.pop() {
            Some(n) => n,
            None => {
                return ;
            },
        };
        match node.reg {
            Some((base, size)) => {
                match node.kind {
                    Some(NodeKind::Memory) => {
                        self.found.memory = Some((base, size));
                    },
                    Some(NodeKind::Uart) => {
                        self.found.uart_base = Some(base);
                    },
                    Some(NodeKind::Clint) => {
                        self.found.clint_base = Some(base);
                    },
                    Some(NodeKind::Plic) => {
                        self.found.plic = Some((base, size));
                    },
                    None => {},
                }
            },
            None => {},
        }
        match node.interrupt {
            Some(irq) => {
                if node.kind == Some(NodeKind::Uart) {
                    self.found.uart_irq = Some(irq);
                }
            },
            None => {},
        }
        assert(self@ =~= left(old(self)@));
    }

    /// What the innermost open node has said.
    fn current(&self) -> (r: Pending)
        ensures
            self@.open.len() > 0 ==> r == self@.open.last(),
    {
        let d: usize = self.open.len();
        if d == 0 {
            Pending { kind: None, reg: None, interrupt: None }
        } else {
            self.open[d - 1]
        }
    }

    /// The innermost open node says `n`.
    fn say(&mut self, n: Pending)
        ensures
            final(self)@ == saying(old(self)@, n),
    {
        let d: usize = self.open.len();
        if d > 0 {
            self.open.set(d - 1, n);
        }
        assert(self@ =~= saying(old(self)@, n));
    }

    /// The address cells that the parent of the current node sets.
    fn parent_addr_cells(&self) -> (r: u32)
        requires
            sound(self@),
        ensures
            r == parent_cells(self@.addr_cells, self@.open.len() as int),
    {
        let d: usize = self.open.len();
        if d <= 1 {
            2
        } else {
            self.addr_cells[d - 1]
        }
    }

    /// The size cells that the parent of the current node sets.
    fn parent_size_cells(&self) -> (r: u32)
        requires
            sound(self@),
        ensures
            r == parent_cells(self@.size_cells, self@.open.len() as int),
    {
        let d: usize = self.open.len();
        if d <= 1 {
            2
        } else {
            self.size_cells[d - 1]
        }
    }

    /// The current node has the property.
    pub fn property(&mut self, name: &str, value: &[u8])
        requires
            sound(old(self)@),
        ensures
            final(self)@ == noted(old(self)@, text::utf8(name), value@),
            sound(final(self)@),
    {
        if self.beyond > 0 {
            return ;
        }
        let n: &[u8] = name.as_bytes();
        let node: Pending = self.current();
        let depth: usize = self.open.len();
        if text::is_text(n, "#address-cells") {
            match read_cell_u32(value, 0) {
                Some(v) => {
                    if depth < MAX_DEPTH {
                        self.addr_cells.set(depth, v);
                    }
                },
                None => {},
            }
        } else if text::is_text(n, "#size-cells") {
            match read_cell_u32(value, 0) {
                Some(v) => {
                    if depth < MAX_DEPTH {
                        self.size_cells.set(depth, v);
                    }
                },
                None => {},
            }
        } else if text::is_text(n, "device_type") {
            if text::is_utf8(value) && text::is_text(trim_zeros(value), "memory") {
                self.say(Pending { kind: Some(NodeKind::Memory), ..node });
            }
        } else if text::is_text(n, "compatible") {
            if compatible_contains(value, "ns16550a") || compatible_contains(value, "ns16550") {
                self.say(Pending { kind: Some(NodeKind::Uart), ..node });
            } else if compatible_contains(value, "riscv,clint0") || compatible_contains(
                value,
                "sifive,clint0",
            ) {
                self.say(Pending { kind: Some(NodeKind::Clint), ..node });
            } else if compatible_contains(value, "riscv,plic0") || compatible_contains(
                value,
                "sifive,plic0",
            ) {
                self.say(Pending { kind: Some(NodeKind::Plic), ..node });
            }
        } else if text::is_text(n, "reg") {
            let ac: u32 = self.parent_addr_cells();
            let sc: u32 = self.parent_size_cells();
            let mut off: usize = 0;
            match read_cells(value, &mut off, ac) {
                Some(base) => {
                    match read_cells(value, &mut off, sc) {
                        Some(size) => {
                            self.say(Pending { reg: Some((base, size)), ..node });
                        },
                        None => {},
                    }
                },
                None => {},
            }
        } else if text::is_text(n, "interrupts") {
            match read_cell_u32(value, 0) {
                Some(irq) => {
                    self.say(Pending { interrupt: Some(irq), ..node });
                },
                None => {},
            }
        } else if text::is_text(n, "timebase-frequency") {
            match read_cell_u32(value, 0) {
                Some(freq) => {
                    self.found.timebase_freq = Some(freq as u64);
                },
                None => {},
            }
        }
        assert(self@ =~= noted(old(self)@, text::utf8(name), value@));
    }

    /// The parameters that were found.
    pub fn finish(&self) -> (r: Result<PlatformConfig, ProbeError>)
        ensures
            r == concluded(self@.found),
    {
        let (dram_base, dram_size) = match self.found.memory {
            Some(m) => m,
            None => {
                return Err(ProbeError::MissingMemory);
            },
        };
        let mut cfg: PlatformConfig = PlatformConfig::default_qemu_virt();
        cfg.dram_base = dram_base;
        cfg.dram_size = dram_size;
        match self.found.uart_base {
            Some(b) => {
                cfg.uart_base = b;
            },
            None => {},
        }
        match self.found.uart_irq {
            Some(i) => {
                cfg.uart_irq = i;
            },
            None => {},
        }
        match self.found.clint_base {
            Some(b) => {
                cfg.clint_base = b;
            },
            None => {},
        }
        match self.found.plic {
            Some((b, s)) => {
                cfg.plic_base = b;
                cfg.plic_size = s;
            },
            None => {},
        }
        match self.found.timebase_freq {
            Some(t) => {
                cfg.timebase_freq = t;
            },
            None => {},
        }
        Ok(cfg)
    }
}

/// The state after a token.
#[verifier::opaque]
pub open spec fn advanced(p: Probe, t: TokenView) -> Probe {
    match t {
        TokenView::BeginNode(name) => if is_chosen(t) {
            p
        } else {
            entered(p)
        },
        TokenView::EndNode => left(p),
        TokenView::Property(name, value) => noted(p, name, value),
        _ => p,
    }
}

/// The token begins the node `chosen`, whose subtree is left out.
#[verifier::opaque]
pub open spec fn is_chosen(t: TokenView) -> bool {
    t matches TokenView::BeginNode(name) && name == text::utf8("chosen")
}

/// What the search finds in the tokens from `pos` on, if `p` is what it has found before.
pub open spec fn searched(b: Seq<u8>, strings: Seq<u8>, pos: int, skip: int, p: Probe) -> Result<
    Probe,
    WalkError,
>
    decreases
            if pos < b.len() {
                b.len() - pos
            } else {
                0
            },
{
    if pos >= b.len() {
        Err(WalkError::Truncated)
    } else {
        let x = walk::next_token(b, strings, pos, skip);
        proof {
            walk::lemma_next_advances(b, strings, pos, skip);
        }
        match x.0 {
            Err(e) => Err(e),
            Ok(t) => if t is End {
                Ok(p)
            } else {
                searched(
                    b,
                    strings,
                    x.1.pos,
                    if is_chosen(t) {
                        1
                    } else {
                        x.1.skip
                    },
                    advanced(p, t),
                )
            },
        }
    }
}

/// The platform parameters of the device tree.
pub open spec fn probed(b: Seq<u8>, strings: Seq<u8>) -> Result<PlatformConfig, ProbeError> {
    match searched(b, strings, 0, 0, initial()) {
        Ok(p) => concluded(p.found),
        Err(e) => Err(ProbeError::Walk(e)),
    }
}

/// Takes a token; whether its subtree is to be skipped.
fn absorb(state: &mut ProbeState, token: &Token) -> (skip: bool)
    requires
        sound(old(state)@),
        old(state)@.beyond < u64::MAX,
    ensures
        final(state)@ == advanced(old(state)@, token@),
        sound(final(state)@),
        final(state)@.beyond <= old(state)@.beyond + 1,
        skip == is_chosen(token@),
{
    proof {
        reveal(advanced);
        reveal(is_chosen);
    }
    match *token {
        Token::BeginNode(name) => {
            if text::is_text(name.as_bytes(), "chosen") {
                return true;
            }
            state.enter_node();
        },
        Token::EndNode => {
            state.finish_node();
        },
        Token::Property { name, value } => {
            state.property(name, value);
        },
        _ => {},
    }
    false
}

/// Reads the platform parameters from a structure block and its strings block.
pub fn probe_dtb(block: &[u8], strings: &[u8]) -> (r: Result<PlatformConfig, ProbeError>)
    requires
        block@.len() % 4 == 0,
        block@.len() < 0xFFFF_FFFF,
    ensures
        r == probed(block@, strings@),
{
    let mut iter: FdtIter = FdtIter::new(block, strings);
    let mut state: ProbeState = ProbeState::new();
    let ghost b = block@;
    let ghost st = strings@;
    loop
        invariant
            iter.wf(),
            iter.block() == b,
            iter.strings() == st,
            b == block@,
            st == strings@,
            !iter.place().finished,
            sound(state@),
            state@.beyond <= iter.place().pos <= b.len(),
            b.len() < 0xFFFF_FFFF,
            searched(b, st, 0, 0, initial()) == searched(
                b,
                st,
                iter.place().pos,
                iter.place().skip,
                state@,
            ),
        decreases b.len() - iter.place().pos,
    {
        let ghost at = iter.place();
        proof {
            iter.lemma_within();
            if at.pos < b.len() {
                walk::lemma_next_advances(b, st, at.pos, at.skip);
            }
        }
        let token: Token = match iter.next() {
            Some(Ok(t)) => t,
            Some(Err(e)) => {
                return Err(ProbeError::Walk(e));
            },
            None => {
                assert(false);
                return Err(ProbeError::MissingMemory);
            },
        };
        proof {
            iter.lemma_within();
        }
        match token {
            Token::End => {
                return state.finish();
            },
            _ => {},
        }
        if absorb(&mut state, &token) {
            iter.skip_subtree();
        }
    }
}

/// The platform parameters, once they are known.
pub struct Platform {
    config: Option<PlatformConfig>,
    diag: Option<&'static str>,
}

/// The parameters of the device tree, or those of the fallback platform if it is missing or cannot
/// be used.
pub open spec fn settled(dtb: Option<Result<PlatformConfig, ProbeError>>) -> PlatformConfig {
    match dtb {
        Some(Ok(c)) => c,
        _ => qemu_virt(),
    }
}

impl Platform {
    /// The parameters.
    pub closed spec fn known(&self) -> Option<PlatformConfig> {
        self.config
    }

    /// What was wrong with the device tree, until it was reported.
    pub closed spec fn diagnosis(&self) -> Option<&'static str> {
        self.diag
    }

    /// Nothing is known.
    pub fn new() -> (r: Platform)
        ensures
            r.known() is None,
            r.diagnosis() is None,
    {
        Platform { config: None, diag: None }
    }

    /// Takes the parameters from what the search in the device tree has found; `None` if there is no
    /// device tree. The firmware owns the memory below the kernel, which starts at `kernel_start`.
    pub fn init(
        &mut self,
        dtb: Option<Result<PlatformConfig, ProbeError>>,
        kernel_start: u64,
    )
        requires
            settled(dtb).dram_base <= kernel_start,
        ensures
            final(self).known() == Some(
                PlatformConfig {
                    firmware_reserve: (kernel_start - settled(dtb).dram_base) as u64,
                    ..settled(dtb)
                },
            ),
            final(self).diagnosis() == (match dtb {
                Some(Err(e)) => Some(described(e)),
                Some(Ok(_)) => None,
                None => old(self).diagnosis(),
            }),
    {
        let mut cfg: PlatformConfig = match dtb {
            Some(Ok(c)) => {
                self.diag = None;
                c
            },
            Some(Err(e)) => {
                self.diag = Some(e.description());
                PlatformConfig::default_qemu_virt()
            },
            None => PlatformConfig::default_qemu_virt(),
        };
        cfg.firmware_reserve = kernel_start - cfg.dram_base;
        self.config = Some(cfg);
    }

    /// The parameters, which must be known.
    pub fn config(&self) -> (r: &PlatformConfig)
        requires
            self.known() is Some,
        ensures
            *r == self.known()->0,
    {
        self.config.as_ref().unwrap()
    }

    /// What was wrong with the device tree, to be reported once.
    pub fn report_diag(&mut self) -> (r: Option<&'static str>)
        ensures
            r == old(self).diagnosis(),
            final(self).diagnosis() is None,
            final(self).known() == old(self).known(),
    {
        self.diag.take()
    }
}

/// Properties of a node count in any order: the registers may come before the property that says
/// what the node describes.
pub proof fn law_order_of_properties(p: Probe, kind: Seq<u8>, reg: Seq<u8>)
    ensures
        noted(noted(p, text::utf8("compatible"), kind), text::utf8("reg"), reg) == noted(
            noted(p, text::utf8("reg"), reg),
            text::utf8("compatible"),
            kind,
        ),
{
    reveal_strlit("compatible");
    reveal_strlit("reg");
    reveal_strlit("#address-cells");
    reveal_strlit("#size-cells");
    reveal_strlit("device_type");
    text::lemma_ascii_len("compatible");
    text::lemma_ascii_len("reg");
    text::lemma_ascii_len("#address-cells");
    text::lemma_ascii_len("#size-cells");
    text::lemma_ascii_len("device_type");
}

/// A node that is neither memory nor a known device changes nothing of what was found.
pub proof fn law_unknown_node_ignored(p: Probe)
    requires
        p.open.len() > 0 ==> p.open.last().kind is None,
    ensures
        left(p).found == p.found,
{
}

/// The current node has the properties, in order.
pub open spec fn all_noted(p: Probe, props: Seq<(Seq<u8>, Seq<u8>)>) -> Probe
    decreases props.len(),
{
    if props.len() == 0 {
        p
    } else {
        let last = props.last();
        noted(all_noted(p, props.drop_last()), last.0, last.1)
    }
}

/// A node keeps what it has said of itself while nodes inside it begin and end, whatever properties
/// those have.
pub proof fn law_child_spares_parent(p: Probe, props: Seq<(Seq<u8>, Seq<u8>)>)
    requires
        sound(p),
    ensures
        left(all_noted(entered(p), props)).open == p.open,
        left(all_noted(entered(p), props)).beyond == p.beyond,
{
    lemma_all_noted(entered(p), props);
    assert(p.open.push(silent()).drop_last() =~= p.open);
}

/// Properties concern the innermost open node only, and none if that is nested too deep.
proof fn lemma_all_noted(p: Probe, props: Seq<(Seq<u8>, Seq<u8>)>)
    ensures
        all_noted(p, props).beyond == p.beyond,
        all_noted(p, props).open.len() == p.open.len(),
        p.open.len() > 0 ==> all_noted(p, props).open.drop_last() == p.open.drop_last(),
        p.beyond > 0 ==> all_noted(p, props) == p,
    decreases props.len(),
{
    if props.len() > 0 {
        let q = all_noted(p, props.drop_last());
        let last = props.last();
        lemma_all_noted(p, props.drop_last());
        if q.open.len() > 0 {
            assert(noted(q, last.0, last.1).open.drop_last() =~= q.open.drop_last());
        }
    }
}

} // verus!
