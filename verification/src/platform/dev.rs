//! The devices that the device tree lists.
//!
//! Devices found before there is an allocator go to a buffer of fixed size. The list is made from
//! it afterwards; a fallback list stands in if none were found.
use vstd::prelude::*;

verus! {

/// Interrupt controller of the fallback platform.
pub const PLIC_BASE: u64 = 0x0C00_0000;

/// Register size of the interrupt controller of the fallback platform.
pub const PLIC_SIZE: u64 = 0x30_0000;

/// Serial port of the fallback platform.
pub const UART_BASE: u64 = 0x1000_0000;

/// Register size of the serial port of the fallback platform.
pub const UART_SIZE: u64 = 0x1000;

/// Interrupt of the serial port of the fallback platform.
pub const UART_INTERRUPT: u32 = 10;

/// Timer of the fallback platform.
pub const CLINT_BASE: u64 = 0x0200_0000;

/// Register size of the timer of the fallback platform.
pub const CLINT_SIZE: u64 = 0x1_0000;

/// Most devices that are kept before there is an allocator.
pub const MAX_EARLY: usize = 8;

/// A device.
#[derive(Clone, Copy, Debug)]
pub struct DeviceNode {
    /// The name of its programming interface.
    pub compatible: &'static str,
    /// Base of its registers.
    pub base: u64,
    /// Size of its registers.
    pub size: u64,
    /// Its interrupt.
    pub interrupt: Option<u32>,
}

/// The devices of the fallback platform.
pub open spec fn fallback() -> Seq<DeviceNode> {
    seq![
        DeviceNode { compatible: "riscv,plic0", base: PLIC_BASE, size: PLIC_SIZE, interrupt: None },
        DeviceNode {
            compatible: "ns16550a",
            base: UART_BASE,
            size: UART_SIZE,
            interrupt: Some(UART_INTERRUPT),
        },
        DeviceNode {
            compatible: "riscv,clint0",
            base: CLINT_BASE,
            size: CLINT_SIZE,
            interrupt: None,
        },
    ]
}

/// The devices of the fallback platform.
fn fallback_devices() -> (r: Vec<DeviceNode>)
    ensures
        r@ == fallback(),
{
    let mut r: Vec<DeviceNode> = Vec::new();
    r.push(
        DeviceNode { compatible: "riscv,plic0", base: PLIC_BASE, size: PLIC_SIZE, interrupt: None },
    );
    r.push(
        DeviceNode {
            compatible: "ns16550a",
            base: UART_BASE,
            size: UART_SIZE,
            interrupt: Some(UART_INTERRUPT),
        },
    );
    r.push(
        DeviceNode {
            compatible: "riscv,clint0",
            base: CLINT_BASE,
            size: CLINT_SIZE,
            interrupt: None,
        },
    );
    assert(r@ =~= fallback());
    r
}

/// The devices: those found early, and the list, once it was made.
pub struct Devices {
    early: Vec<DeviceNode>,
    list: Option<Vec<DeviceNode>>,
}

impl Devices {
    /// The devices found before there is an allocator.
    pub closed spec fn early(&self) -> Seq<DeviceNode> {
        self.early@
    }

    /// The list was made.
    pub closed spec fn known(&self) -> bool {
        self.list is Some
    }

    /// The list; empty before it was made.
    pub closed spec fn list(&self) -> Seq<DeviceNode> {
        match self.list {
            Some(l) => l@,
            None => Seq::empty(),
        }
    }

    /// No more devices are kept early than there is room for.
    pub closed spec fn wf(&self) -> bool {
        self.early@.len() <= 8
    }

    /// No devices.
    pub fn new() -> (r: Devices)
        ensures
            r.wf(),
            r.early() == Seq::<DeviceNode>::empty(),
            !r.known(),
            r.list() == Seq::<DeviceNode>::empty(),
    {
        Devices { early: Vec::new(), list: None }
    }

    /// Keeps a device found early. What does not fit is dropped.
    pub fn push_early(
        &mut self,
        compatible: &'static str,
        base: u64,
        size: u64,
        interrupt: Option<u32>,
    )
        requires
            old(self).wf(),
        ensures
            final(self).wf(),
            final(self).early() == (if old(self).early().len() < 8 {
                old(self).early().push(DeviceNode { compatible, base, size, interrupt })
            } else {
                old(self).early()
            }),
            final(self).known() == old(self).known(),
            final(self).list() == old(self).list(),
    {
        if self.early.len() < MAX_EARLY {
            self.early.push(DeviceNode { compatible, base, size, interrupt });
        }
    }

    /// Makes the list from the devices found early, or from the fallback if there are none. The
    /// early devices are taken; the list is made only once.
    pub fn discover(&mut self)
        requires
            old(self).wf(),
        ensures
            final(self).wf(),
            final(self).known(),
            final(self).early() == Seq::<DeviceNode>::empty(),
            final(self).list() == (if old(self).known() {
                old(self).list()
            } else if old(self).early().len() == 0 {
                fallback()
            } else {
                old(self).early()
            }),
    {
        let mut devices: Vec<DeviceNode> = Vec::new();
        std::mem::swap(&mut devices, &mut self.early);
        if devices.len() == 0 {
            devices = fallback_devices();
        }
        if self.list.is_none() {
            self.list = Some(devices);
        }
    }

    /// Calls `f` on the devices in order; what the calls returned.
    pub fn for_each<T, F: Fn(&DeviceNode) -> T>(&self, f: F) -> (r: Vec<T>)
        requires
            forall|i: int|
                0 <= i < self.list().len() ==> call_requires(f, (&#[trigger] self.list()[i],)),
        ensures
            r@.len() == self.list().len(),
            forall|i: int|
                0 <= i < r@.len() ==> call_ensures(f, (&self.list()[i],), #[trigger] r@[i]),
    {
        let mut r: Vec<T> = Vec::new();
        match &self.list {
            Some(l) => {
                let mut i: usize = 0;
                while i < l.len()
                    invariant
                        i <= l@.len(),
                        r@.len() == i,
                        l@ == self.list(),
                        forall|i: int|
                            0 <= i < self.list().len() ==> call_requires(
                                f,
                                (&#[trigger] self.list()[i],),
                            ),
                        forall|i: int|
                            0 <= i < r@.len() ==> call_ensures(
                                f,
                                (&self.list()[i],),
                                #[trigger] r@[i],
                            ),
                    decreases l@.len() - i,
                {
                    let d: &DeviceNode = &l[i];
                    assert(*d == self.list()[i as int]);
                    r.push(f(d));
                    i += 1;
                }
            },
            None => {},
        }
        r
    }
}

} // verus!
