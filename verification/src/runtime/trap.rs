//! What a trap into supervisor mode asks for.
//!
//! The trap code saves the registers, asks `trap_handler`, does what it says, and hands the outcome
//! to the function that decides how the trap ends.
use vstd::prelude::*;
use crate::context::TrapFrame;
use crate::panicking;
use crate::runtime::envcall::DispatchResult;

verus! {

/// Largest number of an external interrupt.
pub const MAX_INTERRUPTS: u32 = 256;

/// The handlers of external interrupts, by number.
pub struct InterruptTable<H> {
    handlers: Vec<Option<H>>,
}

/// The handler of the interrupt with the number.
pub open spec fn handler_of<H>(s: Seq<Option<H>>, number: int) -> Option<H> {
    if 0 <= number < s.len() {
        s[number]
    } else {
        None
    }
}

impl<H> InterruptTable<H> {
    /// The handlers by number; numbers past the end have none.
    pub closed spec fn slots(&self) -> Seq<Option<H>> {
        self.handlers@
    }

    /// A table without handlers.
    pub fn new() -> (r: InterruptTable<H>)
        ensures
            forall|n: int| handler_of(r.slots(), n) is None,
    {
        InterruptTable { handlers: Vec::new() }
    }

    /// Registers the handler of interrupt `number`. A number has one handler: two drivers that
    /// claim one interrupt are an error.
    pub fn register_interrupt_handler(&mut self, number: u32, handler: H)
        requires
            number <= MAX_INTERRUPTS,
            handler_of(old(self).slots(), number as int) is None,
        ensures
            forall|n: int|
                handler_of(final(self).slots(), n) == (if n == number {
                    Some(handler)
                } else {
                    handler_of(old(self).slots(), n)
                }),
    {
        while self.handlers.len() <= number as usize
            invariant
                number <= MAX_INTERRUPTS,
                forall|n: int|
                    handler_of(self.handlers@, n) == handler_of(old(self).slots(), n),
            decreases number + 1 - self.handlers@.len(),
        {
            self.handlers.push(None);
        }
        self.handlers[number as usize] = Some(handler);
    }

    /// The handler of interrupt `number`.
    pub fn get(&self, number: u32) -> (r: Option<&H>)
        ensures
            match handler_of(self.slots(), number as int) {
                Some(h) => r == Some(&h),
                None => r is None,
            },
    {
        if (number as usize) < self.handlers.len() {
            self.handlers[number as usize].as_ref()
        } else {
            None
        }
    }

    /// The handler to run for the interrupt that the controller has handed out. Number zero says
    /// that none is pending.
    pub fn claimed(&self, source: u32) -> (r: Option<&H>)
        ensures
            match handler_of(self.slots(), source as int) {
                Some(h) => if source != 0 {
                    r == Some(&h)
                } else {
                    r is None
                },
                None => r is None,
            },
    {
        if source != 0 {
            self.get(source)
        } else {
            None
        }
    }
}

/// What a trap asks for.
#[derive(Clone, Copy, PartialEq, Eq, Structural, Debug)]
pub enum TrapAction {
    /// Clear the pending software interrupt and schedule: the task gives way.
    Yield,
    /// Account for the clock tick, then see `after_tick`.
    Tick,
    /// Claim an external interrupt, run its handler and complete it; without a controller only warn.
    External,
    /// Warn about an interrupt that nobody knows.
    UnknownInterrupt,
    /// Decide the system call, then see `after_call`.
    Call,
    /// Handle the page fault, then see `after_fault`.
    PageFault,
    /// End the running task with the exit code, and schedule.
    Terminate(i32),
    /// Stop the system.
    Panic,
}

/// How a trap ends.
#[derive(Clone, Copy, PartialEq, Eq, Structural, Debug)]
pub enum TrapEnd {
    /// The interrupted task goes on.
    Resume,
    /// The next task is scheduled.
    Schedule,
    /// The running task ends with the exit code, and the next one is scheduled.
    Terminate(i32),
    /// The system stops.
    Panic,
}

/// What the trap cause asks for.
pub open spec fn action_of(scause: u64, umode: bool) -> TrapAction {
    let code = panicking::cause_code(scause);
    if panicking::is_interrupt(scause) {
        if code == 1 {
            TrapAction::Yield
        } else if code == 5 {
            TrapAction::Tick
        } else if code == 9 {
            TrapAction::External
        } else {
            TrapAction::UnknownInterrupt
        }
    } else if code == 8 {
        TrapAction::Call
    } else if code == 12 || code == 13 || code == 15 {
        TrapAction::PageFault
    } else if umode {
        TrapAction::Terminate((-1) as i32)
    } else {
        TrapAction::Panic
    }
}

/// What a trap asks for. An exception of a user task ends the task; one of the kernel stops the
/// system.
pub fn trap_handler(scause: u64, umode: bool) -> (r: TrapAction)
    ensures
        r == action_of(scause, umode),
{
    if scause >= 0x8000_0000_0000_0000 {
        match scause - 0x8000_0000_0000_0000 {
            1 => TrapAction::Yield,
            5 => TrapAction::Tick,
            9 => TrapAction::External,
            _ => TrapAction::UnknownInterrupt,
        }
    } else {
        match scause {
            8 => TrapAction::Call,
            12 | 13 | 15 => TrapAction::PageFault,
            _ => if umode {
                TrapAction::Terminate(-1)
            } else {
                TrapAction::Panic
            },
        }
    }
}

/// After a clock tick: the next task is scheduled, unless there is no clock.
pub fn after_tick(ticked: bool) -> (r: TrapEnd)
    ensures
        r == (if ticked {
            TrapEnd::Schedule
        } else {
            TrapEnd::Resume
        }),
{
    if ticked {
        TrapEnd::Schedule
    } else {
        TrapEnd::Resume
    }
}

/// The address space in which a page fault is looked up.
#[derive(Clone, Copy, PartialEq, Eq, Structural, Debug)]
pub enum FaultSpace {
    /// The space of the running task.
    Task,
    /// The kernel's space.
    Kernel,
    /// No space: the fault cannot be handled.
    Nowhere,
}

/// The space in which a page fault is looked up: that of the running task if it has one, else the
/// kernel's once it is built.
pub fn fault_space(task_has_space: bool, kernel_built: bool) -> (r: FaultSpace)
    ensures
        r == (if task_has_space {
            FaultSpace::Task
        } else if kernel_built {
            FaultSpace::Kernel
        } else {
            FaultSpace::Nowhere
        }),
{
    if task_has_space {
        FaultSpace::Task
    } else if kernel_built {
        FaultSpace::Kernel
    } else {
        FaultSpace::Nowhere
    }
}

/// After a page fault: a fault that was not handled ends a user task, and stops the system in the
/// kernel.
pub fn after_fault(handled: bool, umode: bool) -> (r: TrapEnd)
    ensures
        r == (if handled {
            TrapEnd::Resume
        } else if umode {
            TrapEnd::Terminate((-1) as i32)
        } else {
            TrapEnd::Panic
        }),
{
    if handled {
        TrapEnd::Resume
    } else if umode {
        TrapEnd::Terminate(-1)
    } else {
        TrapEnd::Panic
    }
}

/// The registers after a call that goes on: the result stands in `a0`, and the program counter is
/// past the four bytes of the call. A task that waits for input repeats the call.
pub open spec fn returned(f: TrapFrame, value: u64, waiting: bool) -> TrapFrame {
    TrapFrame {
        a0: value,
        sepc: if waiting {
            f.sepc
        } else {
            ((f.sepc + 4) % 0x1_0000_0000_0000_0000) as u64
        },
        ..f
    }
}

/// The arguments of a call: the registers `a0` to `a5`.
pub fn call_arguments(frame: &TrapFrame) -> (r: [u64; 6])
    ensures
        r@ == seq![frame.a0, frame.a1, frame.a2, frame.a3, frame.a4, frame.a5],
{
    let r: [u64; 6] = [frame.a0, frame.a1, frame.a2, frame.a3, frame.a4, frame.a5];
    assert(r@ =~= seq![frame.a0, frame.a1, frame.a2, frame.a3, frame.a4, frame.a5]);
    r
}

/// After a system call: its result goes to the frame, unless the task has stopped running.
pub fn after_call(frame: &mut TrapFrame, result: DispatchResult, waiting: bool) -> (r: TrapEnd)
    ensures
        match result {
            DispatchResult::Ret(v) => r == TrapEnd::Resume && *final(frame) == returned(
                *old(frame),
                v,
                waiting,
            ),
            DispatchResult::Reschedule => r == TrapEnd::Schedule && *final(frame) == *old(frame),
        },
{
    match result {
        DispatchResult::Ret(v) => {
            frame.a0 = v;
            if !waiting {
                frame.sepc = frame.sepc.wrapping_add(4);
            }
            TrapEnd::Resume
        },
        DispatchResult::Reschedule => TrapEnd::Schedule,
    }
}

/// When the stack of the running task has overflowed into the guard page its registers cannot be
/// saved: a user task ends, the kernel stops.
pub fn trap_stack_corrupt(umode: bool) -> (r: TrapEnd)
    ensures
        r == (if umode {
            TrapEnd::Terminate((-1) as i32)
        } else {
            TrapEnd::Panic
        }),
{
    if umode {
        TrapEnd::Terminate(-1)
    } else {
        TrapEnd::Panic
    }
}

/// No trap of a user task stops the system.
pub proof fn law_user_cannot_stop_system(scause: u64)
    ensures
        action_of(scause, true) != TrapAction::Panic,
{
}

/// No interrupt ends a task or stops the system, whatever was running.
pub proof fn law_interrupts_harmless(scause: u64, umode: bool)
    requires
        panicking::is_interrupt(scause),
    ensures
        action_of(scause, umode) != TrapAction::Panic,
        !(action_of(scause, umode) is Terminate),
{
}

/// A call that goes on never repeats: the task is past the call, with the result in `a0` and every
/// other register as it was.
pub proof fn law_call_returns(f: TrapFrame, value: u64)
    requires
        f.sepc + 4 <= u64::MAX,
    ensures
        returned(f, value, false).sepc == f.sepc + 4,
        returned(f, value, false).a0 == value,
        (TrapFrame { a0: f.a0, sepc: f.sepc, ..returned(f, value, false) }) == f,
{
}

} // verus!
