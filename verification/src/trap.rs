//! Traps into machine mode.
use vstd::prelude::*;
use crate::panicking;

verus! {

/// The registers that a trap into machine mode saves, in the order in which they lie in memory.
#[derive(Clone, Copy, PartialEq, Eq, Structural)]
pub struct TrapFrame {
    pub ra: u64,
    pub sp: u64,
    pub gp: u64,
    pub tp: u64,
    pub t0: u64,
    pub t1: u64,
    pub t2: u64,
    pub s0: u64,
    pub s1: u64,
    pub a0: u64,
    pub a1: u64,
    pub a2: u64,
    pub a3: u64,
    pub a4: u64,
    pub a5: u64,
    pub a6: u64,
    pub a7: u64,
    pub s2: u64,
    pub s3: u64,
    pub s4: u64,
    pub s5: u64,
    pub s6: u64,
    pub s7: u64,
    pub s8: u64,
    pub s9: u64,
    pub s10: u64,
    pub s11: u64,
    pub t3: u64,
    pub t4: u64,
    pub t5: u64,
    pub t6: u64,
    pub mepc: u64,
    pub mstatus: u64,
}

/// The handlers of external interrupts, in the order in which they were registered.
pub struct ExternalHandlers<H> {
    handlers: Vec<(u32, H)>,
}

/// Position of the first handler of the interrupt; the length if there is none.
pub open spec fn first_handler<H>(s: Seq<(u32, H)>, source: u32) -> int
    decreases s.len(),
{
    if s.len() == 0 {
        0
    } else {
        let k = first_handler(s.drop_last(), source);
        if k < s.len() - 1 || s.last().0 == source {
            k
        } else {
            s.len() as int
        }
    }
}

/// What `first_handler` says.
pub proof fn lemma_first_handler<H>(s: Seq<(u32, H)>, source: u32)
    ensures
        0 <= first_handler(s, source) <= s.len(),
        first_handler(s, source) < s.len() ==> s[first_handler(s, source)].0 == source,
        forall|j: int| 0 <= j < first_handler(s, source) ==> (#[trigger] s[j]).0 != source,
    decreases s.len(),
{
    if s.len() > 0 {
        lemma_first_handler(s.drop_last(), source);
        assert forall|j: int| 0 <= j < first_handler(s, source) implies (#[trigger] s[j]).0
            != source by {
            if j < s.len() - 1 {
                assert(s.drop_last()[j] == s[j]);
            }
        }
    }
}

impl<H> ExternalHandlers<H> {
    /// The handlers with their interrupts, in the order in which they were registered.
    pub closed spec fn list(&self) -> Seq<(u32, H)> {
        self.handlers@
    }

    /// No handlers.
    pub fn init() -> (r: ExternalHandlers<H>)
        ensures
            r.list() == Seq::<(u32, H)>::empty(),
    {
        ExternalHandlers { handlers: Vec::new() }
    }

    /// Registers a handler for the interrupt. Where several are registered for one interrupt the
    /// first one runs.
    pub fn register_irq(&mut self, irq: u32, handler: H)
        ensures
            final(self).list() == old(self).list().push((irq, handler)),
    {
        self.handlers.push((irq, handler));
    }

    /// The handler to run for the interrupt that the controller has handed out. Number zero says
    /// that none is pending.
    pub fn claimed(&self, source: u32) -> (r: Option<&H>)
        ensures
            ({
                let k = first_handler(self.list(), source);
                if source != 0 && k < self.list().len() {
                    r == Some(&self.list()[k].1)
                } else {
                    r is None
                }
            }),
    {
        if source == 0 {
            return None;
        }
        proof {
            lemma_first_handler(self.handlers@, source);
        }
        let mut i: usize = 0;
        while i < self.handlers.len()
            invariant
                i <= self.handlers@.len(),
                source != 0,
                forall|j: int| 0 <= j < i ==> (#[trigger] self.handlers@[j]).0 != source,
            decreases self.handlers@.len() - i,
        {
            if self.handlers[i].0 == source {
                proof {
                    lemma_first_handler(self.handlers@, source);
                    let k = first_handler(self.handlers@, source);
                    if k < i {
                        assert(self.handlers@[k].0 == source);
                    }
                }
                return Some(&self.handlers[i].1);
            }
            i += 1;
        }
        None
    }
}

/// What a trap into machine mode asks for.
#[derive(Clone, Copy, PartialEq, Eq, Structural, Debug)]
pub enum MachineAction {
    /// Handle the software interrupt.
    Soft,
    /// Handle the timer interrupt, then schedule.
    Timer,
    /// Claim an external interrupt, run its handler and complete it.
    External,
    /// Warn about an interrupt that nobody knows.
    UnknownInterrupt,
    /// Handle the page fault; the system stops if it cannot be handled.
    PageFault,
    /// Report an exception.
    Report,
}

/// What the trap cause asks for.
pub open spec fn action_of(mcause: u64) -> MachineAction {
    let code = panicking::cause_code(mcause);
    if panicking::is_interrupt(mcause) {
        if code == 3 {
            MachineAction::Soft
        } else if code == 7 {
            MachineAction::Timer
        } else if code == 11 {
            MachineAction::External
        } else {
            MachineAction::UnknownInterrupt
        }
    } else if code == 12 || code == 13 || code == 15 {
        MachineAction::PageFault
    } else {
        MachineAction::Report
    }
}

/// What a trap into machine mode asks for.
pub fn trap_handler(mcause: u64) -> (r: MachineAction)
    ensures
        r == action_of(mcause),
{
    if mcause >= 0x8000_0000_0000_0000 {
        match mcause - 0x8000_0000_0000_0000 {
            3 => MachineAction::Soft,
            7 => MachineAction::Timer,
            11 => MachineAction::External,
            _ => MachineAction::UnknownInterrupt,
        }
    } else {
        match mcause {
            12 | 13 | 15 => MachineAction::PageFault,
            _ => MachineAction::Report,
        }
    }
}

/// A handler that is registered runs for its interrupt as long as no other was registered for it
/// before.
pub proof fn law_registered_handler_runs<H>(s: Seq<(u32, H)>, irq: u32, h: H)
    requires
        forall|j: int| 0 <= j < s.len() ==> (#[trigger] s[j]).0 != irq,
    ensures
        first_handler(s.push((irq, h)), irq) == s.len(),
{
    let t = s.push((irq, h));
    lemma_first_handler(t, irq);
    let k = first_handler(t, irq);
    assert(t[s.len() as int].0 == irq);
    if k < s.len() {
        assert(t[k] == s[k]);
    }
}

/// The handler that runs for an interrupt is the first one that was registered for it; without one
/// none runs.
pub proof fn law_first_handler_runs<H>(s: Seq<(u32, H)>, source: u32, k: int)
    ensures
        0 <= k < s.len() && s[k].0 == source && (forall|j: int|
            0 <= j < k ==> (#[trigger] s[j]).0 != source) ==> first_handler(s, source) == k,
        (forall|j: int| 0 <= j < s.len() ==> (#[trigger] s[j]).0 != source) ==> first_handler(
            s,
            source,
        ) == s.len(),
{
    lemma_first_handler(s, source);
    let f = first_handler(s, source);
    if f < s.len() {
        assert(s[f].0 == source);
    }
    if 0 <= k < f {
        assert(s[k].0 != source);
    }
}

/// What the causes ask for: interrupts have the highest bit set, and among them 3 is the software
/// interrupt, 7 the timer and 11 a device. Exceptions 12, 13 and 15 are page faults; the others are
/// reported.
pub proof fn law_machine_causes(mcause: u64)
    ensures
        mcause == 0x8000_0000_0000_0003 <==> action_of(mcause) == MachineAction::Soft,
        mcause == 0x8000_0000_0000_0007 <==> action_of(mcause) == MachineAction::Timer,
        mcause == 0x8000_0000_0000_000B <==> action_of(mcause) == MachineAction::External,
        mcause == 12 || mcause == 13 || mcause == 15 <==> action_of(mcause)
            == MachineAction::PageFault,
        mcause >= 0x8000_0000_0000_0000 && mcause != 0x8000_0000_0000_0003 && mcause
            != 0x8000_0000_0000_0007 && mcause != 0x8000_0000_0000_000B <==> action_of(mcause)
            == MachineAction::UnknownInterrupt,
        mcause < 0x8000_0000_0000_0000 && mcause != 12 && mcause != 13 && mcause != 15
            <==> action_of(mcause) == MachineAction::Report,
{
}

} // verus!
