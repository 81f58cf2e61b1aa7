//! Sleeping and waking.
use vstd::prelude::*;
use crate::memory::phys::PhysMem;
use crate::scheduler::task;
use crate::scheduler::task::{Pending, Scheduler, Task, TaskState};
use crate::task::{deadline, set_sepc};

verus! {

/// The task after it was woken.
pub open spec fn woken(t: Task) -> Task {
    Task { state: TaskState::Ready, pending: Pending::Rerun, ..t }
}

/// Memory after the task was woken: it goes on at its resume point.
///
/// The saved program counter is overwritten and not advanced: the tick may have come at the waiting
/// instruction or at any instruction after it.
pub open spec fn wake_memory(m: Map<int, u64>, t: Task) -> Map<int, u64> {
    m.insert(crate::task::frame_at(t.held, t.frame) + 248, t.resume_sepc)
}

/// Wakes a task.
pub fn wake_task(t: Task, mem: &mut PhysMem) -> (r: Task)
    requires
        old(mem).wf(),
        crate::task::reachable(old(mem)@, t.held, t.frame),
    ensures
        r == woken(t),
        final(mem).wf(),
        final(mem).start() == old(mem).start(),
        final(mem).end() == old(mem).end(),
        final(mem)@ == wake_memory(old(mem)@, t),
        final(mem)@.dom() == old(mem)@.dom(),
{
    set_sepc(mem, &t.held, t.frame, t.resume_sepc);
    Task { state: TaskState::Ready, pending: Pending::Rerun, ..t }
}

/// The running task after it asked to sleep.
pub open spec fn dozing(c: Option<Task>, wake_tick: u64, resume: u64) -> Option<Task> {
    match c {
        Some(t) => Some(Task { pending: Pending::Park, wake_tick, resume_sepc: resume, ..t }),
        None => None,
    }
}

/// The running task after it went on: a request to sleep that no tick has seen is dropped.
pub open spec fn recovered(c: Option<Task>) -> Option<Task> {
    match c {
        Some(t) => Some(
            if t.pending == Pending::Park {
                Task { pending: Pending::Rerun, ..t }
            } else {
                t
            },
        ),
        None => None,
    }
}

impl Scheduler {
    /// The running task asks to sleep for `secs` seconds and `nanos` nanoseconds; it is parked at
    /// the next tick and goes on at `resume`. Without a running task nothing happens.
    pub fn sleep(&mut self, now: u64, secs: u64, nanos: u32, freq: u64, resume: u64)
        ensures
            final(self)@ == (task::Queues {
                current: dozing(
                    old(self)@.current,
                    crate::task::deadline_of(now, secs, nanos, freq) as u64,
                    resume,
                ),
                ..old(self)@
            }),
            final(self).next_id == old(self).next_id,
            task::placed(old(self)@) ==> task::placed(final(self)@),
    {
        let wake_tick: u64 = deadline(now, secs, nanos, freq);
        match self.current.take() {
            Some(t) => {
                self.current =
                Some(Task { pending: Pending::Park, wake_tick, resume_sepc: resume, ..t });
            },
            None => {},
        }
    }

    /// The running task goes on after the wait. If the wait ended without a tick the task was never
    /// parked, and must not be parked by the next one.
    pub fn recover(&mut self)
        ensures
            final(self)@ == (task::Queues { current: recovered(old(self)@.current), ..old(self)@ }),
            final(self).next_id == old(self).next_id,
            task::placed(old(self)@) ==> task::placed(final(self)@),
    {
        match self.current.take() {
            Some(t) => {
                self.current =
                Some(
                    if t.pending == Pending::Park {
                        Task { pending: Pending::Rerun, ..t }
                    } else {
                        t
                    },
                );
            },
            None => {},
        }
    }

    /// The running task ends; it becomes a zombie at the next tick.
    pub fn exit(&mut self)
        ensures
            final(self)@ == (task::Queues { current: ending(old(self)@.current), ..old(self)@ }),
            final(self).next_id == old(self).next_id,
            task::placed(old(self)@) ==> task::placed(final(self)@),
    {
        match self.current.take() {
            Some(t) => {
                self.current = Some(Task { pending: Pending::Reap, ..t });
            },
            None => {},
        }
    }
}

/// The running task after it asked to end.
pub open spec fn ending(c: Option<Task>) -> Option<Task> {
    match c {
        Some(t) => Some(Task { pending: Pending::Reap, ..t }),
        None => None,
    }
}

} // verus!
