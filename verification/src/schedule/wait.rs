//! Waiting for the end of another task.
//!
//! Looking for the zombie, looking whether the task lives, and asking to wait are one step: were
//! they interrupted, the task could be killed between them, and nobody would wake the waiter.
use vstd::prelude::*;
use crate::schedule::task;
use crate::schedule::task::{Pending, Queues, Task, TaskTable, WaitResult};
use crate::task::Holdings;

verus! {

/// How a wait begins.
pub enum WaitStep {
    /// The task has ended: its exit code, or `None` if that was collected before, and what it owned,
    /// to be given back.
    Reaped(Option<i32>, Holdings),
    /// There is no such task.
    Gone,
    /// The task lives: the caller waits, and asks again after every interrupt.
    Blocked,
}

/// The running task after it asked to wait for task `pid`.
pub open spec fn waiting(c: Option<Task>, pid: u64) -> Option<Task> {
    match c {
        Some(t) => Some(Task { pending: Pending::Wait(pid), wait_pid: Some(pid), ..t }),
        None => None,
    }
}

/// What a task is told when it asks after an interrupt: the outer `None` says that it has to wait
/// on, the inner one that the other task was killed.
pub open spec fn answer(r: WaitResult) -> Option<Option<i32>> {
    match r {
        WaitResult::Pending => None,
        WaitResult::Exited(code) => Some(Some(code)),
        WaitResult::Killed => Some(None),
    }
}

/// The running task after it asked.
pub open spec fn answered(c: Option<Task>) -> Option<Task> {
    match c {
        Some(t) => Some(
            if t.wait_result == WaitResult::Pending {
                t
            } else {
                Task {
                    wait_result: WaitResult::Pending,
                    pending: Pending::Rerun,
                    wait_pid: None,
                    ..t
                }
            },
        ),
        None => None,
    }
}

impl TaskTable {
    /// Begins to wait for the end of task `pid`.
    pub fn wait(&mut self, pid: u64) -> (r: WaitStep)
        ensures
            task::placed(old(self)@) ==> task::placed(final(self)@),
            match task::first_of(old(self)@.zombie, task::has_id(pid)) {
                Some(z) => {
                    &&& r == WaitStep::Reaped(z.exit_code, z.held)
                    &&& final(self)@ == (Queues {
                        zombie: task::without_first(old(self)@.zombie, task::has_id(pid)),
                        ..old(self)@
                    })
                },
                None => if task::is_alive(old(self)@, pid) {
                    &&& r == WaitStep::Blocked
                    &&& final(self)@ == (Queues {
                        current: waiting(old(self)@.current, pid),
                        ..old(self)@
                    })
                } else {
                    &&& r == WaitStep::Gone
                    &&& final(self)@ == old(self)@
                },
            },
    {
        proof {
            task::lemma_first_at(self@.zombie, task::has_id(pid));
        }
        match self.take_zombie(pid) {
            Some(z) => {
                return WaitStep::Reaped(z.exit_code, z.held);
            },
            None => {},
        }
        if !self.alive(pid) {
            return WaitStep::Gone;
        }
        match self.take_current() {
            Some(t) => {
                self.replace_current(Task { pending: Pending::Wait(pid), wait_pid: Some(pid), ..t });
            },
            None => {},
        }
        WaitStep::Blocked
    }

    /// Asks after an interrupt whether the wait is over, and clears the answer if it is.
    pub fn wait_answer(&mut self) -> (r: Option<Option<i32>>)
        ensures
            r == (match old(self)@.current {
                Some(t) => answer(t.wait_result),
                None => None,
            }),
            final(self)@ == (Queues { current: answered(old(self)@.current), ..old(self)@ }),
            task::placed(old(self)@) ==> task::placed(final(self)@),
    {
        match self.take_current() {
            Some(t) => {
                let told: WaitResult = t.wait_result;
                match told {
                    WaitResult::Pending => {
                        self.replace_current(t);
                        None
                    },
                    WaitResult::Exited(code) => {
                        self.replace_current(
                            Task {
                                wait_result: WaitResult::Pending,
                                pending: Pending::Rerun,
                                wait_pid: None,
                                ..t
                            },
                        );
                        Some(Some(code))
                    },
                    WaitResult::Killed => {
                        self.replace_current(
                            Task {
                                wait_result: WaitResult::Pending,
                                pending: Pending::Rerun,
                                wait_pid: None,
                                ..t
                            },
                        );
                        Some(None)
                    },
                }
            },
            None => None,
        }
    }
}

} // verus!
