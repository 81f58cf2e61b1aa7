//! How a task ends.
use vstd::prelude::*;
use crate::schedule::task;
use crate::schedule::task::{Pending, Queues, Task, TaskTable};

verus! {

/// The running task after it asked to end with the exit code.
pub open spec fn ending(c: Option<Task>, code: i32) -> Option<Task> {
    match c {
        Some(t) => Some(Task { exit_code: Some(code), pending: Pending::Reap, ..t }),
        None => None,
    }
}

impl TaskTable {
    /// The running task ends with the exit code; it becomes a zombie at the next scheduling. A task
    /// that ends by an exception has the code `-1`. Without a running task nothing happens.
    pub fn exit(&mut self, code: i32)
        ensures
            final(self)@ == (Queues { current: ending(old(self)@.current, code), ..old(self)@ }),
            task::placed(old(self)@) ==> task::placed(final(self)@),
    {
        match self.take_current() {
            Some(t) => {
                self.replace_current(Task { exit_code: Some(code), pending: Pending::Reap, ..t });
            },
            None => {},
        }
    }
}

} // verus!
