//! Ending another task.
use vstd::prelude::*;
use crate::memory::phys;
use crate::memory::phys::PhysMem;
use crate::memory::prune;
use crate::mmu::frames::PageFrameAllocator;
use crate::schedule::sleep;
use crate::schedule::sleep::wake_task;
use crate::schedule::task;
use crate::schedule::task::{Queues, Task, TaskTable, WaitResult};
use crate::task::reclaim;

verus! {

/// Why a task could not be killed.
#[derive(Clone, Copy, PartialEq, Eq, Structural, Debug)]
pub enum KillError {
    /// No task with the id is ready, sleeps or is a zombie.
    NotFound,
    /// The task is the running one, which ends by `exit`.
    IsCurrent,
}

/// A task that waited for a task that was killed, before it is woken.
pub open spec fn told(t: Task, resume: u64) -> Task {
    Task { wait_result: WaitResult::Killed, resume_sepc: resume, wait_pid: None, ..t }
}

/// The queues after the task was killed: it is gone, and the task that waited for it is ready.
pub open spec fn killed(q: Queues, id: u64, resume: u64) -> Queues {
    let left = task::without_found(q, id);
    match task::first_of(left.sleep, task::waits_for(id)) {
        Some(p) => Queues {
            sleep: task::without_first(left.sleep, task::waits_for(id)),
            ready: left.ready.push(sleep::woken(told(p, resume))),
            ..left
        },
        None => left,
    }
}

/// Memory after the task that waited for the killed one was woken.
pub open spec fn killed_memory(m: Map<int, u64>, q: Queues, id: u64, resume: u64) -> Map<int, u64> {
    match task::first_of(task::without_found(q, id).sleep, task::waits_for(id)) {
        Some(p) => sleep::wake_memory(m, told(p, resume)),
        None => m,
    }
}

/// Why the task cannot be killed, if it cannot.
pub open spec fn refusal(q: Queues, id: u64) -> Option<KillError> {
    if q.current matches Some(t) && t.id == id {
        Some(KillError::IsCurrent)
    } else if task::found(q, id) is None {
        Some(KillError::NotFound)
    } else {
        None
    }
}

/// The kill can be done: the waiter can be woken, and the address space of the target is sound
/// after that.
pub open spec fn killable(m: Map<int, u64>, free: Set<int>, q: Queues, id: u64, resume: u64) -> bool {
    &&& task::first_of(task::without_found(q, id).sleep, task::waits_for(id)) matches Some(p)
        ==> sleep::wakeable(m, p)
    &&& task::found(q, id) matches Some(t) ==> (t.held.space matches Some(s) ==> s.wf(
        killed_memory(m, q, id, resume),
        free,
    ))
}

/// Removing a task leaves the others in the state of their queue.
proof fn lemma_without(s: Seq<Task>, p: spec_fn(Task) -> bool, state: task::TaskState)
    requires
        task::all_in(s, state),
    ensures
        task::all_in(task::without_first(s, p), state),
{
    task::lemma_first_at(s, p);
    let k = task::first_at(s, p);
    let r = task::without_first(s, p);
    assert forall|i: int| 0 <= i < r.len() implies (#[trigger] r[i]).state == state by {
        if k < s.len() && i >= k {
            assert(r[i] == s[i + 1]);
        } else {
            assert(r[i] == s[i]);
        }
    }
}

impl TaskTable {
    /// Kills the task with the id. A task that waits for it is woken, to go on at `resume`, and told
    /// that the target was killed. What the target owned is given back; its stack is returned for
    /// the frame allocator.
    pub fn kill<A: PageFrameAllocator>(
        &mut self,
        id: u64,
        resume: u64,
        mem: &mut PhysMem,
        frames: &mut A,
    ) -> (r: Result<Option<(u64, u64)>, KillError>)
        requires
            old(mem).wf(),
            old(frames).ready(old(mem)@.dom()),
            refusal(old(self)@, id) is None ==> killable(
                old(mem)@,
                old(frames).free(),
                old(self)@,
                id,
                resume,
            ),
        ensures
            final(mem).wf(),
            final(mem).start() == old(mem).start(),
            final(mem).end() == old(mem).end(),
            final(mem)@.dom() == old(mem)@.dom(),
            final(frames).ready(final(mem)@.dom()),
            final(frames).recycles() == old(frames).recycles(),
            task::placed(old(self)@) ==> task::placed(final(self)@),
            match refusal(old(self)@, id) {
                Some(e) => {
                    &&& r == Err::<Option<(u64, u64)>, KillError>(e)
                    &&& final(self)@ == old(self)@
                    &&& final(mem)@ == old(mem)@
                    &&& final(frames).free() == old(frames).free()
                },
                None => {
                    let t = task::found(old(self)@, id)->0;
                    let m = killed_memory(old(mem)@, old(self)@, id, resume);
                    &&& r == Ok::<Option<(u64, u64)>, KillError>(crate::task::stack_of(t.held))
                    &&& final(self)@ == killed(old(self)@, id, resume)
                    &&& final(frames).free() == prune::released(
                        old(frames).free(),
                        crate::task::tables_of(m, t.held),
                        old(frames).recycles(),
                    )
                    &&& phys::same_outside(m, final(mem)@, crate::task::tables_of(m, t.held))
                },
            },
    {
        let ghost q = self@;
        let is_current: bool = match self.current() {
            Some(t) => t.id == id,
            None => false,
        };
        if is_current {
            return Err(KillError::IsCurrent);
        }
        let target: Task = match self.take(id) {
            Some(t) => t,
            None => {
                return Err(KillError::NotFound);
            },
        };
        proof {
            if task::placed(q) {
                lemma_without(q.ready, task::has_id(id), task::TaskState::Ready);
                lemma_without(q.sleep, task::has_id(id), task::TaskState::Blocked);
                lemma_without(q.zombie, task::has_id(id), task::TaskState::Zombie);
                let left = self@;
                lemma_without(left.sleep, task::waits_for(id), task::TaskState::Blocked);
            }
        }
        match self.take_sleeper_waiting(id) {
            Some(p) => {
                let up: Task = wake_task(
                    Task {
                        wait_result: WaitResult::Killed,
                        resume_sepc: resume,
                        wait_pid: None,
                        ..p
                    },
                    mem,
                );
                self.push_ready(up);
            },
            None => {},
        }
        Ok(reclaim(target.held, mem, frames))
    }
}

} // verus!
