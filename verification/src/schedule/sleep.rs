//! Sleeping, waiting for input, and waking.
use vstd::prelude::*;
use std::collections::VecDeque;
use crate::memory::phys::PhysMem;
use crate::schedule::task;
use crate::schedule::task::{Pending, Queues, Task, TaskState, TaskTable};
use crate::task::{deadline, set_sepc, TaskKind};

verus! {

/// The task after it was woken.
pub open spec fn woken(t: Task) -> Task {
    Task { state: TaskState::Ready, pending: Pending::Rerun, ..t }
}

/// Memory after the task was woken: it goes on at its resume point. A task whose resume point is
/// zero goes on where it was, and repeats the call in which it waited.
pub open spec fn wake_memory(m: Map<int, u64>, t: Task) -> Map<int, u64> {
    if t.resume_sepc != 0 {
        m.insert(crate::task::frame_at(t.held, t.frame) + 248, t.resume_sepc)
    } else {
        m
    }
}

/// The task can be woken: its saved program counter is in memory.
pub open spec fn wakeable(m: Map<int, u64>, t: Task) -> bool {
    crate::task::reachable(m, t.held, t.frame)
}

/// Memory after the tasks were woken in order.
pub open spec fn wake_all_memory(m: Map<int, u64>, ts: Seq<Task>) -> Map<int, u64>
    decreases ts.len(),
{
    if ts.len() == 0 {
        m
    } else {
        wake_memory(wake_all_memory(m, ts.drop_last()), ts.last())
    }
}

/// Wakes a task.
pub fn wake_task(t: Task, mem: &mut PhysMem) -> (r: Task)
    requires
        old(mem).wf(),
        wakeable(old(mem)@, t),
    ensures
        r == woken(t),
        final(mem).wf(),
        final(mem).start() == old(mem).start(),
        final(mem).end() == old(mem).end(),
        final(mem)@ == wake_memory(old(mem)@, t),
        final(mem)@.dom() == old(mem)@.dom(),
{
    if t.resume_sepc != 0 {
        set_sepc(mem, &t.held, t.frame, t.resume_sepc);
    }
    Task { state: TaskState::Ready, pending: Pending::Rerun, ..t }
}

/// The running task after it asked to sleep.
pub open spec fn dozing(c: Option<Task>, wake_tick: u64, resume: u64) -> Option<Task> {
    match c {
        Some(t) => Some(Task { pending: Pending::Park, wake_tick, resume_sepc: resume, ..t }),
        None => None,
    }
}

/// The running task after it asked to wait for input. A kernel task goes on at `resume`; a user
/// task repeats its call.
pub open spec fn reading(c: Option<Task>, resume: u64) -> Option<Task> {
    match c {
        Some(t) => Some(
            Task {
                pending: Pending::WaitRead,
                wake_tick: u64::MAX,
                resume_sepc: if t.kind == TaskKind::UMode {
                    0
                } else {
                    resume
                },
                ..t
            },
        ),
        None => None,
    }
}

/// The running task after the request `p` was dropped.
pub open spec fn dropped(c: Option<Task>, p: Pending) -> Option<Task> {
    match c {
        Some(t) => Some(
            if t.pending == p {
                Task { pending: Pending::Rerun, ..t }
            } else {
                t
            },
        ),
        None => None,
    }
}

/// The queues after input arrived: the tasks that waited for it are ready, in the order in which
/// they waited.
pub open spec fn input_arrived(q: Queues) -> Queues {
    Queues {
        ready: q.ready + task::readers(q.sleep).map_values(|t: Task| woken(t)),
        sleep: task::not_readers(q.sleep),
        ..q
    }
}

impl TaskTable {
    /// The running task asks to sleep for `secs` seconds and `nanos` nanoseconds; it is parked at
    /// the next tick and goes on at `resume`. Without a running task nothing happens.
    pub fn sleep(&mut self, now: u64, secs: u64, nanos: u32, freq: u64, resume: u64)
        ensures
            final(self)@ == (Queues {
                current: dozing(
                    old(self)@.current,
                    crate::task::deadline_of(now, secs, nanos, freq) as u64,
                    resume,
                ),
                ..old(self)@
            }),
    {
        let wake_tick: u64 = deadline(now, secs, nanos, freq);
        match self.take_current() {
            Some(t) => {
                self.replace_current(
                    Task { pending: Pending::Park, wake_tick, resume_sepc: resume, ..t },
                );
            },
            None => {},
        }
    }

    /// The running task goes on after the wait. If the wait ended without a tick the task was never
    /// parked, and must not be parked by the next one.
    pub fn recover(&mut self)
        ensures
            final(self)@ == (Queues {
                current: dropped(old(self)@.current, Pending::Park),
                ..old(self)@
            }),
    {
        match self.take_current() {
            Some(t) => {
                if t.pending == Pending::Park {
                    self.replace_current(Task { pending: Pending::Rerun, ..t });
                } else {
                    self.replace_current(t);
                }
            },
            None => {},
        }
    }

    /// The running task asks to wait for input.
    ///
    /// A user task waits inside a system call: its resume point is zero, so that it repeats the
    /// call when it is woken. A kernel task goes on at `resume`.
    pub fn mark_input_wait(&mut self, resume: u64)
        ensures
            final(self)@ == (Queues { current: reading(old(self)@.current, resume), ..old(self)@ }),
    {
        match self.take_current() {
            Some(t) => {
                let point: u64 = if t.kind == TaskKind::UMode {
                    0
                } else {
                    resume
                };
                self.replace_current(
                    Task {
                        pending: Pending::WaitRead,
                        wake_tick: u64::MAX,
                        resume_sepc: point,
                        ..t
                    },
                );
            },
            None => {},
        }
    }

    /// The running task no longer waits for input.
    pub fn clear_input_wait(&mut self)
        ensures
            final(self)@ == (Queues {
                current: dropped(old(self)@.current, Pending::WaitRead),
                ..old(self)@
            }),
    {
        match self.take_current() {
            Some(t) => {
                if t.pending == Pending::WaitRead {
                    self.replace_current(Task { pending: Pending::Rerun, ..t });
                } else {
                    self.replace_current(t);
                }
            },
            None => {},
        }
    }

    /// Whether the running task has asked to wait for input.
    pub fn is_input_waiting(&self) -> (r: bool)
        ensures
            r == (self@.current matches Some(t) && t.pending == Pending::WaitRead),
    {
        match self.current() {
            Some(t) => t.pending == Pending::WaitRead,
            None => false,
        }
    }

    /// Input has arrived: wakes all sleepers that wait for it.
    pub fn wake_input_waiters(&mut self, mem: &mut PhysMem)
        requires
            old(mem).wf(),
            forall|i: int|
                #![trigger old(self)@.sleep[i]]
                0 <= i < old(self)@.sleep.len() && old(self)@.sleep[i].pending == Pending::WaitRead
                    ==> wakeable(old(mem)@, old(self)@.sleep[i]),
        ensures
            final(self)@ == input_arrived(old(self)@),
            final(mem).wf(),
            final(mem).start() == old(mem).start(),
            final(mem).end() == old(mem).end(),
            final(mem)@ == wake_all_memory(old(mem)@, task::readers(old(self)@.sleep)),
            final(mem)@.dom() == old(mem)@.dom(),
            task::placed(old(self)@) ==> task::placed(final(self)@),
    {
        let ghost q = self@;
        let mut rest: VecDeque<Task> = self.take_input_waiters();
        let ghost all = rest@;
        let ghost q1 = self@;
        let n: usize = rest.len();
        let mut i: usize = 0;
        proof {
            let p = |t: Task| t.pending == Pending::WaitRead;
            assert forall|k: int| #![trigger all[k]] 0 <= k < all.len() implies wakeable(
                old(mem)@,
                all[k],
            ) by {
                q.sleep.lemma_filter_pred(p, k);
                assert(q.sleep.filter(p).contains(all[k]));
                q.sleep.lemma_filter_contains_rev(p, all[k]);
                let j = choose|j: int| 0 <= j < q.sleep.len() && q.sleep[j] == all[k];
                assert(wakeable(old(mem)@, q.sleep[j]));
            }
            assert(q1.ready =~= q.ready + all.subrange(0, 0).map_values(|t: Task| woken(t)));
        }
        while i < n
            invariant
                i <= n,
                n == all.len(),
                rest@ == all.subrange(i as int, n as int),
                q == old(self)@,
                q1 == (Queues { sleep: task::not_readers(q.sleep), ..q }),
                forall|k: int|
                    #![trigger all[k]]
                    0 <= k < all.len() ==> wakeable(old(mem)@, all[k]),
                mem.wf(),
                mem.start() == old(mem).start(),
                mem.end() == old(mem).end(),
                mem@.dom() == old(mem)@.dom(),
                mem@ == wake_all_memory(old(mem)@, all.subrange(0, i as int)),
                self@ == (Queues {
                    ready: q.ready + all.subrange(0, i as int).map_values(|t: Task| woken(t)),
                    ..q1
                }),
            decreases n - i,
        {
            match rest.pop_front() {
                Some(t) => {
                    proof {
                        assert(t == all[i as int]);
                        assert(rest@ =~= all.subrange(i + 1, n as int));
                        let next = all.subrange(0, i + 1);
                        assert(next.drop_last() =~= all.subrange(0, i as int));
                        assert(next.last() == t);
                    }
                    let up: Task = wake_task(t, mem);
                    self.push_ready(up);
                    assert(self@.ready =~= q.ready + all.subrange(0, i + 1).map_values(
                        |t: Task| woken(t),
                    ));
                },
                None => {
                    assert(false);
                },
            }
            i += 1;
        }
        proof {
            assert(all.subrange(0, n as int) =~= all);
            if task::placed(q) {
                let p = |t: Task| t.pending != Pending::WaitRead;
                assert forall|k: int| 0 <= k < self@.sleep.len() implies (
                #[trigger] self@.sleep[k]).state == TaskState::Blocked by {
                    let t = self@.sleep[k];
                    assert(q.sleep.filter(p).contains(t));
                    q.sleep.lemma_filter_contains_rev(p, t);
                    let j = choose|j: int| 0 <= j < q.sleep.len() && q.sleep[j] == t;
                    assert(q.sleep[j].state == TaskState::Blocked);
                }
            }
        }
    }
}

} // verus!
