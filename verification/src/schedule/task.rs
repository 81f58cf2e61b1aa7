//! Tasks and the table that holds them.
use vstd::prelude::*;
use std::collections::VecDeque;
use crate::memory::space::AddressSpace;
use crate::task::{Holdings, TaskKind};

verus! {

/// What a task does, which is also where it is.
#[derive(Clone, Copy, PartialEq, Eq, Structural, Debug)]
pub enum TaskState {
    /// In the ready queue.
    Ready,
    /// Among the sleepers.
    Blocked,
    /// Among the zombies.
    Zombie,
    /// The current task.
    Running,
    /// The current task when no task was ready.
    Idle,
}

/// Where the running task goes at the next tick.
#[derive(Clone, Copy, PartialEq, Eq, Structural, Debug)]
pub enum Pending {
    /// To the back of the ready queue.
    Rerun,
    /// To the sleepers, until its wake-up time.
    Park,
    /// To the sleepers, until the task with the id has ended.
    Wait(u64),
    /// To the sleepers, until input arrives.
    WaitRead,
    /// To the zombies.
    Reap,
}

/// What a task that waited for another one is told.
#[derive(Clone, Copy, PartialEq, Eq, Structural, Debug)]
pub enum WaitResult {
    /// Nothing yet.
    Pending,
    /// The other task ended with the exit code.
    Exited(i32),
    /// The other task was killed.
    Killed,
}

/// A task.
pub struct Task {
    pub id: u64,
    /// The id of the task that created this one; tasks created at boot have no parent.
    pub parent: Option<u64>,
    pub state: TaskState,
    /// Where the task goes at the next tick, while it runs.
    pub pending: Pending,
    pub kind: TaskKind,
    /// Address of the saved registers, in the task's address space.
    pub frame: u64,
    pub held: Holdings,
    /// When a blocked task wakes up; the largest time for a task that waits for an event.
    pub wake_tick: u64,
    /// Where a woken task goes on; zero keeps the saved program counter.
    pub resume_sepc: u64,
    /// The exit code of a task that has ended, until it was collected.
    pub exit_code: Option<i32>,
    /// The id of the task that this one waits for.
    pub wait_pid: Option<u64>,
    /// What the wait has brought.
    pub wait_result: WaitResult,
}

/// All tasks.
pub struct TaskTable {
    ready: VecDeque<Task>,
    sleep: VecDeque<Task>,
    zombie: VecDeque<Task>,
    current: Option<Task>,
}

/// All tasks, by where they are.
#[verifier::ext_equal]
pub struct Queues {
    /// The ready tasks, the next one first.
    pub ready: Seq<Task>,
    /// The blocked tasks.
    pub sleep: Seq<Task>,
    /// The tasks that have ended and were not given back yet.
    pub zombie: Seq<Task>,
    /// The running task.
    pub current: Option<Task>,
}

/// Every task of the sequence is in the state.
pub open spec fn all_in(s: Seq<Task>, state: TaskState) -> bool {
    forall|i: int| 0 <= i < s.len() ==> (#[trigger] s[i]).state == state
}

/// The state of every task matches where it is.
pub open spec fn placed(q: Queues) -> bool {
    &&& all_in(q.ready, TaskState::Ready)
    &&& all_in(q.sleep, TaskState::Blocked)
    &&& all_in(q.zombie, TaskState::Zombie)
    &&& q.current matches Some(t) ==> t.state == TaskState::Running || t.state == TaskState::Idle
}

/// Position of the first task that meets the condition; the length if none does.
pub open spec fn first_at(s: Seq<Task>, p: spec_fn(Task) -> bool) -> int
    decreases s.len(),
{
    if s.len() == 0 {
        0
    } else {
        let k = first_at(s.drop_last(), p);
        if k < s.len() - 1 || p(s.last()) {
            k
        } else {
            s.len() as int
        }
    }
}

/// What `first_at` says: no task before the position meets the condition, and the task at the
/// position does.
pub proof fn lemma_first_at(s: Seq<Task>, p: spec_fn(Task) -> bool)
    ensures
        0 <= first_at(s, p) <= s.len(),
        first_at(s, p) < s.len() ==> p(s[first_at(s, p)]),
        forall|j: int| 0 <= j < first_at(s, p) ==> !p(#[trigger] s[j]),
    decreases s.len(),
{
    if s.len() > 0 {
        lemma_first_at(s.drop_last(), p);
        let k = first_at(s.drop_last(), p);
        assert forall|j: int| 0 <= j < first_at(s, p) implies !p(#[trigger] s[j]) by {
            if j < s.len() - 1 {
                assert(s.drop_last()[j] == s[j]);
            }
        }
    }
}

/// The first task that meets the condition.
pub open spec fn first_of(s: Seq<Task>, p: spec_fn(Task) -> bool) -> Option<Task> {
    if first_at(s, p) < s.len() {
        Some(s[first_at(s, p)])
    } else {
        None
    }
}

/// The tasks without the first one that meets the condition, in order.
pub open spec fn without_first(s: Seq<Task>, p: spec_fn(Task) -> bool) -> Seq<Task> {
    if first_at(s, p) < s.len() {
        s.remove(first_at(s, p))
    } else {
        s
    }
}

/// A task of the sequence meets the condition.
pub open spec fn some_of(s: Seq<Task>, p: spec_fn(Task) -> bool) -> bool {
    exists|i: int| 0 <= i < s.len() && p(#[trigger] s[i])
}

/// The task has the id.
pub open spec fn has_id(id: u64) -> spec_fn(Task) -> bool {
    |t: Task| t.id == id
}

/// The task waits for the end of the task with the id.
pub open spec fn waits_for(id: u64) -> spec_fn(Task) -> bool {
    |t: Task| t.wait_pid == Some(id)
}

/// The sleepers whose time has come.
pub open spec fn due(s: Seq<Task>, now: u64) -> Seq<Task> {
    s.filter(|t: Task| t.wake_tick <= now)
}

/// The sleepers whose time has not come.
pub open spec fn not_due(s: Seq<Task>, now: u64) -> Seq<Task> {
    s.filter(|t: Task| t.wake_tick > now)
}

/// The sleepers that wait for input.
pub open spec fn readers(s: Seq<Task>) -> Seq<Task> {
    s.filter(|t: Task| t.pending == Pending::WaitRead)
}

/// The sleepers that do not wait for input.
pub open spec fn not_readers(s: Seq<Task>) -> Seq<Task> {
    s.filter(|t: Task| t.pending != Pending::WaitRead)
}

/// Takes the first task with the id out of the queue; the others keep their order.
fn take_id(q: &mut VecDeque<Task>, id: u64) -> (r: Option<Task>)
    ensures
        r == first_of(old(q)@, has_id(id)),
        final(q)@ == without_first(old(q)@, has_id(id)),
{
    let ghost s = q@;
    let n: usize = q.len();
    let mut i: usize = 0;
    while i < n
        invariant
            i <= n,
            n == s.len(),
            q@ == s,
            s == old(q)@,
            forall|j: int| 0 <= j < i ==> (#[trigger] s[j]).id != id,
        decreases n - i,
    {
        if q[i].id == id {
            proof {
                lemma_first_at(s, has_id(id));
                let k = first_at(s, has_id(id));
                if k < i {
                    assert(s[k].id == id);
                }
                if k > i {
                    assert(!has_id(id)(s[i as int]));
                }
            }
            return q.remove(i);
        }
        i += 1;
    }
    proof {
        lemma_first_at(s, has_id(id));
        let k = first_at(s, has_id(id));
        if k < s.len() {
            assert(s[k].id == id);
        }
    }
    None
}

/// Takes the first task that waits for the end of task `id` out of the queue; the others keep their
/// order.
fn take_waiting(q: &mut VecDeque<Task>, id: u64) -> (r: Option<Task>)
    ensures
        r == first_of(old(q)@, waits_for(id)),
        final(q)@ == without_first(old(q)@, waits_for(id)),
{
    let ghost s = q@;
    let n: usize = q.len();
    let mut i: usize = 0;
    while i < n
        invariant
            i <= n,
            n == s.len(),
            q@ == s,
            s == old(q)@,
            forall|j: int| 0 <= j < i ==> (#[trigger] s[j]).wait_pid != Some(id),
        decreases n - i,
    {
        let waits: bool = match q[i].wait_pid {
            Some(p) => p == id,
            None => false,
        };
        if waits {
            proof {
                lemma_first_at(s, waits_for(id));
                let k = first_at(s, waits_for(id));
                if k < i {
                    assert(s[k].wait_pid == Some(id));
                }
                if k > i {
                    assert(!waits_for(id)(s[i as int]));
                }
            }
            return q.remove(i);
        }
        i += 1;
    }
    proof {
        lemma_first_at(s, waits_for(id));
        let k = first_at(s, waits_for(id));
        if k < s.len() {
            assert(s[k].wait_pid == Some(id));
        }
    }
    None
}

/// Whether a task of the queue has the id.
fn any_id(q: &VecDeque<Task>, id: u64) -> (r: bool)
    ensures
        r == some_of(q@, has_id(id)),
{
    let n: usize = q.len();
    let mut i: usize = 0;
    while i < n
        invariant
            i <= n,
            n == q@.len(),
            forall|j: int| 0 <= j < i ==> (#[trigger] q@[j]).id != id,
        decreases n - i,
    {
        if q[i].id == id {
            assert(has_id(id)(q@[i as int]));
            return true;
        }
        i += 1;
    }
    false
}

impl View for TaskTable {
    type V = Queues;

    closed spec fn view(&self) -> Queues {
        Queues {
            ready: self.ready@,
            sleep: self.sleep@,
            zombie: self.zombie@,
            current: self.current,
        }
    }
}

/// Where a task with the id is found first: among the ready tasks, the sleepers or the zombies.
pub open spec fn found(q: Queues, id: u64) -> Option<Task> {
    match first_of(q.ready, has_id(id)) {
        Some(t) => Some(t),
        None => match first_of(q.sleep, has_id(id)) {
            Some(t) => Some(t),
            None => first_of(q.zombie, has_id(id)),
        },
    }
}

/// The queues without the task that was found.
pub open spec fn without_found(q: Queues, id: u64) -> Queues {
    if first_of(q.ready, has_id(id)) is Some {
        Queues { ready: without_first(q.ready, has_id(id)), ..q }
    } else if first_of(q.sleep, has_id(id)) is Some {
        Queues { sleep: without_first(q.sleep, has_id(id)), ..q }
    } else {
        Queues { zombie: without_first(q.zombie, has_id(id)), ..q }
    }
}

/// The task with the id runs, is ready or sleeps. Zombies are not alive.
pub open spec fn is_alive(q: Queues, id: u64) -> bool {
    ||| q.current matches Some(t) && t.id == id
    ||| some_of(q.ready, has_id(id))
    ||| some_of(q.sleep, has_id(id))
}

impl TaskTable {
    /// A table without tasks.
    pub fn new() -> (r: TaskTable)
        ensures
            r@ == (Queues {
                ready: Seq::empty(),
                sleep: Seq::empty(),
                zombie: Seq::empty(),
                current: None,
            }),
            placed(r@),
    {
        TaskTable {
            ready: VecDeque::new(),
            sleep: VecDeque::new(),
            zombie: VecDeque::new(),
            current: None,
        }
    }

    /// Appends a task to the ready queue.
    pub fn push_ready(&mut self, t: Task)
        ensures
            final(self)@ == (Queues { ready: old(self)@.ready.push(t), ..old(self)@ }),
    {
        self.ready.push_back(t);
    }

    /// Takes the first ready task.
    pub fn pop_ready(&mut self) -> (r: Option<Task>)
        ensures
            if old(self)@.ready.len() > 0 {
                r == Some(old(self)@.ready[0]) && final(self)@ == (Queues {
                    ready: old(self)@.ready.drop_first(),
                    ..old(self)@
                })
            } else {
                r is None && final(self)@ == old(self)@
            },
    {
        let r: Option<Task> = self.ready.pop_front();
        assert(old(self)@.ready.len() > 0 ==> self@.ready =~= old(self)@.ready.drop_first());
        r
    }

    /// Appends a task to the sleepers.
    pub fn push_sleep(&mut self, t: Task)
        ensures
            final(self)@ == (Queues { sleep: old(self)@.sleep.push(t), ..old(self)@ }),
    {
        self.sleep.push_back(t);
    }

    /// Moves the sleepers whose time has come to `ripe`; both parts keep their order. A task that
    /// waits for an event has the largest time and stays.
    pub fn pop_due_sleepers(&mut self, now: u64, ripe: &mut Vec<Task>)
        ensures
            final(ripe)@ == old(ripe)@ + due(old(self)@.sleep, now),
            final(self)@ == (Queues { sleep: not_due(old(self)@.sleep, now), ..old(self)@ }),
    {
        let ghost all = self.sleep@;
        let n: usize = self.sleep.len();
        let mut rest: VecDeque<Task> = VecDeque::new();
        std::mem::swap(&mut rest, &mut self.sleep);
        let mut i: usize = 0;
        proof {
            reveal(Seq::filter);
            assert(all.subrange(0, 0).len() == 0);
            assert(ripe@ =~= old(ripe)@ + due(all.subrange(0, 0), now));
        }
        while i < n
            invariant
                i <= n,
                n == all.len(),
                rest@ == all.subrange(i as int, n as int),
                ripe@ == old(ripe)@ + due(all.subrange(0, i as int), now),
                self.sleep@ == not_due(all.subrange(0, i as int), now),
                self.ready@ == old(self)@.ready,
                self.zombie@ == old(self)@.zombie,
                self.current == old(self)@.current,
            decreases n - i,
        {
            match rest.pop_front() {
                Some(t) => {
                    proof {
                        reveal(Seq::filter);
                        let next = all.subrange(0, i + 1);
                        assert(next.drop_last() =~= all.subrange(0, i as int));
                        assert(next.last() == t);
                        assert(rest@ =~= all.subrange(i + 1, n as int));
                    }
                    if t.wake_tick <= now {
                        ripe.push(t);
                        assert(ripe@ =~= old(ripe)@ + due(all.subrange(0, i + 1), now));
                    } else {
                        self.sleep.push_back(t);
                    }
                },
                None => {
                    assert(false);
                },
            }
            i += 1;
        }
        proof {
            assert(all.subrange(0, n as int) =~= all);
        }
    }

    /// Appends a task to the zombies.
    pub fn push_zombie(&mut self, t: Task)
        ensures
            final(self)@ == (Queues { zombie: old(self)@.zombie.push(t), ..old(self)@ }),
    {
        self.zombie.push_back(t);
    }

    /// Takes all zombies.
    pub fn take_zombies(&mut self) -> (r: VecDeque<Task>)
        ensures
            r@ == old(self)@.zombie,
            final(self)@ == (Queues { zombie: Seq::empty(), ..old(self)@ }),
    {
        let mut r: VecDeque<Task> = VecDeque::new();
        std::mem::swap(&mut r, &mut self.zombie);
        r
    }

    /// Takes the first zombie with the id; the others keep their order.
    pub fn take_zombie(&mut self, id: u64) -> (r: Option<Task>)
        ensures
            r == first_of(old(self)@.zombie, has_id(id)),
            final(self)@ == (Queues {
                zombie: without_first(old(self)@.zombie, has_id(id)),
                ..old(self)@
            }),
    {
        take_id(&mut self.zombie, id)
    }

    /// Takes the first sleeper that waits for the end of task `child_id`.
    pub fn take_sleeper_waiting(&mut self, child_id: u64) -> (r: Option<Task>)
        ensures
            r == first_of(old(self)@.sleep, waits_for(child_id)),
            final(self)@ == (Queues {
                sleep: without_first(old(self)@.sleep, waits_for(child_id)),
                ..old(self)@
            }),
    {
        take_waiting(&mut self.sleep, child_id)
    }

    /// Takes the sleepers that wait for input; both parts keep their order.
    pub fn take_input_waiters(&mut self) -> (r: VecDeque<Task>)
        ensures
            r@ == readers(old(self)@.sleep),
            final(self)@ == (Queues { sleep: not_readers(old(self)@.sleep), ..old(self)@ }),
    {
        let ghost all = self.sleep@;
        let n: usize = self.sleep.len();
        let mut rest: VecDeque<Task> = VecDeque::new();
        std::mem::swap(&mut rest, &mut self.sleep);
        let mut r: VecDeque<Task> = VecDeque::new();
        let mut i: usize = 0;
        proof {
            reveal(Seq::filter);
            assert(all.subrange(0, 0).len() == 0);
        }
        while i < n
            invariant
                i <= n,
                n == all.len(),
                rest@ == all.subrange(i as int, n as int),
                r@ == readers(all.subrange(0, i as int)),
                self.sleep@ == not_readers(all.subrange(0, i as int)),
                self.ready@ == old(self)@.ready,
                self.zombie@ == old(self)@.zombie,
                self.current == old(self)@.current,
            decreases n - i,
        {
            match rest.pop_front() {
                Some(t) => {
                    proof {
                        reveal(Seq::filter);
                        let next = all.subrange(0, i + 1);
                        assert(next.drop_last() =~= all.subrange(0, i as int));
                        assert(next.last() == t);
                        assert(rest@ =~= all.subrange(i + 1, n as int));
                    }
                    if t.pending == Pending::WaitRead {
                        r.push_back(t);
                    } else {
                        self.sleep.push_back(t);
                    }
                },
                None => {
                    assert(false);
                },
            }
            i += 1;
        }
        proof {
            assert(all.subrange(0, n as int) =~= all);
        }
        r
    }

    /// Takes the first task with the id that is ready, sleeps or is a zombie. The running task is
    /// never taken.
    pub fn take(&mut self, id: u64) -> (r: Option<Task>)
        ensures
            r == found(old(self)@, id),
            final(self)@ == without_found(old(self)@, id),
    {
        match take_id(&mut self.ready, id) {
            Some(t) => {
                return Some(t);
            },
            None => {},
        }
        match take_id(&mut self.sleep, id) {
            Some(t) => {
                return Some(t);
            },
            None => {},
        }
        take_id(&mut self.zombie, id)
    }

    /// The running task.
    pub fn current(&self) -> (r: Option<&Task>)
        ensures
            match self@.current {
                Some(t) => r == Some(&t),
                None => r is None,
            },
    {
        self.current.as_ref()
    }

    /// Takes the running task.
    pub fn take_current(&mut self) -> (r: Option<Task>)
        ensures
            r == old(self)@.current,
            final(self)@ == (Queues { current: None, ..old(self)@ }),
    {
        self.current.take()
    }

    /// Makes a task the running one.
    pub fn replace_current(&mut self, t: Task)
        ensures
            final(self)@ == (Queues { current: Some(t), ..old(self)@ }),
    {
        self.current = Some(t);
    }

    /// Whether no task is ready, sleeps or is a zombie.
    pub fn is_empty(&self) -> (r: bool)
        ensures
            r == (self@.ready.len() == 0 && self@.sleep.len() == 0 && self@.zombie.len() == 0),
    {
        self.ready.len() == 0 && self.sleep.len() == 0 && self.zombie.len() == 0
    }

    /// Whether the task with the id runs, is ready or sleeps. A zombie does not count, so that two
    /// zombies never keep each other.
    pub fn alive(&self, id: u64) -> (r: bool)
        ensures
            r == is_alive(self@, id),
    {
        let runs: bool = match &self.current {
            Some(t) => t.id == id,
            None => false,
        };
        runs || any_id(&self.ready, id) || any_id(&self.sleep, id)
    }

    /// The address space of the running task; `None` means the kernel's.
    pub fn current_space(&self) -> (r: Option<&AddressSpace>)
        ensures
            match self@.current {
                Some(t) => match t.held.space {
                    Some(s) => r == Some(&s),
                    None => r is None,
                },
                None => r is None,
            },
    {
        match &self.current {
            Some(t) => t.held.space.as_ref(),
            None => None,
        }
    }

    /// The id of the running task, or the largest number if there is none.
    pub fn current_id(&self) -> (r: u64)
        ensures
            r == (match self@.current {
                Some(t) => t.id,
                None => u64::MAX,
            }),
    {
        match &self.current {
            Some(t) => t.id,
            None => u64::MAX,
        }
    }

    /// Whether a user task is running, so that an exception ends the task and not the system.
    pub fn current_is_umode(&self) -> (r: bool)
        ensures
            r == (self@.current matches Some(t) && t.kind == TaskKind::UMode),
    {
        match &self.current {
            Some(t) => t.kind == TaskKind::UMode,
            None => false,
        }
    }
}

} // verus!
