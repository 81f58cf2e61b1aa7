//! Tasks and the queues that hold them.
use vstd::prelude::*;
use std::collections::VecDeque;
use crate::memory::space::AddressSpace;
use crate::task::{Holdings, TaskKind};

verus! {

/// What a task does, which is also where it is.
#[derive(Clone, Copy, PartialEq, Eq, Structural, Debug)]
pub enum TaskState {
    /// In the ready queue.
    Ready,
    /// Among the sleepers; not scheduled before its wake-up time.
    Blocked,
    /// Among the zombies; given back at the next scheduling.
    Zombie,
    /// The current task.
    Running,
    /// The current task when no task was ready.
    Idle,
}

/// Where the running task goes at the next tick.
#[derive(Clone, Copy, PartialEq, Eq, Structural, Debug)]
pub enum Pending {
    /// To the back of the ready queue.
    Rerun,
    /// To the sleepers, or straight to the ready queue if its time has come.
    Park,
    /// To the zombies.
    Reap,
}

/// A task.
pub struct Task {
    pub id: u64,
    pub state: TaskState,
    /// Where the task goes at the next tick, while it runs.
    pub pending: Pending,
    pub kind: TaskKind,
    /// Address of the saved registers, in the task's address space.
    pub frame: u64,
    pub held: Holdings,
    /// When a blocked task wakes up.
    pub wake_tick: u64,
    /// Where a woken task goes on.
    pub resume_sepc: u64,
}

/// All tasks.
pub struct Scheduler {
    /// The ready tasks, the next one first.
    pub ready: VecDeque<Task>,
    /// The blocked tasks.
    pub sleep: VecDeque<Task>,
    /// The tasks that have ended and were not given back yet.
    pub zombie: VecDeque<Task>,
    /// The running task; before the first scheduling there is none.
    pub current: Option<Task>,
    /// The id of the next task.
    pub next_id: u64,
}

/// All tasks, by where they are.
#[verifier::ext_equal]
pub struct Queues {
    pub ready: Seq<Task>,
    pub sleep: Seq<Task>,
    pub zombie: Seq<Task>,
    pub current: Option<Task>,
}

/// Every task of the sequence is in the state.
pub open spec fn all_in(s: Seq<Task>, state: TaskState) -> bool {
    forall|i: int| 0 <= i < s.len() ==> (#[trigger] s[i]).state == state
}

/// The state of every task matches where it is.
pub open spec fn placed(q: Queues) -> bool {
    &&& all_in(q.ready, TaskState::Ready)
    &&& all_in(q.sleep, TaskState::Blocked)
    &&& all_in(q.zombie, TaskState::Zombie)
    &&& q.current matches Some(t) ==> t.state == TaskState::Running || t.state == TaskState::Idle
}

impl View for Scheduler {
    type V = Queues;

    open spec fn view(&self) -> Queues {
        Queues {
            ready: self.ready@,
            sleep: self.sleep@,
            zombie: self.zombie@,
            current: self.current,
        }
    }
}

impl Scheduler {
    /// A scheduler without tasks.
    pub fn new() -> (r: Scheduler)
        ensures
            r@ == (Queues {
                ready: Seq::empty(),
                sleep: Seq::empty(),
                zombie: Seq::empty(),
                current: None,
            }),
            r.next_id == 0,
            placed(r@),
    {
        Scheduler {
            ready: VecDeque::new(),
            sleep: VecDeque::new(),
            zombie: VecDeque::new(),
            current: None,
            next_id: 0,
        }
    }

    /// The address space of the running task; `None` means the kernel's.
    pub fn current_space(&self) -> (r: Option<&AddressSpace>)
        ensures
            match self.current {
                Some(t) => match t.held.space {
                    Some(s) => r == Some(&s),
                    None => r is None,
                },
                None => r is None,
            },
    {
        match &self.current {
            Some(t) => t.held.space.as_ref(),
            None => None,
        }
    }

    /// The id of the running task, or the largest number if there is none.
    pub fn current_id(&self) -> (r: u64)
        ensures
            r == (match self.current {
                Some(t) => t.id,
                None => u64::MAX,
            }),
    {
        match &self.current {
            Some(t) => t.id,
            None => u64::MAX,
        }
    }

    /// Whether a user task is running, so that an exception ends the task and not the system.
    pub fn current_is_umode(&self) -> (r: bool)
        ensures
            r == (self.current matches Some(t) && t.kind == TaskKind::UMode),
    {
        match &self.current {
            Some(t) => t.kind == TaskKind::UMode,
            None => false,
        }
    }
}

} // verus!
