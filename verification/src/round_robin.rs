//! The first scheduler: round robin with a saved idle task.
//!
//! The state of the running task says where it goes at the next tick. The idle task is the boot
//! code: the frame in which it was first interrupted is kept, and restored when no task is ready.
use vstd::prelude::*;
use std::collections::VecDeque;
use crate::memory::moved;
use crate::memory::phys;
use crate::memory::phys::PhysMem;
use crate::memory::prune;
use crate::memory::space::AddressSpace;
use crate::memory::sv39;
use crate::memory::table::MapError;
use crate::mmu::frames::PageFrameAllocator;
use crate::order;
use crate::task;
use crate::task::{
    deadline,
    reclaim_all,
    set_sepc,
    start,
    start_in_clone,
    Holdings,
    TaskKind,
    TASK_FRAME,
    TASK_STACK_SIZE,
};

verus! {

/// Where a task goes at the next scheduling.
#[derive(Clone, Copy, PartialEq, Eq, Structural, Debug)]
pub enum TaskState {
    /// To the back of the ready queue.
    Ready,
    /// To the sleepers, until its wake-up time.
    Blocked,
    /// To the zombies.
    Zombie,
}

/// A task.
pub struct Task {
    pub id: u64,
    pub state: TaskState,
    pub kind: TaskKind,
    /// Address of the saved registers, in the task's address space.
    pub frame: u64,
    pub held: Holdings,
    /// When a blocked task wakes up.
    pub wake_tick: u64,
    /// Where a woken task goes on.
    pub resume_sepc: u64,
}

/// All tasks.
pub struct RoundRobin {
    /// The ready tasks, the next one first.
    pub ready: VecDeque<Task>,
    /// The blocked tasks.
    pub sleep: VecDeque<Task>,
    /// The tasks that have ended and were not given back yet.
    pub zombie: VecDeque<Task>,
    /// The running task; before the first scheduling there is none.
    pub current: Option<Task>,
    /// The frame of the idle task, once it was interrupted.
    pub idle: Option<u64>,
    /// The id of the next task.
    pub next_id: u64,
}

/// All tasks, by where they are.
#[verifier::ext_equal]
pub struct Queues {
    pub ready: Seq<Task>,
    pub sleep: Seq<Task>,
    pub zombie: Seq<Task>,
    pub current: Option<Task>,
    pub idle: Option<u64>,
}

impl View for RoundRobin {
    type V = Queues;

    open spec fn view(&self) -> Queues {
        Queues {
            ready: self.ready@,
            sleep: self.sleep@,
            zombie: self.zombie@,
            current: self.current,
            idle: self.idle,
        }
    }
}

/// The idle task with the frame in which it was first interrupted.
pub open spec fn idle_task(frame: u64) -> Task {
    Task {
        id: 0,
        state: TaskState::Ready,
        kind: TaskKind::SMode,
        frame,
        held: Holdings { space: None, stack: None, stack_size: 0 },
        wake_tick: 0,
        resume_sepc: 0,
    }
}

/// Once a task has run, the idle task is known.
pub open spec fn booted(q: Queues) -> bool {
    q.current is Some ==> q.idle is Some
}

/// The task after it was woken.
pub open spec fn woken(t: Task) -> Task {
    Task { state: TaskState::Ready, ..t }
}

/// Memory after the task was woken: it goes on at its resume point.
pub open spec fn wake_memory(m: Map<int, u64>, t: Task) -> Map<int, u64> {
    m.insert(task::frame_at(t.held, t.frame) + 248, t.resume_sepc)
}

/// The queues after the running task went where it has to go.
///
/// The idle task, recognised by its frame, goes nowhere. When no task was running the boot code was
/// interrupted for the first time: it becomes the idle task.
pub open spec fn settled(q: Queues, frame: u64, now: u64) -> Queues {
    if q.idle == Some(frame) {
        q
    } else {
        match q.current {
            Some(c) => {
                let t = Task { frame, ..c };
                let gone = Queues { current: None, ..q };
                match t.state {
                    TaskState::Zombie => Queues { zombie: q.zombie.push(t), ..gone },
                    TaskState::Blocked => if t.wake_tick <= now {
                        Queues { ready: q.ready.push(woken(t)), ..gone }
                    } else {
                        Queues { sleep: q.sleep.push(t), ..gone }
                    },
                    TaskState::Ready => Queues { ready: q.ready.push(t), ..gone },
                }
            },
            None => Queues { idle: Some(frame), current: Some(idle_task(frame)), ..q },
        }
    }
}

/// The running task is woken at once: it asked to sleep, and its time has come.
pub open spec fn wakes_at_once(q: Queues, frame: u64, now: u64) -> bool {
    q.idle != Some(frame) && (q.current matches Some(c) && c.state == TaskState::Blocked
        && c.wake_tick <= now)
}

/// Memory after the running task went where it has to go.
pub open spec fn settled_memory(m: Map<int, u64>, q: Queues, frame: u64, now: u64) -> Map<int, u64> {
    if wakes_at_once(q, frame, now) {
        wake_memory(m, Task { frame, ..q.current->0 })
    } else {
        m
    }
}

/// The sleepers whose time has come.
pub open spec fn due(s: Seq<Task>, now: u64) -> Seq<Task> {
    s.filter(|t: Task| t.wake_tick <= now)
}

/// The sleepers whose time has not come.
pub open spec fn not_due(s: Seq<Task>, now: u64) -> Seq<Task> {
    s.filter(|t: Task| t.wake_tick > now)
}

/// The queues after the due sleepers were woken, in the order in which they slept.
pub open spec fn roused(q: Queues, now: u64) -> Queues {
    Queues {
        ready: q.ready + due(q.sleep, now).map_values(|t: Task| woken(t)),
        sleep: not_due(q.sleep, now),
        ..q
    }
}

/// Memory after the tasks were woken in order.
pub open spec fn roused_memory(m: Map<int, u64>, ts: Seq<Task>) -> Map<int, u64>
    decreases ts.len(),
{
    if ts.len() == 0 {
        m
    } else {
        wake_memory(roused_memory(m, ts.drop_last()), ts.last())
    }
}

/// The queues after the first ready task, or else the idle task, became the running one.
pub open spec fn chosen(q: Queues) -> Queues {
    if q.ready.len() > 0 {
        Queues {
            ready: q.ready.drop_first(),
            current: Some(Task { state: TaskState::Ready, ..q.ready[0] }),
            ..q
        }
    } else {
        Queues { current: Some(idle_task(q.idle->0)), ..q }
    }
}

/// The queues after a scheduling step.
pub open spec fn stepped(q: Queues, frame: u64, now: u64) -> Queues {
    chosen(roused(settled(q, frame, now), now))
}

/// Memory after a scheduling step.
pub open spec fn stepped_memory(m: Map<int, u64>, q: Queues, frame: u64, now: u64) -> Map<int, u64> {
    roused_memory(settled_memory(m, q, frame, now), due(settled(q, frame, now).sleep, now))
}

/// The step can be taken: the frames that it writes are in memory.
pub open spec fn steppable(m: Map<int, u64>, q: Queues, frame: u64, now: u64) -> bool {
    &&& wakes_at_once(q, frame, now) ==> task::reachable(m, q.current->0.held, frame)
    &&& forall|i: int|
        #![trigger q.sleep[i]]
        0 <= i < q.sleep.len() && q.sleep[i].wake_tick <= now ==> task::reachable(
            m,
            q.sleep[i].held,
            q.sleep[i].frame,
        )
}

/// What the tasks own, in order.
pub open spec fn holdings(s: Seq<Task>) -> Seq<Holdings> {
    s.map_values(|t: Task| t.held)
}

/// Memory after the scheduler ran: the zombies' tables may hold anything, and then the step was
/// taken.
pub open spec fn reclaimed_and_stepped(
    m: Map<int, u64>,
    m2: Map<int, u64>,
    q: Queues,
    frame: u64,
    now: u64,
) -> bool {
    exists|m1: Map<int, u64>| #[trigger]
        phys::same_outside(m, m1, task::tables_of_all(m, holdings(q.zombie))) && m2
            == stepped_memory(m1, (Queues { zombie: Seq::empty(), ..q }), frame, now)
}

/// What the scheduler hands to the trap code.
#[derive(Clone, Copy, PartialEq, Eq, Structural, Debug)]
pub struct Dispatch {
    /// The frame to restore.
    pub frame: u64,
    /// The page number of the root table to switch to.
    pub root: u64,
}

/// The frame and the root table of the running task.
pub open spec fn dispatch_of(q: Queues, kernel_root: u64) -> Dispatch {
    let t = q.current->0;
    Dispatch {
        frame: t.frame,
        root: match t.held.space {
            Some(s) => (s.root() / 4096) as u64,
            None => kernel_root,
        },
    }
}

/// The idle task with the frame in which it was first interrupted.
fn idle_snapshot(frame: u64) -> (r: Task)
    ensures
        r == idle_task(frame),
{
    Task {
        id: 0,
        state: TaskState::Ready,
        kind: TaskKind::SMode,
        frame,
        held: Holdings { space: None, stack: None, stack_size: 0 },
        wake_tick: 0,
        resume_sepc: 0,
    }
}

/// The running task after it asked to end.
pub open spec fn ending(c: Option<Task>) -> Option<Task> {
    match c {
        Some(t) => Some(Task { state: TaskState::Zombie, ..t }),
        None => None,
    }
}

/// Wakes a task.
pub fn wake_task(t: Task, mem: &mut PhysMem) -> (r: Task)
    requires
        old(mem).wf(),
        task::reachable(old(mem)@, t.held, t.frame),
    ensures
        r == woken(t),
        final(mem).wf(),
        final(mem).start() == old(mem).start(),
        final(mem).end() == old(mem).end(),
        final(mem)@ == wake_memory(old(mem)@, t),
        final(mem)@.dom() == old(mem)@.dom(),
{
    set_sepc(mem, &t.held, t.frame, t.resume_sepc);
    Task { state: TaskState::Ready, ..t }
}

/// Splits the sleepers into those whose time has come and the others; both keep their order.
fn split_due(list: VecDeque<Task>, now: u64) -> (r: (VecDeque<Task>, VecDeque<Task>))
    ensures
        r.0@ == due(list@, now),
        r.1@ == not_due(list@, now),
{
    let ghost all = list@;
    let n: usize = list.len();
    let mut rest = list;
    let mut ripe: VecDeque<Task> = VecDeque::new();
    let mut kept: VecDeque<Task> = VecDeque::new();
    let mut i: usize = 0;
    proof {
        reveal(Seq::filter);
        assert(all.subrange(0, 0).len() == 0);
        assert(all.subrange(0, n as int) =~= all);
    }
    while i < n
        invariant
            i <= n,
            n == all.len(),
            rest@ == all.subrange(i as int, n as int),
            ripe@ == due(all.subrange(0, i as int), now),
            kept@ == not_due(all.subrange(0, i as int), now),
        decreases n - i,
    {
        match rest.pop_front() {
            Some(t) => {
                proof {
                    reveal(Seq::filter);
                    let next = all.subrange(0, i + 1);
                    assert(next.drop_last() =~= all.subrange(0, i as int));
                    assert(next.last() == t);
                    assert(rest@ =~= all.subrange(i + 1, n as int));
                }
                if t.wake_tick <= now {
                    ripe.push_back(t);
                } else {
                    kept.push_back(t);
                }
            },
            None => {
                assert(false);
            },
        }
        i += 1;
    }
    proof {
        assert(all.subrange(0, n as int) =~= all);
    }
    (ripe, kept)
}

/// A due sleeper is a sleeper whose time has come.
proof fn lemma_due(s: Seq<Task>, now: u64, i: int)
    requires
        0 <= i < due(s, now).len(),
    ensures
        due(s, now)[i].wake_tick <= now,
        s.contains(due(s, now)[i]),
{
    let p = |t: Task| t.wake_tick <= now;
    s.lemma_filter_pred(p, i);
    assert(s.filter(p).contains(s.filter(p)[i]));
    s.lemma_filter_contains_rev(p, s.filter(p)[i]);
}

/// What the zombies own.
fn take_holdings(list: VecDeque<Task>) -> (r: VecDeque<Holdings>)
    ensures
        r@ == holdings(list@),
{
    let ghost all = list@;
    let n: usize = list.len();
    let mut rest = list;
    let mut r: VecDeque<Holdings> = VecDeque::new();
    let mut i: usize = 0;
    while i < n
        invariant
            i <= n,
            n == all.len(),
            rest@ == all.subrange(i as int, n as int),
            r@ == holdings(all.subrange(0, i as int)),
        decreases n - i,
    {
        match rest.pop_front() {
            Some(t) => {
                proof {
                    assert(t == all[i as int]);
                    assert(rest@ =~= all.subrange(i + 1, n as int));
                }
                r.push_back(t.held);
                assert(r@ =~= holdings(all.subrange(0, i + 1)));
            },
            None => {
                assert(false);
            },
        }
        i += 1;
    }
    proof {
        assert(all.subrange(0, n as int) =~= all);
    }
    r
}

/// Wakes the tasks in order and appends them to the ready queue.
fn rouse(ready: &mut VecDeque<Task>, ripe: VecDeque<Task>, mem: &mut PhysMem)
    requires
        old(mem).wf(),
        forall|i: int|
            #![trigger ripe@[i]]
            0 <= i < ripe@.len() ==> task::reachable(
                old(mem)@,
                ripe@[i].held,
                ripe@[i].frame,
            ),
    ensures
        final(mem).wf(),
        final(mem).start() == old(mem).start(),
        final(mem).end() == old(mem).end(),
        final(mem)@ == roused_memory(old(mem)@, ripe@),
        final(mem)@.dom() == old(mem)@.dom(),
        final(ready)@ == old(ready)@ + ripe@.map_values(|t: Task| woken(t)),
{
    let ghost all = ripe@;
    let n: usize = ripe.len();
    let mut rest = ripe;
    let mut i: usize = 0;
    assert(ready@ =~= old(ready)@ + all.subrange(0, 0).map_values(|t: Task| woken(t)));
    while i < n
        invariant
            i <= n,
            n == all.len(),
            rest@ == all.subrange(i as int, n as int),
            forall|k: int|
                #![trigger all[k]]
                0 <= k < all.len() ==> task::reachable(
                    old(mem)@,
                    all[k].held,
                    all[k].frame,
                ),
            mem.wf(),
            mem.start() == old(mem).start(),
            mem.end() == old(mem).end(),
            mem@.dom() == old(mem)@.dom(),
            mem@ == roused_memory(old(mem)@, all.subrange(0, i as int)),
            ready@ == old(ready)@ + all.subrange(0, i as int).map_values(
                |t: Task| woken(t),
            ),
        decreases n - i,
    {
        match rest.pop_front() {
            Some(t) => {
                proof {
                    assert(t == all[i as int]);
                    assert(rest@ =~= all.subrange(i + 1, n as int));
                    let next = all.subrange(0, i + 1);
                    assert(next.drop_last() =~= all.subrange(0, i as int));
                    assert(next.last() == t);
                }
                let up: Task = wake_task(t, mem);
                ready.push_back(up);
                assert(ready@ =~= old(ready)@ + all.subrange(0, i + 1).map_values(
                    |t: Task| woken(t),
                ));
            },
            None => {
                assert(false);
            },
        }
        i += 1;
    }
    proof {
        assert(all.subrange(0, n as int) =~= all);
    }
}

/// A new task that owns `space` and the stack at `stack`.
pub open spec fn new_task(id: u64, kind: TaskKind, space: AddressSpace, stack: u64) -> Task {
    Task {
        id,
        state: TaskState::Ready,
        kind,
        frame: TASK_FRAME,
        held: Holdings {
            space: Some(space),
            stack: Some(stack),
            stack_size: TASK_STACK_SIZE,
        },
        wake_tick: 0,
        resume_sepc: 0,
    }
}

impl RoundRobin {
    /// A scheduler without tasks.
    pub fn new() -> (r: RoundRobin)
        ensures
            r@ == (Queues {
                ready: Seq::empty(),
                sleep: Seq::empty(),
                zombie: Seq::empty(),
                current: None,
                idle: None,
            }),
            r.next_id == 0,
            booted(r@),
    {
        RoundRobin {
            ready: VecDeque::new(),
            sleep: VecDeque::new(),
            zombie: VecDeque::new(),
            current: None,
            idle: None,
            next_id: 0,
        }
    }

    /// The address space of the running task; `None` means the kernel's.
    pub fn current_space(&self) -> (r: Option<&AddressSpace>)
        ensures
            match self.current {
                Some(t) => match t.held.space {
                    Some(s) => r == Some(&s),
                    None => r is None,
                },
                None => r is None,
            },
    {
        match &self.current {
            Some(t) => t.held.space.as_ref(),
            None => None,
        }
    }

    /// The id of the running task, or the largest number if there is none.
    pub fn current_id(&self) -> (r: u64)
        ensures
            r == (match self.current {
                Some(t) => t.id,
                None => u64::MAX,
            }),
    {
        match &self.current {
            Some(t) => t.id,
            None => u64::MAX,
        }
    }

    /// Whether a user task is running, so that an exception ends the task and not the system.
    pub fn current_is_umode(&self) -> (r: bool)
        ensures
            r == (self.current matches Some(t) && t.kind == TaskKind::UMode),
    {
        match &self.current {
            Some(t) => t.kind == TaskKind::UMode,
            None => false,
        }
    }

    /// The running task asks to sleep for `secs` seconds and `nanos` nanoseconds; it is parked at
    /// the next tick and goes on at `resume`. Without a running task nothing happens.
    pub fn sleep(&mut self, now: u64, secs: u64, nanos: u32, freq: u64, resume: u64)
        ensures
            final(self)@ == (Queues {
                current: match old(self)@.current {
                    Some(t) => Some(
                        Task {
                            state: TaskState::Blocked,
                            wake_tick: task::deadline_of(now, secs, nanos, freq) as u64,
                            resume_sepc: resume,
                            ..t
                        },
                    ),
                    None => None,
                },
                ..old(self)@
            }),
            final(self).next_id == old(self).next_id,
    {
        let wake_tick: u64 = deadline(now, secs, nanos, freq);
        match self.current.take() {
            Some(t) => {
                self.current =
                Some(Task { state: TaskState::Blocked, wake_tick, resume_sepc: resume, ..t });
            },
            None => {},
        }
    }

    /// The running task ends; it becomes a zombie at the next tick.
    pub fn exit(&mut self)
        ensures
            final(self)@ == (Queues { current: ending(old(self)@.current), ..old(self)@ }),
            final(self).next_id == old(self).next_id,
    {
        match self.current.take() {
            Some(t) => {
                self.current = Some(Task { state: TaskState::Zombie, ..t });
            },
            None => {},
        }
    }

    /// Sends the running task where it has to go.
    fn settle(&mut self, frame: u64, now: u64, mem: &mut PhysMem)
        requires
            old(mem).wf(),
            wakes_at_once(old(self)@, frame, now) ==> task::reachable(
                old(mem)@,
                old(self)@.current->0.held,
                frame,
            ),
        ensures
            final(self)@ == settled(old(self)@, frame, now),
            final(self).next_id == old(self).next_id,
            final(mem).wf(),
            final(mem).start() == old(mem).start(),
            final(mem).end() == old(mem).end(),
            final(mem)@ == settled_memory(old(mem)@, old(self)@, frame, now),
            final(mem)@.dom() == old(mem)@.dom(),
    {
        let is_idle: bool = match self.idle {
            Some(f) => f == frame,
            None => false,
        };
        if !is_idle {
            match self.current.take() {
                Some(c) => {
                    let mut t: Task = c;
                    t.frame = frame;
                    match t.state {
                        TaskState::Zombie => self.zombie.push_back(t),
                        TaskState::Blocked => {
                            if t.wake_tick <= now {
                                let up: Task = wake_task(t, mem);
                                self.ready.push_back(up);
                            } else {
                                self.sleep.push_back(t);
                            }
                        },
                        TaskState::Ready => self.ready.push_back(t),
                    }
                },
                None => {
                    self.idle = Some(frame);
                    self.current = Some(idle_snapshot(frame));
                },
            }
        }
    }

    /// One scheduling step: sends the running task where it has to go, wakes the sleepers whose
    /// time has come, and makes the first ready task, or else the idle task, the running one.
    pub fn dispatch(&mut self, frame: u64, now: u64, kernel_root: u64, mem: &mut PhysMem) -> (r:
        Dispatch)
        requires
            old(mem).wf(),
            booted(old(self)@),
            steppable(old(mem)@, old(self)@, frame, now),
        ensures
            final(self)@ == stepped(old(self)@, frame, now),
            final(self).next_id == old(self).next_id,
            booted(final(self)@),
            final(mem).wf(),
            final(mem).start() == old(mem).start(),
            final(mem).end() == old(mem).end(),
            final(mem)@ == stepped_memory(old(mem)@, old(self)@, frame, now),
            final(mem)@.dom() == old(mem)@.dom(),
            r == dispatch_of(final(self)@, kernel_root),
    {
        let ghost q = self@;
        self.settle(frame, now, mem);
        let ghost q1 = self@;
        let ghost m1 = mem@;
        proof {
            assert(q1.idle is Some);
            assert forall|i: int|
                #![trigger due(q1.sleep, now)[i]]
                0 <= i < due(q1.sleep, now).len() implies task::reachable(
                m1,
                due(q1.sleep, now)[i].held,
                due(q1.sleep, now)[i].frame,
            ) by {
                lemma_due(q1.sleep, now, i);
                let t = due(q1.sleep, now)[i];
                let j = choose|j: int| 0 <= j < q1.sleep.len() && q1.sleep[j] == t;
                if j < q.sleep.len() {
                    assert(q.sleep[j] == t);
                }
            }
        }
        let mut sleepers: VecDeque<Task> = VecDeque::new();
        std::mem::swap(&mut sleepers, &mut self.sleep);
        let (ripe, kept) = split_due(sleepers, now);
        self.sleep = kept;
        rouse(&mut self.ready, ripe, mem);
        let ghost q2 = self@;
        assert(q2 == roused(q1, now));
        let next: Task = match self.ready.pop_front() {
            Some(t) => {
                assert(self@.ready =~= q2.ready.drop_first());
                Task { state: TaskState::Ready, ..t }
            },
            None => match self.idle {
                Some(f) => idle_snapshot(f),
                None => {
                    assert(false);
                    idle_snapshot(frame)
                },
            },
        };
        let r: Dispatch = Dispatch {
            frame: next.frame,
            root: match &next.held.space {
                Some(s) => s.root_page(),
                None => kernel_root,
            },
        };
        self.current = Some(next);
        assert(self@ =~= stepped(q, frame, now));
        r
    }

    /// The scheduler: gives back what the zombies own and takes a scheduling step.
    ///
    /// The zombies are those of earlier steps. A task that ends in this step still runs on its own
    /// stack, so it is given back by the next one. Returns the stacks for the frame allocator.
    pub fn scheduler<A: PageFrameAllocator>(
        &mut self,
        frame: u64,
        now: u64,
        kernel_root: u64,
        mem: &mut PhysMem,
        frames: &mut A,
    ) -> (r: (Dispatch, Vec<(u64, u64)>))
        requires
            old(mem).wf(),
            old(frames).ready(old(mem)@.dom()),
            booted(old(self)@),
            steppable(old(mem)@, old(self)@, frame, now),
            task::reclaimable(
                old(mem)@,
                old(frames).free(),
                holdings(old(self)@.zombie),
            ),
        ensures
            final(self)@ == stepped(
                (Queues { zombie: Seq::empty(), ..old(self)@ }),
                frame,
                now,
            ),
            final(self).next_id == old(self).next_id,
            booted(final(self)@),
            final(mem).wf(),
            final(mem).start() == old(mem).start(),
            final(mem).end() == old(mem).end(),
            final(mem)@.dom() == old(mem)@.dom(),
            final(frames).ready(final(mem)@.dom()),
            final(frames).recycles() == old(frames).recycles(),
            final(frames).free() == prune::released(
                old(frames).free(),
                task::tables_of_all(old(mem)@, holdings(old(self)@.zombie)),
                old(frames).recycles(),
            ),
            reclaimed_and_stepped(old(mem)@, final(mem)@, old(self)@, frame, now),
            r.0 == dispatch_of(final(self)@, kernel_root),
            r.1@ == task::stacks_of(holdings(old(self)@.zombie)),
    {
        let ghost m = mem@;
        let ghost q = self@;
        let mut zombies: VecDeque<Task> = VecDeque::new();
        std::mem::swap(&mut zombies, &mut self.zombie);
        let held: VecDeque<Holdings> = take_holdings(zombies);
        let stacks: Vec<(u64, u64)> = reclaim_all(held, mem, frames);
        let ghost m1 = mem@;
        assert(phys::same_outside(
            m,
            m1,
            task::tables_of_all(m, holdings(q.zombie)),
        ));
        let r: Dispatch = self.dispatch(frame, now, kernel_root, mem);
        (r, stacks)
    }

    /// Ends the running task and schedules at once.
    pub fn terminate_current<A: PageFrameAllocator>(
        &mut self,
        frame: u64,
        now: u64,
        kernel_root: u64,
        mem: &mut PhysMem,
        frames: &mut A,
    ) -> (r: (Dispatch, Vec<(u64, u64)>))
        requires
            old(mem).wf(),
            old(frames).ready(old(mem)@.dom()),
            booted(old(self)@),
            steppable(
                old(mem)@,
                (Queues { current: ending(old(self)@.current), ..old(self)@ }),
                frame,
                now,
            ),
            task::reclaimable(
                old(mem)@,
                old(frames).free(),
                holdings(old(self)@.zombie),
            ),
        ensures
            final(self)@ == stepped(
                (Queues {
                    zombie: Seq::empty(),
                    current: ending(old(self)@.current),
                    ..old(self)@
                }),
                frame,
                now,
            ),
            final(self).next_id == old(self).next_id,
            booted(final(self)@),
            final(mem).wf(),
            final(mem).start() == old(mem).start(),
            final(mem).end() == old(mem).end(),
            final(mem)@.dom() == old(mem)@.dom(),
            final(frames).ready(final(mem)@.dom()),
            final(frames).recycles() == old(frames).recycles(),
            final(frames).free() == prune::released(
                old(frames).free(),
                task::tables_of_all(old(mem)@, holdings(old(self)@.zombie)),
                old(frames).recycles(),
            ),
            reclaimed_and_stepped(
                old(mem)@,
                final(mem)@,
                (Queues { current: ending(old(self)@.current), ..old(self)@ }),
                frame,
                now,
            ),
            r.0 == dispatch_of(final(self)@, kernel_root),
            r.1@ == task::stacks_of(holdings(old(self)@.zombie)),
    {
        self.exit();
        self.scheduler(frame, now, kernel_root, mem, frames)
    }

    /// Appends a task that owns `space` and the stack at `stack` to the ready queue.
    fn enlist(&mut self, kind: TaskKind, space: AddressSpace, stack: u64) -> (id: u64)
        ensures
            id == old(self).next_id,
            final(self).next_id == (if old(self).next_id == u64::MAX {
                0
            } else {
                (old(self).next_id + 1) as u64
            }),
            final(self)@ == (Queues {
                ready: old(self)@.ready.push(new_task(id, kind, space, stack)),
                ..old(self)@
            }),
            booted(old(self)@) ==> booted(final(self)@),
    {
        let id: u64 = self.next_id;
        self.next_id = id.wrapping_add(1);
        self.ready.push_back(
            Task {
                id,
                state: TaskState::Ready,
                kind,
                frame: TASK_FRAME,
                held: Holdings {
                    space: Some(space),
                    stack: Some(stack),
                    stack_size: TASK_STACK_SIZE,
                },
                wake_tick: 0,
                resume_sepc: 0,
            },
        );
        id
    }

    /// Creates a user task that starts at `entry` in `space`, which it then owns, on the stack at
    /// `stack`.
    ///
    /// It is refused if a page of the stack window is mapped already or the frames run out.
    pub fn spawn_with<A: PageFrameAllocator>(
        &mut self,
        entry: u64,
        space: AddressSpace,
        stack: u64,
        mem: &mut PhysMem,
        frames: &mut A,
    ) -> (r: Result<u64, MapError>)
        requires
            old(mem).wf(),
            old(frames).ready(old(mem)@.dom()),
            space.wf(old(mem)@, old(frames).free()),
            task::stack_block(old(mem)@, old(frames).free(), space.root(), stack),
        ensures
            final(mem).wf(),
            final(mem).start() == old(mem).start(),
            final(mem).end() == old(mem).end(),
            final(mem)@.dom() == old(mem)@.dom(),
            final(frames).ready(final(mem)@.dom()),
            final(frames).recycles() == old(frames).recycles(),
            final(frames).free().subset_of(old(frames).free()),
            booted(old(self)@) ==> booted(final(self)@),
            phys::same_outside(
                old(mem)@,
                final(mem)@,
                sv39::owned(old(mem)@, space.root(), space.shared()).union(
                    old(frames).free().difference(final(frames).free()),
                ).insert(task::stack_frame(stack, 3)),
            ),
            match r {
                Ok(id) => {
                    &&& id == old(self).next_id
                    &&& final(self).next_id == (if id == u64::MAX {
                        0
                    } else {
                        (id + 1) as u64
                    })
                    &&& final(self)@.ready.len() == old(self)@.ready.len() + 1
                    &&& final(self)@.ready.last().held.space matches Some(sp) && {
                        &&& sp.root() == space.root()
                        &&& sp.regions() == space.regions()
                        &&& sp.wf(final(mem)@, final(frames).free())
                        &&& final(self)@ == (Queues {
                            ready: old(self)@.ready.push(new_task(id, TaskKind::UMode, sp, stack)),
                            ..old(self)@
                        })
                    }
                    &&& task::started(
                        old(mem)@,
                        final(mem)@,
                        final(frames).free(),
                        space.root(),
                        stack,
                        entry,
                    )
                },
                Err(e) => {
                    &&& *final(self) == *old(self)
                    &&& e == MapError::OutOfMemory || e == MapError::AlreadyMapped
                    &&& moved::map_outcome(
                        old(mem)@,
                        final(mem)@,
                        final(frames).free(),
                        space.root(),
                        task::TASK_STACK_BASE,
                        stack,
                        TASK_STACK_SIZE,
                        task::TASK_STACK_FLAGS,
                        Err(e),
                    )
                },
            },
    {
        let mut space = space;
        assert(phys::has_frame(mem@, task::stack_frame(stack, 0)));
        match start(&mut space, stack, entry, mem, frames) {
            Ok(_) => Ok(self.enlist(TaskKind::UMode, space, stack)),
            Err(e) => Err(e),
        }
    }

    /// Creates a kernel task that starts at `entry` in a space of its own, cloned from the kernel's,
    /// on the stack at `stack`.
    ///
    /// It is refused if the kernel maps a page of the stack window or the frames run out.
    pub fn spawn<A: PageFrameAllocator>(
        &mut self,
        entry: u64,
        kernel: Option<&AddressSpace>,
        stack: u64,
        mem: &mut PhysMem,
        frames: &mut A,
    ) -> (r: Result<u64, MapError>)
        requires
            old(mem).wf(),
            old(frames).ready(old(mem)@.dom()),
            kernel matches Some(k) ==> k.wf(old(mem)@, old(frames).free()),
            task::spare_stack(old(mem)@, old(frames).free(), kernel, stack),
        ensures
            final(mem).wf(),
            final(mem).start() == old(mem).start(),
            final(mem).end() == old(mem).end(),
            final(mem)@.dom() == old(mem)@.dom(),
            final(frames).ready(final(mem)@.dom()),
            final(frames).recycles() == old(frames).recycles(),
            final(frames).free().subset_of(old(frames).free()),
            booted(old(self)@) ==> booted(final(self)@),
            phys::same_outside(
                old(mem)@,
                final(mem)@,
                old(frames).free().difference(final(frames).free()).insert(
                    task::stack_frame(stack, 3),
                ),
            ),
            match r {
                Ok(id) => {
                    &&& id == old(self).next_id
                    &&& final(self).next_id == (if id == u64::MAX {
                        0
                    } else {
                        (id + 1) as u64
                    })
                    &&& final(self)@.ready.len() == old(self)@.ready.len() + 1
                    &&& final(self)@.ready.last().held.space matches Some(sp) && {
                        &&& final(self)@ == (Queues {
                            ready: old(self)@.ready.push(new_task(id, TaskKind::SMode, sp, stack)),
                            ..old(self)@
                        })
                        &&& task::started_in_clone(
                            old(mem)@,
                            old(frames).free(),
                            kernel,
                            final(mem)@,
                            final(frames).free(),
                            sp,
                            stack,
                            entry,
                        )
                    }
                },
                Err(e) => *final(self) == *old(self) && task::clone_refused(
                    old(mem)@,
                    kernel,
                    final(frames).free(),
                    e,
                ),
            },
    {
        match start_in_clone(entry, kernel, stack, mem, frames) {
            Ok(space) => Ok(self.enlist(TaskKind::SMode, space, stack)),
            Err(e) => Err(e),
        }
    }
}

/// How many tasks of the sequence have the id.
pub open spec fn occurs(s: Seq<Task>, id: u64) -> int
    decreases s.len(),
{
    if s.len() == 0 {
        0
    } else {
        occurs(s.drop_last(), id) + (if s.last().id == id {
            1int
        } else {
            0
        })
    }
}

/// A task that owns an address space; only the idle task owns none.
pub open spec fn is_task(t: Task) -> bool {
    t.held.space is Some
}

/// How many tasks have the id. The idle task is none.
pub open spec fn count(q: Queues, id: u64) -> int {
    occurs(q.ready, id) + occurs(q.sleep, id) + occurs(q.zombie, id) + (match q.current {
        Some(t) => if is_task(t) && t.id == id {
            1int
        } else {
            0
        },
        None => 0,
    })
}

proof fn lemma_occurs_push(s: Seq<Task>, t: Task, id: u64)
    ensures
        occurs(s.push(t), id) == occurs(s, id) + (if t.id == id {
            1int
        } else {
            0
        }),
{
    assert(s.push(t).drop_last() =~= s);
}

proof fn lemma_occurs_woken(s: Seq<Task>, a: Seq<Task>, id: u64)
    ensures
        occurs(a + s.map_values(|t: Task| woken(t)), id) == occurs(a, id) + occurs(s, id),
    decreases s.len(),
{
    let f = |t: Task| woken(t);
    if s.len() == 0 {
        assert(a + s.map_values(f) =~= a);
    } else {
        let b = a + s.map_values(f);
        assert(b.drop_last() =~= a + s.drop_last().map_values(f));
        assert(b.last() == woken(s.last()));
        lemma_occurs_woken(s.drop_last(), a, id);
    }
}

proof fn lemma_occurs_split(s: Seq<Task>, now: u64, id: u64)
    ensures
        occurs(due(s, now), id) + occurs(not_due(s, now), id) == occurs(s, id),
    decreases s.len(),
{
    reveal(Seq::filter);
    if s.len() > 0 {
        let t = s.last();
        lemma_occurs_split(s.drop_last(), now, id);
        if t.wake_tick <= now {
            lemma_occurs_push(due(s.drop_last(), now), t, id);
        } else {
            lemma_occurs_push(not_due(s.drop_last(), now), t, id);
        }
    }
}

proof fn lemma_occurs_first(s: Seq<Task>, id: u64)
    requires
        s.len() > 0,
    ensures
        occurs(s, id) == occurs(s.drop_first(), id) + (if s[0].id == id {
            1int
        } else {
            0
        }),
    decreases s.len(),
{
    if s.len() > 1 {
        lemma_occurs_first(s.drop_last(), id);
        assert(s.drop_last().drop_first() =~= s.drop_first().drop_last());
    } else {
        assert(occurs(s.drop_last(), id) == 0);
        assert(occurs(s.drop_first(), id) == 0);
    }
}

/// Every task of the sequence owns an address space.
pub open spec fn all_tasks(s: Seq<Task>) -> bool {
    forall|i: int| 0 <= i < s.len() ==> is_task(#[trigger] s[i])
}

/// A scheduling step neither loses nor doubles a task.
///
/// The idle task runs exactly when its frame is the one that was saved.
pub proof fn law_no_task_lost(q: Queues, frame: u64, now: u64, id: u64)
    requires
        booted(q),
        all_tasks(q.ready),
        all_tasks(q.sleep),
        q.current matches Some(t) ==> (is_task(t) <==> q.idle != Some(frame)),
    ensures
        count(stepped(q, frame, now), id) == count(q, id),
{
    let q1 = settled(q, frame, now);
    if q.current is Some {
        let t = Task { frame, ..q.current->0 };
        lemma_occurs_push(q.ready, t, id);
        lemma_occurs_push(q.ready, woken(t), id);
        lemma_occurs_push(q.sleep, t, id);
        lemma_occurs_push(q.zombie, t, id);
    }
    assert(count(q1, id) == count(q, id));
    let q2 = roused(q1, now);
    lemma_occurs_woken(due(q1.sleep, now), q1.ready, id);
    lemma_occurs_split(q1.sleep, now, id);
    assert(count(q2, id) == count(q1, id));
    if q2.ready.len() > 0 {
        lemma_occurs_first(q2.ready, id);
        assert(is_task(q2.ready[0])) by {
            if q1.ready.len() == 0 {
                lemma_due(q1.sleep, now, 0);
                let t = due(q1.sleep, now)[0];
                let j = choose|j: int| 0 <= j < q1.sleep.len() && q1.sleep[j] == t;
                assert(is_task(q1.sleep[j]));
            }
        }
    }
}

/// The queue is first in, first out: the task that has waited longest runs next, and every other
/// ready task moves up by one.
pub proof fn law_round_robin(q: Queues, frame: u64, now: u64, i: int)
    requires
        0 <= i < q.ready.len(),
    ensures
        ({
            let next = stepped(q, frame, now);
            if i == 0 {
                next.current matches Some(t) && t.id == q.ready[0].id && t.frame
                    == q.ready[0].frame
            } else {
                i - 1 < next.ready.len() && next.ready[i - 1] == q.ready[i]
            }
        }),
{
}

/// A sleeper whose time has not come stays asleep.
pub proof fn law_not_woken_early(q: Queues, frame: u64, now: u64, i: int)
    requires
        0 <= i < q.sleep.len(),
        q.sleep[i].wake_tick > now,
    ensures
        stepped(q, frame, now).sleep.contains(q.sleep[i]),
{
    let q1 = settled(q, frame, now);
    assert(q1.sleep[i] == q.sleep[i]);
    q1.sleep.lemma_filter_contains(|t: Task| t.wake_tick > now, i);
}

/// No sleeper sleeps past its time: after a step every sleeper's time is still to come.
pub proof fn law_not_woken_late(q: Queues, frame: u64, now: u64, i: int)
    requires
        0 <= i < stepped(q, frame, now).sleep.len(),
    ensures
        stepped(q, frame, now).sleep[i].wake_tick > now,
{
    let q1 = settled(q, frame, now);
    q1.sleep.lemma_filter_pred(|t: Task| t.wake_tick > now, i);
}

/// A task that ends is a zombie after the step in which it ends, so its stack is given back by a
/// later step and not while the processor still runs on it.
pub proof fn law_reaped_later(q: Queues, frame: u64, now: u64)
    requires
        q.current matches Some(t) && t.state == TaskState::Zombie,
        q.idle != Some(frame),
    ensures
        ({
            let z = stepped(q, frame, now).zombie;
            z.len() == q.zombie.len() + 1 && z.last().id == q.current->0.id
                && z.last().held == q.current->0.held
        }),
{
}

/// The registers that an interrupt saves are those that the interrupted task goes on with: wherever
/// it goes, it goes with the frame that was handed to the step and with nothing else changed. A task
/// that can run comes behind all tasks that were ready; one that sleeps sleeps until its time; one
/// that has ended is a zombie.
pub proof fn law_preempted_keeps_frame(q: Queues, frame: u64, now: u64)
    requires
        q.current is Some,
        q.idle != Some(frame),
    ensures
        ({
            let c = q.current->0;
            let next = stepped(q, frame, now);
            let asleep = c.state == TaskState::Blocked && c.wake_tick > now;
            &&& c.state == TaskState::Zombie ==> next.zombie == q.zombie.push(Task { frame, ..c })
            &&& c.state != TaskState::Zombie ==> next.zombie == q.zombie
            &&& asleep ==> next.sleep.len() > 0 && next.sleep.last() == (Task { frame, ..c })
            &&& c.state != TaskState::Zombie && !asleep ==> {
                let t = Task { frame, state: TaskState::Ready, ..c };
                if q.ready.len() == 0 {
                    next.current == Some(t)
                } else {
                    next.ready.len() >= q.ready.len() && next.ready[q.ready.len() - 1] == t
                }
            }
            &&& next.idle == q.idle
        }),
{
    let c = q.current->0;
    let q1 = settled(q, frame, now);
    if c.state == TaskState::Blocked && c.wake_tick > now {
        reveal(Seq::filter);
        assert(q1.sleep.last() == (Task { frame, ..c }));
    }
}

/// The task that was ready first runs, with everything as it was saved; the processor is handed its
/// frame and its root table, or the kernel's if it has no space of its own.
pub proof fn law_first_ready_resumes(q: Queues, frame: u64, now: u64, kernel_root: u64)
    requires
        q.ready.len() > 0,
        q.ready[0].state == TaskState::Ready,
    ensures
        ({
            let t = q.ready[0];
            let next = stepped(q, frame, now);
            let r = dispatch_of(next, kernel_root);
            &&& next.current == Some(t)
            &&& r.frame == t.frame
            &&& t.held.space matches Some(s) ==> r.root == (s.root() / 4096) as u64
            &&& t.held.space is None ==> r.root == kernel_root
        }),
{
}

/// A task that can go on goes on, once the tasks that were ready before it have had their turn, from
/// the frame of the interrupt that took the processor from it: here with one other task ready.
pub proof fn law_resumes_where_preempted(
    q: Queues,
    frame: u64,
    now: u64,
    frame2: u64,
    now2: u64,
    kernel_root: u64,
)
    requires
        q.current matches Some(c) && c.state == TaskState::Ready,
        q.idle != Some(frame),
        q.ready.len() == 1,
    ensures
        ({
            let c = q.current->0;
            let later = stepped(stepped(q, frame, now), frame2, now2);
            &&& later.current == Some(Task { frame, ..c })
            &&& dispatch_of(later, kernel_root).frame == frame
        }),
{
    law_preempted_keeps_frame(q, frame, now);
    law_first_ready_resumes(stepped(q, frame, now), frame2, now2, kernel_root);
}

/// The tasks that run, one after the other, if nothing happens any more: the running one and the
/// ready ones.
pub open spec fn in_line(q: Queues) -> Seq<Task> {
    seq![q.current->0] + q.ready
}

/// A sleeper whose time has come is ready or runs, with everything else as it was; sleepers come in
/// the order in which they slept, behind the tasks that were ready.
pub proof fn law_due_sleepers_wake(q: Queues, frame: u64, now: u64, i: int, j: int)
    requires
        0 <= i < q.sleep.len(),
        0 <= j < q.sleep.len(),
        q.sleep[i].wake_tick <= now,
        q.sleep[j].wake_tick <= now,
    ensures
        exists|a: int, b: int|
            q.ready.len() <= a < in_line(stepped(q, frame, now)).len() && q.ready.len() <= b
                < in_line(stepped(q, frame, now)).len() && (i < j ==> a < b) && (
            #[trigger] in_line(stepped(q, frame, now))[a]) == (Task {
                state: TaskState::Ready,
                ..q.sleep[i]
            }) && (#[trigger] in_line(stepped(q, frame, now))[b]) == (Task {
                state: TaskState::Ready,
                ..q.sleep[j]
            }),
{
    let q1 = settled(q, frame, now);
    let q2 = roused(q1, now);
    let p = |t: Task| t.wake_tick <= now;
    let n = q1.ready.len();
    assert(q1.sleep[i] == q.sleep[i]);
    assert(q1.sleep[j] == q.sleep[j]);
    order::lemma_rank(q1.sleep, p, i);
    order::lemma_rank(q1.sleep, p, j);
    if i < j {
        order::lemma_rank_order(q1.sleep, p, i, j);
    }
    let a = n + order::rank(q1.sleep, p, i);
    let b = n + order::rank(q1.sleep, p, j);
    assert(q2.ready[a] == woken(q.sleep[i]));
    assert(q2.ready[b] == woken(q.sleep[j]));
    let line = in_line(stepped(q, frame, now));
    assert(line.len() == q2.ready.len());
    assert forall|k: int| 1 <= k < line.len() implies #[trigger] line[k] == q2.ready[k] by {}
    assert(line[a] == (Task { state: TaskState::Ready, ..q.sleep[i] }));
    assert(line[b] == (Task { state: TaskState::Ready, ..q.sleep[j] }));
}

/// Sleepers whose time has not come keep their order.
pub proof fn law_sleepers_keep_order(q: Queues, frame: u64, now: u64, i: int, j: int)
    requires
        0 <= i < j < q.sleep.len(),
        q.sleep[i].wake_tick > now,
        q.sleep[j].wake_tick > now,
    ensures
        exists|a: int, b: int|
            0 <= a < b < stepped(q, frame, now).sleep.len() && (#[trigger] stepped(
                q,
                frame,
                now,
            ).sleep[a]) == q.sleep[i] && (#[trigger] stepped(q, frame, now).sleep[b])
                == q.sleep[j],
{
    let q1 = settled(q, frame, now);
    let p = |t: Task| t.wake_tick > now;
    assert(q1.sleep[i] == q.sleep[i]);
    assert(q1.sleep[j] == q.sleep[j]);
    order::lemma_rank(q1.sleep, p, i);
    order::lemma_rank(q1.sleep, p, j);
    order::lemma_rank_order(q1.sleep, p, i, j);
    let a = order::rank(q1.sleep, p, i);
    let b = order::rank(q1.sleep, p, j);
    assert(stepped(q, frame, now).sleep[a] == q.sleep[i]);
    assert(stepped(q, frame, now).sleep[b] == q.sleep[j]);
}

/// When no task is ready and none is due, and the running one does not go on, the idle task runs: it
/// goes on from the frame in which the boot code was first interrupted, in the kernel's space.
pub proof fn law_idle_runs(q: Queues, frame: u64, now: u64, kernel_root: u64)
    requires
        q.current is Some <==> q.idle is Some,
        q.ready.len() == 0,
        forall|i: int| 0 <= i < q.sleep.len() ==> (#[trigger] q.sleep[i]).wake_tick > now,
        q.idle == Some(frame) || (q.current matches Some(c) ==> c.state == TaskState::Zombie || (
        c.state == TaskState::Blocked && c.wake_tick > now)),
    ensures
        ({
            let next = stepped(q, frame, now);
            let first = match q.idle {
                Some(f) => f,
                None => frame,
            };
            &&& next.idle == Some(first)
            &&& next.current matches Some(t) && t.id == 0 && t.frame == first && t.kind
                == TaskKind::SMode && t.state == TaskState::Ready && t.held.space is None
                && t.held.stack is None
            &&& next.ready.len() == 0
            &&& dispatch_of(next, kernel_root).frame == first
            &&& dispatch_of(next, kernel_root).root == kernel_root
        }),
{
    let q1 = settled(q, frame, now);
    let p = |t: Task| t.wake_tick <= now;
    assert forall|i: int| 0 <= i < q1.sleep.len() implies !p(#[trigger] q1.sleep[i]) by {
        if i < q.sleep.len() {
            assert(q1.sleep[i] == q.sleep[i]);
        }
    }
    order::lemma_filter_all(q1.sleep, p);
}

/// An interrupt of the idle task changes no queue by itself: only sleepers that are due move.
pub proof fn law_idle_goes_nowhere(q: Queues, frame: u64, now: u64)
    requires
        q.idle == Some(frame),
        forall|i: int| 0 <= i < q.sleep.len() ==> (#[trigger] q.sleep[i]).wake_tick > now,
    ensures
        ({
            let next = stepped(q, frame, now);
            &&& next.sleep == q.sleep
            &&& next.zombie == q.zombie
            &&& q.ready.len() > 0 ==> next.ready == q.ready.drop_first()
        }),
{
    order::lemma_filter_all(q.sleep, |t: Task| t.wake_tick <= now);
    order::lemma_filter_all(q.sleep, |t: Task| t.wake_tick > now);
    assert(roused(q, now).ready =~= q.ready);
}

/// Where the saved program counter of a task is.
pub open spec fn counter_at(t: Task) -> int {
    task::frame_at(t.held, t.frame) + 248
}

proof fn lemma_roused_memory(m: Map<int, u64>, ts: Seq<Task>, a: int)
    ensures
        (forall|i: int| 0 <= i < ts.len() ==> counter_at(#[trigger] ts[i]) != a)
            ==> roused_memory(m, ts)[a] == m[a],
        forall|i: int|
            #![trigger ts[i]]
            0 <= i < ts.len() && counter_at(ts[i]) == a && (forall|j: int|
                0 <= j < ts.len() && counter_at(#[trigger] ts[j]) == a ==> ts[j].resume_sepc
                    == ts[i].resume_sepc) ==> roused_memory(m, ts)[a] == ts[i].resume_sepc,
    decreases ts.len(),
{
    if ts.len() > 0 {
        let head = ts.drop_last();
        lemma_roused_memory(m, head, a);
        assert(forall|i: int| 0 <= i < head.len() ==> head[i] == ts[i]);
        assert(ts[ts.len() - 1] == ts.last());
        if counter_at(ts.last()) != a {
            assert forall|i: int|
                #![trigger ts[i]]
                0 <= i < ts.len() && counter_at(ts[i]) == a && (forall|j: int|
                    0 <= j < ts.len() && counter_at(#[trigger] ts[j]) == a ==> ts[j].resume_sepc
                        == ts[i].resume_sepc) implies roused_memory(m, ts)[a]
                == ts[i].resume_sepc by {
                assert(head[i] == ts[i]);
                assert forall|j: int| 0 <= j < head.len() && counter_at(
                    #[trigger] head[j],
                ) == a implies head[j].resume_sepc == head[i].resume_sepc by {
                    assert(ts[j] == head[j]);
                }
            }
        }
    }
}

/// A sleeper that wakes goes on at its resume point: that is its saved program counter after the
/// step, if no other task keeps its own in the same word.
pub proof fn law_woken_at_resume_point(
    m: Map<int, u64>,
    q: Queues,
    frame: u64,
    now: u64,
    i: int,
)
    requires
        0 <= i < q.sleep.len(),
        q.sleep[i].wake_tick <= now,
        forall|j: int|
            0 <= j < q.sleep.len() && j != i ==> counter_at(#[trigger] q.sleep[j]) != counter_at(
                q.sleep[i],
            ),
    ensures
        stepped_memory(m, q, frame, now)[counter_at(q.sleep[i])] == q.sleep[i].resume_sepc,
{
    let q1 = settled(q, frame, now);
    let p = |t: Task| t.wake_tick <= now;
    let m1 = settled_memory(m, q, frame, now);
    let a = counter_at(q.sleep[i]);
    let ts = due(q1.sleep, now);
    assert(q1.sleep[i] == q.sleep[i]);
    order::lemma_rank(q1.sleep, p, i);
    let k = order::rank(q1.sleep, p, i);
    assert(ts[k] == q.sleep[i]);
    assert forall|j: int| 0 <= j < ts.len() && counter_at(#[trigger] ts[j]) == a implies ts[j]
        == q.sleep[i] by {
        lemma_due(q1.sleep, now, j);
        let x = choose|x: int| 0 <= x < q1.sleep.len() && q1.sleep[x] == ts[j];
        if x < q.sleep.len() {
            assert(q.sleep[x] == ts[j]);
        }
    }
    lemma_roused_memory(m1, ts, a);
}

/// A running task that asked to sleep and is due goes on at its resume point, in the frame of the
/// interrupt.
pub proof fn law_short_sleep_resumes(m: Map<int, u64>, q: Queues, frame: u64, now: u64)
    requires
        q.idle != Some(frame),
        q.current matches Some(c) && c.state == TaskState::Blocked && c.wake_tick <= now,
        forall|j: int|
            0 <= j < q.sleep.len() ==> counter_at(#[trigger] q.sleep[j]) != counter_at(
                (Task { frame, ..q.current->0 }),
            ),
    ensures
        stepped_memory(m, q, frame, now)[counter_at((Task { frame, ..q.current->0 }))]
            == q.current->0.resume_sepc,
{
    let m1 = settled_memory(m, q, frame, now);
    let ts = due(q.sleep, now);
    let a = counter_at((Task { frame, ..q.current->0 }));
    assert forall|j: int| 0 <= j < ts.len() implies counter_at(#[trigger] ts[j]) != a by {
        lemma_due(q.sleep, now, j);
        let x = choose|x: int| 0 <= x < q.sleep.len() && q.sleep[x] == ts[j];
        assert(q.sleep[x] == ts[j]);
    }
    lemma_roused_memory(m1, ts, a);
}

/// A step writes nothing but the saved program counters of the tasks that it wakes.
pub proof fn law_step_spares_memory(m: Map<int, u64>, q: Queues, frame: u64, now: u64, a: int)
    requires
        forall|j: int|
            0 <= j < q.sleep.len() && q.sleep[j].wake_tick <= now ==> counter_at(
                #[trigger] q.sleep[j],
            ) != a,
        q.idle == Some(frame) || (q.current matches Some(c) ==> c.state != TaskState::Blocked
            || c.wake_tick > now || counter_at((Task { frame, ..c })) != a),
    ensures
        stepped_memory(m, q, frame, now)[a] == m[a],
{
    let q1 = settled(q, frame, now);
    let m1 = settled_memory(m, q, frame, now);
    let ts = due(q1.sleep, now);
    assert forall|j: int| 0 <= j < ts.len() implies counter_at(#[trigger] ts[j]) != a by {
        lemma_due(q1.sleep, now, j);
        let x = choose|x: int| 0 <= x < q1.sleep.len() && q1.sleep[x] == ts[j];
        if x < q.sleep.len() {
            assert(q.sleep[x] == ts[j]);
        }
    }
    lemma_roused_memory(m1, ts, a);
}

/// A new task is ready to run from the frame at the top of its stack, and owns its space and stack.
pub proof fn law_new_task(id: u64, kind: TaskKind, space: AddressSpace, stack: u64)
    ensures
        ({
            let t = new_task(id, kind, space, stack);
            &&& t.id == id
            &&& t.kind == kind
            &&& t.state == TaskState::Ready
            &&& t.frame == 0xC000_0000 + 16384 - 264
            &&& t.held.space == Some(space)
            &&& t.held.stack == Some(stack)
            &&& t.held.stack_size == 16384
        }),
{
}

/// A running task that asked to end is a zombie after the next step and never runs again: nothing
/// that can run carries its id, if no other task has it.
pub proof fn law_ended_task_runs_no_more(q: Queues, frame: u64, now: u64)
    requires
        q.current matches Some(c) && is_task(c),
        q.idle != Some(frame),
        q.ready.len() > 0,
    ensures
        ({
            let c = q.current->0;
            let next = stepped((Queues { current: ending(q.current), ..q }), frame, now);
            &&& next.zombie.len() == q.zombie.len() + 1
            &&& next.zombie.last() == (Task { state: TaskState::Zombie, frame, ..c })
            &&& next.current matches Some(t) && t.id == q.ready[0].id
            &&& next.ready.len() >= q.ready.len() - 1
        }),
{
    law_preempted_keeps_frame((Queues { current: ending(q.current), ..q }), frame, now);
}

/// What zombies own is what is given back for them, in order.
pub proof fn law_zombies_given_back(s: Seq<Task>, i: int)
    requires
        0 <= i < s.len(),
    ensures
        holdings(s).len() == s.len(),
        holdings(s)[i] == s[i].held,
{
}

/// The scheduler writes nothing but the tables of zombies and the saved program counters of the tasks
/// that it wakes.
pub proof fn law_scheduler_spares_memory(
    m: Map<int, u64>,
    m2: Map<int, u64>,
    q: Queues,
    frame: u64,
    now: u64,
    f: int,
    i: int,
)
    requires
        reclaimed_and_stepped(m, m2, q, frame, now),
        f % 4096 == 0,
        0 <= i < 512,
        forall|j: int|
            0 <= j < q.zombie.len() ==> ((#[trigger] q.zombie[j]).held.space matches Some(s)
                ==> !crate::memory::sv39::owned(m, s.root(), s.shared()).contains(f)),
        forall|j: int|
            0 <= j < q.sleep.len() && q.sleep[j].wake_tick <= now ==> counter_at(
                #[trigger] q.sleep[j],
            ) != f + 8 * i,
        q.idle == Some(frame) || (q.current matches Some(c) ==> c.state != TaskState::Blocked
            || c.wake_tick > now || counter_at((Task { frame, ..c })) != f + 8 * i),
    ensures
        m2[f + 8 * i] == m[f + 8 * i],
{
    let hs = holdings(q.zombie);
    let rest = Queues { zombie: Seq::empty(), ..q };
    let m1 = choose|m1: Map<int, u64>| #[trigger]
        phys::same_outside(m, m1, task::tables_of_all(m, hs)) && m2 == stepped_memory(
            m1,
            rest,
            frame,
            now,
        );
    task::law_tables_given_back(m, hs, f);
    if task::tables_of_all(m, hs).contains(f) {
        let j = choose|j: int|
            0 <= j < hs.len() && ((#[trigger] hs[j]).space matches Some(s)
                && crate::memory::sv39::owned(m, s.root(), s.shared()).contains(f));
        assert(q.zombie[j].held == hs[j]);
    }
    law_step_spares_memory(m1, rest, frame, now, f + 8 * i);
    assert(m1[f + 8 * i] == m[f + 8 * i]);
}

} // verus!
