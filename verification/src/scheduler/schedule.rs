//! The scheduling step.
use vstd::prelude::*;
use std::collections::VecDeque;
use crate::context;
use crate::context::{TrapFrame, FRAME_SIZE};
use crate::memory::phys;
use crate::memory::phys::PhysMem;
use crate::memory::prune;
use crate::mmu::frames::PageFrameAllocator;
use crate::scheduler::sleep;
use crate::scheduler::sleep::wake_task;
use crate::scheduler::task;
use crate::scheduler::task::{Pending, Queues, Scheduler, Task, TaskState};
use crate::task::{reclaim_all, Holdings, TaskKind, TASK_SSTATUS, TASK_STACK_SIZE};

verus! {

/// The idle task: its stack, and where it starts.
#[derive(Clone, Copy)]
pub struct IdleTask {
    /// Base of the stack, at the same address in every space.
    pub stack: u64,
    /// Entry when no task is left: shuts the system down.
    pub idle: u64,
    /// Entry when tasks sleep or wait to be given back: waits for the next tick.
    pub wait: u64,
}

/// What the scheduler hands to the trap code.
#[derive(Clone, Copy, PartialEq, Eq, Structural, Debug)]
pub struct Dispatch {
    /// The frame to restore.
    pub frame: u64,
    /// The page number of the root table to switch to.
    pub root: u64,
}

/// The task with a fresh frame. A null frame keeps the old one: the stack was destroyed, and the
/// task will not run again.
pub open spec fn with_frame(t: Task, frame: u64) -> Task {
    if frame == 0 {
        t
    } else {
        Task { frame, ..t }
    }
}

/// The queues after the running task went where it has to go.
pub open spec fn settled(q: Queues, frame: u64, now: u64) -> Queues {
    match q.current {
        None => q,
        Some(c) => {
            let t = with_frame(c, frame);
            let gone = Queues { current: None, ..q };
            if c.state == TaskState::Idle {
                gone
            } else {
                match t.pending {
                    Pending::Rerun => Queues {
                        ready: q.ready.push(Task { state: TaskState::Ready, ..t }),
                        ..gone
                    },
                    Pending::Park => if t.wake_tick <= now {
                        Queues { ready: q.ready.push(sleep::woken(t)), ..gone }
                    } else {
                        Queues {
                            sleep: q.sleep.push(Task { state: TaskState::Blocked, ..t }),
                            ..gone
                        }
                    },
                    Pending::Reap => Queues {
                        zombie: q.zombie.push(Task { state: TaskState::Zombie, ..t }),
                        ..gone
                    },
                }
            }
        },
    }
}

/// The running task is woken at once: it asked to sleep, and its time has come.
pub open spec fn wakes_at_once(q: Queues, now: u64) -> bool {
    q.current matches Some(c) && c.state != TaskState::Idle && c.pending == Pending::Park
        && c.wake_tick <= now
}

/// Memory after the running task went where it has to go.
pub open spec fn settled_memory(m: Map<int, u64>, q: Queues, frame: u64, now: u64) -> Map<int, u64> {
    if wakes_at_once(q, now) {
        sleep::wake_memory(m, with_frame(q.current->0, frame))
    } else {
        m
    }
}

/// The sleepers whose time has come.
pub open spec fn due(s: Seq<Task>, now: u64) -> Seq<Task> {
    s.filter(|t: Task| t.wake_tick <= now)
}

/// The sleepers whose time has not come.
pub open spec fn not_due(s: Seq<Task>, now: u64) -> Seq<Task> {
    s.filter(|t: Task| t.wake_tick > now)
}

/// The queues after the due sleepers were woken, in the order in which they slept.
pub open spec fn roused(q: Queues, now: u64) -> Queues {
    Queues {
        ready: q.ready + due(q.sleep, now).map_values(|t: Task| sleep::woken(t)),
        sleep: not_due(q.sleep, now),
        ..q
    }
}

/// Memory after the tasks were woken in order.
pub open spec fn roused_memory(m: Map<int, u64>, ts: Seq<Task>) -> Map<int, u64>
    decreases ts.len(),
{
    if ts.len() == 0 {
        m
    } else {
        sleep::wake_memory(roused_memory(m, ts.drop_last()), ts.last())
    }
}

/// The task that stands in when no task is ready.
pub open spec fn idle_task(idle: IdleTask) -> Task {
    Task {
        id: 0,
        state: TaskState::Idle,
        pending: Pending::Rerun,
        kind: TaskKind::SMode,
        frame: (idle.stack + 16120) as u64,
        held: Holdings { space: None, stack: None, stack_size: 0 },
        wake_tick: 0,
        resume_sepc: 0,
    }
}

/// The queues after the first ready task became the running one.
pub open spec fn chosen(q: Queues, idle: IdleTask) -> Queues {
    if q.ready.len() > 0 {
        Queues {
            ready: q.ready.drop_first(),
            current: Some(
                Task { state: TaskState::Running, pending: Pending::Rerun, ..q.ready[0] },
            ),
            ..q
        }
    } else {
        Queues { current: Some(idle_task(idle)), ..q }
    }
}

/// Where the idle task starts.
pub open spec fn idle_entry(q: Queues, idle: IdleTask) -> u64 {
    if q.sleep.len() == 0 && q.zombie.len() == 0 {
        idle.idle
    } else {
        idle.wait
    }
}

/// Memory after the choice: the idle task gets a fresh frame at the top of its stack.
pub open spec fn chosen_memory(m: Map<int, u64>, q: Queues, idle: IdleTask) -> Map<int, u64> {
    if q.ready.len() > 0 {
        m
    } else {
        context::with_words(
            m,
            idle.stack + 16120,
            context::fresh_words((idle.stack + 16384) as u64, idle_entry(q, idle), TASK_SSTATUS),
        )
    }
}

/// The queues after a scheduling step.
pub open spec fn stepped(q: Queues, frame: u64, now: u64, idle: IdleTask) -> Queues {
    chosen(roused(settled(q, frame, now), now), idle)
}

/// Memory after a scheduling step.
pub open spec fn stepped_memory(
    m: Map<int, u64>,
    q: Queues,
    frame: u64,
    now: u64,
    idle: IdleTask,
) -> Map<int, u64> {
    let q1 = settled(q, frame, now);
    let m1 = settled_memory(m, q, frame, now);
    let m2 = roused_memory(m1, due(q1.sleep, now));
    chosen_memory(m2, roused(q1, now), idle)
}

/// The frame and the root table of the running task.
pub open spec fn dispatch_of(q: Queues, kernel_root: u64) -> Dispatch {
    let t = q.current->0;
    Dispatch {
        frame: t.frame,
        root: match t.held.space {
            Some(s) => (s.root() / 4096) as u64,
            None => kernel_root,
        },
    }
}

/// The step can be taken: the frames that it writes are in memory.
pub open spec fn steppable(m: Map<int, u64>, q: Queues, frame: u64, now: u64, idle: IdleTask) -> bool {
    &&& wakes_at_once(q, now) ==> {
        let t = with_frame(q.current->0, frame);
        crate::task::reachable(m, t.held, t.frame)
    }
    &&& forall|i: int|
        #![trigger q.sleep[i]]
        0 <= i < q.sleep.len() && q.sleep[i].wake_tick <= now ==> crate::task::reachable(
            m,
            q.sleep[i].held,
            q.sleep[i].frame,
        )
    &&& idle.stack + 16384 <= u64::MAX
    &&& context::has_frame_slot(m, idle.stack + 16120)
}

/// What the tasks own, in order.
pub open spec fn holdings(s: Seq<Task>) -> Seq<Holdings> {
    s.map_values(|t: Task| t.held)
}

/// Splits the sleepers into those whose time has come and the others; both keep their order.
fn split_due(list: VecDeque<Task>, now: u64) -> (r: (VecDeque<Task>, VecDeque<Task>))
    ensures
        r.0@ == due(list@, now),
        r.1@ == not_due(list@, now),
{
    let ghost all = list@;
    let n: usize = list.len();
    let mut rest = list;
    let mut ripe: VecDeque<Task> = VecDeque::new();
    let mut kept: VecDeque<Task> = VecDeque::new();
    let mut i: usize = 0;
    proof {
        reveal(Seq::filter);
        assert(all.subrange(0, 0).len() == 0);
        assert(all.subrange(0, n as int) =~= all);
    }
    while i < n
        invariant
            i <= n,
            n == all.len(),
            rest@ == all.subrange(i as int, n as int),
            ripe@ == due(all.subrange(0, i as int), now),
            kept@ == not_due(all.subrange(0, i as int), now),
        decreases n - i,
    {
        match rest.pop_front() {
            Some(t) => {
                proof {
                    reveal(Seq::filter);
                    let next = all.subrange(0, i + 1);
                    assert(next.drop_last() =~= all.subrange(0, i as int));
                    assert(next.last() == t);
                    assert(rest@ =~= all.subrange(i + 1, n as int));
                }
                if t.wake_tick <= now {
                    ripe.push_back(t);
                } else {
                    kept.push_back(t);
                }
            },
            None => {
                assert(false);
            },
        }
        i += 1;
    }
    proof {
        assert(all.subrange(0, n as int) =~= all);
    }
    (ripe, kept)
}

/// A due sleeper is a sleeper whose time has come.
proof fn lemma_due(s: Seq<Task>, now: u64, i: int)
    requires
        0 <= i < due(s, now).len(),
    ensures
        due(s, now)[i].wake_tick <= now,
        s.contains(due(s, now)[i]),
{
    let p = |t: Task| t.wake_tick <= now;
    s.lemma_filter_pred(p, i);
    assert(s.filter(p).contains(s.filter(p)[i]));
    s.lemma_filter_contains_rev(p, s.filter(p)[i]);
}

/// A sleeper that stays is a sleeper whose time has not come.
proof fn lemma_not_due(s: Seq<Task>, now: u64, i: int)
    requires
        0 <= i < not_due(s, now).len(),
    ensures
        not_due(s, now)[i].wake_tick > now,
        s.contains(not_due(s, now)[i]),
{
    let p = |t: Task| t.wake_tick > now;
    s.lemma_filter_pred(p, i);
    assert(s.filter(p).contains(s.filter(p)[i]));
    s.lemma_filter_contains_rev(p, s.filter(p)[i]);
}

/// A scheduling step leaves every task in the state of its queue.
proof fn lemma_placed(q: Queues, frame: u64, now: u64, idle: IdleTask)
    requires
        task::placed(q),
    ensures
        task::placed(stepped(q, frame, now, idle)),
{
    let q1 = settled(q, frame, now);
    assert(task::placed(q1));
    let q2 = roused(q1, now);
    assert forall|i: int| 0 <= i < q2.sleep.len() implies (#[trigger] q2.sleep[i]).state
        == TaskState::Blocked by {
        lemma_not_due(q1.sleep, now, i);
        let j = choose|j: int| 0 <= j < q1.sleep.len() && q1.sleep[j] == q2.sleep[i];
        assert(q1.sleep[j].state == TaskState::Blocked);
    }
    assert(task::placed(q2));
}

/// What the zombies own.
fn take_holdings(list: VecDeque<Task>) -> (r: VecDeque<Holdings>)
    ensures
        r@ == holdings(list@),
{
    let ghost all = list@;
    let n: usize = list.len();
    let mut rest = list;
    let mut r: VecDeque<Holdings> = VecDeque::new();
    let mut i: usize = 0;
    while i < n
        invariant
            i <= n,
            n == all.len(),
            rest@ == all.subrange(i as int, n as int),
            r@ == holdings(all.subrange(0, i as int)),
        decreases n - i,
    {
        match rest.pop_front() {
            Some(t) => {
                proof {
                    assert(t == all[i as int]);
                    assert(rest@ =~= all.subrange(i + 1, n as int));
                }
                r.push_back(t.held);
                assert(r@ =~= holdings(all.subrange(0, i + 1)));
            },
            None => {
                assert(false);
            },
        }
        i += 1;
    }
    proof {
        assert(all.subrange(0, n as int) =~= all);
    }
    r
}

/// Wakes the tasks in order and appends them to the ready queue.
fn rouse(ready: &mut VecDeque<Task>, ripe: VecDeque<Task>, mem: &mut PhysMem)
    requires
        old(mem).wf(),
        forall|i: int|
            #![trigger ripe@[i]]
            0 <= i < ripe@.len() ==> crate::task::reachable(
                old(mem)@,
                ripe@[i].held,
                ripe@[i].frame,
            ),
    ensures
        final(mem).wf(),
        final(mem).start() == old(mem).start(),
        final(mem).end() == old(mem).end(),
        final(mem)@ == roused_memory(old(mem)@, ripe@),
        final(mem)@.dom() == old(mem)@.dom(),
        final(ready)@ == old(ready)@ + ripe@.map_values(|t: Task| sleep::woken(t)),
{
    let ghost all = ripe@;
    let n: usize = ripe.len();
    let mut rest = ripe;
    let mut i: usize = 0;
    assert(ready@ =~= old(ready)@ + all.subrange(0, 0).map_values(|t: Task| sleep::woken(t)));
    while i < n
        invariant
            i <= n,
            n == all.len(),
            rest@ == all.subrange(i as int, n as int),
            forall|k: int|
                #![trigger all[k]]
                0 <= k < all.len() ==> crate::task::reachable(
                    old(mem)@,
                    all[k].held,
                    all[k].frame,
                ),
            mem.wf(),
            mem.start() == old(mem).start(),
            mem.end() == old(mem).end(),
            mem@.dom() == old(mem)@.dom(),
            mem@ == roused_memory(old(mem)@, all.subrange(0, i as int)),
            ready@ == old(ready)@ + all.subrange(0, i as int).map_values(
                |t: Task| sleep::woken(t),
            ),
        decreases n - i,
    {
        match rest.pop_front() {
            Some(t) => {
                proof {
                    assert(t == all[i as int]);
                    assert(rest@ =~= all.subrange(i + 1, n as int));
                    let next = all.subrange(0, i + 1);
                    assert(next.drop_last() =~= all.subrange(0, i as int));
                    assert(next.last() == t);
                }
                let up: Task = wake_task(t, mem);
                ready.push_back(up);
                assert(ready@ =~= old(ready)@ + all.subrange(0, i + 1).map_values(
                    |t: Task| sleep::woken(t),
                ));
            },
            None => {
                assert(false);
            },
        }
        i += 1;
    }
    proof {
        assert(all.subrange(0, n as int) =~= all);
    }
}

impl Scheduler {
    /// Sends the running task where it has to go.
    fn settle(&mut self, frame: u64, now: u64, mem: &mut PhysMem)
        requires
            old(mem).wf(),
            wakes_at_once(old(self)@, now) ==> ({
                let t = with_frame(old(self)@.current->0, frame);
                crate::task::reachable(old(mem)@, t.held, t.frame)
            }),
        ensures
            final(self)@ == settled(old(self)@, frame, now),
            final(self).next_id == old(self).next_id,
            final(mem).wf(),
            final(mem).start() == old(mem).start(),
            final(mem).end() == old(mem).end(),
            final(mem)@ == settled_memory(old(mem)@, old(self)@, frame, now),
            final(mem)@.dom() == old(mem)@.dom(),
    {
        match self.current.take() {
            None => {},
            Some(c) => {
                if c.state != TaskState::Idle {
                    let mut t: Task = c;
                    if frame != 0 {
                        t.frame = frame;
                    }
                    match t.pending {
                        Pending::Rerun => {
                            t.state = TaskState::Ready;
                            self.ready.push_back(t);
                        },
                        Pending::Park => {
                            if t.wake_tick <= now {
                                let up: Task = wake_task(t, mem);
                                self.ready.push_back(up);
                            } else {
                                t.state = TaskState::Blocked;
                                self.sleep.push_back(t);
                            }
                        },
                        Pending::Reap => {
                            t.state = TaskState::Zombie;
                            self.zombie.push_back(t);
                        },
                    }
                }
            },
        }
    }

    /// One scheduling step: sends the running task where it has to go, wakes the sleepers whose
    /// time has come, and makes the first ready task the running one.
    pub fn dispatch(
        &mut self,
        frame: u64,
        now: u64,
        idle: IdleTask,
        kernel_root: u64,
        mem: &mut PhysMem,
    ) -> (r: Dispatch)
        requires
            old(mem).wf(),
            task::placed(old(self)@),
            steppable(old(mem)@, old(self)@, frame, now, idle),
        ensures
            final(self)@ == stepped(old(self)@, frame, now, idle),
            final(self).next_id == old(self).next_id,
            task::placed(final(self)@),
            final(mem).wf(),
            final(mem).start() == old(mem).start(),
            final(mem).end() == old(mem).end(),
            final(mem)@ == stepped_memory(old(mem)@, old(self)@, frame, now, idle),
            final(mem)@.dom() == old(mem)@.dom(),
            r == dispatch_of(final(self)@, kernel_root),
    {
        let ghost q = self@;
        let ghost m = mem@;
        self.settle(frame, now, mem);
        let ghost q1 = self@;
        let ghost m1 = mem@;
        proof {
            assert forall|i: int|
                #![trigger due(q1.sleep, now)[i]]
                0 <= i < due(q1.sleep, now).len() implies crate::task::reachable(
                m1,
                due(q1.sleep, now)[i].held,
                due(q1.sleep, now)[i].frame,
            ) by {
                lemma_due(q1.sleep, now, i);
                let t = due(q1.sleep, now)[i];
                let j = choose|j: int| 0 <= j < q1.sleep.len() && q1.sleep[j] == t;
                if j < q.sleep.len() {
                    assert(q.sleep[j] == t);
                }
            }
        }
        let mut sleepers: VecDeque<Task> = VecDeque::new();
        std::mem::swap(&mut sleepers, &mut self.sleep);
        let (ripe, kept) = split_due(sleepers, now);
        self.sleep = kept;
        rouse(&mut self.ready, ripe, mem);
        let ghost q2 = self@;
        assert(q2 == roused(q1, now));
        let next: Task = match self.ready.pop_front() {
            Some(t) => {
                assert(self@.ready =~= q2.ready.drop_first());
                Task { state: TaskState::Running, pending: Pending::Rerun, ..t }
            },
            None => {
                let entry: u64 = if self.sleep.len() == 0 && self.zombie.len() == 0 {
                    idle.idle
                } else {
                    idle.wait
                };
                let at: u64 = idle.stack + TASK_STACK_SIZE - FRAME_SIZE;
                let first: TrapFrame = TrapFrame::fresh(
                    idle.stack + TASK_STACK_SIZE,
                    entry,
                    TASK_SSTATUS,
                );
                first.store(mem, at);
                Task {
                    id: 0,
                    state: TaskState::Idle,
                    pending: Pending::Rerun,
                    kind: TaskKind::SMode,
                    frame: at,
                    held: Holdings { space: None, stack: None, stack_size: 0 },
                    wake_tick: 0,
                    resume_sepc: 0,
                }
            },
        };
        let r: Dispatch = Dispatch {
            frame: next.frame,
            root: match &next.held.space {
                Some(s) => s.root_page(),
                None => kernel_root,
            },
        };
        self.current = Some(next);
        proof {
            lemma_placed(q, frame, now, idle);
            assert(self@ =~= stepped(q, frame, now, idle));
        }
        r
    }

    /// The scheduler: gives back what the zombies own and takes a scheduling step.
    ///
    /// The zombies are those of earlier steps. A task that ends in this step still runs on its own
    /// stack, so it is given back by the next one. Returns the stacks for the frame allocator.
    pub fn scheduler<A: PageFrameAllocator>(
        &mut self,
        frame: u64,
        now: u64,
        idle: IdleTask,
        kernel_root: u64,
        mem: &mut PhysMem,
        frames: &mut A,
    ) -> (r: (Dispatch, Vec<(u64, u64)>))
        requires
            old(mem).wf(),
            old(frames).ready(old(mem)@.dom()),
            task::placed(old(self)@),
            steppable(old(mem)@, old(self)@, frame, now, idle),
            crate::task::reclaimable(
                old(mem)@,
                old(frames).free(),
                holdings(old(self)@.zombie),
            ),
        ensures
            final(self)@ == stepped(
                (Queues { zombie: Seq::empty(), ..old(self)@ }),
                frame,
                now,
                idle,
            ),
            final(self).next_id == old(self).next_id,
            task::placed(final(self)@),
            final(mem).wf(),
            final(mem).start() == old(mem).start(),
            final(mem).end() == old(mem).end(),
            final(mem)@.dom() == old(mem)@.dom(),
            final(frames).ready(final(mem)@.dom()),
            final(frames).recycles() == old(frames).recycles(),
            final(frames).free() == prune::released(
                old(frames).free(),
                crate::task::tables_of_all(old(mem)@, holdings(old(self)@.zombie)),
                old(frames).recycles(),
            ),
            reclaimed_and_stepped(old(mem)@, final(mem)@, old(self)@, frame, now, idle),
            r.0 == dispatch_of(final(self)@, kernel_root),
            r.1@ == crate::task::stacks_of(holdings(old(self)@.zombie)),
    {
        let ghost m = mem@;
        let ghost q = self@;
        let mut zombies: VecDeque<Task> = VecDeque::new();
        std::mem::swap(&mut zombies, &mut self.zombie);
        let held: VecDeque<Holdings> = take_holdings(zombies);
        let stacks: Vec<(u64, u64)> = reclaim_all(held, mem, frames);
        let ghost m1 = mem@;
        assert(phys::same_outside(
            m,
            m1,
            crate::task::tables_of_all(m, holdings(q.zombie)),
        ));
        let r: Dispatch = self.dispatch(frame, now, idle, kernel_root, mem);
        (r, stacks)
    }

    /// Ends the running task and schedules at once.
    pub fn terminate_current<A: PageFrameAllocator>(
        &mut self,
        frame: u64,
        now: u64,
        idle: IdleTask,
        kernel_root: u64,
        mem: &mut PhysMem,
        frames: &mut A,
    ) -> (r: (Dispatch, Vec<(u64, u64)>))
        requires
            old(mem).wf(),
            old(frames).ready(old(mem)@.dom()),
            task::placed(old(self)@),
            steppable(
                old(mem)@,
                (Queues { current: sleep::ending(old(self)@.current), ..old(self)@ }),
                frame,
                now,
                idle,
            ),
            crate::task::reclaimable(
                old(mem)@,
                old(frames).free(),
                holdings(old(self)@.zombie),
            ),
        ensures
            final(self)@ == stepped(
                (Queues {
                    zombie: Seq::empty(),
                    current: sleep::ending(old(self)@.current),
                    ..old(self)@
                }),
                frame,
                now,
                idle,
            ),
            final(self).next_id == old(self).next_id,
            task::placed(final(self)@),
            final(mem).wf(),
            final(mem).start() == old(mem).start(),
            final(mem).end() == old(mem).end(),
            final(mem)@.dom() == old(mem)@.dom(),
            final(frames).ready(final(mem)@.dom()),
            final(frames).recycles() == old(frames).recycles(),
            final(frames).free() == prune::released(
                old(frames).free(),
                crate::task::tables_of_all(old(mem)@, holdings(old(self)@.zombie)),
                old(frames).recycles(),
            ),
            reclaimed_and_stepped(
                old(mem)@,
                final(mem)@,
                (Queues { current: sleep::ending(old(self)@.current), ..old(self)@ }),
                frame,
                now,
                idle,
            ),
            r.0 == dispatch_of(final(self)@, kernel_root),
            r.1@ == crate::task::stacks_of(holdings(old(self)@.zombie)),
    {
        self.exit();
        self.scheduler(frame, now, idle, kernel_root, mem, frames)
    }
}

/// Memory after the scheduler ran: the zombies' tables may hold anything, and then the step was
/// taken.
pub open spec fn reclaimed_and_stepped(
    m: Map<int, u64>,
    m2: Map<int, u64>,
    q: Queues,
    frame: u64,
    now: u64,
    idle: IdleTask,
) -> bool {
    exists|m1: Map<int, u64>| #[trigger]
        phys::same_outside(m, m1, crate::task::tables_of_all(m, holdings(q.zombie))) && m2
            == stepped_memory(
            m1,
            (Queues { zombie: Seq::empty(), ..q }),
            frame,
            now,
            idle,
        )
}

} // verus!
