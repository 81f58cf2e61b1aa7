//! What scheduling promises.
use vstd::prelude::*;
use crate::context;
use crate::memory::space::AddressSpace;
use crate::order;
use crate::scheduler::schedule;
use crate::scheduler::schedule::IdleTask;
use crate::scheduler::sleep;
use crate::scheduler::spawn;
use crate::scheduler::task;
use crate::scheduler::task::{Pending, Queues, Task, TaskState};
use crate::task::TaskKind;

verus! {

/// How many tasks of the sequence have the id.
pub open spec fn occurs(s: Seq<Task>, id: u64) -> int
    decreases s.len(),
{
    if s.len() == 0 {
        0
    } else {
        occurs(s.drop_last(), id) + (if s.last().id == id {
            1int
        } else {
            0
        })
    }
}

/// How many tasks have the id. The idle task is none.
pub open spec fn count(q: Queues, id: u64) -> int {
    occurs(q.ready, id) + occurs(q.sleep, id) + occurs(q.zombie, id) + (match q.current {
        Some(t) => if t.state != TaskState::Idle && t.id == id {
            1int
        } else {
            0
        },
        None => 0,
    })
}

proof fn lemma_occurs_push(s: Seq<Task>, t: Task, id: u64)
    ensures
        occurs(s.push(t), id) == occurs(s, id) + (if t.id == id {
            1int
        } else {
            0
        }),
{
    assert(s.push(t).drop_last() =~= s);
}

proof fn lemma_occurs_woken(s: Seq<Task>, a: Seq<Task>, id: u64)
    ensures
        occurs(a + s.map_values(|t: Task| sleep::woken(t)), id) == occurs(a, id) + occurs(s, id),
    decreases s.len(),
{
    let f = |t: Task| sleep::woken(t);
    if s.len() == 0 {
        assert(a + s.map_values(f) =~= a);
    } else {
        let b = a + s.map_values(f);
        assert(b.drop_last() =~= a + s.drop_last().map_values(f));
        assert(b.last() == sleep::woken(s.last()));
        lemma_occurs_woken(s.drop_last(), a, id);
    }
}

proof fn lemma_occurs_split(s: Seq<Task>, now: u64, id: u64)
    ensures
        occurs(schedule::due(s, now), id) + occurs(schedule::not_due(s, now), id) == occurs(s, id),
    decreases s.len(),
{
    reveal(Seq::filter);
    if s.len() > 0 {
        let t = s.last();
        lemma_occurs_split(s.drop_last(), now, id);
        if t.wake_tick <= now {
            lemma_occurs_push(schedule::due(s.drop_last(), now), t, id);
        } else {
            lemma_occurs_push(schedule::not_due(s.drop_last(), now), t, id);
        }
    }
}

proof fn lemma_occurs_first(s: Seq<Task>, id: u64)
    requires
        s.len() > 0,
    ensures
        occurs(s, id) == occurs(s.drop_first(), id) + (if s[0].id == id {
            1int
        } else {
            0
        }),
    decreases s.len(),
{
    if s.len() > 1 {
        lemma_occurs_first(s.drop_last(), id);
        assert(s.drop_last().drop_first() =~= s.drop_first().drop_last());
    } else {
        assert(occurs(s.drop_last(), id) == 0);
        assert(occurs(s.drop_first(), id) == 0);
    }
}

/// A scheduling step neither loses nor doubles a task.
pub proof fn law_no_task_lost(q: Queues, frame: u64, now: u64, idle: IdleTask, id: u64)
    ensures
        count(schedule::stepped(q, frame, now, idle), id) == count(q, id),
{
    let q1 = schedule::settled(q, frame, now);
    if q.current is Some {
        let t = schedule::with_frame(q.current->0, frame);
        lemma_occurs_push(q.ready, Task { state: TaskState::Ready, ..t }, id);
        lemma_occurs_push(q.ready, sleep::woken(t), id);
        lemma_occurs_push(q.sleep, Task { state: TaskState::Blocked, ..t }, id);
        lemma_occurs_push(q.zombie, Task { state: TaskState::Zombie, ..t }, id);
    }
    assert(count(q1, id) == count(q, id));
    let q2 = schedule::roused(q1, now);
    lemma_occurs_woken(schedule::due(q1.sleep, now), q1.ready, id);
    lemma_occurs_split(q1.sleep, now, id);
    assert(count(q2, id) == count(q1, id));
    if q2.ready.len() > 0 {
        lemma_occurs_first(q2.ready, id);
    }
}

/// The queue is first in, first out: the task that has waited longest runs next, and every other
/// ready task moves up by one.
pub proof fn law_round_robin(q: Queues, frame: u64, now: u64, idle: IdleTask, i: int)
    requires
        0 <= i < q.ready.len(),
    ensures
        ({
            let next = schedule::stepped(q, frame, now, idle);
            if i == 0 {
                next.current matches Some(t) && t.id == q.ready[0].id && t.frame
                    == q.ready[0].frame && t.state == TaskState::Running
            } else {
                i - 1 < next.ready.len() && next.ready[i - 1] == q.ready[i]
            }
        }),
{
}

/// A sleeper whose time has not come stays asleep.
pub proof fn law_not_woken_early(q: Queues, frame: u64, now: u64, idle: IdleTask, i: int)
    requires
        0 <= i < q.sleep.len(),
        q.sleep[i].wake_tick > now,
    ensures
        schedule::stepped(q, frame, now, idle).sleep.contains(q.sleep[i]),
{
    let q1 = schedule::settled(q, frame, now);
    assert(q1.sleep[i] == q.sleep[i]);
    q1.sleep.lemma_filter_contains(|t: Task| t.wake_tick > now, i);
}

/// No sleeper sleeps past its time: after a step every sleeper's time is still to come.
pub proof fn law_not_woken_late(q: Queues, frame: u64, now: u64, idle: IdleTask, i: int)
    requires
        0 <= i < schedule::stepped(q, frame, now, idle).sleep.len(),
    ensures
        schedule::stepped(q, frame, now, idle).sleep[i].wake_tick > now,
{
    let q1 = schedule::settled(q, frame, now);
    q1.sleep.lemma_filter_pred(|t: Task| t.wake_tick > now, i);
}

/// A task that ends is a zombie after the step in which it ends, so its stack is given back by a
/// later step and not while the processor still runs on it.
pub proof fn law_reaped_later(q: Queues, frame: u64, now: u64, idle: IdleTask)
    requires
        q.current matches Some(t) && t.state == TaskState::Running && t.pending == Pending::Reap,
    ensures
        ({
            let z = schedule::stepped(q, frame, now, idle).zombie;
            z.len() == q.zombie.len() + 1 && z.last().id == q.current->0.id
                && z.last().held == q.current->0.held
        }),
{
}

/// The idle task runs only when no task is ready, and it shuts the system down only when no task
/// is left at all.
pub proof fn law_idle(q: Queues, frame: u64, now: u64, idle: IdleTask)
    requires
        task::placed(q),
        idle.idle != idle.wait,
    ensures
        ({
            let before = schedule::roused(schedule::settled(q, frame, now), now);
            let next = schedule::stepped(q, frame, now, idle);
            &&& next.current is Some
            &&& next.current->0.state == TaskState::Idle ==> next.ready.len() == 0
            &&& next.current->0.state == TaskState::Idle ==> (schedule::idle_entry(before, idle)
                == idle.idle <==> next.sleep.len() == 0 && next.zombie.len() == 0)
        }),
{
}

/// A request to sleep that no tick has seen is undone when the task goes on: only the wake-up time
/// and the resume point, which count for sleepers only, remain.
pub proof fn law_recover_undoes_sleep(c: Option<Task>, wake_tick: u64, resume: u64)
    requires
        c matches Some(t) ==> t.pending == Pending::Rerun,
    ensures
        sleep::recovered(sleep::dozing(c, wake_tick, resume)) == (match c {
            Some(t) => Some(Task { wake_tick, resume_sepc: resume, ..t }),
            None => None,
        }),
{
}

/// The registers that an interrupt saves are those that the interrupted task goes on with: wherever
/// it goes, it goes with the frame that was handed to the step, or with its old one if that was lost.
/// A task that can run comes behind all tasks that were ready; one that sleeps sleeps until its time;
/// one that has ended is a zombie.
pub proof fn law_preempted_keeps_frame(q: Queues, frame: u64, now: u64, idle: IdleTask)
    requires
        q.current matches Some(c) && c.state != TaskState::Idle,
    ensures
        ({
            let c = q.current->0;
            let f = if frame == 0 {
                c.frame
            } else {
                frame
            };
            let next = schedule::stepped(q, frame, now, idle);
            let asleep = c.pending == Pending::Park && c.wake_tick > now;
            &&& c.pending == Pending::Reap ==> next.zombie == q.zombie.push(
                Task { frame: f, state: TaskState::Zombie, ..c },
            )
            &&& c.pending != Pending::Reap ==> next.zombie == q.zombie
            &&& asleep ==> next.sleep.len() > 0 && next.sleep.last() == (Task {
                frame: f,
                state: TaskState::Blocked,
                ..c
            })
            &&& c.pending != Pending::Reap && !asleep ==> if q.ready.len() == 0 {
                next.current == Some(
                    Task { frame: f, state: TaskState::Running, pending: Pending::Rerun, ..c },
                )
            } else {
                next.ready.len() >= q.ready.len() && next.ready[q.ready.len() - 1] == (Task {
                    frame: f,
                    state: TaskState::Ready,
                    pending: Pending::Rerun,
                    ..c
                })
            }
        }),
{
    let c = q.current->0;
    let q1 = schedule::settled(q, frame, now);
    if c.pending == Pending::Park && c.wake_tick > now {
        reveal(Seq::filter);
        assert(q1.sleep.last() == (Task {
            state: TaskState::Blocked,
            ..schedule::with_frame(c, frame)
        }));
    }
}

/// The task that was ready first runs, with everything as it was saved; the processor is handed its
/// frame and its root table, or the kernel's if it has no space of its own.
pub proof fn law_first_ready_resumes(
    q: Queues,
    frame: u64,
    now: u64,
    idle: IdleTask,
    kernel_root: u64,
)
    requires
        q.ready.len() > 0,
    ensures
        ({
            let t = q.ready[0];
            let next = schedule::stepped(q, frame, now, idle);
            let r = schedule::dispatch_of(next, kernel_root);
            &&& next.current == Some(
                Task { state: TaskState::Running, pending: Pending::Rerun, ..t },
            )
            &&& r.frame == t.frame
            &&& t.held.space matches Some(s) ==> r.root == (s.root() / 4096) as u64
            &&& t.held.space is None ==> r.root == kernel_root
        }),
{
}

/// A task that can go on goes on, once the tasks that were ready before it have had their turn, from
/// the frame of the interrupt that took the processor from it: here with one other task ready.
pub proof fn law_resumes_where_preempted(
    q: Queues,
    frame: u64,
    now: u64,
    frame2: u64,
    now2: u64,
    idle: IdleTask,
    kernel_root: u64,
)
    requires
        q.current matches Some(c) && c.state == TaskState::Running && c.pending == Pending::Rerun,
        frame != 0,
        q.ready.len() == 1,
    ensures
        ({
            let c = q.current->0;
            let later = schedule::stepped(
                schedule::stepped(q, frame, now, idle),
                frame2,
                now2,
                idle,
            );
            &&& later.current == Some(Task { frame, ..c })
            &&& schedule::dispatch_of(later, kernel_root).frame == frame
        }),
{
    law_preempted_keeps_frame(q, frame, now, idle);
    law_first_ready_resumes(schedule::stepped(q, frame, now, idle), frame2, now2, idle, kernel_root);
}

/// The tasks that run, one after the other, if nothing happens any more: the running one and the
/// ready ones.
pub open spec fn in_line(q: Queues) -> Seq<Task> {
    seq![q.current->0] + q.ready
}

/// A sleeper whose time has come is ready or runs, with everything else as it was; sleepers come in
/// the order in which they slept, behind the tasks that were ready.
pub proof fn law_due_sleepers_wake(
    q: Queues,
    frame: u64,
    now: u64,
    idle: IdleTask,
    i: int,
    j: int,
)
    requires
        0 <= i < q.sleep.len(),
        0 <= j < q.sleep.len(),
        q.sleep[i].wake_tick <= now,
        q.sleep[j].wake_tick <= now,
    ensures
        exists|a: int, b: int|
            q.ready.len() <= a < in_line(schedule::stepped(q, frame, now, idle)).len()
                && q.ready.len() <= b < in_line(schedule::stepped(q, frame, now, idle)).len() && (i
                < j ==> a < b) && (#[trigger] in_line(schedule::stepped(q, frame, now, idle))[a])
                == (Task {
                state: if a == 0 {
                    TaskState::Running
                } else {
                    TaskState::Ready
                },
                pending: Pending::Rerun,
                ..q.sleep[i]
            }) && (#[trigger] in_line(schedule::stepped(q, frame, now, idle))[b]) == (Task {
                state: if b == 0 {
                    TaskState::Running
                } else {
                    TaskState::Ready
                },
                pending: Pending::Rerun,
                ..q.sleep[j]
            }),
{
    let q1 = schedule::settled(q, frame, now);
    let q2 = schedule::roused(q1, now);
    let p = |t: Task| t.wake_tick <= now;
    let n = q1.ready.len();
    assert(q1.sleep[i] == q.sleep[i]);
    assert(q1.sleep[j] == q.sleep[j]);
    order::lemma_rank(q1.sleep, p, i);
    order::lemma_rank(q1.sleep, p, j);
    if i < j {
        order::lemma_rank_order(q1.sleep, p, i, j);
    }
    let a = n + order::rank(q1.sleep, p, i);
    let b = n + order::rank(q1.sleep, p, j);
    assert(q2.ready[a] == sleep::woken(q.sleep[i]));
    assert(q2.ready[b] == sleep::woken(q.sleep[j]));
    let line = in_line(schedule::stepped(q, frame, now, idle));
    assert(line.len() == q2.ready.len());
    assert forall|k: int| 1 <= k < line.len() implies #[trigger] line[k] == q2.ready[k] by {}
    let ta = line[a];
    let tb = line[b];
}

/// Sleepers whose time has not come keep their order.
pub proof fn law_sleepers_keep_order(
    q: Queues,
    frame: u64,
    now: u64,
    idle: IdleTask,
    i: int,
    j: int,
)
    requires
        0 <= i < j < q.sleep.len(),
        q.sleep[i].wake_tick > now,
        q.sleep[j].wake_tick > now,
    ensures
        exists|a: int, b: int|
            0 <= a < b < schedule::stepped(q, frame, now, idle).sleep.len()
                && (#[trigger] schedule::stepped(q, frame, now, idle).sleep[a]) == q.sleep[i]
                && (#[trigger] schedule::stepped(q, frame, now, idle).sleep[b]) == q.sleep[j],
{
    let q1 = schedule::settled(q, frame, now);
    let p = |t: Task| t.wake_tick > now;
    assert(q1.sleep[i] == q.sleep[i]);
    assert(q1.sleep[j] == q.sleep[j]);
    order::lemma_rank(q1.sleep, p, i);
    order::lemma_rank(q1.sleep, p, j);
    order::lemma_rank_order(q1.sleep, p, i, j);
    let a = order::rank(q1.sleep, p, i);
    let b = order::rank(q1.sleep, p, j);
    assert(schedule::stepped(q, frame, now, idle).sleep[a] == q.sleep[i]);
    assert(schedule::stepped(q, frame, now, idle).sleep[b] == q.sleep[j]);
}

/// When no task is ready and none is due, and the running one does not go on, the idle task runs in
/// the kernel's space, from a fresh frame at the top of its stack: it waits for the next tick while
/// tasks sleep or are to be given back, and shuts the system down when there are none.
pub proof fn law_idle_runs(
    m: Map<int, u64>,
    q: Queues,
    frame: u64,
    now: u64,
    idle: IdleTask,
    kernel_root: u64,
)
    requires
        q.ready.len() == 0,
        forall|i: int| 0 <= i < q.sleep.len() ==> (#[trigger] q.sleep[i]).wake_tick > now,
        q.current matches Some(c) ==> c.state == TaskState::Idle || c.pending == Pending::Reap || (
        c.pending == Pending::Park && c.wake_tick > now),
        idle.stack + 16384 <= u64::MAX,
        context::has_frame_slot(m, idle.stack + 16120),
    ensures
        ({
            let next = schedule::stepped(q, frame, now, idle);
            let m2 = schedule::stepped_memory(m, q, frame, now, idle);
            let r = schedule::dispatch_of(next, kernel_root);
            let top = idle.stack + 16384;
            let at = top - 264;
            &&& next.ready.len() == 0
            &&& next.current matches Some(t) && t.state == TaskState::Idle && t.frame == at
                && t.held.space is None && t.held.stack is None && t.kind == TaskKind::SMode
            &&& r.frame == at
            &&& r.root == kernel_root
            &&& m2[at + 8] == top
            &&& m2[at + 248] == (if next.sleep.len() == 0 && next.zombie.len() == 0 {
                idle.idle
            } else {
                idle.wait
            })
            &&& m2[at + 256] == 288
            &&& forall|k: int|
                0 <= k < 31 && k != 1 ==> #[trigger] m2[idle.stack + 16120 + 8 * k] == 0
            &&& forall|a: int| a < at || a >= at + 264 ==> #[trigger] m2[a] == m[a]
        }),
{
    let q1 = schedule::settled(q, frame, now);
    let p = |t: Task| t.wake_tick <= now;
    let late = |t: Task| t.wake_tick > now;
    assert forall|i: int| 0 <= i < q1.sleep.len() implies !p(#[trigger] q1.sleep[i]) && late(
        q1.sleep[i],
    ) by {
        if i < q.sleep.len() {
            assert(q1.sleep[i] == q.sleep[i]);
        }
    }
    order::lemma_filter_all(q1.sleep, p);
    order::lemma_filter_all(q1.sleep, late);
    let q2 = schedule::roused(q1, now);
    let ws = context::fresh_words(
        (idle.stack + 16384) as u64,
        schedule::idle_entry(q2, idle),
        crate::task::TASK_SSTATUS,
    );
    context::lemma_with_words(m, idle.stack + 16120, ws);
    let m2 = schedule::stepped_memory(m, q, frame, now, idle);
    assert(m2 == context::with_words(m, idle.stack + 16120, ws));
    assert(m2[idle.stack + 16120 + 8 * 1] == ws[1]);
    assert(m2[idle.stack + 16120 + 8 * 31] == ws[31]);
    assert(m2[idle.stack + 16120 + 8 * 32] == ws[32]);
}

/// An interrupt of the idle task changes no queue by itself: only sleepers that are due move.
pub proof fn law_idle_goes_nowhere(q: Queues, frame: u64, now: u64, idle: IdleTask)
    requires
        q.current matches Some(c) && c.state == TaskState::Idle,
        forall|i: int| 0 <= i < q.sleep.len() ==> (#[trigger] q.sleep[i]).wake_tick > now,
    ensures
        ({
            let next = schedule::stepped(q, frame, now, idle);
            &&& next.sleep == q.sleep
            &&& next.zombie == q.zombie
            &&& q.ready.len() > 0 ==> next.ready == q.ready.drop_first()
        }),
{
    order::lemma_filter_all(q.sleep, |t: Task| t.wake_tick <= now);
    order::lemma_filter_all(q.sleep, |t: Task| t.wake_tick > now);
    let q1 = schedule::settled(q, frame, now);
    assert(schedule::roused(q1, now).ready =~= q.ready);
}

/// Where the saved program counter of a task is.
pub open spec fn counter_at(t: Task) -> int {
    crate::task::frame_at(t.held, t.frame) + 248
}

proof fn lemma_roused_memory(m: Map<int, u64>, ts: Seq<Task>, a: int)
    ensures
        (forall|i: int| 0 <= i < ts.len() ==> counter_at(#[trigger] ts[i]) != a)
            ==> schedule::roused_memory(m, ts)[a] == m[a],
        forall|i: int|
            #![trigger ts[i]]
            0 <= i < ts.len() && counter_at(ts[i]) == a && (forall|j: int|
                0 <= j < ts.len() && counter_at(#[trigger] ts[j]) == a ==> ts[j].resume_sepc
                    == ts[i].resume_sepc) ==> schedule::roused_memory(m, ts)[a]
                == ts[i].resume_sepc,
    decreases ts.len(),
{
    if ts.len() > 0 {
        let head = ts.drop_last();
        lemma_roused_memory(m, head, a);
        assert(forall|i: int| 0 <= i < head.len() ==> head[i] == ts[i]);
        assert(ts[ts.len() - 1] == ts.last());
        if counter_at(ts.last()) != a {
            assert forall|i: int|
                #![trigger ts[i]]
                0 <= i < ts.len() && counter_at(ts[i]) == a && (forall|j: int|
                    0 <= j < ts.len() && counter_at(#[trigger] ts[j]) == a ==> ts[j].resume_sepc
                        == ts[i].resume_sepc) implies schedule::roused_memory(m, ts)[a]
                == ts[i].resume_sepc by {
                assert(head[i] == ts[i]);
                assert forall|j: int| 0 <= j < head.len() && counter_at(
                    #[trigger] head[j],
                ) == a implies head[j].resume_sepc == head[i].resume_sepc by {
                    assert(ts[j] == head[j]);
                }
            }
        }
    }
}

/// A due sleeper is one of the sleepers.
proof fn lemma_due(s: Seq<Task>, now: u64, i: int)
    requires
        0 <= i < schedule::due(s, now).len(),
    ensures
        schedule::due(s, now)[i].wake_tick <= now,
        s.contains(schedule::due(s, now)[i]),
{
    let p = |t: Task| t.wake_tick <= now;
    s.lemma_filter_pred(p, i);
    assert(s.filter(p).contains(s.filter(p)[i]));
    s.lemma_filter_contains_rev(p, s.filter(p)[i]);
}

/// The frame of the idle task does not reach the address.
pub open spec fn off_idle_frame(idle: IdleTask, a: int) -> bool {
    a < idle.stack + 16120 || a >= idle.stack + 16384
}

/// A sleeper that wakes goes on at its resume point: that is its saved program counter after the
/// step, if no other task keeps its own in the same word.
pub proof fn law_woken_at_resume_point(
    m: Map<int, u64>,
    q: Queues,
    frame: u64,
    now: u64,
    idle: IdleTask,
    i: int,
)
    requires
        0 <= i < q.sleep.len(),
        q.sleep[i].wake_tick <= now,
        forall|j: int|
            0 <= j < q.sleep.len() && j != i ==> counter_at(#[trigger] q.sleep[j]) != counter_at(
                q.sleep[i],
            ),
    ensures
        schedule::stepped_memory(m, q, frame, now, idle)[counter_at(q.sleep[i])]
            == q.sleep[i].resume_sepc,
{
    let q1 = schedule::settled(q, frame, now);
    let p = |t: Task| t.wake_tick <= now;
    let m1 = schedule::settled_memory(m, q, frame, now);
    let a = counter_at(q.sleep[i]);
    let ts = schedule::due(q1.sleep, now);
    assert(q1.sleep[i] == q.sleep[i]);
    order::lemma_rank(q1.sleep, p, i);
    let k = order::rank(q1.sleep, p, i);
    assert(ts[k] == q.sleep[i]);
    assert forall|j: int| 0 <= j < ts.len() && counter_at(#[trigger] ts[j]) == a implies ts[j]
        == q.sleep[i] by {
        lemma_due(q1.sleep, now, j);
        let x = choose|x: int| 0 <= x < q1.sleep.len() && q1.sleep[x] == ts[j];
        if x < q.sleep.len() {
            assert(q.sleep[x] == ts[j]);
        }
    }
    lemma_roused_memory(m1, ts, a);
    assert(schedule::roused(q1, now).ready.len() > 0);
}

/// A running task that asked to sleep and is due goes on at its resume point, in the frame of the
/// interrupt.
pub proof fn law_short_sleep_resumes(
    m: Map<int, u64>,
    q: Queues,
    frame: u64,
    now: u64,
    idle: IdleTask,
)
    requires
        q.current matches Some(c) && c.state != TaskState::Idle && c.pending == Pending::Park
            && c.wake_tick <= now,
        frame != 0,
        forall|j: int|
            0 <= j < q.sleep.len() ==> counter_at(#[trigger] q.sleep[j]) != counter_at(
                (Task { frame, ..q.current->0 }),
            ),
    ensures
        schedule::stepped_memory(m, q, frame, now, idle)[counter_at(
            (Task { frame, ..q.current->0 }),
        )] == q.current->0.resume_sepc,
{
    let q1 = schedule::settled(q, frame, now);
    let m1 = schedule::settled_memory(m, q, frame, now);
    let ts = schedule::due(q.sleep, now);
    let a = counter_at((Task { frame, ..q.current->0 }));
    assert forall|j: int| 0 <= j < ts.len() implies counter_at(#[trigger] ts[j]) != a by {
        lemma_due(q.sleep, now, j);
        let x = choose|x: int| 0 <= x < q.sleep.len() && q.sleep[x] == ts[j];
        assert(q.sleep[x] == ts[j]);
    }
    lemma_roused_memory(m1, ts, a);
    assert(schedule::roused(q1, now).ready.len() > 0);
}

/// A step writes nothing but the saved program counters of the tasks that it wakes, and the frame of
/// the idle task.
pub proof fn law_step_spares_memory(
    m: Map<int, u64>,
    q: Queues,
    frame: u64,
    now: u64,
    idle: IdleTask,
    a: int,
)
    requires
        context::has_frame_slot(m, idle.stack + 16120),
        off_idle_frame(idle, a),
        forall|j: int|
            0 <= j < q.sleep.len() && q.sleep[j].wake_tick <= now ==> counter_at(
                #[trigger] q.sleep[j],
            ) != a,
        q.current matches Some(c) && c.state != TaskState::Idle && c.pending == Pending::Park
            && c.wake_tick <= now ==> counter_at(
            (Task {
                frame: if frame == 0 {
                    q.current->0.frame
                } else {
                    frame
                },
                ..q.current->0
            }),
        ) != a,
    ensures
        schedule::stepped_memory(m, q, frame, now, idle)[a] == m[a],
{
    let q1 = schedule::settled(q, frame, now);
    let m1 = schedule::settled_memory(m, q, frame, now);
    let ts = schedule::due(q1.sleep, now);
    assert forall|j: int| 0 <= j < ts.len() implies counter_at(#[trigger] ts[j]) != a by {
        lemma_due(q1.sleep, now, j);
        let x = choose|x: int| 0 <= x < q1.sleep.len() && q1.sleep[x] == ts[j];
        if x < q.sleep.len() {
            assert(q.sleep[x] == ts[j]);
        }
    }
    lemma_roused_memory(m1, ts, a);
    let m2 = schedule::roused_memory(m1, ts);
    let q2 = schedule::roused(q1, now);
    if q2.ready.len() == 0 {
        assert(ts.len() == 0);
        let ws = context::fresh_words(
            (idle.stack + 16384) as u64,
            schedule::idle_entry(q2, idle),
            crate::task::TASK_SSTATUS,
        );
        context::lemma_with_words(m, idle.stack + 16120, ws);
    }
}

/// A new task is ready to run from the frame at the top of its stack, and owns its space and stack.
pub proof fn law_new_task(id: u64, kind: TaskKind, space: AddressSpace, stack: u64)
    ensures
        ({
            let t = spawn::new_task(id, kind, space, stack);
            &&& t.id == id
            &&& t.kind == kind
            &&& t.state == TaskState::Ready
            &&& t.pending == Pending::Rerun
            &&& t.frame == 0xC000_0000 + 16384 - 264
            &&& t.held.space == Some(space)
            &&& t.held.stack == Some(stack)
            &&& t.held.stack_size == 16384
        }),
{
}

/// What a task asks for while it runs is what the next step does with it: to sleep until the time
/// and go on at the resume point, to end, or neither after it went on.
pub proof fn law_requests(t: Task, wake_tick: u64, resume: u64)
    ensures
        sleep::dozing(Some(t), wake_tick, resume) matches Some(d) && d == (Task {
            pending: Pending::Park,
            wake_tick,
            resume_sepc: resume,
            ..t
        }),
        sleep::ending(Some(t)) == Some(Task { pending: Pending::Reap, ..t }),
        t.pending == Pending::Park ==> sleep::recovered(Some(t)) == Some(
            Task { pending: Pending::Rerun, ..t },
        ),
        t.pending != Pending::Park ==> sleep::recovered(Some(t)) == Some(t),
        sleep::dozing(None, wake_tick, resume) is None,
        sleep::ending(None) is None,
        sleep::recovered(None) is None,
{
}

/// What zombies own is what is given back for them, in order.
pub proof fn law_zombies_given_back(s: Seq<Task>, i: int)
    requires
        0 <= i < s.len(),
    ensures
        schedule::holdings(s).len() == s.len(),
        schedule::holdings(s)[i] == s[i].held,
{
}

/// The scheduler writes nothing but the tables of zombies, the saved program counters of the tasks that
/// it wakes, and the frame of the idle task.
pub proof fn law_scheduler_spares_memory(
    m: Map<int, u64>,
    m2: Map<int, u64>,
    q: Queues,
    frame: u64,
    now: u64,
    idle: IdleTask,
    f: int,
    i: int,
)
    requires
        schedule::reclaimed_and_stepped(m, m2, q, frame, now, idle),
        context::has_frame_slot(m, idle.stack + 16120),
        f % 4096 == 0,
        0 <= i < 512,
        off_idle_frame(idle, f + 8 * i),
        forall|j: int|
            0 <= j < q.zombie.len() ==> ((#[trigger] q.zombie[j]).held.space matches Some(s)
                ==> !crate::memory::sv39::owned(m, s.root(), s.shared()).contains(f)),
        forall|j: int|
            0 <= j < q.sleep.len() && q.sleep[j].wake_tick <= now ==> counter_at(
                #[trigger] q.sleep[j],
            ) != f + 8 * i,
        q.current matches Some(c) && c.state != TaskState::Idle && c.pending == Pending::Park
            && c.wake_tick <= now ==> counter_at(
            (Task {
                frame: if frame == 0 {
                    q.current->0.frame
                } else {
                    frame
                },
                ..q.current->0
            }),
        ) != f + 8 * i,
    ensures
        m2[f + 8 * i] == m[f + 8 * i],
{
    let hs = schedule::holdings(q.zombie);
    let rest = Queues { zombie: Seq::empty(), ..q };
    let m1 = choose|m1: Map<int, u64>| #[trigger]
        crate::memory::phys::same_outside(m, m1, crate::task::tables_of_all(m, hs)) && m2
            == schedule::stepped_memory(m1, rest, frame, now, idle);
    crate::task::law_tables_given_back(m, hs, f);
    if crate::task::tables_of_all(m, hs).contains(f) {
        let j = choose|j: int|
            0 <= j < hs.len() && ((#[trigger] hs[j]).space matches Some(s)
                && crate::memory::sv39::owned(m, s.root(), s.shared()).contains(f));
        assert(q.zombie[j].held == hs[j]);
    }
    law_step_spares_memory(m1, rest, frame, now, idle, f + 8 * i);
    assert(m1[f + 8 * i] == m[f + 8 * i]);
}

} // verus!
