//! What ending, waiting and killing promise together.
use vstd::prelude::*;
use crate::order;
use crate::schedule::exit;
use crate::schedule::kill;
use crate::schedule::kill::KillError;
use crate::schedule::sleep;
use crate::schedule::task;
use crate::schedule::task::{Pending, Queues, Task, TaskState, WaitResult};
use crate::schedule::wait;
use crate::task::TaskKind;

verus! {

/// What a task gives to `exit` is what a wait for it gives back: once the running task has ended
/// and is a zombie, it is found as such, with the exit code.
pub proof fn law_exit_code_collected(q: Queues, t: Task, code: i32)
    requires
        q.current == Some(t),
        !task::some_of(q.zombie, task::has_id(t.id)),
    ensures
        ({
            let ended = exit::ending(q.current, code)->0;
            let zombie = q.zombie.push(Task { state: TaskState::Zombie, ..ended });
            task::first_of(zombie, task::has_id(t.id)) matches Some(z) && z.exit_code == Some(code)
                && z.held == t.held
        }),
{
    let ended = exit::ending(q.current, code)->0;
    let z = Task { state: TaskState::Zombie, ..ended };
    let zombie = q.zombie.push(z);
    let p = task::has_id(t.id);
    task::lemma_first_at(zombie, p);
    let k = task::first_at(zombie, p);
    assert(p(zombie[zombie.len() - 1]));
    if k < q.zombie.len() {
        assert(p(q.zombie[k]));
    }
    if k == zombie.len() {
        assert(!p(zombie[zombie.len() - 1]));
    }
}

/// A task that waits for another one is woken when that is killed, and its wait then says so.
pub proof fn law_kill_wakes_waiter(q: Queues, id: u64, resume: u64, i: int)
    requires
        kill::refusal(q, id) is None,
        0 <= i < q.sleep.len(),
        q.sleep[i].wait_pid == Some(id),
        q.sleep[i].id != id,
        forall|j: int| 0 <= j < q.sleep.len() && j != i ==> (#[trigger] q.sleep[j]).wait_pid != Some(id),
    ensures
        ({
            let after = kill::killed(q, id, resume);
            let t = after.ready.last();
            &&& after.ready.len() > 0
            &&& t.id == q.sleep[i].id
            &&& t.state == TaskState::Ready
            &&& t.resume_sepc == resume
            &&& wait::answer(t.wait_result) == Some(None::<i32>)
        }),
{
    let p = task::waits_for(id);
    let left = task::without_found(q, id);
    task::lemma_first_at(q.sleep, task::has_id(id));
    task::lemma_first_at(left.sleep, p);
    let k = task::first_at(q.sleep, task::has_id(id));
    let w = if left.sleep == q.sleep || i < k {
        i
    } else {
        i - 1
    };
    assert(left.sleep[w] == q.sleep[i]);
    assert(p(left.sleep[w]));
    let f = task::first_at(left.sleep, p);
    assert(f <= w) by {
        if f > w {
            assert(!p(left.sleep[w]));
        }
    }
    assert(p(left.sleep[f]));
}

/// A task whose id is not used twice is gone after it was killed.
pub proof fn law_killed_is_gone(q: Queues, id: u64, resume: u64)
    requires
        kill::refusal(q, id) is None,
        ({
            let left = task::without_found(q, id);
            !task::is_alive(left, id) && !task::some_of(left.zombie, task::has_id(id))
        }),
    ensures
        ({
            let after = kill::killed(q, id, resume);
            !task::is_alive(after, id) && !task::some_of(after.zombie, task::has_id(id))
        }),
{
    let left = task::without_found(q, id);
    let after = kill::killed(q, id, resume);
    let h = task::has_id(id);
    task::lemma_first_at(left.sleep, task::waits_for(id));
    let k = task::first_at(left.sleep, task::waits_for(id));
    assert forall|i: int| 0 <= i < after.sleep.len() implies !h(#[trigger] after.sleep[i]) by {
        if k < left.sleep.len() && i >= k {
            assert(after.sleep[i] == left.sleep[i + 1]);
            assert(!h(left.sleep[i + 1]));
        } else {
            assert(!h(left.sleep[i]));
        }
    }
    assert forall|i: int| 0 <= i < after.ready.len() implies !h(#[trigger] after.ready[i]) by {
        if i < left.ready.len() {
            assert(!h(left.ready[i]));
        } else {
            assert(!h(left.sleep[k]));
        }
    }
}

/// The other tasks keep their order when one is taken out of a queue.
pub proof fn law_take_keeps_order(s: Seq<Task>, p: spec_fn(Task) -> bool, i: int)
    requires
        0 <= i < s.len(),
        i != task::first_at(s, p),
    ensures
        ({
            let left = task::without_first(s, p);
            let j = if i < task::first_at(s, p) {
                i
            } else {
                i - 1
            };
            0 <= j < left.len() && left[j] == s[i]
        }),
{
    task::lemma_first_at(s, p);
}

/// A request to wait for input is undone by clearing it: the task is as before, but for the wake-up
/// time and the resume point, which count for sleepers only.
pub proof fn law_clear_undoes_mark(c: Option<Task>, resume: u64)
    requires
        c matches Some(t) ==> t.pending == Pending::Rerun,
    ensures
        sleep::dropped(sleep::reading(c, resume), Pending::WaitRead) == (match c {
            Some(t) => Some(
                Task {
                    wake_tick: u64::MAX,
                    resume_sepc: if t.kind == TaskKind::UMode {
                        0
                    } else {
                        resume
                    },
                    ..t
                },
            ),
            None => None,
        }),
{
}

/// A user task that waits for input repeats its call when the input arrives: waking it leaves its
/// saved program counter alone.
pub proof fn law_user_read_repeats(m: Map<int, u64>, t: Task, resume: u64)
    requires
        t.kind == TaskKind::UMode,
    ensures
        sleep::wake_memory(m, sleep::reading(Some(t), resume)->0) == m,
{
}

/// A task that waits for input is never woken by the clock.
pub proof fn law_reader_not_due(t: Task, resume: u64, now: u64)
    requires
        now < u64::MAX,
    ensures
        sleep::reading(Some(t), resume)->0.wake_tick > now,
{
}

/// After input has arrived no sleeper waits for it.
pub proof fn law_no_reader_left(q: Queues, i: int)
    requires
        0 <= i < sleep::input_arrived(q).sleep.len(),
    ensures
        sleep::input_arrived(q).sleep[i].pending != Pending::WaitRead,
{
    q.sleep.lemma_filter_pred(|t: Task| t.pending != Pending::WaitRead, i);
}

/// Asking a second time after the answer was given finds nothing.
pub proof fn law_answer_once(c: Option<Task>)
    ensures
        wait::answered(c) matches Some(t) ==> t.wait_result == WaitResult::Pending,
        wait::answered(wait::answered(c)) == wait::answered(c),
{
}

/// No task of the sequence has the id.
pub open spec fn free_of(s: Seq<Task>, id: u64) -> bool {
    forall|i: int| 0 <= i < s.len() ==> (#[trigger] s[i]).id != id
}

/// A task with the id is looked for among the ready tasks, then among the sleepers, then among the
/// zombies; the first one is taken, and no other task moves or changes.
pub proof fn law_task_taken(q: Queues, id: u64, i: int)
    requires
        ({
            ||| 0 <= i < q.ready.len() && q.ready[i].id == id && free_of(q.ready.take(i), id)
            ||| free_of(q.ready, id) && 0 <= i < q.sleep.len() && q.sleep[i].id == id && free_of(
                q.sleep.take(i),
                id,
            )
            ||| free_of(q.ready, id) && free_of(q.sleep, id) && 0 <= i < q.zombie.len()
                && q.zombie[i].id == id && free_of(q.zombie.take(i), id)
        }),
    ensures
        !free_of(q.ready, id) ==> task::found(q, id) == Some(q.ready[i]) && task::without_found(
            q,
            id,
        ) == (Queues { ready: q.ready.remove(i), ..q }),
        free_of(q.ready, id) && !free_of(q.sleep, id) ==> task::found(q, id) == Some(q.sleep[i])
            && task::without_found(q, id) == (Queues { sleep: q.sleep.remove(i), ..q }),
        free_of(q.ready, id) && free_of(q.sleep, id) ==> task::found(q, id) == Some(q.zombie[i])
            && task::without_found(q, id) == (Queues { zombie: q.zombie.remove(i), ..q }),
{
    lemma_first_with(q.ready, id, i);
    lemma_first_with(q.sleep, id, i);
    lemma_first_with(q.zombie, id, i);
}

/// Where the first task with the id stands.
proof fn lemma_first_with(s: Seq<Task>, id: u64, i: int)
    ensures
        free_of(s, id) ==> task::first_at(s, task::has_id(id)) == s.len(),
        0 <= i < s.len() && s[i].id == id && free_of(s.take(i), id) ==> task::first_at(
            s,
            task::has_id(id),
        ) == i,
{
    let p = task::has_id(id);
    task::lemma_first_at(s, p);
    let k = task::first_at(s, p);
    if free_of(s, id) && k < s.len() {
        assert(s[k].id != id);
    }
    if 0 <= i < s.len() && s[i].id == id && free_of(s.take(i), id) {
        if k < i {
            assert(s.take(i)[k] == s[k]);
        }
        if k > i {
            assert(!p(s[i]));
        }
    }
}

/// A task can be killed exactly if it is not the running one and is ready, sleeps or is a zombie.
pub proof fn law_who_can_be_killed(q: Queues, id: u64)
    ensures
        (q.current matches Some(t) && t.id == id) ==> kill::refusal(q, id) == Some(
            KillError::IsCurrent,
        ),
        !(q.current matches Some(t) && t.id == id) && free_of(q.ready, id) && free_of(q.sleep, id)
            && free_of(q.zombie, id) ==> kill::refusal(q, id) == Some(KillError::NotFound),
        !(q.current matches Some(t) && t.id == id) && !(free_of(q.ready, id) && free_of(
            q.sleep,
            id,
        ) && free_of(q.zombie, id)) ==> kill::refusal(q, id) is None,
{
    lemma_found(q.ready, id);
    lemma_found(q.sleep, id);
    lemma_found(q.zombie, id);
}

proof fn lemma_found(s: Seq<Task>, id: u64)
    ensures
        task::first_of(s, task::has_id(id)) is Some <==> !free_of(s, id),
{
    let p = task::has_id(id);
    task::lemma_first_at(s, p);
    let k = task::first_at(s, p);
    if k < s.len() {
        assert(s[k].id == id);
    }
    if !free_of(s, id) {
        let i = choose|i: int| 0 <= i < s.len() && (#[trigger] s[i]).id == id;
        assert(p(s[i]));
        if k == s.len() {
            assert(!p(s[i]));
        }
    }
}

/// The task with the id is alive if it runs, is ready or sleeps, and only then.
pub proof fn law_alive(q: Queues, id: u64)
    ensures
        task::is_alive(q, id) <==> ((q.current matches Some(t) && t.id == id) || !free_of(
            q.ready,
            id,
        ) || !free_of(q.sleep, id)),
{
    let p = task::has_id(id);
    assert forall|s: Seq<Task>| #[trigger] task::some_of(s, p) == !free_of(s, id) by {
        if task::some_of(s, p) {
            let i = choose|i: int| 0 <= i < s.len() && p(#[trigger] s[i]);
            assert(s[i].id == id);
        }
        if !free_of(s, id) {
            let i = choose|i: int| 0 <= i < s.len() && (#[trigger] s[i]).id == id;
            assert(p(s[i]));
        }
    }
}

/// When nobody waits for a killed task, no other task moves or changes.
pub proof fn law_kill_spares_others(q: Queues, id: u64, resume: u64, m: Map<int, u64>)
    requires
        forall|i: int| 0 <= i < q.sleep.len() ==> (#[trigger] q.sleep[i]).wait_pid != Some(id),
    ensures
        kill::killed(q, id, resume) == task::without_found(q, id),
        kill::killed_memory(m, q, id, resume) == m,
{
    let left = task::without_found(q, id);
    let p = task::waits_for(id);
    task::lemma_first_at(left.sleep, p);
    task::lemma_first_at(q.sleep, task::has_id(id));
    let f = task::first_at(left.sleep, p);
    let k = task::first_at(q.sleep, task::has_id(id));
    if f < left.sleep.len() {
        if left.sleep != q.sleep && f >= k {
            assert(left.sleep[f] == q.sleep[f + 1]);
        } else {
            assert(left.sleep[f] == q.sleep[f]);
        }
    }
}

/// The task that waited for a killed one leaves the sleepers, whole but for what it is told, and goes
/// on at the resume point; all others stay where they are.
pub proof fn law_waiter_told(q: Queues, id: u64, resume: u64, m: Map<int, u64>, i: int)
    requires
        q.current matches Some(t) ==> t.id != id,
        free_of(q.sleep, id),
        !free_of(q.ready, id) || !free_of(q.zombie, id),
        0 <= i < q.sleep.len(),
        q.sleep[i].wait_pid == Some(id),
        forall|j: int| 0 <= j < i ==> (#[trigger] q.sleep[j]).wait_pid != Some(id),
        resume != 0,
    ensures
        ({
            let w = q.sleep[i];
            let after = kill::killed(q, id, resume);
            &&& after.sleep == q.sleep.remove(i)
            &&& after.current == q.current
            &&& after.ready == task::without_found(q, id).ready.push(
                Task {
                    wait_result: WaitResult::Killed,
                    resume_sepc: resume,
                    wait_pid: None,
                    state: TaskState::Ready,
                    pending: Pending::Rerun,
                    ..w
                },
            )
            &&& after.zombie == task::without_found(q, id).zombie
            &&& kill::killed_memory(m, q, id, resume) == m.insert(
                crate::task::frame_at(w.held, w.frame) + 248,
                resume,
            )
        }),
{
    let p = task::waits_for(id);
    lemma_found(q.ready, id);
    lemma_found(q.sleep, id);
    task::lemma_first_at(q.sleep, p);
    let k = task::first_at(q.sleep, p);
    if k < i {
        assert(p(q.sleep[k]));
    }
    if k > i {
        assert(!p(q.sleep[i]));
    }
}

/// A task that begins to wait is marked with the task that it waits for; what it is told then is the
/// exit code, or nothing if the other task was killed.
pub proof fn law_wait_marks(t: Task, pid: u64, code: i32)
    ensures
        wait::waiting(Some(t), pid) == Some(
            Task { pending: Pending::Wait(pid), wait_pid: Some(pid), ..t },
        ),
        wait::waiting(None, pid) is None,
        wait::answer(WaitResult::Exited(code)) == Some(Some(code)),
        wait::answer(WaitResult::Killed) == Some(None::<i32>),
        wait::answer(WaitResult::Pending) is None,
        t.wait_result == WaitResult::Pending ==> wait::answered(Some(t)) == Some(t),
        t.wait_result != WaitResult::Pending ==> wait::answered(Some(t)) == Some(
            Task {
                wait_result: WaitResult::Pending,
                pending: Pending::Rerun,
                wait_pid: None,
                ..t
            },
        ),
        wait::answered(None) is None,
{
}

/// What a task asks for while it runs: to end with the code, to sleep until the time, or to wait for
/// input, which a user task does by repeating its call.
pub proof fn law_requests(t: Task, code: i32, wake_tick: u64, resume: u64)
    ensures
        exit::ending(Some(t), code) == Some(
            Task { exit_code: Some(code), pending: Pending::Reap, ..t },
        ),
        exit::ending(None, code) is None,
        sleep::dozing(Some(t), wake_tick, resume) == Some(
            Task { pending: Pending::Park, wake_tick, resume_sepc: resume, ..t },
        ),
        sleep::dozing(None, wake_tick, resume) is None,
        sleep::reading(Some(t), resume) == Some(
            Task {
                pending: Pending::WaitRead,
                wake_tick: 0xFFFF_FFFF_FFFF_FFFF,
                resume_sepc: if t.kind == TaskKind::UMode {
                    0
                } else {
                    resume
                },
                ..t
            },
        ),
        sleep::reading(None, resume) is None,
{
}

/// A dropped request leaves a task that just runs on; any other request stays.
pub proof fn law_dropped(t: Task, p: Pending)
    ensures
        t.pending == p ==> sleep::dropped(Some(t), p) == Some(Task { pending: Pending::Rerun, ..t }),
        t.pending != p ==> sleep::dropped(Some(t), p) == Some(t),
        sleep::dropped(None, p) is None,
{
}

/// Input wakes exactly the sleepers that wait for it: they come behind the ready tasks in the order in
/// which they slept, with everything else as it was, and the other sleepers keep their order.
pub proof fn law_input_wakes_readers(q: Queues, i: int, j: int)
    requires
        0 <= i < j < q.sleep.len(),
    ensures
        ({
            let after = sleep::input_arrived(q);
            &&& after.ready.take(q.ready.len() as int) == q.ready
            &&& after.zombie == q.zombie
            &&& after.current == q.current
        }),
        q.sleep[i].pending == Pending::WaitRead && q.sleep[j].pending == Pending::WaitRead
            ==> exists|a: int, b: int|
            q.ready.len() <= a < b < sleep::input_arrived(q).ready.len()
                && (#[trigger] sleep::input_arrived(q).ready[a]) == (Task {
                state: TaskState::Ready,
                pending: Pending::Rerun,
                ..q.sleep[i]
            }) && (#[trigger] sleep::input_arrived(q).ready[b]) == (Task {
                state: TaskState::Ready,
                pending: Pending::Rerun,
                ..q.sleep[j]
            }),
        q.sleep[i].pending != Pending::WaitRead && q.sleep[j].pending != Pending::WaitRead
            ==> exists|a: int, b: int|
            0 <= a < b < sleep::input_arrived(q).sleep.len()
                && (#[trigger] sleep::input_arrived(q).sleep[a]) == q.sleep[i]
                && (#[trigger] sleep::input_arrived(q).sleep[b]) == q.sleep[j],
{
    let after = sleep::input_arrived(q);
    let p = |t: Task| t.pending == Pending::WaitRead;
    let n = |t: Task| t.pending != Pending::WaitRead;
    assert(after.ready.take(q.ready.len() as int) =~= q.ready);
    if p(q.sleep[i]) && p(q.sleep[j]) {
        order::lemma_rank(q.sleep, p, i);
        order::lemma_rank(q.sleep, p, j);
        order::lemma_rank_order(q.sleep, p, i, j);
        let a = q.ready.len() + order::rank(q.sleep, p, i);
        let b = q.ready.len() + order::rank(q.sleep, p, j);
        assert(after.ready[a] == sleep::woken(q.sleep[i]));
        assert(after.ready[b] == sleep::woken(q.sleep[j]));
    }
    if n(q.sleep[i]) && n(q.sleep[j]) {
        order::lemma_rank(q.sleep, n, i);
        order::lemma_rank(q.sleep, n, j);
        order::lemma_rank_order(q.sleep, n, i, j);
        let a = order::rank(q.sleep, n, i);
        let b = order::rank(q.sleep, n, j);
        assert(after.sleep[a] == q.sleep[i]);
        assert(after.sleep[b] == q.sleep[j]);
    }
}

/// A single sleeper that waits for input is woken by it, a single one that does not is not.
pub proof fn law_input_wakes_one(q: Queues, i: int)
    requires
        0 <= i < q.sleep.len(),
    ensures
        q.sleep[i].pending == Pending::WaitRead ==> sleep::input_arrived(q).ready.contains(
            Task { state: TaskState::Ready, pending: Pending::Rerun, ..q.sleep[i] },
        ),
        q.sleep[i].pending != Pending::WaitRead ==> sleep::input_arrived(q).sleep.contains(
            q.sleep[i],
        ),
{
    let after = sleep::input_arrived(q);
    let p = |t: Task| t.pending == Pending::WaitRead;
    let n = |t: Task| t.pending != Pending::WaitRead;
    if p(q.sleep[i]) {
        order::lemma_rank(q.sleep, p, i);
        let a = q.ready.len() + order::rank(q.sleep, p, i);
        assert(after.ready[a] == sleep::woken(q.sleep[i]));
    } else {
        order::lemma_rank(q.sleep, n, i);
        assert(after.sleep[order::rank(q.sleep, n, i)] == q.sleep[i]);
    }
}

/// A woken task goes on at its resume point; with a resume point of zero nothing is written.
pub proof fn law_woken_at_resume_point(m: Map<int, u64>, t: Task)
    ensures
        sleep::woken(t) == (Task { state: TaskState::Ready, pending: Pending::Rerun, ..t }),
        t.resume_sepc != 0 ==> sleep::wake_memory(m, t) == m.insert(
            crate::task::frame_at(t.held, t.frame) + 248,
            t.resume_sepc,
        ),
        t.resume_sepc == 0 ==> sleep::wake_memory(m, t) == m,
{
}

/// Waking tasks one after the other writes their saved program counters and nothing else.
pub proof fn law_wakes_spare_memory(m: Map<int, u64>, ts: Seq<Task>, a: int)
    requires
        forall|i: int|
            0 <= i < ts.len() ==> crate::task::frame_at((#[trigger] ts[i]).held, ts[i].frame) + 248
                != a || ts[i].resume_sepc == 0,
    ensures
        sleep::wake_all_memory(m, ts)[a] == m[a],
    decreases ts.len(),
{
    if ts.len() > 0 {
        let head = ts.drop_last();
        assert forall|i: int| 0 <= i < head.len() implies crate::task::frame_at(
            (#[trigger] head[i]).held,
            head[i].frame,
        ) + 248 != a || head[i].resume_sepc == 0 by {
            assert(head[i] == ts[i]);
        }
        assert(ts[ts.len() - 1] == ts.last());
        law_wakes_spare_memory(m, head, a);
    }
}

/// Each woken task goes on at its resume point, if no other task keeps its program counter there.
pub proof fn law_each_wakes(m: Map<int, u64>, ts: Seq<Task>, i: int)
    requires
        0 <= i < ts.len(),
        ts[i].resume_sepc != 0,
        forall|j: int|
            0 <= j < ts.len() && j != i ==> crate::task::frame_at(
                (#[trigger] ts[j]).held,
                ts[j].frame,
            ) != crate::task::frame_at(ts[i].held, ts[i].frame),
    ensures
        sleep::wake_all_memory(m, ts)[crate::task::frame_at(ts[i].held, ts[i].frame) + 248]
            == ts[i].resume_sepc,
    decreases ts.len(),
{
    let head = ts.drop_last();
    assert(ts[ts.len() - 1] == ts.last());
    if i < ts.len() - 1 {
        assert(head[i] == ts[i]);
        assert forall|j: int| 0 <= j < head.len() && j != i implies crate::task::frame_at(
            (#[trigger] head[j]).held,
            head[j].frame,
        ) != crate::task::frame_at(head[i].held, head[i].frame) by {
            assert(head[j] == ts[j]);
        }
        law_each_wakes(m, head, i);
    }
}

/// The clock parts the sleepers: a sleeper is among the due ones if its time has come, else among the
/// others, and both keep their order.
pub proof fn law_clock_parts_sleepers(s: Seq<Task>, now: u64, i: int, j: int)
    requires
        0 <= i < j < s.len(),
    ensures
        s[i].wake_tick <= now && s[j].wake_tick <= now ==> exists|a: int, b: int|
            0 <= a < b < task::due(s, now).len() && (#[trigger] task::due(s, now)[a]) == s[i]
                && (#[trigger] task::due(s, now)[b]) == s[j],
        s[i].wake_tick > now && s[j].wake_tick > now ==> exists|a: int, b: int|
            0 <= a < b < task::not_due(s, now).len() && (#[trigger] task::not_due(s, now)[a]) == s[i]
                && (#[trigger] task::not_due(s, now)[b]) == s[j],
        forall|k: int|
            0 <= k < task::due(s, now).len() ==> (#[trigger] task::due(s, now)[k]).wake_tick <= now,
        forall|k: int|
            0 <= k < task::not_due(s, now).len() ==> (#[trigger] task::not_due(s, now)[k]).wake_tick
                > now,
{
    let p = |t: Task| t.wake_tick <= now;
    let n = |t: Task| t.wake_tick > now;
    assert forall|k: int| 0 <= k < task::due(s, now).len() implies (#[trigger] task::due(
        s,
        now,
    )[k]).wake_tick <= now by {
        s.lemma_filter_pred(p, k);
    }
    assert forall|k: int| 0 <= k < task::not_due(s, now).len() implies (#[trigger] task::not_due(
        s,
        now,
    )[k]).wake_tick > now by {
        s.lemma_filter_pred(n, k);
    }
    if p(s[i]) && p(s[j]) {
        order::lemma_rank(s, p, i);
        order::lemma_rank(s, p, j);
        order::lemma_rank_order(s, p, i, j);
        assert(task::due(s, now)[order::rank(s, p, i)] == s[i]);
        assert(task::due(s, now)[order::rank(s, p, j)] == s[j]);
    }
    if n(s[i]) && n(s[j]) {
        order::lemma_rank(s, n, i);
        order::lemma_rank(s, n, j);
        order::lemma_rank_order(s, n, i, j);
        assert(task::not_due(s, now)[order::rank(s, n, i)] == s[i]);
        assert(task::not_due(s, now)[order::rank(s, n, j)] == s[j]);
    }
}

} // verus!
