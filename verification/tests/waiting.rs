use atom::memory::addr::PhysAddr;
use atom::memory::phys::PhysMem;
use atom::memory::space::AddressSpace;
use atom::mmu::frames::{FramePool, PageFrameAllocator};
use atom::schedule::kill::KillError;
use atom::schedule::sleep;
use atom::schedule::task::{Pending, Task, TaskState, TaskTable, WaitResult};
use atom::schedule::wait::WaitStep;
use atom::task::{Holdings, TaskKind};

const BASE: u64 = 0x8000_0000;

fn task(id: u64, state: TaskState) -> Task {
    Task {
        id,
        parent: None,
        state,
        pending: Pending::Rerun,
        kind: TaskKind::SMode,
        frame: BASE + 512 * id,
        held: Holdings { space: None, stack: None, stack_size: 0 },
        wake_tick: 0,
        resume_sepc: 0,
        exit_code: None,
        wait_pid: None,
        wait_result: WaitResult::Pending,
    }
}

fn memory() -> (PhysMem, FramePool) {
    let mem = PhysMem::new(BASE, 8);
    let mut frames = FramePool::new(&mem);
    frames.free_frame(&mem, PhysAddr::from_raw(BASE + 4096 * 7));
    (mem, frames)
}

#[test]
fn table_queues() {
    let mut t = TaskTable::new();
    assert!(t.is_empty() && t.current().is_none());
    t.push_ready(task(1, TaskState::Ready));
    t.push_ready(task(2, TaskState::Ready));
    assert!(!t.is_empty());
    assert_eq!(t.pop_ready().unwrap().id, 1);
    assert_eq!(t.pop_ready().unwrap().id, 2);
    assert!(t.pop_ready().is_none());
    t.push_zombie(task(3, TaskState::Zombie));
    t.push_zombie(task(4, TaskState::Zombie));
    assert_eq!(t.take_zombie(4).unwrap().id, 4);
    assert!(t.take_zombie(4).is_none());
    assert_eq!(t.take_zombies().len(), 1);
}

#[test]
fn due_sleepers_in_order() {
    let mut t = TaskTable::new();
    for (id, tick) in [(1, 10), (2, 5), (3, 7)] {
        let mut s = task(id, TaskState::Blocked);
        s.wake_tick = tick;
        t.push_sleep(s);
    }
    let mut ripe = Vec::new();
    t.pop_due_sleepers(7, &mut ripe);
    assert_eq!(ripe.iter().map(|s| s.id).collect::<Vec<u64>>(), vec![2, 3]);
    ripe.clear();
    t.pop_due_sleepers(9, &mut ripe);
    assert!(ripe.is_empty());
}

#[test]
fn alive_tasks() {
    let mut t = TaskTable::new();
    t.push_ready(task(1, TaskState::Ready));
    t.push_sleep(task(2, TaskState::Blocked));
    t.push_zombie(task(3, TaskState::Zombie));
    t.replace_current(task(4, TaskState::Running));
    assert!(t.alive(1) && t.alive(2) && t.alive(4));
    assert!(!t.alive(3) && !t.alive(9));
    assert_eq!(t.current_id(), 4);
    assert!(!t.current_is_umode() && t.current_space().is_none());
    assert_eq!(t.take(2).unwrap().id, 2);
    assert!(t.take(2).is_none());
    assert_eq!(t.take_current().unwrap().id, 4);
    assert_eq!(t.current_id(), u64::MAX);
}

#[test]
fn exit_code_reaches_the_parent() {
    let mut t = TaskTable::new();
    t.replace_current(task(2, TaskState::Running));
    t.exit(42);
    let mut z = t.take_current().unwrap();
    assert_eq!((z.exit_code, z.pending), (Some(42), Pending::Reap));
    z.state = TaskState::Zombie;
    t.push_zombie(z);
    t.replace_current(task(1, TaskState::Running));
    assert!(matches!(t.wait(2), WaitStep::Reaped(Some(42), _)));
    assert!(matches!(t.wait(2), WaitStep::Gone));
}

#[test]
fn waiting_for_a_living_task() {
    let mut t = TaskTable::new();
    t.replace_current(task(1, TaskState::Running));
    t.push_ready(task(2, TaskState::Ready));
    assert!(matches!(t.wait(2), WaitStep::Blocked));
    let c = t.current().unwrap();
    assert_eq!((c.pending, c.wait_pid), (Pending::Wait(2), Some(2)));
    assert_eq!(t.wait_answer(), None);
    let mut c = t.take_current().unwrap();
    c.wait_result = WaitResult::Exited(5);
    t.replace_current(c);
    assert_eq!(t.wait_answer(), Some(Some(5)));
    assert_eq!(t.wait_answer(), None);
    assert_eq!(t.current().unwrap().pending, Pending::Rerun);
    let mut c = t.take_current().unwrap();
    c.wait_result = WaitResult::Killed;
    t.replace_current(c);
    assert_eq!(t.wait_answer(), Some(None));
}

#[test]
fn kill_wakes_the_waiter() {
    let (mut mem, mut frames) = memory();
    let mut t = TaskTable::new();
    t.replace_current(task(3, TaskState::Running));
    let mut w = task(1, TaskState::Blocked);
    w.wait_pid = Some(2);
    t.push_sleep(w);
    let mut v = task(2, TaskState::Ready);
    v.held.space = Some(AddressSpace::new(&mut mem, &mut frames).unwrap());
    v.held.stack = Some(BASE + 4096);
    v.held.stack_size = 16384;
    t.push_ready(v);
    assert!(frames.alloc_frame(&mut mem).is_none());
    assert_eq!(t.kill(2, 0x88, &mut mem, &mut frames), Ok(Some((BASE + 4096, 16384))));
    assert!(frames.alloc_frame(&mut mem).is_some());
    let p = t.pop_ready().unwrap();
    assert_eq!((p.id, p.wait_result, p.wait_pid), (1, WaitResult::Killed, None));
    assert_eq!(mem.read_word(BASE + 512 + 248), 0x88);
    assert_eq!(t.kill(2, 0, &mut mem, &mut frames), Err(KillError::NotFound));
    assert_eq!(t.kill(3, 0, &mut mem, &mut frames), Err(KillError::IsCurrent));
}

#[test]
fn sleeping_in_the_table() {
    let mut t = TaskTable::new();
    t.replace_current(task(1, TaskState::Running));
    t.sleep(5, 1, 0, 10, 0x33);
    let c = t.current().unwrap();
    assert_eq!((c.pending, c.wake_tick, c.resume_sepc), (Pending::Park, 15, 0x33));
    t.recover();
    assert_eq!(t.current().unwrap().pending, Pending::Rerun);
}

#[test]
fn readers_wait_for_input() {
    let (mut mem, _) = memory();
    let mut t = TaskTable::new();
    t.replace_current(task(1, TaskState::Running));
    assert!(!t.is_input_waiting());
    t.mark_input_wait(0x44);
    assert!(t.is_input_waiting());
    t.clear_input_wait();
    assert!(!t.is_input_waiting());
    t.mark_input_wait(0x44);
    let mut c = t.take_current().unwrap();
    assert_eq!((c.pending, c.wake_tick, c.resume_sepc), (Pending::WaitRead, u64::MAX, 0x44));
    c.state = TaskState::Blocked;
    t.push_sleep(c);
    t.push_sleep(task(2, TaskState::Blocked));
    t.wake_input_waiters(&mut mem);
    assert_eq!(t.pop_ready().unwrap().id, 1);
    assert!(t.pop_ready().is_none());
    assert_eq!(mem.read_word(BASE + 512 + 248), 0x44);
}

#[test]
fn user_reader_repeats_its_call() {
    let mut t = TaskTable::new();
    let mut c = task(1, TaskState::Running);
    c.kind = TaskKind::UMode;
    t.replace_current(c);
    t.mark_input_wait(0x44);
    assert_eq!(t.current().unwrap().resume_sepc, 0);
    let (mut mem, _) = memory();
    mem.write_word(BASE + 512 + 248, 7);
    let c = sleep::wake_task(t.take_current().unwrap(), &mut mem);
    assert_eq!((c.state, c.pending), (TaskState::Ready, Pending::Rerun));
    assert_eq!(mem.read_word(BASE + 512 + 248), 7);
}

#[test]
fn sleepers_taken_by_what_they_wait_for() {
    let mut t = TaskTable::new();
    let mut a = task(1, TaskState::Blocked);
    a.wait_pid = Some(9);
    let mut b = task(2, TaskState::Blocked);
    b.pending = Pending::WaitRead;
    t.push_sleep(a);
    t.push_sleep(b);
    assert!(t.take_sleeper_waiting(8).is_none());
    assert_eq!(t.take_sleeper_waiting(9).unwrap().id, 1);
    assert_eq!(t.take_input_waiters().len(), 1);
}
