use atom::context::{TrapFrame, FRAME_SIZE};
use atom::memory::addr::{PhysAddr, VirtAddr};
use atom::memory::entry::PteFlags;
use atom::memory::phys::PhysMem;
use atom::memory::space::AddressSpace;
use atom::memory::table::MapError;
use atom::mmu::frames::{FramePool, PageFrameAllocator};
use atom::round_robin;
use atom::round_robin::RoundRobin;
use atom::scheduler::schedule::IdleTask;
use atom::scheduler::sleep;
use atom::scheduler::task::{Pending, Scheduler, Task, TaskState};
use atom::task;
use atom::task::{Holdings, TaskKind, TASK_FRAME, TASK_SSTATUS, TASK_STACK_BASE, TASK_STACK_SIZE};

const BASE: u64 = 0x8000_0000;

/// Four pages that are not in the pool.
const STACK: u64 = BASE + 4096 * 48;

const IDLE: IdleTask = IdleTask { stack: BASE + 4096 * 56, idle: 0x1111, wait: 0x2222 };

fn memory() -> (PhysMem, FramePool) {
    let mem = PhysMem::new(BASE, 64);
    let mut frames = FramePool::new(&mem);
    for i in 0..40 {
        frames.free_frame(&mem, PhysAddr::from_raw(BASE + 4096 * (39 - i)));
    }
    (mem, frames)
}

fn left(mem: &mut PhysMem, frames: &mut FramePool) -> usize {
    let mut taken = Vec::new();
    while let Some(f) = frames.alloc_frame(mem) {
        taken.push(f);
    }
    let n = taken.len();
    for f in taken {
        frames.free_frame(mem, f);
    }
    n
}

fn nothing() -> Holdings {
    Holdings { space: None, stack: None, stack_size: 0 }
}

/// A ready task whose registers are saved at `frame`.
fn ready(id: u64, frame: u64) -> Task {
    Task {
        id,
        state: TaskState::Ready,
        pending: Pending::Rerun,
        kind: TaskKind::SMode,
        frame,
        held: nothing(),
        wake_tick: 0,
        resume_sepc: 0,
    }
}

#[test]
fn deadlines() {
    assert_eq!(task::deadline(100, 1, 500_000_000, 10_000_000), 15_000_100);
    assert_eq!(task::deadline(0, 0, 99, 10_000_000), 0);
    assert_eq!(task::deadline(0, u64::MAX, 0, 10), u64::MAX);
    assert_eq!(task::deadline(u64::MAX, 1, 0, 1), u64::MAX);
}

#[test]
fn frame_of_a_new_task() {
    assert_eq!(TASK_FRAME, TASK_STACK_BASE + TASK_STACK_SIZE - FRAME_SIZE);
    let f = TrapFrame::fresh(7, 8, 9);
    assert_eq!((f.sp, f.sepc, f.sstatus, f.a0, f.ra), (7, 8, 9, 0, 0));
    let w = f.words();
    assert_eq!(w.len() as u64 * 8, FRAME_SIZE);
    assert_eq!((w[1], w[31], w[32]), (7, 8, 9));
    let mut mem = PhysMem::new(BASE, 1);
    f.store(&mut mem, BASE + 16);
    assert_eq!(mem.read_word(BASE + 16 + 8), 7);
    assert_eq!(mem.read_word(BASE + 16 + 248), 8);
    assert_eq!(mem.read_word(BASE + 16 + 256), 9);
}

#[test]
fn frames_are_reached_through_the_stack() {
    assert_eq!(task::frame_phys(&nothing(), 0x1234), 0x1234);
    let (mut mem, mut frames) = memory();
    let space = AddressSpace::new(&mut mem, &mut frames).unwrap();
    let h = Holdings { space: Some(space), stack: Some(STACK), stack_size: TASK_STACK_SIZE };
    assert_eq!(task::frame_phys(&h, TASK_FRAME), STACK + TASK_STACK_SIZE - FRAME_SIZE);
    task::set_sepc(&mut mem, &h, TASK_FRAME, 0x55);
    assert_eq!(mem.read_word(STACK + TASK_STACK_SIZE - FRAME_SIZE + 248), 0x55);
    assert_eq!(task::reclaim(h, &mut mem, &mut frames), Some((STACK, TASK_STACK_SIZE)));
    assert_eq!(left(&mut mem, &mut frames), 40);
    assert_eq!(task::reclaim(nothing(), &mut mem, &mut frames), None);
}

#[test]
fn spawned_task_has_a_guarded_stack() {
    let (mut mem, mut frames) = memory();
    let mut s = Scheduler::new();
    let space = AddressSpace::new(&mut mem, &mut frames).unwrap();
    assert_eq!(s.spawn_with(0x8020_0000, space, STACK, &mut mem, &mut frames), Ok(0));
    let t = &s.ready[0];
    assert_eq!((t.id, t.kind, t.frame, t.state), (0, TaskKind::UMode, TASK_FRAME, TaskState::Ready));
    let sp = t.held.space.as_ref().unwrap();
    let (pa, f) = sp.translate(&mem, VirtAddr::from_raw(TASK_STACK_BASE)).unwrap();
    assert_eq!((pa.as_usize(), f.bits()), (STACK, 199));
    assert_eq!(
        sp.translate(&mem, VirtAddr::from_raw(TASK_STACK_BASE + TASK_STACK_SIZE - 1)).unwrap().0,
        PhysAddr::from_raw(STACK + 3 * 4096)
    );
    assert!(sp.translate(&mem, VirtAddr::from_raw(TASK_STACK_BASE - 1)).is_none());
    let at = STACK + TASK_STACK_SIZE - FRAME_SIZE;
    assert_eq!(mem.read_word(at + 8), TASK_STACK_BASE + TASK_STACK_SIZE);
    assert_eq!(mem.read_word(at + 248), 0x8020_0000);
    assert_eq!(mem.read_word(at + 256), TASK_SSTATUS);
}

#[test]
fn spawn_refused_where_the_window_is_taken() {
    let (mut mem, mut frames) = memory();
    let mut s = Scheduler::new();
    let mut space = AddressSpace::new(&mut mem, &mut frames).unwrap();
    space
        .map(
            &mut mem,
            VirtAddr::from_raw(TASK_STACK_BASE + 4096),
            PhysAddr::from_raw(0x9000_0000),
            4096,
            PteFlags::from_bits(7),
            &mut frames,
        )
        .unwrap();
    assert_eq!(
        s.spawn_with(0x8020_0000, space, STACK, &mut mem, &mut frames),
        Err(MapError::AlreadyMapped)
    );
    assert!(s.ready.is_empty());
}

#[test]
fn spawn_clones_the_kernel_space() {
    let (mut mem, mut frames) = memory();
    let mut k = AddressSpace::new(&mut mem, &mut frames).unwrap();
    k.map(
        &mut mem,
        VirtAddr::from_raw(BASE),
        PhysAddr::from_raw(BASE),
        4096,
        PteFlags::from_bits(15),
        &mut frames,
    )
    .unwrap();
    let mut s = Scheduler::new();
    assert_eq!(s.spawn(0x8020_0000, Some(&k), STACK, &mut mem, &mut frames), Ok(0));
    let sp = s.ready[0].held.space.as_ref().unwrap();
    assert_eq!(sp.translate(&mem, VirtAddr::from_raw(BASE)).unwrap().0, PhysAddr::from_raw(BASE));
    assert!(k.translate(&mem, VirtAddr::from_raw(TASK_STACK_BASE)).is_none());
    assert_eq!(s.ready[0].kind, TaskKind::SMode);
}

#[test]
fn ready_tasks_take_turns() {
    let (mut mem, _) = memory();
    let mut s = Scheduler::new();
    s.ready.push_back(ready(1, STACK));
    s.ready.push_back(ready(2, STACK + 512));
    let d = s.dispatch(0, 0, IDLE, 9, &mut mem);
    assert_eq!((s.current_id(), d.frame, d.root), (1, STACK, 9));
    let d = s.dispatch(STACK + 1024, 0, IDLE, 9, &mut mem);
    assert_eq!((s.current_id(), d.frame), (2, STACK + 512));
    let d = s.dispatch(STACK + 512, 0, IDLE, 9, &mut mem);
    assert_eq!((s.current_id(), d.frame), (1, STACK + 1024));
    assert!(!s.current_is_umode());
    assert!(s.current_space().is_none());
}

#[test]
fn sleeper_wakes_at_its_time() {
    let (mut mem, _) = memory();
    let mut s = Scheduler::new();
    s.ready.push_back(ready(1, STACK));
    s.dispatch(0, 0, IDLE, 9, &mut mem);
    s.sleep(0, 0, 100, 1_000_000_000, 0x77);
    let d = s.dispatch(STACK, 50, IDLE, 9, &mut mem);
    assert_eq!(s.sleep.len(), 1);
    assert_eq!(s.sleep[0].wake_tick, 100);
    // Somebody sleeps, so the idle task waits for the next tick.
    assert_eq!(mem.read_word(d.frame + 248), 0x2222);
    assert_eq!(s.current.as_ref().unwrap().state, TaskState::Idle);
    s.dispatch(d.frame, 99, IDLE, 9, &mut mem);
    assert_eq!(s.sleep.len(), 1);
    let d = s.dispatch(d.frame, 100, IDLE, 9, &mut mem);
    assert_eq!((s.current_id(), d.frame), (1, STACK));
    assert_eq!(mem.read_word(STACK + 248), 0x77);
}

#[test]
fn short_sleep_is_over_at_the_tick() {
    let (mut mem, _) = memory();
    let mut s = Scheduler::new();
    s.ready.push_back(ready(1, STACK));
    s.dispatch(0, 0, IDLE, 9, &mut mem);
    s.sleep(0, 0, 10, 1_000_000_000, 0x77);
    s.dispatch(STACK, 50, IDLE, 9, &mut mem);
    assert_eq!(s.current_id(), 1);
    assert_eq!(s.current.as_ref().unwrap().pending, Pending::Rerun);
}

#[test]
fn recover_drops_the_request_to_sleep() {
    let (mut mem, _) = memory();
    let mut s = Scheduler::new();
    s.ready.push_back(ready(1, STACK));
    s.dispatch(0, 0, IDLE, 9, &mut mem);
    s.sleep(0, 5, 0, 10, 0x77);
    assert_eq!(s.current.as_ref().unwrap().pending, Pending::Park);
    s.recover();
    assert_eq!(s.current.as_ref().unwrap().pending, Pending::Rerun);
}

#[test]
fn ended_task_is_given_back_by_the_next_step() {
    let (mut mem, mut frames) = memory();
    let mut s = Scheduler::new();
    let space = AddressSpace::new(&mut mem, &mut frames).unwrap();
    s.spawn_with(0x8020_0000, space, STACK, &mut mem, &mut frames).unwrap();
    s.scheduler(0, 0, IDLE, 9, &mut mem, &mut frames);
    assert!(s.current_is_umode());
    let (d, stacks) = s.terminate_current(TASK_FRAME, 0, IDLE, 9, &mut mem, &mut frames);
    assert!(stacks.is_empty());
    assert_eq!(s.zombie.len(), 1);
    assert_eq!(mem.read_word(d.frame + 248), 0x2222);
    let (d, stacks) = s.scheduler(d.frame, 1, IDLE, 9, &mut mem, &mut frames);
    assert_eq!(stacks, vec![(STACK, TASK_STACK_SIZE)]);
    assert!(s.zombie.is_empty());
    assert_eq!(left(&mut mem, &mut frames), 40);
    // No task is left: the idle task shuts down.
    assert_eq!(mem.read_word(d.frame + 248), 0x1111);
    assert_eq!(d.root, 9);
}

#[test]
fn exit_without_a_task_does_nothing() {
    let mut s = Scheduler::new();
    s.exit();
    s.sleep(0, 1, 0, 1, 0);
    s.recover();
    assert!(s.current.is_none());
    assert_eq!(s.current_id(), u64::MAX);
}

#[test]
fn woken_task_is_ready() {
    let (mut mem, _) = memory();
    let mut t = ready(3, STACK);
    t.state = TaskState::Blocked;
    t.pending = Pending::Park;
    t.resume_sepc = 0x99;
    let t = sleep::wake_task(t, &mut mem);
    assert_eq!((t.state, t.pending), (TaskState::Ready, Pending::Rerun));
    assert_eq!(mem.read_word(STACK + 248), 0x99);
}

#[test]
fn round_robin_keeps_the_boot_frame() {
    let (mut mem, mut frames) = memory();
    let mut s = RoundRobin::new();
    let (d, _) = s.scheduler(0x8100, 0, 9, &mut mem, &mut frames);
    assert_eq!((d.frame, d.root, s.idle), (0x8100, 9, Some(0x8100)));
    let space = AddressSpace::new(&mut mem, &mut frames).unwrap();
    assert_eq!(s.spawn_with(0x8020_0000, space, STACK, &mut mem, &mut frames), Ok(0));
    assert_eq!(s.spawn(0x8020_0000, None, STACK + 4 * 4096, &mut mem, &mut frames), Ok(1));
    let (d, _) = s.scheduler(0x8100, 0, 9, &mut mem, &mut frames);
    assert_eq!((s.current_id(), d.frame), (0, TASK_FRAME));
    assert_eq!(d.root, s.current_space().unwrap().root_page());
    assert!(s.current_is_umode());
    s.sleep(0, 1, 0, 10, 0x66);
    s.scheduler(TASK_FRAME, 5, 9, &mut mem, &mut frames);
    assert_eq!(s.current_id(), 1);
    assert_eq!(s.sleep[0].state, round_robin::TaskState::Blocked);
    let (d, _) = s.terminate_current(TASK_FRAME, 6, 9, &mut mem, &mut frames);
    // Nobody is ready: back to the boot code.
    assert_eq!((d.frame, s.zombie.len()), (0x8100, 1));
    let (d, stacks) = s.scheduler(0x8100, 10, 9, &mut mem, &mut frames);
    assert_eq!(stacks, vec![(STACK + 4 * 4096, TASK_STACK_SIZE)]);
    assert_eq!((s.current_id(), d.frame), (0, TASK_FRAME));
    assert_eq!(mem.read_word(STACK + TASK_STACK_SIZE - FRAME_SIZE + 248), 0x66);
    s.exit();
    s.dispatch(TASK_FRAME, 11, 9, &mut mem);
    assert_eq!(s.zombie[0].id, 0);
}

#[test]
fn round_robin_wakes() {
    let (mut mem, _) = memory();
    let t = round_robin::Task {
        id: 4,
        state: round_robin::TaskState::Blocked,
        kind: TaskKind::SMode,
        frame: STACK,
        held: nothing(),
        wake_tick: 3,
        resume_sepc: 0x42,
    };
    let t = round_robin::wake_task(t, &mut mem);
    assert_eq!(t.state, round_robin::TaskState::Ready);
    assert_eq!(mem.read_word(STACK + 248), 0x42);
}
