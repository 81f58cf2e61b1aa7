use atom::context::TrapFrame;
use atom::memory::addr::{PhysAddr, VirtAddr};
use atom::memory::entry::PteFlags;
use atom::memory::phys::PhysMem;
use atom::memory::space::AddressSpace;
use atom::mmu::frames::{FramePool, PageFrameAllocator};
use atom::runtime::envcall;
use atom::runtime::envcall::{DispatchResult, Ecall, FileError, OpenFlags, Request, SeekFrom};
use atom::runtime::trap;
use atom::runtime::trap::{FaultSpace, InterruptTable, TrapAction, TrapEnd};
use atom::schedule::task::{Pending, Task, TaskState, TaskTable, WaitResult};
use atom::task::{Holdings, TaskKind};
use atom::trap as machine;
use atom::trap::{ExternalHandlers, MachineAction};

const BASE: u64 = 0x8000_0000;

const IRQ: u64 = 1 << 63;

/// A user task whose page at `0x10000` is the page at `BASE`.
fn user() -> (TaskTable, PhysMem) {
    let mut mem = PhysMem::new(BASE, 16);
    let mut frames = FramePool::new(&mem);
    for i in 8..16 {
        frames.free_frame(&mem, PhysAddr::from_raw(BASE + 4096 * i));
    }
    let mut space = AddressSpace::new(&mut mem, &mut frames).unwrap();
    space
        .map(
            &mut mem,
            VirtAddr::from_raw(0x10000),
            PhysAddr::from_raw(BASE),
            4096,
            PteFlags::from_bits(0x17),
            &mut frames,
        )
        .unwrap();
    let mut t = TaskTable::new();
    t.replace_current(Task {
        id: 1,
        parent: None,
        state: TaskState::Running,
        pending: Pending::Rerun,
        kind: TaskKind::UMode,
        frame: 0,
        held: Holdings { space: Some(space), stack: None, stack_size: 0 },
        wake_tick: 0,
        resume_sepc: 0,
        exit_code: None,
        wait_pid: None,
        wait_result: WaitResult::Pending,
    });
    (t, mem)
}

fn done(r: Request) -> DispatchResult {
    match r {
        Request::Done(d) => d,
        _ => panic!("not decided"),
    }
}

#[test]
fn call_numbers() {
    assert_eq!(Ecall::from_number(63), Some(Ecall::Read));
    assert_eq!(Ecall::from_number(1000), Some(Ecall::MapHeap));
    assert_eq!(Ecall::from_number(1005), Some(Ecall::Control));
    assert_eq!(Ecall::from_number(1006), None);
    let (mut t, mem) = user();
    assert_eq!(done(envcall::dispatch(&mut t, &mem, 7, [0; 6])), DispatchResult::Ret(envcall::ENOSYS));
}

#[test]
fn error_numbers() {
    for (e, n) in [
        (FileError::NotFound, -2i64),
        (FileError::NotSupported, -95),
        (FileError::InvalidFd, -9),
        (FileError::PermissionDenied, -13),
        (FileError::IoError, -5),
        (FileError::Eof, 0),
        (FileError::WouldBlock, -11),
        (FileError::InvalidArg, -22),
        (FileError::NotDirectory, -20),
    ] {
        assert_eq!(envcall::errno_of(e) as i64, n);
    }
}

#[test]
fn user_pointers() {
    let (t, mem) = user();
    let s = t.current_space();
    assert!(envcall::user_ptr_valid(s, &mem, 0x10000, 4096));
    assert!(envcall::user_ptr_valid(s, &mem, 0x10FFF, 1));
    assert!(!envcall::user_ptr_valid(s, &mem, 0x10FFF, 2));
    assert!(!envcall::user_ptr_valid(s, &mem, 0xFFFF_FFC0_0000_0000, 1));
    assert!(!envcall::user_ptr_valid(s, &mem, u64::MAX, 2));
    assert!(!envcall::user_ptr_valid(None, &mem, 0x10000, 1));
    // An empty range needs no page.
    assert!(envcall::user_ptr_valid(s, &mem, 0x1800, 0));
    assert!(!envcall::user_ptr_valid(s, &mem, 0xFFFF_FFC0_0000_0000, 0));
}

#[test]
fn user_texts() {
    let (t, mut mem) = user();
    mem.write_word(BASE + 8, u64::from_le_bytes(*b"/data\0xx"));
    let s = t.current_space();
    assert_eq!(envcall::user_str(s, &mem, 0x10008, 256), Some(b"/data".to_vec()));
    assert_eq!(envcall::user_str(s, &mem, 0x10008, 5), None);
    assert_eq!(envcall::user_str(s, &mem, 0x20000, 256), None);
    for i in 0..512 {
        mem.write_word(BASE + 8 * i, u64::MAX);
    }
    assert_eq!(envcall::user_str(s, &mem, 0x10FF0, 256), None);
}

#[test]
fn transfers_are_checked() {
    let (mut t, mem) = user();
    let r = envcall::dispatch(&mut t, &mem, envcall::READ, [3, 0x10000, 16, 0, 0, 0]);
    assert!(matches!(r, Request::Read { fd: 3, buf: 0x10000, count: 16 }));
    let r = envcall::dispatch(&mut t, &mem, envcall::WRITE, [1, 0x10000, 16, 0, 0, 0]);
    assert!(matches!(r, Request::Write { fd: 1, buf: 0x10000, count: 16 }));
    let r = envcall::dispatch(&mut t, &mem, envcall::READ, [3, 0x20000, 16, 0, 0, 0]);
    assert_eq!(done(r), DispatchResult::Ret(envcall::EFAULT));
    let r = envcall::dispatch(&mut t, &mem, envcall::WRITE, [3, 0x20000, 0, 0, 0, 0]);
    assert_eq!(done(r), DispatchResult::Ret(0));
}

#[test]
fn files_and_heap() {
    let (mut t, mut mem) = user();
    mem.write_word(BASE, u64::from_le_bytes(*b"/d\xff\0\0\0\0\0"));
    let r = envcall::dispatch(&mut t, &mem, envcall::OPEN, [0x10000, 0x102, 0, 0, 0, 0]);
    match r {
        Request::Open { path, flags } => {
            assert_eq!((path.as_str(), flags), ("/d\u{fffd}", OpenFlags::ReadWrite));
        },
        _ => panic!("no open"),
    }
    let r = envcall::dispatch(&mut t, &mem, envcall::OPEN, [0x10000, 3, 0, 0, 0, 0]);
    assert_eq!(done(r), DispatchResult::Ret(envcall::EINVAL));
    let r = envcall::dispatch(&mut t, &mem, envcall::OPEN, [0, 0, 0, 0, 0, 0]);
    assert_eq!(done(r), DispatchResult::Ret(envcall::EFAULT));
    let r = envcall::dispatch(&mut t, &mem, envcall::MAP, [4096, 0, 0, 0, 0, 0]);
    assert!(matches!(r, Request::MapHeap { size: 4096 }));
    let r = envcall::dispatch(&mut t, &mem, envcall::UNMAP, [8, 16, 0, 0, 0, 0]);
    assert!(matches!(r, Request::Unmap { addr: 8, size: 16 }));
    let r = envcall::dispatch(&mut t, &mem, envcall::CLOSE, [5, 0, 0, 0, 0, 0]);
    assert!(matches!(r, Request::Close { fd: 5 }));
    assert_eq!(envcall::open_flags_from(1), Some(OpenFlags::Write));
    let mut none = TaskTable::new();
    let r = envcall::dispatch(&mut none, &mem, envcall::MAP, [4096, 0, 0, 0, 0, 0]);
    assert_eq!(done(r), DispatchResult::Ret(envcall::EINVAL));
}

#[test]
fn seeks() {
    assert_eq!(envcall::seek_from(5, 0), Some(SeekFrom::Start(5)));
    assert_eq!(envcall::seek_from(u64::MAX, 0), None);
    assert_eq!(envcall::seek_from(u64::MAX, 1), Some(SeekFrom::Current(-1)));
    assert_eq!(envcall::seek_from(2, 2), Some(SeekFrom::End(2)));
    assert_eq!(envcall::seek_from(2, 3), None);
    let (mut t, mem) = user();
    let r = envcall::dispatch(&mut t, &mem, envcall::SEEK, [5, 1, 9, 0, 0, 0]);
    assert_eq!(done(r), DispatchResult::Ret(envcall::EINVAL));
}

#[test]
fn exit_marks_the_task() {
    let (mut t, mem) = user();
    let r = envcall::dispatch(&mut t, &mem, envcall::EXIT, [0xFFFF_FFFF, 0, 0, 0, 0, 0]);
    assert_eq!(done(r), DispatchResult::Reschedule);
    let c = t.current().unwrap();
    assert_eq!((c.exit_code, c.pending), (Some(-1), Pending::Reap));
}

#[test]
fn results_of_file_calls() {
    let (mut t, _) = user();
    assert_eq!(envcall::read_done(&mut t, Err(FileError::WouldBlock), 0), DispatchResult::Reschedule);
    assert!(t.is_input_waiting());
    assert_eq!(envcall::read_done(&mut t, Ok(4), 0), DispatchResult::Ret(4));
    assert!(!t.is_input_waiting());
    assert_eq!(envcall::file_done(Ok(7)), DispatchResult::Ret(7));
    assert_eq!(envcall::file_done(Err(FileError::InvalidFd)), DispatchResult::Ret(envcall::EBADF));
    assert_eq!(envcall::close_done(Ok(())), DispatchResult::Ret(0));
    assert_eq!(envcall::close_done(Err(FileError::InvalidFd)), DispatchResult::Ret(envcall::EBADF));
    assert_eq!(envcall::control_done(Ok(-3)), DispatchResult::Ret((-3i64) as u64));
    assert_eq!(envcall::control_done(Ok(3)), DispatchResult::Ret(3));
    assert_eq!(envcall::map_done(Some(0x4000)), DispatchResult::Ret(0x4000));
    assert_eq!(envcall::map_done(None), DispatchResult::Ret(envcall::ENOMEM));
    assert_eq!(envcall::unmap_done(true), DispatchResult::Ret(0));
    assert_eq!(envcall::unmap_done(false), DispatchResult::Ret(envcall::EINVAL));
}

#[test]
fn trap_causes() {
    for (cause, umode, action) in [
        (IRQ + 1, true, TrapAction::Yield),
        (IRQ + 5, false, TrapAction::Tick),
        (IRQ + 9, true, TrapAction::External),
        (IRQ + 3, false, TrapAction::UnknownInterrupt),
        (8, true, TrapAction::Call),
        (12, true, TrapAction::PageFault),
        (13, false, TrapAction::PageFault),
        (15, true, TrapAction::PageFault),
        (2, true, TrapAction::Terminate(-1)),
        (2, false, TrapAction::Panic),
    ] {
        assert_eq!(trap::trap_handler(cause, umode), action);
    }
    assert_eq!(trap::after_tick(true), TrapEnd::Schedule);
    assert_eq!(trap::after_tick(false), TrapEnd::Resume);
    assert_eq!(trap::after_fault(true, true), TrapEnd::Resume);
    assert_eq!(trap::after_fault(false, true), TrapEnd::Terminate(-1));
    assert_eq!(trap::after_fault(false, false), TrapEnd::Panic);
    assert_eq!(trap::trap_stack_corrupt(true), TrapEnd::Terminate(-1));
    assert_eq!(trap::trap_stack_corrupt(false), TrapEnd::Panic);
    assert_eq!(trap::fault_space(true, true), FaultSpace::Task);
    assert_eq!(trap::fault_space(false, true), FaultSpace::Kernel);
    assert_eq!(trap::fault_space(false, false), FaultSpace::Nowhere);
}

#[test]
fn call_goes_on_behind_the_instruction() {
    let mut f = TrapFrame::fresh(1, 0x1000, 0);
    f.a0 = 10;
    f.a5 = 15;
    assert_eq!(trap::call_arguments(&f), [10, 0, 0, 0, 0, 15]);
    assert_eq!(trap::after_call(&mut f, DispatchResult::Ret(77), false), TrapEnd::Resume);
    assert_eq!((f.a0, f.sepc, f.a5, f.sp), (77, 0x1004, 15, 1));
    trap::after_call(&mut f, DispatchResult::Ret(78), true);
    assert_eq!((f.a0, f.sepc), (78, 0x1004));
    assert_eq!(trap::after_call(&mut f, DispatchResult::Reschedule, false), TrapEnd::Schedule);
    assert_eq!((f.a0, f.sepc), (78, 0x1004));
}

#[test]
fn interrupt_handlers() {
    let mut t: InterruptTable<&str> = InterruptTable::new();
    t.register_interrupt_handler(10, "uart");
    t.register_interrupt_handler(1, "disk");
    assert_eq!(t.get(10), Some(&"uart"));
    assert_eq!((t.claimed(1), t.claimed(2), t.claimed(0), t.claimed(999)), (Some(&"disk"), None, None, None));
}

#[test]
fn machine_traps() {
    let mut h: ExternalHandlers<u8> = ExternalHandlers::init();
    h.register_irq(10, 1);
    h.register_irq(10, 2);
    h.register_irq(0, 3);
    assert_eq!(h.claimed(10), Some(&1));
    assert_eq!(h.claimed(0), None);
    assert_eq!(h.claimed(4), None);
    for (cause, action) in [
        (IRQ + 3, MachineAction::Soft),
        (IRQ + 7, MachineAction::Timer),
        (IRQ + 11, MachineAction::External),
        (IRQ + 9, MachineAction::UnknownInterrupt),
        (12, MachineAction::PageFault),
        (2, MachineAction::Report),
    ] {
        assert_eq!(machine::trap_handler(cause), action);
    }
}
