//! What the system calls ask for, one by one.
use vstd::prelude::*;
use crate::context::TrapFrame;
use crate::memory::phys;
use crate::memory::space::AddressSpace;
use crate::memory::table;
use crate::runtime::envcall;
use crate::runtime::envcall::{DispatchResult, FileError, OpenFlags, Request, SeekFrom};
use crate::runtime::trap;
use crate::runtime::trap::TrapAction;
use crate::text;

verus! {

/// Signed numbers are words in two's complement: they differ from the word by a multiple of two to the
/// power of 64, or of 32 for the low half.
pub proof fn law_signed(w: u64)
    ensures
        -0x8000_0000_0000_0000 <= envcall::signed(w) < 0x8000_0000_0000_0000,
        envcall::signed(w) == w || envcall::signed(w) == w - 0x1_0000_0000_0000_0000,
        -0x8000_0000 <= envcall::signed_low(w) < 0x8000_0000,
        (w - envcall::signed_low(w)) % 0x1_0000_0000 == 0,
{
    let low = w as int % 0x1_0000_0000;
    let high = w as int / 0x1_0000_0000;
    assert(w == high * 0x1_0000_0000 + low);
    assert((high * 0x1_0000_0000) % 0x1_0000_0000 == 0);
    assert(((high + 1) * 0x1_0000_0000) % 0x1_0000_0000 == 0);
}

/// `seek` sets the position of the file in the first argument. The third argument says where the second
/// one is counted from: the start of the file, where it must not be negative, the current position, or
/// the end. Any other origin is refused.
pub proof fn law_seek(
    m: Map<int, u64>,
    space: Option<AddressSpace>,
    args: [u64; 6],
    r: Request,
)
    requires
        envcall::decided(m, space, 1004, args, r),
    ensures
        args[2] == 0 && args[1] < 0x8000_0000_0000_0000 ==> r == (Request::Seek {
            fd: args[0],
            pos: SeekFrom::Start(args[1]),
        }),
        args[2] == 0 && args[1] >= 0x8000_0000_0000_0000 ==> r == Request::Done(
            DispatchResult::Ret(0xFFFF_FFFF_FFFF_FFEA),
        ),
        args[2] == 1 ==> (r matches Request::Seek { fd, pos: SeekFrom::Current(n) } && fd
            == args[0] && (n == args[1] || n == args[1] - 0x1_0000_0000_0000_0000)),
        args[2] == 2 ==> (r matches Request::Seek { fd, pos: SeekFrom::End(n) } && fd
            == args[0] && (n == args[1] || n == args[1] - 0x1_0000_0000_0000_0000)),
        args[2] > 2 ==> r == Request::Done(DispatchResult::Ret(0xFFFF_FFFF_FFFF_FFEA)),
{
}

/// `read` and `write` hand on the file, the address and the count as they are, if the memory is the
/// task's own. No bytes are always moved, and memory that is not the task's own is refused.
pub proof fn law_transfers(
    m: Map<int, u64>,
    space: Option<AddressSpace>,
    args: [u64; 6],
    r: Request,
    w: Request,
)
    requires
        envcall::decided(m, space, 63, args, r),
        envcall::decided(m, space, 64, args, w),
    ensures
        args[2] == 0 ==> r == Request::Done(DispatchResult::Ret(0)) && w == Request::Done(
            DispatchResult::Ret(0),
        ),
        args[2] > 0 && space is None ==> r == Request::Done(
            DispatchResult::Ret(0xFFFF_FFFF_FFFF_FFF2),
        ) && w == Request::Done(DispatchResult::Ret(0xFFFF_FFFF_FFFF_FFF2)),
        args[2] > 0 && space is Some && envcall::user_range(
            m,
            space->0.root(),
            args[1],
            args[2],
        ) ==> r == (Request::Read { fd: args[0], buf: args[1], count: args[2] }) && w == (
        Request::Write { fd: args[0], buf: args[1], count: args[2] }),
        args[2] > 0 && space is Some && !envcall::user_range(
            m,
            space->0.root(),
            args[1],
            args[2],
        ) ==> r == Request::Done(DispatchResult::Ret(0xFFFF_FFFF_FFFF_FFF2)) && w == Request::Done(
            DispatchResult::Ret(0xFFFF_FFFF_FFFF_FFF2),
        ),
{
}

/// Bytes are user memory exactly if each of them can be read there, and they end in the lower half of
/// the address range.
pub proof fn law_user_range(m: Map<int, u64>, root: int, addr: u64, len: u64)
    requires
        len > 0,
    ensures
        envcall::user_range(m, root, addr, len) <==> addr + len <= 0x40_0000_0000 && forall|va: int|
            addr <= va < addr + len ==> (#[trigger] envcall::user_byte(m, root, va)) is Some,
{
    if envcall::user_range(m, root, addr, len) {
        assert forall|va: int| addr <= va < addr + len implies (#[trigger] envcall::user_byte(
            m,
            root,
            va,
        )) is Some by {
            assert(addr as int / 4096 <= va / 4096);
            assert(envcall::mapped(m, root, va / 4096));
        }
    }
    if addr + len <= 0x40_0000_0000 && forall|va: int|
        addr <= va < addr + len ==> (#[trigger] envcall::user_byte(m, root, va)) is Some {
        assert forall|v: int|
            len > 0 && addr as int / 4096 <= v && 4096 * v < addr
                + len implies #[trigger] envcall::mapped(m, root, v) by {
            let va = if 4096 * v >= addr {
                4096 * v
            } else {
                addr as int
            };
            assert(va / 4096 == v);
            assert(envcall::user_byte(m, root, va) is Some);
        }
    }
}

/// A byte of user memory is the byte of the frame to which its page is mapped.
pub proof fn law_user_byte(m: Map<int, u64>, root: int, va: int, pa: int, flags: int)
    requires
        0 <= va < 0x40_0000_0000,
    ensures
        table::translation(m, root, va / 4096) == Some((pa, flags)) ==> envcall::user_byte(
            m,
            root,
            va,
        ) == Some(phys::byte_at(m, pa + va % 4096)),
        table::translation(m, root, va / 4096) is None ==> envcall::user_byte(m, root, va) is None,
{
}

/// No address of the upper half is user memory.
pub proof fn law_no_kernel_memory(m: Map<int, u64>, root: int, va: int)
    requires
        va >= 0x40_0000_0000,
    ensures
        envcall::user_byte(m, root, va) is None,
{
}

/// `open` asks for the file whose path stands in user memory, and in the mode that the low two bits of
/// the flags say: for reading, for writing, or for both. There is only one path that it can mean.
pub proof fn law_open(
    m: Map<int, u64>,
    space: AddressSpace,
    args: [u64; 6],
    path: Seq<u8>,
    r: Request,
)
    requires
        envcall::decided(m, Some(space), 1002, args, r),
        path.len() < 256,
        forall|i: int| 0 <= i < path.len() ==> #[trigger] path[i] != 0,
        forall|i: int|
            0 <= i < path.len() ==> envcall::user_byte(m, space.root(), args[0] + i) == Some(
                #[trigger] path[i],
            ),
        envcall::user_byte(m, space.root(), args[0] + path.len()) == Some(0u8),
    ensures
        args[1] % 4 == 3 ==> r == Request::Done(DispatchResult::Ret(0xFFFF_FFFF_FFFF_FFEA)),
        args[1] % 4 != 3 ==> r is Open && r->path@ == text::lossy(path) && r->flags == (if args[1]
            % 4 == 0 {
            OpenFlags::Read
        } else if args[1] % 4 == 1 {
            OpenFlags::Write
        } else {
            OpenFlags::ReadWrite
        }),
{
    let root = space.root();
    assert(envcall::user_text(m, root, args[0], path));
    assert forall|b: Seq<u8>| #[trigger] envcall::user_text(m, root, args[0], b) implies b
        == path by {
        if b.len() < path.len() {
            assert(path[b.len() as int] != 0);
        } else if path.len() < b.len() {
            assert(b[path.len() as int] != 0);
        } else {
            assert forall|i: int| 0 <= i < b.len() implies b[i] == path[i] by {
                assert(envcall::user_byte(m, root, args[0] + i) == Some(b[i]));
                assert(envcall::user_byte(m, root, args[0] + i) == Some(path[i]));
            }
            assert(b =~= path);
        }
    }
}

/// `open` is refused where no path stands: without a space, where a byte before the end mark cannot be
/// read, or where there is no end mark among the first 256 bytes.
pub proof fn law_open_refused(
    m: Map<int, u64>,
    space: Option<AddressSpace>,
    args: [u64; 6],
    r: Request,
)
    requires
        envcall::decided(m, space, 1002, args, r),
        space matches Some(s) ==> (forall|i: int|
            0 <= i < 256 ==> (#[trigger] envcall::user_byte(m, s.root(), args[0] + i)) != Some(0u8)),
    ensures
        r == Request::Done(DispatchResult::Ret(0xFFFF_FFFF_FFFF_FFF2)),
{
    match space {
        Some(s) => {
            assert forall|b: Seq<u8>| b.len() < 256 implies !#[trigger] envcall::user_text(
                m,
                s.root(),
                args[0],
                b,
            ) by {
                assert(envcall::user_byte(m, s.root(), args[0] + b.len()) != Some(0u8));
            }
        },
        None => {},
    }
}

/// The other calls hand their arguments on: `close` and `control` the file in the first one, `control`
/// the low half of the second one as the command, and the heap calls the size, if the task has a space.
/// `exit` ends the task, and an unknown number is refused.
pub proof fn law_other_calls(
    m: Map<int, u64>,
    space: Option<AddressSpace>,
    number: u64,
    args: [u64; 6],
    r: Request,
)
    requires
        envcall::decided(m, space, number, args, r),
    ensures
        number == 93 ==> r == Request::Done(DispatchResult::Reschedule),
        number == 1000 && space is Some ==> r == (Request::MapHeap { size: args[0] }),
        number == 1001 && space is Some ==> r == (Request::Unmap { addr: args[0], size: args[1] }),
        (number == 1000 || number == 1001) && space is None ==> r == Request::Done(
            DispatchResult::Ret(0xFFFF_FFFF_FFFF_FFEA),
        ),
        number == 1003 ==> r == (Request::Close { fd: args[0] }),
        number == 1005 ==> (r matches Request::Control { fd, cmd, arg } && fd == args[0] && arg
            == args[2] && (args[1] - cmd) % 0x1_0000_0000 == 0),
        number != 63 && number != 64 && number != 93 && number != 1000 && number != 1001 && number
            != 1002 && number != 1003 && number != 1004 && number != 1005 ==> r == Request::Done(
            DispatchResult::Ret(0xFFFF_FFFF_FFFF_FFDA),
        ),
{
}

/// Only `exit` ends a task.
pub proof fn law_only_exit_ends(number: u64)
    ensures
        envcall::call_of(number) == Some(envcall::Ecall::Exit) <==> number == 93,
{
}

/// Each error of a file has its own number, negated; the end of a file reads as nothing, and a result
/// is handed on as it is.
pub proof fn law_error_numbers(n: u64)
    ensures
        envcall::signed(envcall::errno(FileError::NotFound)) == -2,
        envcall::signed(envcall::errno(FileError::IoError)) == -5,
        envcall::signed(envcall::errno(FileError::InvalidFd)) == -9,
        envcall::signed(envcall::errno(FileError::WouldBlock)) == -11,
        envcall::signed(envcall::errno(FileError::PermissionDenied)) == -13,
        envcall::signed(envcall::errno(FileError::NotDirectory)) == -20,
        envcall::signed(envcall::errno(FileError::InvalidArg)) == -22,
        envcall::signed(envcall::errno(FileError::NotSupported)) == -95,
        envcall::errno(FileError::Eof) == 0,
        envcall::file_result(Ok(n)) == DispatchResult::Ret(n),
        forall|e: FileError| #[trigger]
            envcall::file_result(Err(e)) == DispatchResult::Ret(envcall::errno(e)),
{
}

/// What the causes ask for: interrupts have the highest bit set, and among them 1 is the software
/// interrupt, 5 the clock and 9 a device. Exception 8 is a system call, 12, 13 and 15 are page faults.
/// Any other exception ends a user task, and stops the system in the kernel.
pub proof fn law_trap_causes(scause: u64, umode: bool)
    ensures
        ({
            let a = trap::action_of(scause, umode);
            &&& scause == 0x8000_0000_0000_0001 <==> a == TrapAction::Yield
            &&& scause == 0x8000_0000_0000_0005 <==> a == TrapAction::Tick
            &&& scause == 0x8000_0000_0000_0009 <==> a == TrapAction::External
            &&& scause == 8 <==> a == TrapAction::Call
            &&& scause == 12 || scause == 13 || scause == 15 <==> a == TrapAction::PageFault
            &&& scause >= 0x8000_0000_0000_0000 && scause != 0x8000_0000_0000_0001 && scause
                != 0x8000_0000_0000_0005 && scause != 0x8000_0000_0000_0009 <==> a
                == TrapAction::UnknownInterrupt
            &&& a matches TrapAction::Terminate(code) ==> code == -1 && umode && scause
                < 0x8000_0000_0000_0000
            &&& a == TrapAction::Panic ==> !umode
        }),
{
}

/// A task that waits for input repeats its call: only the result register changes.
pub proof fn law_waiting_call_repeats(f: TrapFrame, value: u64)
    ensures
        trap::returned(f, value, true) == (TrapFrame { a0: value, ..f }),
        trap::returned(f, value, false) == (TrapFrame {
            a0: value,
            sepc: if f.sepc <= u64::MAX - 4 {
                (f.sepc + 4) as u64
            } else {
                (f.sepc - (u64::MAX - 3)) as u64
            },
            ..f
        }),
{
}

} // verus!
