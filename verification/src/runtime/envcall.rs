//! System calls of user tasks.
//!
//! The number of the call stands in register `a7`, its arguments in `a0` to `a5`, its result in
//! `a0`. An error is the negated number of the error, in two's complement. Calls that need a file
//! or the user heap are decided in two steps: `dispatch` checks the arguments and says what has to
//! be done, and a second function turns the outcome into the result.
use vstd::prelude::*;
use crate::memory::addr;
use crate::memory::addr::{VirtAddr, VA_HALF};
use crate::memory::phys;
use crate::memory::phys::PhysMem;
use crate::memory::space::AddressSpace;
use crate::memory::table;
use crate::memory::walk;
use crate::schedule::exit;
use crate::schedule::sleep;
use crate::schedule::task::{Pending, Queues, TaskTable};
use crate::text;

verus! {

/// Number of `read`.
pub const READ: u64 = 63;

/// Number of `write`.
pub const WRITE: u64 = 64;

/// Number of `exit`.
pub const EXIT: u64 = 93;

/// Number of `map`: pages of the user heap.
pub const MAP: u64 = 1000;

/// Number of `unmap`.
pub const UNMAP: u64 = 1001;

/// Number of `open`.
pub const OPEN: u64 = 1002;

/// Number of `close`.
pub const CLOSE: u64 = 1003;

/// Number of `seek`.
pub const SEEK: u64 = 1004;

/// Number of `control`.
pub const CONTROL: u64 = 1005;

/// No such call.
pub const ENOSYS: u64 = 0xFFFF_FFFF_FFFF_FFDA;

/// Not an open file.
pub const EBADF: u64 = 0xFFFF_FFFF_FFFF_FFF7;

/// No such file.
pub const ENOENT: u64 = 0xFFFF_FFFF_FFFF_FFFE;

/// The call would have to wait.
pub const EAGAIN: u64 = 0xFFFF_FFFF_FFFF_FFF5;

/// Not permitted.
pub const EACCES: u64 = 0xFFFF_FFFF_FFFF_FFF3;

/// The device failed.
pub const EIO: u64 = 0xFFFF_FFFF_FFFF_FFFB;

/// A part of the path is no directory.
pub const ENOTDIR: u64 = 0xFFFF_FFFF_FFFF_FFEC;

/// The file does not support the call.
pub const EOPNOTSUPP: u64 = 0xFFFF_FFFF_FFFF_FFA1;

/// A pointer does not point to mapped user memory.
pub const EFAULT: u64 = 0xFFFF_FFFF_FFFF_FFF2;

/// An argument is invalid.
pub const EINVAL: u64 = 0xFFFF_FFFF_FFFF_FFEA;

/// No memory is left.
pub const ENOMEM: u64 = 0xFFFF_FFFF_FFFF_FFF4;

/// Most bytes of a path, with its end mark.
pub const MAX_PATH: u64 = 256;

/// A system call.
#[derive(Clone, Copy, PartialEq, Eq, Structural, Debug)]
pub enum Ecall {
    Read,
    Write,
    Exit,
    MapHeap,
    Unmap,
    Open,
    Close,
    Seek,
    Control,
}

/// What the trap code does after a call.
#[derive(Clone, Copy, PartialEq, Eq, Structural, Debug)]
pub enum DispatchResult {
    /// The task goes on after the call, with this result.
    Ret(u64),
    /// The task has stopped running; the next one is scheduled.
    Reschedule,
}

/// Why a file operation failed.
#[derive(Clone, Copy, PartialEq, Eq, Structural, Debug)]
pub enum FileError {
    NotFound,
    NotSupported,
    InvalidFd,
    PermissionDenied,
    IoError,
    Eof,
    WouldBlock,
    InvalidArg,
    NotDirectory,
}

/// How a file is opened.
#[derive(Clone, Copy, PartialEq, Eq, Structural, Debug)]
pub enum OpenFlags {
    Read,
    Write,
    ReadWrite,
}

/// Where a file position is counted from.
#[derive(Clone, Copy, PartialEq, Eq, Structural, Debug)]
pub enum SeekFrom {
    Start(u64),
    Current(i64),
    End(i64),
}

/// What a call asks for, after its arguments were checked.
pub enum Request {
    /// Nothing more: the call is decided.
    Done(DispatchResult),
    /// Read from a file into mapped user memory.
    Read { fd: u64, buf: u64, count: u64 },
    /// Write mapped user memory to a file.
    Write { fd: u64, buf: u64, count: u64 },
    /// Take pages of the user heap.
    MapHeap { size: u64 },
    /// Give back pages of the user heap.
    Unmap { addr: u64, size: u64 },
    /// Open a file.
    Open { path: String, flags: OpenFlags },
    /// Close a file.
    Close { fd: u64 },
    /// Set the position of a file.
    Seek { fd: u64, pos: SeekFrom },
    /// Send a command to a device.
    Control { fd: u64, cmd: u32, arg: u64 },
}

/// The call with the number.
pub open spec fn call_of(number: u64) -> Option<Ecall> {
    if number == READ {
        Some(Ecall::Read)
    } else if number == WRITE {
        Some(Ecall::Write)
    } else if number == EXIT {
        Some(Ecall::Exit)
    } else if number == MAP {
        Some(Ecall::MapHeap)
    } else if number == UNMAP {
        Some(Ecall::Unmap)
    } else if number == OPEN {
        Some(Ecall::Open)
    } else if number == CLOSE {
        Some(Ecall::Close)
    } else if number == SEEK {
        Some(Ecall::Seek)
    } else if number == CONTROL {
        Some(Ecall::Control)
    } else {
        None
    }
}

impl Ecall {
    /// The call with the number.
    pub fn from_number(number: u64) -> (r: Option<Ecall>)
        ensures
            r == call_of(number),
    {
        match number {
            READ => Some(Ecall::Read),
            WRITE => Some(Ecall::Write),
            EXIT => Some(Ecall::Exit),
            MAP => Some(Ecall::MapHeap),
            UNMAP => Some(Ecall::Unmap),
            OPEN => Some(Ecall::Open),
            CLOSE => Some(Ecall::Close),
            SEEK => Some(Ecall::Seek),
            CONTROL => Some(Ecall::Control),
            _ => None,
        }
    }
}

/// The result of a call that failed on a file. The end of a file is no error: nothing was read.
pub open spec fn errno(e: FileError) -> u64 {
    match e {
        FileError::NotFound => ENOENT,
        FileError::NotSupported => EOPNOTSUPP,
        FileError::InvalidFd => EBADF,
        FileError::PermissionDenied => EACCES,
        FileError::IoError => EIO,
        FileError::Eof => 0,
        FileError::WouldBlock => EAGAIN,
        FileError::InvalidArg => EINVAL,
        FileError::NotDirectory => ENOTDIR,
    }
}

/// The result of a call that failed on a file.
pub fn errno_of(e: FileError) -> (r: u64)
    ensures
        r == errno(e),
{
    match e {
        FileError::NotFound => ENOENT,
        FileError::NotSupported => EOPNOTSUPP,
        FileError::InvalidFd => EBADF,
        FileError::PermissionDenied => EACCES,
        FileError::IoError => EIO,
        FileError::Eof => 0,
        FileError::WouldBlock => EAGAIN,
        FileError::InvalidArg => EINVAL,
        FileError::NotDirectory => ENOTDIR,
    }
}

/// A word as a signed number in two's complement.
pub open spec fn signed(w: u64) -> int {
    if w < 0x8000_0000_0000_0000 {
        w as int
    } else {
        w - 0x1_0000_0000_0000_0000
    }
}

/// The low half of a word as a signed number in two's complement.
pub open spec fn signed_low(w: u64) -> int {
    let low = w as int % 0x1_0000_0000;
    if low < 0x8000_0000 {
        low
    } else {
        low - 0x1_0000_0000
    }
}

/// A word as a signed number.
fn to_signed(w: u64) -> (r: i64)
    ensures
        r == signed(w),
{
    if w < 0x8000_0000_0000_0000 {
        w as i64
    } else {
        -((u64::MAX - w) as i64) - 1
    }
}

/// The low half of a word as a signed number.
fn to_signed_low(w: u64) -> (r: i32)
    ensures
        r == signed_low(w),
{
    let low: u64 = w % 0x1_0000_0000;
    if low < 0x8000_0000 {
        low as i32
    } else {
        -((0xFFFF_FFFF - low) as i32) - 1
    }
}

/// The page is in memory if it is mapped, for every page of the user half.
pub open spec fn backed(m: Map<int, u64>, root: int) -> bool {
    forall|v: int|
        0 <= v < 0x400_0000 && (#[trigger] table::translation(m, root, v)) is Some
            ==> phys::has_frame(m, (table::translation(m, root, v)->0).0)
}

/// The page `v` is mapped.
pub open spec fn mapped(m: Map<int, u64>, root: int, v: int) -> bool {
    table::translation(m, root, v) is Some
}

/// The bytes from `addr` on are user memory: they lie in the user half, and every page that holds
/// one of them, partial pages too, is mapped.
pub open spec fn user_range(m: Map<int, u64>, root: int, addr: u64, len: u64) -> bool {
    &&& addr < VA_HALF
    &&& addr + len <= VA_HALF
    &&& forall|v: int|
        len > 0 && addr as int / 4096 <= v && 4096 * v < addr + len ==> #[trigger] mapped(
            m,
            root,
            v,
        )
}

/// The byte of user memory at `va`, if there is one.
pub open spec fn user_byte(m: Map<int, u64>, root: int, va: int) -> Option<u8> {
    if 0 <= va < VA_HALF && mapped(m, root, va / 4096) {
        Some(phys::byte_at(m, (table::translation(m, root, va / 4096)->0).0 + va % 4096))
    } else {
        None
    }
}

/// User memory holds the text `s` at `addr`, followed by a zero byte.
pub open spec fn user_text(m: Map<int, u64>, root: int, addr: u64, s: Seq<u8>) -> bool {
    &&& forall|i: int|
        #![trigger s[i]]
        0 <= i < s.len() ==> user_byte(m, root, addr + i) == Some(s[i]) && s[i] != 0
    &&& user_byte(m, root, addr + s.len()) == Some(0u8)
}

/// Whether the bytes from `addr` on are user memory of the space. Without a space there is none.
pub fn user_ptr_valid(space: Option<&AddressSpace>, mem: &PhysMem, addr: u64, len: u64) -> (r: bool)
    requires
        mem.wf(),
        space matches Some(s) ==> walk::walkable(mem@, s.root()),
    ensures
        r == (space matches Some(s) && user_range(mem@, s.root(), addr, len)),
{
    let s: &AddressSpace = match space {
        Some(s) => s,
        None => {
            return false;
        },
    };
    if addr >= VA_HALF || len > VA_HALF - addr {
        return false;
    }
    if len == 0 {
        return true;
    }
    let first: u64 = addr / 4096;
    let end: u64 = (addr + len + 4095) / 4096;
    let mut v: u64 = first;
    while v < end
        invariant
            first <= v,
            first == addr as int / 4096,
            end == (addr + len + 4095) / 4096,
            addr < VA_HALF,
            addr + len <= VA_HALF,
            len > 0,
            space == Some(s),
            mem.wf(),
            walk::walkable(mem@, s.root()),
            forall|w: int| first <= w < v ==> #[trigger] mapped(mem@, s.root(), w),
        decreases end - v,
    {
        assert(addr::page_number((v * 4096) as u64) == v);
        if s.translate(mem, VirtAddr::from_raw(v * 4096)).is_none() {
            assert(!mapped(mem@, s.root(), v as int));
            return false;
        }
        v += 1;
    }
    true
}

/// Reads a byte of user memory, if it is there.
fn load_byte(space: &AddressSpace, mem: &PhysMem, va: u64) -> (r: Option<u8>)
    requires
        mem.wf(),
        walk::walkable(mem@, space.root()),
        backed(mem@, space.root()),
    ensures
        r == user_byte(mem@, space.root(), va as int),
{
    if va >= VA_HALF {
        return None;
    }
    assert(addr::page_number(va) == va as int / 4096);
    match space.translate(mem, VirtAddr::from_raw(va)) {
        Some((pa, _)) => {
            let base: u64 = pa.as_usize();
            proof {
                assert(phys::has_frame(mem@, base as int));
                let off = va as int % 4096;
                let k = off / 8;
                assert((base + off) - (base + off) % 8 == base + 8 * k);
                assert(mem@.dom().contains(base + 8 * k));
            }
            Some(mem.read_byte(base + va % 4096))
        },
        None => None,
    }
}

/// Copies a text that ends with a zero byte from user memory. `None` if a page is not mapped or no
/// zero byte is among the first `max` bytes.
pub fn user_str(space: Option<&AddressSpace>, mem: &PhysMem, addr: u64, max: u64) -> (r: Option<
    Vec<u8>,
>)
    requires
        mem.wf(),
        space matches Some(s) ==> walk::walkable(mem@, s.root()) && backed(mem@, s.root()),
    ensures
        match r {
            Some(b) => space matches Some(s) && b@.len() < max && user_text(
                mem@,
                s.root(),
                addr,
                b@,
            ),
            None => space is Some ==> forall|b: Seq<u8>|
                #![trigger user_text(mem@, (space->0).root(), addr, b)]
                b.len() < max ==> !user_text(mem@, (space->0).root(), addr, b),
        },
{
    let s: &AddressSpace = match space {
        Some(s) => s,
        None => {
            return None;
        },
    };
    let ghost m = mem@;
    let ghost root = s.root();
    let mut out: Vec<u8> = Vec::new();
    let mut i: u64 = 0;
    while i < max
        invariant
            i <= max,
            out@.len() == i,
            m == mem@,
            root == s.root(),
            space == Some(s),
            mem.wf(),
            walk::walkable(m, root),
            backed(m, root),
            forall|k: int|
                #![trigger out@[k]]
                0 <= k < i ==> user_byte(m, root, addr + k) == Some(out@[k]) && out@[k] != 0,
        decreases max - i,
    {
        let next: Option<u8> = if i <= u64::MAX - addr {
            load_byte(s, mem, addr + i)
        } else {
            None
        };
        assert(next == user_byte(m, root, addr + i));
        match next {
            None => {
                proof {
                    lemma_no_text(m, root, addr, out@);
                }
                return None;
            },
            Some(b) => {
                if b == 0 {
                    return Some(out);
                }
                out.push(b);
            },
        }
        i += 1;
    }
    proof {
        assert forall|b: Seq<u8>| b.len() < max implies !#[trigger] user_text(m, root, addr, b) by {
            if user_text(m, root, addr, b) {
                assert(out@[b.len() as int] != 0);
            }
        }
    }
    None
}

/// Where the bytes read so far are no zeros and the next one cannot be read, there is no text.
proof fn lemma_no_text(m: Map<int, u64>, root: int, addr: u64, out: Seq<u8>)
    requires
        forall|k: int|
            #![trigger out[k]]
            0 <= k < out.len() ==> user_byte(m, root, addr + k) == Some(out[k]) && out[k] != 0,
        user_byte(m, root, addr + out.len()) is None,
    ensures
        forall|b: Seq<u8>| !#[trigger] user_text(m, root, addr, b),
{
    assert forall|b: Seq<u8>| !#[trigger] user_text(m, root, addr, b) by {
        if user_text(m, root, addr, b) {
            if b.len() < out.len() {
                assert(out[b.len() as int] != 0);
            } else if b.len() > out.len() {
                assert(b[out.len() as int] != 0);
            }
        }
    }
}

/// How the low two bits of the flags open a file.
pub open spec fn access_mode(flags: u64) -> Option<OpenFlags> {
    if flags % 4 == 0 {
        Some(OpenFlags::Read)
    } else if flags % 4 == 1 {
        Some(OpenFlags::Write)
    } else if flags % 4 == 2 {
        Some(OpenFlags::ReadWrite)
    } else {
        None
    }
}

/// How the low two bits of the flags open a file; the other bits are ignored.
pub fn open_flags_from(flags: u64) -> (r: Option<OpenFlags>)
    ensures
        r == access_mode(flags),
{
    match flags % 4 {
        0 => Some(OpenFlags::Read),
        1 => Some(OpenFlags::Write),
        2 => Some(OpenFlags::ReadWrite),
        _ => None,
    }
}

/// The position that a seek asks for. `None` for an unknown origin, or a negative position from the
/// start.
pub open spec fn seek_target(offset: u64, whence: u64) -> Option<SeekFrom> {
    if whence == 0 {
        if signed(offset) >= 0 {
            Some(SeekFrom::Start(offset))
        } else {
            None
        }
    } else if whence == 1 {
        Some(SeekFrom::Current(signed(offset) as i64))
    } else if whence == 2 {
        Some(SeekFrom::End(signed(offset) as i64))
    } else {
        None
    }
}

/// The position that a seek asks for.
pub fn seek_from(offset: u64, whence: u64) -> (r: Option<SeekFrom>)
    ensures
        r == seek_target(offset, whence),
{
    match whence {
        0 => if offset < 0x8000_0000_0000_0000 {
            Some(SeekFrom::Start(offset))
        } else {
            None
        },
        1 => Some(SeekFrom::Current(to_signed(offset))),
        2 => Some(SeekFrom::End(to_signed(offset))),
        _ => None,
    }
}

/// What a call that moves `count` bytes of user memory asks for.
pub open spec fn transfer(
    m: Map<int, u64>,
    space: Option<AddressSpace>,
    args: [u64; 6],
    request: Request,
) -> Request {
    if args[2] == 0 {
        Request::Done(DispatchResult::Ret(0))
    } else if space matches Some(s) && user_range(m, s.root(), args[1], args[2]) {
        request
    } else {
        Request::Done(DispatchResult::Ret(EFAULT))
    }
}

/// What a call that uses the user heap asks for.
pub open spec fn on_heap(space: Option<AddressSpace>, request: Request) -> Request {
    if space is Some {
        request
    } else {
        Request::Done(DispatchResult::Ret(EINVAL))
    }
}

/// What `open` asks for.
pub open spec fn opens(
    m: Map<int, u64>,
    space: Option<AddressSpace>,
    args: [u64; 6],
    r: Request,
) -> bool {
    if space matches Some(s) && exists|b: Seq<u8>|
        b.len() < MAX_PATH && #[trigger] user_text(m, s.root(), args[0], b) {
        match access_mode(args[1]) {
            Some(f) => r matches Request::Open { path, flags } && flags == f && exists|b: Seq<u8>|
                b.len() < MAX_PATH && #[trigger] user_text(m, space->0.root(), args[0], b)
                    && path@ == text::lossy(b),
            None => r == Request::Done(DispatchResult::Ret(EINVAL)),
        }
    } else {
        r == Request::Done(DispatchResult::Ret(EFAULT))
    }
}

/// The space of the running task.
pub open spec fn space_of(q: Queues) -> Option<AddressSpace> {
    match q.current {
        Some(t) => t.held.space,
        None => None,
    }
}

/// What a call asks for.
pub open spec fn decided(
    m: Map<int, u64>,
    space: Option<AddressSpace>,
    number: u64,
    args: [u64; 6],
    r: Request,
) -> bool {
    match call_of(number) {
        None => r == Request::Done(DispatchResult::Ret(ENOSYS)),
        Some(Ecall::Read) => r == transfer(
            m,
            space,
            args,
            (Request::Read { fd: args[0], buf: args[1], count: args[2] }),
        ),
        Some(Ecall::Write) => r == transfer(
            m,
            space,
            args,
            (Request::Write { fd: args[0], buf: args[1], count: args[2] }),
        ),
        Some(Ecall::Exit) => r == Request::Done(DispatchResult::Reschedule),
        Some(Ecall::MapHeap) => r == on_heap(space, (Request::MapHeap { size: args[0] })),
        Some(Ecall::Unmap) => r == on_heap(
            space,
            (Request::Unmap { addr: args[0], size: args[1] }),
        ),
        Some(Ecall::Open) => opens(m, space, args, r),
        Some(Ecall::Close) => r == (Request::Close { fd: args[0] }),
        Some(Ecall::Seek) => match seek_target(args[1], args[2]) {
            Some(pos) => r == (Request::Seek { fd: args[0], pos }),
            None => r == Request::Done(DispatchResult::Ret(EINVAL)),
        },
        Some(Ecall::Control) => r == (Request::Control {
            fd: args[0],
            cmd: (args[1] as int % 0x1_0000_0000) as u32,
            arg: args[2],
        }),
    }
}

/// Checks the user memory of `read` and `write`.
fn check_transfer(
    tasks: &TaskTable,
    mem: &PhysMem,
    args: &[u64; 6],
    request: Request,
) -> (r: Request)
    requires
        mem.wf(),
        space_of(tasks@) matches Some(s) ==> walk::walkable(mem@, s.root()),
    ensures
        r == transfer(mem@, space_of(tasks@), *args, request),
{
    if args[2] == 0 {
        return Request::Done(DispatchResult::Ret(0));
    }
    if !user_ptr_valid(tasks.current_space(), mem, args[1], args[2]) {
        return Request::Done(DispatchResult::Ret(EFAULT));
    }
    request
}

/// Checks the path and the flags of `open`.
fn check_open(tasks: &TaskTable, mem: &PhysMem, args: &[u64; 6]) -> (r: Request)
    requires
        mem.wf(),
        space_of(tasks@) matches Some(s) ==> walk::walkable(mem@, s.root()) && backed(
            mem@,
            s.root(),
        ),
    ensures
        opens(mem@, space_of(tasks@), *args, r),
{
    let space: Option<&AddressSpace> = tasks.current_space();
    let at: u64 = args[0];
    match user_str(space, mem, at, MAX_PATH) {
        None => {
            proof {
                if space_of(tasks@) is Some {
                    assert(space->0.root() == space_of(tasks@)->0.root());
                    assert(at == args[0]);
                }
            }
            Request::Done(DispatchResult::Ret(EFAULT))
        },
        Some(b) => {
            assert(user_text(mem@, space_of(tasks@)->0.root(), args[0], b@));
            match open_flags_from(args[1]) {
                None => Request::Done(DispatchResult::Ret(EINVAL)),
                Some(flags) => Request::Open { path: text::from_utf8_lossy(&b), flags },
            }
        },
    }
}

/// Decides a system call as far as it can be decided without a file or the heap.
///
/// An unknown number is refused with `ENOSYS`. `exit` marks the running task; it is scheduled away.
pub fn dispatch(tasks: &mut TaskTable, mem: &PhysMem, number: u64, args: [u64; 6]) -> (r: Request)
    requires
        mem.wf(),
        space_of(old(tasks)@) matches Some(s) ==> walk::walkable(mem@, s.root()) && backed(
            mem@,
            s.root(),
        ),
    ensures
        decided(mem@, space_of(old(tasks)@), number, args, r),
        final(tasks)@ == (if call_of(number) == Some(Ecall::Exit) {
            Queues {
                current: exit::ending(old(tasks)@.current, signed_low(args[0]) as i32),
                ..old(tasks)@
            }
        } else {
            old(tasks)@
        }),
{
    match Ecall::from_number(number) {
        None => Request::Done(DispatchResult::Ret(ENOSYS)),
        Some(Ecall::Read) => check_transfer(
            tasks,
            mem,
            &args,
            Request::Read { fd: args[0], buf: args[1], count: args[2] },
        ),
        Some(Ecall::Write) => check_transfer(
            tasks,
            mem,
            &args,
            Request::Write { fd: args[0], buf: args[1], count: args[2] },
        ),
        Some(Ecall::Exit) => {
            tasks.exit(to_signed_low(args[0]));
            Request::Done(DispatchResult::Reschedule)
        },
        Some(Ecall::MapHeap) => if tasks.current_space().is_some() {
            Request::MapHeap { size: args[0] }
        } else {
            Request::Done(DispatchResult::Ret(EINVAL))
        },
        Some(Ecall::Unmap) => if tasks.current_space().is_some() {
            Request::Unmap { addr: args[0], size: args[1] }
        } else {
            Request::Done(DispatchResult::Ret(EINVAL))
        },
        Some(Ecall::Open) => check_open(tasks, mem, &args),
        Some(Ecall::Close) => Request::Close { fd: args[0] },
        Some(Ecall::Seek) => match seek_from(args[1], args[2]) {
            Some(pos) => Request::Seek { fd: args[0], pos },
            None => Request::Done(DispatchResult::Ret(EINVAL)),
        },
        Some(Ecall::Control) => Request::Control {
            fd: args[0],
            cmd: (args[1] % 0x1_0000_0000) as u32,
            arg: args[2],
        },
    }
}

/// The result of a call on a file.
pub open spec fn file_result(r: Result<u64, FileError>) -> DispatchResult {
    match r {
        Ok(n) => DispatchResult::Ret(n),
        Err(e) => DispatchResult::Ret(errno(e)),
    }
}

/// The result of `read`. Where the file has nothing yet, the running task waits for input and
/// repeats the call when it is woken.
pub fn read_done(tasks: &mut TaskTable, r: Result<u64, FileError>, resume: u64) -> (d:
    DispatchResult)
    ensures
        match r {
            Err(FileError::WouldBlock) => {
                &&& d == DispatchResult::Reschedule
                &&& final(tasks)@ == (Queues {
                    current: sleep::reading(old(tasks)@.current, resume),
                    ..old(tasks)@
                })
            },
            Ok(_) => {
                &&& d == file_result(r)
                &&& final(tasks)@ == (Queues {
                    current: sleep::dropped(old(tasks)@.current, Pending::WaitRead),
                    ..old(tasks)@
                })
            },
            Err(_) => d == file_result(r) && final(tasks)@ == old(tasks)@,
        },
{
    match r {
        Ok(n) => {
            tasks.clear_input_wait();
            DispatchResult::Ret(n)
        },
        Err(FileError::WouldBlock) => {
            tasks.mark_input_wait(resume);
            DispatchResult::Reschedule
        },
        Err(e) => DispatchResult::Ret(errno_of(e)),
    }
}

/// The result of `write`, `open` and `seek`: a count, a file number, a position, or the error.
pub fn file_done(r: Result<u64, FileError>) -> (d: DispatchResult)
    ensures
        d == file_result(r),
{
    match r {
        Ok(n) => DispatchResult::Ret(n),
        Err(e) => DispatchResult::Ret(errno_of(e)),
    }
}

/// The result of `close`.
pub fn close_done(r: Result<(), FileError>) -> (d: DispatchResult)
    ensures
        d == DispatchResult::Ret(
            match r {
                Ok(_) => 0,
                Err(e) => errno(e),
            },
        ),
{
    match r {
        Ok(_) => DispatchResult::Ret(0),
        Err(e) => DispatchResult::Ret(errno_of(e)),
    }
}

/// The result of `control`: what the device returned, in two's complement, or the error.
pub fn control_done(r: Result<i64, FileError>) -> (d: DispatchResult)
    ensures
        match r {
            Ok(n) => d matches DispatchResult::Ret(v) && signed(v) == n,
            Err(e) => d == DispatchResult::Ret(errno(e)),
        },
{
    match r {
        Ok(n) => if n >= 0 {
            DispatchResult::Ret(n as u64)
        } else {
            DispatchResult::Ret(u64::MAX - (-(n + 1)) as u64)
        },
        Err(e) => DispatchResult::Ret(errno_of(e)),
    }
}

/// The result of `map`: the address of the pages, or that the heap is exhausted.
pub fn map_done(r: Option<u64>) -> (d: DispatchResult)
    ensures
        d == DispatchResult::Ret(
            match r {
                Some(va) => va,
                None => ENOMEM,
            },
        ),
{
    match r {
        Some(va) => DispatchResult::Ret(va),
        None => DispatchResult::Ret(ENOMEM),
    }
}

/// The result of `unmap`: whether the block was one of the heap.
pub fn unmap_done(freed: bool) -> (d: DispatchResult)
    ensures
        d == DispatchResult::Ret(if freed {
            0
        } else {
            EINVAL
        }),
{
    if freed {
        DispatchResult::Ret(0)
    } else {
        DispatchResult::Ret(EINVAL)
    }
}

/// Every error is a small negative number: no error can be taken for a count or an address of the
/// user half.
pub proof fn law_errors_negative(e: FileError)
    ensures
        e != FileError::Eof ==> -4096 < signed(errno(e)) < 0,
        errno(FileError::Eof) == 0,
        signed(ENOSYS) == -38,
        signed(EFAULT) == -14,
        signed(EINVAL) == -22,
        signed(ENOMEM) == -12,
{
}

/// The kernel never touches memory for a task that is not the task's own: what `read` and `write`
/// hand on is mapped user memory, byte for byte.
pub proof fn law_transfer_is_user_memory(
    m: Map<int, u64>,
    space: Option<AddressSpace>,
    number: u64,
    args: [u64; 6],
    r: Request,
    va: int,
)
    requires
        decided(m, space, number, args, r),
        r matches Request::Read { fd, buf, count } ==> buf <= va < buf + count,
        r matches Request::Write { fd, buf, count } ==> buf <= va < buf + count,
        r is Read || r is Write,
    ensures
        space matches Some(s) && user_byte(m, s.root(), va) is Some,
{
    let s = space->0;
    assert(mapped(m, s.root(), va / 4096)) by {
        assert(user_range(m, s.root(), args[1], args[2]));
        assert(args[1] as int / 4096 <= va / 4096 < (args[1] + args[2] + 4095) / 4096);
    }
}

} // verus!
