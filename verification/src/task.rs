//! What the schedulers share: the kinds of tasks, what a task owns, its first frame, and deadlines.
use vstd::prelude::*;
use crate::context;
use crate::context::{TrapFrame, FRAME_OFF_SEPC, FRAME_SIZE};
use crate::memory::addr;
use crate::memory::addr::{PhysAddr, VirtAddr};
use crate::memory::entry::PteFlags;
use crate::memory::moved;
use crate::memory::phys;
use crate::memory::phys::PhysMem;
use crate::memory::prune;
use crate::memory::region;
use crate::memory::space::AddressSpace;
use crate::memory::sv39;
use crate::memory::table;
use crate::memory::table::MapError;
use crate::mmu::frames::PageFrameAllocator;
use crate::mmu::pte;

verus! {

/// Size of a task's stack in bytes.
pub const TASK_STACK_SIZE: u64 = 16384;

/// Where the stack of every task lies in its address space. The page below stays unmapped, so that
/// an overflow faults.
pub const TASK_STACK_BASE: u64 = 0xC000_0000;

/// The flags of stack pages: valid, read, write, accessed, dirty. A stack is not global, so that
/// switching spaces drops its translations, and neither executable nor open to user mode.
pub const TASK_STACK_FLAGS: u64 = 199;

/// Where the frame at the top of a stack lies in the task's address space.
pub const TASK_FRAME: u64 = 0xC000_3EF8;

/// The status register of a new task: it returns to supervisor mode with interrupts enabled.
pub const TASK_SSTATUS: u64 = 288;

/// How synchronous exceptions of a task are handled.
#[derive(Clone, Copy, PartialEq, Eq, Structural, Debug)]
pub enum TaskKind {
    /// A kernel task: an exception is a kernel bug and stops the system.
    SMode,
    /// A user task: an exception ends the task.
    UMode,
}

/// What a task owns and gives back when it is reclaimed.
pub struct Holdings {
    /// The address space; a task without one runs in the kernel's.
    pub space: Option<AddressSpace>,
    /// Physical base of the stack; a task without one runs on the boot stack.
    pub stack: Option<u64>,
    /// Size of the stack in bytes.
    pub stack_size: u64,
}

/// The product, or the largest word where it does not fit.
pub open spec fn capped(a: int) -> int {
    if a <= u64::MAX {
        a
    } else {
        u64::MAX as int
    }
}

/// The time `secs` seconds and `nanos` nanoseconds after `now`, at `freq` ticks per second. Sums
/// and products that do not fit a word are capped.
pub open spec fn deadline_of(now: u64, secs: u64, nanos: u32, freq: u64) -> int {
    capped(capped(now + capped(secs * freq)) + capped(nanos * freq) / 1_000_000_000)
}

/// The product, or the largest word where it does not fit.
fn capped_product(a: u64, b: u64) -> (r: u64)
    ensures
        r == capped(a * b),
{
    assert(a * b <= 0xFFFF_FFFF_FFFF_FFFF * 0xFFFF_FFFF_FFFF_FFFF) by (nonlinear_arith)
        requires
            a <= 0xFFFF_FFFF_FFFF_FFFF,
            b <= 0xFFFF_FFFF_FFFF_FFFF,
    ;
    assert(0 <= a * b) by (nonlinear_arith);
    let p: u128 = (a as u128) * (b as u128);
    if p <= u64::MAX as u128 {
        p as u64
    } else {
        u64::MAX
    }
}

/// When a task that goes to sleep at `now` for `secs` seconds and `nanos` nanoseconds wakes up.
pub fn deadline(now: u64, secs: u64, nanos: u32, freq: u64) -> (r: u64)
    ensures
        r == deadline_of(now, secs, nanos, freq),
{
    let whole: u64 = now.saturating_add(capped_product(secs, freq));
    whole.saturating_add(capped_product(nanos as u64, freq) / 1_000_000_000)
}

/// A sleeper never wakes before it went to sleep, and a longer sleep never ends earlier.
pub proof fn law_deadline(now: u64, secs: u64, nanos: u32, secs2: u64, freq: u64)
    requires
        secs <= secs2,
    ensures
        now <= deadline_of(now, secs, nanos, freq) <= u64::MAX,
        deadline_of(now, secs, nanos, freq) <= deadline_of(now, secs2, nanos, freq),
{
    assert(0 <= secs * freq <= secs2 * freq) by (nonlinear_arith)
        requires
            0 <= secs <= secs2,
            0 <= freq,
    ;
    assert(0 <= nanos * freq) by (nonlinear_arith);
}

/// A sleeper wakes exactly `secs` seconds and `nanos` nanoseconds later, in ticks, the last one not
/// counted if it is not full; where that does not fit a word, at the largest time.
pub proof fn law_deadline_exact(now: u64, secs: u64, nanos: u32, freq: u64)
    requires
        nanos * freq <= u64::MAX,
    ensures
        now + secs * freq + (nanos * freq) / 1_000_000_000 <= u64::MAX ==> deadline_of(
            now,
            secs,
            nanos,
            freq,
        ) == now + secs * freq + (nanos * freq) / 1_000_000_000,
        now + secs * freq + (nanos * freq) / 1_000_000_000 > u64::MAX ==> deadline_of(
            now,
            secs,
            nanos,
            freq,
        ) == u64::MAX,
{
    assert(0 <= secs * freq) by (nonlinear_arith);
    assert(0 <= nanos * freq) by (nonlinear_arith);
}

/// The frame of a task with a space of its own lies at the top of its stack, 264 bytes below the end;
/// that of any other task lies where its address says.
pub proof fn law_frame_place(h: Holdings, frame: u64)
    ensures
        h.space is Some && h.stack is Some ==> frame_at(h, frame) == h.stack->0 + h.stack_size
            - 264,
        h.space is None ==> frame_at(h, frame) == frame,
{
}

/// Every stack that a task owned is given back once, with its base and its size, in order; a task
/// without a stack gives back none.
pub proof fn law_stacks_given_back(hs: Seq<Holdings>, h: Holdings)
    ensures
        stacks_of(Seq::empty()) == Seq::<(u64, u64)>::empty(),
        h.stack matches Some(base) ==> stacks_of(hs.push(h)) == stacks_of(hs).push(
            (base, h.stack_size),
        ),
        h.stack is None ==> stacks_of(hs.push(h)) == stacks_of(hs),
        stack_of(h) == (match h.stack {
            Some(base) => Some((base, h.stack_size)),
            None => None::<(u64, u64)>,
        }),
{
    assert(hs.push(h).drop_last() =~= hs);
}

/// The tables that are given back for tasks are those of the spaces that they owned, without the
/// tables that they shared with the kernel.
pub proof fn law_tables_given_back(m: Map<int, u64>, hs: Seq<Holdings>, t: int)
    ensures
        tables_of_all(m, hs).contains(t) <==> exists|i: int|
            0 <= i < hs.len() && ((#[trigger] hs[i]).space matches Some(s) && sv39::owned(
                m,
                s.root(),
                s.shared(),
            ).contains(t)),
{
    if tables_of_all(m, hs).contains(t) {
        let i = choose|i: int| 0 <= i < hs.len() && #[trigger] tables_of(m, hs[i]).contains(t);
        assert(hs[i].space is Some);
    }
    if exists|i: int|
        0 <= i < hs.len() && ((#[trigger] hs[i]).space matches Some(s) && sv39::owned(
            m,
            s.root(),
            s.shared(),
        ).contains(t)) {
        let i = choose|i: int|
            0 <= i < hs.len() && ((#[trigger] hs[i]).space matches Some(s) && sv39::owned(
                m,
                s.root(),
                s.shared(),
            ).contains(t));
        assert(tables_of(m, hs[i]).contains(t));
    }
}

/// Physical address of a task's frame: the top of its stack, or `frame` itself for a task that
/// runs in the kernel's address space.
pub open spec fn frame_at(h: Holdings, frame: u64) -> int {
    if h.space is Some {
        h.stack->0 + h.stack_size - 264
    } else {
        frame as int
    }
}

/// The saved program counter of the task can be reached in memory.
pub open spec fn reachable(m: Map<int, u64>, h: Holdings, frame: u64) -> bool {
    &&& h.space is Some ==> h.stack is Some && h.stack_size >= 264 && h.stack->0 + h.stack_size
        <= u64::MAX
    &&& m.contains_key(frame_at(h, frame) + 248)
}

/// Physical address of a task's frame.
pub fn frame_phys(h: &Holdings, frame: u64) -> (r: u64)
    requires
        h.space is Some ==> h.stack is Some && h.stack_size >= 264 && h.stack->0 + h.stack_size
            <= u64::MAX,
    ensures
        r == frame_at(*h, frame),
{
    match (&h.space, h.stack) {
        (Some(_), Some(base)) => base + h.stack_size - FRAME_SIZE,
        _ => frame,
    }
}

/// Sets the saved program counter of a task.
pub fn set_sepc(mem: &mut PhysMem, h: &Holdings, frame: u64, sepc: u64)
    requires
        old(mem).wf(),
        reachable(old(mem)@, *h, frame),
    ensures
        final(mem).wf(),
        final(mem).start() == old(mem).start(),
        final(mem).end() == old(mem).end(),
        final(mem)@ == old(mem)@.insert(frame_at(*h, frame) + 248, sepc),
        final(mem)@.dom() == old(mem)@.dom(),
{
    let at: u64 = frame_phys(h, frame);
    proof {
        mem.lemma_domain();
    }
    mem.write_word(at + FRAME_OFF_SEPC, sepc);
    assert(mem@.dom() =~= old(mem)@.dom());
}

/// The page tables of the holdings, as far as they belong to them.
pub open spec fn tables_of(m: Map<int, u64>, h: Holdings) -> Set<int> {
    match h.space {
        Some(s) => sv39::owned(m, s.root(), s.shared()),
        None => Set::empty(),
    }
}

/// The page tables that the holdings own together.
pub open spec fn tables_of_all(m: Map<int, u64>, hs: Seq<Holdings>) -> Set<int> {
    Set::new(|t: int| exists|i: int| 0 <= i < hs.len() && #[trigger] tables_of(m, hs[i]).contains(t))
}

/// The holdings can be given back: the spaces are sound, and none owns a table of another.
pub open spec fn reclaimable(m: Map<int, u64>, free: Set<int>, hs: Seq<Holdings>) -> bool {
    &&& forall|i: int|
        #![trigger hs[i]]
        0 <= i < hs.len() && hs[i].space is Some ==> hs[i].space->0.wf(m, free)
    &&& forall|i: int, j: int|
        #![trigger hs[i], hs[j]]
        0 <= i < hs.len() && 0 <= j < hs.len() && i != j && hs[j].space is Some ==> tables_of(
            m,
            hs[i],
        ).disjoint(sv39::tables(m, hs[j].space->0.root()))
}

/// The stack that the holdings give back: its base and its size.
pub open spec fn stack_of(h: Holdings) -> Option<(u64, u64)> {
    match h.stack {
        Some(base) => Some((base, h.stack_size)),
        None => None,
    }
}

/// The stacks that the holdings give back, in order.
pub open spec fn stacks_of(hs: Seq<Holdings>) -> Seq<(u64, u64)>
    decreases hs.len(),
{
    if hs.len() == 0 {
        Seq::empty()
    } else {
        match stack_of(hs.last()) {
            Some(b) => stacks_of(hs.drop_last()).push(b),
            None => stacks_of(hs.drop_last()),
        }
    }
}

/// Gives back what a task owned: the tables of its address space go to the page allocator, its
/// stack is returned for the frame allocator.
pub fn reclaim<A: PageFrameAllocator>(h: Holdings, mem: &mut PhysMem, frames: &mut A) -> (r: Option<
    (u64, u64),
>)
    requires
        old(mem).wf(),
        old(frames).ready(old(mem)@.dom()),
        h.space matches Some(s) ==> s.wf(old(mem)@, old(frames).free()),
    ensures
        r == stack_of(h),
        final(mem).wf(),
        final(mem).start() == old(mem).start(),
        final(mem).end() == old(mem).end(),
        final(mem)@.dom() == old(mem)@.dom(),
        final(frames).ready(final(mem)@.dom()),
        final(frames).recycles() == old(frames).recycles(),
        final(frames).free() == prune::released(
            old(frames).free(),
            tables_of(old(mem)@, h),
            old(frames).recycles(),
        ),
        phys::same_outside(old(mem)@, final(mem)@, tables_of(old(mem)@, h)),
{
    let r: Option<(u64, u64)> = match h.stack {
        Some(base) => Some((base, h.stack_size)),
        None => None,
    };
    match h.space {
        Some(space) => {
            space.release(mem, frames);
        },
        None => {
            proof {
                let none = Set::<int>::empty();
                assert(old(frames).free().union(none) =~= old(frames).free());
            }
        },
    }
    r
}

/// The tables of one more task.
proof fn lemma_tables_step(m: Map<int, u64>, hs: Seq<Holdings>, i: int)
    requires
        0 <= i < hs.len(),
    ensures
        tables_of_all(m, hs.subrange(0, i + 1)) == tables_of_all(m, hs.subrange(0, i)).union(
            tables_of(m, hs[i]),
        ),
{
    let a = hs.subrange(0, i);
    let b = hs.subrange(0, i + 1);
    assert forall|t: int| #[trigger] tables_of_all(m, b).contains(t) == tables_of_all(m, a).union(
        tables_of(m, hs[i]),
    ).contains(t) by {
        if tables_of_all(m, b).contains(t) {
            let k = choose|k: int| 0 <= k < b.len() && #[trigger] tables_of(m, b[k]).contains(t);
            if k < i {
                assert(tables_of(m, a[k]).contains(t));
            }
        }
        if tables_of_all(m, a).contains(t) {
            let k = choose|k: int| 0 <= k < a.len() && #[trigger] tables_of(m, a[k]).contains(t);
            assert(tables_of(m, b[k]).contains(t));
        }
        if tables_of(m, hs[i]).contains(t) {
            assert(tables_of(m, b[i]).contains(t));
        }
    }
    assert(tables_of_all(m, b) =~= tables_of_all(m, a).union(tables_of(m, hs[i])));
}

/// The next space is still sound, with the tables that it had.
proof fn lemma_next_sound(
    m: Map<int, u64>,
    free: Set<int>,
    hs: Seq<Holdings>,
    i: int,
    m2: Map<int, u64>,
    free2: Set<int>,
    recycles: bool,
)
    requires
        reclaimable(m, free, hs),
        0 <= i < hs.len(),
        phys::same_outside(m, m2, tables_of_all(m, hs.subrange(0, i))),
        free2 == prune::released(free, tables_of_all(m, hs.subrange(0, i)), recycles),
    ensures
        hs[i].space matches Some(s) ==> s.wf(m2, free2),
        tables_of(m2, hs[i]) == tables_of(m, hs[i]),
{
    let gone = tables_of_all(m, hs.subrange(0, i));
    if hs[i].space is Some {
        let s = hs[i].space->0;
        s.lemma_wf(m, free);
        let ts = sv39::tables(m, s.root());
        assert forall|t: int| ts.contains(t) implies !gone.contains(t) && !free.contains(t) by {
            assert(sv39::is_owned(m, s.root(), Set::empty(), t));
            if gone.contains(t) {
                let a = hs.subrange(0, i);
                let k = choose|k: int| 0 <= k < a.len() && #[trigger] tables_of(m, a[k]).contains(t);
                assert(a[k] == hs[k]);
                assert(tables_of(m, hs[k]).disjoint(ts));
            }
        }
        assert(ts.disjoint(gone));
        assert(ts.disjoint(free2));
        s.lemma_unaffected(m, free, m2, free2, gone);
    }
}

/// Gives back what several tasks owned, in order.
pub fn reclaim_all<A: PageFrameAllocator>(
    hs: std::collections::VecDeque<Holdings>,
    mem: &mut PhysMem,
    frames: &mut A,
) -> (r: Vec<(u64, u64)>)
    requires
        old(mem).wf(),
        old(frames).ready(old(mem)@.dom()),
        reclaimable(old(mem)@, old(frames).free(), hs@),
    ensures
        r@ == stacks_of(hs@),
        final(mem).wf(),
        final(mem).start() == old(mem).start(),
        final(mem).end() == old(mem).end(),
        final(mem)@.dom() == old(mem)@.dom(),
        final(frames).ready(final(mem)@.dom()),
        final(frames).recycles() == old(frames).recycles(),
        final(frames).free() == prune::released(
            old(frames).free(),
            tables_of_all(old(mem)@, hs@),
            old(frames).recycles(),
        ),
        phys::same_outside(old(mem)@, final(mem)@, tables_of_all(old(mem)@, hs@)),
{
    let ghost all = hs@;
    let ghost m = mem@;
    let ghost free = frames.free();
    let n: usize = hs.len();
    let mut queue = hs;
    let mut r: Vec<(u64, u64)> = Vec::new();
    let mut i: usize = 0;
    proof {
        let none = tables_of_all(m, all.subrange(0, 0));
        assert(none =~= Set::<int>::empty());
        assert(free.union(none) =~= free);
        assert(all.subrange(0, n as int) =~= all);
    }
    while i < n
        invariant
            i <= n,
            n == all.len(),
            queue@ == all.subrange(i as int, n as int),
            m == old(mem)@,
            free == old(frames).free(),
            reclaimable(m, free, all),
            r@ == stacks_of(all.subrange(0, i as int)),
            mem.wf(),
            mem.start() == old(mem).start(),
            mem.end() == old(mem).end(),
            mem@.dom() == m.dom(),
            frames.ready(mem@.dom()),
            frames.recycles() == old(frames).recycles(),
            frames.free() == prune::released(
                free,
                tables_of_all(m, all.subrange(0, i as int)),
                frames.recycles(),
            ),
            phys::same_outside(m, mem@, tables_of_all(m, all.subrange(0, i as int))),
        decreases n - i,
    {
        let ghost m1 = mem@;
        let ghost free1 = frames.free();
        let ghost gone = tables_of_all(m, all.subrange(0, i as int));
        match queue.pop_front() {
            Some(h) => {
                proof {
                    assert(h == all[i as int]);
                    lemma_next_sound(m, free, all, i as int, m1, free1, frames.recycles());
                    lemma_tables_step(m, all, i as int);
                }
                let stack: Option<(u64, u64)> = reclaim(h, mem, frames);
                proof {
                    let next = tables_of_all(m, all.subrange(0, i + 1));
                    assert(free.union(gone).union(tables_of(m, all[i as int])) =~= free.union(next));
                    assert forall|f: int, k: int|
                        #![trigger mem@[f + 8 * k]]
                        f % 4096 == 0 && 0 <= k < 512 && !next.contains(f) implies mem@[f + 8 * k]
                        == m[f + 8 * k] by {
                        assert(m1[f + 8 * k] == m[f + 8 * k]);
                    }
                    let b = all.subrange(0, i + 1);
                    assert(b.drop_last() =~= all.subrange(0, i as int));
                    assert(b.last() == h);
                    assert(queue@ =~= all.subrange(i + 1, n as int));
                }
                match stack {
                    Some(block) => r.push(block),
                    None => {},
                }
            },
            None => {
                assert(false);
            },
        }
        i += 1;
    }
    proof {
        assert(all.subrange(0, n as int) =~= all);
    }
    r
}

/// Reclaiming tasks does not touch the address space of any other task: a space that shares no
/// table with what was given back stays sound and keeps its pages.
pub proof fn law_reclaim_spares_others(
    m: Map<int, u64>,
    free: Set<int>,
    hs: Seq<Holdings>,
    m2: Map<int, u64>,
    free2: Set<int>,
    recycles: bool,
    other: AddressSpace,
)
    requires
        phys::same_outside(m, m2, tables_of_all(m, hs)),
        free2 == prune::released(free, tables_of_all(m, hs), recycles),
        other.wf(m, free),
        sv39::tables(m, other.root()).disjoint(tables_of_all(m, hs)),
    ensures
        other.wf(m2, free2),
        moved::same_pages(m, m2, other.root()),
{
    other.lemma_wf(m, free);
    let ts = sv39::tables(m, other.root());
    assert forall|t: int| ts.contains(t) implies !free2.contains(t) by {
        assert(sv39::is_owned(m, other.root(), Set::empty(), t));
    }
    other.lemma_unaffected(m, free, m2, free2, tables_of_all(m, hs));
}

/// The four frames at `stack` can serve as the stack of a task in the tree at `root`: they are
/// memory, none of them is free, and none holds a table.
pub open spec fn stack_block(m: Map<int, u64>, free: Set<int>, root: int, stack: u64) -> bool {
    forall|k: int|
        0 <= k < 4 ==> phys::has_frame(m, #[trigger] stack_frame(stack, k)) && !free.contains(
            stack_frame(stack, k),
        ) && !sv39::tables(m, root).contains(stack_frame(stack, k))
}

/// Frame `k` of a stack.
pub open spec fn stack_frame(stack: u64, k: int) -> int {
    stack + 4096 * k
}

/// A task can start at `entry` on the stack at `stack` in the space with the tree at `root`: the
/// four pages of the window map to the stack, the page below is as it was, and the frame at the
/// top of the stack holds the first registers.
pub open spec fn started(
    m: Map<int, u64>,
    m2: Map<int, u64>,
    free2: Set<int>,
    root: int,
    stack: u64,
    entry: u64,
) -> bool {
    &&& moved::map_outcome(
        m,
        m2,
        free2,
        root,
        TASK_STACK_BASE,
        stack,
        TASK_STACK_SIZE,
        TASK_STACK_FLAGS,
        Ok(()),
    )
    &&& forall|i: int|
        0 <= i < 33 ==> #[trigger] m2[stack + 16120 + 8 * i] == context::fresh_words(
            (TASK_STACK_BASE + TASK_STACK_SIZE) as u64,
            entry,
            TASK_SSTATUS,
        )[i]
}

/// Maps the stack at `stack` into the window of the space and writes the first frame of a task that
/// starts at `entry`.
#[verifier::spinoff_prover]
#[verifier::rlimit(40)]
pub fn start<A: PageFrameAllocator>(
    space: &mut AddressSpace,
    stack: u64,
    entry: u64,
    mem: &mut PhysMem,
    frames: &mut A,
) -> (r: Result<(), MapError>)
    requires
        old(mem).wf(),
        old(frames).ready(old(mem)@.dom()),
        old(space).wf(old(mem)@, old(frames).free()),
        stack_block(old(mem)@, old(frames).free(), old(space).root(), stack),
    ensures
        final(mem).wf(),
        final(mem).start() == old(mem).start(),
        final(mem).end() == old(mem).end(),
        final(mem)@.dom() == old(mem)@.dom(),
        final(frames).ready(final(mem)@.dom()),
        final(frames).recycles() == old(frames).recycles(),
        final(frames).free().subset_of(old(frames).free()),
        final(space).wf(final(mem)@, final(frames).free()),
        final(space).root() == old(space).root(),
        final(space).regions() == old(space).regions(),
        phys::same_outside(
            old(mem)@,
            final(mem)@,
            sv39::owned(old(mem)@, old(space).root(), old(space).shared()).union(
                old(frames).free().difference(final(frames).free()),
            ).insert(stack_frame(stack, 3)),
        ),
        match r {
            Ok(_) => started(
                old(mem)@,
                final(mem)@,
                final(frames).free(),
                old(space).root(),
                stack,
                entry,
            ),
            Err(e) => moved::map_outcome(
                old(mem)@,
                final(mem)@,
                final(frames).free(),
                old(space).root(),
                TASK_STACK_BASE,
                stack,
                TASK_STACK_SIZE,
                TASK_STACK_FLAGS,
                Err(e),
            ),
        },
{
    let ghost m = mem@;
    let ghost free = frames.free();
    let ghost root = space.root();
    let ghost shared = space.shared();
    proof {
        space.lemma_wf(m, free);
        assert(phys::has_frame(m, stack_frame(stack, 0)));
        assert(phys::has_frame(m, stack_frame(stack, 3)));
    }
    let r: Result<(), MapError> = space.map(
        mem,
        VirtAddr::from_raw(TASK_STACK_BASE),
        PhysAddr::from_raw(stack),
        TASK_STACK_SIZE,
        PteFlags(TASK_STACK_FLAGS),
        frames,
    );
    let ghost m1 = mem@;
    let ghost free1 = frames.free();
    let ghost touched = sv39::owned(m, root, shared).union(free.difference(free1));
    proof {
        moved::lemma_moved_tables(m, free, m1, free1, root, shared, space.shared());
        moved::lemma_moved_less(m, free, m1, free1, root, shared, space.shared());
        assert(phys::same_outside(m, m1, touched)) by {
            reveal(moved::moved);
        }
        assert(phys::same_outside(m, m1, touched.insert(stack_frame(stack, 3))));
    }
    match r {
        Ok(_) => {
            let frame: TrapFrame = TrapFrame::fresh(
                TASK_STACK_BASE + TASK_STACK_SIZE,
                entry,
                TASK_SSTATUS,
            );
            let at: u64 = stack + TASK_STACK_SIZE - FRAME_SIZE;
            let ghost top = stack_frame(stack, 3);
            proof {
                assert forall|i: int| 0 <= i < 33 implies #[trigger] m1.contains_key(
                    at + 8 * i,
                ) by {
                    assert(m.dom().contains(top + 8 * (479 + i)));
                }
            }
            frame.store(mem, at);
            proof {
                let ws = context::frame_words(frame);
                context::lemma_with_words(m1, at as int, ws);
                let m2 = mem@;
                assert(phys::same_outside(m1, m2, set![top])) by {
                    assert forall|f: int, i: int|
                        #![trigger m2[f + 8 * i]]
                        f % 4096 == 0 && 0 <= i < 512 && !set![top].contains(f) implies m2[f + 8 * i]
                        == m1[f + 8 * i] by {}
                }
                assert(sv39::tables(m1, root).disjoint(set![top])) by {
                    assert(!free.contains(top));
                    assert(!sv39::tables(m, root).contains(top));
                }
                space.lemma_wf(m1, free1);
                assert(sv39::tables(m1, root).disjoint(free1)) by {
                    assert forall|t: int| sv39::tables(m1, root).contains(t) implies
                        !free1.contains(t) by {
                        assert(sv39::is_owned(m1, root, Set::empty(), t));
                    }
                }
                space.lemma_unaffected(m1, free1, m2, free1, set![top]);
                let all = touched.insert(top);
                assert forall|f: int, i: int|
                    #![trigger m2[f + 8 * i]]
                    f % 4096 == 0 && 0 <= i < 512 && !all.contains(f) implies m2[f + 8 * i] == m[f
                    + 8 * i] by {
                    assert(m2[f + 8 * i] == m1[f + 8 * i]);
                    assert(m1[f + 8 * i] == m[f + 8 * i]);
                }
                let v = addr::page_number(TASK_STACK_BASE);
                assert forall|w: int| sv39::is_page(w) implies #[trigger] sv39::page(m2, root, w)
                    == sv39::page(m1, root, w) by {}
                assert forall|i: int| 0 <= i < 33 implies #[trigger] m2[stack + 16120 + 8 * i]
                    == context::fresh_words(
                    (TASK_STACK_BASE + TASK_STACK_SIZE) as u64,
                    entry,
                    TASK_SSTATUS,
                )[i] by {
                    assert(m2[at + 8 * i] == ws[i]);
                }
            }
            Ok(())
        },
        Err(e) => Err(e),
    }
}

/// A task that can start finds its stack mapped, the page below it as before, and its stack
/// pointer at the top of the stack.
pub proof fn law_started(
    m: Map<int, u64>,
    m2: Map<int, u64>,
    free2: Set<int>,
    root: int,
    stack: u64,
    entry: u64,
    k: int,
)
    requires
        started(m, m2, free2, root, stack, entry),
        stack + TASK_STACK_SIZE <= phys::PHYS_LIMIT,
        0 <= k < 4,
    ensures
        table::translation(m2, root, 0xC_0000 + k) == Some((stack + 4096 * k, 199int)),
        table::translation(m2, root, 0xB_FFFF) == table::translation(m, root, 0xB_FFFF),
        m2[stack + 16120 + context::FRAME_OFF_SP] == TASK_STACK_BASE + TASK_STACK_SIZE,
        m2[stack + 16120 + context::FRAME_OFF_SEPC] == entry,
        m2[stack + 16120 + context::FRAME_OFF_SSTATUS] == context::SSTATUS_SPIE
            + context::SSTATUS_SPP,
{
    crate::memory::laws::law_map_translates(
        m,
        m2,
        free2,
        root,
        TASK_STACK_BASE,
        stack,
        TASK_STACK_SIZE,
        TASK_STACK_FLAGS,
        0xC_0000 + k,
    );
    crate::memory::laws::law_map_translates(
        m,
        m2,
        free2,
        root,
        TASK_STACK_BASE,
        stack,
        TASK_STACK_SIZE,
        TASK_STACK_FLAGS,
        0xB_FFFF,
    );
    assert(m2[stack + 16120 + 8 * 1] == TASK_STACK_BASE + TASK_STACK_SIZE);
    assert(m2[stack + 16120 + 8 * 31] == entry);
    assert(m2[stack + 16120 + 8 * 32] == TASK_SSTATUS);
}

/// The first frame of a task: it starts at the entry, on an empty stack, in supervisor mode with
/// interrupts enabled, and every other register is zero. Outside the stack window the space maps what
/// it mapped before.
pub proof fn law_first_frame(
    m: Map<int, u64>,
    m2: Map<int, u64>,
    free2: Set<int>,
    root: int,
    stack: u64,
    entry: u64,
    k: int,
    w: int,
)
    requires
        started(m, m2, free2, root, stack, entry),
        stack + 16384 <= phys::PHYS_LIMIT,
        0 <= k < 33,
        sv39::is_page(w),
        w < 0xC_0000 || w >= 0xC_0004,
    ensures
        m2[stack + 16384 - 264 + 8 * k] == (if k == 1 {
            0xC000_4000
        } else if k == 31 {
            entry
        } else if k == 32 {
            288
        } else {
            0
        }),
        table::translation(m2, root, w) == table::translation(m, root, w),
{
    crate::memory::laws::law_map_translates(
        m,
        m2,
        free2,
        root,
        TASK_STACK_BASE,
        stack,
        TASK_STACK_SIZE,
        TASK_STACK_FLAGS,
        w,
    );
    assert(m2[stack + 16120 + 8 * k] == context::fresh_words(
        (TASK_STACK_BASE + TASK_STACK_SIZE) as u64,
        entry,
        TASK_SSTATUS,
    )[k]);
}

/// The frames at `stack` can serve as the stack of a kernel task.
pub open spec fn spare_stack(
    m: Map<int, u64>,
    free: Set<int>,
    kernel: Option<&AddressSpace>,
    stack: u64,
) -> bool {
    match kernel {
        Some(k) => stack_block(m, free, k.root(), stack),
        None => forall|i: int|
            0 <= i < 4 ==> phys::has_frame(m, #[trigger] stack_frame(stack, i)) && !free.contains(
                stack_frame(stack, i),
            ),
    }
}

/// A kernel task can start in `space`, which has the pages of the kernel and the stack.
pub open spec fn started_in_clone(
    m: Map<int, u64>,
    free: Set<int>,
    kernel: Option<&AddressSpace>,
    m2: Map<int, u64>,
    free2: Set<int>,
    space: AddressSpace,
    stack: u64,
    entry: u64,
) -> bool {
    &&& space.wf(m2, free2)
    &&& space.regions() == Seq::<region::Region>::empty()
    &&& free.contains(space.root())
    &&& exists|m1: Map<int, u64>| #[trigger]
        cloned_from(m, kernel, m1, space.root()) && started(
            m1,
            m2,
            free2,
            space.root(),
            stack,
            entry,
        )
}

/// Why a kernel task could not be started.
pub open spec fn clone_refused(
    m: Map<int, u64>,
    kernel: Option<&AddressSpace>,
    free2: Set<int>,
    e: MapError,
) -> bool {
    match e {
        MapError::OutOfMemory => free2 == Set::<int>::empty(),
        MapError::AlreadyMapped => kernel matches Some(k) && !window_clear(m, k.root()),
        _ => false,
    }
}

/// No page of the stack window is mapped.
pub open spec fn window_clear(m: Map<int, u64>, root: int) -> bool {
    forall|k: int|
        0 <= k < 4 ==> !pte::pte_valid(#[trigger] sv39::page(m, root, 0xC_0000 + k))
}

/// The tree at `root` has the pages of the kernel, or no pages if there is no kernel space.
pub open spec fn cloned_from(
    m: Map<int, u64>,
    kernel: Option<&AddressSpace>,
    m1: Map<int, u64>,
    root: int,
) -> bool {
    forall|v: int|
        sv39::is_page(v) ==> #[trigger] sv39::page(m1, root, v) == (match kernel {
            Some(k) => sv39::page(m, k.root(), v),
            None => 0,
        })
}

/// The frames written by cloning and by starting were free, or are the top of the stack.
proof fn lemma_spread(
    m: Map<int, u64>,
    m1: Map<int, u64>,
    m2: Map<int, u64>,
    free: Set<int>,
    free1: Set<int>,
    free2: Set<int>,
    root: int,
    stack: u64,
)
    requires
        phys::same_outside(m, m1, set![root]),
        free.contains(root),
        free1 == free.remove(root),
        free2.subset_of(free1),
        phys::same_outside(
            m1,
            m2,
            set![root].union(free1.difference(free2)).insert(stack_frame(stack, 3)),
        ),
    ensures
        phys::same_outside(
            m,
            m2,
            free.difference(free2).insert(stack_frame(stack, 3)),
        ),
{
    let all = free.difference(free2).insert(stack_frame(stack, 3));
    let part = set![root].union(free1.difference(free2)).insert(stack_frame(stack, 3));
    assert forall|f: int, i: int|
        #![trigger m2[f + 8 * i]]
        f % 4096 == 0 && 0 <= i < 512 && !all.contains(f) implies m2[f + 8 * i] == m[f + 8 * i] by {
        assert(!part.contains(f));
        assert(m2[f + 8 * i] == m1[f + 8 * i]);
        assert(m1[f + 8 * i] == m[f + 8 * i]);
    }
}

/// A window page that is mapped in the clone is mapped in the kernel.
proof fn lemma_window(
    m: Map<int, u64>,
    m1: Map<int, u64>,
    m2: Map<int, u64>,
    free2: Set<int>,
    kernel: Option<&AddressSpace>,
    root: int,
    stack: u64,
)
    requires
        cloned_from(m, kernel, m1, root),
        moved::map_outcome(
            m1,
            m2,
            free2,
            root,
            TASK_STACK_BASE,
            stack,
            TASK_STACK_SIZE,
            TASK_STACK_FLAGS,
            Err(MapError::AlreadyMapped),
        ),
    ensures
        kernel matches Some(k) && !window_clear(m, k.root()),
{
    let v = addr::page_number(TASK_STACK_BASE);
    let k = choose|k: int|
        0 <= k < 4 && #[trigger] table::map_stopped(
            m1,
            m2,
            root,
            v,
            k,
            stack as int / 4096,
            crate::memory::entry::with_valid(TASK_STACK_FLAGS),
        ) && (k == 0x800_0000 || pte::pte_valid(
            sv39::page(m1, root, table::page_after(v, k)),
        ));
    assert(table::page_after(v, k) == 0xC_0000 + k);
}

/// Creates a space for a kernel task, cloned from the kernel's, and starts the task at `entry` in it
/// on the stack at `stack`.
///
/// It is refused if the kernel maps a page of the stack window or the frames run out.
#[verifier::spinoff_prover]
#[verifier::rlimit(40)]
pub fn start_in_clone<A: PageFrameAllocator>(
    entry: u64,
    kernel: Option<&AddressSpace>,
    stack: u64,
    mem: &mut PhysMem,
    frames: &mut A,
) -> (r: Result<AddressSpace, MapError>)
    requires
        old(mem).wf(),
        old(frames).ready(old(mem)@.dom()),
        kernel matches Some(k) ==> k.wf(old(mem)@, old(frames).free()),
        spare_stack(old(mem)@, old(frames).free(), kernel, stack),
    ensures
        final(mem).wf(),
        final(mem).start() == old(mem).start(),
        final(mem).end() == old(mem).end(),
        final(mem)@.dom() == old(mem)@.dom(),
        final(frames).ready(final(mem)@.dom()),
        final(frames).recycles() == old(frames).recycles(),
        final(frames).free().subset_of(old(frames).free()),
        phys::same_outside(
            old(mem)@,
            final(mem)@,
            old(frames).free().difference(final(frames).free()).insert(stack_frame(stack, 3)),
        ),
        match r {
            Ok(space) => started_in_clone(
                old(mem)@,
                old(frames).free(),
                kernel,
                final(mem)@,
                final(frames).free(),
                space,
                stack,
                entry,
            ),
            Err(e) => clone_refused(old(mem)@, kernel, final(frames).free(), e),
        },
{
    let ghost m = mem@;
    let ghost free = frames.free();
    assert(phys::has_frame(m, stack_frame(stack, 0)));
    match AddressSpace::from_kernel(mem, kernel, frames) {
        Ok(space) => {
            let mut space = space;
            let ghost m1 = mem@;
            let ghost free1 = frames.free();
            let ghost root = space.root();
            proof {
                assert(cloned_from(m, kernel, m1, root));
                assert(stack_block(m1, free1, root, stack)) by {
                    assert forall|k: int| 0 <= k < 4 implies phys::has_frame(
                        m1,
                        #[trigger] stack_frame(stack, k),
                    ) && !free1.contains(stack_frame(stack, k)) && !sv39::tables(
                        m1,
                        root,
                    ).contains(stack_frame(stack, k)) by {
                        let f = stack_frame(stack, k);
                        assert(phys::has_frame(m, f));
                        if kernel is None && sv39::tables(m1, root).contains(f) {
                            assert(space.shared() == Set::<int>::empty());
                            assert(sv39::owned(m1, root, space.shared()).contains(f));
                        }
                    }
                }
            }
            match start(&mut space, stack, entry, mem, frames) {
                Ok(_) => {
                    proof {
                        lemma_spread(m, m1, mem@, free, free1, frames.free(), root, stack);
                    }
                    Ok(space)
                },
                Err(e) => {
                    proof {
                        lemma_spread(m, m1, mem@, free, free1, frames.free(), root, stack);
                        if e == MapError::AlreadyMapped {
                            lemma_window(m, m1, mem@, frames.free(), kernel, root, stack);
                        }
                    }
                    Err(e)
                },
            }
        },
        Err(e) => {
            proof {
                assert(phys::same_outside(
                    m,
                    mem@,
                    free.difference(frames.free()).insert(stack_frame(stack, 3)),
                ));
            }
            Err(e)
        },
    }
}

/// A kernel task is never started over a page that the kernel maps in the stack window.
pub proof fn law_window_free(
    m: Map<int, u64>,
    free: Set<int>,
    k: AddressSpace,
    m2: Map<int, u64>,
    free2: Set<int>,
    space: AddressSpace,
    stack: u64,
    entry: u64,
)
    requires
        started_in_clone(m, free, Some(&k), m2, free2, space, stack, entry),
    ensures
        window_clear(m, k.root()),
{
    let m1 = choose|m1: Map<int, u64>| #[trigger]
        cloned_from(m, Some(&k), m1, space.root()) && started(
            m1,
            m2,
            free2,
            space.root(),
            stack,
            entry,
        );
    let v = addr::page_number(TASK_STACK_BASE);
    assert forall|i: int| 0 <= i < 4 implies !pte::pte_valid(
        #[trigger] sv39::page(m, k.root(), 0xC_0000 + i),
    ) by {
        assert(table::page_after(v, i) == 0xC_0000 + i);
        assert(!pte::pte_valid(sv39::page(m1, space.root(), table::page_after(v, i))));
    }
}

/// A kernel task runs in a space of its own, whose root was a free frame: its stack is in the window,
/// and everywhere else it finds the pages of the kernel, or none if there is no kernel space.
pub proof fn law_kernel_task_space(
    m: Map<int, u64>,
    free: Set<int>,
    kernel: Option<&AddressSpace>,
    m2: Map<int, u64>,
    free2: Set<int>,
    space: AddressSpace,
    stack: u64,
    entry: u64,
    w: int,
)
    requires
        started_in_clone(m, free, kernel, m2, free2, space, stack, entry),
        stack + 16384 <= phys::PHYS_LIMIT,
        sv39::is_page(w),
    ensures
        free.contains(space.root()),
        0xC_0000 <= w < 0xC_0004 ==> table::translation(m2, space.root(), w) == Some(
            (stack + 4096 * (w - 0xC_0000), 199int),
        ),
        w < 0xC_0000 || w >= 0xC_0004 ==> table::translation(m2, space.root(), w) == (match kernel {
            Some(k) => table::translation(m, k.root(), w),
            None => None,
        }),
        m2[stack + 16384 - 264 + 248] == entry,
        m2[stack + 16384 - 264 + 8] == 0xC000_4000,
{
    let m1 = choose|m1: Map<int, u64>| #[trigger]
        cloned_from(m, kernel, m1, space.root()) && started(
            m1,
            m2,
            free2,
            space.root(),
            stack,
            entry,
        );
    assert(sv39::page(m1, space.root(), w) == (match kernel {
        Some(k) => sv39::page(m, k.root(), w),
        None => 0,
    }));
    if 0xC_0000 <= w < 0xC_0004 {
        law_started(m1, m2, free2, space.root(), stack, entry, w - 0xC_0000);
    } else {
        law_first_frame(m1, m2, free2, space.root(), stack, entry, 1, w);
    }
    assert(m2[stack + 16120 + 8 * 1] == 0xC000_4000);
    assert(m2[stack + 16120 + 8 * 31] == entry);
}

/// Why a kernel task is refused: the frames ran out, or the kernel maps a page of the window.
pub proof fn law_clone_refused(
    m: Map<int, u64>,
    kernel: Option<&AddressSpace>,
    free2: Set<int>,
    e: MapError,
)
    requires
        clone_refused(m, kernel, free2, e),
    ensures
        e == MapError::OutOfMemory || e == MapError::AlreadyMapped,
        e == MapError::OutOfMemory ==> free2 == Set::<int>::empty(),
        e == MapError::AlreadyMapped ==> kernel is Some && exists|v: int|
            0xC_0000 <= v < 0xC_0004 && pte::pte_valid(#[trigger] sv39::page(m, kernel->0.root(), v)),
{
    if e == MapError::AlreadyMapped {
        let k = choose|k: int|
            0 <= k < 4 && pte::pte_valid(#[trigger] sv39::page(m, kernel->0.root(), 0xC_0000 + k));
        assert(pte::pte_valid(sv39::page(m, kernel->0.root(), 0xC_0000 + k)));
    }
}

} // verus!
