//! Creating tasks.
use vstd::prelude::*;
use crate::memory::moved;
use crate::memory::phys;
use crate::memory::phys::PhysMem;
use crate::memory::space::AddressSpace;
use crate::memory::sv39;
use crate::memory::table::MapError;
use crate::mmu::frames::PageFrameAllocator;
use crate::scheduler::task;
use crate::scheduler::task::{Pending, Queues, Scheduler, Task, TaskState};
use crate::task::{start, start_in_clone, Holdings, TaskKind, TASK_FRAME, TASK_STACK_SIZE};

verus! {

/// A new task that owns `space` and the stack at `stack`.
pub open spec fn new_task(id: u64, kind: TaskKind, space: AddressSpace, stack: u64) -> Task {
    Task {
        id,
        state: TaskState::Ready,
        pending: Pending::Rerun,
        kind,
        frame: TASK_FRAME,
        held: Holdings {
            space: Some(space),
            stack: Some(stack),
            stack_size: TASK_STACK_SIZE,
        },
        wake_tick: 0,
        resume_sepc: 0,
    }
}

impl Scheduler {
    /// Appends a task that owns `space` and the stack at `stack` to the ready queue.
    fn enlist(&mut self, kind: TaskKind, space: AddressSpace, stack: u64) -> (id: u64)
        ensures
            id == old(self).next_id,
            final(self).next_id == (if old(self).next_id == u64::MAX {
                0
            } else {
                (old(self).next_id + 1) as u64
            }),
            final(self)@ == (Queues {
                ready: old(self)@.ready.push(new_task(id, kind, space, stack)),
                ..old(self)@
            }),
            task::placed(old(self)@) ==> task::placed(final(self)@),
    {
        let id: u64 = self.next_id;
        self.next_id = id.wrapping_add(1);
        self.ready.push_back(
            Task {
                id,
                state: TaskState::Ready,
                pending: Pending::Rerun,
                kind,
                frame: TASK_FRAME,
                held: Holdings {
                    space: Some(space),
                    stack: Some(stack),
                    stack_size: TASK_STACK_SIZE,
                },
                wake_tick: 0,
                resume_sepc: 0,
            },
        );
        id
    }

    /// Creates a user task that starts at `entry` in `space`, which it then owns, on the stack at
    /// `stack`.
    ///
    /// It is refused if a page of the stack window is mapped already or the frames run out.
    pub fn spawn_with<A: PageFrameAllocator>(
        &mut self,
        entry: u64,
        space: AddressSpace,
        stack: u64,
        mem: &mut PhysMem,
        frames: &mut A,
    ) -> (r: Result<u64, MapError>)
        requires
            old(mem).wf(),
            old(frames).ready(old(mem)@.dom()),
            space.wf(old(mem)@, old(frames).free()),
            crate::task::stack_block(old(mem)@, old(frames).free(), space.root(), stack),
        ensures
            final(mem).wf(),
            final(mem).start() == old(mem).start(),
            final(mem).end() == old(mem).end(),
            final(mem)@.dom() == old(mem)@.dom(),
            final(frames).ready(final(mem)@.dom()),
            final(frames).recycles() == old(frames).recycles(),
            final(frames).free().subset_of(old(frames).free()),
            task::placed(old(self)@) ==> task::placed(final(self)@),
            phys::same_outside(
                old(mem)@,
                final(mem)@,
                sv39::owned(old(mem)@, space.root(), space.shared()).union(
                    old(frames).free().difference(final(frames).free()),
                ).insert(crate::task::stack_frame(stack, 3)),
            ),
            match r {
                Ok(id) => {
                    &&& id == old(self).next_id
                    &&& final(self).next_id == (if id == u64::MAX {
                        0
                    } else {
                        (id + 1) as u64
                    })
                    &&& final(self)@.ready.len() == old(self)@.ready.len() + 1
                    &&& final(self)@.ready.last().held.space matches Some(sp) && {
                        &&& sp.root() == space.root()
                        &&& sp.regions() == space.regions()
                        &&& sp.wf(final(mem)@, final(frames).free())
                        &&& final(self)@ == (Queues {
                            ready: old(self)@.ready.push(new_task(id, TaskKind::UMode, sp, stack)),
                            ..old(self)@
                        })
                    }
                    &&& crate::task::started(
                        old(mem)@,
                        final(mem)@,
                        final(frames).free(),
                        space.root(),
                        stack,
                        entry,
                    )
                },
                Err(e) => {
                    &&& *final(self) == *old(self)
                    &&& e == MapError::OutOfMemory || e == MapError::AlreadyMapped
                    &&& moved::map_outcome(
                        old(mem)@,
                        final(mem)@,
                        final(frames).free(),
                        space.root(),
                        crate::task::TASK_STACK_BASE,
                        stack,
                        TASK_STACK_SIZE,
                        crate::task::TASK_STACK_FLAGS,
                        Err(e),
                    )
                },
            },
    {
        let mut space = space;
        assert(phys::has_frame(mem@, crate::task::stack_frame(stack, 0)));
        match start(&mut space, stack, entry, mem, frames) {
            Ok(_) => Ok(self.enlist(TaskKind::UMode, space, stack)),
            Err(e) => Err(e),
        }
    }

    /// Creates a kernel task that starts at `entry` in a space of its own, cloned from the kernel's,
    /// on the stack at `stack`.
    ///
    /// It is refused if the kernel maps a page of the stack window or the frames run out.
    pub fn spawn<A: PageFrameAllocator>(
        &mut self,
        entry: u64,
        kernel: Option<&AddressSpace>,
        stack: u64,
        mem: &mut PhysMem,
        frames: &mut A,
    ) -> (r: Result<u64, MapError>)
        requires
            old(mem).wf(),
            old(frames).ready(old(mem)@.dom()),
            kernel matches Some(k) ==> k.wf(old(mem)@, old(frames).free()),
            crate::task::spare_stack(old(mem)@, old(frames).free(), kernel, stack),
        ensures
            final(mem).wf(),
            final(mem).start() == old(mem).start(),
            final(mem).end() == old(mem).end(),
            final(mem)@.dom() == old(mem)@.dom(),
            final(frames).ready(final(mem)@.dom()),
            final(frames).recycles() == old(frames).recycles(),
            final(frames).free().subset_of(old(frames).free()),
            task::placed(old(self)@) ==> task::placed(final(self)@),
            phys::same_outside(
                old(mem)@,
                final(mem)@,
                old(frames).free().difference(final(frames).free()).insert(
                    crate::task::stack_frame(stack, 3),
                ),
            ),
            match r {
                Ok(id) => {
                    &&& id == old(self).next_id
                    &&& final(self).next_id == (if id == u64::MAX {
                        0
                    } else {
                        (id + 1) as u64
                    })
                    &&& final(self)@.ready.len() == old(self)@.ready.len() + 1
                    &&& final(self)@.ready.last().held.space matches Some(sp) && {
                        &&& final(self)@ == (Queues {
                            ready: old(self)@.ready.push(new_task(id, TaskKind::SMode, sp, stack)),
                            ..old(self)@
                        })
                        &&& crate::task::started_in_clone(
                            old(mem)@,
                            old(frames).free(),
                            kernel,
                            final(mem)@,
                            final(frames).free(),
                            sp,
                            stack,
                            entry,
                        )
                    }
                },
                Err(e) => *final(self) == *old(self) && crate::task::clone_refused(
                    old(mem)@,
                    kernel,
                    final(frames).free(),
                    e,
                ),
            },
    {
        match start_in_clone(entry, kernel, stack, mem, frames) {
            Ok(space) => Ok(self.enlist(TaskKind::SMode, space, stack)),
            Err(e) => Err(e),
        }
    }
}

} // verus!
