//! Frame allocation for page tables.
use vstd::prelude::*;
use crate::memory::addr::PhysAddr;
use crate::memory::phys;
use crate::memory::phys::PhysMem;

verus! {

/// A source of 4 KiB page frames.
pub trait PageFrameAllocator {
    /// The frames that can be handed out.
    spec fn free(&self) -> Set<int>;

    /// Whether a released frame can be handed out again.
    spec fn recycles(&self) -> bool;

    /// The allocator is consistent with a memory that has the word addresses `dom`.
    spec fn ready(&self, dom: Set<int>) -> bool;

    /// The free frames of a consistent allocator are finitely many frames of the memory.
    proof fn lemma_free(&self, m: Map<int, u64>)
        requires
            self.ready(m.dom()),
        ensures
            self.free().finite(),
            forall|f: int| #[trigger] self.free().contains(f) ==> phys::has_frame(m, f),
    ;

    /// Hands out a zeroed frame; `None` if and only if no frame is left.
    fn alloc_frame(&mut self, mem: &mut PhysMem) -> (r: Option<PhysAddr>)
        requires
            old(mem).wf(),
            old(self).ready(old(mem)@.dom()),
        ensures
            final(mem).wf(),
            final(mem).start() == old(mem).start(),
            final(mem).end() == old(mem).end(),
            final(mem)@.dom() == old(mem)@.dom(),
            final(self).ready(final(mem)@.dom()),
            final(self).recycles() == old(self).recycles(),
            match r {
                Some(pa) => {
                    &&& old(self).free().contains(pa.0 as int)
                    &&& final(self).free() == old(self).free().remove(pa.0 as int)
                    &&& phys::zeroed(final(mem)@, pa.0 as int)
                    &&& phys::same_outside(old(mem)@, final(mem)@, set![pa.0 as int])
                },
                None => {
                    &&& old(self).free() == Set::<int>::empty()
                    &&& final(self).free() == old(self).free()
                    &&& final(mem)@ == old(mem)@
                },
            },
    ;

    /// Takes back a frame that was handed out.
    fn free_frame(&mut self, mem: &PhysMem, addr: PhysAddr)
        requires
            mem.wf(),
            old(self).ready(mem@.dom()),
            phys::has_frame(mem@, addr.0 as int),
            !old(self).free().contains(addr.0 as int),
        ensures
            final(self).ready(mem@.dom()),
            final(self).recycles() == old(self).recycles(),
            final(self).free() == (if old(self).recycles() {
                old(self).free().insert(addr.0 as int)
            } else {
                old(self).free()
            }),
    ;
}

/// The frame `i` frames after the one at `first`.
pub open spec fn nth_frame(first: int, i: int) -> int {
    first + 4096 * i
}

/// Number of frames in the boot-time pool.
pub const POOL_CAP: u64 = 16;

/// The boot-time allocator: a fixed run of sixteen frames, handed out in order and never reused.
pub struct BootstrapPageAllocator {
    pool: u64,
    next: u64,
}

impl BootstrapPageAllocator {
    /// Address of the first frame of the pool.
    pub closed spec fn pool(&self) -> int {
        self.pool as int
    }

    /// Number of frames handed out.
    pub closed spec fn used(&self) -> int {
        self.next as int
    }

    /// An allocator over the sixteen frames at `pool`, none of them handed out.
    pub fn new(pool: u64, mem: &PhysMem) -> (r: BootstrapPageAllocator)
        requires
            mem.wf(),
            pool % 4096 == 0,
            mem.start() <= pool,
            pool + 16 * 4096 <= mem.end(),
        ensures
            r.pool() == pool,
            r.used() == 0,
            r.ready(mem@.dom()),
            !r.recycles(),
            r.free() == Set::new(
                |f: int| pool <= f < pool + 16 * 4096 && (f - pool) % 4096 == 0,
            ),
    {
        let r = BootstrapPageAllocator { pool, next: 0 };
        proof {
            assert(r.free() =~= Set::new(
                |f: int| pool <= f < pool + 16 * 4096 && (f - pool) % 4096 == 0,
            ));
            mem.lemma_domain();
            assert forall|i: int| 0 <= i < 16 implies phys::frame_in(
                mem@.dom(),
                #[trigger] nth_frame(pool as int, i),
            ) by {
                mem.lemma_frame(pool + 4096 * i);
            }
        }
        r
    }
}

impl PageFrameAllocator for BootstrapPageAllocator {
    closed spec fn free(&self) -> Set<int> {
        Set::new(
            |f: int|
                self.pool + 4096 * self.next <= f < self.pool + 4096 * 16 && (f - self.pool) % 4096
                    == 0,
        )
    }

    open spec fn recycles(&self) -> bool {
        false
    }

    closed spec fn ready(&self, dom: Set<int>) -> bool {
        &&& self.next <= 16
        &&& self.pool + 4096 * 16 <= phys::PHYS_LIMIT
        &&& forall|i: int| 0 <= i < 16 ==> phys::frame_in(dom, #[trigger] nth_frame(self.pool as int, i))
    }

    proof fn lemma_free(&self, m: Map<int, u64>) {
        let lo = self.pool as int;
        vstd::set_lib::lemma_int_range(lo, lo + 4096 * 16);
        assert(self.free().subset_of(vstd::set_lib::set_int_range(lo, lo + 4096 * 16)));
        assert forall|f: int| #[trigger] self.free().contains(f) implies phys::has_frame(m, f) by {
            let i = (f - lo) / 4096;
            assert(f == self.pool + 4096 * i);
            assert(phys::frame_in(m.dom(), nth_frame(self.pool as int, i)));
        }
    }

    /// Hands out the frames of the pool from the first one on.
    fn alloc_frame(&mut self, mem: &mut PhysMem) -> (r: Option<PhysAddr>)
        ensures
            final(self).pool() == old(self).pool(),
            r matches Some(pa) ==> pa.0 == old(self).pool() + 4096 * old(self).used()
                && final(self).used() == old(self).used() + 1,
            r is None ==> old(self).used() >= 16 && final(self).used() == old(self).used(),
    {
        if self.next >= POOL_CAP {
            assert(self.free() =~= Set::<int>::empty());
            return None;
        }
        let i: u64 = self.next;
        assert(phys::frame_in(mem@.dom(), nth_frame(self.pool as int, i as int)));
        let frame: u64 = self.pool + 4096 * i;
        self.next = i + 1;
        mem.zero_frame(frame);
        assert(self.free() =~= old(self).free().remove(frame as int));
        Some(PhysAddr::from_raw(frame))
    }

    /// Frames of the pool are not handed out again.
    fn free_frame(&mut self, mem: &PhysMem, addr: PhysAddr)
        ensures
            *final(self) == *old(self),
    {
    }
}

/// The page allocator: a stack of free frames.
pub struct FramePool {
    stack: Vec<u64>,
}

impl FramePool {
    /// The free frames, the next one to be handed out last.
    pub closed spec fn frames(&self) -> Seq<u64> {
        self.stack@
    }

    /// A pool without frames.
    pub fn new(mem: &PhysMem) -> (r: FramePool)
        ensures
            r.ready(mem@.dom()),
            r.recycles(),
            r.free() == Set::<int>::empty(),
            r.frames() == Seq::<u64>::empty(),
    {
        let r = FramePool { stack: Vec::new() };
        assert(r.free() =~= Set::<int>::empty());
        r
    }
}

impl PageFrameAllocator for FramePool {
    closed spec fn free(&self) -> Set<int> {
        self.stack@.map_values(|f: u64| f as int).to_set()
    }

    open spec fn recycles(&self) -> bool {
        true
    }

    closed spec fn ready(&self, dom: Set<int>) -> bool {
        &&& self.stack@.no_duplicates()
        &&& forall|i: int|
            0 <= i < self.stack@.len() ==> phys::frame_in(dom, #[trigger] self.stack@[i] as int)
    }

    proof fn lemma_free(&self, m: Map<int, u64>) {
        let s = self.stack@.map_values(|f: u64| f as int);
        vstd::seq_lib::seq_to_set_is_finite(s);
        assert forall|f: int| #[trigger] self.free().contains(f) implies phys::has_frame(m, f) by {
            let i = choose|i: int| 0 <= i < s.len() && s[i] == f;
            assert(phys::frame_in(m.dom(), self.stack@[i] as int));
        }
    }

    /// Hands out the frame that was given back last.
    fn alloc_frame(&mut self, mem: &mut PhysMem) -> (r: Option<PhysAddr>)
        ensures
            match r {
                Some(pa) => old(self).frames().len() > 0 && pa.0 == old(self).frames().last()
                    && final(self).frames() == old(self).frames().drop_last(),
                None => old(self).frames().len() == 0 && final(self).frames() == old(
                    self,
                ).frames(),
            },
    {
        let ghost before = self.stack@;
        let ghost s = before.map_values(|f: u64| f as int);
        match self.stack.pop() {
            None => {
                assert(self.free() =~= Set::<int>::empty());
                None
            },
            Some(frame) => {
                assert(frame == before[before.len() - 1]);
                assert(phys::frame_in(mem@.dom(), before[before.len() - 1] as int));
                mem.zero_frame(frame);
                proof {
                    let s2 = self.stack@.map_values(|f: u64| f as int);
                    assert(s[before.len() - 1] == frame as int);
                    assert forall|f: int|
                        s2.to_set().contains(f) == s.to_set().remove(frame as int).contains(f) by {
                        if s2.contains(f) {
                            let i = choose|i: int| 0 <= i < s2.len() && s2[i] == f;
                            assert(s[i] == f);
                            assert(before[i] != before[before.len() - 1]);
                        }
                        if s.contains(f) && f != frame as int {
                            let i = choose|i: int| 0 <= i < s.len() && s[i] == f;
                            assert(s2[i] == f);
                        }
                    }
                    assert(self.free() =~= old(self).free().remove(frame as int));
                    assert forall|i: int| 0 <= i < self.stack@.len() implies phys::frame_in(
                        mem@.dom(),
                        #[trigger] self.stack@[i] as int,
                    ) by {
                        assert(phys::frame_in(mem@.dom(), before[i] as int));
                    }
                }
                Some(PhysAddr::from_raw(frame))
            },
        }
    }

    /// The frame is the next one to be handed out.
    fn free_frame(&mut self, mem: &PhysMem, addr: PhysAddr)
        ensures
            final(self).frames() == old(self).frames().push(addr.0),
    {
        let ghost before = self.stack@;
        let ghost s = before.map_values(|f: u64| f as int);
        self.stack.push(addr.as_usize());
        proof {
            let s2 = self.stack@.map_values(|f: u64| f as int);
            let n = before.len() as int;
            assert(s2[n] == addr.0 as int);
            assert forall|f: int|
                s2.to_set().contains(f) == s.to_set().insert(addr.0 as int).contains(f) by {
                if s2.contains(f) {
                    let i = choose|i: int| 0 <= i < s2.len() && s2[i] == f;
                    if i < n {
                        assert(s[i] == f);
                    }
                }
                if s.contains(f) {
                    let i = choose|i: int| 0 <= i < s.len() && s[i] == f;
                    assert(s2[i] == f);
                }
            }
            assert(self.free() =~= old(self).free().insert(addr.0 as int));
            assert forall|i: int, j: int|
                0 <= i < self.stack@.len() && 0 <= j < self.stack@.len() && i
                    != j implies self.stack@[i] != self.stack@[j] by {
                if i == n || j == n {
                    let k = if i == n {
                        j
                    } else {
                        i
                    };
                    assert(s[k] == before[k] as int);
                    assert(s.to_set().contains(s[k]));
                }
            }
        }
    }
}

} // verus!
