//! Sv39 page tables: allocation, walking, mapping and unmapping.
use vstd::prelude::*;
use crate::memory::addr;
use crate::memory::addr::{PhysAddr, VirtAddr};
use crate::memory::entry;
use crate::memory::entry::PteFlags;
use crate::memory::phys;
use crate::memory::phys::{PhysMem, PAGE_SIZE};
use crate::memory::graft;
use crate::memory::prune;
use crate::memory::sv39;
use crate::memory::walk;
use crate::memory::ways;
use crate::memory::walk::Installed;
use crate::mmu::frames::PageFrameAllocator;
use crate::mmu::pte;
use crate::mmu::pte::PageTableEntry;

verus! {

/// Errors of page-table operations.
#[derive(Clone, Copy, PartialEq, Eq, Structural, Debug)]
pub enum MapError {
    /// No page frame is left.
    OutOfMemory,
    /// The virtual address is mapped already.
    AlreadyMapped,
    /// An address or a size is not page aligned.
    NotAligned,
    /// The page-table entry or a table on the way to it does not exist.
    NotMapped,
    /// The virtual address lies in no registered region.
    NoRegion,
}

/// A page table: the frame of 512 entries at `frame`.
#[derive(Clone, Copy, PartialEq, Eq, Structural)]
pub struct PageTable {
    pub frame: u64,
}

/// What a valid leaf entry for page `v` says: the physical address of the page and its flags.
pub open spec fn translation(m: Map<int, u64>, root: int, v: int) -> Option<(int, int)> {
    let e = sv39::page(m, root, v);
    if pte::pte_valid(e) && pte::pte_leaf(e) {
        Some((pte::pte_paddr(e), pte::pte_flags(e)))
    } else {
        None
    }
}

/// The page `i` pages after page `v`, modulo the 27 bits of a page number.
pub open spec fn page_after(v: int, i: int) -> int {
    (v + i) % 0x800_0000
}

/// How many pages after page `v` page `w` comes, modulo the 27 bits of a page number.
pub open spec fn pages_between(v: int, w: int) -> int {
    (w - v) % 0x800_0000
}

/// Page `i` after `v` is `i` pages after `v`.
pub proof fn lemma_page_after(v: int, i: int)
    requires
        sv39::is_page(v),
        0 <= i,
    ensures
        sv39::is_page(page_after(v, i)),
        i < 0x800_0000 ==> pages_between(v, page_after(v, i)) == i,
{
}

/// The entries of the `k` pages from page `v` on are `bits_of(0)`, `bits_of(1)`, ..., every other
/// page has the entry that it had in `m`.
pub open spec fn pages_set(
    m: Map<int, u64>,
    m2: Map<int, u64>,
    root: int,
    v: int,
    k: int,
    ppn: int,
    flags: u64,
) -> bool {
    forall|w: int|
        sv39::is_page(w) ==> #[trigger] sv39::page(m2, root, w) == (if pages_between(v, w) < k {
            pte::pte_bits((ppn + pages_between(v, w)) as u64, flags)
        } else {
            sv39::page(m, root, w)
        })
}

/// None of the `k` pages from page `v` on lies under a root entry of `shared`.
pub open spec fn clear_of(shared: Set<int>, v: int, k: int) -> bool {
    forall|i: int| 0 <= i < k ==> !shared.contains(#[trigger] sv39::i2(page_after(v, i)))
}

/// Only tables on the way to the `k` pages from page `v` on were written or created.
pub open spec fn kept_around(
    m: Map<int, u64>,
    free: Set<int>,
    m2: Map<int, u64>,
    free2: Set<int>,
    root: int,
    v: int,
    k: int,
) -> bool {
    forall|shared: Set<int>|
        clear_of(shared, v, k) ==> #[trigger] walk::kept(m, free, m2, free2, root, shared)
}

/// No table went away.
pub open spec fn paths_stay(m: Map<int, u64>, m2: Map<int, u64>, root: int) -> bool {
    forall|w: int|
        sv39::is_page(w) && #[trigger] sv39::path(m, root, w) ==> sv39::path(m2, root, w)
}

/// The state of mapping the `k` pages from page `v` on, which all had no valid entry.
#[verifier::opaque]
pub open spec fn map_state(
    m: Map<int, u64>,
    free: Set<int>,
    m2: Map<int, u64>,
    free2: Set<int>,
    root: int,
    v: int,
    k: int,
    ppn: int,
    flags: u64,
) -> bool {
    &&& map_stopped(m, m2, root, v, k, ppn, flags)
    &&& kept_around(m, free, m2, free2, root, v, k)
    &&& paths_stay(m, m2, root)
    &&& free2.subset_of(free)
}

/// Mapping starts with no page mapped.
pub proof fn lemma_map_start(
    m: Map<int, u64>,
    free: Set<int>,
    root: int,
    v: int,
    ppn: int,
    flags: u64,
)
    ensures
        map_state(m, free, m, free, root, v, 0, ppn, flags),
{
    reveal(map_state);
    assert forall|shared: Set<int>| true implies #[trigger] walk::kept(
        m,
        free,
        m,
        free,
        root,
        shared,
    ) by {
        walk::lemma_kept_refl(m, free, root, shared);
    }
}

/// Mapping one more page, or failing to.
pub proof fn lemma_map_step(
    m: Map<int, u64>,
    free: Set<int>,
    m1: Map<int, u64>,
    free1: Set<int>,
    m2: Map<int, u64>,
    free2: Set<int>,
    root: int,
    v: int,
    k: int,
    ppn: int,
    flags: u64,
    done: bool,
)
    requires
        sv39::is_page(v),
        0 <= k <= 0x800_0000,
        flags % 2 == 1,
        map_state(m, free, m1, free1, root, v, k, ppn, flags),
        free2.subset_of(free1),
        done ==> !pte::pte_valid(sv39::page(m1, root, page_after(v, k))),
        forall|shared: Set<int>|
            !shared.contains(sv39::i2(page_after(v, k))) ==> #[trigger] walk::kept(
                m1,
                free1,
                m2,
                free2,
                root,
                shared,
            ),
        forall|w: int|
            #![trigger sv39::page(m2, root, w)]
            #![trigger sv39::path(m2, root, w)]
            sv39::is_page(w) ==> sv39::page(m2, root, w) == (if done && w == page_after(v, k) {
                pte::pte_bits((ppn + k) as u64, flags)
            } else {
                sv39::page(m1, root, w)
            }) && (sv39::path(m1, root, w) ==> sv39::path(m2, root, w)),
    ensures
        done ==> k < 0x800_0000 && map_state(m, free, m2, free2, root, v, k + 1, ppn, flags),
        !done ==> map_stopped(m, m2, root, v, k, ppn, flags),
        kept_around(m, free, m2, free2, root, v, k + 1),
        paths_stay(m, m2, root),
        k < 0x800_0000 ==> sv39::page(m1, root, page_after(v, k)) == sv39::page(
            m,
            root,
            page_after(v, k),
        ),
        k == 0x800_0000 ==> pte::pte_valid(sv39::page(m1, root, page_after(v, k))),
        free2.subset_of(free),
{
    reveal(map_state);
    let vk = page_after(v, k);
    lemma_page_after(v, k);
    assert forall|shared: Set<int>| clear_of(shared, v, k + 1) implies #[trigger] walk::kept(
        m,
        free,
        m2,
        free2,
        root,
        shared,
    ) by {
        assert(!shared.contains(sv39::i2(page_after(v, k))));
        assert(clear_of(shared, v, k));
        assert(walk::kept(m, free, m1, free1, root, shared));
        assert(walk::kept(m1, free1, m2, free2, root, shared));
        walk::lemma_kept_trans(m, free, m1, free1, m2, free2, root, shared);
    }
    assert forall|w: int| sv39::is_page(w) && #[trigger] sv39::path(m, root, w) implies sv39::path(
        m2,
        root,
        w,
    ) by {
        assert(sv39::path(m1, root, w));
    }
    assert(sv39::page(m1, root, vk) == if pages_between(v, vk) < k {
        pte::pte_bits((ppn + pages_between(v, vk)) as u64, flags)
    } else {
        sv39::page(m, root, vk)
    });
    if k < 0x800_0000 {
        assert(pages_between(v, vk) == k);
    } else {
        assert(pages_between(v, vk) < k);
        pte::lemma_pte_bits((ppn + pages_between(v, vk)) as u64, flags);
    }
    if done {
        assert forall|w: int| sv39::is_page(w) implies #[trigger] sv39::page(m2, root, w) == (
        if pages_between(v, w) < k + 1 {
            pte::pte_bits((ppn + pages_between(v, w)) as u64, flags)
        } else {
            sv39::page(m, root, w)
        }) by {
            assert(sv39::page(m1, root, w) == if pages_between(v, w) < k {
                pte::pte_bits((ppn + pages_between(v, w)) as u64, flags)
            } else {
                sv39::page(m, root, w)
            });
            if pages_between(v, w) == k {
                assert(w == vk);
            }
        }
    } else {
        assert forall|w: int| sv39::is_page(w) implies #[trigger] sv39::page(m2, root, w) == (
        if pages_between(v, w) < k {
            pte::pte_bits((ppn + pages_between(v, w)) as u64, flags)
        } else {
            sv39::page(m, root, w)
        }) by {
            assert(sv39::page(m1, root, w) == if pages_between(v, w) < k {
                pte::pte_bits((ppn + pages_between(v, w)) as u64, flags)
            } else {
                sv39::page(m, root, w)
            });
        }
    }
}

impl PageTable {
    /// Takes a frame and makes it an empty table.
    pub fn allocate<A: PageFrameAllocator>(mem: &mut PhysMem, frames: &mut A) -> (r: Result<
        PageTable,
        MapError,
    >)
        requires
            old(mem).wf(),
            old(frames).ready(old(mem)@.dom()),
        ensures
            final(mem).wf(),
            final(mem).start() == old(mem).start(),
            final(mem).end() == old(mem).end(),
            final(mem)@.dom() == old(mem)@.dom(),
            final(frames).ready(final(mem)@.dom()),
            final(frames).recycles() == old(frames).recycles(),
            match r {
                Ok(t) => {
                    &&& old(frames).free().contains(t.frame as int)
                    &&& final(frames).free() == old(frames).free().remove(t.frame as int)
                    &&& phys::zeroed(final(mem)@, t.frame as int)
                    &&& phys::same_outside(old(mem)@, final(mem)@, set![t.frame as int])
                },
                Err(e) => {
                    &&& e == MapError::OutOfMemory
                    &&& old(frames).free() == Set::<int>::empty()
                    &&& final(frames).free() == old(frames).free()
                    &&& final(mem)@ == old(mem)@
                },
            },
    {
        match frames.alloc_frame(mem) {
            Some(frame) => Ok(PageTable { frame: frame.as_usize() }),
            None => Err(MapError::OutOfMemory),
        }
    }

    /// Gives the frame of the table back.
    pub fn deallocate<A: PageFrameAllocator>(self, mem: &PhysMem, frames: &mut A)
        requires
            mem.wf(),
            old(frames).ready(mem@.dom()),
            phys::has_frame(mem@, self.frame as int),
            !old(frames).free().contains(self.frame as int),
        ensures
            final(frames).ready(mem@.dom()),
            final(frames).recycles() == old(frames).recycles(),
            final(frames).free() == (if old(frames).recycles() {
                old(frames).free().insert(self.frame as int)
            } else {
                old(frames).free()
            }),
    {
        frames.free_frame(mem, PhysAddr::from_raw(self.frame));
    }

    /// The physical address and the flags of the page of `vaddr`.
    pub fn walk_ref(&self, mem: &PhysMem, vaddr: VirtAddr) -> (r: Result<
        (PhysAddr, PteFlags),
        MapError,
    >)
        requires
            mem.wf(),
            walk::walkable(mem@, self.frame as int),
        ensures
            match translation(mem@, self.frame as int, addr::page_number(vaddr.0)) {
                Some((pa, flags)) => r matches Ok((p, f)) && p.0 == pa && f.0 == flags,
                None => r == Err::<(PhysAddr, PteFlags), MapError>(MapError::NotMapped),
            },
    {
        match walk::find_slot(mem, self.frame, vaddr) {
            None => Err(MapError::NotMapped),
            Some(slot) => {
                let e: PageTableEntry = PageTableEntry { bits: mem.read_word(slot) };
                if e.is_valid() && e.is_leaf() {
                    Ok((PhysAddr::from_raw(e.paddr()), PteFlags::from_bits(e.flags())))
                } else {
                    Err(MapError::NotMapped)
                }
            },
        }
    }

    /// The address of the entry that describes the page of `vaddr`, which must have its tables.
    pub fn find_entry(&self, mem: &PhysMem, vaddr: VirtAddr) -> (r: Result<u64, MapError>)
        requires
            mem.wf(),
            walk::walkable(mem@, self.frame as int),
        ensures
            match r {
                Ok(slot) => {
                    &&& sv39::path(mem@, self.frame as int, addr::page_number(vaddr.0))
                    &&& slot == sv39::leaf_slot(
                        mem@,
                        self.frame as int,
                        addr::page_number(vaddr.0),
                    )
                    &&& mem@.contains_key(slot as int)
                },
                Err(e) => e == MapError::NotMapped && !sv39::path(
                    mem@,
                    self.frame as int,
                    addr::page_number(vaddr.0),
                ),
            },
    {
        match walk::find_slot(mem, self.frame, vaddr) {
            None => Err(MapError::NotMapped),
            Some(slot) => Ok(slot),
        }
    }

    /// The address of the entry that describes the page of `vaddr`; the tables on the way are
    /// created where they are missing.
    pub fn walk_mut<A: PageFrameAllocator>(
        &self,
        mem: &mut PhysMem,
        vaddr: VirtAddr,
        frames: &mut A,
    ) -> (r: Result<u64, MapError>)
        requires
            old(mem).wf(),
            sv39::tree(old(mem)@, self.frame as int),
            old(frames).ready(old(mem)@.dom()),
            walk::disjoint_from(old(mem)@, self.frame as int, old(frames).free()),
        ensures
            final(mem).wf(),
            final(mem).start() == old(mem).start(),
            final(mem).end() == old(mem).end(),
            final(frames).ready(final(mem)@.dom()),
            final(frames).recycles() == old(frames).recycles(),
            walk::grown(
                old(mem)@,
                old(frames).free(),
                final(mem)@,
                final(frames).free(),
                self.frame as int,
                addr::page_number(vaddr.0),
            ),
            ({
                let v = addr::page_number(vaddr.0);
                let need = walk::missing(old(mem)@, self.frame as int, v);
                match r {
                    Ok(slot) => {
                        &&& need <= old(frames).free().len()
                        &&& final(frames).free().len() + need == old(frames).free().len()
                        &&& sv39::path(final(mem)@, self.frame as int, v)
                        &&& slot == sv39::leaf_slot(final(mem)@, self.frame as int, v)
                        &&& final(mem)@.contains_key(slot as int)
                    },
                    Err(e) => {
                        &&& e == MapError::OutOfMemory
                        &&& need > old(frames).free().len()
                        &&& final(frames).free() == Set::<int>::empty()
                    },
                }
            }),
    {
        match walk::ensure_slot(mem, frames, self.frame, vaddr) {
            None => Err(MapError::OutOfMemory),
            Some(slot) => Ok(slot),
        }
    }

    /// Maps the `size` bytes from `vaddr` on to the `size` bytes from `paddr` on.
    ///
    /// The pages are mapped in order; on an error the pages before the failing one stay mapped.
    #[verifier::spinoff_prover]
    #[verifier::rlimit(40)]
    pub fn map<A: PageFrameAllocator>(
        &self,
        mem: &mut PhysMem,
        vaddr: VirtAddr,
        paddr: PhysAddr,
        size: u64,
        flags: PteFlags,
        frames: &mut A,
    ) -> (r: Result<(), MapError>)
        requires
            old(mem).wf(),
            sv39::tree(old(mem)@, self.frame as int),
            old(frames).ready(old(mem)@.dom()),
            walk::disjoint_from(old(mem)@, self.frame as int, old(frames).free()),
            vaddr.0 % 4096 == 0 && paddr.0 % 4096 == 0 && size % 4096 == 0 ==> vaddr.0 + size
                <= 0x1_0000_0000_0000_0000 && paddr.0 + size <= 0x1_0000_0000_0000_0000,
        ensures
            final(mem).wf(),
            final(mem).start() == old(mem).start(),
            final(mem).end() == old(mem).end(),
            final(mem)@.dom() == old(mem)@.dom(),
            final(frames).ready(final(mem)@.dom()),
            final(frames).recycles() == old(frames).recycles(),
            final(frames).free().subset_of(old(frames).free()),
            sv39::tree(final(mem)@, self.frame as int),
            walk::disjoint_from(final(mem)@, self.frame as int, final(frames).free()),
            kept_around(
                old(mem)@,
                old(frames).free(),
                final(mem)@,
                final(frames).free(),
                self.frame as int,
                addr::page_number(vaddr.0),
                (size / PAGE_SIZE) as int,
            ),
            paths_stay(old(mem)@, final(mem)@, self.frame as int),
            map_outcome(
                old(mem)@,
                old(frames).free(),
                final(mem)@,
                final(frames).free(),
                self.frame as int,
                vaddr.0,
                paddr.0,
                size,
                flags.0,
                r,
            ),
    {
        if vaddr.offset() != 0 || !paddr.is_aligned() || size % PAGE_SIZE != 0 {
            proof {
                assert forall|shared: Set<int>| true implies #[trigger] walk::kept(
                    mem@,
                    frames.free(),
                    mem@,
                    frames.free(),
                    self.frame as int,
                    shared,
                ) by {
                    walk::lemma_kept_refl(mem@, frames.free(), self.frame as int, shared);
                }
            }
            return Err(MapError::NotAligned);
        }
        let pages: u64 = size / PAGE_SIZE;
        let full: PteFlags = flags.valid();
        let ghost m = mem@;
        let ghost free = frames.free();
        let ghost root = self.frame as int;
        let ghost v = addr::page_number(vaddr.0);
        let ghost ppn = (paddr.0 / 4096) as int;
        proof {
            addr::lemma_page_number(vaddr.0);
            frames.lemma_free(m);
            lemma_map_start(m, free, root, v, ppn, full.0);
            ways::lemma_built_start(m, free, root, v);
        }
        let mut i: u64 = 0;
        while i < pages
            invariant
                pages == size / PAGE_SIZE,
                size % PAGE_SIZE == 0,
                vaddr.0 as int % 4096 == 0,
                paddr.0 as int % 4096 == 0,
                vaddr.0 + size <= 0x1_0000_0000_0000_0000,
                paddr.0 + size <= 0x1_0000_0000_0000_0000,
                i <= pages,
                i <= 0x800_0000,
                root == self.frame,
                v == addr::page_number(vaddr.0),
                sv39::is_page(v),
                ppn == paddr.0 / 4096,
                full.0 == entry::with_valid(flags.0),
                full.0 % 2 == 1,
                m == old(mem)@,
                free == old(frames).free(),
                free.finite(),
                mem.wf(),
                mem.start() == old(mem).start(),
                mem.end() == old(mem).end(),
                mem@.dom() == m.dom(),
                frames.ready(mem@.dom()),
                frames.recycles() == old(frames).recycles(),
                ways::built(m, free, mem@, frames.free(), root, v, i as int),
                sv39::tree(mem@, root),
                walk::disjoint_from(mem@, root, frames.free()),
                map_state(m, free, mem@, frames.free(), root, v, i as int, ppn, full.0),
            decreases pages - i,
        {
            let va: VirtAddr = vaddr.plus(i * PAGE_SIZE);
            let pa: PhysAddr = paddr.plus(i * PAGE_SIZE);
            let e: PageTableEntry = PageTableEntry::new(pa.as_usize() / PAGE_SIZE, full.bits());
            let ghost m1 = mem@;
            let ghost free1 = frames.free();
            let ghost vi = page_after(v, i as int);
            proof {
                addr::lemma_page_number_add(vaddr.0, i as int);
                lemma_page_after(v, i as int);
                assert(addr::page_number(va.0) == vi);
                assert((pa.0 / 4096) as int == ppn + i);
                frames.lemma_free(m1);
                ways::lemma_built_step(m, free, m1, free1, root, v, i as int);
            }
            let done: Installed = walk::install(mem, frames, self.frame, va, e.as_u64());
            proof {
                lemma_map_step(
                    m,
                    free,
                    m1,
                    free1,
                    mem@,
                    frames.free(),
                    root,
                    v,
                    i as int,
                    ppn,
                    full.0,
                    done is Done,
                );
                assert(kept_around(m, free, mem@, frames.free(), root, v, pages as int)) by {
                    assert forall|shared: Set<int>| clear_of(
                        shared,
                        v,
                        pages as int,
                    ) implies #[trigger] walk::kept(m, free, mem@, frames.free(), root, shared) by {
                        assert(clear_of(shared, v, i + 1));
                    }
                }
            }
            match done {
                Installed::Taken => {
                    return Err(MapError::AlreadyMapped);
                },
                Installed::NoFrame => {
                    return Err(MapError::OutOfMemory);
                },
                Installed::Done => {},
            }
            i += 1;
        }
        reveal(map_state);
        Ok(())
    }

    /// Gives back every table under the root entries that `skip` does not list, and clears those
    /// entries. The root table itself stays.
    #[verifier::spinoff_prover]
    #[verifier::rlimit(40)]
    pub fn clean<A: PageFrameAllocator>(
        &self,
        mem: &mut PhysMem,
        skip: &Vec<u64>,
        frames: &mut A,
    )
        requires
            old(mem).wf(),
            sv39::tree(old(mem)@, self.frame as int),
            old(frames).ready(old(mem)@.dom()),
            walk::disjoint_from(old(mem)@, self.frame as int, old(frames).free()),
        ensures
            final(mem).wf(),
            final(mem).start() == old(mem).start(),
            final(mem).end() == old(mem).end(),
            final(mem)@.dom() == old(mem)@.dom(),
            final(frames).ready(final(mem)@.dom()),
            final(frames).recycles() == old(frames).recycles(),
            sv39::tree(final(mem)@, self.frame as int),
            walk::disjoint_from(final(mem)@, self.frame as int, final(frames).free()),
            final(frames).free() == prune::released(
                old(frames).free(),
                sv39::owned(old(mem)@, self.frame as int, index_set(skip@)).remove(
                    self.frame as int,
                ),
                old(frames).recycles(),
            ),
            phys::same_outside(
                old(mem)@,
                final(mem)@,
                sv39::owned(old(mem)@, self.frame as int, index_set(skip@)),
            ),
            forall|a: int|
                sv39::idx(a) && index_set(skip@).contains(a) ==> #[trigger] sv39::entry(
                    final(mem)@,
                    self.frame as int,
                    a,
                ) == sv39::entry(old(mem)@, self.frame as int, a),
            forall|a: int|
                sv39::idx(a) && !index_set(skip@).contains(a) ==> !pte::pte_valid(
                    #[trigger] sv39::entry(final(mem)@, self.frame as int, a),
                ),
            sv39::owned(final(mem)@, self.frame as int, index_set(skip@)) == set![
                self.frame as int,
            ],
    {
        let root: u64 = self.frame;
        let ghost m = mem@;
        let ghost free = frames.free();
        let ghost rec = frames.recycles();
        let ghost r = root as int;
        let ghost shared = index_set(skip@);
        proof {
            walk::lemma_walkable(m, r);
            prune::lemma_pruned_refl(m, free, r, shared, rec);
        }
        let mut a: u64 = 0;
        while a < 512
            invariant
                a <= 512,
                r == root,
                shared == index_set(skip@),
                m == old(mem)@,
                free == old(frames).free(),
                rec == old(frames).recycles(),
                frames.recycles() == rec,
                mem.wf(),
                mem.start() == old(mem).start(),
                mem.end() == old(mem).end(),
                mem@.dom() == m.dom(),
                frames.ready(mem@.dom()),
                phys::has_frame(mem@, r),
                sv39::tree(mem@, r),
                walk::disjoint_from(mem@, r, frames.free()),
                prune::pruned(m, free, mem@, frames.free(), r, shared, rec),
                forall|c: int|
                    0 <= c < a && !shared.contains(c) ==> !pte::pte_valid(
                        #[trigger] sv39::entry(mem@, r, c),
                    ),
            decreases 512 - a,
        {
            if !lists_index(skip, a) {
                let e: PageTableEntry = walk::read_entry(mem, root, a);
                if e.is_valid() && !e.is_leaf() {
                    let t1: u64 = e.paddr();
                    assert(sv39::has_l1(mem@, r, a as int));
                    let ghost m0 = mem@;
                    let ghost free0 = frames.free();
                    clean_l1(mem, root, a, frames);
                    let ghost m1 = mem@;
                    let ghost free1 = frames.free();
                    proof {
                        assert(prune::pruned(m0, free0, m1, free1, r, shared, rec));
                        prune::lemma_pruned_trans(m, free, m0, free0, m1, free1, r, shared, rec);
                        assert(sv39::entry(m1, r, a as int) == sv39::entry(m0, r, a as int));
                        assert(sv39::has_l1(m1, r, a as int));
                        graft::lemma_owns_l1(m1, r, Set::empty(), a as int);
                        graft::lemma_owned_frame(m1, r, Set::empty(), t1 as int);
                        prune::lemma_cut_l1(m1, r, a as int);
                    }
                    PageTable { frame: t1 }.deallocate(mem, frames);
                    mem.write_word(root + 8 * a, 0);
                    proof {
                        let m2 = mem@;
                        let free2 = frames.free();
                        assert(m2 == m1.insert(r + 8 * a, 0));
                        assert(free2 =~= prune::released(free1, set![t1 as int], rec));
                        graft::lemma_owns_l1(m1, r, shared, a as int);
                        assert(sv39::is_owned(m1, r, shared, r));
                        prune::lemma_pruned_one(
                            m1,
                            free1,
                            m2,
                            r,
                            shared,
                            rec,
                            a as int,
                            t1 as int,
                            r,
                        );
                        prune::lemma_pruned_trans(m, free, m1, free1, m2, free2, r, shared, rec);
                        reveal(prune::pruned);
                        assert forall|c: int| 0 <= c < a + 1 && !shared.contains(
                            c,
                        ) implies !pte::pte_valid(#[trigger] sv39::entry(m2, r, c)) by {
                            if c < a {
                                assert(sv39::entry(m2, r, c) == sv39::entry(m1, r, c));
                                assert(sv39::entry(m1, r, c) == sv39::entry(m0, r, c));
                            }
                        }
                    }
                } else {
                    reveal(sv39::tree);
                    assert(!pte::pte_valid(sv39::entry(mem@, r, a as int)));
                }
            }
            a += 1;
        }
        proof {
            reveal(prune::pruned);
            let o = sv39::owned(m, r, shared);
            let o2 = sv39::owned(mem@, r, shared);
            assert forall|t: int| #[trigger] o2.contains(t) == set![r].contains(t) by {
                if o2.contains(t) && t != r {
                    let p = graft::owned_position(mem@, r, shared, t);
                    assert(pte::pte_valid(sv39::entry(mem@, r, p.0)));
                }
            }
            assert(o2 =~= set![r]);
            assert(o.difference(o2) =~= o.remove(r));
        }
    }

    /// Clears the entry of the page of `vaddr`; the tables stay.
    pub fn unmap(&self, mem: &mut PhysMem, vaddr: VirtAddr)
        requires
            old(mem).wf(),
            sv39::tree(old(mem)@, self.frame as int),
        ensures
            final(mem).wf(),
            final(mem).start() == old(mem).start(),
            final(mem).end() == old(mem).end(),
            final(mem)@.dom() == old(mem)@.dom(),
            page_written(
                old(mem)@,
                final(mem)@,
                self.frame as int,
                addr::page_number(vaddr.0),
                0,
            ),
    {
        let ghost m = mem@;
        let ghost root = self.frame as int;
        let ghost v = addr::page_number(vaddr.0);
        proof {
            addr::lemma_page_number(vaddr.0);
            walk::lemma_walkable(m, root);
        }
        match walk::find_slot(mem, self.frame, vaddr) {
            None => {
                proof {
                    assert forall|free: Set<int>, shared: Set<int>| true implies #[trigger] walk::kept(
                        m,
                        free,
                        m,
                        free,
                        root,
                        shared,
                    ) by {
                        walk::lemma_kept_refl(m, free, root, shared);
                    }
                }
            },
            Some(slot) => {
                let mut e: PageTableEntry = PageTableEntry { bits: mem.read_word(slot) };
                e.clear();
                mem.write_word(slot, e.as_u64());
                proof {
                    lemma_page_written(m, root, v, 0);
                }
            },
        }
    }
}

/// The root indices listed in `s`.
pub open spec fn index_set(s: Seq<u64>) -> Set<int> {
    Set::new(|a: int| 0 <= a <= u64::MAX && s.contains(a as u64))
}

/// Whether `i` is in the list.
pub fn lists_index(list: &Vec<u64>, i: u64) -> (b: bool)
    ensures
        b == list@.contains(i),
        b == index_set(list@).contains(i as int),
{
    let mut k: usize = 0;
    while k < list.len()
        invariant
            k <= list@.len(),
            forall|j: int| 0 <= j < k ==> list@[j] != i,
        decreases list@.len() - k,
    {
        if list[k] == i {
            return true;
        }
        k += 1;
    }
    false
}

/// Gives back the level-0 tables under root entry `a` and clears their level-1 entries.
#[verifier::spinoff_prover]
#[verifier::rlimit(40)]
fn clean_l1<A: PageFrameAllocator>(mem: &mut PhysMem, root: u64, a: u64, frames: &mut A)
    requires
        old(mem).wf(),
        sv39::tree(old(mem)@, root as int),
        old(frames).ready(old(mem)@.dom()),
        walk::disjoint_from(old(mem)@, root as int, old(frames).free()),
        a < 512,
        sv39::has_l1(old(mem)@, root as int, a as int),
    ensures
        final(mem).wf(),
        final(mem).start() == old(mem).start(),
        final(mem).end() == old(mem).end(),
        final(mem)@.dom() == old(mem)@.dom(),
        final(frames).ready(final(mem)@.dom()),
        final(frames).recycles() == old(frames).recycles(),
        sv39::tree(final(mem)@, root as int),
        walk::disjoint_from(final(mem)@, root as int, final(frames).free()),
        forall|a2: int|
            sv39::idx(a2) ==> #[trigger] sv39::entry(final(mem)@, root as int, a2) == sv39::entry(
                old(mem)@,
                root as int,
                a2,
            ),
        forall|b: int|
            sv39::idx(b) ==> !(#[trigger] sv39::has_l0(final(mem)@, root as int, a as int, b)),
        forall|shared: Set<int>|
            !shared.contains(a as int) ==> #[trigger] prune::pruned(
                old(mem)@,
                old(frames).free(),
                final(mem)@,
                final(frames).free(),
                root as int,
                shared,
                old(frames).recycles(),
            ),
{
    let ghost m = mem@;
    let ghost free = frames.free();
    let ghost rec = frames.recycles();
    let ghost r = root as int;
    proof {
        walk::lemma_walkable(m, r);
        assert forall|shared: Set<int>| true implies #[trigger] prune::pruned(
            m,
            free,
            m,
            free,
            r,
            shared,
            rec,
        ) by {
            prune::lemma_pruned_refl(m, free, r, shared, rec);
        }
    }
    let t1: u64 = walk::read_entry(mem, root, a).paddr();
    let mut b: u64 = 0;
    while b < 512
        invariant
            b <= 512,
            a < 512,
            r == root,
            m == old(mem)@,
            free == old(frames).free(),
            rec == old(frames).recycles(),
            frames.recycles() == rec,
            mem.wf(),
            mem.start() == old(mem).start(),
            mem.end() == old(mem).end(),
            mem@.dom() == m.dom(),
            frames.ready(mem@.dom()),
            sv39::tree(mem@, r),
            walk::disjoint_from(mem@, r, frames.free()),
            sv39::has_l1(mem@, r, a as int),
            sv39::l1(mem@, r, a as int) == t1,
            phys::has_frame(mem@, t1 as int),
            forall|a2: int|
                sv39::idx(a2) ==> #[trigger] sv39::entry(mem@, r, a2) == sv39::entry(m, r, a2),
            forall|c: int| 0 <= c < b ==> !(#[trigger] sv39::has_l0(mem@, r, a as int, c)),
            forall|shared: Set<int>|
                !shared.contains(a as int) ==> #[trigger] prune::pruned(
                    m,
                    free,
                    mem@,
                    frames.free(),
                    r,
                    shared,
                    rec,
                ),
        decreases 512 - b,
    {
        let e: PageTableEntry = walk::read_entry(mem, t1, b);
        if e.is_valid() && !e.is_leaf() {
            let t0: u64 = e.paddr();
            let ghost m1 = mem@;
            let ghost free1 = frames.free();
            proof {
                assert(sv39::has_l0(m1, r, a as int, b as int));
                assert(sv39::l0(m1, r, a as int, b as int) == t0);
                graft::lemma_owns_l0(m1, r, Set::empty(), a as int, b as int);
                graft::lemma_owned_frame(m1, r, Set::empty(), t0 as int);
                prune::lemma_cut_l0(m1, r, a as int, b as int);
            }
            PageTable { frame: t0 }.deallocate(mem, frames);
            mem.write_word(t1 + 8 * b, 0);
            proof {
                let m2 = mem@;
                let free2 = frames.free();
                assert(m2 == m1.insert(t1 + 8 * b, 0));
                assert(free2 =~= prune::released(free1, set![t0 as int], rec));
                assert forall|shared: Set<int>| !shared.contains(
                    a as int,
                ) implies #[trigger] prune::pruned(m, free, m2, free2, r, shared, rec) by {
                    graft::lemma_owns_l0(m1, r, shared, a as int, b as int);
                    graft::lemma_owns_l1(m1, r, shared, a as int);
                    prune::lemma_pruned_one(
                        m1,
                        free1,
                        m2,
                        r,
                        shared,
                        rec,
                        a as int,
                        t0 as int,
                        t1 as int,
                    );
                    assert(prune::pruned(m, free, m1, free1, r, shared, rec));
                    prune::lemma_pruned_trans(m, free, m1, free1, m2, free2, r, shared, rec);
                }
                assert(prune::pruned(m, free, m2, free2, r, Set::empty(), rec));
                reveal(prune::pruned);
                assert(sv39::entry(m2, r, a as int) == sv39::entry(m1, r, a as int));
                assert forall|c: int| 0 <= c < b + 1 implies !(#[trigger] sv39::has_l0(
                    m2,
                    r,
                    a as int,
                    c,
                )) by {
                    assert(sv39::entry(m2, t1 as int, c) == if c == b {
                        0
                    } else {
                        sv39::entry(m1, t1 as int, c)
                    });
                    if c < b {
                        assert(!sv39::has_l0(m1, r, a as int, c));
                    }
                }
            }
        }
        b += 1;
    }
}

/// `m2` is `m` with the entry of page `v` set to `bits`; every table stays, and only a table on the
/// way to the page was written.
pub open spec fn page_written(
    m: Map<int, u64>,
    m2: Map<int, u64>,
    root: int,
    v: int,
    bits: u64,
) -> bool {
    &&& m2.dom() == m.dom()
    &&& sv39::tree(m2, root)
    &&& forall|w: int|
        #![trigger sv39::page(m2, root, w)]
        #![trigger sv39::path(m2, root, w)]
        sv39::is_page(w) ==> sv39::path(m2, root, w) == sv39::path(m, root, w) && sv39::page(
            m2,
            root,
            w,
        ) == (if w == v {
            bits
        } else {
            sv39::page(m, root, w)
        })
    &&& forall|a: int|
        sv39::idx(a) ==> #[trigger] sv39::entry(m2, root, a) == sv39::entry(m, root, a)
    &&& forall|free: Set<int>, shared: Set<int>|
        !shared.contains(sv39::i2(v)) ==> #[trigger] walk::kept(m, free, m2, free, root, shared)
}

/// Overwriting the entry of a page whose tables exist.
pub proof fn lemma_page_written(m: Map<int, u64>, root: int, v: int, bits: u64)
    requires
        sv39::tree(m, root),
        sv39::is_page(v),
        sv39::path(m, root, v),
    ensures
        m.contains_key(sv39::leaf_slot(m, root, v)),
        page_written(m, m.insert(sv39::leaf_slot(m, root, v), bits), root, v, bits),
{
    reveal(walk::kept);
    walk::lemma_write_leaf(m, Set::empty(), root, v, bits);
    let m2 = m.insert(sv39::leaf_slot(m, root, v), bits);
    assert forall|free: Set<int>, shared: Set<int>| !shared.contains(
        sv39::i2(v),
    ) implies #[trigger] walk::kept(m, free, m2, free, root, shared) by {
        assert(walk::kept(m, Set::empty(), m2, Set::empty(), root, shared));
        let o = sv39::owned(m, root, shared);
        let none = Set::<int>::empty();
        assert(o.union(free.difference(free)) =~= o);
        assert(o.union(none.difference(none)) =~= o);
    }
}

/// The first `k` pages were free and are mapped; nothing else about the pages changed.
pub open spec fn map_stopped(
    m: Map<int, u64>,
    m2: Map<int, u64>,
    root: int,
    v: int,
    k: int,
    ppn: int,
    flags: u64,
) -> bool {
    &&& pages_set(m, m2, root, v, k, ppn, flags)
    &&& forall|j: int|
        0 <= j < k ==> !pte::pte_valid(#[trigger] sv39::page(m, root, page_after(v, j)))
}

/// How a request to map `size` bytes ends.
///
/// Unaligned requests are refused without a change. Otherwise the pages are mapped in order until
/// all are mapped, or one has a valid entry already, or one lacks a table when no frame is left.
pub open spec fn map_outcome(
    m: Map<int, u64>,
    free: Set<int>,
    m2: Map<int, u64>,
    free2: Set<int>,
    root: int,
    va: u64,
    pa: u64,
    size: u64,
    flags: u64,
    r: Result<(), MapError>,
) -> bool {
    let v = addr::page_number(va);
    let ppn = pa as int / 4096;
    let pages = size as int / 4096;
    let full = entry::with_valid(flags);
    if va as int % 4096 != 0 || pa as int % 4096 != 0 || size as int % 4096 != 0 {
        r == Err::<(), MapError>(MapError::NotAligned) && m2 == m && free2 == free
    } else {
        match r {
            Ok(_) => {
                &&& pages <= 0x800_0000
                &&& map_stopped(m, m2, root, v, pages, ppn, full)
                &&& ways::built(m, free, m2, free2, root, v, pages)
            },
            Err(MapError::AlreadyMapped) => exists|k: int|
                0 <= k < pages && #[trigger] map_stopped(m, m2, root, v, k, ppn, full)
                    && ways::built(m, free, m2, free2, root, v, k) && pte::pte_valid(sv39::page(m2, root, page_after(v, k))) && (k
                    == 0x800_0000 || pte::pte_valid(sv39::page(m, root, page_after(v, k)))),
            Err(MapError::OutOfMemory) => free2 == Set::<int>::empty() && exists|k: int|
                0 <= k < pages && #[trigger] map_stopped(m, m2, root, v, k, ppn, full)
                    && ways::short(m, free, root, v, k) && !sv39::path(m2, root, page_after(v, k)),
            _ => false,
        }
    }
}

} // verus!
