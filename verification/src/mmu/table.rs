//! Sv39 page tables with checked mapping.
use vstd::prelude::*;
use crate::memory::addr;
use crate::memory::addr::{PhysAddr, VirtAddr};
use crate::memory::entry;
use crate::memory::entry::PteFlags;
use crate::memory::graft;
use crate::memory::moved;
use crate::memory::phys;
use crate::memory::phys::{PhysMem, PAGE_SIZE};
use crate::memory::prune;
use crate::memory::sv39;
use crate::memory::table;
use crate::memory::walk;
use crate::memory::walk::Installed;
use crate::memory::ways;
use crate::mmu::frames::PageFrameAllocator;
use crate::mmu::pte;
use crate::mmu::pte::PageTableEntry;

verus! {

/// Errors of mapping.
#[derive(Clone, Copy, PartialEq, Eq, Structural, Debug)]
pub enum MapError {
    /// No page frame is left.
    OutOfMemory,
    /// The virtual address is mapped already.
    AlreadyMapped(VirtAddr),
    /// An address is not page aligned.
    NotAligned,
}

/// A page table: the frame of 512 entries at `frame`.
#[derive(Clone, Copy, PartialEq, Eq, Structural)]
pub struct PageTable {
    pub frame: u64,
}

/// How a request to map one page ends.
pub open spec fn page_outcome(
    m: Map<int, u64>,
    free: Set<int>,
    m2: Map<int, u64>,
    free2: Set<int>,
    root: int,
    va: u64,
    pa: u64,
    flags: u64,
    r: Result<(), MapError>,
) -> bool {
    let v = addr::page_number(va);
    let aligned = va % 4096 == 0 && pa % 4096 == 0;
    let taken = pte::pte_valid(sv39::page(m, root, v));
    let need = walk::missing(m, root, v);
    let e = pte::pte_bits((pa / 4096) as u64, entry::with_valid(flags));
    &&& match r {
        Ok(_) => aligned && !taken && need <= free.len() && free2.len() + need == free.len()
            && ways::grew(m, m2, root, ways::way(v)),
        Err(MapError::NotAligned) => !aligned && m2 == m && free2 == free,
        Err(MapError::AlreadyMapped(x)) => aligned && taken && x.0 == va && m2 == m && free2
            == free,
        Err(MapError::OutOfMemory) => aligned && !taken && need > free.len() && free2 == Set::<
            int,
        >::empty() && !sv39::path(m2, root, v),
    }
    &&& forall|w: int|
        #![trigger sv39::page(m2, root, w)]
        #![trigger sv39::path(m2, root, w)]
        sv39::is_page(w) ==> sv39::page(m2, root, w) == (if r is Ok && w == v {
            e
        } else {
            sv39::page(m, root, w)
        }) && (sv39::path(m, root, w) ==> sv39::path(m2, root, w))
}

/// How a request to map the pages of `size` bytes ends: all are mapped, or the first `k`.
pub open spec fn region_outcome(
    m: Map<int, u64>,
    free: Set<int>,
    m2: Map<int, u64>,
    free2: Set<int>,
    root: int,
    va: u64,
    pa: u64,
    size: u64,
    flags: u64,
    r: Result<(), MapError>,
) -> bool {
    let v = addr::page_number(va);
    let ppn = pa as int / 4096;
    let pages = moved::pages_in(size);
    let full = entry::with_valid(flags);
    let aligned = va % 4096 == 0 && pa % 4096 == 0;
    match r {
        Ok(_) => {
            &&& aligned || pages == 0
            &&& pages <= 0x800_0000
            &&& table::map_stopped(m, m2, root, v, pages, ppn, full)
            &&& ways::built(m, free, m2, free2, root, v, pages)
        },
        Err(MapError::NotAligned) => !aligned && pages > 0 && m2 == m && free2 == free,
        Err(MapError::AlreadyMapped(x)) => aligned && exists|k: int|
            0 <= k < pages && k <= 0x800_0000 && x.0 == va + 4096 * k
                && #[trigger] table::map_stopped(
                m,
                m2,
                root,
                v,
                k,
                ppn,
                full,
            ) && ways::built(m, free, m2, free2, root, v, k) && (k == 0x800_0000 || pte::pte_valid(
                sv39::page(m, root, table::page_after(v, k)),
            )),
        Err(MapError::OutOfMemory) => aligned && free2 == Set::<int>::empty() && exists|k: int|
            0 <= k < pages && k < 0x800_0000 && #[trigger] table::map_stopped(
                m,
                m2,
                root,
                v,
                k,
                ppn,
                full,
            ) && !pte::pte_valid(sv39::page(m, root, table::page_after(v, k))) && ways::short(
                m,
                free,
                root,
                v,
                k,
            ) && !sv39::path(m2, root, table::page_after(v, k)),
    }
}

impl PageTable {
    /// Makes the frame at `frame` a table without entries.
    pub fn new(mem: &mut PhysMem, frame: PhysAddr) -> (t: PageTable)
        requires
            old(mem).wf(),
            phys::has_frame(old(mem)@, frame.0 as int),
        ensures
            final(mem).wf(),
            final(mem).start() == old(mem).start(),
            final(mem).end() == old(mem).end(),
            t.frame == frame.0,
            phys::zeroed(final(mem)@, t.frame as int),
            phys::same_outside(old(mem)@, final(mem)@, set![t.frame as int]),
            sv39::tree(final(mem)@, t.frame as int),
            forall|v: int|
                sv39::is_page(v) ==> #[trigger] sv39::page(final(mem)@, t.frame as int, v) == 0,
    {
        mem.zero_frame(frame.as_usize());
        proof {
            assert(phys::has_frame(mem@, frame.0 as int));
            graft::lemma_empty_tree(mem@, frame.0 as int);
        }
        PageTable { frame: frame.as_usize() }
    }

    /// The physical address and the flags of the page of `vaddr`, `None` if it is not mapped.
    pub fn walk(&self, mem: &PhysMem, vaddr: VirtAddr) -> (r: Option<(PhysAddr, PteFlags)>)
        requires
            mem.wf(),
            walk::walkable(mem@, self.frame as int),
        ensures
            match table::translation(mem@, self.frame as int, addr::page_number(vaddr.0)) {
                Some((pa, flags)) => r matches Some((p, f)) && p.0 == pa && f.0 == flags,
                None => r is None,
            },
    {
        match self.get_entry(mem, vaddr) {
            None => None,
            Some(leaf) => {
                if leaf.is_valid() && leaf.is_leaf() {
                    Some((PhysAddr::from_raw(leaf.paddr()), PteFlags::from_bits(leaf.flags())))
                } else {
                    None
                }
            },
        }
    }

    /// The entry of the page of `vaddr`; `None` if a table on the way is missing.
    pub fn get_entry(&self, mem: &PhysMem, vaddr: VirtAddr) -> (r: Option<PageTableEntry>)
        requires
            mem.wf(),
            walk::walkable(mem@, self.frame as int),
        ensures
            r is Some <==> sv39::path(mem@, self.frame as int, addr::page_number(vaddr.0)),
            r matches Some(e) ==> e.bits == sv39::page(
                mem@,
                self.frame as int,
                addr::page_number(vaddr.0),
            ),
    {
        match walk::find_slot(mem, self.frame, vaddr) {
            None => None,
            Some(slot) => Some(PageTableEntry { bits: mem.read_word(slot) }),
        }
    }

    /// The address of the entry that describes the page of `vaddr`; the tables on the way are
    /// created where they are missing.
    pub fn walk_mut<A: PageFrameAllocator>(
        &self,
        mem: &mut PhysMem,
        vaddr: VirtAddr,
        frames: &mut A,
    ) -> (r: Result<u64, MapError>)
        requires
            old(mem).wf(),
            sv39::tree(old(mem)@, self.frame as int),
            old(frames).ready(old(mem)@.dom()),
            walk::disjoint_from(old(mem)@, self.frame as int, old(frames).free()),
        ensures
            final(mem).wf(),
            final(mem).start() == old(mem).start(),
            final(mem).end() == old(mem).end(),
            final(frames).ready(final(mem)@.dom()),
            final(frames).recycles() == old(frames).recycles(),
            walk::grown(
                old(mem)@,
                old(frames).free(),
                final(mem)@,
                final(frames).free(),
                self.frame as int,
                addr::page_number(vaddr.0),
            ),
            ({
                let v = addr::page_number(vaddr.0);
                let need = walk::missing(old(mem)@, self.frame as int, v);
                match r {
                    Ok(slot) => {
                        &&& need <= old(frames).free().len()
                        &&& final(frames).free().len() + need == old(frames).free().len()
                        &&& sv39::path(final(mem)@, self.frame as int, v)
                        &&& slot == sv39::leaf_slot(final(mem)@, self.frame as int, v)
                        &&& final(mem)@.contains_key(slot as int)
                    },
                    Err(e) => {
                        &&& e == MapError::OutOfMemory
                        &&& need > old(frames).free().len()
                        &&& final(frames).free() == Set::<int>::empty()
                    },
                }
            }),
    {
        match walk::ensure_slot(mem, frames, self.frame, vaddr) {
            None => Err(MapError::OutOfMemory),
            Some(slot) => Ok(slot),
        }
    }

    /// Maps the page at `vaddr` to the frame at `paddr`.
    pub fn map_page<A: PageFrameAllocator>(
        &self,
        mem: &mut PhysMem,
        vaddr: VirtAddr,
        paddr: PhysAddr,
        flags: PteFlags,
        frames: &mut A,
    ) -> (r: Result<(), MapError>)
        requires
            old(mem).wf(),
            sv39::tree(old(mem)@, self.frame as int),
            old(frames).ready(old(mem)@.dom()),
            walk::disjoint_from(old(mem)@, self.frame as int, old(frames).free()),
        ensures
            final(mem).wf(),
            final(mem).start() == old(mem).start(),
            final(mem).end() == old(mem).end(),
            final(mem)@.dom() == old(mem)@.dom(),
            final(frames).ready(final(mem)@.dom()),
            final(frames).recycles() == old(frames).recycles(),
            final(frames).free().subset_of(old(frames).free()),
            sv39::tree(final(mem)@, self.frame as int),
            walk::disjoint_from(final(mem)@, self.frame as int, final(frames).free()),
            forall|shared: Set<int>|
                !shared.contains(sv39::i2(addr::page_number(vaddr.0))) ==> #[trigger] walk::kept(
                    old(mem)@,
                    old(frames).free(),
                    final(mem)@,
                    final(frames).free(),
                    self.frame as int,
                    shared,
                ),
            page_outcome(
                old(mem)@,
                old(frames).free(),
                final(mem)@,
                final(frames).free(),
                self.frame as int,
                vaddr.0,
                paddr.0,
                flags.0,
                r,
            ),
    {
        if vaddr.offset() != 0 || !paddr.is_aligned() {
            proof {
                assert forall|shared: Set<int>| true implies #[trigger] walk::kept(
                    mem@,
                    frames.free(),
                    mem@,
                    frames.free(),
                    self.frame as int,
                    shared,
                ) by {
                    walk::lemma_kept_refl(mem@, frames.free(), self.frame as int, shared);
                }
            }
            return Err(MapError::NotAligned);
        }
        let e: PageTableEntry = PageTableEntry::new(
            paddr.as_usize() / PAGE_SIZE,
            flags.valid().bits(),
        );
        match walk::install(mem, frames, self.frame, vaddr, e.as_u64()) {
            Installed::Done => Ok(()),
            Installed::Taken => Err(MapError::AlreadyMapped(vaddr)),
            Installed::NoFrame => Err(MapError::OutOfMemory),
        }
    }

    /// Maps the pages of the `size` bytes from `vaddr` on to the frames from `paddr` on.
    ///
    /// The pages are mapped in order; on an error the pages before the failing one stay mapped.
    #[verifier::spinoff_prover]
    #[verifier::rlimit(40)]
    pub fn map_region<A: PageFrameAllocator>(
        &self,
        mem: &mut PhysMem,
        vaddr: VirtAddr,
        paddr: PhysAddr,
        size: u64,
        flags: PteFlags,
        frames: &mut A,
    ) -> (r: Result<(), MapError>)
        requires
            old(mem).wf(),
            sv39::tree(old(mem)@, self.frame as int),
            old(frames).ready(old(mem)@.dom()),
            walk::disjoint_from(old(mem)@, self.frame as int, old(frames).free()),
            vaddr.0 % 4096 == 0 && paddr.0 % 4096 == 0 ==> addr::in_word(
                vaddr.0,
                moved::pages_in(size),
            ) && addr::in_word(paddr.0, moved::pages_in(size)),
        ensures
            final(mem).wf(),
            final(mem).start() == old(mem).start(),
            final(mem).end() == old(mem).end(),
            final(mem)@.dom() == old(mem)@.dom(),
            final(frames).ready(final(mem)@.dom()),
            final(frames).recycles() == old(frames).recycles(),
            final(frames).free().subset_of(old(frames).free()),
            sv39::tree(final(mem)@, self.frame as int),
            walk::disjoint_from(final(mem)@, self.frame as int, final(frames).free()),
            table::kept_around(
                old(mem)@,
                old(frames).free(),
                final(mem)@,
                final(frames).free(),
                self.frame as int,
                addr::page_number(vaddr.0),
                moved::pages_in(size),
            ),
            region_outcome(
                old(mem)@,
                old(frames).free(),
                final(mem)@,
                final(frames).free(),
                self.frame as int,
                vaddr.0,
                paddr.0,
                size,
                flags.0,
                r,
            ),
    {
        let pages: u64 = if size % PAGE_SIZE == 0 {
            size / PAGE_SIZE
        } else {
            size / PAGE_SIZE + 1
        };
        let ghost full = entry::with_valid(flags.0);
        let ghost m = mem@;
        let ghost free = frames.free();
        let ghost root = self.frame as int;
        let ghost v = addr::page_number(vaddr.0);
        let ghost ppn = (paddr.0 / 4096) as int;
        proof {
            assert(pages as int == moved::pages_in(size));
            addr::lemma_page_number(vaddr.0);
            frames.lemma_free(m);
            table::lemma_map_start(m, free, root, v, ppn, full);
            ways::lemma_built_start(m, free, root, v);
        }
        let mut i: u64 = 0;
        while i < pages
            invariant
                pages as int == moved::pages_in(size),
                vaddr.0 % 4096 == 0 && paddr.0 % 4096 == 0 ==> addr::in_word(
                    vaddr.0,
                    pages as int,
                ) && addr::in_word(paddr.0, pages as int),
                i <= pages,
                i <= 0x800_0000,
                i > 0 ==> vaddr.0 % 4096 == 0 && paddr.0 % 4096 == 0,
                root == self.frame,
                v == addr::page_number(vaddr.0),
                sv39::is_page(v),
                ppn == paddr.0 / 4096,
                full == entry::with_valid(flags.0),
                full % 2 == 1,
                m == old(mem)@,
                free == old(frames).free(),
                free.finite(),
                mem.wf(),
                mem.start() == old(mem).start(),
                mem.end() == old(mem).end(),
                mem@.dom() == m.dom(),
                frames.ready(mem@.dom()),
                frames.recycles() == old(frames).recycles(),
                ways::built(m, free, mem@, frames.free(), root, v, i as int),
                i == 0 ==> mem@ == m && frames.free() == free,
                sv39::tree(mem@, root),
                walk::disjoint_from(mem@, root, frames.free()),
                table::map_state(m, free, mem@, frames.free(), root, v, i as int, ppn, full),
            decreases pages - i,
        {
            let va: VirtAddr = vaddr.plus(i * PAGE_SIZE);
            let pa: PhysAddr = paddr.plus(i * PAGE_SIZE);
            let ghost m1 = mem@;
            let ghost free1 = frames.free();
            proof {
                addr::lemma_page_number_add(vaddr.0, i as int);
                table::lemma_page_after(v, i as int);
                assert((pa.0 / 4096) as int == ppn + i);
                assert(va.0 as int % 4096 == vaddr.0 as int % 4096);
                assert(pa.0 as int % 4096 == paddr.0 as int % 4096);
                frames.lemma_free(m1);
                ways::lemma_built_step(m, free, m1, free1, root, v, i as int);
            }
            let r: Result<(), MapError> = self.map_page(mem, va, pa, flags, frames);
            proof {
                table::lemma_map_step(
                    m,
                    free,
                    m1,
                    free1,
                    mem@,
                    frames.free(),
                    root,
                    v,
                    i as int,
                    ppn,
                    full,
                    r is Ok,
                );
                assert(table::kept_around(m, free, mem@, frames.free(), root, v, pages as int)) by {
                    assert forall|shared: Set<int>| table::clear_of(
                        shared,
                        v,
                        pages as int,
                    ) implies #[trigger] walk::kept(m, free, mem@, frames.free(), root, shared) by {
                        assert(table::clear_of(shared, v, i + 1));
                    }
                }
            }
            match r {
                Ok(_) => {},
                Err(e) => {
                    return Err(e);
                },
            }
            i += 1;
        }
        reveal(table::map_state);
        Ok(())
    }

    /// Clears the entry of the page of `vaddr`; the tables stay.
    pub fn unmap(&self, mem: &mut PhysMem, vaddr: VirtAddr)
        requires
            old(mem).wf(),
            sv39::tree(old(mem)@, self.frame as int),
        ensures
            final(mem).wf(),
            final(mem).start() == old(mem).start(),
            final(mem).end() == old(mem).end(),
            table::page_written(
                old(mem)@,
                final(mem)@,
                self.frame as int,
                addr::page_number(vaddr.0),
                0,
            ),
    {
        (table::PageTable { frame: self.frame }).unmap(mem, vaddr);
    }

    /// Gives back every table of the tree but the root, and clears the entries of the root.
    pub fn destroy_children<A: PageFrameAllocator>(&self, mem: &mut PhysMem, frames: &mut A)
        requires
            old(mem).wf(),
            sv39::tree(old(mem)@, self.frame as int),
            old(frames).ready(old(mem)@.dom()),
            walk::disjoint_from(old(mem)@, self.frame as int, old(frames).free()),
        ensures
            final(mem).wf(),
            final(mem).start() == old(mem).start(),
            final(mem).end() == old(mem).end(),
            final(mem)@.dom() == old(mem)@.dom(),
            final(frames).ready(final(mem)@.dom()),
            final(frames).recycles() == old(frames).recycles(),
            sv39::tree(final(mem)@, self.frame as int),
            walk::disjoint_from(final(mem)@, self.frame as int, final(frames).free()),
            final(frames).free() == prune::released(
                old(frames).free(),
                sv39::tables(old(mem)@, self.frame as int).remove(self.frame as int),
                old(frames).recycles(),
            ),
            phys::same_outside(
                old(mem)@,
                final(mem)@,
                sv39::tables(old(mem)@, self.frame as int),
            ),
            sv39::tables(final(mem)@, self.frame as int) == set![self.frame as int],
            forall|a: int|
                sv39::idx(a) ==> !pte::pte_valid(
                    #[trigger] sv39::entry(final(mem)@, self.frame as int, a),
                ),
    {
        let skip: Vec<u64> = Vec::new();
        assert(table::index_set(skip@) =~= Set::<int>::empty());
        (table::PageTable { frame: self.frame }).clean(mem, &skip, frames);
    }
}

} // verus!
