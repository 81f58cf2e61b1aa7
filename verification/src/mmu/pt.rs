//! Sv39 page tables with unchecked mapping: a page that is mapped already is mapped anew.
use vstd::prelude::*;
use crate::memory::addr;
use crate::memory::addr::VirtAddr;
use crate::memory::graft;
use crate::memory::moved;
use crate::memory::phys;
use crate::memory::phys::{PhysMem, PAGE_SIZE};
use crate::memory::sv39;
use crate::memory::table;
use crate::memory::walk;
use crate::memory::ways;
use crate::mmu::frames::PageFrameAllocator;
use crate::mmu::pte;
use crate::mmu::pte::PageTableEntry;

verus! {

/// A page table: the frame of 512 entries at `frame`.
#[derive(Clone, Copy, PartialEq, Eq, Structural)]
pub struct PageTable {
    pub frame: u64,
}

/// The nine-bit table index of `vaddr` at `level`: bits 38:30 for 2, 29:21 for 1, 20:12 for 0.
pub fn vpn(level: u64, vaddr: u64) -> (r: u64)
    requires
        level <= 2,
    ensures
        r == addr::vpn_index(vaddr, level as int),
        r < 512,
{
    VirtAddr::from_raw(vaddr).vpn(level)
}

/// The pages from page `v` on were mapped in order, `k` of them; a page that came up more than once
/// has its last mapping.
pub open spec fn mapped_over(
    m: Map<int, u64>,
    m2: Map<int, u64>,
    root: int,
    v: int,
    k: int,
    ppn: int,
    flags: u64,
) -> bool {
    forall|w: int|
        #![trigger sv39::page(m2, root, w)]
        sv39::is_page(w) ==> sv39::page(m2, root, w) == (if table::pages_between(v, w) < k {
            pte::pte_bits((ppn + last_turn(table::pages_between(v, w), k)) as u64, flags)
        } else {
            sv39::page(m, root, w)
        })
}

/// The last number below `k` that leaves the remainder `d` modulo the number of pages.
pub open spec fn last_turn(d: int, k: int) -> int {
    d + 0x800_0000 * ((k - 1 - d) / 0x800_0000)
}

/// `flags` with the valid bit set.
fn with_v(flags: u64) -> (r: u64)
    ensures
        r == flags | 1,
        r % 2 == 1,
{
    assert((flags | 1) % 2 == 1) by (bit_vector);
    flags | PageTableEntry::V
}

impl PageTable {
    /// Makes the frame at `frame` a table without entries.
    pub fn new(mem: &mut PhysMem, frame: u64) -> (t: PageTable)
        requires
            old(mem).wf(),
            phys::has_frame(old(mem)@, frame as int),
        ensures
            final(mem).wf(),
            final(mem).start() == old(mem).start(),
            final(mem).end() == old(mem).end(),
            t.frame == frame,
            phys::zeroed(final(mem)@, frame as int),
            phys::same_outside(old(mem)@, final(mem)@, set![frame as int]),
            sv39::tree(final(mem)@, frame as int),
            forall|v: int|
                sv39::is_page(v) ==> #[trigger] sv39::page(final(mem)@, frame as int, v) == 0,
    {
        mem.zero_frame(frame);
        proof {
            assert(phys::has_frame(mem@, frame as int));
            graft::lemma_empty_tree(mem@, frame as int);
        }
        PageTable { frame }
    }

    /// The entry of the page of `vaddr`; `None` if a table on the way is missing.
    pub fn walk(&self, mem: &PhysMem, vaddr: u64) -> (r: Option<PageTableEntry>)
        requires
            mem.wf(),
            walk::walkable(mem@, self.frame as int),
        ensures
            r is Some <==> sv39::path(mem@, self.frame as int, addr::page_number(vaddr)),
            r matches Some(e) ==> e.bits == sv39::page(
                mem@,
                self.frame as int,
                addr::page_number(vaddr),
            ),
    {
        match walk::find_slot(mem, self.frame, VirtAddr::from_raw(vaddr)) {
            None => None,
            Some(slot) => Some(PageTableEntry { bits: mem.read_word(slot) }),
        }
    }

    /// Maps the page of `vaddr` to the frame of `paddr`, whatever it was mapped to before.
    pub fn map_page<A: PageFrameAllocator>(
        &self,
        mem: &mut PhysMem,
        vaddr: u64,
        paddr: u64,
        flags: u64,
        frames: &mut A,
    )
        requires
            old(mem).wf(),
            sv39::tree(old(mem)@, self.frame as int),
            old(frames).ready(old(mem)@.dom()),
            walk::disjoint_from(old(mem)@, self.frame as int, old(frames).free()),
            walk::missing(old(mem)@, self.frame as int, addr::page_number(vaddr)) <= old(
                frames,
            ).free().len(),
        ensures
            final(mem).wf(),
            final(mem).start() == old(mem).start(),
            final(mem).end() == old(mem).end(),
            final(mem)@.dom() == old(mem)@.dom(),
            final(frames).ready(final(mem)@.dom()),
            final(frames).recycles() == old(frames).recycles(),
            final(frames).free().subset_of(old(frames).free()),
            final(frames).free().len() + walk::missing(
                old(mem)@,
                self.frame as int,
                addr::page_number(vaddr),
            ) == old(frames).free().len(),
            ways::grew(
                old(mem)@,
                final(mem)@,
                self.frame as int,
                ways::way(addr::page_number(vaddr)),
            ),
            sv39::tree(final(mem)@, self.frame as int),
            walk::disjoint_from(final(mem)@, self.frame as int, final(frames).free()),
            forall|w: int|
                #![trigger sv39::page(final(mem)@, self.frame as int, w)]
                sv39::is_page(w) ==> sv39::page(final(mem)@, self.frame as int, w) == (if w
                    == addr::page_number(vaddr) {
                    pte::pte_bits((paddr / 4096) as u64, flags | 1)
                } else {
                    sv39::page(old(mem)@, self.frame as int, w)
                }),
    {
        let ghost root = self.frame as int;
        let ghost v = addr::page_number(vaddr);
        let ghost m = mem@;
        let ghost free = frames.free();
        let ppn: u64 = paddr / PAGE_SIZE;
        let e: PageTableEntry = PageTableEntry::new(ppn, with_v(flags));
        proof {
            addr::lemma_page_number(vaddr);
        }
        match walk::ensure_slot(mem, frames, self.frame, VirtAddr::from_raw(vaddr)) {
            None => {},
            Some(slot) => {
                let ghost m1 = mem@;
                proof {
                    walk::lemma_write_leaf(m1, frames.free(), root, v, e.bits);
                }
                mem.write_word(slot, e.as_u64());
                proof {
                    let m2 = mem@;
                    walk::lemma_leaf_keeps_tables(m, m1, m2, root, ways::way(v));
                    assert forall|w: int|
                        #![trigger sv39::page(m2, root, w)]
                        sv39::is_page(w) implies sv39::page(m2, root, w) == (if w == v {
                        e.bits
                    } else {
                        sv39::page(m, root, w)
                    }) by {
                        assert(sv39::page(m1, root, w) == sv39::page(m, root, w));
                    }
                }
            },
        }
    }

    /// Maps the pages of the `size` bytes from `vaddr` on to the frames from `paddr` on.
    #[verifier::spinoff_prover]
    #[verifier::rlimit(40)]
    pub fn map_region<A: PageFrameAllocator>(
        &self,
        mem: &mut PhysMem,
        vaddr: u64,
        paddr: u64,
        size: u64,
        flags: u64,
        frames: &mut A,
    )
        requires
            old(mem).wf(),
            sv39::tree(old(mem)@, self.frame as int),
            old(frames).ready(old(mem)@.dom()),
            walk::disjoint_from(old(mem)@, self.frame as int, old(frames).free()),
            addr::in_word(vaddr, moved::pages_in(size)),
            addr::in_word(paddr, moved::pages_in(size)),
            ways::lacking(
                old(mem)@,
                self.frame as int,
                ways::ways(addr::page_number(vaddr), moved::pages_in(size)),
            ).len() <= old(frames).free().len(),
        ensures
            final(mem).wf(),
            final(mem).start() == old(mem).start(),
            final(mem).end() == old(mem).end(),
            final(mem)@.dom() == old(mem)@.dom(),
            final(frames).ready(final(mem)@.dom()),
            final(frames).recycles() == old(frames).recycles(),
            final(frames).free().subset_of(old(frames).free()),
            sv39::tree(final(mem)@, self.frame as int),
            walk::disjoint_from(final(mem)@, self.frame as int, final(frames).free()),
            ways::built(
                old(mem)@,
                old(frames).free(),
                final(mem)@,
                final(frames).free(),
                self.frame as int,
                addr::page_number(vaddr),
                moved::pages_in(size),
            ),
            mapped_over(
                old(mem)@,
                final(mem)@,
                self.frame as int,
                addr::page_number(vaddr),
                moved::pages_in(size),
                paddr as int / 4096,
                flags | 1,
            ),
    {
        let pages: u64 = if size % PAGE_SIZE == 0 {
            size / PAGE_SIZE
        } else {
            size / PAGE_SIZE + 1
        };
        let ghost m = mem@;
        let ghost free = frames.free();
        let ghost root = self.frame as int;
        let ghost v = addr::page_number(vaddr);
        let ghost ppn = paddr as int / 4096;
        let ghost full = flags | 1;
        proof {
            addr::lemma_page_number(vaddr);
            ways::lemma_built_start(m, free, root, v);
            ways::lemma_ways(v, pages as int);
        }
        let mut i: u64 = 0;
        while i < pages
            invariant
                i <= pages,
                pages as int == moved::pages_in(size),
                addr::in_word(vaddr, pages as int),
                addr::in_word(paddr, pages as int),
                m == old(mem)@,
                root == self.frame,
                v == addr::page_number(vaddr),
                sv39::is_page(v),
                ppn == paddr as int / 4096,
                full == flags | 1,
                mem.wf(),
                mem.start() == old(mem).start(),
                mem.end() == old(mem).end(),
                mem@.dom() == m.dom(),
                frames.ready(mem@.dom()),
                frames.recycles() == old(frames).recycles(),
                frames.free().subset_of(old(frames).free()),
                free == old(frames).free(),
                ways::built(m, free, mem@, frames.free(), root, v, i as int),
                ways::ways(v, pages as int).finite(),
                ways::lacking(m, root, ways::ways(v, pages as int)).len() <= free.len(),
                sv39::tree(mem@, root),
                walk::disjoint_from(mem@, root, frames.free()),
                mapped_over(m, mem@, root, v, i as int, ppn, full),
            decreases pages - i,
        {
            let ghost m1 = mem@;
            proof {
                addr::lemma_page_number_add(vaddr, i as int);
                assert((paddr + i * 4096) / 4096 == ppn + i);
                ways::lemma_built_step(m, free, m1, frames.free(), root, v, i as int);
                ways::lemma_ways_less(v, i + 1, pages as int);
                ways::lemma_lacking_less(m, root, ways::ways(v, i + 1), ways::ways(v, pages as int));
            }
            self.map_page(mem, vaddr + i * PAGE_SIZE, paddr + i * PAGE_SIZE, flags, frames);
            proof {
                lemma_mapped_over_step(m, m1, mem@, root, v, i as int, ppn, full);
            }
            i += 1;
        }
    }

    /// Clears the entry of the page of `vaddr`; the tables stay.
    pub fn unmap(&self, mem: &mut PhysMem, vaddr: u64)
        requires
            old(mem).wf(),
            sv39::tree(old(mem)@, self.frame as int),
        ensures
            final(mem).wf(),
            final(mem).start() == old(mem).start(),
            final(mem).end() == old(mem).end(),
            table::page_written(
                old(mem)@,
                final(mem)@,
                self.frame as int,
                addr::page_number(vaddr),
                0,
            ),
    {
        (table::PageTable { frame: self.frame }).unmap(mem, VirtAddr::from_raw(vaddr));
    }
}

/// One more page was mapped.
proof fn lemma_mapped_over_step(
    m: Map<int, u64>,
    m1: Map<int, u64>,
    m2: Map<int, u64>,
    root: int,
    v: int,
    k: int,
    ppn: int,
    full: u64,
)
    requires
        sv39::is_page(v),
        0 <= k,
        mapped_over(m, m1, root, v, k, ppn, full),
        forall|w: int|
            #![trigger sv39::page(m2, root, w)]
            sv39::is_page(w) ==> sv39::page(m2, root, w) == (if w == table::page_after(v, k) {
                pte::pte_bits((ppn + k) as u64, full)
            } else {
                sv39::page(m1, root, w)
            }),
    ensures
        mapped_over(m, m2, root, v, k + 1, ppn, full),
{
    assert forall|w: int|
        #![trigger sv39::page(m2, root, w)]
        sv39::is_page(w) implies sv39::page(m2, root, w) == (if table::pages_between(v, w) < k
        + 1 {
        pte::pte_bits((ppn + last_turn(table::pages_between(v, w), k + 1)) as u64, full)
    } else {
        sv39::page(m, root, w)
    }) by {
        let d = table::pages_between(v, w);
        let p1 = sv39::page(m1, root, w);
        if w == table::page_after(v, k) {
            assert(d == k % 0x800_0000);
            assert(last_turn(d, k + 1) == k);
        } else {
            assert(d != k % 0x800_0000);
            if d < k {
                assert((k - d) / 0x800_0000 == (k - 1 - d) / 0x800_0000);
            }
        }
    }
}

} // verus!
