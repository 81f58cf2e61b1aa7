//! Address spaces over checked page tables.
use vstd::prelude::*;
use crate::memory::addr;
use crate::memory::addr::{PhysAddr, VirtAddr};
use crate::memory::change;
use crate::memory::entry;
use crate::memory::entry::PteFlags;
use crate::memory::graft;
use crate::memory::moved;
use crate::memory::phys;
use crate::memory::phys::{PhysMem, PAGE_SIZE};
use crate::memory::prune;
use crate::memory::space;
use crate::memory::sv39;
use crate::memory::walk;
use crate::mmu::frames::PageFrameAllocator;
use crate::mmu::pte;
use crate::mmu::pte::PageTableEntry;
use crate::mmu::table;
use crate::mmu::table::{MapError, PageTable};

verus! {

/// A Sv39 address space: the address of its root table.
pub struct AddressSpace {
    root: PhysAddr,
}

/// Valid leaf entries keep their page number and get the flags `full`; other entries stay.
pub open spec fn leaf_reflagged(full: u64) -> spec_fn(u64) -> u64 {
    |e: u64|
        if pte::pte_valid(e) && pte::pte_leaf(e) {
            pte::pte_bits(pte::pte_ppn(e) as u64, full)
        } else {
            e
        }
}

/// Setting the flags of leaves twice is setting them once.
proof fn lemma_leaf_reflagged(full: u64)
    ensures
        forall|e: u64| #[trigger]
            leaf_reflagged(full)(leaf_reflagged(full)(e)) == leaf_reflagged(full)(e),
{
    assert forall|e: u64| #[trigger] leaf_reflagged(full)(leaf_reflagged(full)(e))
        == leaf_reflagged(full)(e) by {
        pte::lemma_pte_bits(pte::pte_ppn(e) as u64, full);
    }
}

impl AddressSpace {
    /// Address of the root table.
    pub closed spec fn root(&self) -> int {
        self.root.0 as int
    }

    /// Creates a space without pages.
    pub fn new<A: PageFrameAllocator>(mem: &mut PhysMem, frames: &mut A) -> (r: Result<
        AddressSpace,
        MapError,
    >)
        requires
            old(mem).wf(),
            old(frames).ready(old(mem)@.dom()),
        ensures
            final(mem).wf(),
            final(mem).start() == old(mem).start(),
            final(mem).end() == old(mem).end(),
            final(mem)@.dom() == old(mem)@.dom(),
            final(frames).ready(final(mem)@.dom()),
            final(frames).recycles() == old(frames).recycles(),
            match r {
                Ok(space) => {
                    &&& sv39::tree(final(mem)@, space.root())
                    &&& walk::disjoint_from(final(mem)@, space.root(), final(frames).free())
                    &&& sv39::tables(final(mem)@, space.root()) == set![space.root()]
                    &&& forall|v: int|
                        sv39::is_page(v) ==> #[trigger] sv39::page(final(mem)@, space.root(), v)
                            == 0
                    &&& phys::zeroed(final(mem)@, space.root())
                    &&& old(frames).free().contains(space.root())
                    &&& final(frames).free() == old(frames).free().remove(space.root())
                    &&& phys::same_outside(old(mem)@, final(mem)@, set![space.root()])
                },
                Err(e) => {
                    &&& e == MapError::OutOfMemory
                    &&& old(frames).free() == Set::<int>::empty()
                    &&& final(frames).free() == old(frames).free()
                    &&& final(mem)@ == old(mem)@
                },
            },
    {
        proof {
            frames.lemma_free(mem@);
        }
        match frames.alloc_frame(mem) {
            None => Err(MapError::OutOfMemory),
            Some(root) => {
                proof {
                    let r = root.0 as int;
                    let none = Set::<int>::empty();
                    assert(phys::has_frame(mem@, r));
                    graft::lemma_empty_tree(mem@, r);
                    assert forall|u: int| #[trigger] sv39::is_owned(
                        mem@,
                        r,
                        none,
                        u,
                    ) implies !frames.free().contains(u) by {
                        assert(sv39::owned(mem@, r, none).contains(u));
                    }
                }
                Ok(AddressSpace { root })
            },
        }
    }

    /// Takes over the root entries 256 to 511, the kernel half, of `kernel`.
    pub fn share_kernel_half(&mut self, mem: &mut PhysMem, kernel: &AddressSpace)
        requires
            old(mem).wf(),
            sv39::tree(old(mem)@, old(self).root()),
            sv39::tree(old(mem)@, kernel.root()),
            !sv39::tables(old(mem)@, kernel.root()).contains(old(self).root()),
            sv39::owned(old(mem)@, old(self).root(), space::upper_half()).disjoint(
                sv39::owned(old(mem)@, kernel.root(), graft::others(space::upper_half())),
            ),
        ensures
            final(mem).wf(),
            final(mem).start() == old(mem).start(),
            final(mem).end() == old(mem).end(),
            final(mem)@.dom() == old(mem)@.dom(),
            *final(self) == *old(self),
            sv39::tree(final(mem)@, old(self).root()),
            sv39::tree(final(mem)@, kernel.root()),
            phys::same_outside(old(mem)@, final(mem)@, set![old(self).root()]),
            graft::hung(
                old(mem)@,
                final(mem)@,
                old(self).root(),
                kernel.root(),
                space::upper_half(),
            ),
            forall|v: int|
                sv39::is_page(v) ==> #[trigger] sv39::page(final(mem)@, old(self).root(), v)
                    == sv39::page(
                    old(mem)@,
                    if sv39::i2(v) < 256 {
                        old(self).root()
                    } else {
                        kernel.root()
                    },
                    v,
                ),
            moved::same_pages(old(mem)@, final(mem)@, kernel.root()),
            forall|free: Set<int>|
                #![trigger walk::disjoint_from(old(mem)@, old(self).root(), free)]
                walk::disjoint_from(old(mem)@, old(self).root(), free) && walk::disjoint_from(
                    old(mem)@,
                    kernel.root(),
                    free,
                ) ==> walk::disjoint_from(final(mem)@, old(self).root(), free)
                    && walk::disjoint_from(final(mem)@, kernel.root(), free),
    {
        let src: u64 = kernel.root.as_usize();
        let dst: u64 = self.root.as_usize();
        let ghost m = mem@;
        let ghost root = dst as int;
        let ghost kr = src as int;
        let ghost none = Set::<int>::empty();
        let ghost up = space::upper_half();
        proof {
            assert(sv39::is_owned(m, kr, none, kr));
            assert(sv39::tables(m, kr).contains(kr));
            graft::lemma_owned_frame(m, kr, none, kr);
            assert(sv39::is_owned(m, root, none, root));
            graft::lemma_owned_frame(m, root, none, root);
        }
        let mut i: u64 = 256;
        while i < 512
            invariant
                256 <= i <= 512,
                root == dst,
                kr == src,
                root != kr,
                mem.wf(),
                mem.start() == old(mem).start(),
                mem.end() == old(mem).end(),
                mem@.dom() == m.dom(),
                phys::has_frame(m, root),
                phys::has_frame(m, kr),
                phys::same_outside(m, mem@, set![root]),
                forall|a: int|
                    sv39::idx(a) ==> #[trigger] sv39::entry(mem@, root, a) == sv39::entry(
                        m,
                        if 256 <= a < i {
                            kr
                        } else {
                            root
                        },
                        a,
                    ),
            decreases 512 - i,
        {
            let e: PageTableEntry = walk::read_entry(mem, src, i);
            assert(mem@[kr + 8 * i] == m[kr + 8 * i]);
            let ghost m2 = mem@;
            assert(mem@.contains_key(root + 8 * (i as int)));
            mem.write_word(dst + 8 * i, e.as_u64());
            proof {
                assert(mem@.dom() =~= m.dom());
                let m3 = mem@;
                assert forall|h: int, j: int|
                    #![trigger m3[h + 8 * j]]
                    h % 4096 == 0 && 0 <= j < 512 && (h != root || j != i) implies m3[h + 8 * j]
                    == m2[h + 8 * j] by {
                    if h + 8 * j == root + 8 * i {
                        sv39::lemma_word(h, j, root, i as int);
                    }
                }
                assert forall|h: int, j: int|
                    #![trigger m3[h + 8 * j]]
                    h % 4096 == 0 && 0 <= j < 512 && !set![root].contains(h) implies m3[h + 8 * j]
                    == m[h + 8 * j] by {
                    assert(m2[h + 8 * j] == m[h + 8 * j]);
                }
                assert forall|a: int| sv39::idx(a) && a != i implies #[trigger] sv39::entry(
                    m3,
                    root,
                    a,
                ) == sv39::entry(m2, root, a) by {
                    assert(m3[root + 8 * a] == m2[root + 8 * a]);
                }
            }
            i += 1;
        }
        proof {
            let m2 = mem@;
            assert(graft::hung(m, m2, root, kr, up)) by {
                reveal(graft::hung);
            }
            if sv39::is_owned(m, kr, none, root) {
                assert(sv39::tables(m, kr).contains(root));
            }
            graft::lemma_hung_tree(m, m2, root, kr, up);
            graft::lemma_hung_pages(m, m2, root, kr, up);
            assert forall|t: int| #[trigger] sv39::is_owned(m, kr, none, t) implies !set![
                root,
            ].contains(t) by {}
            sv39::lemma_agree(m, m2, kr, set![root]);
            assert forall|v: int| sv39::is_page(v) implies #[trigger] sv39::page(m2, root, v)
                == sv39::page(
                m,
                if sv39::i2(v) < 256 {
                    root
                } else {
                    kr
                },
                v,
            ) by {
                sv39::lemma_indices(v);
            }
            assert forall|free: Set<int>|
                #![trigger walk::disjoint_from(m, root, free)]
                walk::disjoint_from(m, root, free) && walk::disjoint_from(
                    m,
                    kr,
                    free,
                ) implies walk::disjoint_from(m2, root, free) && walk::disjoint_from(
                m2,
                kr,
                free,
            ) by {
                assert(sv39::owned(m2, kr, none) == sv39::owned(m, kr, none));
                assert forall|t: int| #[trigger] sv39::is_owned(
                    m2,
                    kr,
                    none,
                    t,
                ) implies !free.contains(t) by {
                    assert(sv39::owned(m2, kr, none).contains(t));
                    assert(sv39::owned(m, kr, none).contains(t));
                    assert(sv39::is_owned(m, kr, none, t));
                }
                assert forall|t: int| #[trigger] sv39::is_owned(
                    m2,
                    root,
                    none,
                    t,
                ) implies !free.contains(t) by {
                    graft::lemma_hung_cover(m, m2, root, kr, up, t);
                }
            }
        }
    }

    /// Maps the pages of the `size` bytes from `vaddr` on to the frames from `paddr` on.
    pub fn map<A: PageFrameAllocator>(
        &self,
        mem: &mut PhysMem,
        vaddr: VirtAddr,
        paddr: PhysAddr,
        size: u64,
        flags: PteFlags,
        frames: &mut A,
    ) -> (r: Result<(), MapError>)
        requires
            old(mem).wf(),
            sv39::tree(old(mem)@, self.root()),
            old(frames).ready(old(mem)@.dom()),
            walk::disjoint_from(old(mem)@, self.root(), old(frames).free()),
            vaddr.0 % 4096 == 0 && paddr.0 % 4096 == 0 ==> addr::in_word(
                vaddr.0,
                moved::pages_in(size),
            ) && addr::in_word(paddr.0, moved::pages_in(size)),
        ensures
            final(mem).wf(),
            final(mem).start() == old(mem).start(),
            final(mem).end() == old(mem).end(),
            final(mem)@.dom() == old(mem)@.dom(),
            final(frames).ready(final(mem)@.dom()),
            final(frames).recycles() == old(frames).recycles(),
            final(frames).free().subset_of(old(frames).free()),
            sv39::tree(final(mem)@, self.root()),
            walk::disjoint_from(final(mem)@, self.root(), final(frames).free()),
            table::region_outcome(
                old(mem)@,
                old(frames).free(),
                final(mem)@,
                final(frames).free(),
                self.root(),
                vaddr.0,
                paddr.0,
                size,
                flags.0,
                r,
            ),
    {
        (PageTable { frame: self.root.as_usize() }).map_region(
            mem,
            vaddr,
            paddr,
            size,
            flags,
            frames,
        )
    }

    /// Clears the entries of the pages that the `size` bytes from `vaddr` on touch; the tables stay.
    pub fn unmap(&self, mem: &mut PhysMem, vaddr: VirtAddr, size: u64)
        requires
            old(mem).wf(),
            sv39::tree(old(mem)@, self.root()),
            vaddr.0 + size <= 0x1_0000_0000_0000_0000,
        ensures
            final(mem).wf(),
            final(mem).start() == old(mem).start(),
            final(mem).end() == old(mem).end(),
            sv39::tree(final(mem)@, self.root()),
            change::pages_changed(
                old(mem)@,
                final(mem)@,
                self.root(),
                addr::page_number(vaddr.0),
                addr::pages_over(vaddr.0, size),
                change::cleared(),
            ),
    {
        let ghost m = mem@;
        let ghost root = self.root.0 as int;
        let ghost v = addr::page_number(vaddr.0);
        let ghost to = change::cleared();
        let pages: u64 = addr::count_pages(vaddr.0, size);
        let first: VirtAddr = vaddr.page_start();
        proof {
            addr::lemma_page_number(vaddr.0);
            change::lemma_changed_start(m, root, v, to);
        }
        let mut i: u64 = 0;
        while i < pages
            invariant
                i <= pages,
                pages as int == addr::pages_over(vaddr.0, size),
                vaddr.0 + size <= 0x1_0000_0000_0000_0000,
                m == old(mem)@,
                root == self.root.0,
                v == addr::page_number(first.0),
                first.0 == vaddr.0 - vaddr.0 % 4096,
                sv39::is_page(v),
                to == change::cleared(),
                mem.wf(),
                mem.start() == old(mem).start(),
                mem.end() == old(mem).end(),
                sv39::tree(mem@, root),
                change::pages_changed(m, mem@, root, v, i as int, to),
            decreases pages - i,
        {
            let ghost m1 = mem@;
            proof {
                addr::lemma_pages_over(vaddr.0, size, i as int);
                addr::lemma_page_number_add(first.0, i as int);
            }
            (PageTable { frame: self.root.as_usize() }).unmap(mem, first.plus(i * PAGE_SIZE));
            proof {
                change::lemma_changed_step(m, m1, mem@, root, v, i as int, to);
            }
            i += 1;
        }
    }

    /// Sets the flags of those pages that the `size` bytes from `vaddr` on touch and that are mapped; pages
    /// that are not mapped are passed over.
    #[verifier::spinoff_prover]
    #[verifier::rlimit(40)]
    pub fn protect(&self, mem: &mut PhysMem, vaddr: VirtAddr, size: u64, flags: PteFlags) -> (r:
        Result<(), MapError>)
        requires
            old(mem).wf(),
            sv39::tree(old(mem)@, self.root()),
            vaddr.0 + size <= 0x1_0000_0000_0000_0000,
        ensures
            final(mem).wf(),
            final(mem).start() == old(mem).start(),
            final(mem).end() == old(mem).end(),
            sv39::tree(final(mem)@, self.root()),
            r is Ok,
            change::pages_changed(
                old(mem)@,
                final(mem)@,
                self.root(),
                addr::page_number(vaddr.0),
                addr::pages_over(vaddr.0, size),
                leaf_reflagged(entry::with_valid(flags.0)),
            ),
    {
        let ghost m = mem@;
        let ghost root = self.root.0 as int;
        let ghost v = addr::page_number(vaddr.0);
        let full: PteFlags = flags.valid();
        let ghost to = leaf_reflagged(full.0);
        let pages: u64 = addr::count_pages(vaddr.0, size);
        let first: VirtAddr = vaddr.page_start();
        proof {
            addr::lemma_page_number(vaddr.0);
            change::lemma_changed_start(m, root, v, to);
        }
        let mut i: u64 = 0;
        while i < pages
            invariant
                i <= pages,
                pages as int == addr::pages_over(vaddr.0, size),
                vaddr.0 + size <= 0x1_0000_0000_0000_0000,
                m == old(mem)@,
                root == self.root.0,
                v == addr::page_number(first.0),
                first.0 == vaddr.0 - vaddr.0 % 4096,
                sv39::is_page(v),
                full.0 == entry::with_valid(flags.0),
                to == leaf_reflagged(full.0),
                mem.wf(),
                mem.start() == old(mem).start(),
                mem.end() == old(mem).end(),
                sv39::tree(mem@, root),
                change::pages_changed(m, mem@, root, v, i as int, to),
            decreases pages - i,
        {
            let ghost m1 = mem@;
            let ghost vi = crate::memory::table::page_after(v, i as int);
            proof {
                addr::lemma_pages_over(vaddr.0, size, i as int);
                addr::lemma_page_number_add(first.0, i as int);
                crate::memory::table::lemma_page_after(v, i as int);
                walk::lemma_walkable(m1, root);
            }
            let va: VirtAddr = first.plus(i * PAGE_SIZE);
            let found: Option<u64> = walk::find_slot(mem, self.root.as_usize(), va);
            match found {
                None => {},
                Some(slot) => {
                    let e: PageTableEntry = PageTableEntry { bits: mem.read_word(slot) };
                    if e.is_valid() && e.is_leaf() {
                        mem.write_word(slot, PageTableEntry::new(e.ppn(), full.bits()).as_u64());
                    }
                },
            }
            proof {
                lemma_leaf_step(m, m1, mem@, root, v, i as int, full.0, found);
            }
            i += 1;
        }
        Ok(())
    }

    /// The physical address and the flags of the page of `vaddr`, `None` if it is not mapped.
    pub fn translate(&self, mem: &PhysMem, vaddr: VirtAddr) -> (r: Option<(PhysAddr, PteFlags)>)
        requires
            mem.wf(),
            walk::walkable(mem@, self.root()),
        ensures
            match crate::memory::table::translation(
                mem@,
                self.root(),
                addr::page_number(vaddr.0),
            ) {
                Some((pa, flags)) => r matches Some((p, f)) && p.0 == pa && f.0 == flags,
                None => r is None,
            },
    {
        (PageTable { frame: self.root.as_usize() }).walk(mem, vaddr)
    }

    /// The page number of the root table.
    pub fn root_ppn(&self) -> (r: u64)
        ensures
            r == self.root() / 4096,
    {
        self.root.as_usize() / PAGE_SIZE
    }

    /// Gives back every table of the space, the root table last.
    pub fn destroy<A: PageFrameAllocator>(self, mem: &mut PhysMem, frames: &mut A)
        requires
            old(mem).wf(),
            sv39::tree(old(mem)@, self.root()),
            old(frames).ready(old(mem)@.dom()),
            walk::disjoint_from(old(mem)@, self.root(), old(frames).free()),
        ensures
            final(mem).wf(),
            final(mem).start() == old(mem).start(),
            final(mem).end() == old(mem).end(),
            final(mem)@.dom() == old(mem)@.dom(),
            final(frames).ready(final(mem)@.dom()),
            final(frames).recycles() == old(frames).recycles(),
            final(frames).free() == prune::released(
                old(frames).free(),
                sv39::tables(old(mem)@, self.root()),
                old(frames).recycles(),
            ),
            phys::same_outside(old(mem)@, final(mem)@, sv39::tables(old(mem)@, self.root())),
    {
        let ghost root = self.root.0 as int;
        let ghost none = Set::<int>::empty();
        let ghost o = sv39::tables(mem@, root);
        let ghost free = frames.free();
        (PageTable { frame: self.root.as_usize() }).destroy_children(mem, frames);
        proof {
            assert(sv39::is_owned(mem@, root, none, root));
            graft::lemma_owned_frame(mem@, root, none, root);
            assert(sv39::tables(old(mem)@, root).contains(root));
            assert(free.union(o.remove(root)).insert(root) =~= free.union(o));
        }
        frames.free_frame(mem, self.root);
    }
}

/// One more page was looked at, and its flags set if it is mapped.
proof fn lemma_leaf_step(
    m: Map<int, u64>,
    m1: Map<int, u64>,
    m2: Map<int, u64>,
    root: int,
    v: int,
    k: int,
    full: u64,
    found: Option<u64>,
)
    requires
        sv39::is_page(v),
        0 <= k,
        sv39::tree(m1, root),
        change::pages_changed(m, m1, root, v, k, leaf_reflagged(full)),
        ({
            let vk = crate::memory::table::page_after(v, k);
            let e = sv39::page(m1, root, vk);
            &&& found is Some <==> sv39::path(m1, root, vk)
            &&& m2 == (if found is Some && pte::pte_valid(e) && pte::pte_leaf(e) {
                m1.insert(
                    sv39::leaf_slot(m1, root, vk),
                    pte::pte_bits(pte::pte_ppn(e) as u64, full),
                )
            } else {
                m1
            })
        }),
    ensures
        change::pages_changed(m, m2, root, v, k + 1, leaf_reflagged(full)),
        sv39::tree(m2, root),
{
    let vk = crate::memory::table::page_after(v, k);
    let e = sv39::page(m1, root, vk);
    crate::memory::table::lemma_page_after(v, k);
    lemma_leaf_reflagged(full);
    let to = leaf_reflagged(full);
    if found is Some && pte::pte_valid(e) && pte::pte_leaf(e) {
        crate::memory::table::lemma_page_written(m1, root, vk, to(e));
    } else {
        assert(to(e) == e);
        assert(crate::memory::table::page_written(m1, m1, root, vk, e)) by {
            assert forall|free: Set<int>, shared: Set<int>| true implies #[trigger] walk::kept(
                m1,
                free,
                m1,
                free,
                root,
                shared,
            ) by {
                walk::lemma_kept_refl(m1, free, root, shared);
            }
        }
    }
    change::lemma_changed_step(m, m1, m2, root, v, k, to);
}

} // verus!
