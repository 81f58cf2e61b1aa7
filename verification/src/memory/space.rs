//! Address spaces: a page-table tree, the registered regions, and the root entries whose tables
//! belong to the kernel.
use vstd::prelude::*;
use crate::memory::addr;
use crate::memory::addr::{PhysAddr, VirtAddr};
use crate::memory::bring;
use crate::memory::change;
use crate::memory::entry;
use crate::memory::entry::PteFlags;
use crate::memory::graft;
use crate::memory::moved;
use crate::memory::phys;
use crate::memory::phys::{PhysMem, PAGE_SIZE};
use crate::memory::prune;
use crate::memory::region;
use crate::memory::region::{Region, RegionKind};
use crate::memory::sv39;
use crate::memory::table;
use crate::memory::table::{MapError, PageTable};
use crate::memory::walk;
use crate::memory::ways;
use crate::mmu::frames::PageFrameAllocator;
use crate::mmu::pte;
use crate::mmu::pte::PageTableEntry;

verus! {

/// A Sv39 address space.
///
/// The tables under the root entries of `shared_l2` belong to the kernel space that the space was
/// cloned from; all other tables belong to the space itself.
pub struct AddressSpace {
    root: u64,
    regions: Vec<Region>,
    shared_l2: Vec<u64>,
}

/// The list without the index `x`.
fn without_index(list: &Vec<u64>, x: u64) -> (r: Vec<u64>)
    ensures
        table::index_set(r@) == table::index_set(list@).remove(x as int),
        list@.no_duplicates() ==> r@.no_duplicates(),
        r@.len() <= list@.len(),
        forall|i: int| 0 <= i < r@.len() ==> list@.contains(#[trigger] r@[i]),
{
    let mut r: Vec<u64> = Vec::new();
    let mut k: usize = 0;
    while k < list.len()
        invariant
            k <= list@.len(),
            r@.len() <= k,
            forall|i: int| 0 <= i < r@.len() ==> #[trigger] r@[i] != x && list@.contains(r@[i]),
            forall|i: int|
                0 <= i < k && list@[i] != x ==> r@.contains(#[trigger] list@[i]),
            list@.no_duplicates() ==> r@.no_duplicates(),
            list@.no_duplicates() ==> forall|i: int, j: int|
                #![trigger r@[i], list@[j]]
                0 <= i < r@.len() && k <= j < list@.len() ==> r@[i] != list@[j],
        decreases list@.len() - k,
    {
        let v: u64 = list[k];
        let ghost r0 = r@;
        if v != x {
            r.push(v);
            assert(r@[r0.len() as int] == v);
            assert forall|i: int| 0 <= i < k && list@[i] != x implies r@.contains(
                #[trigger] list@[i],
            ) by {
                let j = choose|j: int| 0 <= j < r0.len() && r0[j] == list@[i];
                assert(r@[j] == list@[i]);
            }
        }
        k += 1;
    }
    proof {
        let s = table::index_set(list@);
        let t = table::index_set(r@);
        assert forall|a: int| #[trigger] t.contains(a) == s.remove(x as int).contains(a) by {
            if t.contains(a) {
                let i = choose|i: int| 0 <= i < r@.len() && r@[i] == a as u64;
                assert(list@.contains(r@[i]));
            }
            if s.remove(x as int).contains(a) {
                let i = choose|i: int| 0 <= i < list@.len() && list@[i] == a as u64;
                assert(r@.contains(list@[i]));
            }
        }
        assert(t =~= s.remove(x as int));
        if list@.contains(x) {
            let i = choose|i: int| 0 <= i < list@.len() && list@[i] == x;
            assert(list@[i] == x);
        }
    }
    r
}

/// Copies the table that entry `i` of the table at `t` points to, and points the entry to the copy.
/// `false`, without a change, if no frame is left.
#[verifier::spinoff_prover]
#[verifier::rlimit(40)]
fn copy_child<A: PageFrameAllocator>(mem: &mut PhysMem, frames: &mut A, t: u64, i: u64) -> (r: bool)
    requires
        old(mem).wf(),
        old(frames).ready(old(mem)@.dom()),
        phys::has_frame(old(mem)@, t as int),
        i < 512,
        sv39::branch(old(mem)@, t as int, i as int),
        phys::has_frame(old(mem)@, sv39::child(old(mem)@, t as int, i as int)),
        sv39::child(old(mem)@, t as int, i as int) != t,
        !old(frames).free().contains(t as int),
        !old(frames).free().contains(sv39::child(old(mem)@, t as int, i as int)),
    ensures
        final(mem).wf(),
        final(mem).start() == old(mem).start(),
        final(mem).end() == old(mem).end(),
        final(mem)@.dom() == old(mem)@.dom(),
        final(frames).ready(final(mem)@.dom()),
        final(frames).recycles() == old(frames).recycles(),
        ({
            let g = sv39::child(final(mem)@, t as int, i as int);
            if r {
                &&& old(frames).free().contains(g)
                &&& final(frames).free() == old(frames).free().remove(g)
                &&& phys::same_outside(old(mem)@, final(mem)@, set![t as int, g])
                &&& sv39::branch(final(mem)@, t as int, i as int)
                &&& forall|b: int|
                    sv39::idx(b) && b != i ==> #[trigger] sv39::entry(final(mem)@, t as int, b)
                        == sv39::entry(old(mem)@, t as int, b)
                &&& forall|c: int|
                    sv39::idx(c) ==> #[trigger] sv39::entry(final(mem)@, g, c) == sv39::entry(
                        old(mem)@,
                        sv39::child(old(mem)@, t as int, i as int),
                        c,
                    )
            } else {
                &&& old(frames).free() == Set::<int>::empty()
                &&& final(frames).free() == old(frames).free()
                &&& final(mem)@ == old(mem)@
            }
        }),
{
    let ghost m1 = mem@;
    let ghost f = t as int;
    proof {
        frames.lemma_free(m1);
    }
    let e: PageTableEntry = walk::read_entry(mem, t, i);
    let src: u64 = e.paddr();
    let dst: u64 = match PageTable::allocate(mem, frames) {
        Err(_) => {
            return false;
        },
        Ok(table) => table.frame,
    };
    let ghost g = dst as int;
    let ghost ma = mem@;
    assert(phys::has_frame(ma, g));
    assert(phys::has_frame(ma, src as int));
    mem.copy_frame(src, dst);
    let ghost mb = mem@;
    let e2: PageTableEntry = PageTableEntry::new(dst / PAGE_SIZE, e.flags());
    assert(mem@.contains_key(f + 8 * (i as int)));
    mem.write_word(t + 8 * i, e2.as_u64());
    proof {
        let m2 = mem@;
        let fl = pte::pte_flags(e.bits) as u64;
        pte::lemma_pte_bits((g / 4096) as u64, fl);
        assert(e2.bits == pte::pte_bits((g / 4096) as u64, fl));
        assert(sv39::entry(m2, f, i as int) == e2.bits);
        assert(sv39::child(m2, f, i as int) == g);
        assert(m2.dom() =~= m1.dom());
        assert forall|h: int, k: int|
            #![trigger m2[h + 8 * k]]
            h % 4096 == 0 && 0 <= k < 512 && (h != f || k != i) implies m2[h + 8 * k] == mb[h + 8
            * k] by {
            if h + 8 * k == f + 8 * i {
                sv39::lemma_word(h, k, f, i as int);
            }
        }
        assert forall|c: int| sv39::idx(c) implies #[trigger] sv39::entry(m2, g, c) == sv39::entry(
            m1,
            src as int,
            c,
        ) by {
            assert(m2[g + 8 * c] == mb[g + 8 * c]);
            assert(mb[g + 8 * c] == ma[src + 8 * c]);
            assert(ma[src + 8 * c] == m1[src + 8 * c]);
        }
        assert forall|b: int| sv39::idx(b) && b != i implies #[trigger] sv39::entry(m2, f, b)
            == sv39::entry(m1, f, b) by {
            assert(m2[f + 8 * b] == mb[f + 8 * b]);
            assert(mb[f + 8 * b] == ma[f + 8 * b]);
            assert(ma[f + 8 * b] == m1[f + 8 * b]);
        }
        assert forall|h: int, k: int|
            #![trigger m2[h + 8 * k]]
            h % 4096 == 0 && 0 <= k < 512 && !set![f, g].contains(h) implies m2[h + 8 * k] == m1[h
            + 8 * k] by {
            assert(m2[h + 8 * k] == mb[h + 8 * k]);
            assert(mb[h + 8 * k] == ma[h + 8 * k]);
            assert(ma[h + 8 * k] == m1[h + 8 * k]);
        }
    }
    true
}

/// The copies for one page more: those of the kernel tables under its root entry, unless they were
/// made before or the entry is not shared.
proof fn lemma_copied_step(
    m: Map<int, u64>,
    m1: Map<int, u64>,
    root: int,
    shared: Set<int>,
    v: int,
    k: int,
)
    requires
        0 <= k,
        ways::grew(m, m1, root, Set::empty()),
    ensures
        ({
            let a = sv39::i2(table::page_after(v, k));
            let s = shared.intersect(moved::reached(v, k));
            let t = shared.intersect(moved::reached(v, k + 1));
            &&& ways::under(m1, root, set![a]) == ways::under(m, root, set![a])
            &&& ways::under(m, root, t).len() == ways::under(m, root, s).len() + (
            if shared.difference(moved::reached(v, k)).contains(a) {
                ways::under(m, root, set![a]).len()
            } else {
                0
            })
        }),
{
    let a = sv39::i2(table::page_after(v, k));
    let s = shared.intersect(moved::reached(v, k));
    let t = shared.intersect(moved::reached(v, k + 1));
    moved::lemma_reached_step(v, k);
    ways::lemma_under_same(m, m1, root, Set::empty(), set![a]);
    if shared.difference(moved::reached(v, k)).contains(a) {
        assert(t =~= s.union(set![a]));
        assert(s.disjoint(set![a]));
        ways::lemma_under_union(m, root, s, set![a]);
    } else {
        assert(t =~= s);
    }
}

/// The copies for more pages are more.
proof fn lemma_copied_rest(
    m: Map<int, u64>,
    root: int,
    shared: Set<int>,
    v: int,
    k: int,
    n: int,
)
    requires
        0 <= k < n,
    ensures
        ways::under(m, root, shared.intersect(moved::reached(v, k))).len() <= ways::under(
            m,
            root,
            shared.intersect(moved::reached(v, k + 1)),
        ).len() <= ways::under(m, root, shared.intersect(moved::reached(v, n))).len(),
    decreases n - k,
{
    ways::lemma_grew_refl(m, root);
    lemma_copied_step(m, m, root, shared, v, k);
    if k + 1 < n {
        lemma_copied_rest(m, root, shared, v, k + 1, n);
    }
}

/// The copies for the page after `k` pages, seen from the memory after those pages were mapped.
proof fn lemma_copied_fault(
    m: Map<int, u64>,
    m1: Map<int, u64>,
    root: int,
    shared: Set<int>,
    v: int,
    k: int,
)
    requires
        sv39::is_page(v),
        0 <= k,
        ways::grew(m, m1, root, ways::ways(v, k)),
    ensures
        moved::reached(table::page_after(v, k), 1) == set![sv39::i2(table::page_after(v, k))],
        ways::under(m, root, shared.intersect(moved::reached(v, k + 1))).len() == ways::under(
            m,
            root,
            shared.intersect(moved::reached(v, k)),
        ).len() + ways::under(
            m1,
            root,
            shared.difference(moved::reached(v, k)).intersect(
                moved::reached(table::page_after(v, k), 1),
            ),
        ).len(),
{
    let w = table::page_after(v, k);
    let a = sv39::i2(w);
    let left = shared.difference(moved::reached(v, k));
    let t = left.intersect(moved::reached(w, 1));
    table::lemma_page_after(v, k);
    ways::lemma_grew_refl(m, root);
    lemma_copied_step(m, m, root, shared, v, k);
    moved::lemma_reached_step(w, 0);
    assert(table::page_after(w, 0) == w);
    assert(moved::reached(w, 0) =~= Set::<int>::empty());
    assert(moved::reached(w, 1) =~= set![a]);
    assert forall|p: (int, int)| #[trigger] ways::ways(v, k).contains(p) implies !t.contains(p.0) by {
        let j = choose|j: int|
            0 <= j < k && #[trigger] ways::way(table::page_after(v, j)).contains(p);
        assert(sv39::i2(table::page_after(v, j)) == p.0);
        assert(moved::reached(v, k).contains(p.0));
    }
    ways::lemma_under_same(m, m1, root, ways::ways(v, k), t);
    if left.contains(a) {
        assert(t =~= set![a]);
    } else {
        assert(t =~= Set::<int>::empty());
        assert(ways::under(m, root, t) =~= Set::<(int, int)>::empty());
    }
}

/// Writing frames that hold no table leaves the tables.
proof fn lemma_tables_stay(m: Map<int, u64>, m2: Map<int, u64>, root: int, written: Set<int>)
    requires
        sv39::tree(m, root),
        phys::same_outside(m, m2, written),
        walk::disjoint_from(m, root, written),
    ensures
        ways::grew(m, m2, root, Set::empty()),
{
    let none = Set::<(int, int)>::empty();
    sv39::lemma_agree(m, m2, root, written);
    assert forall|w: int| sv39::is_page(w) implies #[trigger] sv39::path(m2, root, w) == sv39::path(
        m,
        root,
        w,
    ) by {
        assert(sv39::page(m2, root, w) == sv39::page(m, root, w));
    }
    ways::lemma_grew_refl(m, root);
    walk::lemma_leaf_keeps_tables(m, m, m2, root, none);
}

impl AddressSpace {
    /// Address of the root table.
    pub closed spec fn root(&self) -> int {
        self.root as int
    }

    /// The root indices whose tables belong to the kernel.
    pub closed spec fn shared(&self) -> Set<int> {
        table::index_set(self.shared_l2@)
    }

    /// The registered regions, ordered by start.
    pub closed spec fn regions(&self) -> Seq<Region> {
        self.regions@
    }

    /// The space is sound in memory `m`: its tables form a tree, none of them is free, and every
    /// shared root index has a table.
    pub closed spec fn wf(&self, m: Map<int, u64>, free: Set<int>) -> bool {
        &&& sv39::tree(m, self.root as int)
        &&& walk::disjoint_from(m, self.root as int, free)
        &&& self.shared_l2@.no_duplicates()
        &&& forall|i: int|
            0 <= i < self.shared_l2@.len() ==> #[trigger] self.shared_l2@[i] < 512
        &&& forall|a: int|
            #[trigger] table::index_set(self.shared_l2@).contains(a) ==> sv39::has_l1(
                m,
                self.root as int,
                a,
            )
        &&& region::regions_wf(self.regions@)
    }

    /// What being sound means.
    pub proof fn lemma_wf(&self, m: Map<int, u64>, free: Set<int>)
        requires
            self.wf(m, free),
        ensures
            sv39::tree(m, self.root()),
            walk::disjoint_from(m, self.root(), free),
            walk::walkable(m, self.root()),
            forall|a: int| #[trigger]
                self.shared().contains(a) ==> sv39::idx(a) && sv39::has_l1(m, self.root(), a),
            region::regions_wf(self.regions()),
    {
        walk::lemma_walkable(m, self.root as int);
        assert forall|a: int| #[trigger] self.shared().contains(a) implies sv39::idx(a)
            && sv39::has_l1(m, self.root(), a) by {
            let i = choose|i: int| 0 <= i < self.shared_l2@.len() && self.shared_l2@[i] == a as u64;
            assert(self.shared_l2@[i] < 512);
        }
    }

    /// A space stays sound if its tree does and no root entry changed.
    proof fn lemma_same_tree(
        &self,
        m: Map<int, u64>,
        free: Set<int>,
        m2: Map<int, u64>,
        free2: Set<int>,
    )
        requires
            self.wf(m, free),
            sv39::tree(m2, self.root()),
            walk::disjoint_from(m2, self.root(), free2),
            forall|a: int|
                sv39::idx(a) && self.shared().contains(a) ==> #[trigger] sv39::entry(
                    m2,
                    self.root(),
                    a,
                ) == sv39::entry(m, self.root(), a),
        ensures
            self.wf(m2, free2),
    {
        self.lemma_wf(m, free);
        assert forall|a: int| #[trigger] table::index_set(self.shared_l2@).contains(
            a,
        ) implies sv39::has_l1(m2, self.root as int, a) by {
            assert(self.shared().contains(a));
            assert(sv39::entry(m2, self.root(), a) == sv39::entry(m, self.root(), a));
        }
    }

    /// A space is not affected by changes of memory outside its tables.
    pub proof fn lemma_unaffected(
        &self,
        m: Map<int, u64>,
        free: Set<int>,
        m2: Map<int, u64>,
        free2: Set<int>,
        touched: Set<int>,
    )
        requires
            self.wf(m, free),
            phys::same_outside(m, m2, touched),
            sv39::tables(m, self.root()).disjoint(touched),
            sv39::tables(m, self.root()).disjoint(free2),
        ensures
            self.wf(m2, free2),
            moved::same_pages(m, m2, self.root()),
            sv39::tables(m2, self.root()) == sv39::tables(m, self.root()),
            sv39::owned(m2, self.root(), self.shared()) == sv39::owned(
                m,
                self.root(),
                self.shared(),
            ),
    {
        self.lemma_wf(m, free);
        let none = Set::<int>::empty();
        assert forall|t: int| #[trigger]
            sv39::is_owned(m, self.root(), none, t) implies !touched.contains(t) && !free2.contains(
            t,
        ) by {
            assert(sv39::tables(m, self.root()).contains(t));
        }
        sv39::lemma_agree(m, m2, self.root(), touched);
        assert forall|t: int| #[trigger] sv39::is_owned(m2, self.root(), none, t) implies
            !free2.contains(t) by {
            assert(sv39::owned(m2, self.root(), none).contains(t));
        }
        self.lemma_same_tree(m, free, m2, free2);
    }

    /// Creates a space without pages and regions.
    pub fn new<A: PageFrameAllocator>(mem: &mut PhysMem, frames: &mut A) -> (r: Result<
        AddressSpace,
        MapError,
    >)
        requires
            old(mem).wf(),
            old(frames).ready(old(mem)@.dom()),
        ensures
            final(mem).wf(),
            final(mem).start() == old(mem).start(),
            final(mem).end() == old(mem).end(),
            final(mem)@.dom() == old(mem)@.dom(),
            final(frames).ready(final(mem)@.dom()),
            final(frames).recycles() == old(frames).recycles(),
            match r {
                Ok(space) => {
                    &&& space.wf(final(mem)@, final(frames).free())
                    &&& space.shared() == Set::<int>::empty()
                    &&& space.regions() == Seq::<Region>::empty()
                    &&& forall|v: int|
                        sv39::is_page(v) ==> #[trigger] sv39::page(final(mem)@, space.root(), v)
                            == 0
                    &&& sv39::owned(final(mem)@, space.root(), space.shared()) == set![space.root()]
                    &&& old(frames).free().contains(space.root())
                    &&& final(frames).free() == old(frames).free().remove(space.root())
                    &&& phys::same_outside(old(mem)@, final(mem)@, set![space.root()])
                    &&& phys::zeroed(final(mem)@, space.root())
                },
                Err(e) => {
                    &&& e == MapError::OutOfMemory
                    &&& old(frames).free() == Set::<int>::empty()
                    &&& final(frames).free() == old(frames).free()
                    &&& final(mem)@ == old(mem)@
                },
            },
    {
        proof {
            frames.lemma_free(mem@);
        }
        match PageTable::allocate(mem, frames) {
            Err(e) => Err(e),
            Ok(t) => {
                let space: AddressSpace = AddressSpace {
                    root: t.frame,
                    regions: Vec::new(),
                    shared_l2: Vec::new(),
                };
                proof {
                    let r = t.frame as int;
                    assert(phys::has_frame(mem@, r));
                    graft::lemma_empty_tree(mem@, r);
                    let none = Set::<int>::empty();
                    assert(space.shared() =~= none);
                    assert forall|u: int| #[trigger] sv39::is_owned(
                        mem@,
                        r,
                        none,
                        u,
                    ) implies !frames.free().contains(u) by {
                        assert(sv39::owned(mem@, r, none).contains(u));
                    }
                }
                Ok(space)
            },
        }
    }

    /// The physical address and the flags of the page of `vaddr`, `None` if it is not mapped.
    pub fn translate(&self, mem: &PhysMem, vaddr: VirtAddr) -> (r: Option<(PhysAddr, PteFlags)>)
        requires
            mem.wf(),
            walk::walkable(mem@, self.root()),
        ensures
            match table::translation(mem@, self.root(), addr::page_number(vaddr.0)) {
                Some((pa, flags)) => r matches Some((p, f)) && p.0 == pa && f.0 == flags,
                None => r is None,
            },
    {
        match (PageTable { frame: self.root }).walk_ref(mem, vaddr) {
            Ok(x) => Some(x),
            Err(_) => None,
        }
    }

    /// The page number of the root table.
    pub fn root_page(&self) -> (r: u64)
        ensures
            r == self.root() / 4096,
    {
        self.root / PAGE_SIZE
    }

    /// Replaces the kernel's tables under root entry `l2_idx` by copies that the space owns.
    ///
    /// If the frames run out the space stays as it was; the frames that were taken are lost.
    #[verifier::spinoff_prover]
    #[verifier::rlimit(40)]
    fn cow_l2<A: PageFrameAllocator>(
        &mut self,
        mem: &mut PhysMem,
        l2_idx: u64,
        frames: &mut A,
    ) -> (r: Result<(), MapError>)
        requires
            old(mem).wf(),
            old(frames).ready(old(mem)@.dom()),
            old(self).wf(old(mem)@, old(frames).free()),
            old(self).shared().contains(l2_idx as int),
        ensures
            final(mem).wf(),
            final(mem).start() == old(mem).start(),
            final(mem).end() == old(mem).end(),
            final(frames).ready(final(mem)@.dom()),
            final(frames).recycles() == old(frames).recycles(),
            final(self).wf(final(mem)@, final(frames).free()),
            final(self).root() == old(self).root(),
            final(self).regions() == old(self).regions(),
            moved::same_pages(old(mem)@, final(mem)@, old(self).root()),
            ways::grew(old(mem)@, final(mem)@, old(self).root(), Set::empty()),
            moved::moved(
                old(mem)@,
                old(frames).free(),
                final(mem)@,
                final(frames).free(),
                old(self).root(),
                old(self).shared(),
                final(self).shared(),
            ),
            match r {
                Ok(_) => {
                    &&& final(self).shared() == old(self).shared().remove(l2_idx as int)
                    &&& old(frames).free().len() == final(frames).free().len() + ways::under(
                        old(mem)@,
                        old(self).root(),
                        set![l2_idx as int],
                    ).len()
                    &&& sv39::owned(final(mem)@, old(self).root(), final(self).shared())
                        == sv39::owned(old(mem)@, old(self).root(), old(self).shared()).union(
                        old(frames).free().difference(final(frames).free()),
                    )
                },
                Err(e) => {
                    &&& e == MapError::OutOfMemory
                    &&& *final(self) == *old(self)
                    &&& final(frames).free() == Set::<int>::empty()
                    &&& old(frames).free().len() < ways::under(
                        old(mem)@,
                        old(self).root(),
                        set![l2_idx as int],
                    ).len()
                },
            },
    {
        let ghost m = mem@;
        let ghost free = frames.free();
        let ghost root = self.root as int;
        let ghost a = l2_idx as int;
        let ghost none = Set::<int>::empty();
        let ghost none_at = Set::<(int, int)>::empty();
        let ghost shared = self.shared();
        proof {
            self.lemma_wf(m, free);
            frames.lemma_free(m);
            graft::lemma_owns_l1(m, root, none, a);
            graft::lemma_owned_frame(m, root, none, sv39::l1(m, root, a));
            moved::lemma_moved_refl(m, free, root, shared);
            assert(sv39::is_owned(m, root, none, root));
            ways::lemma_under_first(m, root, a, 0);
        }
        let root_entry: PageTableEntry = walk::read_entry(mem, self.root, l2_idx);
        let src_l1: u64 = root_entry.paddr();
        let ghost s = src_l1 as int;
        let new_l1: u64 = match PageTable::allocate(mem, frames) {
            Err(e) => {
                return Err(e);
            },
            Ok(t) => t.frame,
        };
        let ghost f = new_l1 as int;
        let ghost mut used = set![f];
        assert(phys::has_frame(m, f));
        assert(s != f);
        let ghost ma = mem@;
        mem.copy_frame(src_l1, new_l1);
        proof {
            let mb = mem@;
            assert forall|b: int| sv39::idx(b) implies #[trigger] sv39::entry(mb, f, b)
                == sv39::entry(m, s, b) by {
                assert(mb[f + 8 * b] == ma[s + 8 * b]);
                assert(ma[s + 8 * b] == m[s + 8 * b]);
            }
            assert forall|g: int, i: int|
                #![trigger mb[g + 8 * i]]
                g % 4096 == 0 && 0 <= i < 512 && !used.contains(g) implies mb[g + 8 * i] == m[g + 8
                * i] by {
                assert(mb[g + 8 * i] == ma[g + 8 * i]);
                assert(ma[g + 8 * i] == m[g + 8 * i]);
            }
            assert(graft::copied(m, s, mb, f, used, 0));
            assert(free.difference(frames.free()) =~= used);
        }
        let mut i: u64 = 0;
        while i < 512
            invariant
                i <= 512,
                m == old(mem)@,
                free == old(frames).free(),
                root == self.root,
                a == l2_idx,
                sv39::idx(a),
                none == Set::<int>::empty(),
                none_at == Set::<(int, int)>::empty(),
                shared == self.shared(),
                *self == *old(self),
                self.wf(m, free),
                sv39::tree(m, root),
                sv39::has_l1(m, root, a),
                s == sv39::l1(m, root, a),
                s == src_l1,
                f == new_l1,
                walk::disjoint_from(m, root, free),
                free.finite(),
                mem.wf(),
                mem.start() == old(mem).start(),
                mem.end() == old(mem).end(),
                mem@.dom() == m.dom(),
                frames.ready(mem@.dom()),
                frames.recycles() == old(frames).recycles(),
                frames.free().subset_of(free),
                used == free.difference(frames.free()),
                used.finite(),
                used.len() == ways::under_first(m, root, a, i as int).len(),
                free.len() == frames.free().len() + used.len(),
                used.contains(f),
                forall|u: int| #[trigger] used.contains(u) ==> phys::has_frame(m, u),
                forall|u: int| #[trigger] free.contains(u) ==> phys::has_frame(m, u),
                phys::same_outside(m, mem@, used),
                graft::copied(m, s, mem@, f, used, i as int),
            decreases 512 - i,
        {
            let ghost m1 = mem@;
            assert(phys::has_frame(m, f));
            let e: PageTableEntry = walk::read_entry(mem, new_l1, i);
            assert(e.bits == sv39::entry(m, s, i as int));
            proof {
                ways::lemma_under_first(m, root, a, i as int);
            }
            if e.is_valid() && !e.is_leaf() {
                let ghost free1 = frames.free();
                proof {
                    assert(sv39::branch(m, s, i as int));
                    assert(sv39::has_l0(m, root, a, i as int));
                    graft::lemma_owns_l0(m, root, none, a, i as int);
                    graft::lemma_owned_frame(m, root, none, sv39::child(m, s, i as int));
                    assert(!free.contains(sv39::child(m, s, i as int)));
                    frames.lemma_free(m1);
                }
                if !copy_child(mem, frames, new_l1, i) {
                    proof {
                        moved::lemma_leaked(m, free, m1, frames.free(), root, shared);
                        lemma_tables_stay(m, m1, root, used);
                        reveal(moved::moved);
                        self.lemma_same_tree(m, free, m1, frames.free());
                    }
                    return Err(MapError::OutOfMemory);
                }
                proof {
                    let m2 = mem@;
                    let g = sv39::child(m2, f, i as int);
                    let t0 = sv39::child(m, s, i as int);
                    assert(phys::has_frame(m, g));
                    assert forall|c: int| sv39::idx(c) implies #[trigger] sv39::entry(m2, g, c)
                        == sv39::entry(m, t0, c) by {
                        assert(sv39::entry(m2, g, c) == sv39::entry(m1, t0, c));
                        assert(m1[t0 + 8 * c] == m[t0 + 8 * c]);
                    }
                    graft::lemma_copied_step(m, s, m1, f, used, i as int, m2, g);
                    let used2 = used.insert(g);
                    assert(free.difference(frames.free()) =~= used2);
                    assert forall|h: int, k: int|
                        #![trigger m2[h + 8 * k]]
                        h % 4096 == 0 && 0 <= k < 512 && !used2.contains(h) implies m2[h + 8 * k]
                        == m[h + 8 * k] by {
                        assert(m2[h + 8 * k] == m1[h + 8 * k]);
                        assert(m1[h + 8 * k] == m[h + 8 * k]);
                    }
                    used = used2;
                }
            } else {
                proof {
                    graft::lemma_copied_skip(m, s, m1, f, used, i as int);
                }
            }
            i += 1;
        }
        let ghost m1 = mem@;
        assert(mem@.contains_key(root + 8 * a)) by {
            reveal(sv39::tree);
        }
        assert(sv39::entry(m1, root, a) == sv39::entry(m, root, a)) by {
            reveal(sv39::tree);
            assert(sv39::is_owned(m, root, none, root));
            assert(m1[root + 8 * a] == m[root + 8 * a]);
        }
        assert(phys::has_frame(m1, root)) by {
            reveal(sv39::tree);
        }
        let flags: u64 = walk::read_entry(mem, self.root, l2_idx).flags();
        proof {
            graft::lemma_swap(m, m1, root, a, f, used, flags);
        }
        mem.write_word(
            self.root + 8 * l2_idx,
            PageTableEntry::new(new_l1 / PAGE_SIZE, flags).as_u64(),
        );
        self.shared_l2 = without_index(&self.shared_l2, l2_idx);
        proof {
            let m2 = mem@;
            let free2 = frames.free();
            let shared2 = self.shared();
            assert(m2 == m1.insert(root + 8 * a, pte::pte_bits((f / 4096) as u64, flags)));
            graft::lemma_swap_tree(m, m2, root, a, f, used);
            graft::lemma_swap_pages(m, m2, root, a, f, used);
            assert(ways::grew(m, m2, root, none_at)) by {
                reveal(graft::swapped);
                assert forall|b: int| sv39::idx(b) implies #[trigger] sv39::has_l1(m2, root, b)
                    == sv39::has_l1(m, root, b) by {
                    if b != a {
                        assert(sv39::entry(m2, root, b) == sv39::entry(m, root, b));
                    }
                }
                ways::lemma_grew(m, m2, root, none_at);
            }
            graft::lemma_swap_owned(m, m2, root, a, f, used, shared);
            moved::lemma_swap_moved(m, free, m2, free2, root, a, f, used, shared);
            assert forall|b: int| #[trigger] table::index_set(self.shared_l2@).contains(
                b,
            ) implies sv39::has_l1(m2, root, b) by {
                reveal(graft::swapped);
                assert(old(self).shared().contains(b));
                old(self).lemma_wf(m, free);
                assert(sv39::entry(m2, root, b) == sv39::entry(m, root, b));
            }
            assert forall|k: int| 0 <= k < self.shared_l2@.len() implies #[trigger] self.shared_l2@[k]
                < 512 by {
                assert(old(self).shared_l2@.contains(self.shared_l2@[k]));
            }
            reveal(moved::moved);
        }
        Ok(())
    }

    /// Creates a space that shares the tables of the kernel space, if there is one.
    #[verifier::spinoff_prover]
    #[verifier::rlimit(40)]
    pub fn from_kernel<A: PageFrameAllocator>(
        mem: &mut PhysMem,
        kernel: Option<&AddressSpace>,
        frames: &mut A,
    ) -> (r: Result<AddressSpace, MapError>)
        requires
            old(mem).wf(),
            old(frames).ready(old(mem)@.dom()),
            kernel matches Some(k) ==> k.wf(old(mem)@, old(frames).free()),
        ensures
            final(mem).wf(),
            final(mem).start() == old(mem).start(),
            final(mem).end() == old(mem).end(),
            final(mem)@.dom() == old(mem)@.dom(),
            final(frames).ready(final(mem)@.dom()),
            final(frames).recycles() == old(frames).recycles(),
            match r {
                Ok(space) => {
                    &&& space.wf(final(mem)@, final(frames).free())
                    &&& space.regions() == Seq::<Region>::empty()
                    &&& old(frames).free().contains(space.root())
                    &&& final(frames).free() == old(frames).free().remove(space.root())
                    &&& phys::same_outside(old(mem)@, final(mem)@, set![space.root()])
                    &&& sv39::owned(final(mem)@, space.root(), space.shared()) == set![space.root()]
                    &&& match kernel {
                        Some(k) => {
                            &&& k.wf(final(mem)@, final(frames).free())
                            &&& moved::same_pages(old(mem)@, final(mem)@, k.root())
                            &&& moved::clone_of(final(mem)@, space.root(), space.shared(), k.root())
                            &&& sv39::tables(final(mem)@, space.root()).subset_of(
                                sv39::tables(old(mem)@, k.root()).insert(space.root()),
                            )
                            &&& forall|a: int| #[trigger]
                                space.shared().contains(a) <==> sv39::idx(a) && pte::pte_valid(
                                    sv39::entry(old(mem)@, k.root(), a),
                                )
                            &&& forall|v: int|
                                sv39::is_page(v) ==> #[trigger] sv39::page(
                                    final(mem)@,
                                    space.root(),
                                    v,
                                ) == sv39::page(old(mem)@, k.root(), v)
                        },
                        None => {
                            &&& space.shared() == Set::<int>::empty()
                            &&& forall|v: int|
                                sv39::is_page(v) ==> #[trigger] sv39::page(
                                    final(mem)@,
                                    space.root(),
                                    v,
                                ) == 0
                        },
                    }
                },
                Err(e) => {
                    &&& e == MapError::OutOfMemory
                    &&& old(frames).free() == Set::<int>::empty()
                    &&& final(frames).free() == old(frames).free()
                    &&& final(mem)@ == old(mem)@
                },
            },
    {
        let ghost m = mem@;
        let ghost free = frames.free();
        proof {
            frames.lemma_free(m);
        }
        let mut space: AddressSpace = match AddressSpace::new(mem, frames) {
            Err(e) => {
                return Err(e);
            },
            Ok(s) => s,
        };
        let k: &AddressSpace = match kernel {
            None => {
                return Ok(space);
            },
            Some(k) => k,
        };
        let ghost m1 = mem@;
        let ghost none = Set::<int>::empty();
        let ghost root = space.root as int;
        let ghost kr = k.root as int;
        proof {
            k.lemma_wf(m, free);
            moved::lemma_leaked(m, free, m1, frames.free(), kr, k.shared());
            reveal(moved::moved);
            reveal(sv39::tree);
            graft::lemma_empty_tree(m1, root);
            assert(sv39::owned(m1, kr, none) == sv39::owned(m, kr, none)) by {
                sv39::lemma_agree(m, m1, kr, set![root]);
            }
            if sv39::is_owned(m1, kr, none, root) {
                assert(sv39::owned(m1, kr, none).contains(root));
                assert(sv39::is_owned(m, kr, none, root));
            }
        }
        let src: u64 = k.root;
        let dst: u64 = space.root;
        let mut shared: Vec<u64> = Vec::new();
        let mut i: u64 = 0;
        while i < 512
            invariant
                i <= 512,
                root == dst,
                kr == src,
                root != kr,
                mem.wf(),
                mem.start() == old(mem).start(),
                mem.end() == old(mem).end(),
                mem@.dom() == m1.dom(),
                phys::has_frame(m1, root),
                phys::has_frame(m1, kr),
                phys::same_outside(m1, mem@, set![root]),
                forall|a: int|
                    sv39::idx(a) ==> #[trigger] sv39::entry(mem@, root, a) == (if a < i
                        && pte::pte_valid(sv39::entry(m1, kr, a)) {
                        sv39::entry(m1, kr, a)
                    } else {
                        0
                    }),
                forall|j: int| 0 <= j < shared@.len() ==> #[trigger] shared@[j] < i,
                shared@.no_duplicates(),
                forall|a: int| #[trigger]
                    table::index_set(shared@).contains(a) <==> 0 <= a < i && pte::pte_valid(
                        sv39::entry(m1, kr, a),
                    ),
            decreases 512 - i,
        {
            let e: PageTableEntry = walk::read_entry(mem, src, i);
            assert(mem@[kr + 8 * i] == m1[kr + 8 * i]);
            let ghost m2 = mem@;
            let ghost sh = shared@;
            if e.is_valid() {
                assert(mem@.contains_key(root + 8 * (i as int)));
                mem.write_word(dst + 8 * i, e.as_u64());
                shared.push(i);
                proof {
                    assert(mem@.dom() =~= m1.dom());
                    let m3 = mem@;
                    assert forall|h: int, j: int|
                        #![trigger m3[h + 8 * j]]
                        h % 4096 == 0 && 0 <= j < 512 && (h != root || j != i) implies m3[h + 8 * j]
                        == m2[h + 8 * j] by {
                        if h + 8 * j == root + 8 * i {
                            sv39::lemma_word(h, j, root, i as int);
                        }
                    }
                    assert forall|h: int, j: int|
                        #![trigger m3[h + 8 * j]]
                        h % 4096 == 0 && 0 <= j < 512 && !set![root].contains(h) implies m3[h + 8
                        * j] == m1[h + 8 * j] by {
                        assert(m2[h + 8 * j] == m1[h + 8 * j]);
                    }
                    assert forall|a: int| sv39::idx(a) && a != i implies #[trigger] sv39::entry(
                        m3,
                        root,
                        a,
                    ) == sv39::entry(m2, root, a) by {
                        assert(m3[root + 8 * a] == m2[root + 8 * a]);
                    }
                    lemma_pushed_new(sh, i);
                }
            }
            i += 1;
        }
        space.shared_l2 = shared;
        proof {
            let m2 = mem@;
            let all = Set::new(|a: int| sv39::idx(a));
            let sh = space.shared();
            assert(graft::hung(m1, m2, root, kr, all)) by {
                reveal(graft::hung);
            }
            assert(sv39::owned(m1, root, all) == set![root]);
            assert forall|t: int| sv39::owned(m1, root, all).contains(t) implies !sv39::owned(
                m1,
                kr,
                graft::others(all),
            ).contains(t) by {
                if sv39::is_owned(m1, kr, graft::others(all), t) {
                    graft::lemma_owned_frame(m1, kr, graft::others(all), t);
                }
            }
            graft::lemma_hung_tree(m1, m2, root, kr, all);
            graft::lemma_hung_pages(m1, m2, root, kr, all);
            graft::lemma_hung_owned(m1, m2, root, kr, all, sh);
            assert(sv39::owned(m1, root, sh.union(all)) == set![root]);
            assert forall|t: int| #[trigger] sv39::is_owned(m1, kr, none, t) implies !set![
                root,
            ].contains(t) by {}
            sv39::lemma_agree(m1, m2, kr, set![root]);
            assert(sv39::owned(m2, kr, none) == sv39::owned(m1, kr, none));
            assert forall|t: int| sv39::tables(m2, root).contains(t) implies sv39::tables(
                m,
                kr,
            ).insert(root).contains(t) by {
                assert(sv39::is_owned(m2, root, none, t));
                graft::lemma_hung_cover(m1, m2, root, kr, all, t);
                if sv39::is_owned(m1, root, none, t) {
                    assert(sv39::owned(m1, root, none).contains(t));
                } else {
                    assert(sv39::owned(m1, kr, none).contains(t));
                }
            }
            assert forall|t: int| #[trigger] sv39::is_owned(m2, root, none, t) implies !frames.free().contains(
                t,
            ) by {
                graft::lemma_hung_cover(m1, m2, root, kr, all, t);
                if sv39::is_owned(m1, root, none, t) {
                    assert(sv39::owned(m1, root, none).contains(t));
                }
            }
            assert forall|t: int| #[trigger] sv39::is_owned(m2, kr, none, t) implies !frames.free().contains(
                t,
            ) by {
                assert(sv39::owned(m2, kr, none).contains(t));
                assert(sv39::owned(m1, kr, none).contains(t));
                assert(sv39::is_owned(m1, kr, none, t));
            }
            k.lemma_same_tree(m, free, m2, frames.free());
            assert forall|v: int| sv39::is_page(v) implies #[trigger] sv39::page(m2, root, v)
                == sv39::page(m, kr, v) && sv39::page(m2, kr, v) == sv39::page(m, kr, v) by {
                sv39::lemma_indices(v);
                assert(all.contains(sv39::i2(v)));
                assert(sv39::page(m1, kr, v) == sv39::page(m, kr, v));
            }
            assert forall|a: int| #[trigger] table::index_set(space.shared_l2@).contains(
                a,
            ) implies sv39::has_l1(m2, root, a) by {
                assert(sv39::entry(m2, root, a) == sv39::entry(m1, kr, a));
                assert(pte::pte_valid(sv39::entry(m1, kr, a)));
                reveal(sv39::tree);
            }
            assert(moved::separate(m2, root, sh, kr)) by {
                assert forall|t: int| sv39::owned(m2, root, sh).contains(t) implies !sv39::tables(
                    m2,
                    kr,
                ).contains(t) by {}
            }
            assert forall|a: int| sv39::idx(a) implies #[trigger] sv39::entry(m1, kr, a)
                == sv39::entry(m, kr, a) by {}
            assert forall|a: int| #[trigger] sh.contains(a) implies sv39::idx(a) && sv39::entry(
                m2,
                root,
                a,
            ) == sv39::entry(m2, kr, a) by {
                assert(sv39::entry(m2, kr, a) == sv39::entry(m1, kr, a));
            }
        }
        Ok(space)
    }

    /// Maps the `size` bytes from `vaddr` on to the `size` bytes from `paddr` on.
    ///
    /// Kernel tables on the way to the pages are replaced by copies first.
    #[verifier::spinoff_prover]
    #[verifier::rlimit(40)]
    pub fn map<A: PageFrameAllocator>(
        &mut self,
        mem: &mut PhysMem,
        vaddr: VirtAddr,
        paddr: PhysAddr,
        size: u64,
        flags: PteFlags,
        frames: &mut A,
    ) -> (r: Result<(), MapError>)
        requires
            old(mem).wf(),
            old(frames).ready(old(mem)@.dom()),
            old(self).wf(old(mem)@, old(frames).free()),
            addr::in_word(vaddr.0, moved::pages_in(size)),
            vaddr.0 % 4096 == 0 && paddr.0 % 4096 == 0 && size % 4096 == 0 ==> paddr.0 + size
                <= 0x1_0000_0000_0000_0000,
        ensures
            final(mem).wf(),
            final(mem).start() == old(mem).start(),
            final(mem).end() == old(mem).end(),
            final(mem)@.dom() == old(mem)@.dom(),
            final(frames).ready(final(mem)@.dom()),
            final(frames).recycles() == old(frames).recycles(),
            final(self).wf(final(mem)@, final(frames).free()),
            final(self).root() == old(self).root(),
            final(self).regions() == old(self).regions(),
            moved::moved(
                old(mem)@,
                old(frames).free(),
                final(mem)@,
                final(frames).free(),
                old(self).root(),
                old(self).shared(),
                final(self).shared(),
            ),
            r != Err::<(), MapError>(MapError::OutOfMemory) ==> final(self).shared() == old(
                self,
            ).shared().difference(moved::reached(addr::page_number(vaddr.0), moved::pages_in(size))),
            r != Err::<(), MapError>(MapError::OutOfMemory) || old(self).shared() == Set::<
                int,
            >::empty() ==> sv39::owned(final(mem)@, old(self).root(), final(self).shared()) == sv39::owned(old(mem)@, old(self).root(), old(self).shared()).union(
                old(frames).free().difference(final(frames).free()),
            ),
            ({
                let m = old(mem)@;
                let free = old(frames).free();
                let root = old(self).root();
                let v = addr::page_number(vaddr.0);
                let pages = moved::pages_in(size);
                let aligned = vaddr.0 % 4096 == 0 && paddr.0 % 4096 == 0 && size % 4096 == 0;
                let lacking = ways::lacking(m, root, ways::ways(v, pages)).len();
                let copied = ways::under(
                    m,
                    root,
                    old(self).shared().intersect(moved::reached(v, pages)),
                ).len();
                &&& r is Ok ==> ways::grew(m, final(mem)@, root, ways::ways(v, pages))
                &&& r is Ok ==> free.len() == final(frames).free().len() + copied + lacking
                &&& r == Err::<(), MapError>(MapError::OutOfMemory) ==> free.len() < copied + (
                if aligned {
                    lacking
                } else {
                    0
                })
            }),
            moved::map_outcome(
                old(mem)@,
                final(mem)@,
                final(frames).free(),
                old(self).root(),
                vaddr.0,
                paddr.0,
                size,
                flags.0,
                r,
            ),
    {
        let ghost m = mem@;
        let ghost free = frames.free();
        let ghost root = self.root as int;
        let ghost v = addr::page_number(vaddr.0);
        let ghost shared = self.shared();
        let ghost full = entry::with_valid(flags.0);
        let ghost ppn = paddr.0 as int / 4096;
        let pages: u64 = if size % PAGE_SIZE == 0 {
            size / PAGE_SIZE
        } else {
            size / PAGE_SIZE + 1
        };
        proof {
            assert(pages as int == moved::pages_in(size));
            self.lemma_wf(m, free);
            frames.lemma_free(m);
            moved::lemma_moved_refl(m, free, root, shared);
            addr::lemma_page_number(vaddr.0);
            assert(shared.difference(moved::reached(v, 0)) =~= shared);
            let o = sv39::owned(m, root, shared);
            assert(o.union(free.difference(free)) =~= o);
            ways::lemma_grew_refl(m, root);
            assert(ways::under(m, root, shared.intersect(moved::reached(v, 0))) =~= Set::<
                (int, int),
            >::empty());
        }
        let ghost none_at = Set::<(int, int)>::empty();
        let mut i: u64 = 0;
        while i < pages
            invariant
                i <= pages,
                pages as int == moved::pages_in(size),
                addr::in_word(vaddr.0, pages as int),
                m == old(mem)@,
                free == old(frames).free(),
                free.finite(),
                root == old(self).root(),
                v == addr::page_number(vaddr.0),
                sv39::is_page(v),
                full == entry::with_valid(flags.0),
                ppn == paddr.0 as int / 4096,
                shared == old(self).shared(),
                mem.wf(),
                mem.start() == old(mem).start(),
                mem.end() == old(mem).end(),
                mem@.dom() == m.dom(),
                frames.ready(mem@.dom()),
                frames.recycles() == old(frames).recycles(),
                self.wf(mem@, frames.free()),
                self.root() == root,
                self.regions() == old(self).regions(),
                moved::moved(m, free, mem@, frames.free(), root, shared, self.shared()),
                moved::same_pages(m, mem@, root),
                none_at == Set::<(int, int)>::empty(),
                ways::grew(m, mem@, root, none_at),
                self.shared() == shared.difference(moved::reached(v, i as int)),
                sv39::owned(mem@, root, self.shared()) == sv39::owned(m, root, shared).union(
                    free.difference(frames.free()),
                ),
                free.len() == frames.free().len() + ways::under(
                    m,
                    root,
                    shared.intersect(moved::reached(v, i as int)),
                ).len(),
            decreases pages - i,
        {
            let l2_idx: u64 = vaddr.plus(i * PAGE_SIZE).vpn(2);
            proof {
                addr::lemma_page_number_add(vaddr.0, i as int);
                addr::lemma_page_number((vaddr.0 + i * 4096) as u64);
                assert(l2_idx as int == sv39::i2(table::page_after(v, i as int)));
            }
            let ghost m1 = mem@;
            let ghost free1 = frames.free();
            let ghost sh1 = self.shared();
            proof {
                lemma_copied_step(m, m1, root, shared, v, i as int);
            }
            if table::lists_index(&self.shared_l2, l2_idx) {
                match self.cow_l2(mem, l2_idx, frames) {
                    Err(e) => {
                        proof {
                            moved::lemma_moved_trans(
                                m,
                                free,
                                m1,
                                free1,
                                mem@,
                                frames.free(),
                                root,
                                shared,
                                sh1,
                                self.shared(),
                            );
                            moved::lemma_dom(m, free, mem@, frames.free(), root, shared, self.shared());
                            moved::lemma_same_pages_trans(m, m1, mem@, root);
                            moved::lemma_not_mapped_yet(m, mem@, root, v, ppn, full);
                            lemma_copied_rest(m, root, shared, v, i as int, pages as int);
                        }
                        return Err(e);
                    },
                    Ok(_) => {},
                }
                proof {
                    moved::lemma_moved_trans(
                        m,
                        free,
                        m1,
                        free1,
                        mem@,
                        frames.free(),
                        root,
                        shared,
                        sh1,
                        self.shared(),
                    );
                    moved::lemma_dom(m, free, mem@, frames.free(), root, shared, self.shared());
                    moved::lemma_same_pages_trans(m, m1, mem@, root);
                    ways::lemma_grew_trans(m, m1, mem@, root, none_at, none_at);
                    assert(none_at.union(none_at) =~= none_at);
                    let o = sv39::owned(m, root, shared);
                    assert(free1.subset_of(free) && frames.free().subset_of(free1)) by {
                        reveal(moved::moved);
                    }
                    assert(o.union(free.difference(free1)).union(
                        free1.difference(frames.free()),
                    ) =~= o.union(free.difference(frames.free())));
                }
            }
            proof {
                moved::lemma_reached_step(v, i as int);
                assert(self.shared() =~= shared.difference(moved::reached(v, i + 1)));
            }
            i += 1;
        }
        let ghost m1 = mem@;
        let ghost free1 = frames.free();
        let ghost sh1 = self.shared();
        proof {
            self.lemma_wf(m1, free1);
            frames.lemma_free(m1);
        }
        let r: Result<(), MapError> = (PageTable { frame: self.root }).map(
            mem,
            vaddr,
            paddr,
            size,
            flags,
            frames,
        );
        proof {
            let m2 = mem@;
            let free2 = frames.free();
            let none = Set::<int>::empty();
            if vaddr.0 as int % 4096 != 0 || paddr.0 as int % 4096 != 0 || size as int % 4096 != 0 {
                moved::lemma_moved_refl(m1, free1, root, sh1);
                assert(free1.difference(free1) =~= none);
                moved::lemma_not_mapped_yet(m, m2, root, v, ppn, full);
            } else {
                assert(table::clear_of(sh1, v, pages as int)) by {
                    assert forall|j: int| 0 <= j < pages implies !sh1.contains(
                        #[trigger] sv39::i2(table::page_after(v, j)),
                    ) by {
                        assert(moved::reached(v, pages as int).contains(
                            sv39::i2(table::page_after(v, j)),
                        ));
                    }
                }
                assert(walk::kept(m1, free1, m2, free2, root, sh1));
                moved::lemma_moved_kept(m1, free1, m2, free2, root, sh1);
                let places = ways::ways(v, pages as int);
                ways::lemma_ways(v, pages as int);
                ways::lemma_lacking_same(m, m1, root, places);
                if r is Ok {
                    ways::lemma_grew_trans(m, m1, m2, root, none_at, places);
                    assert(none_at.union(places) =~= places);
                }
                if r == Err::<(), MapError>(MapError::OutOfMemory) {
                    let k = choose|k: int|
                        0 <= k < pages && #[trigger] table::map_stopped(
                            m1,
                            m2,
                            root,
                            v,
                            k,
                            ppn,
                            full,
                        ) && ways::short(m1, free1, root, v, k) && !sv39::path(
                            m2,
                            root,
                            table::page_after(v, k),
                        );
                    ways::lemma_ways_less(v, k + 1, pages as int);
                    ways::lemma_lacking_less(m1, root, ways::ways(v, k + 1), places);
                }
                moved::lemma_map_outcome(m, m1, free1, m2, free2, root, vaddr.0, paddr.0, size, flags.0, r);
            }
            assert(free1.subset_of(free) && free2.subset_of(free1)) by {
                reveal(moved::moved);
            }
            let o = sv39::owned(m, root, shared);
            assert(o.union(free.difference(free1)).union(free1.difference(free2)) =~= o.union(
                free.difference(free2),
            ));
            moved::lemma_moved_trans(m, free, m1, free1, m2, free2, root, shared, sh1, sh1);
            assert(forall|a: int|
                sv39::idx(a) && sh1.contains(a) ==> #[trigger] sv39::entry(m2, root, a)
                    == sv39::entry(m1, root, a)) by {
                reveal(moved::moved);
            }
            self.lemma_same_tree(m1, free1, m2, free2);
        }
        r
    }

    /// Clears the entries of the pages that the `size` bytes from `vaddr` on touch, and drops every
    /// region that meets them. The tables stay.
    #[verifier::spinoff_prover]
    #[verifier::rlimit(40)]
    pub fn unmap(&mut self, mem: &mut PhysMem, vaddr: VirtAddr, size: u64)
        requires
            old(mem).wf(),
            old(self).wf(old(mem)@, Set::empty()),
            vaddr.0 + size <= u64::MAX,
        ensures
            final(mem).wf(),
            final(mem).start() == old(mem).start(),
            final(mem).end() == old(mem).end(),
            final(mem)@.dom() == old(mem)@.dom(),
            final(self).root() == old(self).root(),
            final(self).shared() == old(self).shared(),
            final(self).regions() == region::clear_of_range(
                old(self).regions(),
                vaddr.0 as int,
                vaddr.0 + size,
            ),
            change::pages_changed(
                old(mem)@,
                final(mem)@,
                old(self).root(),
                addr::page_number(vaddr.0),
                addr::pages_over(vaddr.0, size),
                change::cleared(),
            ),
            forall|free: Set<int>| #[trigger]
                old(self).wf(old(mem)@, free) ==> final(self).wf(final(mem)@, free),
    {
        let ghost m = mem@;
        let ghost root = self.root as int;
        let ghost v = addr::page_number(vaddr.0);
        let ghost to = change::cleared();
        let start: u64 = vaddr.as_usize();
        let end: u64 = start + size;
        let pages: u64 = addr::count_pages(vaddr.0, size);
        let first: VirtAddr = vaddr.page_start();
        proof {
            self.lemma_wf(m, Set::empty());
            addr::lemma_page_number(vaddr.0);
            change::lemma_changed_start(m, root, v, to);
        }
        let mut i: u64 = 0;
        while i < pages
            invariant
                i <= pages,
                pages as int == addr::pages_over(vaddr.0, size),
                vaddr.0 + size <= u64::MAX,
                m == old(mem)@,
                root == self.root,
                *self == *old(self),
                v == addr::page_number(first.0),
                first.0 == vaddr.0 - vaddr.0 % 4096,
                sv39::is_page(v),
                to == change::cleared(),
                mem.wf(),
                mem.start() == old(mem).start(),
                mem.end() == old(mem).end(),
                mem@.dom() == m.dom(),
                sv39::tree(mem@, root),
                change::pages_changed(m, mem@, root, v, i as int, to),
            decreases pages - i,
        {
            let ghost m1 = mem@;
            proof {
                addr::lemma_pages_over(vaddr.0, size, i as int);
                addr::lemma_page_number_add(first.0, i as int);
            }
            (PageTable { frame: self.root }).unmap(mem, first.plus(i * PAGE_SIZE));
            proof {
                change::lemma_changed_step(m, m1, mem@, root, v, i as int, to);
            }
            i += 1;
        }
        region::remove_regions(&mut self.regions, start, end);
        proof {
            assert forall|free: Set<int>| #[trigger] old(self).wf(m, free) implies self.wf(
                mem@,
                free,
            ) by {
                old(self).lemma_wf(m, free);
                change::lemma_changed_disjoint(m, mem@, root, v, pages as int, to, free);
                reveal(change::pages_changed);
                old(self).lemma_same_tree(m, free, mem@, free);
            }
        }
    }

    /// Sets the flags of the pages that the `size` bytes from `vaddr` on touch.
    ///
    /// Stops at the first page without a valid entry; the pages before it keep their new flags.
    #[verifier::spinoff_prover]
    #[verifier::rlimit(40)]
    pub fn protect(&self, mem: &mut PhysMem, vaddr: VirtAddr, size: u64, flags: PteFlags) -> (r:
        Result<(), MapError>)
        requires
            old(mem).wf(),
            self.wf(old(mem)@, Set::empty()),
            vaddr.0 + size <= 0x1_0000_0000_0000_0000,
        ensures
            final(mem).wf(),
            final(mem).start() == old(mem).start(),
            final(mem).end() == old(mem).end(),
            final(mem)@.dom() == old(mem)@.dom(),
            forall|free: Set<int>| #[trigger]
                self.wf(old(mem)@, free) ==> self.wf(final(mem)@, free),
            change::protect_outcome(
                old(mem)@,
                final(mem)@,
                self.root(),
                addr::page_number(vaddr.0),
                addr::pages_over(vaddr.0, size),
                flags.0,
                r,
            ),
    {
        let ghost m = mem@;
        let ghost root = self.root as int;
        let ghost v = addr::page_number(vaddr.0);
        let full: PteFlags = flags.valid();
        let ghost to = change::reflagged(full.0);
        let pages: u64 = addr::count_pages(vaddr.0, size);
        let first: VirtAddr = vaddr.page_start();
        proof {
            self.lemma_wf(m, Set::empty());
            addr::lemma_page_number(vaddr.0);
            change::lemma_changed_start(m, root, v, to);
        }
        let mut i: u64 = 0;
        while i < pages
            invariant
                i <= pages,
                pages as int == addr::pages_over(vaddr.0, size),
                vaddr.0 + size <= 0x1_0000_0000_0000_0000,
                m == old(mem)@,
                root == self.root,
                self.wf(m, Set::empty()),
                v == addr::page_number(first.0),
                first.0 == vaddr.0 - vaddr.0 % 4096,
                sv39::is_page(v),
                full.0 == entry::with_valid(flags.0),
                full.0 % 2 == 1,
                to == change::reflagged(full.0),
                mem.wf(),
                mem.start() == old(mem).start(),
                mem.end() == old(mem).end(),
                mem@.dom() == m.dom(),
                sv39::tree(mem@, root),
                change::pages_changed(m, mem@, root, v, i as int, to),
                forall|j: int|
                    0 <= j < i ==> pte::pte_valid(
                        #[trigger] sv39::page(m, root, table::page_after(v, j)),
                    ),
            decreases pages - i,
        {
            let ghost m1 = mem@;
            let ghost vi = table::page_after(v, i as int);
            proof {
                addr::lemma_pages_over(vaddr.0, size, i as int);
            }
            let va: VirtAddr = first.plus(i * PAGE_SIZE);
            proof {
                addr::lemma_page_number_add(first.0, i as int);
                table::lemma_page_after(v, i as int);
                walk::lemma_walkable(m1, root);
                change::lemma_still_valid(m, m1, root, v, i as int, full.0);
            }
            let slot: u64 = match (PageTable { frame: self.root }).find_entry(mem, va) {
                Err(e) => {
                    assert(!pte::pte_valid(sv39::page(m1, root, vi)));
                    proof {
                        self.lemma_changed_wf(m, m1, v, i as int, to);
                    }
                    return Err(e);
                },
                Ok(slot) => slot,
            };
            let e: PageTableEntry = PageTableEntry { bits: mem.read_word(slot) };
            if !e.is_valid() {
                proof {
                    self.lemma_changed_wf(m, m1, v, i as int, to);
                }
                return Err(MapError::NotMapped);
            }
            mem.write_word(slot, PageTableEntry::new(e.ppn(), full.bits()).as_u64());
            proof {
                change::lemma_reflag_step(m, m1, mem@, root, v, i as int, full.0);
            }
            i += 1;
        }
        proof {
            self.lemma_changed_wf(m, mem@, v, pages as int, to);
        }
        Ok(())
    }

    /// Changing entries of pages keeps the space sound.
    proof fn lemma_changed_wf(
        &self,
        m: Map<int, u64>,
        m2: Map<int, u64>,
        v: int,
        k: int,
        to: spec_fn(u64) -> u64,
    )
        requires
            change::pages_changed(m, m2, self.root(), v, k, to),
        ensures
            forall|free: Set<int>| #[trigger] self.wf(m, free) ==> self.wf(m2, free),
    {
        assert forall|free: Set<int>| #[trigger] self.wf(m, free) implies self.wf(m2, free) by {
            self.lemma_wf(m, free);
            change::lemma_changed_disjoint(m, m2, self.root(), v, k, to, free);
            reveal(change::pages_changed);
            self.lemma_same_tree(m, free, m2, free);
        }
    }

    /// Brings in zeroed pages for the `size` bytes from `vaddr` on, which must lie in a region.
    ///
    /// The pages are brought in one after the other; on an error those before the failing one stay.
    #[verifier::spinoff_prover]
    #[verifier::rlimit(40)]
    pub fn page_fault<A: PageFrameAllocator>(
        &mut self,
        mem: &mut PhysMem,
        vaddr: VirtAddr,
        size: u64,
        flags: PteFlags,
        frames: &mut A,
    ) -> (r: Result<(), MapError>)
        requires
            old(mem).wf(),
            old(frames).ready(old(mem)@.dom()),
            old(self).wf(old(mem)@, old(frames).free()),
            vaddr.0 % 4096 == 0 ==> addr::in_word(vaddr.0, moved::pages_in(size)),
        ensures
            final(mem).wf(),
            final(mem).start() == old(mem).start(),
            final(mem).end() == old(mem).end(),
            final(mem)@.dom() == old(mem)@.dom(),
            final(frames).ready(final(mem)@.dom()),
            final(frames).recycles() == old(frames).recycles(),
            final(self).wf(final(mem)@, final(frames).free()),
            final(self).root() == old(self).root(),
            final(self).regions() == old(self).regions(),
            moved::moved(
                old(mem)@,
                old(frames).free(),
                final(mem)@,
                final(frames).free(),
                old(self).root(),
                old(self).shared(),
                final(self).shared(),
            ),
            r == Err::<(), MapError>(MapError::OutOfMemory) ==> old(frames).free().len()
                < moved::pages_in(size) + ways::lacking(
                old(mem)@,
                old(self).root(),
                ways::ways(addr::page_number(vaddr.0), moved::pages_in(size)),
            ).len() + ways::under(
                old(mem)@,
                old(self).root(),
                old(self).shared().intersect(
                    moved::reached(addr::page_number(vaddr.0), moved::pages_in(size)),
                ),
            ).len(),
            ({
                let m = old(mem)@;
                let free = old(frames).free();
                let m2 = final(mem)@;
                let free2 = final(frames).free();
                let root = old(self).root();
                let sh2 = final(self).shared();
                let v = addr::page_number(vaddr.0);
                let full = entry::with_valid(flags.0);
                let pages = moved::pages_in(size);
                let in_region = !region::find_outcome(old(self).regions(), vaddr.0 as int, None);
                match r {
                    Ok(_) => in_region && (pages == 0 || vaddr.0 % 4096 == 0) && bring::brought_in(
                        m,
                        free,
                        m2,
                        free2,
                        root,
                        sh2,
                        v,
                        pages,
                        full,
                    ),
                    Err(MapError::NoRegion) => !in_region && m2 == m && free2 == free
                        && *final(self) == *old(self),
                    Err(MapError::NotAligned) => in_region && pages > 0 && vaddr.0 % 4096 != 0
                        && moved::same_pages(m, m2, root),
                    Err(MapError::AlreadyMapped) => in_region && vaddr.0 % 4096 == 0 && exists|
                        k: int,
                    |
                        0 <= k < pages && #[trigger] bring::brought_in(
                            m,
                            free,
                            m2,
                            free2,
                            root,
                            sh2,
                            v,
                            k,
                            full,
                        ) && pte::pte_valid(sv39::page(m2, root, table::page_after(v, k))),
                    Err(MapError::OutOfMemory) => in_region && free2 == Set::<int>::empty()
                        && exists|k: int|
                        0 <= k < pages && #[trigger] bring::brought_in(
                            m,
                            free,
                            m2,
                            free2,
                            root,
                            sh2,
                            v,
                            k,
                            full,
                        ),
                    _ => false,
                }
            }),
    {
        let ghost m = mem@;
        let ghost free = frames.free();
        let ghost root = self.root as int;
        let ghost v = addr::page_number(vaddr.0);
        let ghost shared = self.shared();
        let ghost full = entry::with_valid(flags.0);
        proof {
            self.lemma_wf(m, free);
            frames.lemma_free(m);
            moved::lemma_moved_refl(m, free, root, shared);
            addr::lemma_page_number(vaddr.0);
        }
        if self.region_find(vaddr).is_none() {
            return Err(MapError::NoRegion);
        }
        let pages: u64 = if size % PAGE_SIZE == 0 {
            size / PAGE_SIZE
        } else {
            size / PAGE_SIZE + 1
        };
        let ghost in_region = !region::find_outcome(old(self).regions(), vaddr.0 as int, None);
        proof {
            assert(in_region) by {
                let r = choose|r: Region|
                    region::find_outcome(old(self).regions(), vaddr.0 as int, Some(r));
                let i = choose|i: int|
                    0 <= i < old(self).regions().len() && old(self).regions()[i] == r;
                assert(region::holds(old(self).regions()[i], vaddr.0 as int));
            }
            assert(bring::brought_in(m, free, m, free, root, shared, v, 0, full)) by {
                reveal(bring::brought_in);
            }
            ways::lemma_built_start(m, free, root, v);
            ways::lemma_ways(v, pages as int);
            assert(ways::under(m, root, shared.intersect(moved::reached(v, 0))) =~= Set::<
                (int, int),
            >::empty());
            assert(shared.difference(moved::reached(v, 0)) =~= shared);
        }
        let mut i: u64 = 0;
        while i < pages
            invariant
                i <= pages,
                pages as int == moved::pages_in(size),
                vaddr.0 % 4096 == 0 ==> addr::in_word(vaddr.0, moved::pages_in(size)),
                m == old(mem)@,
                free == old(frames).free(),
                root == old(self).root(),
                v == addr::page_number(vaddr.0),
                sv39::is_page(v),
                full == entry::with_valid(flags.0),
                shared == old(self).shared(),
                in_region == !region::find_outcome(old(self).regions(), vaddr.0 as int, None),
                in_region,
                mem.wf(),
                mem.start() == old(mem).start(),
                mem.end() == old(mem).end(),
                mem@.dom() == m.dom(),
                frames.ready(mem@.dom()),
                frames.recycles() == old(frames).recycles(),
                self.wf(mem@, frames.free()),
                self.root() == root,
                self.regions() == old(self).regions(),
                moved::moved(m, free, mem@, frames.free(), root, shared, self.shared()),
                bring::brought_in(
                    m,
                    free,
                    mem@,
                    frames.free(),
                    root,
                    self.shared(),
                    v,
                    i as int,
                    full,
                ),
                i > 0 ==> vaddr.0 % 4096 == 0,
                forall|g: int| #[trigger] free.contains(g) ==> phys::has_frame(m, g),
                self.shared() == shared.difference(moved::reached(v, i as int)),
                ways::grew(m, mem@, root, ways::ways(v, i as int)),
                ways::ways(v, pages as int).finite(),
                free.len() == frames.free().len() + i + ways::lacking(
                    m,
                    root,
                    ways::ways(v, i as int),
                ).len() + ways::under(m, root, shared.intersect(moved::reached(v, i as int))).len(),
            decreases pages - i,
        {
            let ghost m1 = mem@;
            let ghost free1 = frames.free();
            let ghost sh1 = self.shared();
            let va: VirtAddr = vaddr.plus(i * PAGE_SIZE);
            proof {
                addr::lemma_page_number_add(vaddr.0, i as int);
                frames.lemma_free(m1);
                self.lemma_wf(m1, free1);
                assert(free1.subset_of(free)) by {
                    reveal(moved::moved);
                }
                ways::lemma_ways_less(v, i as int, pages as int);
                ways::lemma_ways_less(v, i + 1, pages as int);
                ways::lemma_lacking_less(
                    m,
                    root,
                    ways::ways(v, i as int),
                    ways::ways(v, pages as int),
                );
                ways::lemma_lacking_less(m, root, ways::ways(v, i + 1), ways::ways(v, pages as int));
            }
            let page: PhysAddr = match frames.alloc_frame(mem) {
                None => {
                    proof {
                        lemma_copied_rest(m, root, shared, v, i as int, pages as int);
                    }
                    return Err(MapError::OutOfMemory);
                },
                Some(p) => p,
            };
            let ghost f = page.0 as int;
            let ghost ma = mem@;
            let ghost freea = frames.free();
            proof {
                assert(free1.difference(freea) =~= set![f]);
                moved::lemma_leaked(m1, free1, ma, freea, root, sh1);
                assert(walk::disjoint_from(ma, root, freea)) by {
                    reveal(moved::moved);
                }
                self.lemma_same_tree(m1, free1, ma, freea);
                moved::lemma_moved_trans(m, free, m1, free1, ma, freea, root, shared, sh1, sh1);
                bring::lemma_fresh_frame(m, free, m1, free1, ma, root, sh1, v, i as int, full, f);
                assert(phys::has_frame(m1, f));
                lemma_tables_stay(m1, ma, root, set![f]);
                let w = table::page_after(v, i as int);
                let none_at = Set::<(int, int)>::empty();
                table::lemma_page_after(v, i as int);
                ways::lemma_grew_trans(m, m1, ma, root, ways::ways(v, i as int), none_at);
                assert(ways::ways(v, i as int).union(none_at) =~= ways::ways(v, i as int));
                ways::lemma_lacking_step(m, ma, root, v, i as int);
                ways::lemma_ways_one(w);
                ways::lemma_ways_step(v, i as int);
                ways::lemma_way(ma, root, w);
                lemma_copied_fault(m, ma, root, shared, v, i as int);
                lemma_copied_rest(m, root, shared, v, i as int, pages as int);
            }
            let r: Result<(), MapError> = self.map(mem, va, page, PAGE_SIZE, flags, frames);
            proof {
                let m2 = mem@;
                let free2 = frames.free();
                let sh2 = self.shared();
                moved::lemma_moved_trans(m, free, ma, freea, m2, free2, root, shared, sh1, sh2);
                assert(moved::pages_in(PAGE_SIZE) == 1);
                bring::lemma_fault_step(
                    m,
                    free,
                    ma,
                    freea,
                    m2,
                    free2,
                    root,
                    sh1,
                    sh2,
                    v,
                    i as int,
                    full,
                    f,
                    va.0,
                    page.0,
                    flags.0,
                    r,
                );
                assert(va.0 as int % 4096 == vaddr.0 as int % 4096);
                let w = table::page_after(v, i as int);
                if r is Ok {
                    moved::lemma_reached_step(v, i as int);
                    assert(self.shared() =~= shared.difference(moved::reached(v, i + 1)));
                    ways::lemma_grew_trans(
                        m,
                        ma,
                        m2,
                        root,
                        ways::ways(v, i as int),
                        ways::way(w),
                    );
                }
                if r == Err::<(), MapError>(MapError::NotAligned) {
                    assert(i == 0);
                    reveal(bring::brought_in);
                    assert(moved::same_pages(m, m2, root));
                }
            }
            match r {
                Err(e) => {
                    return Err(e);
                },
                Ok(_) => {},
            }
            i += 1;
        }
        Ok(())
    }

    /// Takes over the root entries 256 to 511, the kernel half, of `kernel`.
    ///
    /// The tables under those entries that the space owned are lost.
    #[verifier::spinoff_prover]
    #[verifier::rlimit(40)]
    pub fn share_kernel(&mut self, mem: &mut PhysMem, kernel: &AddressSpace)
        requires
            old(mem).wf(),
            old(self).wf(old(mem)@, Set::empty()),
            kernel.wf(old(mem)@, Set::empty()),
            !sv39::tables(old(mem)@, kernel.root()).contains(old(self).root()),
            sv39::owned(old(mem)@, old(self).root(), upper_half()).disjoint(
                sv39::owned(old(mem)@, kernel.root(), graft::others(upper_half())),
            ),
        ensures
            final(mem).wf(),
            final(mem).start() == old(mem).start(),
            final(mem).end() == old(mem).end(),
            final(mem)@.dom() == old(mem)@.dom(),
            final(self).root() == old(self).root(),
            final(self).regions() == old(self).regions(),
            phys::same_outside(old(mem)@, final(mem)@, set![old(self).root()]),
            forall|a: int|
                sv39::idx(a) ==> #[trigger] sv39::entry(final(mem)@, old(self).root(), a)
                    == sv39::entry(
                    old(mem)@,
                    if a < 256 {
                        old(self).root()
                    } else {
                        kernel.root()
                    },
                    a,
                ),
            forall|a: int| #[trigger]
                final(self).shared().contains(a) <==> old(self).shared().contains(a) || (256 <= a
                    < 512 && pte::pte_valid(sv39::entry(old(mem)@, kernel.root(), a))),
            forall|v: int|
                sv39::is_page(v) ==> #[trigger] sv39::page(final(mem)@, old(self).root(), v)
                    == sv39::page(
                    old(mem)@,
                    if sv39::i2(v) < 256 {
                        old(self).root()
                    } else {
                        kernel.root()
                    },
                    v,
                ),
            moved::same_pages(old(mem)@, final(mem)@, kernel.root()),
            forall|free: Set<int>|
                #![trigger old(self).wf(old(mem)@, free)]
                old(self).wf(old(mem)@, free) && kernel.wf(old(mem)@, free) ==> kernel.wf(
                    final(mem)@,
                    free,
                ) && ((forall|a: int|
                    256 <= a < 512 && #[trigger] old(self).shared().contains(a) ==> pte::pte_valid(
                        sv39::entry(old(mem)@, kernel.root(), a),
                    )) ==> final(self).wf(final(mem)@, free)),
    {
        let ghost m = mem@;
        let ghost root = self.root as int;
        let ghost kr = kernel.root as int;
        let ghost none = Set::<int>::empty();
        let ghost up = upper_half();
        proof {
            self.lemma_wf(m, none);
            kernel.lemma_wf(m, none);
            assert(sv39::is_owned(m, kr, none, kr));
            assert(sv39::tables(m, kr).contains(kr));
            graft::lemma_owned_frame(m, kr, none, kr);
            assert(sv39::is_owned(m, root, none, root));
            graft::lemma_owned_frame(m, root, none, root);
        }
        let mut i: u64 = 256;
        while i < 512
            invariant
                256 <= i <= 512,
                root == self.root,
                root == old(self).root,
                kr == kernel.root,
                root != kr,
                self.regions() == old(self).regions(),
                mem.wf(),
                mem.start() == old(mem).start(),
                mem.end() == old(mem).end(),
                mem@.dom() == m.dom(),
                phys::has_frame(m, root),
                phys::has_frame(m, kr),
                phys::same_outside(m, mem@, set![root]),
                forall|a: int|
                    sv39::idx(a) ==> #[trigger] sv39::entry(mem@, root, a) == sv39::entry(
                        m,
                        if 256 <= a < i {
                            kr
                        } else {
                            root
                        },
                        a,
                    ),
                self.shared_l2@.no_duplicates(),
                forall|j: int| 0 <= j < self.shared_l2@.len() ==> #[trigger] self.shared_l2@[j] < 512,
                forall|a: int| #[trigger]
                    self.shared().contains(a) <==> old(self).shared().contains(a) || (256 <= a < i
                        && pte::pte_valid(sv39::entry(m, kr, a))),
            decreases 512 - i,
        {
            let e: PageTableEntry = walk::read_entry(mem, kernel.root, i);
            assert(mem@[kr + 8 * i] == m[kr + 8 * i]);
            let ghost m2 = mem@;
            let ghost sh = self.shared_l2@;
            assert(mem@.contains_key(root + 8 * (i as int)));
            mem.write_word(self.root + 8 * i, e.as_u64());
            let listed: bool = table::lists_index(&self.shared_l2, i);
            let ghost before = self.shared();
            assert(before.contains(i as int) == listed);
            if e.is_valid() && !listed {
                self.shared_l2.push(i);
                proof {
                    lemma_pushed_new(sh, i);
                }
            }
            proof {
                assert forall|a: int| #[trigger] self.shared().contains(a) <==> old(
                    self,
                ).shared().contains(a) || (256 <= a < i + 1 && pte::pte_valid(
                    sv39::entry(m, kr, a),
                )) by {
                    assert(before.contains(a) <==> old(self).shared().contains(a) || (256 <= a < i
                        && pte::pte_valid(sv39::entry(m, kr, a))));
                    assert(self.shared().contains(a) == (before.contains(a) || (a == i
                        && pte::pte_valid(e.bits))));
                }
                assert(mem@.dom() =~= m.dom());
                let m3 = mem@;
                assert forall|h: int, j: int|
                    #![trigger m3[h + 8 * j]]
                    h % 4096 == 0 && 0 <= j < 512 && (h != root || j != i) implies m3[h + 8 * j]
                    == m2[h + 8 * j] by {
                    if h + 8 * j == root + 8 * i {
                        sv39::lemma_word(h, j, root, i as int);
                    }
                }
                assert forall|h: int, j: int|
                    #![trigger m3[h + 8 * j]]
                    h % 4096 == 0 && 0 <= j < 512 && !set![root].contains(h) implies m3[h + 8 * j]
                    == m[h + 8 * j] by {
                    assert(m2[h + 8 * j] == m[h + 8 * j]);
                }
                assert forall|a: int| sv39::idx(a) && a != i implies #[trigger] sv39::entry(
                    m3,
                    root,
                    a,
                ) == sv39::entry(m2, root, a) by {
                    assert(m3[root + 8 * a] == m2[root + 8 * a]);
                }
            }
            i += 1;
        }
        proof {
            let m2 = mem@;
            assert(graft::hung(m, m2, root, kr, up)) by {
                reveal(graft::hung);
            }
            if sv39::is_owned(m, kr, none, root) {
                assert(sv39::tables(m, kr).contains(root));
            }
            graft::lemma_hung_tree(m, m2, root, kr, up);
            graft::lemma_hung_pages(m, m2, root, kr, up);
            assert forall|t: int| #[trigger] sv39::is_owned(m, kr, none, t) implies !set![
                root,
            ].contains(t) by {}
            sv39::lemma_agree(m, m2, kr, set![root]);
            assert forall|v: int| sv39::is_page(v) implies #[trigger] sv39::page(m2, root, v)
                == sv39::page(
                m,
                if sv39::i2(v) < 256 {
                    root
                } else {
                    kr
                },
                v,
            ) by {
                sv39::lemma_indices(v);
            }
            assert forall|free: Set<int>|
                #![trigger old(self).wf(m, free)]
                old(self).wf(m, free) && kernel.wf(m, free) implies kernel.wf(m2, free) && ((forall|
                a: int,
            |
                256 <= a < 512 && #[trigger] old(self).shared().contains(a) ==> pte::pte_valid(
                    sv39::entry(m, kr, a),
                )) ==> self.wf(m2, free)) by {
                kernel.lemma_wf(m, free);
                old(self).lemma_wf(m, free);
                assert(sv39::owned(m2, kr, none) == sv39::owned(m, kr, none));
                assert forall|t: int| #[trigger] sv39::is_owned(
                    m2,
                    kr,
                    none,
                    t,
                ) implies !free.contains(t) by {
                    assert(sv39::owned(m2, kr, none).contains(t));
                    assert(sv39::owned(m, kr, none).contains(t));
                    assert(sv39::is_owned(m, kr, none, t));
                }
                kernel.lemma_same_tree(m, free, m2, free);
                assert forall|t: int| #[trigger] sv39::is_owned(
                    m2,
                    root,
                    none,
                    t,
                ) implies !free.contains(t) by {
                    graft::lemma_hung_cover(m, m2, root, kr, up, t);
                }
                if forall|a: int|
                    256 <= a < 512 && #[trigger] old(self).shared().contains(a) ==> pte::pte_valid(
                        sv39::entry(m, kr, a),
                    ) {
                    assert forall|a: int| #[trigger] table::index_set(self.shared_l2@).contains(
                        a,
                    ) implies sv39::has_l1(m2, root, a) by {
                        assert(self.shared().contains(a));
                        if a >= 256 {
                            reveal(sv39::tree);
                            if old(self).shared().contains(a) {
                                assert(sv39::idx(a));
                            }
                            assert(pte::pte_valid(sv39::entry(m, kr, a)));
                            assert(sv39::entry(m2, root, a) == sv39::entry(m, kr, a));
                        } else {
                            assert(old(self).shared().contains(a));
                            assert(sv39::entry(m2, root, a) == sv39::entry(m, root, a));
                        }
                    }
                }
            }
        }
    }

    /// Registers the region `[start, start + size)`; see [`region::add_region`].
    pub fn region_add(&mut self, start: u64, size: u64, flags: PteFlags, kind: RegionKind) -> (r:
        Result<(), MapError>)
        requires
            region::regions_wf(old(self).regions()),
            start + size <= u64::MAX,
        ensures
            final(self).root() == old(self).root(),
            final(self).shared() == old(self).shared(),
            region::regions_wf(final(self).regions()),
            forall|m: Map<int, u64>, free: Set<int>| #[trigger]
                old(self).wf(m, free) ==> final(self).wf(m, free),
            region::add_outcome(
                old(self).regions(),
                final(self).regions(),
                start,
                size,
                flags,
                kind,
                r,
            ),
    {
        region::add_region(&mut self.regions, start, size, flags, kind)
    }

    /// The registered region in which `vaddr` lies.
    pub fn region_find(&self, vaddr: VirtAddr) -> (r: Option<Region>)
        requires
            region::regions_wf(self.regions()),
        ensures
            region::find_outcome(self.regions(), vaddr.0 as int, r),
    {
        region::find_region(&self.regions, vaddr)
    }

    /// Gives back every table that the space owns, the root table last.
    pub fn release<A: PageFrameAllocator>(self, mem: &mut PhysMem, frames: &mut A)
        requires
            old(mem).wf(),
            old(frames).ready(old(mem)@.dom()),
            self.wf(old(mem)@, old(frames).free()),
        ensures
            final(mem).wf(),
            final(mem).start() == old(mem).start(),
            final(mem).end() == old(mem).end(),
            final(mem)@.dom() == old(mem)@.dom(),
            final(frames).ready(final(mem)@.dom()),
            final(frames).recycles() == old(frames).recycles(),
            final(frames).free() == prune::released(
                old(frames).free(),
                sv39::owned(old(mem)@, self.root(), self.shared()),
                old(frames).recycles(),
            ),
            phys::same_outside(
                old(mem)@,
                final(mem)@,
                sv39::owned(old(mem)@, self.root(), self.shared()),
            ),
    {
        let ghost root = self.root as int;
        let ghost none = Set::<int>::empty();
        let ghost o = sv39::owned(mem@, root, self.shared());
        let ghost free = frames.free();
        proof {
            self.lemma_wf(mem@, frames.free());
        }
        let table: PageTable = PageTable { frame: self.root };
        table.clean(mem, &self.shared_l2, frames);
        proof {
            assert(sv39::is_owned(mem@, root, none, root));
            graft::lemma_owned_frame(mem@, root, none, root);
        }
        table.deallocate(mem, frames);
        proof {
            assert(sv39::owned(old(mem)@, root, self.shared()).contains(root));
            assert(free.union(o.remove(root)).insert(root) =~= free.union(o));
        }
    }
}

/// The root indices of the kernel half.
pub open spec fn upper_half() -> Set<int> {
    Set::new(|a: int| 256 <= a < 512)
}

/// An index that was not listed was added to the list.
proof fn lemma_pushed_new(s: Seq<u64>, i: u64)
    requires
        s.no_duplicates(),
        !s.contains(i),
    ensures
        s.push(i).no_duplicates(),
        table::index_set(s.push(i)) == table::index_set(s).insert(i as int),
{
    let t = s.push(i);
    assert(t[s.len() as int] == i);
    assert(t.no_duplicates()) by {
        assert forall|j: int, k: int|
            0 <= j < t.len() && 0 <= k < t.len() && j != k implies t[j] != t[k] by {
            if j < s.len() {
                assert(s.contains(s[j]));
            }
            if k < s.len() {
                assert(s.contains(s[k]));
            }
        }
    }
    assert forall|a: int| #[trigger] table::index_set(t).contains(a) == table::index_set(s).insert(
        i as int,
    ).contains(a) by {
        if table::index_set(t).contains(a) {
            let j = choose|j: int| 0 <= j < t.len() && t[j] == a as u64;
            if j < s.len() {
                assert(s[j] == a as u64);
            }
        }
        if table::index_set(s).contains(a) {
            let j = choose|j: int| 0 <= j < s.len() && s[j] == a as u64;
            assert(t[j] == a as u64);
        }
    }
    assert(table::index_set(t) =~= table::index_set(s).insert(i as int));
}

} // verus!
