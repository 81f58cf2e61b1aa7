//! What address-space operations promise when they follow each other.
use vstd::prelude::*;
use crate::memory::addr;
use crate::memory::addr::KERNEL_BASE;
use crate::memory::bring;
use crate::memory::change;
use crate::memory::entry;
use crate::memory::kernel;
use crate::memory::moved;
use crate::memory::phys;
use crate::memory::prune;
use crate::memory::sv39;
use crate::memory::table;
use crate::memory::table::MapError;
use crate::memory::walk;
use crate::mmu::pte;

verus! {

/// A successful mapping is what translation then finds: every mapped page translates to its frame
/// with the requested flags, every other page translates as before.
pub proof fn law_map_translates(
    m: Map<int, u64>,
    m2: Map<int, u64>,
    free2: Set<int>,
    root: int,
    va: u64,
    pa: u64,
    size: u64,
    flags: u64,
    w: int,
)
    requires
        moved::map_outcome(m, m2, free2, root, va, pa, size, flags, Ok(())),
        (flags as int / 2) % 8 != 0,
        pa + size <= phys::PHYS_LIMIT,
        sv39::is_page(w),
    ensures
        ({
            let i = table::pages_between(addr::page_number(va), w);
            table::translation(m2, root, w) == (if i < moved::pages_in(size) {
                Some((pa + 4096 * i, entry::with_valid(flags) as int % 1024))
            } else {
                table::translation(m, root, w)
            })
        }),
{
    let i = table::pages_between(addr::page_number(va), w);
    let full = entry::with_valid(flags);
    let e = sv39::page(m2, root, w);
    if i < moved::pages_in(size) {
        pte::lemma_pte_bits((pa as int / 4096 + i) as u64, full);
        assert((full as int / 2) % 8 == (flags as int / 2) % 8);
    }
}

/// The kernel space translates every address of a page of memory, and the same address in the kernel
/// half, to the address itself, with the flags of kernel mappings.
pub proof fn law_kernel_space_translates(
    m: Map<int, u64>,
    root: int,
    dram_base: u64,
    dram_size: u64,
    offset: u64,
)
    requires
        dram_base % 4096 == 0,
        dram_size % 4096 == 0,
        dram_size <= 0x4000_0000,
        dram_base + dram_size <= 0x40_0000_0000,
        kernel::kernel_pages(m, root, dram_base, dram_size),
        offset % 4096 == 0,
        offset < dram_size,
    ensures
        KERNEL_BASE + dram_base + offset <= u64::MAX,
        ({
            let pa = dram_base + offset;
            let there = Some((pa, kernel::KERNEL_FLAGS as int));
            &&& table::translation(m, root, addr::page_number(pa as u64)) == there
            &&& table::translation(m, root, addr::page_number((KERNEL_BASE + pa) as u64)) == there
        }),
        ({
            let pa = dram_base + offset;
            &&& table::translation(m, root, pa / 4096) == Some((pa, 239int))
            &&& table::translation(
                m,
                root,
                ((0xFFFF_FFC0_0000_0000 + pa) / 4096) % 0x800_0000,
            ) == Some((pa, 239int))
        }),
{
    let low = addr::page_number(dram_base);
    let high = addr::page_number((KERNEL_BASE + dram_base) as u64);
    let pa = (dram_base + offset) as u64;
    let k = offset as int / 4096;
    let w = addr::page_number(pa);
    let x = addr::page_number((KERNEL_BASE + pa) as u64);
    kernel::lemma_halves(dram_base);
    kernel::lemma_halves(pa);
    lemma_page_offset(dram_base, offset);
    lemma_between(low, k);
    let bits = pte::pte_bits((dram_base as int / 4096 + k) as u64, kernel::KERNEL_FLAGS);
    assert(k < moved::pages_in(dram_size));
    assert(sv39::page(m, root, w) == bits);
    assert(sv39::page(m, root, x) == bits);
    pte::lemma_pte_bits((dram_base as int / 4096 + k) as u64, kernel::KERNEL_FLAGS);
    assert((dram_base as int / 4096 + k) * 4096 == pa);
}

/// The page number of an address some pages further on, below the kernel half.
proof fn lemma_page_offset(base: u64, offset: u64)
    requires
        base % 4096 == 0,
        offset % 4096 == 0,
        base + offset < 0x40_0000_0000,
    ensures
        addr::page_number(base) == base as int / 4096,
        addr::page_number((base + offset) as u64) == base as int / 4096 + offset as int / 4096,
{
    let p = (base + offset) as u64;
    assert(p as int / 4096 == base as int / 4096 + offset as int / 4096);
    assert(p as int / 4096 < 0x800_0000);
}

/// Distances between pages of the two halves.
proof fn lemma_between(v: int, k: int)
    requires
        0 <= v,
        0 <= k,
        v + k < 0x400_0000,
    ensures
        table::pages_between(v, v + k) == k,
        table::pages_between(v + 0x400_0000, v + k + 0x400_0000) == k,
        table::pages_between(v, v + k + 0x400_0000) == k + 0x400_0000,
{
}

/// After unmapping, no page of the range translates; every other page translates as before.
pub proof fn law_unmap_clears(
    m: Map<int, u64>,
    m2: Map<int, u64>,
    root: int,
    v: int,
    pages: int,
    w: int,
)
    requires
        change::pages_changed(m, m2, root, v, pages, change::cleared()),
        sv39::is_page(w),
    ensures
        table::translation(m2, root, w) == (if table::pages_between(v, w) < pages {
            None
        } else {
            table::translation(m, root, w)
        }),
{
    reveal(change::pages_changed);
    let e = sv39::page(m2, root, w);
}

/// Changing the protection of mapped pages keeps their frames and sets their flags.
pub proof fn law_protect_keeps_frames(
    m: Map<int, u64>,
    m2: Map<int, u64>,
    root: int,
    v: int,
    pages: int,
    flags: u64,
    w: int,
)
    requires
        change::protect_outcome(m, m2, root, v, pages, flags, Ok(())),
        sv39::is_page(v),
        sv39::is_page(w),
        (flags as int / 2) % 8 != 0,
        pte::pte_ppn(sv39::page(m, root, w)) < 0x1000_0000_0000,
    ensures
        table::translation(m2, root, w) == (if table::pages_between(v, w) < pages {
            Some(
                (
                    pte::pte_paddr(sv39::page(m, root, w)),
                    entry::with_valid(flags) as int % 1024,
                ),
            )
        } else {
            table::translation(m, root, w)
        }),
{
    reveal(change::pages_changed);
    let full = entry::with_valid(flags);
    let e = sv39::page(m2, root, w);
    if table::pages_between(v, w) < pages {
        pte::lemma_pte_bits(pte::pte_ppn(sv39::page(m, root, w)) as u64, full);
        assert((full as int / 2) % 8 == (flags as int / 2) % 8);
    }
}

/// Unmapping takes a mapping back: every page translates as before the mapping.
pub proof fn law_unmap_undoes_map(
    m: Map<int, u64>,
    m1: Map<int, u64>,
    free1: Set<int>,
    m2: Map<int, u64>,
    root: int,
    va: u64,
    pa: u64,
    size: u64,
    flags: u64,
    w: int,
)
    requires
        moved::map_outcome(m, m1, free1, root, va, pa, size, flags, Ok(())),
        change::pages_changed(
            m1,
            m2,
            root,
            addr::page_number(va),
            addr::pages_over(va, size),
            change::cleared(),
        ),
        sv39::is_page(w),
    ensures
        table::translation(m2, root, w) == table::translation(m, root, w),
{
    let v = addr::page_number(va);
    addr::lemma_page_number(va);
    law_unmap_clears(m1, m2, root, v, addr::pages_over(va, size), w);
    let i = table::pages_between(v, w);
    let e = sv39::page(m1, root, w);
    if i < moved::pages_in(size) {
        assert(table::page_after(v, i) == w);
        assert(!pte::pte_valid(sv39::page(m, root, table::page_after(v, i))));
    }
}

/// After a range was unmapped, mapping it again is never refused because of an old mapping.
pub proof fn law_unmapped_can_be_mapped(
    m: Map<int, u64>,
    m1: Map<int, u64>,
    m2: Map<int, u64>,
    free2: Set<int>,
    root: int,
    va: u64,
    pa: u64,
    size: u64,
    flags: u64,
    r: Result<(), MapError>,
)
    requires
        moved::pages_in(size) <= 0x800_0000,
        change::pages_changed(
            m,
            m1,
            root,
            addr::page_number(va),
            addr::pages_over(va, size),
            change::cleared(),
        ),
        moved::map_outcome(m1, m2, free2, root, va, pa, size, flags, r),
    ensures
        r != Err::<(), MapError>(MapError::AlreadyMapped),
{
    reveal(change::pages_changed);
    let v = addr::page_number(va);
    addr::lemma_page_number(va);
    assert forall|k: int| 0 <= k < moved::pages_in(size) implies !pte::pte_valid(
        #[trigger] sv39::page(m1, root, table::page_after(v, k)),
    ) by {
        table::lemma_page_after(v, k);
        let e = sv39::page(m1, root, table::page_after(v, k));
    }
}

/// Mapping the same range twice is refused.
pub proof fn law_map_twice_refused(
    m: Map<int, u64>,
    m1: Map<int, u64>,
    free1: Set<int>,
    m2: Map<int, u64>,
    free2: Set<int>,
    root: int,
    va: u64,
    pa: u64,
    pa2: u64,
    size: u64,
    flags: u64,
    flags2: u64,
    r: Result<(), MapError>,
)
    requires
        0 < size,
        moved::map_outcome(m, m1, free1, root, va, pa, size, flags, Ok(())),
        moved::map_outcome(m1, m2, free2, root, va, pa2, size, flags2, r),
    ensures
        r is Err,
{
    let v = addr::page_number(va);
    addr::lemma_page_number(va);
    table::lemma_page_after(v, 0);
    assert(table::page_after(v, 0) == v);
    let full = entry::with_valid(flags);
    let e = sv39::page(m1, root, v);
    assert(table::pages_between(v, v) == 0);
    pte::lemma_pte_bits((pa as int / 4096) as u64, full);
    assert(pte::pte_valid(sv39::page(m1, root, table::page_after(v, 0))));
}

/// Whatever a clone of the kernel space does with its tables, and however that ends, every page of
/// the kernel space and of every other clone translates as before, and the spaces stay apart.
pub proof fn law_clones_untouched(
    m: Map<int, u64>,
    free: Set<int>,
    m2: Map<int, u64>,
    free2: Set<int>,
    root: int,
    shared: Set<int>,
    shared2: Set<int>,
    kernel: int,
    other: int,
    other_shared: Set<int>,
    w: int,
)
    requires
        moved::moved(m, free, m2, free2, root, shared, shared2),
        sv39::tree(m, kernel),
        walk::disjoint_from(m, kernel, free),
        moved::clone_of(m, root, shared, kernel),
        sv39::tree(m, other),
        walk::disjoint_from(m, other, free),
        moved::clone_of(m, other, other_shared, kernel),
        sv39::owned(m, root, shared).disjoint(sv39::owned(m, other, other_shared)),
        sv39::is_page(w),
    ensures
        table::translation(m2, kernel, w) == table::translation(m, kernel, w),
        table::translation(m2, other, w) == table::translation(m, other, w),
        moved::clone_of(m2, root, shared2, kernel),
        moved::clone_of(m2, other, other_shared, kernel),
        sv39::owned(m2, root, shared2).disjoint(sv39::owned(m2, other, other_shared)),
        sv39::tree(m2, kernel),
        sv39::tree(m2, other),
        walk::disjoint_from(m2, kernel, free2),
        walk::disjoint_from(m2, other, free2),
{
    let none = Set::<int>::empty();
    let touched = sv39::owned(m, root, shared).union(free.difference(free2));
    assert forall|t: int| sv39::owned(m, root, shared).contains(t) implies !sv39::tables(
        m,
        other,
    ).contains(t) by {
        if sv39::tables(m, other).contains(t) {
            moved::lemma_clone_tables(m, other, other_shared, kernel, t);
        }
    }
    moved::law_kernel_untouched(m, free, m2, free2, root, shared, shared2, kernel);
    moved::law_kernel_untouched(m, free, m2, free2, root, shared, shared2, other);
    reveal(moved::moved);
    assert forall|t: int| #[trigger] sv39::is_owned(m, kernel, none, t) implies !touched.contains(
        t,
    ) by {
        assert(sv39::tables(m, kernel).contains(t));
    }
    assert forall|t: int| #[trigger] sv39::is_owned(m, other, none, t) implies !touched.contains(
        t,
    ) by {
        assert(sv39::tables(m, other).contains(t));
    }
    sv39::lemma_agree(m, m2, kernel, touched);
    sv39::lemma_agree(m, m2, other, touched);
    assert(sv39::page(m2, kernel, w) == sv39::page(m, kernel, w));
    assert(sv39::page(m2, other, w) == sv39::page(m, other, w));
    assert(sv39::owned(m2, other, other_shared) == sv39::owned(m, other, other_shared));
    assert(sv39::owned(m2, kernel, none) == sv39::owned(m, kernel, none));
    assert forall|t: int| sv39::owned(m2, root, shared2).contains(t) implies !sv39::owned(
        m2,
        other,
        other_shared,
    ).contains(t) by {
        if sv39::owned(m, other, other_shared).contains(t) {
            assert(sv39::is_owned(m, other, other_shared, t));
            lemma_owned_is_table(m, other, other_shared, t);
        }
    }
}

/// A table that a space owns is one of its tables.
proof fn lemma_owned_is_table(m: Map<int, u64>, root: int, shared: Set<int>, t: int)
    requires
        sv39::is_owned(m, root, shared, t),
    ensures
        sv39::is_owned(m, root, Set::empty(), t),
{
}

/// A new clone, whose only table of its own is a frame that was free, leaves every clone that there
/// is untouched and is apart from it.
pub proof fn law_new_clone_apart(
    m: Map<int, u64>,
    free: Set<int>,
    m2: Map<int, u64>,
    root: int,
    shared: Set<int>,
    kernel: int,
    other: int,
    other_shared: Set<int>,
    w: int,
)
    requires
        free.contains(root),
        phys::same_outside(m, m2, set![root]),
        sv39::owned(m2, root, shared) == set![root],
        sv39::tree(m, kernel),
        walk::disjoint_from(m, kernel, free),
        sv39::tree(m, other),
        walk::disjoint_from(m, other, free),
        moved::clone_of(m, other, other_shared, kernel),
        sv39::is_page(w),
    ensures
        table::translation(m2, other, w) == table::translation(m, other, w),
        moved::clone_of(m2, other, other_shared, kernel),
        sv39::owned(m2, root, shared).disjoint(sv39::owned(m2, other, other_shared)),
        sv39::tree(m2, other),
        walk::disjoint_from(m2, other, free.remove(root)),
{
    let none = Set::<int>::empty();
    sv39::lemma_agree(m, m2, kernel, set![root]);
    sv39::lemma_agree(m, m2, other, set![root]);
    assert(sv39::page(m2, other, w) == sv39::page(m, other, w));
    assert(sv39::owned(m2, other, other_shared) == sv39::owned(m, other, other_shared));
    assert(sv39::owned(m2, other, none) == sv39::owned(m, other, none));
    assert(sv39::owned(m2, kernel, none) == sv39::owned(m, kernel, none));
    assert forall|t: int| #[trigger] sv39::is_owned(m2, other, none, t) implies !free.remove(
        root,
    ).contains(t) by {
        assert(sv39::owned(m2, other, none).contains(t));
        assert(sv39::is_owned(m, other, none, t));
    }
    if sv39::owned(m, other, other_shared).contains(root) {
        assert(sv39::is_owned(m, other, other_shared, root));
        lemma_owned_is_table(m, other, other_shared, root);
    }
}

/// Releasing a space gives back no table of a kernel space that is separate from it, and leaves
/// the kernel's pages alone.
pub proof fn law_release_spares_kernel(
    m: Map<int, u64>,
    free: Set<int>,
    m2: Map<int, u64>,
    free2: Set<int>,
    root: int,
    shared: Set<int>,
    recycles: bool,
    kernel: int,
)
    requires
        sv39::tree(m, kernel),
        walk::disjoint_from(m, kernel, free),
        moved::separate(m, root, shared, kernel),
        free2 == prune::released(free, sv39::owned(m, root, shared), recycles),
        phys::same_outside(m, m2, sv39::owned(m, root, shared)),
    ensures
        sv39::tree(m2, kernel),
        walk::disjoint_from(m2, kernel, free2),
        moved::same_pages(m, m2, kernel),
{
    let none = Set::<int>::empty();
    let touched = sv39::owned(m, root, shared);
    assert forall|t: int| #[trigger] sv39::is_owned(m, kernel, none, t) implies !touched.contains(
        t,
    ) by {
        assert(sv39::tables(m, kernel).contains(t));
    }
    sv39::lemma_agree(m, m2, kernel, touched);
    assert(sv39::owned(m2, kernel, none) == sv39::owned(m, kernel, none));
    assert forall|t: int| #[trigger] sv39::is_owned(m2, kernel, none, t) implies !free2.contains(
        t,
    ) by {
        assert(sv39::owned(m2, kernel, none).contains(t));
        assert(sv39::owned(m, kernel, none).contains(t));
        assert(sv39::is_owned(m, kernel, none, t));
    }
}

/// Unmapping pages of a space under root entries of its own leaves the pages of a separate kernel
/// space alone.
pub proof fn law_unmap_spares_kernel(
    m: Map<int, u64>,
    m2: Map<int, u64>,
    root: int,
    shared: Set<int>,
    v: int,
    pages: int,
    to: spec_fn(u64) -> u64,
    kernel: int,
)
    requires
        change::pages_changed(m, m2, root, v, pages, to),
        table::clear_of(shared, v, pages),
        sv39::tree(m, kernel),
        moved::separate(m, root, shared, kernel),
    ensures
        sv39::tree(m2, kernel),
        moved::same_pages(m, m2, kernel),
{
    reveal(change::pages_changed);
    reveal(walk::kept);
    let none = Set::<int>::empty();
    assert(walk::kept(m, none, m2, none, root, shared));
    let touched = sv39::owned(m, root, shared);
    assert(touched.union(none.difference(none)) =~= touched);
    assert forall|t: int| #[trigger] sv39::is_owned(m, kernel, none, t) implies !touched.contains(
        t,
    ) by {
        assert(sv39::tables(m, kernel).contains(t));
    }
    sv39::lemma_agree(m, m2, kernel, touched);
}

/// The kernel space maps nothing else: a page outside memory, and outside memory in the kernel half,
/// does not translate.
pub proof fn law_kernel_space_maps_no_more(
    m: Map<int, u64>,
    root: int,
    dram_base: u64,
    dram_size: u64,
    w: int,
)
    requires
        dram_base % 4096 == 0,
        dram_size % 4096 == 0,
        dram_base + dram_size <= 0x40_0000_0000,
        kernel::kernel_pages(m, root, dram_base, dram_size),
        sv39::is_page(w),
        4096 * w < dram_base || 4096 * w >= dram_base + dram_size,
        4096 * (w - 0x400_0000) < dram_base || 4096 * (w - 0x400_0000) >= dram_base + dram_size,
    ensures
        table::translation(m, root, w) is None,
{
    if dram_size > 0 {
        kernel::lemma_halves(dram_base);
        let low = addr::page_number(dram_base);
        assert(low == dram_base as int / 4096);
        assert(table::pages_between(low, w) >= moved::pages_in(dram_size));
        assert(table::pages_between(low + 0x400_0000, w) >= moved::pages_in(dram_size));
    }
    assert(sv39::page(m, root, w) == 0);
}

/// Pages that were brought in translate to frames of their own, with the requested flags: each frame
/// was free, is no longer, and holds zeros. Every other page translates as before.
pub proof fn law_pages_brought_in(
    m: Map<int, u64>,
    free: Set<int>,
    m2: Map<int, u64>,
    free2: Set<int>,
    root: int,
    shared2: Set<int>,
    v: int,
    k: int,
    flags: u64,
    i: int,
    j: int,
    w: int,
)
    requires
        bring::brought_in(m, free, m2, free2, root, shared2, v, k, flags),
        sv39::is_page(v),
        sv39::is_page(w),
        flags % 2 == 1,
        (flags as int / 2) % 8 != 0,
        forall|f: int| #[trigger] free.contains(f) ==> phys::has_frame(m2, f),
        0 <= i < j < k,
        table::pages_between(v, w) >= k,
    ensures
        ({
            let a = table::translation(m2, root, table::page_after(v, i));
            let b = table::translation(m2, root, table::page_after(v, j));
            &&& a matches Some((f, g)) && g == flags as int % 1024 && free.contains(f)
                && !free2.contains(f) && (forall|c: int| 0 <= c < 512 ==> m2[#[trigger] (f + 8 * c)]
                == 0)
            &&& b is Some
            &&& (a->0).0 != (b->0).0
        }),
        table::translation(m2, root, w) == table::translation(m, root, w),
{
    reveal(bring::brought_in);
    assert(bring::brought_page(m, free, m2, free2, root, shared2, v, i, flags));
    assert(bring::brought_page(m, free, m2, free2, root, shared2, v, j, flags));
    let f = bring::backing(m2, root, v, i);
    let g = bring::backing(m2, root, v, j);
    assert(phys::has_frame(m2, f));
    assert(phys::has_frame(m2, g));
    pte::lemma_pte_bits((f / 4096) as u64, flags);
    pte::lemma_pte_bits((g / 4096) as u64, flags);
    assert(sv39::page(m2, root, w) == sv39::page(m, root, w));
    assert forall|c: int| 0 <= c < 512 implies m2[#[trigger] (f + 8 * c)] == 0 by {
        assert(phys::zeroed(m2, f));
    }
}

/// Kernel mappings and device mappings are global and not for user tasks; only memory can be executed.
pub proof fn law_kernel_flags()
    ensures
        kernel::KERNEL_FLAGS == 1 + 2 + 4 + 8 + 32 + 64 + 128,
        kernel::DEVICE_FLAGS == 1 + 2 + 4 + 32 + 64 + 128,
{
}

/// Translation reads three entries: that of the root table for the highest nine bits of the page
/// number, that of the table it points to for the next nine, and that of the last table for the lowest
/// nine. It ends where an upper entry is not valid or is a leaf itself.
pub proof fn law_walk_reads_tables(m: Map<int, u64>, root: int, v: int)
    ensures
        ({
            let e2 = m[root + 8 * (v / 0x4_0000)];
            let e1 = m[pte::pte_paddr(e2) + 8 * ((v / 512) % 512)];
            let e0 = m[pte::pte_paddr(e1) + 8 * (v % 512)];
            let down2 = pte::pte_valid(e2) && !pte::pte_leaf(e2);
            let down1 = pte::pte_valid(e1) && !pte::pte_leaf(e1);
            &&& !down2 ==> table::translation(m, root, v) is None
            &&& down2 && !down1 ==> table::translation(m, root, v) is None
            &&& down2 && down1 && !(pte::pte_valid(e0) && pte::pte_leaf(e0)) ==> table::translation(
                m,
                root,
                v,
            ) is None
            &&& down2 && down1 && pte::pte_valid(e0) && pte::pte_leaf(e0) ==> table::translation(
                m,
                root,
                v,
            ) == Some((pte::pte_paddr(e0), pte::pte_flags(e0)))
        }),
{
}

/// Bytes take as many pages as hold them, and no more.
pub proof fn law_pages_for_bytes(size: u64)
    ensures
        4096 * moved::pages_in(size) >= size,
        4096 * moved::pages_in(size) < size + 4096,
{
}

/// Counting pages forward and back: page numbers wrap around after 27 bits.
pub proof fn law_pages_wrap(v: int, w: int, i: int)
    requires
        sv39::is_page(v),
        sv39::is_page(w),
        0 <= i < 0x800_0000,
    ensures
        v + i < 0x800_0000 ==> table::page_after(v, i) == v + i,
        v + i >= 0x800_0000 ==> table::page_after(v, i) == v + i - 0x800_0000,
        v <= w ==> table::pages_between(v, w) == w - v,
        v > w ==> table::pages_between(v, w) == w - v + 0x800_0000,
{
}

/// A mapping whose addresses or size are not at a page is refused and changes no page; a mapping is
/// refused where a page of it is mapped already, and the pages before that one are mapped.
pub proof fn law_map_refused(
    m: Map<int, u64>,
    m2: Map<int, u64>,
    free2: Set<int>,
    root: int,
    va: u64,
    pa: u64,
    size: u64,
    flags: u64,
    r: Result<(), MapError>,
    i: int,
)
    requires
        moved::map_outcome(m, m2, free2, root, va, pa, size, flags, r),
        free2 != Set::<int>::empty(),
    ensures
        va % 4096 != 0 || pa % 4096 != 0 || size % 4096 != 0 ==> r == Err::<(), MapError>(
            MapError::NotAligned,
        ) && moved::same_pages(m, m2, root),
        va % 4096 == 0 && pa % 4096 == 0 && size % 4096 == 0 && 0 <= i && 4096 * i < size
            && pte::pte_valid(
            sv39::page(m, root, table::page_after(addr::page_number(va), i)),
        ) ==> r == Err::<(), MapError>(MapError::AlreadyMapped),
{
    if va % 4096 == 0 && pa % 4096 == 0 && size % 4096 == 0 && 0 <= i && 4096 * i < size && r is Ok {
        assert(i < moved::pages_in(size));
        assert(table::map_stopped(
            m,
            m2,
            root,
            addr::page_number(va),
            moved::pages_in(size),
            pa as int / 4096,
            entry::with_valid(flags),
        ));
        assert(!pte::pte_valid(sv39::page(m, root, table::page_after(addr::page_number(va), i))));
    }
}

/// The kernel half is the upper half of the root table.
pub proof fn law_kernel_half(a: int)
    ensures
        crate::memory::space::upper_half().contains(a) <==> 256 <= a < 512,
{
}

/// The kernel space takes the root table and, in each half, one table for every gibibyte and one for
/// every two mebibytes in which memory lies.
pub proof fn law_kernel_tables(dram_base: u64, dram_size: u64)
    requires
        dram_base % 4096 == 0,
        0 < dram_size,
        dram_base + dram_size <= 0x40_0000_0000,
    ensures
        ({
            let last = dram_base + dram_size - 1;
            kernel::tables_needed(dram_base, dram_size) == 1 + 2 * (last / 0x4000_0000
                - dram_base as int / 0x4000_0000 + 1) + 2 * (last / 0x20_0000 - dram_base as int
                / 0x20_0000 + 1)
        }),
{
    let last = dram_base + dram_size - 1;
    let v = addr::page_number(dram_base);
    let n = moved::pages_in(dram_size);
    assert(v == dram_base as int / 4096);
    assert(v + n - 1 == last / 4096);
    assert(last / 4096 / 0x4_0000 == last / 0x4000_0000);
    assert(last / 4096 / 512 == last / 0x20_0000);
    assert(dram_base as int / 4096 / 0x4_0000 == dram_base as int / 0x4000_0000);
    assert(dram_base as int / 4096 / 512 == dram_base as int / 0x20_0000);
}

} // verus!
