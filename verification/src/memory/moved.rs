//! What address-space operations do to memory, as relations between the memory before and after.
use vstd::prelude::*;
use crate::memory::addr;
use crate::memory::entry;
use crate::memory::graft;
use crate::memory::phys;
use crate::memory::sv39;
use crate::memory::table;
use crate::memory::table::MapError;
use crate::memory::walk;
use crate::mmu::pte;

verus! {

/// The tables of the space changed: it may have taken free frames for tables and made copies of
/// kernel tables. Only its own tables and frames that were free were written.
#[verifier::opaque]
pub open spec fn moved(
    m: Map<int, u64>,
    free: Set<int>,
    m2: Map<int, u64>,
    free2: Set<int>,
    root: int,
    shared: Set<int>,
    shared2: Set<int>,
) -> bool {
    &&& m2.dom() == m.dom()
    &&& sv39::tree(m2, root)
    &&& walk::disjoint_from(m2, root, free2)
    &&& free2.subset_of(free)
    &&& shared2.subset_of(shared)
    &&& sv39::owned(m2, root, shared2).subset_of(
        sv39::owned(m, root, shared).union(free.difference(free2)),
    )
    &&& phys::same_outside(m, m2, sv39::owned(m, root, shared).union(free.difference(free2)))
    &&& forall|a: int|
        sv39::idx(a) && shared2.contains(a) ==> #[trigger] sv39::entry(m2, root, a) == sv39::entry(
            m,
            root,
            a,
        )
}

/// All pages of the tree are the same in both memories.
pub open spec fn same_pages(m: Map<int, u64>, m2: Map<int, u64>, root: int) -> bool {
    forall|w: int|
        #![trigger sv39::page(m2, root, w)]
        sv39::is_page(w) ==> sv39::page(m2, root, w) == sv39::page(m, root, w)
}

/// No table that the space owns is a table of the tree at `kernel`.
pub open spec fn separate(m: Map<int, u64>, root: int, shared: Set<int>, kernel: int) -> bool {
    sv39::owned(m, root, shared).disjoint(sv39::tables(m, kernel))
}

/// The space is a clone of the kernel space: the tables under its shared root entries are those of
/// the kernel, and it owns no table of the kernel.
pub open spec fn clone_of(m: Map<int, u64>, root: int, shared: Set<int>, kernel: int) -> bool {
    &&& separate(m, root, shared, kernel)
    &&& forall|a: int| #[trigger]
        shared.contains(a) ==> sv39::idx(a) && sv39::entry(m, root, a) == sv39::entry(m, kernel, a)
}

/// Every table of a clone is its own or one of the kernel.
pub proof fn lemma_clone_tables(m: Map<int, u64>, root: int, shared: Set<int>, kernel: int, t: int)
    requires
        clone_of(m, root, shared, kernel),
        sv39::tables(m, root).contains(t),
    ensures
        sv39::owned(m, root, shared).contains(t) || sv39::tables(m, kernel).contains(t),
{
    let none = Set::<int>::empty();
    assert(sv39::is_owned(m, root, none, t));
    if t != root && !sv39::is_owned(m, root, shared, t) {
        if exists|a: int|
            sv39::idx(a) && sv39::has_l1(m, root, a) && #[trigger] sv39::l1(m, root, a) == t {
            let a = choose|a: int|
                sv39::idx(a) && sv39::has_l1(m, root, a) && #[trigger] sv39::l1(m, root, a) == t;
            assert(shared.contains(a));
            assert(sv39::has_l1(m, kernel, a) && sv39::l1(m, kernel, a) == t);
            assert(sv39::is_owned(m, kernel, none, t));
        } else {
            let (a, b) = choose|a: int, b: int|
                sv39::idx(a) && sv39::idx(b) && sv39::has_l0(m, root, a, b) && #[trigger] sv39::l0(
                    m,
                    root,
                    a,
                    b,
                ) == t;
            assert(shared.contains(a));
            assert(sv39::has_l0(m, kernel, a, b) && sv39::l0(m, kernel, a, b) == t);
            assert(sv39::is_owned(m, kernel, none, t));
        }
    }
}

/// Nothing changed.
pub proof fn lemma_moved_refl(m: Map<int, u64>, free: Set<int>, root: int, shared: Set<int>)
    requires
        sv39::tree(m, root),
        walk::disjoint_from(m, root, free),
    ensures
        moved(m, free, m, free, root, shared, shared),
{
    reveal(moved);
}

/// Two changes in a row are one.
pub proof fn lemma_moved_trans(
    m: Map<int, u64>,
    free: Set<int>,
    m1: Map<int, u64>,
    free1: Set<int>,
    m2: Map<int, u64>,
    free2: Set<int>,
    root: int,
    shared: Set<int>,
    shared1: Set<int>,
    shared2: Set<int>,
)
    requires
        moved(m, free, m1, free1, root, shared, shared1),
        moved(m1, free1, m2, free2, root, shared1, shared2),
    ensures
        moved(m, free, m2, free2, root, shared, shared2),
{
    reveal(moved);
    let o = sv39::owned(m, root, shared);
    let o1 = sv39::owned(m1, root, shared1);
    let t = o.union(free.difference(free2));
    assert forall|f: int, i: int|
        #![trigger m2[f + 8 * i]]
        f % 4096 == 0 && 0 <= i < 512 && !t.contains(f) implies m2[f + 8 * i] == m[f + 8 * i] by {
        assert(!o.union(free.difference(free1)).contains(f));
        assert(!o1.contains(f));
        assert(!o1.union(free1.difference(free2)).contains(f));
        assert(m2[f + 8 * i] == m1[f + 8 * i]);
        assert(m1[f + 8 * i] == m[f + 8 * i]);
    }
    assert forall|a: int| sv39::idx(a) && shared2.contains(a) implies #[trigger] sv39::entry(
        m2,
        root,
        a,
    ) == sv39::entry(m, root, a) by {
        assert(sv39::entry(m1, root, a) == sv39::entry(m, root, a));
    }
}

/// A change that keeps the shared root entries is a change of the space.
pub proof fn lemma_moved_kept(
    m: Map<int, u64>,
    free: Set<int>,
    m2: Map<int, u64>,
    free2: Set<int>,
    root: int,
    shared: Set<int>,
)
    requires
        walk::kept(m, free, m2, free2, root, shared),
        m2.dom() == m.dom(),
        sv39::tree(m2, root),
        walk::disjoint_from(m2, root, free2),
        free2.subset_of(free),
    ensures
        moved(m, free, m2, free2, root, shared, shared),
        sv39::owned(m2, root, shared) == sv39::owned(m, root, shared).union(
            free.difference(free2),
        ),
{
    reveal(moved);
    reveal(walk::kept);
}

/// Whatever a space does with its own tables, the pages of a kernel space that owns none of them
/// stay as they are, and the two stay separate.
pub proof fn law_kernel_untouched(
    m: Map<int, u64>,
    free: Set<int>,
    m2: Map<int, u64>,
    free2: Set<int>,
    root: int,
    shared: Set<int>,
    shared2: Set<int>,
    kernel: int,
)
    requires
        moved(m, free, m2, free2, root, shared, shared2),
        sv39::tree(m, kernel),
        walk::disjoint_from(m, kernel, free),
        separate(m, root, shared, kernel),
    ensures
        sv39::tree(m2, kernel),
        walk::disjoint_from(m2, kernel, free2),
        same_pages(m, m2, kernel),
        separate(m2, root, shared2, kernel),
{
    reveal(moved);
    let none = Set::<int>::empty();
    let touched = sv39::owned(m, root, shared).union(free.difference(free2));
    assert forall|t: int| #[trigger] sv39::is_owned(m, kernel, none, t) implies !touched.contains(
        t,
    ) by {
        assert(sv39::tables(m, kernel).contains(t));
    }
    sv39::lemma_agree(m, m2, kernel, touched);
    assert(sv39::owned(m2, kernel, none) == sv39::owned(m, kernel, none));
    assert forall|t: int| #[trigger] sv39::is_owned(m2, kernel, none, t) implies !free2.contains(
        t,
    ) by {
        assert(sv39::owned(m2, kernel, none).contains(t));
        assert(sv39::owned(m, kernel, none).contains(t));
        assert(sv39::is_owned(m, kernel, none, t));
    }
    assert forall|t: int| sv39::owned(m2, root, shared2).contains(t) implies !sv39::tables(
        m2,
        kernel,
    ).contains(t) by {
        if sv39::tables(m2, kernel).contains(t) {
            assert(sv39::is_owned(m, kernel, none, t));
        }
    }
}

/// Every table of the tree was one before, or lies in a frame that was taken.
pub proof fn lemma_moved_tables(
    m: Map<int, u64>,
    free: Set<int>,
    m2: Map<int, u64>,
    free2: Set<int>,
    root: int,
    shared: Set<int>,
    shared2: Set<int>,
)
    requires
        moved(m, free, m2, free2, root, shared, shared2),
        sv39::tree(m, root),
        walk::disjoint_from(m, root, free),
        forall|a: int| #[trigger] shared.contains(a) ==> sv39::has_l1(m, root, a),
    ensures
        sv39::tables(m2, root).subset_of(
            sv39::tables(m, root).union(free.difference(free2)),
        ),
{
    reveal(moved);
    reveal(sv39::tree);
    let none = Set::<int>::empty();
    let taken = free.difference(free2);
    let touched = sv39::owned(m, root, shared).union(taken);
    assert forall|t: int| sv39::tables(m2, root).contains(t) implies sv39::tables(m, root).union(
        taken,
    ).contains(t) by {
        if sv39::owned(m2, root, shared2).contains(t) {
            assert(touched.contains(t));
            if sv39::is_owned(m, root, shared, t) {
                graft::lemma_owned_frame(m, root, shared, t);
            }
        } else {
            let p = graft::owned_position(m2, root, none, t);
            let a = p.0;
            let b = p.1;
            if !shared2.contains(a) {
                if b == -1 {
                    graft::lemma_owns_l1(m2, root, shared2, a);
                } else {
                    graft::lemma_owns_l0(m2, root, shared2, a, b);
                }
            }
            assert(shared.contains(a));
            assert(sv39::entry(m2, root, a) == sv39::entry(m, root, a));
            let s = sv39::l1(m, root, a);
            graft::lemma_owns_l1(m, root, none, a);
            if b != -1 {
                if sv39::is_owned(m, root, shared, s) {
                    assert(pte::pte_valid(sv39::entry(m, root, a)));
                    assert(phys::has_frame(m, s));
                    if s != root {
                        let q = graft::owned_position(m, root, shared, s);
                        assert(pte::pte_valid(sv39::entry(m, root, q.0)));
                        if q.1 != -1 {
                            assert(pte::pte_valid(sv39::entry(m, sv39::l1(m, root, q.0), q.1)));
                        }
                    }
                    assert(false);
                }
                assert(!touched.contains(s));
                graft::lemma_owned_frame(m, root, none, s);
                assert(m2[s + 8 * b] == m[s + 8 * b]);
                assert(sv39::entry(m2, s, b) == sv39::entry(m, s, b));
                graft::lemma_owns_l0(m, root, none, a, b);
            }
        }
    }
}

/// Number of pages that `size` bytes take.
pub open spec fn pages_in(size: u64) -> int {
    (size + 4095) / 4096
}

/// The root indices of the `k` pages from page `v` on.
pub open spec fn reached(v: int, k: int) -> Set<int> {
    Set::new(|a: int| exists|j: int| 0 <= j < k && #[trigger] sv39::i2(table::page_after(v, j)) == a)
}

/// One more page reaches its root index.
pub proof fn lemma_reached_step(v: int, k: int)
    requires
        0 <= k,
    ensures
        reached(v, k + 1) == reached(v, k).insert(sv39::i2(table::page_after(v, k))),
{
    let x = sv39::i2(table::page_after(v, k));
    assert forall|a: int| #[trigger] reached(v, k + 1).contains(a) == reached(v, k).insert(
        x,
    ).contains(a) by {
        if reached(v, k + 1).contains(a) {
            let j = choose|j: int|
                0 <= j < k + 1 && #[trigger] sv39::i2(table::page_after(v, j)) == a;
            if j < k {
                assert(sv39::i2(table::page_after(v, j)) == a);
            }
        }
        if reached(v, k).contains(a) {
            let j = choose|j: int| 0 <= j < k && #[trigger] sv39::i2(table::page_after(v, j)) == a;
            assert(sv39::i2(table::page_after(v, j)) == a);
        }
        if a == x {
            assert(sv39::i2(table::page_after(v, k)) == a);
        }
    }
    assert(reached(v, k + 1) =~= reached(v, k).insert(x));
}

/// How a request to map `size` bytes into a space ends.
///
/// Unaligned requests map nothing. Otherwise the pages are mapped in order until all are mapped, or
/// one has a valid entry already, or the frames run out.
pub open spec fn map_outcome(
    m: Map<int, u64>,
    m2: Map<int, u64>,
    free2: Set<int>,
    root: int,
    va: u64,
    pa: u64,
    size: u64,
    flags: u64,
    r: Result<(), MapError>,
) -> bool {
    let v = addr::page_number(va);
    let ppn = pa as int / 4096;
    let pages = pages_in(size);
    let full = entry::with_valid(flags);
    let aligned = va as int % 4096 == 0 && pa as int % 4096 == 0 && size as int % 4096 == 0;
    match r {
        Ok(_) => aligned && pages <= 0x800_0000 && table::map_stopped(
            m,
            m2,
            root,
            v,
            pages,
            ppn,
            full,
        ),
        Err(MapError::NotAligned) => !aligned && same_pages(m, m2, root),
        Err(MapError::AlreadyMapped) => aligned && exists|k: int|
            0 <= k < pages && #[trigger] table::map_stopped(m, m2, root, v, k, ppn, full) && (k
                == 0x800_0000 || pte::pte_valid(
                sv39::page(m, root, table::page_after(v, k)),
            )),
        Err(MapError::OutOfMemory) => free2 == Set::<int>::empty() && exists|k: int|
            0 <= k < pages && (aligned || k == 0) && #[trigger] table::map_stopped(
                m,
                m2,
                root,
                v,
                k,
                ppn,
                full,
            ),
        _ => false,
    }
}

/// The domain of memory stays.
pub proof fn lemma_dom(
    m: Map<int, u64>,
    free: Set<int>,
    m2: Map<int, u64>,
    free2: Set<int>,
    root: int,
    shared: Set<int>,
    shared2: Set<int>,
)
    requires
        moved(m, free, m2, free2, root, shared, shared2),
    ensures
        m2.dom() == m.dom(),
{
    reveal(moved);
}

/// A change takes frames away and shares less.
pub proof fn lemma_moved_less(
    m: Map<int, u64>,
    free: Set<int>,
    m2: Map<int, u64>,
    free2: Set<int>,
    root: int,
    shared: Set<int>,
    shared2: Set<int>,
)
    requires
        moved(m, free, m2, free2, root, shared, shared2),
    ensures
        free2.subset_of(free),
        shared2.subset_of(shared),
{
    reveal(moved);
}

/// Pages that stay twice stay.
pub proof fn lemma_same_pages_trans(
    m: Map<int, u64>,
    m1: Map<int, u64>,
    m2: Map<int, u64>,
    root: int,
)
    requires
        same_pages(m, m1, root),
        same_pages(m1, m2, root),
    ensures
        same_pages(m, m2, root),
{
    assert forall|w: int| sv39::is_page(w) implies #[trigger] sv39::page(m2, root, w)
        == sv39::page(m, root, w) by {
        assert(sv39::page(m1, root, w) == sv39::page(m, root, w));
    }
}

/// As long as no page changed, none of the requested pages is mapped.
pub proof fn lemma_not_mapped_yet(
    m: Map<int, u64>,
    m2: Map<int, u64>,
    root: int,
    v: int,
    ppn: int,
    full: u64,
)
    requires
        same_pages(m, m2, root),
    ensures
        table::map_stopped(m, m2, root, v, 0, ppn, full),
{
}

/// What the table reports about a request, seen from a memory with the same pages.
pub proof fn lemma_map_outcome(
    m: Map<int, u64>,
    m1: Map<int, u64>,
    free1: Set<int>,
    m2: Map<int, u64>,
    free2: Set<int>,
    root: int,
    va: u64,
    pa: u64,
    size: u64,
    flags: u64,
    r: Result<(), MapError>,
)
    requires
        same_pages(m, m1, root),
        va as int % 4096 == 0,
        pa as int % 4096 == 0,
        size as int % 4096 == 0,
        table::map_outcome(m1, free1, m2, free2, root, va, pa, size, flags, r),
    ensures
        map_outcome(m, m2, free2, root, va, pa, size, flags, r),
{
    let v = addr::page_number(va);
    let ppn = pa as int / 4096;
    let pages = size as int / 4096;
    let full = entry::with_valid(flags);
    assert(pages == pages_in(size));
    addr::lemma_page_number(va);
    assert forall|k: int| 0 <= k && #[trigger] table::map_stopped(
        m1,
        m2,
        root,
        v,
        k,
        ppn,
        full,
    ) implies table::map_stopped(m, m2, root, v, k, ppn, full) by {
        assert forall|w: int| sv39::is_page(w) implies #[trigger] sv39::page(m2, root, w) == (
        if table::pages_between(v, w) < k {
            pte::pte_bits((ppn + table::pages_between(v, w)) as u64, full)
        } else {
            sv39::page(m, root, w)
        }) by {
            assert(sv39::page(m1, root, w) == sv39::page(m, root, w));
        }
        assert forall|j: int| 0 <= j < k implies !pte::pte_valid(
            #[trigger] sv39::page(m, root, table::page_after(v, j)),
        ) by {
            table::lemma_page_after(v, j);
            assert(!pte::pte_valid(sv39::page(m1, root, table::page_after(v, j))));
        }
    }
    match r {
        Ok(_) => {},
        Err(MapError::AlreadyMapped) => {
            let k = choose|k: int|
                0 <= k < pages && #[trigger] table::map_stopped(m1, m2, root, v, k, ppn, full)
                    && pte::pte_valid(sv39::page(m2, root, table::page_after(v, k))) && (k
                    == 0x800_0000 || pte::pte_valid(
                    sv39::page(m1, root, table::page_after(v, k)),
                ));
            table::lemma_page_after(v, k);
            assert(sv39::page(m1, root, table::page_after(v, k)) == sv39::page(
                m,
                root,
                table::page_after(v, k),
            ));
            assert(table::map_stopped(m, m2, root, v, k, ppn, full));
        },
        Err(MapError::OutOfMemory) => {
            let k = choose|k: int|
                0 <= k < pages && #[trigger] table::map_stopped(m1, m2, root, v, k, ppn, full)
                    && !sv39::path(m2, root, table::page_after(v, k));
            assert(table::map_stopped(m, m2, root, v, k, ppn, full));
        },
        _ => {},
    }
}

/// Frames that were taken and written without becoming tables leave the space alone.
pub proof fn lemma_leaked(
    m: Map<int, u64>,
    free: Set<int>,
    m2: Map<int, u64>,
    free2: Set<int>,
    root: int,
    shared: Set<int>,
)
    requires
        sv39::tree(m, root),
        walk::disjoint_from(m, root, free),
        free2.subset_of(free),
        phys::same_outside(m, m2, free.difference(free2)),
    ensures
        moved(m, free, m2, free2, root, shared, shared),
        same_pages(m, m2, root),
        sv39::tree(m2, root),
        forall|a: int| sv39::idx(a) ==> #[trigger] sv39::entry(m2, root, a) == sv39::entry(m, root, a),
{
    reveal(moved);
    let none = Set::<int>::empty();
    let touched = free.difference(free2);
    sv39::lemma_agree(m, m2, root, touched);
    assert(sv39::owned(m2, root, shared) == sv39::owned(m, root, shared));
    assert(sv39::owned(m2, root, none) == sv39::owned(m, root, none));
    assert forall|t: int| #[trigger] sv39::is_owned(m2, root, none, t) implies !free2.contains(
        t,
    ) by {
        assert(sv39::owned(m2, root, none).contains(t));
        assert(sv39::owned(m, root, none).contains(t));
        assert(sv39::is_owned(m, root, none, t));
    }
    let all = sv39::owned(m, root, shared).union(touched);
    assert forall|f: int, i: int|
        #![trigger m2[f + 8 * i]]
        f % 4096 == 0 && 0 <= i < 512 && !all.contains(f) implies m2[f + 8 * i] == m[f + 8 * i] by {
        assert(!touched.contains(f));
    }
}

/// Swapping a kernel subtree for copies is a change of the space.
pub proof fn lemma_swap_moved(
    m: Map<int, u64>,
    free: Set<int>,
    m2: Map<int, u64>,
    free2: Set<int>,
    root: int,
    a: int,
    f: int,
    used: Set<int>,
    shared: Set<int>,
)
    requires
        sv39::tree(m, root),
        sv39::tree(m2, root),
        walk::disjoint_from(m, root, free),
        sv39::idx(a),
        shared.contains(a),
        graft::swapped(m, m2, root, a, f, used),
        free2.subset_of(free),
        used == free.difference(free2),
        sv39::owned(m2, root, shared.remove(a)) == sv39::owned(m, root, shared).union(used),
    ensures
        moved(m, free, m2, free2, root, shared, shared.remove(a)),
{
    reveal(moved);
    reveal(graft::swapped);
    let none = Set::<int>::empty();
    let only = set![a];
    graft::lemma_swap_owned(m, m2, root, a, f, used, only);
    assert(only.remove(a) =~= none);
    assert forall|t: int| #[trigger] sv39::is_owned(m2, root, none, t) implies !free2.contains(
        t,
    ) by {
        assert(sv39::owned(m2, root, none).contains(t));
        assert(sv39::owned(m, root, only).union(used).contains(t));
        if !used.contains(t) {
            assert(sv39::is_owned(m, root, only, t));
            graft::lemma_owned_frame(m, root, only, t);
        }
    }
    assert(sv39::is_owned(m, root, shared, root));
    let all = sv39::owned(m, root, shared).union(used);
    assert forall|g: int, i: int|
        #![trigger m2[g + 8 * i]]
        g % 4096 == 0 && 0 <= i < 512 && !all.contains(g) implies m2[g + 8 * i] == m[g + 8 * i] by {
        assert(!used.insert(root).contains(g));
    }
}

} // verus!
