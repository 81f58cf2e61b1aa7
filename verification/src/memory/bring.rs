//! Bringing in zeroed pages one after the other.
use vstd::prelude::*;
use crate::memory::addr;
use crate::memory::entry;
use crate::memory::graft;
use crate::memory::phys;
use crate::memory::sv39;
use crate::memory::table;
use crate::memory::table::MapError;
use crate::memory::walk;
use crate::mmu::pte;
use crate::memory::moved;

verus! {

/// The address of the frame that page `i` after `v` is mapped to.
pub open spec fn backing(m: Map<int, u64>, root: int, v: int, i: int) -> int {
    pte::pte_paddr(sv39::page(m, root, table::page_after(v, i)))
}

/// Page `i` after `v` had no valid entry and is mapped, with the flags `full`, to a zeroed frame
/// that was free and is no table of the space.
pub open spec fn brought_page(
    m: Map<int, u64>,
    free: Set<int>,
    m2: Map<int, u64>,
    free2: Set<int>,
    root: int,
    shared2: Set<int>,
    v: int,
    i: int,
    full: u64,
) -> bool {
    let f = backing(m2, root, v, i);
    &&& !pte::pte_valid(sv39::page(m, root, table::page_after(v, i)))
    &&& sv39::page(m2, root, table::page_after(v, i)) == pte::pte_bits((f / 4096) as u64, full)
    &&& free.contains(f)
    &&& !free2.contains(f)
    &&& phys::zeroed(m2, f)
    &&& !sv39::owned(m2, root, shared2).contains(f)
}

/// The `k` pages from page `v` on were brought in, each on a frame of its own; every other page is
/// as it was.
#[verifier::opaque]
pub open spec fn brought_in(
    m: Map<int, u64>,
    free: Set<int>,
    m2: Map<int, u64>,
    free2: Set<int>,
    root: int,
    shared2: Set<int>,
    v: int,
    k: int,
    full: u64,
) -> bool {
    &&& k <= 0x800_0000
    &&& forall|w: int|
        #![trigger sv39::page(m2, root, w)]
        sv39::is_page(w) && table::pages_between(v, w) >= k ==> sv39::page(m2, root, w)
            == sv39::page(m, root, w)
    &&& forall|i: int|
        0 <= i < k ==> #[trigger] brought_page(m, free, m2, free2, root, shared2, v, i, full)
    &&& forall|i: int, j: int|
        #![trigger backing(m2, root, v, i), backing(m2, root, v, j)]
        0 <= i < j < k ==> backing(m2, root, v, i) != backing(m2, root, v, j)
}

/// Taking one more frame disturbs no page that was brought in.
pub proof fn lemma_fresh_frame(
    m: Map<int, u64>,
    free: Set<int>,
    m1: Map<int, u64>,
    free1: Set<int>,
    ma: Map<int, u64>,
    root: int,
    shared: Set<int>,
    v: int,
    k: int,
    full: u64,
    f: int,
)
    requires
        sv39::is_page(v),
        sv39::tree(m1, root),
        walk::disjoint_from(m1, root, free1),
        free1.subset_of(free),
        free1.contains(f),
        forall|g: int| #[trigger] free.contains(g) ==> phys::has_frame(m1, g),
        phys::same_outside(m1, ma, set![f]),
        phys::zeroed(ma, f),
        brought_in(m, free, m1, free1, root, shared, v, k, full),
    ensures
        brought_in(m, free, ma, free1.remove(f), root, shared, v, k, full),
        !sv39::owned(ma, root, shared).contains(f),
        forall|i: int| 0 <= i < k ==> #[trigger] backing(ma, root, v, i) != f,
{
    reveal(brought_in);
    let none = Set::<int>::empty();
    assert forall|t: int| #[trigger] sv39::is_owned(m1, root, none, t) implies !set![f].contains(
        t,
    ) by {}
    sv39::lemma_agree(m1, ma, root, set![f]);
    assert(sv39::owned(ma, root, shared) == sv39::owned(m1, root, shared));
    if sv39::owned(ma, root, shared).contains(f) {
        assert(sv39::is_owned(m1, root, shared, f));
        graft::lemma_owned_frame(m1, root, shared, f);
    }
    assert forall|i: int| 0 <= i < k implies #[trigger] brought_page(
        m,
        free,
        ma,
        free1.remove(f),
        root,
        shared,
        v,
        i,
        full,
    ) && backing(ma, root, v, i) == backing(m1, root, v, i) && backing(ma, root, v, i) != f by {
        table::lemma_page_after(v, i);
        assert(brought_page(m, free, m1, free1, root, shared, v, i, full));
        let g = backing(m1, root, v, i);
        assert(sv39::page(ma, root, table::page_after(v, i)) == sv39::page(
            m1,
            root,
            table::page_after(v, i),
        ));
        assert(phys::has_frame(m1, g));
        assert forall|c: int| 0 <= c < 512 implies #[trigger] ma[g + 8 * c] == 0 by {
            assert(m1[g + 8 * c] == 0);
        }
    }
    assert forall|i: int| 0 <= i < k implies #[trigger] backing(ma, root, v, i) != f && backing(
        ma,
        root,
        v,
        i,
    ) == backing(m1, root, v, i) by {
        assert(brought_page(m, free, ma, free1.remove(f), root, shared, v, i, full));
    }
    assert forall|w: int|
        #![trigger sv39::page(ma, root, w)]
        sv39::is_page(w) && table::pages_between(v, w) >= k implies sv39::page(ma, root, w)
        == sv39::page(m, root, w) by {
        assert(sv39::page(m1, root, w) == sv39::page(m, root, w));
    }
}

/// Mapping one page changes that page, or nothing.
proof fn lemma_attempt(
    ma: Map<int, u64>,
    m2: Map<int, u64>,
    free2: Set<int>,
    root: int,
    va: u64,
    pa: u64,
    flags: u64,
    r: Result<(), MapError>,
)
    requires
        moved::map_outcome(ma, m2, free2, root, va, pa, 4096, flags, r),
    ensures
        forall|w: int|
            #![trigger sv39::page(m2, root, w)]
            sv39::is_page(w) ==> sv39::page(m2, root, w) == (if r is Ok && w == addr::page_number(
                va,
            ) {
                pte::pte_bits((pa as int / 4096) as u64, entry::with_valid(flags))
            } else {
                sv39::page(ma, root, w)
            }),
        r is Ok ==> va % 4096 == 0 && !pte::pte_valid(
            sv39::page(ma, root, addr::page_number(va)),
        ),
        r == Err::<(), MapError>(MapError::AlreadyMapped) ==> va % 4096 == 0 && pte::pte_valid(
            sv39::page(ma, root, addr::page_number(va)),
        ),
        r == Err::<(), MapError>(MapError::OutOfMemory) ==> free2 == Set::<int>::empty(),
        r matches Err(e) ==> e == MapError::AlreadyMapped || e == MapError::NotAligned || e
            == MapError::OutOfMemory,
        r == Err::<(), MapError>(MapError::NotAligned) ==> va % 4096 != 0 || pa % 4096 != 0,
{
    let v = addr::page_number(va);
    let full = entry::with_valid(flags);
    let ppn = pa as int / 4096;
    addr::lemma_page_number(va);
    assert(moved::pages_in(4096) == 1);
    assert(table::page_after(v, 0) == v);
    match r {
        Ok(_) => {
            assert(table::map_stopped(ma, m2, root, v, 1, ppn, full));
            assert(!pte::pte_valid(sv39::page(ma, root, table::page_after(v, 0))));
            assert forall|w: int|
                #![trigger sv39::page(m2, root, w)]
                sv39::is_page(w) implies sv39::page(m2, root, w) == (if w == v {
                pte::pte_bits(ppn as u64, full)
            } else {
                sv39::page(ma, root, w)
            }) by {
                if table::pages_between(v, w) == 0 {
                    assert(w == v);
                }
            }
        },
        Err(MapError::NotAligned) => {},
        Err(MapError::AlreadyMapped) => {
            let j = choose|j: int|
                0 <= j < 1 && #[trigger] table::map_stopped(ma, m2, root, v, j, ppn, full) && (j
                    == 0x800_0000 || pte::pte_valid(
                    sv39::page(ma, root, table::page_after(v, j)),
                ));
            assert(j == 0);
        },
        _ => {
            let j = choose|j: int|
                0 <= j < 1 && #[trigger] table::map_stopped(ma, m2, root, v, j, ppn, full);
            assert(j == 0);
        },
    }
}

/// A zeroed frame that is neither free nor a table of the space stays so.
proof fn lemma_zeroed_stays(
    ma: Map<int, u64>,
    freea: Set<int>,
    m2: Map<int, u64>,
    free2: Set<int>,
    root: int,
    sh1: Set<int>,
    sh2: Set<int>,
    g: int,
)
    requires
        moved::moved(ma, freea, m2, free2, root, sh1, sh2),
        phys::has_frame(ma, g),
        !freea.contains(g),
        !sv39::owned(ma, root, sh1).contains(g),
        phys::zeroed(ma, g),
    ensures
        phys::zeroed(m2, g),
        !sv39::owned(m2, root, sh2).contains(g),
        !free2.contains(g),
{
    reveal(moved::moved);
    let touched = sv39::owned(ma, root, sh1).union(freea.difference(free2));
    assert(!touched.contains(g));
    assert forall|c: int| 0 <= c < 512 implies #[trigger] m2[g + 8 * c] == 0 by {
        assert(ma[g + 8 * c] == 0);
    }
}

/// Mapping the fresh frame `f` brings in one more page, or leaves the pages as they were.
pub proof fn lemma_fault_step(
    m: Map<int, u64>,
    free: Set<int>,
    ma: Map<int, u64>,
    freea: Set<int>,
    m2: Map<int, u64>,
    free2: Set<int>,
    root: int,
    sh1: Set<int>,
    sh2: Set<int>,
    v: int,
    k: int,
    full: u64,
    f: int,
    va: u64,
    pa: u64,
    flags: u64,
    r: Result<(), MapError>,
)
    requires
        sv39::is_page(v),
        0 <= k,
        full == entry::with_valid(flags),
        full % 2 == 1,
        pa == f,
        phys::has_frame(ma, f),
        free.contains(f),
        !freea.contains(f),
        freea.subset_of(free),
        forall|g: int| #[trigger] free.contains(g) ==> phys::has_frame(ma, g),
        phys::zeroed(ma, f),
        !sv39::owned(ma, root, sh1).contains(f),
        forall|i: int| 0 <= i < k ==> #[trigger] backing(ma, root, v, i) != f,
        brought_in(m, free, ma, freea, root, sh1, v, k, full),
        moved::moved(ma, freea, m2, free2, root, sh1, sh2),
        addr::page_number(va) == table::page_after(v, k),
        moved::map_outcome(ma, m2, free2, root, va, pa, 4096, flags, r),
    ensures
        r is Ok ==> brought_in(m, free, m2, free2, root, sh2, v, k + 1, full) && va % 4096 == 0,
        r is Err ==> brought_in(m, free, m2, free2, root, sh2, v, k, full),
        r == Err::<(), MapError>(MapError::AlreadyMapped) ==> va % 4096 == 0 && pte::pte_valid(
            sv39::page(m2, root, table::page_after(v, k)),
        ),
        r == Err::<(), MapError>(MapError::NotAligned) ==> va % 4096 != 0,
        r == Err::<(), MapError>(MapError::OutOfMemory) ==> free2 == Set::<int>::empty(),
        r matches Err(e) ==> e == MapError::AlreadyMapped || e == MapError::NotAligned || e
            == MapError::OutOfMemory,
{
    reveal(brought_in);
    let vk = table::page_after(v, k);
    let ppn = pa as int / 4096;
    table::lemma_page_after(v, k);
    lemma_attempt(ma, m2, free2, root, va, pa, flags, r);
    pte::lemma_pte_bits(ppn as u64, full);
    assert(sv39::page(m2, root, vk) == (if r is Ok {
        pte::pte_bits(ppn as u64, full)
    } else {
        sv39::page(ma, root, vk)
    }));
    if r is Ok {
        if k == 0x800_0000 {
            assert(vk == table::page_after(v, 0));
            assert(brought_page(m, free, ma, freea, root, sh1, v, 0, full));
            pte::lemma_pte_bits((backing(ma, root, v, 0) / 4096) as u64, full);
        }
        assert(k < 0x800_0000);
        assert(table::pages_between(v, vk) == k);
        assert(backing(m2, root, v, k) == f);
        lemma_zeroed_stays(ma, freea, m2, free2, root, sh1, sh2, f);
        assert(sv39::page(ma, root, vk) == sv39::page(m, root, vk));
        assert(brought_page(m, free, m2, free2, root, sh2, v, k, full));
    }
    let k2 = if r is Ok {
        k + 1
    } else {
        k
    };
    assert forall|i: int| 0 <= i < k implies #[trigger] brought_page(
        m,
        free,
        m2,
        free2,
        root,
        sh2,
        v,
        i,
        full,
    ) && backing(m2, root, v, i) == backing(ma, root, v, i) by {
        table::lemma_page_after(v, i);
        assert(brought_page(m, free, ma, freea, root, sh1, v, i, full));
        if r is Ok {
            assert(table::page_after(v, i) != vk);
        }
        assert(sv39::page(m2, root, table::page_after(v, i)) == sv39::page(
            ma,
            root,
            table::page_after(v, i),
        ));
        lemma_zeroed_stays(ma, freea, m2, free2, root, sh1, sh2, backing(ma, root, v, i));
    }
    assert forall|i: int, j: int|
        #![trigger backing(m2, root, v, i), backing(m2, root, v, j)]
        0 <= i < j < k2 implies backing(m2, root, v, i) != backing(m2, root, v, j) by {
        assert(brought_page(m, free, m2, free2, root, sh2, v, i, full));
        if j < k {
            assert(brought_page(m, free, m2, free2, root, sh2, v, j, full));
        }
        assert(backing(m2, root, v, i) == backing(ma, root, v, i));
    }
    assert forall|w: int|
        #![trigger sv39::page(m2, root, w)]
        sv39::is_page(w) && table::pages_between(v, w) >= k2 implies sv39::page(m2, root, w)
        == sv39::page(m, root, w) by {
        assert(sv39::page(ma, root, w) == sv39::page(m, root, w));
    }
}

} // verus!
