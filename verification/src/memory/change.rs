//! Changing the entries of a run of pages, one page after the other.
use vstd::prelude::*;
use crate::memory::entry;
use crate::memory::sv39;
use crate::memory::table;
use crate::memory::table::MapError;
use crate::memory::walk;
use crate::mmu::pte;

verus! {

/// The entries of the `k` pages from page `v` on went through `to`; every other page, every table
/// and every root entry stays.
#[verifier::opaque]
pub open spec fn pages_changed(
    m: Map<int, u64>,
    m2: Map<int, u64>,
    root: int,
    v: int,
    k: int,
    to: spec_fn(u64) -> u64,
) -> bool {
    &&& m2.dom() == m.dom()
    &&& sv39::tree(m2, root)
    &&& forall|a: int|
        sv39::idx(a) ==> #[trigger] sv39::entry(m2, root, a) == sv39::entry(m, root, a)
    &&& forall|w: int|
        #![trigger sv39::page(m2, root, w)]
        #![trigger sv39::path(m2, root, w)]
        sv39::is_page(w) ==> sv39::path(m2, root, w) == sv39::path(m, root, w) && sv39::page(
            m2,
            root,
            w,
        ) == (if table::pages_between(v, w) < k {
            to(sv39::page(m, root, w))
        } else {
            sv39::page(m, root, w)
        })
    &&& forall|free: Set<int>, shared: Set<int>|
        table::clear_of(shared, v, k) ==> #[trigger] walk::kept(m, free, m2, free, root, shared)
}

/// No page was changed yet.
pub proof fn lemma_changed_start(
    m: Map<int, u64>,
    root: int,
    v: int,
    to: spec_fn(u64) -> u64,
)
    requires
        sv39::tree(m, root),
    ensures
        pages_changed(m, m, root, v, 0, to),
{
    reveal(pages_changed);
    assert forall|free: Set<int>, shared: Set<int>| true implies #[trigger] walk::kept(
        m,
        free,
        m,
        free,
        root,
        shared,
    ) by {
        walk::lemma_kept_refl(m, free, root, shared);
    }
}

/// One more page was changed.
pub proof fn lemma_changed_step(
    m: Map<int, u64>,
    m1: Map<int, u64>,
    m2: Map<int, u64>,
    root: int,
    v: int,
    k: int,
    to: spec_fn(u64) -> u64,
)
    requires
        sv39::is_page(v),
        0 <= k,
        pages_changed(m, m1, root, v, k, to),
        table::page_written(
            m1,
            m2,
            root,
            table::page_after(v, k),
            to(sv39::page(m1, root, table::page_after(v, k))),
        ),
        forall|x: u64| #[trigger] to(to(x)) == to(x),
    ensures
        pages_changed(m, m2, root, v, k + 1, to),
{
    reveal(pages_changed);
    let vk = table::page_after(v, k);
    table::lemma_page_after(v, k);
    assert forall|a: int| sv39::idx(a) implies #[trigger] sv39::entry(m2, root, a) == sv39::entry(
        m,
        root,
        a,
    ) by {
        assert(sv39::entry(m1, root, a) == sv39::entry(m, root, a));
    }
    assert forall|w: int|
        #![trigger sv39::page(m2, root, w)]
        #![trigger sv39::path(m2, root, w)]
        sv39::is_page(w) implies sv39::path(m2, root, w) == sv39::path(m, root, w) && sv39::page(
        m2,
        root,
        w,
    ) == (if table::pages_between(v, w) < k + 1 {
        to(sv39::page(m, root, w))
    } else {
        sv39::page(m, root, w)
    }) by {
        let p1 = sv39::page(m1, root, w);
        assert(p1 == if table::pages_between(v, w) < k {
            to(sv39::page(m, root, w))
        } else {
            sv39::page(m, root, w)
        });
        if k < 0x800_0000 {
            if table::pages_between(v, w) == k {
                assert(w == vk);
            } else if w == vk {
                assert(table::pages_between(v, vk) == k);
            }
        } else {
            assert(table::pages_between(v, w) < k);
        }
    }
    assert forall|free: Set<int>, shared: Set<int>| table::clear_of(
        shared,
        v,
        k + 1,
    ) implies #[trigger] walk::kept(m, free, m2, free, root, shared) by {
        assert(!shared.contains(sv39::i2(table::page_after(v, k))));
        assert(table::clear_of(shared, v, k));
        assert(walk::kept(m, free, m1, free, root, shared));
        assert(walk::kept(m1, free, m2, free, root, shared));
        walk::lemma_kept_trans(m, free, m1, free, m2, free, root, shared);
    }
}

/// A run of changed pages keeps the tables of the tree apart from the free frames.
pub proof fn lemma_changed_disjoint(
    m: Map<int, u64>,
    m2: Map<int, u64>,
    root: int,
    v: int,
    k: int,
    to: spec_fn(u64) -> u64,
    free: Set<int>,
)
    requires
        pages_changed(m, m2, root, v, k, to),
        walk::disjoint_from(m, root, free),
    ensures
        walk::disjoint_from(m2, root, free),
{
    reveal(pages_changed);
    reveal(walk::kept);
    let none = Set::<int>::empty();
    assert(table::clear_of(none, v, k));
    assert(walk::kept(m, free, m2, free, root, none));
    assert forall|t: int| #[trigger] sv39::is_owned(m2, root, none, t) implies !free.contains(
        t,
    ) by {
        assert(sv39::owned(m2, root, none).contains(t));
        assert(sv39::owned(m, root, none).contains(t));
        assert(sv39::is_owned(m, root, none, t));
    }
}

/// Every entry becomes the zero entry.
pub open spec fn cleared() -> spec_fn(u64) -> u64 {
    |e: u64| 0u64
}

/// Every entry keeps its page number and gets the flags `full`.
pub open spec fn reflagged(full: u64) -> spec_fn(u64) -> u64 {
    |e: u64| pte::pte_bits(pte::pte_ppn(e) as u64, full)
}

/// Setting flags twice is setting them once, and leaves a valid entry.
pub proof fn lemma_reflagged(full: u64)
    requires
        full % 2 == 1,
    ensures
        forall|e: u64| #[trigger] reflagged(full)(reflagged(full)(e)) == reflagged(full)(e),
        forall|e: u64| pte::pte_valid(#[trigger] reflagged(full)(e)),
{
    assert forall|e: u64| #[trigger] reflagged(full)(reflagged(full)(e)) == reflagged(full)(e)
        && pte::pte_valid(reflagged(full)(e)) by {
        pte::lemma_pte_bits(pte::pte_ppn(e) as u64, full);
    }
    assert forall|e: u64| pte::pte_valid(#[trigger] reflagged(full)(e)) by {
        pte::lemma_pte_bits(pte::pte_ppn(e) as u64, full);
    }
}

/// Setting the flags of valid entries does not change which pages are valid.
pub proof fn lemma_still_valid(
    m: Map<int, u64>,
    m1: Map<int, u64>,
    root: int,
    v: int,
    k: int,
    full: u64,
)
    requires
        sv39::is_page(v),
        0 <= k,
        full % 2 == 1,
        pages_changed(m, m1, root, v, k, reflagged(full)),
        forall|j: int|
            0 <= j < k ==> pte::pte_valid(
                #[trigger] sv39::page(m, root, table::page_after(v, j)),
            ),
    ensures
        pte::pte_valid(sv39::page(m1, root, table::page_after(v, k))) == pte::pte_valid(
            sv39::page(m, root, table::page_after(v, k)),
        ),
{
    reveal(pages_changed);
    let vk = table::page_after(v, k);
    table::lemma_page_after(v, k);
    lemma_reflagged(full);
    if table::pages_between(v, vk) < k {
        let j = table::pages_between(v, vk);
        assert(table::page_after(v, j) == vk);
        assert(pte::pte_valid(sv39::page(m, root, table::page_after(v, j))));
        assert(pte::pte_valid(reflagged(full)(sv39::page(m, root, vk))));
    }
}

/// Setting the flags of one more page.
pub proof fn lemma_reflag_step(
    m: Map<int, u64>,
    m1: Map<int, u64>,
    m2: Map<int, u64>,
    root: int,
    v: int,
    k: int,
    full: u64,
)
    requires
        sv39::is_page(v),
        0 <= k,
        full % 2 == 1,
        sv39::tree(m1, root),
        pages_changed(m, m1, root, v, k, reflagged(full)),
        sv39::path(m1, root, table::page_after(v, k)),
        m2 == m1.insert(
            sv39::leaf_slot(m1, root, table::page_after(v, k)),
            pte::pte_bits(
                pte::pte_ppn(sv39::page(m1, root, table::page_after(v, k))) as u64,
                full,
            ),
        ),
    ensures
        pages_changed(m, m2, root, v, k + 1, reflagged(full)),
        sv39::tree(m2, root),
        m2.dom() == m1.dom(),
{
    let vk = table::page_after(v, k);
    table::lemma_page_after(v, k);
    lemma_reflagged(full);
    table::lemma_page_written(m1, root, vk, reflagged(full)(sv39::page(m1, root, vk)));
    lemma_changed_step(m, m1, m2, root, v, k, reflagged(full));
}

/// How a request to set the flags of `pages` pages ends: at the first page without a valid entry.
pub open spec fn protect_outcome(
    m: Map<int, u64>,
    m2: Map<int, u64>,
    root: int,
    v: int,
    pages: int,
    flags: u64,
    r: Result<(), MapError>,
) -> bool {
    let to = reflagged(entry::with_valid(flags));
    match r {
        Ok(_) => {
            &&& pages_changed(m, m2, root, v, pages, to)
            &&& forall|j: int|
                0 <= j < pages ==> pte::pte_valid(
                    #[trigger] sv39::page(m, root, table::page_after(v, j)),
                )
        },
        Err(e) => {
            &&& e == MapError::NotMapped
            &&& exists|k: int|
                0 <= k < pages && #[trigger] pages_changed(m, m2, root, v, k, to)
                    && !pte::pte_valid(sv39::page(m, root, table::page_after(v, k))) && (forall|
                    j: int,
                |
                    0 <= j < k ==> pte::pte_valid(
                        #[trigger] sv39::page(m, root, table::page_after(v, j)),
                    ))
        },
    }
}

} // verus!
