//! Walking the page-table tree: finding the entry of a page, with and without creating the tables
//! on the way.
use vstd::prelude::*;
use crate::memory::addr;
use crate::memory::addr::VirtAddr;
use crate::memory::phys;
use crate::memory::phys::PhysMem;
use crate::memory::sv39;
use crate::memory::ways;
use crate::mmu::frames::PageFrameAllocator;
use crate::mmu::pte;
use crate::mmu::pte::PageTableEntry;

verus! {

/// Every entry of the upper two levels that points to a table points to a frame of memory.
pub open spec fn walkable(m: Map<int, u64>, root: int) -> bool {
    &&& phys::has_frame(m, root)
    &&& forall|a: int|
        sv39::idx(a) && #[trigger] sv39::has_l1(m, root, a) ==> phys::has_frame(
            m,
            sv39::l1(m, root, a),
        )
    &&& forall|a: int, b: int|
        sv39::idx(a) && sv39::idx(b) && #[trigger] sv39::has_l0(m, root, a, b) ==> phys::has_frame(
            m,
            sv39::l0(m, root, a, b),
        )
}

/// A sound tree can be walked.
pub proof fn lemma_walkable(m: Map<int, u64>, root: int)
    requires
        sv39::tree(m, root),
    ensures
        walkable(m, root),
{
    reveal(sv39::tree);
    assert forall|a: int| sv39::idx(a) && #[trigger] sv39::has_l1(m, root, a) implies phys::has_frame(
        m,
        sv39::l1(m, root, a),
    ) by {
        assert(pte::pte_valid(sv39::entry(m, root, a)));
    }
    assert forall|a: int, b: int|
        sv39::idx(a) && sv39::idx(b) && #[trigger] sv39::has_l0(m, root, a, b) implies phys::has_frame(
        m,
        sv39::l0(m, root, a, b),
    ) by {
        assert(pte::pte_valid(sv39::entry(m, sv39::l1(m, root, a), b)));
    }
}

/// Number of tables that are missing on the way to page `v`.
pub open spec fn missing(m: Map<int, u64>, root: int, v: int) -> nat {
    if sv39::path(m, root, v) {
        0
    } else if sv39::has_l1(m, root, sv39::i2(v)) {
        1
    } else {
        2
    }
}

/// No table of the tree is free.
pub open spec fn disjoint_from(m: Map<int, u64>, root: int, free: Set<int>) -> bool {
    forall|t: int| #[trigger] sv39::is_owned(m, root, Set::empty(), t) ==> !free.contains(t)
}

/// The entry `i` of the table at `t`.
pub fn read_entry(mem: &PhysMem, t: u64, i: u64) -> (e: PageTableEntry)
    requires
        mem.wf(),
        phys::has_frame(mem@, t as int),
        i < 512,
    ensures
        e.bits == sv39::entry(mem@, t as int, i as int),
{
    assert(mem@.dom().contains(t + 8 * (i as int)));
    PageTableEntry { bits: mem.read_word(t + 8 * i) }
}

/// The address of the entry that describes the page of `va`; `None` if no table describes it.
pub fn find_slot(mem: &PhysMem, root: u64, va: VirtAddr) -> (r: Option<u64>)
    requires
        mem.wf(),
        walkable(mem@, root as int),
    ensures
        r is Some <==> sv39::path(mem@, root as int, addr::page_number(va.0)),
        r matches Some(s) ==> s == sv39::leaf_slot(mem@, root as int, addr::page_number(va.0))
            && mem@.contains_key(s as int) && mem@[s as int] == sv39::page(
            mem@,
            root as int,
            addr::page_number(va.0),
        ),
{
    proof {
        addr::lemma_page_number(va.0);
        sv39::lemma_indices(addr::page_number(va.0));
    }
    let ghost v = addr::page_number(va.0);
    let e2: PageTableEntry = read_entry(mem, root, va.vpn(2));
    if !e2.is_valid() || e2.is_leaf() {
        return None;
    }
    let t1: u64 = e2.paddr();
    assert(sv39::has_l1(mem@, root as int, sv39::i2(v)));
    let e1: PageTableEntry = read_entry(mem, t1, va.vpn(1));
    if !e1.is_valid() || e1.is_leaf() {
        return None;
    }
    let t0: u64 = e1.paddr();
    assert(sv39::has_l0(mem@, root as int, sv39::i2(v), sv39::i1(v)));
    assert(mem@.dom().contains(t0 + 8 * sv39::i0(v)));
    Some(t0 + 8 * va.vpn(0))
}

/// Only the tables outside the root entries of `shared`, and frames that were free, were written;
/// the frames that are no longer free became such tables.
#[verifier::opaque]
pub open spec fn kept(
    m: Map<int, u64>,
    free: Set<int>,
    m2: Map<int, u64>,
    free2: Set<int>,
    root: int,
    shared: Set<int>,
) -> bool {
    &&& sv39::owned(m2, root, shared) == sv39::owned(m, root, shared).union(free.difference(free2))
    &&& phys::same_outside(m, m2, sv39::owned(m, root, shared).union(free.difference(free2)))
    &&& forall|a: int|
        sv39::idx(a) && shared.contains(a) ==> #[trigger] sv39::entry(m2, root, a) == sv39::entry(
            m,
            root,
            a,
        )
}

/// Writing tables twice under the same restrictions.
pub proof fn lemma_kept_trans(
    m: Map<int, u64>,
    free: Set<int>,
    m1: Map<int, u64>,
    free1: Set<int>,
    m2: Map<int, u64>,
    free2: Set<int>,
    root: int,
    shared: Set<int>,
)
    requires
        kept(m, free, m1, free1, root, shared),
        kept(m1, free1, m2, free2, root, shared),
        free1.subset_of(free),
        free2.subset_of(free1),
    ensures
        kept(m, free, m2, free2, root, shared),
{
    reveal(kept);
    let o = sv39::owned(m, root, shared);
    let o1 = sv39::owned(m1, root, shared);
    assert(o1.union(free1.difference(free2)) =~= o.union(free.difference(free2)));
    assert forall|f: int, i: int|
        #![trigger m2[f + 8 * i]]
        f % 4096 == 0 && 0 <= i < 512 && !o.union(free.difference(free2)).contains(
            f,
        ) implies m2[f + 8 * i] == m[f + 8 * i] by {
        assert(!o.union(free.difference(free1)).contains(f));
        assert(!o1.union(free1.difference(free2)).contains(f));
        assert(m2[f + 8 * i] == m1[f + 8 * i]);
        assert(m1[f + 8 * i] == m[f + 8 * i]);
    }
    assert forall|a: int| sv39::idx(a) && shared.contains(a) implies #[trigger] sv39::entry(
        m2,
        root,
        a,
    ) == sv39::entry(m, root, a) by {
        assert(sv39::entry(m1, root, a) == sv39::entry(m, root, a));
    }
}

/// Nothing was written.
pub proof fn lemma_kept_refl(m: Map<int, u64>, free: Set<int>, root: int, shared: Set<int>)
    ensures
        kept(m, free, m, free, root, shared),
{
    reveal(kept);
    assert(sv39::owned(m, root, shared).union(free.difference(free)) =~= sv39::owned(
        m,
        root,
        shared,
    ));
}

/// What holds of the memory and the free frames after tables were created on the way to page `v`.
pub open spec fn grown(
    m: Map<int, u64>,
    free: Set<int>,
    m2: Map<int, u64>,
    free2: Set<int>,
    root: int,
    v: int,
) -> bool {
    &&& m2.dom() == m.dom()
    &&& sv39::tree(m2, root)
    &&& disjoint_from(m2, root, free2)
    &&& free2.subset_of(free)
    &&& forall|w: int| #![trigger sv39::page(m2, root, w)] #![trigger sv39::path(m2, root, w)]
        sv39::is_page(w) ==> sv39::page(m2, root, w) == sv39::page(m, root, w) && (sv39::path(
            m,
            root,
            w,
        ) ==> sv39::path(m2, root, w))
    &&& forall|shared: Set<int>|
        !shared.contains(sv39::i2(v)) ==> #[trigger] kept(m, free, m2, free2, root, shared)
}

/// Creating nothing is a way of growing.
pub proof fn lemma_grown_refl(m: Map<int, u64>, free: Set<int>, root: int, v: int)
    requires
        sv39::tree(m, root),
        disjoint_from(m, root, free),
    ensures
        grown(m, free, m, free, root, v),
{
    assert forall|shared: Set<int>| !shared.contains(sv39::i2(v)) implies #[trigger] kept(
        m,
        free,
        m,
        free,
        root,
        shared,
    ) by {
        lemma_kept_refl(m, free, root, shared);
    }
}

/// Growing twice on the way to one page is growing.
pub proof fn lemma_grown_trans(
    m: Map<int, u64>,
    free: Set<int>,
    m1: Map<int, u64>,
    free1: Set<int>,
    m2: Map<int, u64>,
    free2: Set<int>,
    root: int,
    v: int,
)
    requires
        grown(m, free, m1, free1, root, v),
        grown(m1, free1, m2, free2, root, v),
    ensures
        grown(m, free, m2, free2, root, v),
{
    assert forall|shared: Set<int>| !shared.contains(sv39::i2(v)) implies #[trigger] kept(
        m,
        free,
        m2,
        free2,
        root,
        shared,
    ) by {
        assert(kept(m, free, m1, free1, root, shared));
        assert(kept(m1, free1, m2, free2, root, shared));
        lemma_kept_trans(m, free, m1, free1, m2, free2, root, shared);
    }
}

/// A fresh zeroed frame does not disturb the tree.
proof fn lemma_fresh(m: Map<int, u64>, m1: Map<int, u64>, free: Set<int>, root: int, f: int)
    requires
        sv39::tree(m, root),
        disjoint_from(m, root, free),
        free.contains(f),
        phys::has_frame(m, f),
        phys::same_outside(m, m1, set![f]),
    ensures
        sv39::tree(m1, root),
        !sv39::is_owned(m1, root, Set::empty(), f),
        phys::has_frame(m1, f),
        forall|v: int|
            sv39::is_page(v) ==> #[trigger] sv39::page(m1, root, v) == sv39::page(m, root, v)
                && sv39::path(m1, root, v) == sv39::path(m, root, v),
        forall|a: int|
            sv39::idx(a) ==> #[trigger] sv39::entry(m1, root, a) == sv39::entry(m, root, a),
        forall|a: int, b: int|
            sv39::idx(a) && sv39::idx(b) && sv39::has_l1(m, root, a) ==> #[trigger] sv39::entry(
                m1,
                sv39::l1(m1, root, a),
                b,
            ) == sv39::entry(m, sv39::l1(m, root, a), b),
        forall|shared: Set<int>| #[trigger]
            sv39::owned(m1, root, shared) == sv39::owned(m, root, shared),
{
    assert forall|t: int| #[trigger] sv39::is_owned(m, root, Set::empty(), t) implies !set![
        f,
    ].contains(t) by {}
    sv39::lemma_agree(m, m1, root, set![f]);
    let none = Set::<int>::empty();
    assert(sv39::owned(m1, root, none).contains(f) == sv39::owned(m, root, none).contains(f));
}

/// Writing one entry of the tree after a fresh frame `f` was taken is growing.
proof fn lemma_grown_one(
    m: Map<int, u64>,
    free: Set<int>,
    m1: Map<int, u64>,
    m2: Map<int, u64>,
    root: int,
    v: int,
    f: int,
    t: int,
)
    requires
        sv39::tree(m2, root),
        disjoint_from(m, root, free),
        free.contains(f),
        phys::same_outside(m, m1, set![f]),
        phys::same_outside(m1, m2, set![t]),
        forall|w: int| #![trigger sv39::page(m2, root, w)]
            sv39::is_page(w) ==> sv39::page(m2, root, w) == sv39::page(m, root, w) && (sv39::path(
                m,
                root,
                w,
            ) ==> sv39::path(m2, root, w)),
        forall|a: int|
            sv39::idx(a) && a != sv39::i2(v) ==> #[trigger] sv39::entry(m2, root, a)
                == sv39::entry(m, root, a),
        forall|shared: Set<int>|
            !shared.contains(sv39::i2(v)) ==> #[trigger] sv39::owned(m2, root, shared)
                == sv39::owned(m, root, shared).insert(f),
        forall|shared: Set<int>|
            !shared.contains(sv39::i2(v)) ==> #[trigger] sv39::is_owned(m, root, shared, t),
    ensures
        grown(m, free, m2, free.remove(f), root, v),
{
    reveal(kept);
    let free2 = free.remove(f);
    assert forall|shared: Set<int>| !shared.contains(sv39::i2(v)) implies #[trigger] kept(
        m,
        free,
        m2,
        free2,
        root,
        shared,
    ) by {
        let o = sv39::owned(m, root, shared);
        assert(sv39::owned(m2, root, shared) == o.insert(f));
        assert(o.insert(f) =~= o.union(free.difference(free2)));
        assert(sv39::is_owned(m, root, shared, t));
        assert(o.contains(t));
        assert forall|g: int, i: int|
            #![trigger m2[g + 8 * i]]
            g % 4096 == 0 && 0 <= i < 512 && !o.union(free.difference(free2)).contains(
                g,
            ) implies m2[g + 8 * i] == m[g + 8 * i] by {
            assert(m2[g + 8 * i] == m1[g + 8 * i]);
            assert(m1[g + 8 * i] == m[g + 8 * i]);
        }
    }
    let none = Set::<int>::empty();
    assert forall|u: int| #[trigger] sv39::is_owned(m2, root, none, u) implies !free2.contains(
        u,
    ) by {
        assert(sv39::owned(m2, root, none).contains(u));
        assert(sv39::owned(m, root, none).insert(f).contains(u));
        if u != f {
            assert(sv39::is_owned(m, root, none, u));
        }
    }
}

/// The level-1 table on the way to the page of `va`, created if it is missing; `None` if no frame
/// is left for it.
fn ensure_l1<A: PageFrameAllocator>(
    mem: &mut PhysMem,
    frames: &mut A,
    root: u64,
    va: VirtAddr,
) -> (r: Option<u64>)
    requires
        old(mem).wf(),
        sv39::tree(old(mem)@, root as int),
        old(frames).ready(old(mem)@.dom()),
        disjoint_from(old(mem)@, root as int, old(frames).free()),
    ensures
        final(mem).wf(),
        final(mem).start() == old(mem).start(),
        final(mem).end() == old(mem).end(),
        final(frames).ready(final(mem)@.dom()),
        final(frames).recycles() == old(frames).recycles(),
        grown(
            old(mem)@,
            old(frames).free(),
            final(mem)@,
            final(frames).free(),
            root as int,
            addr::page_number(va.0),
        ),
        ({
            let v = addr::page_number(va.0);
            let had = sv39::has_l1(old(mem)@, root as int, sv39::i2(v));
            match r {
                Some(t) => {
                    &&& sv39::has_l1(final(mem)@, root as int, sv39::i2(v))
                    &&& t == sv39::l1(final(mem)@, root as int, sv39::i2(v))
                    &&& ways::grew(
                        old(mem)@,
                        final(mem)@,
                        root as int,
                        set![(sv39::i2(v), -1int)],
                    )
                    &&& had ==> final(mem)@ == old(mem)@ && final(frames).free() == old(
                        frames,
                    ).free()
                    &&& !had ==> final(frames).free().len() + 1 == old(frames).free().len()
                        && !sv39::path(final(mem)@, root as int, v)
                },
                None => {
                    &&& !had
                    &&& old(frames).free() == Set::<int>::empty()
                    &&& final(mem)@ == old(mem)@
                    &&& final(frames).free() == old(frames).free()
                },
            }
        }),
{
    let ghost m = mem@;
    let ghost free = frames.free();
    let ghost v = addr::page_number(va.0);
    let ghost a = sv39::i2(v);
    proof {
        addr::lemma_page_number(va.0);
        sv39::lemma_indices(v);
        reveal(sv39::tree);
        lemma_grown_refl(m, free, root as int, v);
        frames.lemma_free(m);
    }
    let i: u64 = va.vpn(2);
    let e: PageTableEntry = read_entry(mem, root, i);
    if e.is_valid() {
        assert(pte::pte_valid(sv39::entry(m, root as int, a)));
        proof {
            ways::lemma_grew(m, m, root as int, set![(a, -1int)]);
        }
        return Some(e.paddr());
    }
    match frames.alloc_frame(mem) {
        None => {
            assert(!sv39::has_l1(m, root as int, a));
            None
        },
        Some(frame) => {
            let f: u64 = frame.as_usize();
            let ghost m1 = mem@;
            proof {
                lemma_fresh(m, m1, free, root as int, f as int);
                assert(sv39::entry(m1, root as int, a) == sv39::entry(m, root as int, a));
                sv39::lemma_add_l1(m1, root as int, a, f as int);
            }
            assert(f / 4096 == (f as int) / 4096);
            let e2: PageTableEntry = PageTableEntry::new(f / 4096, PageTableEntry::V);
            mem.write_word(root + 8 * i, e2.as_u64());
            proof {
                let m2 = mem@;
                assert(m2 == m1.insert(root + 8 * a, sv39::table_entry(f as int)));
                assert forall|w: int| #![trigger sv39::page(m2, root as int, w)]
                    sv39::is_page(w) implies sv39::page(m2, root as int, w) == sv39::page(
                    m,
                    root as int,
                    w,
                ) && (sv39::path(m, root as int, w) ==> sv39::path(m2, root as int, w)) by {
                    assert(sv39::page(m1, root as int, w) == sv39::page(m, root as int, w));
                }
                assert forall|a2: int| sv39::idx(a2) && a2 != a implies #[trigger] sv39::entry(
                    m2,
                    root as int,
                    a2,
                ) == sv39::entry(m, root as int, a2) by {
                    assert(sv39::entry(m1, root as int, a2) == sv39::entry(m, root as int, a2));
                }
                assert forall|shared: Set<int>| !shared.contains(a) implies #[trigger] sv39::owned(
                    m2,
                    root as int,
                    shared,
                ) == sv39::owned(m, root as int, shared).insert(f as int) by {
                    assert(sv39::owned(m1, root as int, shared) == sv39::owned(
                        m,
                        root as int,
                        shared,
                    ));
                }
                lemma_grown_one(m, free, m1, m2, root as int, v, f as int, root as int);
                assert(!sv39::path(m, root as int, v));
                assert(sv39::page(m1, root as int, v) == sv39::page(m, root as int, v));
                assert(!sv39::path(m1, root as int, v));
                assert(sv39::page(m2, root as int, v) == sv39::page(m, root as int, v));
                assert forall|w: int| sv39::is_page(w) implies #[trigger] sv39::path(
                    m2,
                    root as int,
                    w,
                ) == (sv39::path(m, root as int, w) || set![(a, -1int)].contains(
                    (sv39::i2(w), sv39::i1(w)),
                )) by {
                    sv39::lemma_indices(w);
                    assert(sv39::page(m1, root as int, w) == sv39::page(m, root as int, w));
                }
                assert forall|a2: int| sv39::idx(a2) implies #[trigger] sv39::has_l1(
                    m2,
                    root as int,
                    a2,
                ) == (sv39::has_l1(m, root as int, a2) || set![(a, -1int)].contains(
                    (a2, -1int),
                )) by {
                    if a2 != a {
                        assert(sv39::entry(m2, root as int, a2) == sv39::entry(m, root as int, a2));
                    }
                }
                ways::lemma_grew(m, m2, root as int, set![(a, -1int)]);
            }
            Some(f)
        },
    }
}

/// The level-1 table and then the level-0 table on the way to page `v` are there.
proof fn lemma_grew_way(m: Map<int, u64>, m1: Map<int, u64>, m2: Map<int, u64>, root: int, v: int)
    requires
        sv39::is_page(v),
        ways::grew(m, m1, root, set![(sv39::i2(v), -1int)]),
        sv39::path(m2, root, v),
        forall|w: int|
            sv39::is_page(w) ==> #[trigger] sv39::path(m2, root, w) == (sv39::path(m1, root, w)
                || sv39::i2(w) == sv39::i2(v) && sv39::i1(w) == sv39::i1(v)),
        forall|a: int|
            sv39::idx(a) ==> #[trigger] sv39::has_l1(m2, root, a) == sv39::has_l1(m1, root, a),
    ensures
        ways::grew(m, m2, root, ways::way(v)),
{
    let s = set![(sv39::i2(v), -1int)];
    let t = set![(sv39::i2(v), sv39::i1(v))];
    sv39::lemma_indices(v);
    assert forall|w: int| sv39::is_page(w) implies #[trigger] sv39::path(m2, root, w) == (sv39::path(
        m1,
        root,
        w,
    ) || t.contains((sv39::i2(w), sv39::i1(w)))) by {}
    ways::lemma_grew(m1, m2, root, t);
    ways::lemma_grew_trans(m, m1, m2, root, s, t);
    assert(s.union(t) =~= ways::way(v));
}

/// The address of the entry that describes the page of `va`, with the tables on the way created
/// where they are missing; `None` if the frames do not suffice.
pub fn ensure_slot<A: PageFrameAllocator>(
    mem: &mut PhysMem,
    frames: &mut A,
    root: u64,
    va: VirtAddr,
) -> (r: Option<u64>)
    requires
        old(mem).wf(),
        sv39::tree(old(mem)@, root as int),
        old(frames).ready(old(mem)@.dom()),
        disjoint_from(old(mem)@, root as int, old(frames).free()),
    ensures
        final(mem).wf(),
        final(mem).start() == old(mem).start(),
        final(mem).end() == old(mem).end(),
        final(frames).ready(final(mem)@.dom()),
        final(frames).recycles() == old(frames).recycles(),
        grown(
            old(mem)@,
            old(frames).free(),
            final(mem)@,
            final(frames).free(),
            root as int,
            addr::page_number(va.0),
        ),
        ({
            let v = addr::page_number(va.0);
            let need = missing(old(mem)@, root as int, v);
            &&& r is Some <==> need <= old(frames).free().len()
            &&& r is Some ==> final(frames).free().len() + need == old(frames).free().len()
            &&& r is Some ==> ways::grew(old(mem)@, final(mem)@, root as int, ways::way(v))
            &&& need == 0 ==> final(mem)@ == old(mem)@
            &&& r matches Some(s) ==> sv39::path(final(mem)@, root as int, v) && s
                == sv39::leaf_slot(final(mem)@, root as int, v) && final(mem)@.contains_key(
                s as int,
            )
            &&& r is None ==> final(frames).free() == Set::<int>::empty() && !sv39::path(
                final(mem)@,
                root as int,
                v,
            )
        }),
{
    let ghost m = mem@;
    let ghost free = frames.free();
    let ghost v = addr::page_number(va.0);
    let ghost a = sv39::i2(v);
    let ghost b = sv39::i1(v);
    proof {
        addr::lemma_page_number(va.0);
        sv39::lemma_indices(v);
        frames.lemma_free(m);
    }
    let t1: u64 = match ensure_l1(mem, frames, root, va) {
        None => {
            return None;
        },
        Some(t) => t,
    };
    let ghost m1 = mem@;
    let ghost free1 = frames.free();
    proof {
        reveal(sv39::tree);
        lemma_walkable(m1, root as int);
        lemma_grown_refl(m1, free1, root as int, v);
        frames.lemma_free(m1);
        assert(sv39::page(m1, root as int, v) == sv39::page(m, root as int, v));
    }
    let i: u64 = va.vpn(1);
    let e: PageTableEntry = read_entry(mem, t1, i);
    if e.is_valid() {
        assert(pte::pte_valid(sv39::entry(m1, sv39::l1(m1, root as int, a), b)));
        let t0: u64 = e.paddr();
        assert(sv39::has_l0(m1, root as int, a, b));
        assert(mem@.dom().contains(t0 + 8 * sv39::i0(v)));
        proof {
            lemma_grew_way(m, m1, m1, root as int, v);
        }
        return Some(t0 + 8 * va.vpn(0));
    }
    assert(!sv39::path(m1, root as int, v));
    match frames.alloc_frame(mem) {
        None => None,
        Some(frame) => {
            let f: u64 = frame.as_usize();
            let ghost m2 = mem@;
            proof {
                lemma_fresh(m1, m2, free1, root as int, f as int);
                assert(sv39::entry(m2, root as int, a) == sv39::entry(m1, root as int, a));
                assert(sv39::entry(m2, sv39::l1(m2, root as int, a), b) == sv39::entry(
                    m1,
                    sv39::l1(m1, root as int, a),
                    b,
                ));
                sv39::lemma_add_l0(m2, root as int, a, b, f as int);
            }
            assert(f / 4096 == (f as int) / 4096);
            let e2: PageTableEntry = PageTableEntry::new(f / 4096, PageTableEntry::V);
            mem.write_word(t1 + 8 * i, e2.as_u64());
            proof {
                let m3 = mem@;
                assert(m3 == m2.insert(t1 + 8 * b, sv39::table_entry(f as int)));
                assert forall|w: int| #![trigger sv39::page(m3, root as int, w)]
                    sv39::is_page(w) implies sv39::page(m3, root as int, w) == sv39::page(
                    m1,
                    root as int,
                    w,
                ) && (sv39::path(m1, root as int, w) ==> sv39::path(m3, root as int, w)) by {
                    assert(sv39::page(m2, root as int, w) == sv39::page(m1, root as int, w));
                }
                assert forall|a2: int| sv39::idx(a2) && a2 != a implies #[trigger] sv39::entry(
                    m3,
                    root as int,
                    a2,
                ) == sv39::entry(m1, root as int, a2) by {
                    assert(sv39::entry(m2, root as int, a2) == sv39::entry(m1, root as int, a2));
                }
                assert forall|shared: Set<int>| !shared.contains(a) implies #[trigger] sv39::owned(
                    m3,
                    root as int,
                    shared,
                ) == sv39::owned(m1, root as int, shared).insert(f as int) by {
                    assert(sv39::owned(m2, root as int, shared) == sv39::owned(
                        m1,
                        root as int,
                        shared,
                    ));
                }
                assert forall|shared: Set<int>| !shared.contains(
                    a,
                ) implies #[trigger] sv39::is_owned(m1, root as int, shared, t1 as int) by {
                    assert(sv39::l1(m1, root as int, a) == t1);
                }
                lemma_grown_one(m1, free1, m2, m3, root as int, v, f as int, t1 as int);
                lemma_grown_trans(
                    m,
                    free,
                    m1,
                    free1,
                    m3,
                    free1.remove(f as int),
                    root as int,
                    v,
                );
                assert(sv39::page(m3, root as int, v) == sv39::page(m1, root as int, v));
                assert(sv39::has_l0(m3, root as int, a, b));
                lemma_walkable(m3, root as int);
                assert(m3.dom().contains(f + 8 * sv39::i0(v)));
                assert forall|w: int| sv39::is_page(w) implies #[trigger] sv39::path(
                    m3,
                    root as int,
                    w,
                ) == (sv39::path(m1, root as int, w) || sv39::i2(w) == a && sv39::i1(w) == b) by {
                    assert(sv39::page(m2, root as int, w) == sv39::page(m1, root as int, w));
                }
                assert forall|a2: int| sv39::idx(a2) implies #[trigger] sv39::has_l1(
                    m3,
                    root as int,
                    a2,
                ) == sv39::has_l1(m1, root as int, a2) by {
                    assert(sv39::entry(m2, root as int, a2) == sv39::entry(m1, root as int, a2));
                    assert(sv39::entry(m3, root as int, a2) == sv39::entry(m2, root as int, a2));
                }
                lemma_grew_way(m, m1, m3, root as int, v);
            }
            Some(f + 8 * va.vpn(0))
        },
    }
}

/// How an attempt to install a page entry ended.
pub enum Installed {
    /// The entry was written.
    Done,
    /// The page has a valid entry already.
    Taken,
    /// No frame was left for a table.
    NoFrame,
}

/// Overwriting the entry of page `v`, whose tables exist, as a change of memory.
pub proof fn lemma_write_leaf(m: Map<int, u64>, free: Set<int>, root: int, v: int, bits: u64)
    requires
        sv39::tree(m, root),
        sv39::is_page(v),
        sv39::path(m, root, v),
        disjoint_from(m, root, free),
    ensures
        m.contains_key(sv39::leaf_slot(m, root, v)),
        ({
            let m2 = m.insert(sv39::leaf_slot(m, root, v), bits);
            &&& m2.dom() == m.dom()
            &&& sv39::tree(m2, root)
            &&& disjoint_from(m2, root, free)
            &&& forall|w: int| #![trigger sv39::page(m2, root, w)] #![trigger sv39::path(m2, root, w)]
                sv39::is_page(w) ==> sv39::path(m2, root, w) == sv39::path(m, root, w)
                    && sv39::page(m2, root, w) == (if w == v {
                    bits
                } else {
                    sv39::page(m, root, w)
                })
            &&& forall|a: int|
                sv39::idx(a) ==> #[trigger] sv39::entry(m2, root, a) == sv39::entry(m, root, a)
            &&& forall|shared: Set<int>|
                !shared.contains(sv39::i2(v)) ==> #[trigger] kept(m, free, m2, free, root, shared)
        }),
{
    reveal(kept);
    sv39::lemma_set_leaf(m, root, v, bits);
    sv39::lemma_indices(v);
    let m2 = m.insert(sv39::leaf_slot(m, root, v), bits);
    let t = sv39::l0(m, root, sv39::i2(v), sv39::i1(v));
    let none = Set::<int>::empty();
    assert(m2.dom() =~= m.dom());
    assert forall|u: int| #[trigger] sv39::is_owned(m2, root, none, u) implies !free.contains(u) by {
        assert(sv39::owned(m2, root, none).contains(u));
        assert(sv39::owned(m, root, none).contains(u));
        assert(sv39::is_owned(m, root, none, u));
    }
    assert forall|shared: Set<int>| !shared.contains(sv39::i2(v)) implies #[trigger] kept(
        m,
        free,
        m2,
        free,
        root,
        shared,
    ) by {
        let o = sv39::owned(m, root, shared);
        assert(o.union(free.difference(free)) =~= o);
        assert(sv39::owned(m2, root, shared) == o);
        assert(sv39::is_owned(m, root, shared, t));
        assert(o.contains(t));
    }
}

/// Writing the entry of a page leaves the tables.
pub proof fn lemma_leaf_keeps_tables(
    m: Map<int, u64>,
    m1: Map<int, u64>,
    m2: Map<int, u64>,
    root: int,
    s: Set<(int, int)>,
)
    requires
        ways::grew(m, m1, root, s),
        forall|w: int|
            sv39::is_page(w) ==> #[trigger] sv39::path(m2, root, w) == sv39::path(m1, root, w),
        forall|a: int|
            sv39::idx(a) ==> #[trigger] sv39::entry(m2, root, a) == sv39::entry(m1, root, a),
    ensures
        ways::grew(m, m2, root, s),
{
    let none = Set::<(int, int)>::empty();
    assert forall|a: int| sv39::idx(a) implies #[trigger] sv39::has_l1(m2, root, a) == sv39::has_l1(
        m1,
        root,
        a,
    ) by {
        assert(sv39::entry(m2, root, a) == sv39::entry(m1, root, a));
    }
    ways::lemma_grew(m1, m2, root, none);
    ways::lemma_grew_trans(m, m1, m2, root, s, none);
    assert(s.union(none) =~= s);
}

/// Writes `bits` into the entry of the page of `va`, creating the tables on the way, unless the
/// page has a valid entry.
pub fn install<A: PageFrameAllocator>(
    mem: &mut PhysMem,
    frames: &mut A,
    root: u64,
    va: VirtAddr,
    bits: u64,
) -> (r: Installed)
    requires
        old(mem).wf(),
        sv39::tree(old(mem)@, root as int),
        old(frames).ready(old(mem)@.dom()),
        disjoint_from(old(mem)@, root as int, old(frames).free()),
    ensures
        final(mem).wf(),
        final(mem).start() == old(mem).start(),
        final(mem).end() == old(mem).end(),
        final(mem)@.dom() == old(mem)@.dom(),
        final(frames).ready(final(mem)@.dom()),
        final(frames).recycles() == old(frames).recycles(),
        final(frames).free().subset_of(old(frames).free()),
        sv39::tree(final(mem)@, root as int),
        disjoint_from(final(mem)@, root as int, final(frames).free()),
        forall|shared: Set<int>|
            !shared.contains(sv39::i2(addr::page_number(va.0))) ==> #[trigger] kept(
                old(mem)@,
                old(frames).free(),
                final(mem)@,
                final(frames).free(),
                root as int,
                shared,
            ),
        ({
            let v = addr::page_number(va.0);
            let taken = pte::pte_valid(sv39::page(old(mem)@, root as int, v));
            let need = missing(old(mem)@, root as int, v);
            &&& r is Taken <==> taken
            &&& r is NoFrame <==> need > old(frames).free().len()
            &&& r is Taken ==> final(mem)@ == old(mem)@ && final(frames).free() == old(
                frames,
            ).free()
            &&& r is NoFrame ==> final(frames).free() == Set::<int>::empty() && !sv39::path(
                final(mem)@,
                root as int,
                v,
            )
            &&& r is Done ==> final(frames).free().len() + need == old(frames).free().len()
                && sv39::path(final(mem)@, root as int, v) && ways::grew(
                old(mem)@,
                final(mem)@,
                root as int,
                ways::way(v),
            )
            &&& forall|w: int|
                #![trigger sv39::page(final(mem)@, root as int, w)]
                #![trigger sv39::path(final(mem)@, root as int, w)]
                sv39::is_page(w) ==> sv39::page(final(mem)@, root as int, w) == (if r is Done && w
                    == v {
                    bits
                } else {
                    sv39::page(old(mem)@, root as int, w)
                }) && (sv39::path(old(mem)@, root as int, w) ==> sv39::path(
                    final(mem)@,
                    root as int,
                    w,
                ))
        }),
{
    let ghost m = mem@;
    let ghost free = frames.free();
    let ghost v = addr::page_number(va.0);
    proof {
        addr::lemma_page_number(va.0);
        frames.lemma_free(m);
    }
    match ensure_slot(mem, frames, root, va) {
        None => Installed::NoFrame,
        Some(slot) => {
            let ghost m1 = mem@;
            let ghost free1 = frames.free();
            assert(sv39::page(m1, root as int, v) == sv39::page(m, root as int, v));
            let e: PageTableEntry = PageTableEntry { bits: mem.read_word(slot) };
            if e.is_valid() {
                assert(sv39::path(m, root as int, v));
                proof {
                    frames.lemma_free(mem@);
                    vstd::set_lib::lemma_subset_equality(frames.free(), free);
                }
                return Installed::Taken;
            }
            proof {
                lemma_write_leaf(m1, free1, root as int, v, bits);
            }
            mem.write_word(slot, bits);
            proof {
                let m2 = mem@;
                assert forall|shared: Set<int>| !shared.contains(
                    sv39::i2(v),
                ) implies #[trigger] kept(m, free, m2, free1, root as int, shared) by {
                    assert(kept(m, free, m1, free1, root as int, shared));
                    assert(kept(m1, free1, m2, free1, root as int, shared));
                    lemma_kept_trans(m, free, m1, free1, m2, free1, root as int, shared);
                }
                assert forall|w: int| #![trigger sv39::page(m2, root as int, w)]
                    sv39::is_page(w) implies sv39::page(m2, root as int, w) == (if w == v {
                    bits
                } else {
                    sv39::page(m, root as int, w)
                }) && (sv39::path(m, root as int, w) ==> sv39::path(m2, root as int, w)) by {
                    assert(sv39::page(m1, root as int, w) == sv39::page(m, root as int, w));
                }
                assert(sv39::path(m2, root as int, v));
                lemma_leaf_keeps_tables(m, m1, m2, root as int, ways::way(v));
            }
            Installed::Done
        },
    }
}

} // verus!
