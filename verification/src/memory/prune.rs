//! Cutting tables off a page-table tree.
use vstd::prelude::*;
use crate::memory::graft;
use crate::memory::phys;
use crate::memory::sv39;
use crate::memory::walk;
use crate::mmu::pte;

verus! {

/// Clearing the level-1 entry of a level-0 table cuts that table off.
pub proof fn lemma_cut_l0(m: Map<int, u64>, root: int, a: int, b: int)
    requires
        sv39::tree(m, root),
        sv39::idx(a),
        sv39::idx(b),
        sv39::has_l0(m, root, a, b),
    ensures
        m.contains_key(sv39::l1(m, root, a) + 8 * b),
        ({
            let t1 = sv39::l1(m, root, a);
            let m2 = m.insert(t1 + 8 * b, 0);
            &&& m2.dom() == m.dom()
            &&& sv39::tree(m2, root)
            &&& sv39::l1(m2, root, a) == t1
            &&& forall|a2: int|
                sv39::idx(a2) ==> #[trigger] sv39::entry(m2, root, a2) == sv39::entry(m, root, a2)
            &&& forall|b2: int|
                sv39::idx(b2) ==> #[trigger] sv39::entry(m2, t1, b2) == (if b2 == b {
                    0
                } else {
                    sv39::entry(m, t1, b2)
                })
            &&& forall|shared: Set<int>|
                !shared.contains(a) ==> #[trigger] sv39::owned(m2, root, shared) == sv39::owned(
                    m,
                    root,
                    shared,
                ).remove(sv39::l0(m, root, a, b))
            &&& phys::same_outside(m, m2, set![t1])
        }),
{
    reveal(sv39::tree);
    let t1 = sv39::l1(m, root, a);
    let t0 = sv39::l0(m, root, a, b);
    let s = t1 + 8 * b;
    let m2 = m.insert(s, 0);
    assert(pte::pte_valid(sv39::entry(m, root, a)));
    assert(phys::has_frame(m, t1));
    assert(m.contains_key(s));
    assert(m2.dom() =~= m.dom());
    assert forall|g: int, i: int|
        #![trigger m2[g + 8 * i]]
        g % 4096 == 0 && 0 <= i < 512 && (g != t1 || i != b) implies m2[g + 8 * i] == m[g + 8
        * i] by {
        if g + 8 * i == s {
            sv39::lemma_word(g, i, t1, b);
        }
    }
    assert forall|a2: int| sv39::idx(a2) implies #[trigger] sv39::entry(m2, root, a2)
        == sv39::entry(m, root, a2) by {
        assert(m2[root + 8 * a2] == m[root + 8 * a2]);
    }
    assert forall|a2: int| sv39::idx(a2) implies #[trigger] sv39::has_l1(m2, root, a2)
        == sv39::has_l1(m, root, a2) && sv39::l1(m2, root, a2) == sv39::l1(m, root, a2) by {
        assert(sv39::entry(m2, root, a2) == sv39::entry(m, root, a2));
    }
    assert(sv39::entry(m2, t1, b) == 0);
    assert forall|b2: int| sv39::idx(b2) && b2 != b implies #[trigger] sv39::entry(m2, t1, b2)
        == sv39::entry(m, t1, b2) by {
        assert(m2[t1 + 8 * b2] == m[t1 + 8 * b2]);
    }
    assert(!sv39::has_l0(m2, root, a, b));
    assert forall|a2: int, b2: int|
        sv39::idx(a2) && sv39::idx(b2) && (a2 != a || b2 != b) && sv39::has_l1(
            m,
            root,
            a2,
        ) implies #[trigger] sv39::entry(m2, sv39::l1(m2, root, a2), b2) == sv39::entry(
        m,
        sv39::l1(m, root, a2),
        b2,
    ) by {
        let u = sv39::l1(m, root, a2);
        assert(pte::pte_valid(sv39::entry(m, root, a2)));
        assert(phys::has_frame(m, u));
        assert(sv39::has_l1(m2, root, a2) == sv39::has_l1(m, root, a2));
        if a2 != a {
            assert(u != t1);
        }
        assert(m2[u + 8 * b2] == m[u + 8 * b2]);
    }
    assert forall|a2: int, b2: int|
        sv39::idx(a2) && sv39::idx(b2) && (a2 != a || b2 != b) implies #[trigger] sv39::has_l0(
        m2,
        root,
        a2,
        b2,
    ) == sv39::has_l0(m, root, a2, b2) && (sv39::has_l0(m, root, a2, b2) ==> sv39::l0(
        m2,
        root,
        a2,
        b2,
    ) == sv39::l0(m, root, a2, b2)) by {
        assert(sv39::has_l1(m2, root, a2) == sv39::has_l1(m, root, a2));
        if sv39::has_l1(m, root, a2) {
            assert(sv39::entry(m2, sv39::l1(m2, root, a2), b2) == sv39::entry(
                m,
                sv39::l1(m, root, a2),
                b2,
            ));
        }
    }
    assert forall|a2: int, b2: int|
        sv39::idx(a2) && sv39::idx(b2) && sv39::has_l0(m2, root, a2, b2) implies #[trigger] sv39::l0(
        m2,
        root,
        a2,
        b2,
    ) != t0 && sv39::has_l0(m, root, a2, b2) by {
        assert(sv39::has_l0(m2, root, a2, b2) == sv39::has_l0(m, root, a2, b2));
        assert(sv39::l0(m, root, a2, b2) != sv39::l0(m, root, a, b));
    }
    assert(sv39::tree(m2, root)) by {
        assert forall|a2: int, b2: int|
            sv39::idx(a2) && sv39::idx(b2) && sv39::has_l1(m2, root, a2) && pte::pte_valid(
                #[trigger] sv39::entry(m2, sv39::l1(m2, root, a2), b2),
            ) implies {
            &&& sv39::has_l0(m2, root, a2, b2)
            &&& phys::has_frame(m2, sv39::l0(m2, root, a2, b2))
            &&& sv39::l0(m2, root, a2, b2) != root
        } by {
            assert(sv39::has_l1(m2, root, a2) == sv39::has_l1(m, root, a2));
            assert(a2 != a || b2 != b);
            assert(pte::pte_valid(sv39::entry(m, sv39::l1(m, root, a2), b2)));
            assert(sv39::has_l0(m2, root, a2, b2) == sv39::has_l0(m, root, a2, b2));
        }
    }
    assert forall|shared: Set<int>| !shared.contains(a) implies #[trigger] sv39::owned(
        m2,
        root,
        shared,
    ) == sv39::owned(m, root, shared).remove(t0) by {
        assert forall|t: int| #[trigger]
            sv39::owned(m2, root, shared).contains(t) == sv39::owned(m, root, shared).remove(
                t0,
            ).contains(t) by {
            if sv39::is_owned(m2, root, shared, t) && t != root {
                let p = graft::owned_position(m2, root, shared, t);
                assert(sv39::has_l1(m2, root, p.0) == sv39::has_l1(m, root, p.0));
                if p.1 == -1 {
                    graft::lemma_owns_l1(m, root, shared, p.0);
                    assert(sv39::l0(m, root, a, b) != sv39::l1(m, root, p.0));
                } else {
                    assert(sv39::has_l0(m2, root, p.0, p.1) == sv39::has_l0(m, root, p.0, p.1));
                    assert(sv39::l0(m2, root, p.0, p.1) != t0);
                    graft::lemma_owns_l0(m, root, shared, p.0, p.1);
                }
            }
            if sv39::is_owned(m, root, shared, t) && t != root && t != t0 {
                let p = graft::owned_position(m, root, shared, t);
                assert(sv39::has_l1(m2, root, p.0) == sv39::has_l1(m, root, p.0));
                if p.1 == -1 {
                    graft::lemma_owns_l1(m2, root, shared, p.0);
                } else {
                    assert(sv39::has_l0(m2, root, p.0, p.1) == sv39::has_l0(m, root, p.0, p.1));
                    graft::lemma_owns_l0(m2, root, shared, p.0, p.1);
                }
            }
            assert(pte::pte_valid(sv39::entry(m, t1, b)));
        }
        assert(sv39::owned(m2, root, shared) =~= sv39::owned(m, root, shared).remove(t0));
    }
}

/// Clearing the root entry of a level-1 table without level-0 tables cuts that table off.
pub proof fn lemma_cut_l1(m: Map<int, u64>, root: int, a: int)
    requires
        sv39::tree(m, root),
        sv39::idx(a),
        sv39::has_l1(m, root, a),
        forall|b: int| sv39::idx(b) ==> !(#[trigger] sv39::has_l0(m, root, a, b)),
    ensures
        m.contains_key(root + 8 * a),
        ({
            let m2 = m.insert(root + 8 * a, 0);
            &&& m2.dom() == m.dom()
            &&& sv39::tree(m2, root)
            &&& sv39::entry(m2, root, a) == 0
            &&& forall|a2: int|
                sv39::idx(a2) && a2 != a ==> #[trigger] sv39::entry(m2, root, a2) == sv39::entry(
                    m,
                    root,
                    a2,
                )
            &&& forall|shared: Set<int>|
                !shared.contains(a) ==> #[trigger] sv39::owned(m2, root, shared) == sv39::owned(
                    m,
                    root,
                    shared,
                ).remove(sv39::l1(m, root, a))
            &&& phys::same_outside(m, m2, set![root])
        }),
{
    reveal(sv39::tree);
    let t1 = sv39::l1(m, root, a);
    let s = root + 8 * a;
    let m2 = m.insert(s, 0);
    assert(pte::pte_valid(sv39::entry(m, root, a)));
    assert(m.contains_key(s));
    assert(m2.dom() =~= m.dom());
    assert forall|g: int, i: int|
        #![trigger m2[g + 8 * i]]
        g % 4096 == 0 && 0 <= i < 512 && (g != root || i != a) implies m2[g + 8 * i] == m[g + 8
        * i] by {
        if g + 8 * i == s {
            sv39::lemma_word(g, i, root, a);
        }
    }
    assert(sv39::entry(m2, root, a) == 0);
    assert(!sv39::has_l1(m2, root, a));
    assert forall|a2: int| sv39::idx(a2) && a2 != a implies #[trigger] sv39::entry(m2, root, a2)
        == sv39::entry(m, root, a2) by {
        assert(m2[root + 8 * a2] == m[root + 8 * a2]);
    }
    assert forall|a2: int| sv39::idx(a2) && a2 != a implies #[trigger] sv39::has_l1(m2, root, a2)
        == sv39::has_l1(m, root, a2) && sv39::l1(m2, root, a2) == sv39::l1(m, root, a2) by {
        assert(sv39::entry(m2, root, a2) == sv39::entry(m, root, a2));
    }
    assert forall|a2: int, b2: int|
        sv39::idx(a2) && sv39::idx(b2) && a2 != a && sv39::has_l1(m, root, a2) implies #[trigger] sv39::entry(
        m2,
        sv39::l1(m2, root, a2),
        b2,
    ) == sv39::entry(m, sv39::l1(m, root, a2), b2) by {
        let u = sv39::l1(m, root, a2);
        assert(pte::pte_valid(sv39::entry(m, root, a2)));
        assert(phys::has_frame(m, u));
        assert(sv39::has_l1(m2, root, a2) == sv39::has_l1(m, root, a2));
        assert(m2[u + 8 * b2] == m[u + 8 * b2]);
    }
    assert forall|a2: int, b2: int| sv39::idx(a2) && sv39::idx(b2) implies #[trigger] sv39::has_l0(
        m2,
        root,
        a2,
        b2,
    ) == sv39::has_l0(m, root, a2, b2) && (sv39::has_l0(m, root, a2, b2) ==> sv39::l0(
        m2,
        root,
        a2,
        b2,
    ) == sv39::l0(m, root, a2, b2)) by {
        if a2 != a {
            assert(sv39::has_l1(m2, root, a2) == sv39::has_l1(m, root, a2));
            if sv39::has_l1(m, root, a2) {
                assert(sv39::entry(m2, sv39::l1(m2, root, a2), b2) == sv39::entry(
                    m,
                    sv39::l1(m, root, a2),
                    b2,
                ));
            }
        }
    }
    assert(sv39::tree(m2, root)) by {
        assert forall|a2: int, b2: int|
            sv39::idx(a2) && sv39::idx(b2) && sv39::has_l1(m2, root, a2) && pte::pte_valid(
                #[trigger] sv39::entry(m2, sv39::l1(m2, root, a2), b2),
            ) implies {
            &&& sv39::has_l0(m2, root, a2, b2)
            &&& phys::has_frame(m2, sv39::l0(m2, root, a2, b2))
            &&& sv39::l0(m2, root, a2, b2) != root
        } by {
            assert(a2 != a);
            assert(sv39::has_l1(m2, root, a2) == sv39::has_l1(m, root, a2));
            assert(pte::pte_valid(sv39::entry(m, sv39::l1(m, root, a2), b2)));
            assert(sv39::has_l0(m2, root, a2, b2) == sv39::has_l0(m, root, a2, b2));
        }
    }
    assert forall|shared: Set<int>| !shared.contains(a) implies #[trigger] sv39::owned(
        m2,
        root,
        shared,
    ) == sv39::owned(m, root, shared).remove(t1) by {
        assert forall|t: int| #[trigger]
            sv39::owned(m2, root, shared).contains(t) == sv39::owned(m, root, shared).remove(
                t1,
            ).contains(t) by {
            if sv39::is_owned(m2, root, shared, t) && t != root {
                let p = graft::owned_position(m2, root, shared, t);
                assert(p.0 != a);
                assert(sv39::has_l1(m2, root, p.0) == sv39::has_l1(m, root, p.0));
                if p.1 == -1 {
                    graft::lemma_owns_l1(m, root, shared, p.0);
                    assert(sv39::l1(m, root, a) != sv39::l1(m, root, p.0));
                } else {
                    assert(sv39::has_l0(m2, root, p.0, p.1) == sv39::has_l0(m, root, p.0, p.1));
                    graft::lemma_owns_l0(m, root, shared, p.0, p.1);
                    assert(sv39::l0(m, root, p.0, p.1) != sv39::l1(m, root, a));
                }
            }
            if sv39::is_owned(m, root, shared, t) && t != root && t != t1 {
                let p = graft::owned_position(m, root, shared, t);
                if p.1 == -1 {
                    assert(p.0 != a);
                    assert(sv39::has_l1(m2, root, p.0) == sv39::has_l1(m, root, p.0));
                    graft::lemma_owns_l1(m2, root, shared, p.0);
                } else {
                    assert(sv39::has_l0(m2, root, p.0, p.1) == sv39::has_l0(m, root, p.0, p.1));
                    graft::lemma_owns_l0(m2, root, shared, p.0, p.1);
                }
            }
        }
        assert(sv39::owned(m2, root, shared) =~= sv39::owned(m, root, shared).remove(t1));
    }
}

/// The free frames after the tables of `gone` were given back.
pub open spec fn released(free: Set<int>, gone: Set<int>, recycles: bool) -> Set<int> {
    if recycles {
        free.union(gone)
    } else {
        free
    }
}

/// Tables outside the root entries of `shared` were cut off and given back; no other memory was
/// written.
#[verifier::opaque]
pub open spec fn pruned(
    m: Map<int, u64>,
    free: Set<int>,
    m2: Map<int, u64>,
    free2: Set<int>,
    root: int,
    shared: Set<int>,
    recycles: bool,
) -> bool {
    &&& m2.dom() == m.dom()
    &&& sv39::tree(m2, root)
    &&& sv39::owned(m2, root, shared).subset_of(sv39::owned(m, root, shared))
    &&& free2 == released(
        free,
        sv39::owned(m, root, shared).difference(sv39::owned(m2, root, shared)),
        recycles,
    )
    &&& phys::same_outside(m, m2, sv39::owned(m, root, shared))
    &&& walk::disjoint_from(m2, root, free2)
    &&& forall|a: int|
        sv39::idx(a) && shared.contains(a) ==> #[trigger] sv39::entry(m2, root, a) == sv39::entry(
            m,
            root,
            a,
        )
}

/// Cutting nothing off.
pub proof fn lemma_pruned_refl(
    m: Map<int, u64>,
    free: Set<int>,
    root: int,
    shared: Set<int>,
    recycles: bool,
)
    requires
        sv39::tree(m, root),
        walk::disjoint_from(m, root, free),
    ensures
        pruned(m, free, m, free, root, shared, recycles),
{
    reveal(pruned);
    let o = sv39::owned(m, root, shared);
    assert(free.union(o.difference(o)) =~= free);
}

/// Cutting off twice.
pub proof fn lemma_pruned_trans(
    m: Map<int, u64>,
    free: Set<int>,
    m1: Map<int, u64>,
    free1: Set<int>,
    m2: Map<int, u64>,
    free2: Set<int>,
    root: int,
    shared: Set<int>,
    recycles: bool,
)
    requires
        pruned(m, free, m1, free1, root, shared, recycles),
        pruned(m1, free1, m2, free2, root, shared, recycles),
    ensures
        pruned(m, free, m2, free2, root, shared, recycles),
{
    reveal(pruned);
    let o = sv39::owned(m, root, shared);
    let o1 = sv39::owned(m1, root, shared);
    let o2 = sv39::owned(m2, root, shared);
    assert(free.union(o.difference(o1)).union(o1.difference(o2)) =~= free.union(o.difference(o2)));
    assert forall|f: int, i: int|
        #![trigger m2[f + 8 * i]]
        f % 4096 == 0 && 0 <= i < 512 && !o.contains(f) implies m2[f + 8 * i] == m[f + 8 * i] by {
        assert(!o1.contains(f));
        assert(m2[f + 8 * i] == m1[f + 8 * i]);
        assert(m1[f + 8 * i] == m[f + 8 * i]);
    }
    assert forall|a: int| sv39::idx(a) && shared.contains(a) implies #[trigger] sv39::entry(
        m2,
        root,
        a,
    ) == sv39::entry(m, root, a) by {
        assert(sv39::entry(m1, root, a) == sv39::entry(m, root, a));
    }
}

/// Cutting off and giving back the one table `t`.
pub proof fn lemma_pruned_one(
    m: Map<int, u64>,
    free: Set<int>,
    m2: Map<int, u64>,
    root: int,
    shared: Set<int>,
    recycles: bool,
    a: int,
    t: int,
    written: int,
)
    requires
        sv39::tree(m2, root),
        walk::disjoint_from(m, root, free),
        m2.dom() == m.dom(),
        !shared.contains(a),
        sv39::owned(m, root, shared).contains(t),
        sv39::owned(m, root, shared).contains(written),
        phys::same_outside(m, m2, set![written]),
        forall|sh: Set<int>|
            !sh.contains(a) ==> #[trigger] sv39::owned(m2, root, sh) == sv39::owned(
                m,
                root,
                sh,
            ).remove(t),
        forall|a2: int|
            sv39::idx(a2) && a2 != a ==> #[trigger] sv39::entry(m2, root, a2) == sv39::entry(
                m,
                root,
                a2,
            ),
    ensures
        pruned(m, free, m2, released(free, set![t], recycles), root, shared, recycles),
{
    reveal(pruned);
    let none = Set::<int>::empty();
    let o = sv39::owned(m, root, shared);
    assert(sv39::owned(m2, root, shared) == o.remove(t));
    assert(o.difference(o.remove(t)) =~= set![t]);
    assert(sv39::owned(m2, root, none) == sv39::owned(m, root, none).remove(t));
    let free2 = released(free, set![t], recycles);
    assert forall|u: int| #[trigger] sv39::is_owned(m2, root, none, u) implies !free2.contains(
        u,
    ) by {
        assert(sv39::owned(m2, root, none).contains(u));
        assert(sv39::owned(m, root, none).contains(u));
        assert(sv39::is_owned(m, root, none, u));
    }
}

} // verus!
