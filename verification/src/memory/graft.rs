//! Changes of whole subtrees of a page-table tree: replacing a level-1 subtree by a copy, hanging
//! subtrees of another tree under a root, and cutting tables off.
use vstd::prelude::*;
use crate::memory::phys;
use crate::memory::sv39;
use crate::mmu::pte;

verus! {

/// Where the table `t`, which is not the root, hangs: under root entry `r.0`, and if it is a
/// level-0 table under level-1 entry `r.1`; `r.1` is `-1` for a level-1 table.
pub proof fn owned_position(m: Map<int, u64>, root: int, shared: Set<int>, t: int) -> (r: (int, int))
    requires
        sv39::is_owned(m, root, shared, t),
        t != root,
    ensures
        sv39::idx(r.0),
        !shared.contains(r.0),
        sv39::has_l1(m, root, r.0),
        (r.1 == -1 && sv39::l1(m, root, r.0) == t) || (sv39::idx(r.1) && sv39::has_l0(
            m,
            root,
            r.0,
            r.1,
        ) && sv39::l0(m, root, r.0, r.1) == t),
{
    if exists|a: int|
        sv39::idx(a) && !shared.contains(a) && sv39::has_l1(m, root, a) && #[trigger] sv39::l1(
            m,
            root,
            a,
        ) == t {
        let a = choose|a: int|
            sv39::idx(a) && !shared.contains(a) && sv39::has_l1(m, root, a) && #[trigger] sv39::l1(
                m,
                root,
                a,
            ) == t;
        (a, -1)
    } else {
        choose|a: int, b: int|
            sv39::idx(a) && sv39::idx(b) && !shared.contains(a) && sv39::has_l0(m, root, a, b)
                && #[trigger] sv39::l0(m, root, a, b) == t
    }
}

/// The level-1 table under a root entry outside `shared` is owned.
pub proof fn lemma_owns_l1(m: Map<int, u64>, root: int, shared: Set<int>, a: int)
    requires
        sv39::idx(a),
        !shared.contains(a),
        sv39::has_l1(m, root, a),
    ensures
        sv39::is_owned(m, root, shared, sv39::l1(m, root, a)),
{
}

/// A level-0 table under a root entry outside `shared` is owned.
pub proof fn lemma_owns_l0(m: Map<int, u64>, root: int, shared: Set<int>, a: int, b: int)
    requires
        sv39::idx(a),
        sv39::idx(b),
        !shared.contains(a),
        sv39::has_l0(m, root, a, b),
    ensures
        sv39::is_owned(m, root, shared, sv39::l0(m, root, a, b)),
{
}

/// Every table of a sound tree is a frame of memory.
pub proof fn lemma_owned_frame(m: Map<int, u64>, root: int, shared: Set<int>, t: int)
    requires
        sv39::tree(m, root),
        sv39::is_owned(m, root, shared, t),
    ensures
        phys::has_frame(m, t),
        sv39::is_owned(m, root, Set::empty(), t),
{
    reveal(sv39::tree);
    if t != root {
        let p = owned_position(m, root, shared, t);
        assert(pte::pte_valid(sv39::entry(m, root, p.0)));
        if p.1 == -1 {
            lemma_owns_l1(m, root, Set::empty(), p.0);
        } else {
            assert(pte::pte_valid(sv39::entry(m, sv39::l1(m, root, p.0), p.1)));
            lemma_owns_l0(m, root, Set::empty(), p.0, p.1);
        }
    }
}

/// The frame at `f` holds a copy of the first `n` entries of the level-1 table at `s`, whose
/// level-0 tables are copied too, and the remaining entries as they are in `s`. The copies are the
/// frames of `used`.
pub open spec fn copied(
    m: Map<int, u64>,
    s: int,
    m2: Map<int, u64>,
    f: int,
    used: Set<int>,
    n: int,
) -> bool {
    &&& used.contains(f)
    &&& forall|b: int|
        sv39::idx(b) && !(b < n && sv39::branch(m, s, b)) ==> #[trigger] sv39::entry(m2, f, b)
            == sv39::entry(m, s, b)
    &&& forall|b: int|
        0 <= b < n && sv39::branch(m, s, b) ==> #[trigger] sv39::branch(m2, f, b)
            && used.contains(sv39::child(m2, f, b)) && sv39::child(m2, f, b) != f
    &&& forall|b: int, c: int|
        #![trigger sv39::entry(m2, sv39::child(m2, f, b), c)]
        0 <= b < n && sv39::branch(m, s, b) && sv39::idx(c) ==> sv39::entry(
            m2,
            sv39::child(m2, f, b),
            c,
        ) == sv39::entry(m, sv39::child(m, s, b), c)
    &&& forall|b: int, b2: int|
        #![trigger sv39::child(m2, f, b), sv39::child(m2, f, b2)]
        0 <= b < n && 0 <= b2 < n && b != b2 && sv39::branch(m, s, b) && sv39::branch(m, s, b2)
            ==> sv39::child(m2, f, b) != sv39::child(m2, f, b2)
    &&& forall|g: int| #[trigger]
        used.contains(g) ==> g == f || exists|b: int|
            0 <= b < n && sv39::branch(m, s, b) && #[trigger] sv39::child(m2, f, b) == g
}

/// Copying one more entry.
pub proof fn lemma_copied_step(
    m: Map<int, u64>,
    s: int,
    m1: Map<int, u64>,
    f: int,
    used: Set<int>,
    n: int,
    m2: Map<int, u64>,
    g: int,
)
    requires
        copied(m, s, m1, f, used, n),
        sv39::idx(n),
        sv39::branch(m, s, n),
        f % 4096 == 0,
        g % 4096 == 0,
        !used.contains(g),
        forall|u: int| #[trigger] used.contains(u) ==> u % 4096 == 0,
        phys::same_outside(m1, m2, set![f, g]),
        sv39::branch(m2, f, n),
        sv39::child(m2, f, n) == g,
        forall|b: int|
            sv39::idx(b) && b != n ==> #[trigger] sv39::entry(m2, f, b) == sv39::entry(m1, f, b),
        forall|c: int|
            sv39::idx(c) ==> #[trigger] sv39::entry(m2, g, c) == sv39::entry(
                m,
                sv39::child(m, s, n),
                c,
            ),
    ensures
        copied(m, s, m2, f, used.insert(g), n + 1),
{
    let used2 = used.insert(g);
    assert forall|b: int| 0 <= b < n && sv39::branch(m, s, b) implies #[trigger] sv39::branch(
        m2,
        f,
        b,
    ) && used2.contains(sv39::child(m2, f, b)) && sv39::child(m2, f, b) != f && sv39::child(
        m2,
        f,
        b,
    ) == sv39::child(m1, f, b) && sv39::child(m2, f, b) != g by {
        assert(sv39::branch(m1, f, b));
        assert(sv39::entry(m2, f, b) == sv39::entry(m1, f, b));
    }
    assert forall|b: int, c: int|
        #![trigger sv39::entry(m2, sv39::child(m2, f, b), c)]
        0 <= b < n + 1 && sv39::branch(m, s, b) && sv39::idx(c) implies sv39::entry(
        m2,
        sv39::child(m2, f, b),
        c,
    ) == sv39::entry(m, sv39::child(m, s, b), c) by {
        if b < n {
            assert(sv39::branch(m2, f, b));
            let u = sv39::child(m1, f, b);
            assert(sv39::branch(m1, f, b));
            assert(used.contains(u));
            assert(sv39::entry(m1, u, c) == sv39::entry(m, sv39::child(m, s, b), c));
            assert(m2[u + 8 * c] == m1[u + 8 * c]);
        } else {
            assert(sv39::entry(m2, g, c) == sv39::entry(m, sv39::child(m, s, n), c));
        }
    }
    assert forall|b: int, b2: int|
        #![trigger sv39::child(m2, f, b), sv39::child(m2, f, b2)]
        0 <= b < n + 1 && 0 <= b2 < n + 1 && b != b2 && sv39::branch(m, s, b) && sv39::branch(
            m,
            s,
            b2,
        ) implies sv39::child(m2, f, b) != sv39::child(m2, f, b2) by {
        if b < n {
            assert(sv39::branch(m2, f, b));
        }
        if b2 < n {
            assert(sv39::branch(m2, f, b2));
        }
        if b < n && b2 < n {
            assert(sv39::child(m1, f, b) != sv39::child(m1, f, b2));
        }
    }
    assert forall|u: int| #[trigger] used2.contains(u) implies u == f || exists|b: int|
        0 <= b < n + 1 && sv39::branch(m, s, b) && #[trigger] sv39::child(m2, f, b) == u by {
        if u == g {
            assert(sv39::child(m2, f, n) == u);
        } else if u != f {
            assert(used.contains(u));
            let b = choose|b: int|
                0 <= b < n && sv39::branch(m, s, b) && #[trigger] sv39::child(m1, f, b) == u;
            assert(sv39::branch(m2, f, b));
            assert(sv39::child(m2, f, b) == u);
        }
    }
}

/// An entry that is no table needs no copying.
pub proof fn lemma_copied_skip(
    m: Map<int, u64>,
    s: int,
    m1: Map<int, u64>,
    f: int,
    used: Set<int>,
    n: int,
)
    requires
        copied(m, s, m1, f, used, n),
        sv39::idx(n),
        !sv39::branch(m, s, n),
    ensures
        copied(m, s, m1, f, used, n + 1),
{
    assert forall|u: int| #[trigger] used.contains(u) implies u == f || exists|b: int|
        0 <= b < n + 1 && sv39::branch(m, s, b) && #[trigger] sv39::child(m1, f, b) == u by {
        if u != f {
            let b = choose|b: int|
                0 <= b < n && sv39::branch(m, s, b) && #[trigger] sv39::child(m1, f, b) == u;
            assert(sv39::child(m1, f, b) == u);
        }
    }
}

/// In `m2` the level-1 subtree under root entry `a` is replaced by copies: the level-1 table `f` and
/// level-0 tables, together the frames of `used`. Everything else of the tree is as in `m`.
#[verifier::opaque]
pub open spec fn swapped(
    m: Map<int, u64>,
    m2: Map<int, u64>,
    root: int,
    a: int,
    f: int,
    used: Set<int>,
) -> bool {
    &&& m2.dom() == m.dom()
    &&& phys::same_outside(m, m2, used.insert(root))
    &&& used.contains(f)
    &&& sv39::has_l1(m, root, a)
    &&& sv39::has_l1(m2, root, a)
    &&& sv39::l1(m2, root, a) == f
    &&& forall|u: int| #[trigger]
        used.contains(u) ==> phys::has_frame(m, u) && !sv39::is_owned(m, root, Set::empty(), u)
    &&& forall|a2: int|
        sv39::idx(a2) && a2 != a ==> #[trigger] sv39::entry(m2, root, a2) == sv39::entry(
            m,
            root,
            a2,
        )
    &&& forall|b: int|
        sv39::idx(b) ==> #[trigger] sv39::has_l0(m2, root, a, b) == sv39::has_l0(m, root, a, b) && (
        sv39::has_l0(m, root, a, b) ==> used.contains(sv39::l0(m2, root, a, b)) && sv39::l0(
            m2,
            root,
            a,
            b,
        ) != f)
    &&& forall|b: int|
        sv39::idx(b) && pte::pte_valid(#[trigger] sv39::entry(m2, f, b)) ==> sv39::has_l0(
            m2,
            root,
            a,
            b,
        )
    &&& forall|b: int, c: int|
        #![trigger sv39::entry(m2, sv39::l0(m2, root, a, b), c)]
        sv39::idx(b) && sv39::idx(c) && sv39::has_l0(m, root, a, b) ==> sv39::entry(
            m2,
            sv39::l0(m2, root, a, b),
            c,
        ) == sv39::entry(m, sv39::l0(m, root, a, b), c)
    &&& forall|b: int, b2: int|
        #![trigger sv39::l0(m2, root, a, b), sv39::l0(m2, root, a, b2)]
        sv39::idx(b) && sv39::idx(b2) && b != b2 && sv39::has_l0(m, root, a, b) && sv39::has_l0(
            m,
            root,
            a,
            b2,
        ) ==> sv39::l0(m2, root, a, b) != sv39::l0(m2, root, a, b2)
    &&& forall|g: int| #[trigger]
        used.contains(g) ==> g == f || exists|b: int|
            sv39::idx(b) && sv39::has_l0(m, root, a, b) && #[trigger] sv39::l0(m2, root, a, b) == g
}

/// Pointing root entry `a` to a complete copy of its level-1 table swaps the subtree.
pub proof fn lemma_swap(
    m: Map<int, u64>,
    m1: Map<int, u64>,
    root: int,
    a: int,
    f: int,
    used: Set<int>,
    flags: u64,
)
    requires
        sv39::tree(m, root),
        sv39::idx(a),
        sv39::has_l1(m, root, a),
        flags == pte::pte_flags(sv39::entry(m, root, a)),
        copied(m, sv39::l1(m, root, a), m1, f, used, 512),
        phys::same_outside(m, m1, used),
        forall|u: int| #[trigger]
            used.contains(u) ==> phys::has_frame(m, u) && !sv39::is_owned(
                m,
                root,
                Set::empty(),
                u,
            ),
    ensures
        m1.contains_key(root + 8 * a),
        swapped(
            m,
            m1.insert(root + 8 * a, pte::pte_bits((f / 4096) as u64, flags)),
            root,
            a,
            f,
            used,
        ),
{
    reveal(sv39::tree);
    reveal(swapped);
    let none = Set::<int>::empty();
    let s = sv39::l1(m, root, a);
    let e = pte::pte_bits((f / 4096) as u64, flags);
    let m2 = m1.insert(root + 8 * a, e);
    let e0 = sv39::entry(m, root, a);
    assert(phys::has_frame(m, f));
    pte::lemma_pte_bits((f / 4096) as u64, flags);
    assert(flags as int == e0 as int % 1024);
    assert(flags % 2 == 1);
    assert((flags as int / 2) % 8 == (e0 as int / 2) % 8);
    assert(pte::pte_paddr(e) == f);
    assert(sv39::is_owned(m, root, none, root));
    assert(m.contains_key(root + 8 * a));
    assert(m2.dom() =~= m.dom());
    assert forall|g: int, i: int|
        #![trigger m2[g + 8 * i]]
        g % 4096 == 0 && 0 <= i < 512 && (g != root || i != a) implies m2[g + 8 * i] == m1[g + 8
        * i] by {
        if g + 8 * i == root + 8 * a {
            sv39::lemma_word(g, i, root, a);
        }
    }
    assert forall|g: int, i: int|
        #![trigger m2[g + 8 * i]]
        g % 4096 == 0 && 0 <= i < 512 && !used.insert(root).contains(g) implies m2[g + 8 * i]
        == m[g + 8 * i] by {
        assert(m1[g + 8 * i] == m[g + 8 * i]);
    }
    assert forall|a2: int| sv39::idx(a2) && a2 != a implies #[trigger] sv39::entry(m2, root, a2)
        == sv39::entry(m, root, a2) by {
        assert(m2[root + 8 * a2] == m1[root + 8 * a2]);
        assert(!used.contains(root));
        assert(m1[root + 8 * a2] == m[root + 8 * a2]);
    }
    assert(sv39::entry(m2, root, a) == e);
    assert(sv39::has_l1(m2, root, a) && sv39::l1(m2, root, a) == f);
    assert forall|b: int| sv39::idx(b) implies #[trigger] sv39::entry(m2, f, b) == sv39::entry(
        m1,
        f,
        b,
    ) by {
        assert(m2[f + 8 * b] == m1[f + 8 * b]);
    }
    assert forall|b: int| sv39::idx(b) implies #[trigger] sv39::has_l0(m2, root, a, b)
        == sv39::has_l0(m, root, a, b) && (sv39::has_l0(m, root, a, b) ==> used.contains(
        sv39::l0(m2, root, a, b),
    ) && sv39::l0(m2, root, a, b) != f && sv39::l0(m2, root, a, b) == sv39::child(m1, f, b)) by {
        assert(sv39::entry(m2, f, b) == sv39::entry(m1, f, b));
        if sv39::branch(m, s, b) {
            assert(sv39::branch(m1, f, b));
        } else {
            assert(sv39::entry(m1, f, b) == sv39::entry(m, s, b));
        }
    }
    assert forall|b: int| sv39::idx(b) && pte::pte_valid(#[trigger] sv39::entry(m2, f, b)) implies sv39::has_l0(
        m2,
        root,
        a,
        b,
    ) by {
        assert(sv39::entry(m2, f, b) == sv39::entry(m1, f, b));
        assert(sv39::has_l0(m2, root, a, b) == sv39::has_l0(m, root, a, b));
        if !sv39::branch(m, s, b) {
            assert(sv39::entry(m1, f, b) == sv39::entry(m, s, b));
            assert(pte::pte_valid(sv39::entry(m, s, b)));
        }
    }
    assert forall|b: int, c: int|
        #![trigger sv39::entry(m2, sv39::l0(m2, root, a, b), c)]
        sv39::idx(b) && sv39::idx(c) && sv39::has_l0(m, root, a, b) implies sv39::entry(
        m2,
        sv39::l0(m2, root, a, b),
        c,
    ) == sv39::entry(m, sv39::l0(m, root, a, b), c) by {
        let g = sv39::child(m1, f, b);
        assert(sv39::has_l0(m2, root, a, b) == sv39::has_l0(m, root, a, b));
        assert(used.contains(g));
        assert(sv39::entry(m1, g, c) == sv39::entry(m, sv39::child(m, s, b), c));
        assert(m2[g + 8 * c] == m1[g + 8 * c]);
    }
    assert forall|b: int, b2: int|
        #![trigger sv39::l0(m2, root, a, b), sv39::l0(m2, root, a, b2)]
        sv39::idx(b) && sv39::idx(b2) && b != b2 && sv39::has_l0(m, root, a, b) && sv39::has_l0(
            m,
            root,
            a,
            b2,
        ) implies sv39::l0(m2, root, a, b) != sv39::l0(m2, root, a, b2) by {
        assert(sv39::has_l0(m2, root, a, b) == sv39::has_l0(m, root, a, b));
        assert(sv39::has_l0(m2, root, a, b2) == sv39::has_l0(m, root, a, b2));
        assert(sv39::child(m1, f, b) != sv39::child(m1, f, b2));
    }
    assert forall|g: int| #[trigger] used.contains(g) implies g == f || exists|b: int|
        sv39::idx(b) && sv39::has_l0(m, root, a, b) && #[trigger] sv39::l0(m2, root, a, b) == g by {
        if g != f {
            let b = choose|b: int|
                0 <= b < 512 && sv39::branch(m, s, b) && #[trigger] sv39::child(m1, f, b) == g;
            assert(sv39::has_l0(m, root, a, b));
            assert(sv39::has_l0(m2, root, a, b) == sv39::has_l0(m, root, a, b));
            assert(sv39::l0(m2, root, a, b) == g);
        }
    }
}

/// The tables outside the swapped subtree stay where they were.
proof fn lemma_swap_rest(
    m: Map<int, u64>,
    m2: Map<int, u64>,
    root: int,
    a: int,
    f: int,
    used: Set<int>,
)
    requires
        sv39::tree(m, root),
        sv39::idx(a),
        swapped(m, m2, root, a, f, used),
    ensures
        forall|a2: int|
            sv39::idx(a2) && a2 != a ==> #[trigger] sv39::has_l1(m2, root, a2) == sv39::has_l1(
                m,
                root,
                a2,
            ) && sv39::l1(m2, root, a2) == sv39::l1(m, root, a2) && (sv39::has_l1(m, root, a2)
                ==> !used.contains(sv39::l1(m2, root, a2))),
        forall|a2: int, b: int|
            sv39::idx(a2) && sv39::idx(b) && a2 != a && sv39::has_l1(m, root, a2)
                ==> #[trigger] sv39::entry(m2, sv39::l1(m2, root, a2), b) == sv39::entry(
                m,
                sv39::l1(m, root, a2),
                b,
            ),
        forall|a2: int, b: int|
            sv39::idx(a2) && sv39::idx(b) && a2 != a ==> #[trigger] sv39::has_l0(m2, root, a2, b)
                == sv39::has_l0(m, root, a2, b) && (sv39::has_l0(m, root, a2, b) ==> sv39::l0(
                m2,
                root,
                a2,
                b,
            ) == sv39::l0(m, root, a2, b) && !used.contains(sv39::l0(m2, root, a2, b))),
{
    reveal(sv39::tree);
    reveal(swapped);
    let none = Set::<int>::empty();
    assert forall|a2: int| sv39::idx(a2) && a2 != a implies #[trigger] sv39::has_l1(m2, root, a2)
        == sv39::has_l1(m, root, a2) && sv39::l1(m2, root, a2) == sv39::l1(m, root, a2) && (
    sv39::has_l1(m, root, a2) ==> !used.contains(sv39::l1(m2, root, a2))) by {
        assert(sv39::entry(m2, root, a2) == sv39::entry(m, root, a2));
        if sv39::has_l1(m, root, a2) {
            lemma_owns_l1(m, root, none, a2);
        }
    }
    assert forall|a2: int, b: int|
        sv39::idx(a2) && sv39::idx(b) && a2 != a && sv39::has_l1(m, root, a2) implies #[trigger] sv39::entry(
        m2,
        sv39::l1(m2, root, a2),
        b,
    ) == sv39::entry(m, sv39::l1(m, root, a2), b) by {
        let u = sv39::l1(m, root, a2);
        assert(pte::pte_valid(sv39::entry(m, root, a2)));
        assert(phys::has_frame(m, u));
        assert(sv39::has_l1(m2, root, a2) == sv39::has_l1(m, root, a2));
        assert(m2[u + 8 * b] == m[u + 8 * b]);
    }
    assert forall|a2: int, b: int| sv39::idx(a2) && sv39::idx(b) && a2 != a implies #[trigger] sv39::has_l0(
        m2,
        root,
        a2,
        b,
    ) == sv39::has_l0(m, root, a2, b) && (sv39::has_l0(m, root, a2, b) ==> sv39::l0(m2, root, a2, b)
        == sv39::l0(m, root, a2, b) && !used.contains(sv39::l0(m2, root, a2, b))) by {
        assert(sv39::has_l1(m2, root, a2) == sv39::has_l1(m, root, a2));
        if sv39::has_l1(m, root, a2) {
            assert(sv39::entry(m2, sv39::l1(m2, root, a2), b) == sv39::entry(
                m,
                sv39::l1(m, root, a2),
                b,
            ));
        }
        if sv39::has_l0(m, root, a2, b) {
            lemma_owns_l0(m, root, none, a2, b);
        }
    }
}

/// Swapping a subtree for copies keeps the tree sound.
pub proof fn lemma_swap_tree(
    m: Map<int, u64>,
    m2: Map<int, u64>,
    root: int,
    a: int,
    f: int,
    used: Set<int>,
)
    requires
        sv39::tree(m, root),
        sv39::idx(a),
        swapped(m, m2, root, a, f, used),
    ensures
        sv39::tree(m2, root),
{
    lemma_swap_rest(m, m2, root, a, f, used);
    reveal(sv39::tree);
    reveal(swapped);
    let none = Set::<int>::empty();
    assert(sv39::is_owned(m, root, none, root));
    assert(phys::has_frame(m2, root));
    assert forall|a2: int| sv39::idx(a2) && pte::pte_valid(
        #[trigger] sv39::entry(m2, root, a2),
    ) implies {
        &&& sv39::has_l1(m2, root, a2)
        &&& phys::has_frame(m2, sv39::l1(m2, root, a2))
        &&& sv39::l1(m2, root, a2) != root
    } by {
        if a2 != a {
            assert(sv39::entry(m2, root, a2) == sv39::entry(m, root, a2));
            assert(sv39::has_l1(m2, root, a2) == sv39::has_l1(m, root, a2));
            assert(phys::has_frame(m, sv39::l1(m, root, a2)));
        } else {
            assert(phys::has_frame(m, f));
        }
    }
    assert forall|a2: int, b: int|
        sv39::idx(a2) && sv39::idx(b) && sv39::has_l1(m2, root, a2) && pte::pte_valid(
            #[trigger] sv39::entry(m2, sv39::l1(m2, root, a2), b),
        ) implies {
        &&& sv39::has_l0(m2, root, a2, b)
        &&& phys::has_frame(m2, sv39::l0(m2, root, a2, b))
        &&& sv39::l0(m2, root, a2, b) != root
    } by {
        if a2 != a {
            assert(sv39::has_l1(m2, root, a2) == sv39::has_l1(m, root, a2));
            assert(sv39::entry(m2, sv39::l1(m2, root, a2), b) == sv39::entry(
                m,
                sv39::l1(m, root, a2),
                b,
            ));
            assert(pte::pte_valid(sv39::entry(m, sv39::l1(m, root, a2), b)));
            assert(sv39::has_l0(m2, root, a2, b) == sv39::has_l0(m, root, a2, b));
            assert(phys::has_frame(m, sv39::l0(m, root, a2, b)));
        } else {
            assert(sv39::has_l0(m2, root, a, b));
            assert(used.contains(sv39::l0(m2, root, a, b)));
            assert(phys::has_frame(m, sv39::l0(m2, root, a, b)));
        }
    }
    assert forall|a2: int, a3: int|
        #![trigger sv39::l1(m2, root, a2), sv39::l1(m2, root, a3)]
        sv39::idx(a2) && sv39::idx(a3) && a2 != a3 && sv39::has_l1(m2, root, a2) && sv39::has_l1(
            m2,
            root,
            a3,
        ) implies sv39::l1(m2, root, a2) != sv39::l1(m2, root, a3) by {
        if a2 != a {
            assert(sv39::has_l1(m2, root, a2) == sv39::has_l1(m, root, a2));
        }
        if a3 != a {
            assert(sv39::has_l1(m2, root, a3) == sv39::has_l1(m, root, a3));
        }
        if a2 != a && a3 != a {
            assert(sv39::l1(m, root, a2) != sv39::l1(m, root, a3));
        }
    }
    assert forall|a2: int, b: int, a3: int|
        #![trigger sv39::l0(m2, root, a2, b), sv39::l1(m2, root, a3)]
        sv39::idx(a2) && sv39::idx(b) && sv39::idx(a3) && sv39::has_l0(m2, root, a2, b)
            && sv39::has_l1(m2, root, a3) implies sv39::l0(m2, root, a2, b) != sv39::l1(
        m2,
        root,
        a3,
    ) by {
        assert(sv39::has_l0(m2, root, a2, b) == sv39::has_l0(m, root, a2, b));
        if a3 != a {
            assert(sv39::has_l1(m2, root, a3) == sv39::has_l1(m, root, a3));
        }
        if a2 != a && a3 != a {
            assert(sv39::l0(m, root, a2, b) != sv39::l1(m, root, a3));
        }
    }
    assert forall|a2: int, b: int, a3: int, b3: int|
        #![trigger sv39::l0(m2, root, a2, b), sv39::l0(m2, root, a3, b3)]
        sv39::idx(a2) && sv39::idx(b) && sv39::idx(a3) && sv39::idx(b3) && (a2 != a3 || b != b3)
            && sv39::has_l0(m2, root, a2, b) && sv39::has_l0(m2, root, a3, b3) implies sv39::l0(
        m2,
        root,
        a2,
        b,
    ) != sv39::l0(m2, root, a3, b3) by {
        assert(sv39::has_l0(m2, root, a2, b) == sv39::has_l0(m, root, a2, b));
        assert(sv39::has_l0(m2, root, a3, b3) == sv39::has_l0(m, root, a3, b3));
        if a2 == a && a3 == a {
            assert(b != b3);
            assert(sv39::l0(m2, root, a, b) != sv39::l0(m2, root, a, b3));
        } else if a2 != a && a3 != a {
            assert(sv39::l0(m, root, a2, b) != sv39::l0(m, root, a3, b3));
        }
    }
}

/// Swapping a subtree for copies keeps every page.
pub proof fn lemma_swap_pages(
    m: Map<int, u64>,
    m2: Map<int, u64>,
    root: int,
    a: int,
    f: int,
    used: Set<int>,
)
    requires
        sv39::tree(m, root),
        sv39::idx(a),
        swapped(m, m2, root, a, f, used),
    ensures
        forall|w: int|
            #![trigger sv39::page(m2, root, w)]
            #![trigger sv39::path(m2, root, w)]
            sv39::is_page(w) ==> sv39::path(m2, root, w) == sv39::path(m, root, w) && sv39::page(
                m2,
                root,
                w,
            ) == sv39::page(m, root, w),
{
    lemma_swap_rest(m, m2, root, a, f, used);
    reveal(sv39::tree);
    reveal(swapped);
    assert forall|w: int|
        #![trigger sv39::page(m2, root, w)]
        #![trigger sv39::path(m2, root, w)]
        sv39::is_page(w) implies sv39::path(m2, root, w) == sv39::path(m, root, w) && sv39::page(
        m2,
        root,
        w,
    ) == sv39::page(m, root, w) by {
        sv39::lemma_indices(w);
        let x = sv39::i2(w);
        let y = sv39::i1(w);
        let z = sv39::i0(w);
        assert(sv39::has_l0(m2, root, x, y) == sv39::has_l0(m, root, x, y));
        if sv39::path(m, root, w) {
            if x == a {
                assert(sv39::entry(m2, sv39::l0(m2, root, a, y), z) == sv39::entry(
                    m,
                    sv39::l0(m, root, a, y),
                    z,
                ));
            } else {
                let u = sv39::l0(m, root, x, y);
                assert(pte::pte_valid(sv39::entry(m, root, x)));
                assert(pte::pte_valid(sv39::entry(m, sv39::l1(m, root, x), y)));
                assert(phys::has_frame(m, u));
                assert(sv39::l0(m2, root, x, y) == u);
                assert(m2[u + 8 * z] == m[u + 8 * z]);
            }
        }
    }
}

/// After a subtree was swapped for copies, the copies are tables of the tree in its place.
pub proof fn lemma_swap_owned(
    m: Map<int, u64>,
    m2: Map<int, u64>,
    root: int,
    a: int,
    f: int,
    used: Set<int>,
    shared: Set<int>,
)
    requires
        sv39::tree(m, root),
        sv39::idx(a),
        swapped(m, m2, root, a, f, used),
        shared.contains(a),
    ensures
        sv39::owned(m2, root, shared.remove(a)) == sv39::owned(m, root, shared).union(used),
{
    lemma_swap_rest(m, m2, root, a, f, used);
    reveal(swapped);
    let sh2 = shared.remove(a);
    assert forall|t: int| #[trigger]
        sv39::owned(m2, root, sh2).contains(t) == sv39::owned(m, root, shared).union(
            used,
        ).contains(t) by {
        if sv39::is_owned(m2, root, sh2, t) && t != root {
            let p = owned_position(m2, root, sh2, t);
            if p.0 != a {
                assert(sv39::has_l1(m2, root, p.0) == sv39::has_l1(m, root, p.0));
                if p.1 == -1 {
                    lemma_owns_l1(m, root, shared, p.0);
                } else {
                    assert(sv39::has_l0(m2, root, p.0, p.1) == sv39::has_l0(m, root, p.0, p.1));
                    lemma_owns_l0(m, root, shared, p.0, p.1);
                }
            } else if p.1 != -1 {
                assert(sv39::has_l0(m2, root, a, p.1) == sv39::has_l0(m, root, a, p.1));
            }
        }
        if sv39::is_owned(m, root, shared, t) && t != root {
            let p = owned_position(m, root, shared, t);
            assert(p.0 != a);
            assert(sv39::has_l1(m2, root, p.0) == sv39::has_l1(m, root, p.0));
            if p.1 == -1 {
                lemma_owns_l1(m2, root, sh2, p.0);
            } else {
                assert(sv39::has_l0(m2, root, p.0, p.1) == sv39::has_l0(m, root, p.0, p.1));
                lemma_owns_l0(m2, root, sh2, p.0, p.1);
            }
        }
        if used.contains(t) {
            if t == f {
                lemma_owns_l1(m2, root, sh2, a);
            } else {
                let b = choose|b: int|
                    sv39::idx(b) && sv39::has_l0(m, root, a, b) && #[trigger] sv39::l0(
                        m2,
                        root,
                        a,
                        b,
                    ) == t;
                assert(sv39::has_l0(m2, root, a, b) == sv39::has_l0(m, root, a, b));
                lemma_owns_l0(m2, root, sh2, a, b);
            }
        }
    }
    assert(sv39::owned(m2, root, sh2) =~= sv39::owned(m, root, shared).union(used));
}

/// A zeroed frame is the root of a tree without pages.
pub proof fn lemma_empty_tree(m: Map<int, u64>, root: int)
    requires
        phys::has_frame(m, root),
        phys::zeroed(m, root),
    ensures
        sv39::tree(m, root),
        forall|a: int| sv39::idx(a) ==> #[trigger] sv39::entry(m, root, a) == 0,
        forall|v: int|
            sv39::is_page(v) ==> #[trigger] sv39::page(m, root, v) == 0 && !sv39::path(m, root, v),
        forall|shared: Set<int>| #[trigger] sv39::owned(m, root, shared) == set![root],
{
    reveal(sv39::tree);
    assert forall|a: int| sv39::idx(a) implies #[trigger] sv39::entry(m, root, a) == 0 by {
        assert(m[root + 8 * a] == 0);
    }
    assert forall|a: int| sv39::idx(a) implies !(#[trigger] sv39::has_l1(m, root, a)) by {
        assert(sv39::entry(m, root, a) == 0);
    }
    assert forall|v: int| sv39::is_page(v) implies #[trigger] sv39::page(m, root, v) == 0
        && !sv39::path(m, root, v) by {
        sv39::lemma_indices(v);
        assert(!sv39::has_l1(m, root, sv39::i2(v)));
    }
    assert forall|shared: Set<int>| #[trigger] sv39::owned(m, root, shared) == set![root] by {
        assert forall|t: int| #[trigger] sv39::owned(m, root, shared).contains(t) == set![
            root,
        ].contains(t) by {
            if sv39::is_owned(m, root, shared, t) && t != root {
                let p = owned_position(m, root, shared, t);
                assert(!sv39::has_l1(m, root, p.0));
            }
        }
        assert(sv39::owned(m, root, shared) =~= set![root]);
    }
}

/// In `m2` the root entries `copied` of the tree at `root` are those of the tree at `from`;
/// entries that are invalid there may be any invalid entry. Nothing else was written.
#[verifier::opaque]
pub open spec fn hung(
    m: Map<int, u64>,
    m2: Map<int, u64>,
    root: int,
    from: int,
    copied: Set<int>,
) -> bool {
    &&& phys::same_outside(m, m2, set![root])
    &&& forall|a: int|
        sv39::idx(a) && copied.contains(a) ==> #[trigger] sv39::entry(m2, root, a) == sv39::entry(
            m,
            from,
            a,
        ) || (!pte::pte_valid(sv39::entry(m2, root, a)) && !pte::pte_valid(
            sv39::entry(m, from, a),
        ))
    &&& forall|a: int|
        sv39::idx(a) && !copied.contains(a) ==> #[trigger] sv39::entry(m2, root, a) == sv39::entry(
            m,
            root,
            a,
        )
}

/// The root indices outside `s`.
pub open spec fn others(s: Set<int>) -> Set<int> {
    Set::new(|a: int| !s.contains(a))
}

/// The tables that hang under the two trees before and after entries were copied.
proof fn lemma_hung_tables(
    m: Map<int, u64>,
    m2: Map<int, u64>,
    root: int,
    from: int,
    copied: Set<int>,
)
    requires
        sv39::tree(m, root),
        sv39::tree(m, from),
        !sv39::is_owned(m, from, Set::empty(), root),
        hung(m, m2, root, from, copied),
    ensures
        forall|a: int|
            sv39::idx(a) && copied.contains(a) ==> #[trigger] sv39::has_l1(m2, root, a)
                == sv39::has_l1(m, from, a) && (sv39::has_l1(m, from, a) ==> sv39::l1(m2, root, a)
                == sv39::l1(m, from, a)),
        forall|a: int|
            sv39::idx(a) && !copied.contains(a) ==> #[trigger] sv39::has_l1(m2, root, a)
                == sv39::has_l1(m, root, a) && sv39::l1(m2, root, a) == sv39::l1(m, root, a),
        forall|a: int, b: int|
            sv39::idx(a) && sv39::idx(b) && copied.contains(a) && sv39::has_l1(m, from, a)
                ==> #[trigger] sv39::entry(m2, sv39::l1(m2, root, a), b) == sv39::entry(
                m,
                sv39::l1(m, from, a),
                b,
            ),
        forall|a: int, b: int|
            sv39::idx(a) && sv39::idx(b) && !copied.contains(a) && sv39::has_l1(m, root, a)
                ==> #[trigger] sv39::entry(m2, sv39::l1(m2, root, a), b) == sv39::entry(
                m,
                sv39::l1(m, root, a),
                b,
            ),
        forall|a: int, b: int|
            sv39::idx(a) && sv39::idx(b) && copied.contains(a) ==> #[trigger] sv39::has_l0(
                m2,
                root,
                a,
                b,
            ) == sv39::has_l0(m, from, a, b) && (sv39::has_l0(m, from, a, b) ==> sv39::l0(
                m2,
                root,
                a,
                b,
            ) == sv39::l0(m, from, a, b)),
        forall|a: int, b: int|
            sv39::idx(a) && sv39::idx(b) && !copied.contains(a) ==> #[trigger] sv39::has_l0(
                m2,
                root,
                a,
                b,
            ) == sv39::has_l0(m, root, a, b) && (sv39::has_l0(m, root, a, b) ==> sv39::l0(
                m2,
                root,
                a,
                b,
            ) == sv39::l0(m, root, a, b)),
{
    reveal(sv39::tree);
    reveal(hung);
    let none = Set::<int>::empty();
    assert forall|a: int| sv39::idx(a) && copied.contains(a) implies #[trigger] sv39::has_l1(
        m2,
        root,
        a,
    ) == sv39::has_l1(m, from, a) && (sv39::has_l1(m, from, a) ==> sv39::l1(m2, root, a)
        == sv39::l1(m, from, a)) by {
        let e = sv39::entry(m2, root, a);
    }
    assert forall|a: int| sv39::idx(a) && !copied.contains(a) implies #[trigger] sv39::has_l1(
        m2,
        root,
        a,
    ) == sv39::has_l1(m, root, a) && sv39::l1(m2, root, a) == sv39::l1(m, root, a) by {
        assert(sv39::entry(m2, root, a) == sv39::entry(m, root, a));
    }
    assert forall|a: int, b: int|
        sv39::idx(a) && sv39::idx(b) && copied.contains(a) && sv39::has_l1(m, from, a) implies #[trigger] sv39::entry(
        m2,
        sv39::l1(m2, root, a),
        b,
    ) == sv39::entry(m, sv39::l1(m, from, a), b) by {
        let u = sv39::l1(m, from, a);
        lemma_owns_l1(m, from, none, a);
        lemma_owned_frame(m, from, none, u);
        assert(sv39::has_l1(m2, root, a) == sv39::has_l1(m, from, a));
        assert(m2[u + 8 * b] == m[u + 8 * b]);
    }
    assert forall|a: int, b: int|
        sv39::idx(a) && sv39::idx(b) && !copied.contains(a) && sv39::has_l1(m, root, a) implies #[trigger] sv39::entry(
        m2,
        sv39::l1(m2, root, a),
        b,
    ) == sv39::entry(m, sv39::l1(m, root, a), b) by {
        let u = sv39::l1(m, root, a);
        assert(pte::pte_valid(sv39::entry(m, root, a)));
        assert(phys::has_frame(m, u));
        assert(sv39::has_l1(m2, root, a) == sv39::has_l1(m, root, a));
        assert(m2[u + 8 * b] == m[u + 8 * b]);
    }
    assert forall|a: int, b: int|
        sv39::idx(a) && sv39::idx(b) && copied.contains(a) implies #[trigger] sv39::has_l0(
        m2,
        root,
        a,
        b,
    ) == sv39::has_l0(m, from, a, b) && (sv39::has_l0(m, from, a, b) ==> sv39::l0(m2, root, a, b)
        == sv39::l0(m, from, a, b)) by {
        assert(sv39::has_l1(m2, root, a) == sv39::has_l1(m, from, a));
        if sv39::has_l1(m, from, a) {
            assert(sv39::entry(m2, sv39::l1(m2, root, a), b) == sv39::entry(
                m,
                sv39::l1(m, from, a),
                b,
            ));
        }
    }
    assert forall|a: int, b: int|
        sv39::idx(a) && sv39::idx(b) && !copied.contains(a) implies #[trigger] sv39::has_l0(
        m2,
        root,
        a,
        b,
    ) == sv39::has_l0(m, root, a, b) && (sv39::has_l0(m, root, a, b) ==> sv39::l0(m2, root, a, b)
        == sv39::l0(m, root, a, b)) by {
        assert(sv39::has_l1(m2, root, a) == sv39::has_l1(m, root, a));
        if sv39::has_l1(m, root, a) {
            assert(sv39::entry(m2, sv39::l1(m2, root, a), b) == sv39::entry(
                m,
                sv39::l1(m, root, a),
                b,
            ));
        }
    }
}

/// Hanging subtrees of another tree under a root gives a sound tree, provided the tables that stay
/// are none of those that are hung.
pub proof fn lemma_hung_tree(
    m: Map<int, u64>,
    m2: Map<int, u64>,
    root: int,
    from: int,
    copied: Set<int>,
)
    requires
        sv39::tree(m, root),
        sv39::tree(m, from),
        !sv39::is_owned(m, from, Set::empty(), root),
        sv39::owned(m, root, copied).disjoint(sv39::owned(m, from, others(copied))),
        hung(m, m2, root, from, copied),
    ensures
        sv39::tree(m2, root),
{
    lemma_hung_tables(m, m2, root, from, copied);
    reveal(sv39::tree);
    reveal(hung);
    let none = Set::<int>::empty();
    let rest = others(copied);
    let own = sv39::owned(m, root, copied);
    let far = sv39::owned(m, from, rest);
    assert forall|a: int| sv39::idx(a) && copied.contains(a) && sv39::has_l1(m, from, a) implies far.contains(
        #[trigger] sv39::l1(m, from, a),
    ) && sv39::l1(m, from, a) != root by {
        lemma_owns_l1(m, from, rest, a);
        lemma_owns_l1(m, from, none, a);
    }
    assert forall|a: int, b: int|
        sv39::idx(a) && sv39::idx(b) && copied.contains(a) && sv39::has_l0(
            m,
            from,
            a,
            b,
        ) implies far.contains(#[trigger] sv39::l0(m, from, a, b)) && sv39::l0(m, from, a, b)
        != root by {
        lemma_owns_l0(m, from, rest, a, b);
        lemma_owns_l0(m, from, none, a, b);
    }
    assert forall|a: int| sv39::idx(a) && !copied.contains(a) && sv39::has_l1(m, root, a) implies own.contains(
        #[trigger] sv39::l1(m, root, a),
    ) by {
        lemma_owns_l1(m, root, copied, a);
    }
    assert forall|a: int, b: int|
        sv39::idx(a) && sv39::idx(b) && !copied.contains(a) && sv39::has_l0(
            m,
            root,
            a,
            b,
        ) implies own.contains(#[trigger] sv39::l0(m, root, a, b)) by {
        lemma_owns_l0(m, root, copied, a, b);
    }
    assert forall|a: int| sv39::idx(a) && pte::pte_valid(#[trigger] sv39::entry(m2, root, a)) implies {
        &&& sv39::has_l1(m2, root, a)
        &&& phys::has_frame(m2, sv39::l1(m2, root, a))
        &&& sv39::l1(m2, root, a) != root
    } by {
        if copied.contains(a) {
            assert(pte::pte_valid(sv39::entry(m, from, a)));
            assert(sv39::has_l1(m2, root, a) == sv39::has_l1(m, from, a));
            assert(phys::has_frame(m, sv39::l1(m, from, a)));
        } else {
            assert(pte::pte_valid(sv39::entry(m, root, a)));
            assert(sv39::has_l1(m2, root, a) == sv39::has_l1(m, root, a));
            assert(phys::has_frame(m, sv39::l1(m, root, a)));
        }
    }
    assert forall|a: int, b: int|
        sv39::idx(a) && sv39::idx(b) && sv39::has_l1(m2, root, a) && pte::pte_valid(
            #[trigger] sv39::entry(m2, sv39::l1(m2, root, a), b),
        ) implies {
        &&& sv39::has_l0(m2, root, a, b)
        &&& phys::has_frame(m2, sv39::l0(m2, root, a, b))
        &&& sv39::l0(m2, root, a, b) != root
    } by {
        if copied.contains(a) {
            assert(sv39::has_l1(m2, root, a) == sv39::has_l1(m, from, a));
            assert(pte::pte_valid(sv39::entry(m, sv39::l1(m, from, a), b)));
            assert(sv39::has_l0(m2, root, a, b) == sv39::has_l0(m, from, a, b));
            assert(phys::has_frame(m, sv39::l0(m, from, a, b)));
        } else {
            assert(sv39::has_l1(m2, root, a) == sv39::has_l1(m, root, a));
            assert(pte::pte_valid(sv39::entry(m, sv39::l1(m, root, a), b)));
            assert(sv39::has_l0(m2, root, a, b) == sv39::has_l0(m, root, a, b));
            assert(phys::has_frame(m, sv39::l0(m, root, a, b)));
        }
    }
    assert forall|a: int, a2: int|
        #![trigger sv39::l1(m2, root, a), sv39::l1(m2, root, a2)]
        sv39::idx(a) && sv39::idx(a2) && a != a2 && sv39::has_l1(m2, root, a) && sv39::has_l1(
            m2,
            root,
            a2,
        ) implies sv39::l1(m2, root, a) != sv39::l1(m2, root, a2) by {
        if copied.contains(a) {
            assert(sv39::has_l1(m2, root, a) == sv39::has_l1(m, from, a));
            assert(far.contains(sv39::l1(m, from, a)));
        } else {
            assert(sv39::has_l1(m2, root, a) == sv39::has_l1(m, root, a));
            assert(own.contains(sv39::l1(m, root, a)));
        }
        if copied.contains(a2) {
            assert(sv39::has_l1(m2, root, a2) == sv39::has_l1(m, from, a2));
            assert(far.contains(sv39::l1(m, from, a2)));
        } else {
            assert(sv39::has_l1(m2, root, a2) == sv39::has_l1(m, root, a2));
            assert(own.contains(sv39::l1(m, root, a2)));
        }
    }
    assert forall|a: int, b: int, a2: int|
        #![trigger sv39::l0(m2, root, a, b), sv39::l1(m2, root, a2)]
        sv39::idx(a) && sv39::idx(b) && sv39::idx(a2) && sv39::has_l0(m2, root, a, b)
            && sv39::has_l1(m2, root, a2) implies sv39::l0(m2, root, a, b) != sv39::l1(
        m2,
        root,
        a2,
    ) by {
        if copied.contains(a) {
            assert(sv39::has_l0(m2, root, a, b) == sv39::has_l0(m, from, a, b));
            assert(far.contains(sv39::l0(m, from, a, b)));
        } else {
            assert(sv39::has_l0(m2, root, a, b) == sv39::has_l0(m, root, a, b));
            assert(own.contains(sv39::l0(m, root, a, b)));
        }
        if copied.contains(a2) {
            assert(sv39::has_l1(m2, root, a2) == sv39::has_l1(m, from, a2));
            assert(far.contains(sv39::l1(m, from, a2)));
        } else {
            assert(sv39::has_l1(m2, root, a2) == sv39::has_l1(m, root, a2));
            assert(own.contains(sv39::l1(m, root, a2)));
        }
    }
    assert forall|a: int, b: int, a2: int, b2: int|
        #![trigger sv39::l0(m2, root, a, b), sv39::l0(m2, root, a2, b2)]
        sv39::idx(a) && sv39::idx(b) && sv39::idx(a2) && sv39::idx(b2) && (a != a2 || b != b2)
            && sv39::has_l0(m2, root, a, b) && sv39::has_l0(m2, root, a2, b2) implies sv39::l0(
        m2,
        root,
        a,
        b,
    ) != sv39::l0(m2, root, a2, b2) by {
        if copied.contains(a) {
            assert(sv39::has_l0(m2, root, a, b) == sv39::has_l0(m, from, a, b));
            assert(far.contains(sv39::l0(m, from, a, b)));
        } else {
            assert(sv39::has_l0(m2, root, a, b) == sv39::has_l0(m, root, a, b));
            assert(own.contains(sv39::l0(m, root, a, b)));
        }
        if copied.contains(a2) {
            assert(sv39::has_l0(m2, root, a2, b2) == sv39::has_l0(m, from, a2, b2));
            assert(far.contains(sv39::l0(m, from, a2, b2)));
        } else {
            assert(sv39::has_l0(m2, root, a2, b2) == sv39::has_l0(m, root, a2, b2));
            assert(own.contains(sv39::l0(m, root, a2, b2)));
        }
    }
}

/// The pages of a tree under which subtrees of another tree were hung: under the copied entries
/// they are those of the other tree.
pub proof fn lemma_hung_pages(
    m: Map<int, u64>,
    m2: Map<int, u64>,
    root: int,
    from: int,
    copied: Set<int>,
)
    requires
        sv39::tree(m, root),
        sv39::tree(m, from),
        !sv39::is_owned(m, from, Set::empty(), root),
        hung(m, m2, root, from, copied),
    ensures
        forall|w: int|
            #![trigger sv39::page(m2, root, w)]
            #![trigger sv39::path(m2, root, w)]
            sv39::is_page(w) ==> sv39::path(m2, root, w) == sv39::path(
                m,
                if copied.contains(sv39::i2(w)) {
                    from
                } else {
                    root
                },
                w,
            ) && sv39::page(m2, root, w) == sv39::page(
                m,
                if copied.contains(sv39::i2(w)) {
                    from
                } else {
                    root
                },
                w,
            ),
{
    lemma_hung_tables(m, m2, root, from, copied);
    reveal(sv39::tree);
    reveal(hung);
    let none = Set::<int>::empty();
    assert forall|w: int|
        #![trigger sv39::page(m2, root, w)]
        #![trigger sv39::path(m2, root, w)]
        sv39::is_page(w) implies sv39::path(m2, root, w) == sv39::path(
        m,
        if copied.contains(sv39::i2(w)) {
            from
        } else {
            root
        },
        w,
    ) && sv39::page(m2, root, w) == sv39::page(
        m,
        if copied.contains(sv39::i2(w)) {
            from
        } else {
            root
        },
        w,
    ) by {
        sv39::lemma_indices(w);
        let x = sv39::i2(w);
        let y = sv39::i1(w);
        let z = sv39::i0(w);
        if copied.contains(x) {
            assert(sv39::has_l0(m2, root, x, y) == sv39::has_l0(m, from, x, y));
            if sv39::path(m, from, w) {
                let u = sv39::l0(m, from, x, y);
                lemma_owns_l0(m, from, none, x, y);
                lemma_owned_frame(m, from, none, u);
                assert(m2[u + 8 * z] == m[u + 8 * z]);
            }
        } else {
            assert(sv39::has_l0(m2, root, x, y) == sv39::has_l0(m, root, x, y));
            if sv39::path(m, root, w) {
                let u = sv39::l0(m, root, x, y);
                lemma_owns_l0(m, root, none, x, y);
                lemma_owned_frame(m, root, none, u);
                assert(pte::pte_valid(sv39::entry(m, sv39::l1(m, root, x), y)));
                assert(m2[u + 8 * z] == m[u + 8 * z]);
            }
        }
    }
}

/// The tables of a tree under which subtrees were hung, apart from the hung ones.
pub proof fn lemma_hung_owned(
    m: Map<int, u64>,
    m2: Map<int, u64>,
    root: int,
    from: int,
    copied: Set<int>,
    shared: Set<int>,
)
    requires
        sv39::tree(m, root),
        sv39::tree(m, from),
        !sv39::is_owned(m, from, Set::empty(), root),
        hung(m, m2, root, from, copied),
        forall|a: int|
            sv39::idx(a) && copied.contains(a) && pte::pte_valid(
                #[trigger] sv39::entry(m, from, a),
            ) ==> shared.contains(a),
    ensures
        sv39::owned(m2, root, shared) == sv39::owned(m, root, shared.union(copied)),
{
    lemma_hung_tables(m, m2, root, from, copied);
    let both = shared.union(copied);
    assert forall|t: int| #[trigger] sv39::owned(m2, root, shared).contains(t) == sv39::owned(
        m,
        root,
        both,
    ).contains(t) by {
        if sv39::is_owned(m2, root, shared, t) && t != root {
            let p = owned_position(m2, root, shared, t);
            if copied.contains(p.0) {
                assert(sv39::has_l1(m2, root, p.0) == sv39::has_l1(m, from, p.0));
                assert(pte::pte_valid(sv39::entry(m, from, p.0)));
            }
            assert(sv39::has_l1(m2, root, p.0) == sv39::has_l1(m, root, p.0));
            if p.1 == -1 {
                lemma_owns_l1(m, root, both, p.0);
            } else {
                assert(sv39::has_l0(m2, root, p.0, p.1) == sv39::has_l0(m, root, p.0, p.1));
                lemma_owns_l0(m, root, both, p.0, p.1);
            }
        }
        if sv39::is_owned(m, root, both, t) && t != root {
            let p = owned_position(m, root, both, t);
            assert(sv39::has_l1(m2, root, p.0) == sv39::has_l1(m, root, p.0));
            if p.1 == -1 {
                lemma_owns_l1(m2, root, shared, p.0);
            } else {
                assert(sv39::has_l0(m2, root, p.0, p.1) == sv39::has_l0(m, root, p.0, p.1));
                lemma_owns_l0(m2, root, shared, p.0, p.1);
            }
        }
    }
    assert(sv39::owned(m2, root, shared) =~= sv39::owned(m, root, both));
}

/// Every table of a tree under which subtrees of another tree were hung is a table of one of the
/// two.
pub proof fn lemma_hung_cover(
    m: Map<int, u64>,
    m2: Map<int, u64>,
    root: int,
    from: int,
    copied: Set<int>,
    t: int,
)
    requires
        sv39::tree(m, root),
        sv39::tree(m, from),
        !sv39::is_owned(m, from, Set::empty(), root),
        hung(m, m2, root, from, copied),
        sv39::is_owned(m2, root, Set::empty(), t),
    ensures
        sv39::is_owned(m, root, Set::empty(), t) || sv39::is_owned(m, from, Set::empty(), t),
{
    lemma_hung_tables(m, m2, root, from, copied);
    let none = Set::<int>::empty();
    if t != root {
        let p = owned_position(m2, root, none, t);
        if copied.contains(p.0) {
            assert(sv39::has_l1(m2, root, p.0) == sv39::has_l1(m, from, p.0));
            if p.1 == -1 {
                lemma_owns_l1(m, from, none, p.0);
            } else {
                assert(sv39::has_l0(m2, root, p.0, p.1) == sv39::has_l0(m, from, p.0, p.1));
                lemma_owns_l0(m, from, none, p.0, p.1);
            }
        } else {
            assert(sv39::has_l1(m2, root, p.0) == sv39::has_l1(m, root, p.0));
            if p.1 == -1 {
                lemma_owns_l1(m, root, none, p.0);
            } else {
                assert(sv39::has_l0(m2, root, p.0, p.1) == sv39::has_l0(m, root, p.0, p.1));
                lemma_owns_l0(m, root, none, p.0, p.1);
            }
        }
    }
}

} // verus!
