//! The three-level page-table tree as a mathematical object.
//!
//! A tree is a physical memory together with the address of its root table. Every table is a
//! frame of 512 entries; the entries of the root (level 2) and of the level-1 tables point to
//! tables, the entries of the level-0 tables describe pages.
use vstd::prelude::*;
use crate::memory::phys;
use crate::mmu::pte;

verus! {

/// Entry `i` of the table at `t`.
pub open spec fn entry(m: Map<int, u64>, t: int, i: int) -> u64 {
    m[t + 8 * i]
}

/// Entry `i` of the table at `t` points to another table.
pub open spec fn branch(m: Map<int, u64>, t: int, i: int) -> bool {
    pte::pte_valid(entry(m, t, i)) && !pte::pte_leaf(entry(m, t, i))
}

/// The table that entry `i` of the table at `t` points to.
pub open spec fn child(m: Map<int, u64>, t: int, i: int) -> int {
    pte::pte_paddr(entry(m, t, i))
}

/// There is a level-1 table under root entry `a`.
pub open spec fn has_l1(m: Map<int, u64>, root: int, a: int) -> bool {
    branch(m, root, a)
}

/// The level-1 table under root entry `a`.
pub open spec fn l1(m: Map<int, u64>, root: int, a: int) -> int {
    child(m, root, a)
}

/// There is a level-0 table under the entries `a` and `b`.
pub open spec fn has_l0(m: Map<int, u64>, root: int, a: int, b: int) -> bool {
    has_l1(m, root, a) && branch(m, l1(m, root, a), b)
}

/// The level-0 table under the entries `a` and `b`.
pub open spec fn l0(m: Map<int, u64>, root: int, a: int, b: int) -> int {
    child(m, l1(m, root, a), b)
}

/// A table index.
pub open spec fn idx(i: int) -> bool {
    0 <= i < 512
}

/// Level-2 index of page number `v`.
pub open spec fn i2(v: int) -> int {
    v / 0x4_0000
}

/// Level-1 index of page number `v`.
pub open spec fn i1(v: int) -> int {
    (v / 512) % 512
}

/// Level-0 index of page number `v`.
pub open spec fn i0(v: int) -> int {
    v % 512
}

/// A 27-bit page number.
pub open spec fn is_page(v: int) -> bool {
    0 <= v < 0x800_0000
}

/// The level-0 table that describes page `v` exists.
pub open spec fn path(m: Map<int, u64>, root: int, v: int) -> bool {
    has_l0(m, root, i2(v), i1(v))
}

/// The address of the entry that describes page `v`.
pub open spec fn leaf_slot(m: Map<int, u64>, root: int, v: int) -> int {
    l0(m, root, i2(v), i1(v)) + 8 * i0(v)
}

/// The entry that describes page `v`; zero where no table describes it.
pub open spec fn page(m: Map<int, u64>, root: int, v: int) -> u64 {
    if path(m, root, v) {
        m[leaf_slot(m, root, v)]
    } else {
        0
    }
}

/// The tree at `root` is sound: every valid entry of an upper table points to a frame of memory,
/// and no two of the tables are the same frame.
#[verifier::opaque]
pub open spec fn tree(m: Map<int, u64>, root: int) -> bool {
    &&& phys::has_frame(m, root)
    &&& forall|a: int|
        idx(a) && pte::pte_valid(#[trigger] entry(m, root, a)) ==> {
            &&& has_l1(m, root, a)
            &&& phys::has_frame(m, l1(m, root, a))
            &&& l1(m, root, a) != root
        }
    &&& forall|a: int, b: int|
        idx(a) && idx(b) && has_l1(m, root, a) && pte::pte_valid(
            #[trigger] entry(m, l1(m, root, a), b),
        ) ==> {
            &&& has_l0(m, root, a, b)
            &&& phys::has_frame(m, l0(m, root, a, b))
            &&& l0(m, root, a, b) != root
        }
    &&& forall|a: int, a2: int|
        #![trigger l1(m, root, a), l1(m, root, a2)]
        idx(a) && idx(a2) && a != a2 && has_l1(m, root, a) && has_l1(m, root, a2) ==> l1(
            m,
            root,
            a,
        ) != l1(m, root, a2)
    &&& forall|a: int, b: int, a2: int|
        #![trigger l0(m, root, a, b), l1(m, root, a2)]
        idx(a) && idx(b) && idx(a2) && has_l0(m, root, a, b) && has_l1(m, root, a2) ==> l0(
            m,
            root,
            a,
            b,
        ) != l1(m, root, a2)
    &&& forall|a: int, b: int, a2: int, b2: int|
        #![trigger l0(m, root, a, b), l0(m, root, a2, b2)]
        idx(a) && idx(b) && idx(a2) && idx(b2) && (a != a2 || b != b2) && has_l0(m, root, a, b)
            && has_l0(m, root, a2, b2) ==> l0(m, root, a, b) != l0(m, root, a2, b2)
}

/// `t` is the root table, or a table under a root entry outside `shared`.
pub open spec fn is_owned(m: Map<int, u64>, root: int, shared: Set<int>, t: int) -> bool {
    ||| t == root
    ||| exists|a: int|
        idx(a) && !shared.contains(a) && has_l1(m, root, a) && #[trigger] l1(m, root, a) == t
    ||| exists|a: int, b: int|
        idx(a) && idx(b) && !shared.contains(a) && has_l0(m, root, a, b) && #[trigger] l0(
            m,
            root,
            a,
            b,
        ) == t
}

/// The root table and the tables under the root entries outside `shared`.
pub open spec fn owned(m: Map<int, u64>, root: int, shared: Set<int>) -> Set<int> {
    Set::new(|t: int| is_owned(m, root, shared, t))
}

/// All tables of the tree.
pub open spec fn tables(m: Map<int, u64>, root: int) -> Set<int> {
    owned(m, root, Set::empty())
}

/// Two table words have one address only if they are the same word.
pub proof fn lemma_word(t1: int, k1: int, t2: int, k2: int)
    requires
        t1 % 4096 == 0,
        t2 % 4096 == 0,
        idx(k1),
        idx(k2),
        t1 + 8 * k1 == t2 + 8 * k2,
    ensures
        t1 == t2,
        k1 == k2,
{
}

/// The indices of a page number.
pub proof fn lemma_indices(v: int)
    requires
        is_page(v),
    ensures
        idx(i2(v)),
        idx(i1(v)),
        idx(i0(v)),
        v == i2(v) * 0x4_0000 + i1(v) * 512 + i0(v),
{
}

/// A tree depends on the words of its own tables only.
pub proof fn lemma_agree(m1: Map<int, u64>, m2: Map<int, u64>, root: int, touched: Set<int>)
    requires
        tree(m1, root),
        phys::same_outside(m1, m2, touched),
        forall|t: int| #[trigger] is_owned(m1, root, Set::empty(), t) ==> !touched.contains(t),
    ensures
        tree(m2, root),
        forall|v: int|
            is_page(v) ==> #[trigger] page(m2, root, v) == page(m1, root, v) && path(m2, root, v)
                == path(m1, root, v),
        forall|a: int|
            idx(a) ==> #[trigger] entry(m2, root, a) == entry(m1, root, a),
        forall|a: int, b: int|
            idx(a) && idx(b) && has_l1(m1, root, a) ==> #[trigger] entry(m2, l1(m2, root, a), b)
                == entry(m1, l1(m1, root, a), b),
        forall|shared: Set<int>| #[trigger]
            owned(m2, root, shared) == owned(m1, root, shared),
{
    reveal(tree);
    let none = Set::<int>::empty();
    assert(is_owned(m1, root, none, root));
    assert forall|a: int| idx(a) implies #[trigger] entry(m2, root, a) == entry(m1, root, a) by {
        assert(!touched.contains(root));
        assert(m2[root + 8 * a] == m1[root + 8 * a]);
    }
    assert forall|a: int, b: int| idx(a) && idx(b) && has_l1(m1, root, a) implies #[trigger] entry(
        m2,
        l1(m2, root, a),
        b,
    ) == entry(m1, l1(m1, root, a), b) by {
        assert(entry(m2, root, a) == entry(m1, root, a));
        let t = l1(m1, root, a);
        assert(is_owned(m1, root, none, t));
        assert(phys::has_frame(m1, t));
        assert(m2[t + 8 * b] == m1[t + 8 * b]);
    }
    lemma_same_shape(m1, m2, root);
    assert forall|v: int| is_page(v) implies #[trigger] page(m2, root, v) == page(m1, root, v)
        && path(m2, root, v) == path(m1, root, v) by {
        lemma_indices(v);
        assert(has_l0(m2, root, i2(v), i1(v)) == has_l0(m1, root, i2(v), i1(v)));
        if path(m1, root, v) {
            let t = l0(m1, root, i2(v), i1(v));
            assert(pte::pte_valid(entry(m1, l1(m1, root, i2(v)), i1(v))));
            assert(is_owned(m1, root, none, t));
            assert(phys::has_frame(m1, t));
            assert(m2[t + 8 * i0(v)] == m1[t + 8 * i0(v)]);
        }
    }
}

/// Overwriting the entry of page `v` changes that page and nothing else.
pub proof fn lemma_set_leaf(m: Map<int, u64>, root: int, v: int, e: u64)
    requires
        tree(m, root),
        is_page(v),
        path(m, root, v),
    ensures
        phys::has_frame(m, l0(m, root, i2(v), i1(v))),
        m.contains_key(leaf_slot(m, root, v)),
        ({
            let m2 = m.insert(leaf_slot(m, root, v), e);
            &&& tree(m2, root)
            &&& forall|w: int| #![trigger page(m2, root, w)] #![trigger path(m2, root, w)]
                is_page(w) ==> path(m2, root, w) == path(m, root, w) && page(m2, root, w) == (if w
                    == v {
                    e
                } else {
                    page(m, root, w)
                })
            &&& forall|shared: Set<int>| #[trigger]
                owned(m2, root, shared) == owned(m, root, shared)
            &&& forall|a: int| idx(a) ==> #[trigger] entry(m2, root, a) == entry(m, root, a)
            &&& phys::same_outside(m, m2, set![l0(m, root, i2(v), i1(v))])
        }),
{
    reveal(tree);
    lemma_indices(v);
    let s = leaf_slot(m, root, v);
    let t = l0(m, root, i2(v), i1(v));
    let m2 = m.insert(s, e);
    let none = Set::<int>::empty();
    assert(pte::pte_valid(entry(m, root, i2(v))));
    assert(pte::pte_valid(entry(m, l1(m, root, i2(v)), i1(v))));
    assert(phys::has_frame(m, t));
    assert(m.contains_key(t + 8 * i0(v)));
    assert(m2.dom() =~= m.dom());
    assert forall|f: int, i: int|
        #![trigger m2[f + 8 * i]]
        f % 4096 == 0 && 0 <= i < 512 && f != t implies m2[f + 8 * i] == m[f + 8 * i] by {
        if f + 8 * i == s {
            lemma_word(f, i, t, i0(v));
        }
    }
    assert(phys::same_outside(m, m2, set![t]));
    lemma_upper(m, m2, root, t);
    assert forall|w: int| is_page(w) implies #[trigger] page(m2, root, w) == (if w == v {
        e
    } else {
        page(m, root, w)
    }) && path(m2, root, w) == path(m, root, w) by {
        lemma_indices(w);
        assert(has_l0(m2, root, i2(w), i1(w)) == has_l0(m, root, i2(w), i1(w)));
        if path(m, root, w) {
            let u = l0(m, root, i2(w), i1(w));
            assert(l0(m2, root, i2(w), i1(w)) == u);
            assert(pte::pte_valid(entry(m, root, i2(w))));
            assert(pte::pte_valid(entry(m, l1(m, root, i2(w)), i1(w))));
            assert(phys::has_frame(m, u));
            if u == t {
                assert(i2(w) == i2(v) && i1(w) == i1(v));
                if i0(w) != i0(v) {
                    assert(u + 8 * i0(w) != s);
                }
            } else {
                assert(m2[u + 8 * i0(w)] == m[u + 8 * i0(w)]);
            }
        }
    }
}

/// Changing words of one level-0 table `t` leaves the upper two levels of the tree alone.
proof fn lemma_upper(m: Map<int, u64>, m2: Map<int, u64>, root: int, t: int)
    requires
        tree(m, root),
        phys::same_outside(m, m2, set![t]),
        t != root,
        forall|a: int| idx(a) && has_l1(m, root, a) ==> #[trigger] l1(m, root, a) != t,
    ensures
        tree(m2, root),
        forall|a: int| idx(a) ==> #[trigger] entry(m2, root, a) == entry(m, root, a),
        forall|a: int|
            idx(a) ==> #[trigger] has_l1(m2, root, a) == has_l1(m, root, a) && l1(m2, root, a)
                == l1(m, root, a),
        forall|a: int, b: int|
            idx(a) && idx(b) ==> #[trigger] has_l0(m2, root, a, b) == has_l0(m, root, a, b) && (
            has_l0(m, root, a, b) ==> l0(m2, root, a, b) == l0(m, root, a, b)),
        forall|shared: Set<int>| #[trigger] owned(m2, root, shared) == owned(m, root, shared),
{
    reveal(tree);
    assert forall|a: int| idx(a) implies #[trigger] entry(m2, root, a) == entry(m, root, a) by {
        assert(m2[root + 8 * a] == m[root + 8 * a]);
    }
    assert forall|a: int, b: int| idx(a) && idx(b) && has_l1(m, root, a) implies #[trigger] entry(
        m2,
        l1(m2, root, a),
        b,
    ) == entry(m, l1(m, root, a), b) by {
        assert(entry(m2, root, a) == entry(m, root, a));
        let u = l1(m, root, a);
        assert(phys::has_frame(m, u));
        assert(m2[u + 8 * b] == m[u + 8 * b]);
    }
    lemma_same_shape(m, m2, root);
}

/// Two memories of one domain whose upper table entries agree hold the same tree shape.
proof fn lemma_same_shape(m1: Map<int, u64>, m2: Map<int, u64>, root: int)
    requires
        tree(m1, root),
        m1.dom() == m2.dom(),
        forall|a: int| idx(a) ==> #[trigger] entry(m2, root, a) == entry(m1, root, a),
        forall|a: int, b: int|
            idx(a) && idx(b) && has_l1(m1, root, a) ==> #[trigger] entry(m2, l1(m2, root, a), b)
                == entry(m1, l1(m1, root, a), b),
    ensures
        tree(m2, root),
        forall|a: int|
            idx(a) ==> #[trigger] has_l1(m2, root, a) == has_l1(m1, root, a) && l1(m2, root, a)
                == l1(m1, root, a),
        forall|a: int, b: int|
            idx(a) && idx(b) ==> #[trigger] has_l0(m2, root, a, b) == has_l0(m1, root, a, b) && (
            has_l0(m1, root, a, b) ==> l0(m2, root, a, b) == l0(m1, root, a, b)),
        forall|shared: Set<int>| #[trigger] owned(m2, root, shared) == owned(m1, root, shared),
{
    reveal(tree);
    assert forall|a: int| idx(a) implies #[trigger] has_l1(m2, root, a) == has_l1(m1, root, a)
        && l1(m2, root, a) == l1(m1, root, a) by {
        assert(entry(m2, root, a) == entry(m1, root, a));
    }
    assert forall|a: int, b: int| idx(a) && idx(b) implies #[trigger] has_l0(m2, root, a, b)
        == has_l0(m1, root, a, b) && (has_l0(m1, root, a, b) ==> l0(m2, root, a, b) == l0(
        m1,
        root,
        a,
        b,
    )) by {
        assert(has_l1(m2, root, a) == has_l1(m1, root, a));
        if has_l1(m1, root, a) {
            assert(entry(m2, l1(m2, root, a), b) == entry(m1, l1(m1, root, a), b));
        }
    }
    assert forall|shared: Set<int>| #[trigger] owned(m2, root, shared) == owned(
        m1,
        root,
        shared,
    ) by {
        assert forall|t: int| is_owned(m2, root, shared, t) == is_owned(m1, root, shared, t) by {
            if is_owned(m2, root, shared, t) && t != root {
                if exists|a: int|
                    idx(a) && !shared.contains(a) && has_l1(m2, root, a) && #[trigger] l1(
                        m2,
                        root,
                        a,
                    ) == t {
                    let a = choose|a: int|
                        idx(a) && !shared.contains(a) && has_l1(m2, root, a) && #[trigger] l1(
                            m2,
                            root,
                            a,
                        ) == t;
                    assert(has_l1(m1, root, a) && l1(m1, root, a) == t);
                } else {
                    let (a, b) = choose|a: int, b: int|
                        idx(a) && idx(b) && !shared.contains(a) && has_l0(m2, root, a, b)
                            && #[trigger] l0(m2, root, a, b) == t;
                    assert(has_l0(m1, root, a, b) && l0(m1, root, a, b) == t);
                }
            }
            if is_owned(m1, root, shared, t) && t != root {
                if exists|a: int|
                    idx(a) && !shared.contains(a) && has_l1(m1, root, a) && #[trigger] l1(
                        m1,
                        root,
                        a,
                    ) == t {
                    let a = choose|a: int|
                        idx(a) && !shared.contains(a) && has_l1(m1, root, a) && #[trigger] l1(
                            m1,
                            root,
                            a,
                        ) == t;
                    assert(has_l1(m2, root, a) && l1(m2, root, a) == t);
                } else {
                    let (a, b) = choose|a: int, b: int|
                        idx(a) && idx(b) && !shared.contains(a) && has_l0(m1, root, a, b)
                            && #[trigger] l0(m1, root, a, b) == t;
                    assert(has_l0(m2, root, a, b) && l0(m2, root, a, b) == t);
                }
            }
        }
        assert(owned(m2, root, shared) =~= owned(m1, root, shared));
    }
}

/// The entry of a table that points to the table at `f`.
pub open spec fn table_entry(f: int) -> u64 {
    pte::pte_bits((f / 4096) as u64, 1)
}

/// An entry that points to a frame of memory is valid, no leaf, and points there.
pub proof fn lemma_table_entry(m: Map<int, u64>, f: int)
    requires
        phys::has_frame(m, f),
    ensures
        pte::pte_valid(table_entry(f)),
        !pte::pte_leaf(table_entry(f)),
        pte::pte_paddr(table_entry(f)) == f,
{
    pte::lemma_pte_bits((f / 4096) as u64, 1);
}

/// Hanging a fresh, empty level-1 table under an invalid root entry keeps all pages.
pub proof fn lemma_add_l1(m: Map<int, u64>, root: int, a: int, f: int)
    requires
        tree(m, root),
        idx(a),
        !pte::pte_valid(entry(m, root, a)),
        phys::has_frame(m, f),
        phys::zeroed(m, f),
        !is_owned(m, root, Set::empty(), f),
    ensures
        m.contains_key(root + 8 * a),
        ({
            let m2 = m.insert(root + 8 * a, table_entry(f));
            &&& tree(m2, root)
            &&& has_l1(m2, root, a)
            &&& l1(m2, root, a) == f
            &&& forall|a2: int|
                idx(a2) && a2 != a ==> #[trigger] entry(m2, root, a2) == entry(m, root, a2)
            &&& forall|w: int| #![trigger page(m2, root, w)] #![trigger path(m2, root, w)]
                is_page(w) ==> path(m2, root, w) == path(m, root, w) && page(m2, root, w) == page(
                    m,
                    root,
                    w,
                )
            &&& forall|shared: Set<int>|
                !shared.contains(a) ==> #[trigger] owned(m2, root, shared) == owned(
                    m,
                    root,
                    shared,
                ).insert(f)
            &&& phys::same_outside(m, m2, set![root])
        }),
{
    reveal(tree);
    let s = root + 8 * a;
    let e = table_entry(f);
    let m2 = m.insert(s, e);
    lemma_table_entry(m, f);
    assert(m.contains_key(s));
    assert(m2.dom() =~= m.dom());
    assert(is_owned(m, root, Set::empty(), root));
    assert forall|g: int, i: int|
        #![trigger m2[g + 8 * i]]
        g % 4096 == 0 && 0 <= i < 512 && (g != root || i != a) implies m2[g + 8 * i] == m[g + 8
        * i] by {
        if g + 8 * i == s {
            lemma_word(g, i, root, a);
        }
    }
    assert forall|g: int| phys::has_frame(m, g) implies #[trigger] phys::has_frame(m2, g) by {
        assert forall|i: int| 0 <= i < 512 implies #[trigger] m2.contains_key(g + 8 * i) by {
            assert(m.contains_key(g + 8 * i));
        }
    }
    assert forall|a2: int| idx(a2) && a2 != a implies #[trigger] entry(m2, root, a2) == entry(
        m,
        root,
        a2,
    ) by {
        assert(m2[root + 8 * a2] == m[root + 8 * a2]);
    }
    assert(entry(m2, root, a) == e);
    assert(has_l1(m2, root, a) && l1(m2, root, a) == f);
    assert forall|b: int| idx(b) implies #[trigger] entry(m2, f, b) == 0 by {
        assert(m2[f + 8 * b] == m[f + 8 * b]);
    }
    assert forall|b: int| idx(b) implies !(#[trigger] has_l0(m2, root, a, b)) by {
        assert(entry(m2, f, b) == 0);
    }
    assert forall|a2: int| idx(a2) && a2 != a implies #[trigger] has_l1(m2, root, a2) == has_l1(
        m,
        root,
        a2,
    ) && l1(m2, root, a2) == l1(m, root, a2) by {
        assert(entry(m2, root, a2) == entry(m, root, a2));
    }
    assert forall|a2: int, b: int|
        idx(a2) && idx(b) && a2 != a && has_l1(m, root, a2) implies #[trigger] entry(
        m2,
        l1(m2, root, a2),
        b,
    ) == entry(m, l1(m, root, a2), b) by {
        let u = l1(m, root, a2);
        assert(pte::pte_valid(entry(m, root, a2)));
        assert(phys::has_frame(m, u));
        assert(l1(m2, root, a2) == u);
        assert(m2[u + 8 * b] == m[u + 8 * b]);
    }
    assert forall|a2: int, b: int| idx(a2) && idx(b) && a2 != a implies #[trigger] has_l0(
        m2,
        root,
        a2,
        b,
    ) == has_l0(m, root, a2, b) && (has_l0(m, root, a2, b) ==> l0(m2, root, a2, b) == l0(
        m,
        root,
        a2,
        b,
    )) by {
        if has_l1(m, root, a2) {
            assert(entry(m2, l1(m2, root, a2), b) == entry(m, l1(m, root, a2), b));
        }
    }
    assert forall|a2: int| idx(a2) && a2 != a && has_l1(m, root, a2) implies #[trigger] l1(
        m,
        root,
        a2,
    ) != f by {
        if l1(m, root, a2) == f {
            assert(is_owned(m, root, Set::empty(), f));
        }
    }
    assert forall|a2: int, b: int| idx(a2) && idx(b) && has_l0(m, root, a2, b) implies #[trigger] l0(
        m,
        root,
        a2,
        b,
    ) != f by {
        if l0(m, root, a2, b) == f {
            assert(is_owned(m, root, Set::empty(), f));
        }
    }
    assert(!has_l1(m, root, a));
    assert(f != root);
    assert(tree(m2, root));
    assert forall|w: int| is_page(w) implies #[trigger] page(m2, root, w) == page(m, root, w)
        && path(m2, root, w) == path(m, root, w) by {
        lemma_indices(w);
        if i2(w) != a && path(m, root, w) {
            let u = l0(m, root, i2(w), i1(w));
            assert(pte::pte_valid(entry(m, root, i2(w))));
            assert(pte::pte_valid(entry(m, l1(m, root, i2(w)), i1(w))));
            assert(phys::has_frame(m, u));
            assert(l0(m2, root, i2(w), i1(w)) == u);
            assert(m2[u + 8 * i0(w)] == m[u + 8 * i0(w)]);
        }
    }
    assert forall|shared: Set<int>| !shared.contains(a) implies #[trigger] owned(m2, root, shared)
        == owned(m, root, shared).insert(f) by {
        assert forall|t: int|
            is_owned(m2, root, shared, t) == (is_owned(m, root, shared, t) || t == f) by {
            if is_owned(m2, root, shared, t) && t != root {
                if exists|x: int|
                    idx(x) && !shared.contains(x) && has_l1(m2, root, x) && #[trigger] l1(
                        m2,
                        root,
                        x,
                    ) == t {
                    let x = choose|x: int|
                        idx(x) && !shared.contains(x) && has_l1(m2, root, x) && #[trigger] l1(
                            m2,
                            root,
                            x,
                        ) == t;
                    if x != a {
                        assert(has_l1(m, root, x) && l1(m, root, x) == t);
                    }
                } else {
                    let (x, y) = choose|x: int, y: int|
                        idx(x) && idx(y) && !shared.contains(x) && has_l0(m2, root, x, y)
                            && #[trigger] l0(m2, root, x, y) == t;
                    assert(x != a);
                    assert(has_l0(m, root, x, y) && l0(m, root, x, y) == t);
                }
            }
            if t == f {
                assert(has_l1(m2, root, a) && l1(m2, root, a) == t);
            }
            if is_owned(m, root, shared, t) && t != root {
                if exists|x: int|
                    idx(x) && !shared.contains(x) && has_l1(m, root, x) && #[trigger] l1(m, root, x)
                        == t {
                    let x = choose|x: int|
                        idx(x) && !shared.contains(x) && has_l1(m, root, x) && #[trigger] l1(
                            m,
                            root,
                            x,
                        ) == t;
                    assert(x != a);
                    assert(has_l1(m2, root, x) && l1(m2, root, x) == t);
                } else {
                    let (x, y) = choose|x: int, y: int|
                        idx(x) && idx(y) && !shared.contains(x) && has_l0(m, root, x, y)
                            && #[trigger] l0(m, root, x, y) == t;
                    assert(x != a);
                    assert(has_l0(m2, root, x, y) && l0(m2, root, x, y) == t);
                }
            }
        }
        assert(owned(m2, root, shared) =~= owned(m, root, shared).insert(f));
    }
}

/// Hanging a fresh, empty level-0 table under an invalid level-1 entry keeps all pages.
pub proof fn lemma_add_l0(m: Map<int, u64>, root: int, a: int, b: int, f: int)
    requires
        tree(m, root),
        idx(a),
        idx(b),
        has_l1(m, root, a),
        !pte::pte_valid(entry(m, l1(m, root, a), b)),
        phys::has_frame(m, f),
        phys::zeroed(m, f),
        !is_owned(m, root, Set::empty(), f),
    ensures
        m.contains_key(l1(m, root, a) + 8 * b),
        ({
            let m2 = m.insert(l1(m, root, a) + 8 * b, table_entry(f));
            &&& tree(m2, root)
            &&& has_l0(m2, root, a, b)
            &&& l0(m2, root, a, b) == f
            &&& l1(m2, root, a) == l1(m, root, a)
            &&& forall|a2: int| idx(a2) ==> #[trigger] entry(m2, root, a2) == entry(m, root, a2)
            &&& forall|w: int| #![trigger page(m2, root, w)] #![trigger path(m2, root, w)]
                is_page(w) ==> path(m2, root, w) == (path(m, root, w) || (i2(w) == a && i1(w) == b))
                    && page(m2, root, w) == page(m, root, w)
            &&& forall|shared: Set<int>|
                !shared.contains(a) ==> #[trigger] owned(m2, root, shared) == owned(
                    m,
                    root,
                    shared,
                ).insert(f)
            &&& phys::same_outside(m, m2, set![l1(m, root, a)])
        }),
{
    reveal(tree);
    let t1 = l1(m, root, a);
    let s = t1 + 8 * b;
    let e = table_entry(f);
    let m2 = m.insert(s, e);
    lemma_table_entry(m, f);
    assert(pte::pte_valid(entry(m, root, a)));
    assert(phys::has_frame(m, t1));
    assert(m.contains_key(s));
    assert(m2.dom() =~= m.dom());
    assert forall|g: int, i: int|
        #![trigger m2[g + 8 * i]]
        g % 4096 == 0 && 0 <= i < 512 && (g != t1 || i != b) implies m2[g + 8 * i] == m[g + 8
        * i] by {
        if g + 8 * i == s {
            lemma_word(g, i, t1, b);
        }
    }
    assert forall|g: int| phys::has_frame(m, g) implies #[trigger] phys::has_frame(m2, g) by {
        assert forall|i: int| 0 <= i < 512 implies #[trigger] m2.contains_key(g + 8 * i) by {
            assert(m.contains_key(g + 8 * i));
        }
    }
    assert forall|a2: int| idx(a2) implies #[trigger] entry(m2, root, a2) == entry(m, root, a2) by {
        assert(m2[root + 8 * a2] == m[root + 8 * a2]);
    }
    assert forall|a2: int| idx(a2) implies #[trigger] has_l1(m2, root, a2) == has_l1(m, root, a2)
        && l1(m2, root, a2) == l1(m, root, a2) by {
        assert(entry(m2, root, a2) == entry(m, root, a2));
    }
    assert(entry(m2, t1, b) == e);
    assert(has_l0(m2, root, a, b) && l0(m2, root, a, b) == f);
    assert(!has_l0(m, root, a, b));
    assert forall|a2: int, b2: int|
        idx(a2) && idx(b2) && (a2 != a || b2 != b) && has_l1(m, root, a2) implies #[trigger] entry(
        m2,
        l1(m2, root, a2),
        b2,
    ) == entry(m, l1(m, root, a2), b2) by {
        let u = l1(m, root, a2);
        assert(pte::pte_valid(entry(m, root, a2)));
        assert(phys::has_frame(m, u));
        assert(l1(m2, root, a2) == u);
        if a2 != a {
            assert(u != t1);
        }
        assert(m2[u + 8 * b2] == m[u + 8 * b2]);
    }
    assert forall|a2: int, b2: int| idx(a2) && idx(b2) && (a2 != a || b2 != b) implies #[trigger] has_l0(
        m2,
        root,
        a2,
        b2,
    ) == has_l0(m, root, a2, b2) && (has_l0(m, root, a2, b2) ==> l0(m2, root, a2, b2) == l0(
        m,
        root,
        a2,
        b2,
    )) by {
        if has_l1(m, root, a2) {
            assert(entry(m2, l1(m2, root, a2), b2) == entry(m, l1(m, root, a2), b2));
        }
    }
    assert forall|a2: int| idx(a2) && has_l1(m, root, a2) implies #[trigger] l1(m, root, a2)
        != f by {
        if l1(m, root, a2) == f {
            assert(is_owned(m, root, Set::empty(), f));
        }
    }
    assert forall|a2: int, b2: int|
        idx(a2) && idx(b2) && has_l0(m, root, a2, b2) implies #[trigger] l0(m, root, a2, b2)
        != f by {
        if l0(m, root, a2, b2) == f {
            assert(is_owned(m, root, Set::empty(), f));
        }
    }
    assert(is_owned(m, root, Set::empty(), root));
    assert(tree(m2, root));
    assert forall|w: int| is_page(w) implies #[trigger] page(m2, root, w) == page(m, root, w) && (
    path(m2, root, w) == (path(m, root, w) || (i2(w) == a && i1(w) == b))) by {
        lemma_indices(w);
        if i2(w) == a && i1(w) == b {
            assert(m2[f + 8 * i0(w)] == m[f + 8 * i0(w)]);
        } else if path(m, root, w) {
            let u = l0(m, root, i2(w), i1(w));
            assert(pte::pte_valid(entry(m, root, i2(w))));
            assert(pte::pte_valid(entry(m, l1(m, root, i2(w)), i1(w))));
            assert(phys::has_frame(m, u));
            assert(l0(m2, root, i2(w), i1(w)) == u);
            assert(u != t1);
            assert(m2[u + 8 * i0(w)] == m[u + 8 * i0(w)]);
        }
    }
    assert forall|shared: Set<int>| !shared.contains(a) implies #[trigger] owned(m2, root, shared)
        == owned(m, root, shared).insert(f) by {
        assert forall|t: int|
            is_owned(m2, root, shared, t) == (is_owned(m, root, shared, t) || t == f) by {
            if is_owned(m2, root, shared, t) && t != root {
                if exists|x: int|
                    idx(x) && !shared.contains(x) && has_l1(m2, root, x) && #[trigger] l1(
                        m2,
                        root,
                        x,
                    ) == t {
                    let x = choose|x: int|
                        idx(x) && !shared.contains(x) && has_l1(m2, root, x) && #[trigger] l1(
                            m2,
                            root,
                            x,
                        ) == t;
                    assert(has_l1(m, root, x) && l1(m, root, x) == t);
                } else {
                    let (x, y) = choose|x: int, y: int|
                        idx(x) && idx(y) && !shared.contains(x) && has_l0(m2, root, x, y)
                            && #[trigger] l0(m2, root, x, y) == t;
                    if x != a || y != b {
                        assert(has_l0(m, root, x, y) && l0(m, root, x, y) == t);
                    }
                }
            }
            if t == f {
                assert(has_l0(m2, root, a, b) && l0(m2, root, a, b) == t);
            }
            if is_owned(m, root, shared, t) && t != root {
                if exists|x: int|
                    idx(x) && !shared.contains(x) && has_l1(m, root, x) && #[trigger] l1(m, root, x)
                        == t {
                    let x = choose|x: int|
                        idx(x) && !shared.contains(x) && has_l1(m, root, x) && #[trigger] l1(
                            m,
                            root,
                            x,
                        ) == t;
                    assert(has_l1(m2, root, x) && l1(m2, root, x) == t);
                } else {
                    let (x, y) = choose|x: int, y: int|
                        idx(x) && idx(y) && !shared.contains(x) && has_l0(m, root, x, y)
                            && #[trigger] l0(m, root, x, y) == t;
                    assert(x != a || y != b);
                    assert(has_l0(m2, root, x, y) && l0(m2, root, x, y) == t);
                }
            }
        }
        assert(owned(m2, root, shared) =~= owned(m, root, shared).insert(f));
    }
}

} // verus!
