//! The tables on the way to pages, and how many of them are missing.
use vstd::prelude::*;
use crate::memory::sv39;
use crate::memory::table;
use crate::memory::walk;

verus! {

/// A place for a table: `(a, -1)` is that of the level-1 table under root entry `a`, `(a, b)` that of
/// the level-0 table under the entries `a` and `b`.
pub open spec fn is_place(p: (int, int)) -> bool {
    sv39::idx(p.0) && (p.1 == -1 || sv39::idx(p.1))
}

/// There is a table at the place.
pub open spec fn present(m: Map<int, u64>, root: int, p: (int, int)) -> bool {
    if p.1 == -1 {
        sv39::has_l1(m, root, p.0)
    } else {
        sv39::has_l0(m, root, p.0, p.1)
    }
}

/// The places of the tables on the way to page `v`.
pub open spec fn way(v: int) -> Set<(int, int)> {
    set![(sv39::i2(v), -1int), (sv39::i2(v), sv39::i1(v))]
}

/// The places of the tables on the way to the `k` pages from page `v` on.
pub open spec fn ways(v: int, k: int) -> Set<(int, int)> {
    Set::new(
        |p: (int, int)|
            exists|j: int| 0 <= j < k && #[trigger] way(table::page_after(v, j)).contains(p),
    )
}

/// The places of `s` that have no table.
pub open spec fn lacking(m: Map<int, u64>, root: int, s: Set<(int, int)>) -> Set<(int, int)> {
    s.filter(|p: (int, int)| !present(m, root, p))
}

/// The tables of `m2` are those of `m` and, where they were missing, those at the places of `s`.
pub open spec fn grew(m: Map<int, u64>, m2: Map<int, u64>, root: int, s: Set<(int, int)>) -> bool {
    forall|p: (int, int)|
        #![trigger present(m2, root, p)]
        is_place(p) ==> present(m2, root, p) == (present(m, root, p) || s.contains(p))
}

/// The tables on the way to the `k` pages from page `v` on are there; each that was missing took a
/// free frame.
pub open spec fn built(
    m: Map<int, u64>,
    free: Set<int>,
    m2: Map<int, u64>,
    free2: Set<int>,
    root: int,
    v: int,
    k: int,
) -> bool {
    &&& grew(m, m2, root, ways(v, k))
    &&& free2.len() + lacking(m, root, ways(v, k)).len() == free.len()
}

/// The free frames suffice for the tables on the way to the `k` pages from page `v` on, but not for
/// those on the way to one page more.
pub open spec fn short(m: Map<int, u64>, free: Set<int>, root: int, v: int, k: int) -> bool {
    lacking(m, root, ways(v, k)).len() <= free.len() < lacking(m, root, ways(v, k + 1)).len()
}

/// The places under the root entries of `s` that have tables.
pub open spec fn under(m: Map<int, u64>, root: int, s: Set<int>) -> Set<(int, int)> {
    Set::new(|p: (int, int)| is_place(p) && s.contains(p.0) && present(m, root, p))
}

/// Of the places under root entry `a` that have tables, that of the level-1 table and those of the
/// first `n` level-0 tables.
pub open spec fn under_first(m: Map<int, u64>, root: int, a: int, n: int) -> Set<(int, int)> {
    Set::new(
        |p: (int, int)|
            p.0 == a && (p.1 == -1 || (0 <= p.1 < n && sv39::has_l0(m, root, a, p.1))),
    )
}

/// Number of tables on the way to the `n` pages from page `v` on, which do not run over the end of
/// the address range: level-1 tables describe 0x4_0000 pages each, level-0 tables 512.
pub open spec fn tables_for(v: int, n: int) -> int {
    if n <= 0 {
        0
    } else {
        ((v + n - 1) / 0x4_0000 - v / 0x4_0000 + 1) + ((v + n - 1) / 512 - v / 512 + 1)
    }
}

/// Which tables a tree has shows in its root entries and in the pages that are described.
pub proof fn lemma_grew(m: Map<int, u64>, m2: Map<int, u64>, root: int, s: Set<(int, int)>)
    requires
        forall|a: int|
            sv39::idx(a) ==> #[trigger] sv39::has_l1(m2, root, a) == (sv39::has_l1(m, root, a)
                || s.contains((a, -1int))),
        forall|w: int|
            sv39::is_page(w) ==> #[trigger] sv39::path(m2, root, w) == (sv39::path(m, root, w)
                || s.contains((sv39::i2(w), sv39::i1(w)))),
    ensures
        grew(m, m2, root, s),
{
    assert forall|p: (int, int)|
        #![trigger present(m2, root, p)]
        is_place(p) implies present(m2, root, p) == (present(m, root, p) || s.contains(p)) by {
        if p.1 == -1 {
            assert(p == (p.0, -1int));
            assert(sv39::has_l1(m2, root, p.0) == (sv39::has_l1(m, root, p.0) || s.contains(p)));
        } else {
            let w = p.0 * 0x4_0000 + p.1 * 512;
            assert(sv39::is_page(w) && sv39::i2(w) == p.0 && sv39::i1(w) == p.1);
            assert(p == (sv39::i2(w), sv39::i1(w)));
            assert(sv39::path(m2, root, w) == (sv39::path(m, root, w) || s.contains(p)));
        }
    }
}

/// The same tables as before.
pub proof fn lemma_grew_refl(m: Map<int, u64>, root: int)
    ensures
        grew(m, m, root, Set::empty()),
{
}

/// Growing twice.
pub proof fn lemma_grew_trans(
    m: Map<int, u64>,
    m1: Map<int, u64>,
    m2: Map<int, u64>,
    root: int,
    s: Set<(int, int)>,
    t: Set<(int, int)>,
)
    requires
        grew(m, m1, root, s),
        grew(m1, m2, root, t),
    ensures
        grew(m, m2, root, s.union(t)),
{
    assert forall|p: (int, int)|
        #![trigger present(m2, root, p)]
        is_place(p) implies present(m2, root, p) == (present(m, root, p) || s.union(t).contains(
        p,
    )) by {
        assert(present(m1, root, p) == (present(m, root, p) || s.contains(p)));
    }
}

/// The places on the way to a page.
pub proof fn lemma_way(m: Map<int, u64>, root: int, v: int)
    requires
        sv39::is_page(v),
    ensures
        way(v).finite(),
        forall|p: (int, int)| #[trigger] way(v).contains(p) ==> is_place(p),
        lacking(m, root, way(v)).len() == walk::missing(m, root, v),
{
    sv39::lemma_indices(v);
    let p1 = (sv39::i2(v), -1int);
    let p0 = (sv39::i2(v), sv39::i1(v));
    let none = Set::<(int, int)>::empty();
    let s = lacking(m, root, way(v));
    if sv39::path(m, root, v) {
        assert(s =~= none);
    } else if sv39::has_l1(m, root, sv39::i2(v)) {
        assert(s =~= none.insert(p0));
    } else {
        assert(s =~= none.insert(p1).insert(p0));
    }
}

/// One more page.
pub proof fn lemma_ways_step(v: int, k: int)
    requires
        0 <= k,
    ensures
        ways(v, 0) == Set::<(int, int)>::empty(),
        ways(v, k + 1) == ways(v, k).union(way(table::page_after(v, k))),
{
    let last = way(table::page_after(v, k));
    assert(ways(v, 0) =~= Set::<(int, int)>::empty());
    assert forall|p: (int, int)| #[trigger] ways(v, k + 1).contains(p) == ways(v, k).union(
        last,
    ).contains(p) by {
        if ways(v, k + 1).contains(p) {
            let j = choose|j: int|
                0 <= j < k + 1 && #[trigger] way(table::page_after(v, j)).contains(p);
            if j < k {
                assert(way(table::page_after(v, j)).contains(p));
            }
        }
        if ways(v, k).contains(p) {
            let j = choose|j: int| 0 <= j < k && #[trigger] way(table::page_after(v, j)).contains(p);
            assert(way(table::page_after(v, j)).contains(p));
        }
        if last.contains(p) {
            assert(way(table::page_after(v, k)).contains(p));
        }
    }
    assert(ways(v, k + 1) =~= ways(v, k).union(last));
}

/// The places on the way to pages are finitely many.
pub proof fn lemma_ways(v: int, k: int)
    requires
        sv39::is_page(v),
        0 <= k,
    ensures
        ways(v, k).finite(),
        forall|p: (int, int)| #[trigger] ways(v, k).contains(p) ==> is_place(p),
    decreases k,
{
    lemma_ways_step(v, 0);
    if k > 0 {
        lemma_ways(v, k - 1);
        lemma_ways_step(v, k - 1);
        table::lemma_page_after(v, k - 1);
        lemma_way(Map::empty(), 0, table::page_after(v, k - 1));
    }
}

/// The way to a single page.
pub proof fn lemma_ways_one(v: int)
    requires
        sv39::is_page(v),
    ensures
        ways(v, 1) == way(v),
{
    lemma_ways_step(v, 0);
    assert(table::page_after(v, 0) == v);
    assert(Set::<(int, int)>::empty().union(way(v)) =~= way(v));
}

/// Fewer pages need fewer tables.
pub proof fn lemma_ways_less(v: int, j: int, k: int)
    requires
        0 <= j <= k,
    ensures
        ways(v, j).subset_of(ways(v, k)),
{
    assert forall|p: (int, int)| #[trigger] ways(v, j).contains(p) implies ways(v, k).contains(p) by {
        let i = choose|i: int| 0 <= i < j && #[trigger] way(table::page_after(v, i)).contains(p);
        assert(way(table::page_after(v, i)).contains(p));
    }
}

/// What lacks in more places is more.
pub proof fn lemma_lacking_less(
    m: Map<int, u64>,
    root: int,
    s: Set<(int, int)>,
    t: Set<(int, int)>,
)
    requires
        t.finite(),
        s.subset_of(t),
    ensures
        lacking(m, root, s).finite(),
        lacking(m, root, s).len() <= lacking(m, root, t).len() <= t.len(),
{
    let ls = lacking(m, root, s);
    let lt = lacking(m, root, t);
    vstd::set_lib::lemma_len_subset(lt, t);
    vstd::set_lib::lemma_len_subset(ls, lt);
}

/// Where no table was added, the same tables lack.
pub proof fn lemma_lacking_same(m: Map<int, u64>, m1: Map<int, u64>, root: int, s: Set<(int, int)>)
    requires
        grew(m, m1, root, Set::empty()),
        forall|p: (int, int)| #[trigger] s.contains(p) ==> is_place(p),
    ensures
        lacking(m1, root, s) == lacking(m, root, s),
{
    assert forall|p: (int, int)| #[trigger] lacking(m1, root, s).contains(p) == lacking(
        m,
        root,
        s,
    ).contains(p) by {
        if s.contains(p) {
            assert(present(m1, root, p) == present(m, root, p));
        }
    }
    assert(lacking(m1, root, s) =~= lacking(m, root, s));
}

/// After the tables of `s` were added, those of `s` and `t` lack as many as lacked in `s` before and
/// lack in `t` now.
pub proof fn lemma_lacking_union(
    m: Map<int, u64>,
    m1: Map<int, u64>,
    root: int,
    s: Set<(int, int)>,
    t: Set<(int, int)>,
)
    requires
        grew(m, m1, root, s),
        s.finite(),
        t.finite(),
        forall|p: (int, int)| #[trigger] t.contains(p) ==> is_place(p),
    ensures
        lacking(m, root, s.union(t)).len() == lacking(m, root, s).len() + lacking(m1, root, t).len(),
{
    let a = lacking(m, root, s);
    let b = lacking(m1, root, t);
    let c = lacking(m, root, s.union(t));
    vstd::set_lib::lemma_len_subset(a, s);
    vstd::set_lib::lemma_len_subset(b, t);
    assert forall|p: (int, int)| #[trigger] c.contains(p) == a.union(b).contains(p) by {
        if t.contains(p) {
            assert(present(m1, root, p) == (present(m, root, p) || s.contains(p)));
        }
    }
    assert(c =~= a.union(b));
    assert forall|p: (int, int)| #[trigger] a.contains(p) implies !b.contains(p) by {
        if t.contains(p) {
            assert(present(m1, root, p) == (present(m, root, p) || s.contains(p)));
        }
    }
    vstd::set_lib::lemma_set_disjoint_lens(a, b);
}

/// One more page lacks the tables that are missing on the way to it.
pub proof fn lemma_lacking_step(m: Map<int, u64>, m1: Map<int, u64>, root: int, v: int, k: int)
    requires
        sv39::is_page(v),
        0 <= k,
        grew(m, m1, root, ways(v, k)),
    ensures
        lacking(m, root, ways(v, 0)).len() == 0,
        lacking(m, root, ways(v, k + 1)).len() == lacking(m, root, ways(v, k)).len()
            + walk::missing(m1, root, table::page_after(v, k)),
{
    let w = table::page_after(v, k);
    table::lemma_page_after(v, k);
    lemma_ways(v, k);
    lemma_ways_step(v, k);
    lemma_way(m1, root, w);
    lemma_lacking_union(m, m1, root, ways(v, k), way(w));
    assert(lacking(m, root, ways(v, 0)) =~= Set::<(int, int)>::empty());
}

/// Without a page there is nothing to build.
pub proof fn lemma_built_start(m: Map<int, u64>, free: Set<int>, root: int, v: int)
    ensures
        built(m, free, m, free, root, v, 0),
{
    lemma_ways_step(v, 0);
    assert(lacking(m, root, ways(v, 0)) =~= Set::<(int, int)>::empty());
}

/// The tables on the way to one page more are built, or the frames run out there.
pub proof fn lemma_built_step(
    m: Map<int, u64>,
    free: Set<int>,
    m1: Map<int, u64>,
    free1: Set<int>,
    root: int,
    v: int,
    k: int,
)
    requires
        sv39::is_page(v),
        0 <= k,
        built(m, free, m1, free1, root, v, k),
    ensures
        walk::missing(m1, root, table::page_after(v, k)) > free1.len() ==> short(
            m,
            free,
            root,
            v,
            k,
        ),
        forall|m2: Map<int, u64>, free2: Set<int>|
            #![trigger built(m, free, m2, free2, root, v, k + 1)]
            grew(m1, m2, root, way(table::page_after(v, k))) && free2.len() + walk::missing(
                m1,
                root,
                table::page_after(v, k),
            ) == free1.len() ==> built(m, free, m2, free2, root, v, k + 1),
{
    lemma_lacking_step(m, m1, root, v, k);
    lemma_ways_step(v, k);
    assert forall|m2: Map<int, u64>, free2: Set<int>|
        #![trigger built(m, free, m2, free2, root, v, k + 1)]
        grew(m1, m2, root, way(table::page_after(v, k))) && free2.len() + walk::missing(
            m1,
            root,
            table::page_after(v, k),
        ) == free1.len() implies built(m, free, m2, free2, root, v, k + 1) by {
        lemma_grew_trans(m, m1, m2, root, ways(v, k), way(table::page_after(v, k)));
    }
}

/// There are finitely many places.
pub proof fn lemma_under(m: Map<int, u64>, root: int, s: Set<int>)
    ensures
        under(m, root, s).finite(),
{
    let all = ways(0, 0x800_0000);
    lemma_ways(0, 0x800_0000);
    assert forall|p: (int, int)| #[trigger] under(m, root, s).contains(p) implies all.contains(p) by {
        let b = if p.1 == -1 {
            0
        } else {
            p.1
        };
        let w = p.0 * 0x4_0000 + b * 512;
        assert(table::page_after(0, w) == w);
        assert(sv39::i2(w) == p.0 && sv39::i1(w) == b);
        assert(way(table::page_after(0, w)).contains(p));
    }
    vstd::set_lib::lemma_len_subset(under(m, root, s), all);
}

/// The first tables under a root entry, one by one.
pub proof fn lemma_under_first(m: Map<int, u64>, root: int, a: int, n: int)
    requires
        sv39::idx(a),
        sv39::has_l1(m, root, a),
        0 <= n < 512,
    ensures
        under_first(m, root, a, 0).len() == 1,
        under_first(m, root, a, n).finite(),
        under_first(m, root, a, n + 1).len() == under_first(m, root, a, n).len() + (
        if sv39::has_l0(m, root, a, n) {
            1int
        } else {
            0
        }),
        under_first(m, root, a, n).len() <= under_first(m, root, a, 512).len(),
        under_first(m, root, a, n + 1).len() <= under_first(m, root, a, 512).len(),
        under_first(m, root, a, 512) == under(m, root, set![a]),
{
    let none = Set::<(int, int)>::empty();
    let all = under(m, root, set![a]);
    let s = under_first(m, root, a, n);
    let t = under_first(m, root, a, n + 1);
    assert(under_first(m, root, a, 0) =~= none.insert((a, -1int)));
    lemma_under(m, root, set![a]);
    assert(under_first(m, root, a, 512) =~= all);
    vstd::set_lib::lemma_len_subset(s, all);
    vstd::set_lib::lemma_len_subset(t, all);
    if sv39::has_l0(m, root, a, n) {
        assert(t =~= s.insert((a, n)));
    } else {
        assert(t =~= s);
    }
}

/// Tables added under other root entries do not count.
pub proof fn lemma_under_same(
    m: Map<int, u64>,
    m1: Map<int, u64>,
    root: int,
    s: Set<(int, int)>,
    t: Set<int>,
)
    requires
        grew(m, m1, root, s),
        forall|p: (int, int)| #[trigger] s.contains(p) ==> !t.contains(p.0),
    ensures
        under(m1, root, t) == under(m, root, t),
{
    assert forall|p: (int, int)| #[trigger] under(m1, root, t).contains(p) == under(
        m,
        root,
        t,
    ).contains(p) by {
        if is_place(p) {
            assert(present(m1, root, p) == (present(m, root, p) || s.contains(p)));
        }
    }
    assert(under(m1, root, t) =~= under(m, root, t));
}

/// The tables under different root entries.
pub proof fn lemma_under_union(m: Map<int, u64>, root: int, s: Set<int>, t: Set<int>)
    requires
        s.disjoint(t),
    ensures
        under(m, root, s.union(t)).len() == under(m, root, s).len() + under(m, root, t).len(),
{
    let a = under(m, root, s);
    let b = under(m, root, t);
    lemma_under(m, root, s);
    lemma_under(m, root, t);
    assert(under(m, root, s.union(t)) =~= a.union(b));
    assert(a.disjoint(b));
    vstd::set_lib::lemma_set_disjoint_lens(a, b);
}

/// The spans of 0x4_0000 and of 512 pages that page `w` and the page before it lie in.
proof fn lemma_span(w: int)
    requires
        0 < w,
    ensures
        w / 0x4_0000 == (w - 1) / 0x4_0000 + (if w % 0x4_0000 == 0 {
            1int
        } else {
            0
        }),
        w / 512 == (w - 1) / 512 + (if w % 512 == 0 {
            1int
        } else {
            0
        }),
{
}

/// Pages of one span, the first of which is not the later one.
proof fn lemma_same_span(x: int, w: int)
    requires
        0 <= x < w,
    ensures
        sv39::i2(x) == sv39::i2(w) ==> w % 0x4_0000 != 0,
        sv39::i2(x) == sv39::i2(w) && sv39::i1(x) == sv39::i1(w) ==> w % 512 != 0,
{
    if sv39::i2(x) == sv39::i2(w) && sv39::i1(x) == sv39::i1(w) {
        let a = x / 512;
        let b = w / 512;
        assert(x / 0x4_0000 == a / 512);
        assert(w / 0x4_0000 == b / 512);
        assert(a == 512 * (a / 512) + a % 512);
        assert(b == 512 * (b / 512) + b % 512);
        assert(a == b);
    }
}

/// Whether the table at a place on the way to page `w` is on the way to a page before it.
proof fn lemma_ways_hold(v: int, k: int)
    requires
        0 <= v,
        0 <= k,
        v + k < 0x800_0000,
    ensures
        ways(v, k).contains((sv39::i2(v + k), -1int)) == (k > 0 && (v + k) % 0x4_0000 != 0),
        ways(v, k).contains((sv39::i2(v + k), sv39::i1(v + k))) == (k > 0 && (v + k) % 512 != 0),
{
    let w = v + k;
    let s = ways(v, k);
    let p1 = (sv39::i2(w), -1int);
    let p0 = (sv39::i2(w), sv39::i1(w));
    sv39::lemma_indices(w);
    if k > 0 {
        lemma_span(w);
        assert(table::page_after(v, k - 1) == w - 1);
        assert(way(table::page_after(v, k - 1)) == way(w - 1));
        if w % 0x4_0000 != 0 {
            assert(way(table::page_after(v, k - 1)).contains(p1));
        }
        if w % 512 != 0 {
            assert(w / 0x4_0000 == (w / 512) / 512);
            assert((w - 1) / 0x4_0000 == ((w - 1) / 512) / 512);
            assert(way(table::page_after(v, k - 1)).contains(p0));
        }
    }
    if s.contains(p1) {
        let j = choose|j: int| 0 <= j < k && #[trigger] way(table::page_after(v, j)).contains(p1);
        assert(table::page_after(v, j) == v + j);
        sv39::lemma_indices(v + j);
        lemma_same_span(v + j, w);
    }
    if s.contains(p0) {
        let j = choose|j: int| 0 <= j < k && #[trigger] way(table::page_after(v, j)).contains(p0);
        assert(table::page_after(v, j) == v + j);
        sv39::lemma_indices(v + j);
        lemma_same_span(v + j, w);
    }
}

/// A run of pages needs the tables of every span of 0x4_0000 and of 512 pages that it meets.
pub proof fn lemma_tables_for(v: int, n: int)
    requires
        0 <= v,
        0 <= n,
        v + n <= 0x800_0000,
    ensures
        ways(v, n).finite(),
        ways(v, n).len() == tables_for(v, n),
    decreases n,
{
    lemma_ways_step(v, 0);
    if n > 0 {
        let k = n - 1;
        let w = v + k;
        lemma_tables_for(v, k);
        lemma_ways_step(v, k);
        lemma_ways_hold(v, k);
        assert(table::page_after(v, k) == w);
        sv39::lemma_indices(w);
        let s = ways(v, k);
        let p1 = (sv39::i2(w), -1int);
        let p0 = (sv39::i2(w), sv39::i1(w));
        assert(ways(v, n) =~= s.insert(p1).insert(p0));
        if k > 0 {
            lemma_span(w);
        }
    }
}

} // verus!
