//! Lists of free blocks, threaded through the blocks.
use vstd::prelude::*;
use crate::memory::block::shape;
use crate::memory::phys::PhysMem;

verus! {

/// The address that element `i` of the list holds: that of the next element, or zero.
pub open spec fn next_of(l: Seq<int>, i: int) -> int {
    if i + 1 < l.len() {
        l[i + 1]
    } else {
        0
    }
}

/// Address of the first element, or zero.
pub open spec fn head_of(l: Seq<int>) -> int {
    if l.len() == 0 {
        0
    } else {
        l[0]
    }
}

/// Element `i` of the list is a word that holds the address of the next element.
pub open spec fn node(m: Map<int, u64>, l: Seq<int>, i: int) -> bool {
    m.contains_key(l[i]) && 0 < l[i] <= u64::MAX && m[l[i]] == next_of(l, i)
}

/// The memory holds the list.
pub open spec fn linked(m: Map<int, u64>, l: Seq<int>) -> bool {
    &&& l.no_duplicates()
    &&& forall|i: int| 0 <= i < l.len() ==> #[trigger] node(m, l, i)
}

/// A memory with the same words at the elements holds the list too.
pub proof fn lemma_linked_same(m: Map<int, u64>, m2: Map<int, u64>, l: Seq<int>)
    requires
        linked(m, l),
        m.dom() == m2.dom(),
        forall|a: int| #[trigger] l.contains(a) ==> m2[a] == m[a],
    ensures
        linked(m2, l),
{
    assert forall|i: int| 0 <= i < l.len() implies #[trigger] node(m2, l, i) by {
        assert(l.contains(l[i]));
        assert(node(m, l, i));
    }
}

/// Without its first element, the list is still held.
pub proof fn lemma_linked_rest(m: Map<int, u64>, l: Seq<int>)
    requires
        linked(m, l),
        l.len() > 0,
    ensures
        linked(m, l.drop_first()),
        m[l[0]] == head_of(l.drop_first()),
{
    let r = l.drop_first();
    assert(node(m, l, 0));
    assert forall|i: int| 0 <= i < r.len() implies #[trigger] node(m, r, i) by {
        assert(r[i] == l[i + 1]);
        assert(node(m, l, i + 1));
    }
}

/// A block whose first word holds the address of the list becomes its first element.
pub proof fn lemma_linked_push(m: Map<int, u64>, l: Seq<int>, b: int)
    requires
        linked(m, l),
        m.contains_key(b),
        0 < b <= u64::MAX,
        !l.contains(b),
        0 <= head_of(l) <= u64::MAX,
    ensures
        linked(m.insert(b, head_of(l) as u64), seq![b] + l),
{
    let m2 = m.insert(b, head_of(l) as u64);
    let n = seq![b] + l;
    assert(m2.dom() =~= m.dom());
    assert forall|i: int| 0 <= i < n.len() implies #[trigger] node(m2, n, i) by {
        if i > 0 {
            assert(n[i] == l[i - 1]);
            assert(l.contains(l[i - 1]));
            assert(node(m, l, i - 1));
        }
    }
    assert forall|i: int, j: int|
        0 <= i < n.len() && 0 <= j < n.len() && i != j implies n[i] != n[j] by {
        if i == 0 {
            assert(l.contains(l[j - 1]));
        } else if j == 0 {
            assert(l.contains(l[i - 1]));
        } else {
            assert(l[i - 1] != l[j - 1]);
        }
    }
}

/// The first `n` elements without those on the page.
pub open spec fn kept(l: Seq<int>, page: int, n: int) -> Seq<int>
    decreases n,
{
    if n <= 0 {
        Seq::empty()
    } else if shape::page_of(l[n - 1]) == page {
        kept(l, page, n - 1)
    } else {
        kept(l, page, n - 1).push(l[n - 1])
    }
}

/// The address is one of the first `n` elements.
pub open spec fn among(l: Seq<int>, n: int, a: int) -> bool {
    exists|j: int| 0 <= j < n && #[trigger] l[j] == a
}

/// What is kept: the elements that are not on the page, each once.
pub proof fn lemma_kept(l: Seq<int>, page: int, n: int)
    requires
        0 <= n <= l.len(),
        l.no_duplicates(),
    ensures
        kept(l, page, n).no_duplicates(),
        forall|a: int| #[trigger]
            kept(l, page, n).contains(a) <==> shape::page_of(a) != page && among(l, n, a),
    decreases n,
{
    let k = kept(l, page, n);
    if n > 0 {
        lemma_kept(l, page, n - 1);
        let k1 = kept(l, page, n - 1);
        let last = l[n - 1];
        assert(!among(l, n - 1, last));
        if shape::page_of(last) != page {
            assert forall|a: int| k.contains(a) == (k1.contains(a) || a == last) by {
                if k1.contains(a) {
                    let j = choose|j: int| 0 <= j < k1.len() && k1[j] == a;
                    assert(k[j] == a);
                }
                if a == last {
                    assert(k[k1.len() as int] == a);
                }
            }
            assert(!k1.contains(last));
        }
    }
}

/// The address `k` steps of `size` after `base`.
pub open spec fn nth(base: int, size: int, k: int) -> int {
    base + k * size
}

/// Chains blocks of a page: blocks `0` to `n - 1` from `base` on.
pub fn link_blocks(mem: &mut PhysMem, base: u64, n: u64, size: u64)
    requires
        old(mem).wf(),
        size > 0,
        base + n * size <= u64::MAX,
        forall|k: int| 0 <= k < n ==> old(mem)@.contains_key(
                #[trigger] nth(base as int, size as int, k),
            ),
    ensures
        final(mem).wf(),
        final(mem).start() == old(mem).start(),
        final(mem).end() == old(mem).end(),
        final(mem)@.dom() == old(mem)@.dom(),
        forall|k: int|
            0 <= k < n ==> final(mem)@[#[trigger] nth(base as int, size as int, k)] == (if k + 1 < n {
                nth(base as int, size as int, k + 1)
            } else {
                0
            }),
        forall|a: int|
            (forall|k: int| 0 <= k < n ==> a != #[trigger] nth(base as int, size as int, k))
                ==> #[trigger] final(mem)@[a] == old(mem)@[a],
{
    let mut i: u64 = 0;
    let mut this: u64 = base;
    while i < n
        invariant
            i <= n,
            mem.wf(),
            size > 0,
            this == base + i * size,
            base + n * size <= u64::MAX,
            mem.start() == old(mem).start(),
            mem.end() == old(mem).end(),
            mem@.dom() == old(mem)@.dom(),
            forall|k: int| 0 <= k < n ==> old(mem)@.contains_key(
                #[trigger] nth(base as int, size as int, k),
            ),
            forall|k: int|
                0 <= k < i ==> mem@[#[trigger] nth(base as int, size as int, k)] == (if k + 1 < n {
                    nth(base as int, size as int, k + 1)
                } else {
                    0
                }),
            forall|a: int|
                (forall|k: int| 0 <= k < n ==> a != #[trigger] nth(base as int, size as int, k))
                    ==> #[trigger] mem@[a] == old(mem)@[a],
        decreases n - i,
    {
        let ghost before = mem@;
        assert(old(mem)@.contains_key(nth(base as int, size as int, i as int)));
        assert(base + (i + 1) * size <= base + n * size && (i + 1) * size == i * size + size)
            by (nonlinear_arith)
            requires
                i + 1 <= n,
                size > 0,
        ;
        let next: u64 = this + size;
        mem.write_word(
            this,
            if i + 1 < n {
                next
            } else {
                0
            },
        );
        proof {
            assert(mem@.dom() =~= old(mem)@.dom());
            assert forall|k: int| 0 <= k <= i implies mem@[#[trigger] nth(
                base as int,
                size as int,
                k,
            )] == (if k + 1 < n {
                nth(base as int, size as int, k + 1)
            } else {
                0
            }) by {
                if k < i {
                    assert(k * size < i * size) by (nonlinear_arith)
                        requires
                            k < i,
                            size > 0,
                    ;
                }
            }
        }
        this = next;
        i += 1;
    }
}

/// Takes the elements on the page out of the list that starts at `head`; the head of what is left.
pub(crate) fn purge_freelist(mem: &mut PhysMem, head: u64, l: Ghost<Seq<int>>, page: u64) -> (r: u64)
    requires
        old(mem).wf(),
        linked(old(mem)@, l@),
        head == head_of(l@),
        page + 4096 <= u64::MAX,
        page % 4096 == 0,
    ensures
        final(mem).wf(),
        final(mem).start() == old(mem).start(),
        final(mem).end() == old(mem).end(),
        final(mem)@.dom() == old(mem)@.dom(),
        linked(final(mem)@, kept(l@, page as int, l@.len() as int)),
        r == head_of(kept(l@, page as int, l@.len() as int)),
        forall|a: int|
            !l@.contains(a) || shape::page_of(a) == page ==> #[trigger] final(mem)@[a] == old(mem)@[a],
{
    let pool_end: u64 = page + 4096;
    let mut new_head: u64 = 0;
    let mut last: u64 = 0;
    let mut this: u64 = head;
    let ghost mut i: int = 0;
    let ghost l = l@;
    let ghost m0 = mem@;
    while this != 0
        invariant
            0 <= i <= l.len(),
            mem.wf(),
            mem.start() == old(mem).start(),
            mem.end() == old(mem).end(),
            mem@.dom() == m0.dom(),
            m0 == old(mem)@,
            linked(m0, l),
            page % 4096 == 0,
            pool_end == page + 4096,
            this == (if i < l.len() {
                l[i]
            } else {
                0
            }),
            new_head == head_of(kept(l, page as int, i)),
            last == (if kept(l, page as int, i).len() == 0 {
                0
            } else {
                kept(l, page as int, i).last()
            }),
            forall|j: int|
                #![trigger kept(l, page as int, i)[j]]
                0 <= j < kept(l, page as int, i).len() - 1 ==> mem@[kept(l, page as int, i)[j]]
                    == kept(l, page as int, i)[j + 1],
            forall|a: int|
                !kept(l, page as int, i).contains(a) ==> #[trigger] mem@[a] == m0[a],
        decreases l.len() - i,
    {
        let ghost k = kept(l, page as int, i);
        proof {
            lemma_kept(l, page as int, i);
            assert(node(m0, l, i));
            assert forall|j: int| 0 <= j < k.len() implies #[trigger] k[j] > 0 by {
                assert(k.contains(k[j]));
                let t = choose|t: int| 0 <= t < i && #[trigger] l[t] == k[j];
                assert(node(m0, l, t));
            }
            assert(!k.contains(l[i])) by {
                if k.contains(l[i]) {
                    let j = choose|j: int| 0 <= j < i && #[trigger] l[j] == l[i];
                    assert(l[j] == l[i]);
                }
            }
        }
        let next: u64 = mem.read_word(this);
        if !(this >= page && this < pool_end) {
            if new_head == 0 {
                new_head = this;
            }
            if last != 0 {
                proof {
                    assert(k.contains(k.last()));
                    let j = choose|j: int| 0 <= j < i && #[trigger] l[j] == k.last();
                    assert(node(m0, l, j));
                }
                let ghost before = mem@;
                mem.write_word(last, this);
                proof {
                    assert(mem@.dom() =~= m0.dom());
                    assert forall|j: int| #![trigger k[j]] 0 <= j < k.len() - 1 implies mem@[k[j]]
                        == k[j + 1] by {
                        assert(k[j] != k[k.len() - 1]);
                        assert(before[k[j]] == k[j + 1]);
                    }
                }
            }
            let ghost last_before = last as int;
            last = this;
            proof {
                let k2 = kept(l, page as int, i + 1);
                assert(shape::page_of(l[i]) != page);
                assert(k2 == k.push(l[i]));
                assert forall|a: int| !k2.contains(a) implies #[trigger] mem@[a] == m0[a] by {
                    if k.contains(a) {
                        let j = choose|j: int| 0 <= j < k.len() && k[j] == a;
                        assert(k2[j] == a);
                    }
                    if k.len() > 0 {
                        assert(k2[k.len() - 1] == k.last());
                    }
                }
                assert forall|j: int| #![trigger k2[j]] 0 <= j < k2.len() - 1 implies mem@[k2[j]]
                    == k2[j + 1] by {
                    assert(k2[j] == k[j]);
                    if j < k.len() - 1 {
                        assert(k2[j + 1] == k[j + 1]);
                    } else {
                        assert(last_before == k[j]);
                    }
                }
            }
        } else {
            assert(shape::page_of(l[i]) == page);
        }
        this = next;
        proof {
            i = i + 1;
        }
    }
    proof {
        if i < l.len() {
            assert(node(m0, l, i));
        }
        lemma_kept(l, page as int, i);
    }
    let ghost k = kept(l, page as int, i);
    if last != 0 {
        proof {
            assert(k.contains(k.last()));
            let j = choose|j: int| 0 <= j < i && #[trigger] l[j] == k.last();
            assert(node(m0, l, j));
        }
        mem.write_word(last, 0);
        assert(mem@.dom() =~= m0.dom());
    }
    proof {
        assert forall|j: int| 0 <= j < k.len() implies #[trigger] node(mem@, k, j) by {
            assert(k.contains(k[j]));
            let t = choose|t: int| 0 <= t < i && #[trigger] l[t] == k[j];
            assert(node(m0, l, t));
            if j < k.len() - 1 {
                assert(k[j] != k[k.len() - 1]);
            }
        }
        assert forall|a: int| !l.contains(a) || shape::page_of(a) == page implies #[trigger] mem@[a]
            == m0[a] by {
            if k.len() > 0 {
                assert(k.contains(k.last()));
            }
            if among(l, i, a) {
                let t = choose|t: int| 0 <= t < i && #[trigger] l[t] == a;
                assert(l[t] == a);
            }
        }
    }
    new_head
}

} // verus!
