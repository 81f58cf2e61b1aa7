//! The order of what a filter keeps.
use vstd::prelude::*;

verus! {

/// How many items before position `i` meet the condition.
pub open spec fn rank<T>(s: Seq<T>, p: spec_fn(T) -> bool, i: int) -> int {
    s.subrange(0, i).filter(p).len() as int
}

/// An item that meets the condition stands among the kept ones behind those kept before it.
pub proof fn lemma_rank<T>(s: Seq<T>, p: spec_fn(T) -> bool, i: int)
    requires
        0 <= i < s.len(),
        p(s[i]),
    ensures
        0 <= rank(s, p, i) < s.filter(p).len(),
        s.filter(p)[rank(s, p, i)] == s[i],
    decreases s.len(),
{
    reveal(Seq::filter);
    let head = s.drop_last();
    if i == s.len() - 1 {
        assert(s.subrange(0, i) =~= head);
    } else {
        lemma_rank(head, p, i);
        assert(head.subrange(0, i) =~= s.subrange(0, i));
        assert(head[i] == s[i]);
    }
}

/// What stood earlier stands earlier among the kept ones.
pub proof fn lemma_rank_order<T>(s: Seq<T>, p: spec_fn(T) -> bool, i: int, j: int)
    requires
        0 <= i < j <= s.len(),
        p(s[i]),
    ensures
        rank(s, p, i) < rank(s, p, j),
{
    let head = s.subrange(0, j);
    assert(head[i] == s[i]);
    lemma_rank(head, p, i);
    assert(head.subrange(0, i) =~= s.subrange(0, i));
}

/// Where no item meets the condition none is kept; where all do, all are.
pub proof fn lemma_filter_all<T>(s: Seq<T>, p: spec_fn(T) -> bool)
    ensures
        (forall|i: int| 0 <= i < s.len() ==> !p(#[trigger] s[i])) ==> s.filter(p)
            == Seq::<T>::empty(),
        (forall|i: int| 0 <= i < s.len() ==> p(#[trigger] s[i])) ==> s.filter(p) == s,
    decreases s.len(),
{
    reveal(Seq::filter);
    if s.len() > 0 {
        let head = s.drop_last();
        lemma_filter_all(head, p);
        assert(head.push(s.last()) =~= s);
        assert(forall|i: int| 0 <= i < head.len() ==> head[i] == s[i]);
        assert(s[s.len() - 1] == s.last());
    } else {
        assert(s.filter(p) =~= s);
    }
}

} // verus!
