//! The state of the block allocator and what its steps do to it.
use vstd::prelude::*;
use crate::memory::block::list;
use crate::memory::block::shape;
use crate::memory::block::shape::MAX_POWER;
use crate::memory::phys;

verus! {

/// The free blocks of every power, in the order of their lists, and the power of every page that is
/// cut into blocks.
#[verifier::ext_equal]
pub struct Pools {
    pub lists: Seq<Seq<int>>,
    pub pages: Map<int, int>,
}

/// No page is cut into blocks.
pub open spec fn no_pools() -> Pools {
    Pools { lists: Seq::new(13, |p: int| Seq::<int>::empty()), pages: Map::empty() }
}

/// The address is that of a block on a page with the power.
pub open spec fn on_page(pages: Map<int, int>, power: int, b: int) -> bool {
    let page = shape::page_of(b);
    shape::is_block(power, b) && pages.contains_key(page) && pages[page] == power
}

/// The block is in use.
pub open spec fn in_use(s: Pools, b: int) -> bool {
    let power = s.pages[shape::page_of(b)];
    on_page(s.pages, power, b) && !s.lists[power].contains(b)
}

/// The blocks in use and their sizes.
pub open spec fn live(s: Pools) -> Map<int, int> {
    Map::new(|b: int| in_use(s, b), |b: int| shape::block_size(s.pages[shape::page_of(b)]))
}

/// The blocks of the page that are not on the list.
pub open spec fn live_on(l: Seq<int>, power: int, page: int) -> Set<int> {
    Set::new(|b: int| shape::is_block(power, b) && shape::page_of(b) == page && !l.contains(b))
}

/// The list of the power is in memory and made of blocks of the power.
pub open spec fn list_ok(s: Pools, m: Map<int, u64>, power: int) -> bool {
    &&& list::linked(m, s.lists[power])
    &&& forall|b: int| #[trigger] s.lists[power].contains(b) ==> on_page(s.pages, power, b)
}

/// The page is a frame that is not free; its first word counts its blocks in use, of which there is
/// one at least.
pub open spec fn page_ok(s: Pools, m: Map<int, u64>, free: Set<int>, page: int) -> bool {
    let power = s.pages[page];
    &&& shape::is_power(power)
    &&& phys::has_frame(m, page)
    &&& !free.contains(page)
    &&& power < MAX_POWER ==> m[page] == live_on(s.lists[power], power, page).len() && m[page] > 0
}

/// The state is that of the memory; the pages are not among the free frames.
pub open spec fn pools_ok(s: Pools, m: Map<int, u64>, free: Set<int>) -> bool {
    &&& s.lists.len() == MAX_POWER + 1
    &&& s.lists[MAX_POWER as int] == Seq::<int>::empty()
    &&& forall|p: int| shape::is_power(p) ==> #[trigger] list_ok(s, m, p)
    &&& forall|f: int| #[trigger] s.pages.contains_key(f) ==> page_ok(s, m, free, f)
}

/// The words of the `size` bytes at `b` are the same.
pub open spec fn same_words(m: Map<int, u64>, m2: Map<int, u64>, b: int, size: int) -> bool {
    forall|i: int| 0 <= i < size / 8 ==> #[trigger] m2[b + 8 * i] == m[b + 8 * i]
}

/// The blocks in use hold what they held, except perhaps `but`.
pub open spec fn contents_kept(s: Pools, m: Map<int, u64>, m2: Map<int, u64>, but: int) -> bool {
    forall|b: int| #[trigger]
        live(s).contains_key(b) && b != but ==> same_words(m, m2, b, live(s)[b])
}

/// The blocks of a page that are not on a list are finitely many.
pub proof fn lemma_live_finite(l: Seq<int>, power: int, page: int)
    ensures
        live_on(l, power, page).finite(),
        live_on(l, power, page).len() <= 4096,
{
    let all = vstd::set_lib::set_int_range(page, page + 4096);
    vstd::set_lib::lemma_int_range(page, page + 4096);
    assert(live_on(l, power, page).subset_of(all));
    vstd::set_lib::lemma_len_subset(live_on(l, power, page), all);
}

/// A word of a block is on the page of the block, and not a count.
pub proof fn lemma_word(s: Pools, m: Map<int, u64>, free: Set<int>, c: int, i: int)
    requires
        pools_ok(s, m, free),
        on_page(s.pages, s.pages[shape::page_of(c)], c),
        0 <= i < shape::block_size(s.pages[shape::page_of(c)]) / 8,
    ensures
        shape::page_of(c + 8 * i) == shape::page_of(c),
        s.pages[shape::page_of(c)] < MAX_POWER ==> c + 8 * i != shape::page_of(c),
        m.contains_key(c + 8 * i),
        (c + 8 * i) % 8 == 0,
{
    let page = shape::page_of(c);
    let power = s.pages[page];
    assert(page_ok(s, m, free, page));
    shape::lemma_block_fits(power, c);
    shape::lemma_blocks_in(power);
    assert((c + 8 * i) % 4096 == c % 4096 + 8 * i);
    let j = (c % 4096) / 8 + i;
    assert(c + 8 * i == page + 8 * j);
    assert(m.dom().contains(page + 8 * j));
}

/// A word of a block is not in another block.
pub proof fn lemma_word_apart(s: Pools, m: Map<int, u64>, free: Set<int>, c: int, i: int, b: int)
    requires
        pools_ok(s, m, free),
        on_page(s.pages, s.pages[shape::page_of(c)], c),
        on_page(s.pages, s.pages[shape::page_of(b)], b),
        b != c,
        0 <= i < shape::block_size(s.pages[shape::page_of(c)]) / 8,
    ensures
        c + 8 * i != b,
{
    let page = shape::page_of(c);
    let power = s.pages[page];
    lemma_word(s, m, free, c, i);
    assert(page_ok(s, m, free, page));
    shape::lemma_blocks_in(power);
    if shape::page_of(b) == page {
        shape::lemma_blocks_apart(power, b, c);
    }
}

/// The blocks in use keep what they hold if only counts and the first words of other blocks change.
pub proof fn lemma_contents(
    s: Pools,
    m: Map<int, u64>,
    free: Set<int>,
    m2: Map<int, u64>,
    but: int,
)
    requires
        pools_ok(s, m, free),
        forall|a: int| #[trigger] m2[a] == m[a] || a == but || (s.pages.contains_key(a)
            && s.pages[a] < MAX_POWER) || free_block(s, a) || !s.pages.contains_key(
            shape::page_of(a),
        ),
        on_page(s.pages, s.pages[shape::page_of(but)], but) || !s.pages.contains_key(
            shape::page_of(but),
        ),
    ensures
        contents_kept(s, m, m2, but),
{
    assert forall|c: int| #[trigger] live(s).contains_key(c) && c != but implies same_words(
        m,
        m2,
        c,
        live(s)[c],
    ) by {
        let page = shape::page_of(c);
        let size = live(s)[c];
        assert forall|i: int| 0 <= i < size / 8 implies #[trigger] m2[c + 8 * i] == m[c + 8 * i] by {
            let a = c + 8 * i;
            lemma_word(s, m, free, c, i);
            if s.pages.contains_key(a) && s.pages[a] < MAX_POWER {
                assert(page_ok(s, m, free, a));
                assert(shape::page_of(a) == a);
            }
            if free_block(s, a) {
                lemma_word_apart(s, m, free, c, i, a);
            }
            if a == but {
                lemma_word_apart(s, m, free, c, i, but);
            }
        }
    }
}

/// The block is on the list of its power.
pub open spec fn free_block(s: Pools, b: int) -> bool {
    let power = s.pages[shape::page_of(b)];
    on_page(s.pages, power, b) && s.lists[power].contains(b)
}

/// An element of a list is a free block, and not the first word of a page.
pub proof fn lemma_listed(s: Pools, m: Map<int, u64>, free: Set<int>, power: int, b: int)
    requires
        pools_ok(s, m, free),
        shape::is_power(power),
        s.lists[power].contains(b),
    ensures
        power < MAX_POWER,
        on_page(s.pages, power, b),
        free_block(s, b),
        b % 4096 != 0,
        b % 4096 >= 8,
        m.contains_key(b),
        0 < b < phys::PHYS_LIMIT,
{
    assert(list_ok(s, m, power));
    shape::lemma_block_fits(power, b);
    let page = shape::page_of(b);
    assert(page_ok(s, m, free, page));
    let j = (b % 4096) / 8;
    assert(b == page + 8 * j);
    assert(m.dom().contains(page + 8 * j));
}

/// A list stays in memory if only words change that are not its elements.
proof fn lemma_list_stays(
    s: Pools,
    s2: Pools,
    m: Map<int, u64>,
    m2: Map<int, u64>,
    power: int,
)
    requires
        list_ok(s, m, power),
        s2.lists[power] == s.lists[power],
        m2.dom() == m.dom(),
        forall|a: int| #[trigger] s.lists[power].contains(a) ==> m2[a] == m[a],
        forall|b: int| #[trigger]
            s.lists[power].contains(b) ==> on_page(s2.pages, power, b),
    ensures
        list_ok(s2, m2, power),
{
    list::lemma_linked_same(m, m2, s.lists[power]);
}

/// The state after the first free block of the power was taken.
pub open spec fn taken(s: Pools, power: int) -> Pools {
    Pools { lists: s.lists.update(power, s.lists[power].drop_first()), pages: s.pages }
}

/// Taking a free block: one more block of its page is in use.
pub proof fn lemma_taken(s: Pools, m: Map<int, u64>, free: Set<int>, power: int)
    requires
        pools_ok(s, m, free),
        shape::is_power(power),
        s.lists[power].len() > 0,
    ensures
        ({
            let b = s.lists[power][0];
            let page = shape::page_of(b);
            let m2 = m.insert(page, (m[page] + 1) as u64);
            let s2 = taken(s, power);
            &&& power < MAX_POWER
            &&& m.contains_key(b)
            &&& m.contains_key(page)
            &&& 0 < page <= b < phys::PHYS_LIMIT
            &&& m[page] < 0x10000
            &&& m[b] == list::head_of(s2.lists[power])
            &&& pools_ok(s2, m2, free)
            &&& !live(s).contains_key(b)
            &&& live(s2) == live(s).insert(b, shape::block_size(power))
            &&& contents_kept(s, m, m2, b)
        }),
{
    let l = s.lists[power];
    let b = l[0];
    let page = shape::page_of(b);
    let m2 = m.insert(page, (m[page] + 1) as u64);
    let s2 = taken(s, power);
    let rest = l.drop_first();
    assert(l.contains(b));
    lemma_listed(s, m, free, power, b);
    assert(list_ok(s, m, power));
    assert(page_ok(s, m, free, page));
    list::lemma_linked_rest(m, l);
    assert(m.dom().contains(page + 8 * 0));
    lemma_live_finite(l, power, page);
    assert(m2.dom() =~= m.dom());
    assert forall|a: int| l.contains(a) == (rest.contains(a) || a == b) by {
        if l.contains(a) && a != b {
            let i = choose|i: int| 0 <= i < l.len() && l[i] == a;
            assert(rest[i - 1] == a);
        }
        if rest.contains(a) {
            let i = choose|i: int| 0 <= i < rest.len() && rest[i] == a;
            assert(l[i + 1] == a);
        }
    }
    assert(!rest.contains(b)) by {
        if rest.contains(b) {
            let i = choose|i: int| 0 <= i < rest.len() && rest[i] == b;
            assert(l[i + 1] == l[0]);
        }
    }
    assert forall|q: int| shape::is_power(q) implies #[trigger] list_ok(s2, m2, q) by {
        assert(list_ok(s, m, q));
        assert forall|a: int| #[trigger] s2.lists[q].contains(a) implies m2[a] == m[a] by {
            lemma_listed(s, m, free, q, a);
        }
        list::lemma_linked_same(m, m2, s2.lists[q]);
    }
    assert forall|f: int| #[trigger] s2.pages.contains_key(f) implies page_ok(s2, m2, free, f) by {
        assert(page_ok(s, m, free, f));
        let q = s.pages[f];
        if f == page {
            assert(live_on(rest, power, page) =~= live_on(l, power, page).insert(b));
        } else {
            assert(live_on(s2.lists[q], q, f) =~= live_on(s.lists[q], q, f));
        }
    }
    assert(live(s2) =~= live(s).insert(b, shape::block_size(power)));
    lemma_contents(s, m, free, m2, b);
}

/// The blocks of a fresh page but the first.
pub open spec fn fresh_list(page: int, power: int) -> Seq<int> {
    Seq::new((shape::blocks_in(power) - 1) as nat, |i: int| shape::block_at(page, power, i + 1))
}

/// The state after the page was cut into blocks and the first of them was taken.
pub open spec fn filled(s: Pools, power: int, page: int) -> Pools {
    Pools {
        lists: s.lists.update(power, fresh_list(page, power)),
        pages: s.pages.insert(page, power),
    }
}

/// The blocks of the page are chained.
pub open spec fn chained(m: Map<int, u64>, page: int, power: int) -> bool {
    forall|k: int|
        0 <= k < shape::blocks_in(power) ==> m[#[trigger] shape::block_at(page, power, k)] == (if k
            + 1 < shape::blocks_in(power) {
            shape::block_at(page, power, k + 1)
        } else {
            0
        })
}

/// The first word of a block of a frame is in memory.
pub proof fn lemma_block_in_memory(m: Map<int, u64>, page: int, power: int, k: int)
    requires
        shape::is_power(power),
        phys::has_frame(m, page),
        0 <= k < shape::blocks_in(power),
    ensures
        m.contains_key(shape::block_at(page, power, k)),
        0 < shape::block_at(page, power, k) <= u64::MAX,
{
    let b = shape::block_at(page, power, k);
    shape::lemma_block_at(page, power, k);
    shape::lemma_block_fits(power, b);
    let j = (b % 4096) / 8;
    assert(b == page + 8 * j);
    assert(m.dom().contains(page + 8 * j));
}

/// Different numbers stand for different blocks.
proof fn lemma_blocks_differ(page: int, power: int, j: int, k: int)
    requires
        j != k,
    ensures
        shape::block_at(page, power, j) != shape::block_at(page, power, k),
{
    let size = shape::block_size(power);
    assert(j * size != k * size) by (nonlinear_arith)
        requires
            j != k,
            size > 0,
    ;
}

/// The blocks of a fresh page but the first are a list.
proof fn lemma_fresh_linked(m: Map<int, u64>, page: int, power: int)
    requires
        shape::is_power(power),
        phys::has_frame(m, page),
        chained(m, page, power),
    ensures
        list::linked(m, fresh_list(page, power)),
        m[shape::block_at(page, power, 0)] == list::head_of(fresh_list(page, power)),
{
    let l = fresh_list(page, power);
    assert(shape::blocks_in(power) >= 1) by {
        shape::lemma_blocks_in(power);
    }
    assert(m[shape::block_at(page, power, 0)] == list::head_of(l));
    assert forall|i: int| 0 <= i < l.len() implies #[trigger] list::node(m, l, i) by {
        lemma_block_in_memory(m, page, power, i + 1);
        assert(m[shape::block_at(page, power, i + 1)] == list::next_of(l, i));
    }
    assert forall|i: int, j: int|
        0 <= i < l.len() && 0 <= j < l.len() && i != j implies l[i] != l[j] by {
        lemma_blocks_differ(page, power, i + 1, j + 1);
    }
}

/// The blocks of a fresh page but the first, by their addresses.
pub proof fn lemma_fresh_blocks(page: int, power: int, b: int)
    requires
        shape::is_power(power),
        page % 4096 == 0,
    ensures
        fresh_list(page, power).contains(b) <==> shape::is_block(power, b) && shape::page_of(b)
            == page && b != shape::block_at(page, power, 0),
{
    let l = fresh_list(page, power);
    let size = shape::block_size(power);
    shape::lemma_blocks_in(power);
    if l.contains(b) {
        let i = choose|i: int| 0 <= i < l.len() && l[i] == b;
        shape::lemma_block_at(page, power, i + 1);
        assert((i + 1) * size > 0) by (nonlinear_arith)
            requires
                i >= 0,
                size > 0,
        ;
    }
    if shape::is_block(power, b) && shape::page_of(b) == page && b != shape::block_at(
        page,
        power,
        0,
    ) {
        let k = shape::lemma_block_number(power, b);
        assert(k != 0);
        assert(l[k - 1] == b);
    }
}

/// Cutting a fresh page: its first block is in use.
pub proof fn lemma_filled(
    s: Pools,
    m: Map<int, u64>,
    free: Set<int>,
    power: int,
    page: int,
    m2: Map<int, u64>,
)
    requires
        pools_ok(s, m, free),
        shape::is_power(power),
        s.lists[power].len() == 0,
        free.contains(page),
        phys::has_frame(m, page),
        phys::same_outside(m, m2, set![page]),
        chained(m2, page, power),
        power < MAX_POWER ==> m2[page] == 1,
    ensures
        ({
            let b = shape::block_at(page, power, 0);
            let s2 = filled(s, power, page);
            &&& pools_ok(s2, m2, free.remove(page))
            &&& m2[b] == list::head_of(s2.lists[power])
            &&& !live(s).contains_key(b)
            &&& live(s2) == live(s).insert(b, shape::block_size(power))
            &&& contents_kept(s, m, m2, b)
        }),
{
    let b = shape::block_at(page, power, 0);
    let s2 = filled(s, power, page);
    let free2 = free.remove(page);
    let l = fresh_list(page, power);
    shape::lemma_blocks_in(power);
    shape::lemma_block_at(page, power, 0);
    lemma_fresh_linked(m2, page, power);
    assert forall|c: int|
        #![trigger l.contains(c)]
        l.contains(c) == (shape::is_block(power, c) && shape::page_of(c) == page && c != b) by {
        lemma_fresh_blocks(page, power, c);
    }
    assert(!s.pages.contains_key(page)) by {
        if s.pages.contains_key(page) {
            assert(page_ok(s, m, free, page));
        }
    }
    assert forall|a: int| shape::page_of(a) != page && a % 8 == 0 implies #[trigger] m2[a]
        == m[a] by {
        let f = shape::page_of(a);
        let i = (a % 4096) / 8;
        assert(a == f + 8 * i);
        assert(m2[f + 8 * i] == m[f + 8 * i]);
    }
    assert forall|q: int| shape::is_power(q) implies #[trigger] list_ok(s2, m2, q) by {
        assert(list_ok(s, m, q));
        if q != power {
            assert forall|a: int| #[trigger] s.lists[q].contains(a) implies m2[a] == m[a]
                && on_page(s2.pages, q, a) by {
                lemma_listed(s, m, free, q, a);
                shape::lemma_block_fits(q, a);
            }
            lemma_list_stays(s, s2, m, m2, q);
        }
    }
    if power == MAX_POWER {
        assert(l =~= Seq::<int>::empty());
    }
    assert(s2.lists[MAX_POWER as int] =~= Seq::<int>::empty());
    assert forall|f: int| #[trigger] s2.pages.contains_key(f) implies page_ok(s2, m2, free2, f) by {
        if f == page {
            assert(live_on(l, power, page) =~= set![b]);
        } else {
            assert(page_ok(s, m, free, f));
            let q = s.pages[f];
            assert(live_on(s2.lists[q], q, f) =~= live_on(s.lists[q], q, f)) by {
                if q == power {
                    assert forall|c: int| shape::page_of(c) == f implies !l.contains(c) by {}
                    assert forall|c: int| !s.lists[q].contains(c) by {}
                }
            }
            assert(m2[f] == m[f]);
        }
    }
    assert(live(s2) =~= live(s).insert(b, shape::block_size(power))) by {
        assert forall|c: int| in_use(s2, c) == (in_use(s, c) || c == b) by {
            let q = s.pages[shape::page_of(c)];
            if shape::page_of(c) != page && s.pages.contains_key(shape::page_of(c)) && q == power {
                assert(!l.contains(c));
                assert(!s.lists[q].contains(c));
            }
        }
    }
    assert forall|c: int| #[trigger] live(s).contains_key(c) && c != b implies same_words(
        m,
        m2,
        c,
        live(s)[c],
    ) by {
        assert forall|i: int| 0 <= i < live(s)[c] / 8 implies #[trigger] m2[c + 8 * i] == m[c + 8
            * i] by {
            lemma_word(s, m, free, c, i);
        }
    }
}

/// The list with a block put in front.
pub open spec fn in_front(b: int, l: Seq<int>) -> Seq<int> {
    seq![b] + l
}

/// The elements of a list with a block put in front.
pub proof fn lemma_in_front(b: int, l: Seq<int>, a: int)
    ensures
        in_front(b, l).contains(a) <==> a == b || l.contains(a),
{
    let n = in_front(b, l);
    if a == b {
        assert(n[0] == a);
    }
    if l.contains(a) {
        let i = choose|i: int| 0 <= i < l.len() && l[i] == a;
        assert(n[i + 1] == a);
    }
    if n.contains(a) && a != b {
        let i = choose|i: int| 0 <= i < n.len() && n[i] == a;
        assert(l[i - 1] == a);
    }
}

/// A block in use is in memory, and its page counts it.
pub proof fn lemma_in_use(s: Pools, m: Map<int, u64>, free: Set<int>, power: int, b: int)
    requires
        pools_ok(s, m, free),
        in_use(s, b),
        power == s.pages[shape::page_of(b)],
    ensures
        shape::is_power(power),
        phys::has_frame(m, shape::page_of(b)),
        !free.contains(shape::page_of(b)),
        m.contains_key(b),
        m.contains_key(shape::page_of(b)),
        0 < b < phys::PHYS_LIMIT,
        !s.lists[power].contains(b),
        0 <= list::head_of(s.lists[power]) <= u64::MAX,
        power < MAX_POWER ==> m[shape::page_of(b)] > 0 && b % 4096 >= 8,
        power == MAX_POWER ==> b == shape::page_of(b),
        list::linked(
            m.insert(b, list::head_of(s.lists[power]) as u64),
            in_front(b, s.lists[power]),
        ),
{
    let page = shape::page_of(b);
    assert(page_ok(s, m, free, page));
    shape::lemma_block_fits(power, b);
    shape::lemma_blocks_in(power);
    let j = (b % 4096) / 8;
    assert(b == page + 8 * j);
    assert(m.dom().contains(page + 8 * j));
    assert(m.dom().contains(page + 8 * 0));
    assert(list_ok(s, m, power));
    if s.lists[power].len() > 0 {
        assert(list::node(m, s.lists[power], 0));
    }
    list::lemma_linked_push(m, s.lists[power], b);
}

/// The state after a block was put back.
pub open spec fn pushed(s: Pools, power: int, b: int) -> Pools {
    Pools { lists: s.lists.update(power, in_front(b, s.lists[power])), pages: s.pages }
}

/// Putting a block back on a page with other blocks in use.
pub proof fn lemma_pushed(s: Pools, m: Map<int, u64>, free: Set<int>, power: int, b: int)
    requires
        pools_ok(s, m, free),
        in_use(s, b),
        power == s.pages[shape::page_of(b)],
        power < MAX_POWER,
        m[shape::page_of(b)] > 1,
    ensures
        ({
            let page = shape::page_of(b);
            let m2 = m.insert(b, list::head_of(s.lists[power]) as u64).insert(
                page,
                (m[page] - 1) as u64,
            );
            let s2 = pushed(s, power, b);
            &&& pools_ok(s2, m2, free)
            &&& live(s2) == live(s).remove(b)
            &&& contents_kept(s, m, m2, b)
        }),
{
    let page = shape::page_of(b);
    let l = s.lists[power];
    let l1 = in_front(b, l);
    let m1 = m.insert(b, list::head_of(l) as u64);
    let m2 = m1.insert(page, (m[page] - 1) as u64);
    let s2 = pushed(s, power, b);
    lemma_in_use(s, m, free, power, b);
    assert(page_ok(s, m, free, page));
    lemma_live_finite(l, power, page);
    assert(m1.dom() =~= m.dom());
    assert(m2.dom() =~= m.dom());
    assert forall|a: int| #![trigger l1.contains(a)] l1.contains(a) == (a == b || l.contains(a)) by {
        lemma_in_front(b, l, a);
    }
    assert forall|q: int| shape::is_power(q) implies #[trigger] list_ok(s2, m2, q) by {
        assert(list_ok(s, m, q));
        if q == power {
            assert forall|a: int| #[trigger] l1.contains(a) implies m2[a] == m1[a] by {
                if a != b {
                    lemma_listed(s, m, free, q, a);
                }
            }
            list::lemma_linked_same(m1, m2, l1);
        } else {
            assert forall|a: int| #[trigger] s.lists[q].contains(a) implies m2[a] == m[a] by {
                lemma_listed(s, m, free, q, a);
            }
            lemma_list_stays(s, s2, m, m2, q);
        }
    }
    assert forall|f: int| #[trigger] s2.pages.contains_key(f) implies page_ok(s2, m2, free, f) by {
        assert(page_ok(s, m, free, f));
        let q = s.pages[f];
        if f == page {
            assert(live_on(l1, power, page) =~= live_on(l, power, page).remove(b));
        } else {
            assert(live_on(s2.lists[q], q, f) =~= live_on(s.lists[q], q, f));
        }
    }
    assert(live(s2) =~= live(s).remove(b));
    lemma_contents(s, m, free, m2, b);
}

/// What the list of the power keeps when the page of the block goes.
pub open spec fn remaining(s: Pools, power: int, b: int) -> Seq<int> {
    let l = in_front(b, s.lists[power]);
    list::kept(l, shape::page_of(b), l.len() as int)
}

/// The state after the last block in use of a page was put back and the page was returned.
pub open spec fn returned(s: Pools, power: int, b: int) -> Pools {
    Pools {
        lists: s.lists.update(power, remaining(s, power, b)),
        pages: s.pages.remove(shape::page_of(b)),
    }
}

/// The block is the only one of its page in use.
pub proof fn lemma_last_in_use(
    s: Pools,
    m: Map<int, u64>,
    free: Set<int>,
    power: int,
    b: int,
    c: int,
)
    requires
        pools_ok(s, m, free),
        in_use(s, b),
        in_use(s, c),
        power == s.pages[shape::page_of(b)],
        power < MAX_POWER ==> m[shape::page_of(b)] == 1,
        shape::page_of(c) == shape::page_of(b),
    ensures
        c == b,
{
    let page = shape::page_of(b);
    assert(page_ok(s, m, free, page));
    shape::lemma_block_fits(power, b);
    shape::lemma_block_fits(power, c);
    if power < MAX_POWER && c != b {
        let on = live_on(s.lists[power], power, page);
        lemma_live_finite(s.lists[power], power, page);
        assert(on.contains(b) && on.contains(c));
        assert(on.remove(b).contains(c));
        assert(on.remove(b).len() == 0);
    }
}

/// Putting back the last block in use of a page, whose blocks then leave the list.
pub proof fn lemma_returned(
    s: Pools,
    m: Map<int, u64>,
    free: Set<int>,
    power: int,
    b: int,
    m1: Map<int, u64>,
    m2: Map<int, u64>,
    free2: Set<int>,
)
    requires
        pools_ok(s, m, free),
        in_use(s, b),
        power == s.pages[shape::page_of(b)],
        power < MAX_POWER ==> m[shape::page_of(b)] == 1,
        m2.dom() == m.dom(),
        m1 == (if power < MAX_POWER {
            m.insert(b, list::head_of(s.lists[power]) as u64).insert(shape::page_of(b), 0)
        } else {
            m.insert(b, list::head_of(s.lists[power]) as u64)
        }),
        list::linked(m2, remaining(s, power, b)),
        forall|a: int|
            !in_front(b, s.lists[power]).contains(a) || shape::page_of(a) == shape::page_of(b)
                ==> #[trigger] m2[a] == m1[a],
        free2.subset_of(free.insert(shape::page_of(b))),
    ensures
        pools_ok(returned(s, power, b), m2, free2),
        live(returned(s, power, b)) == live(s).remove(b),
        contents_kept(s, m, m2, b),
{
    let page = shape::page_of(b);
    let l = s.lists[power];
    let l1 = in_front(b, l);
    let k = remaining(s, power, b);
    let s2 = returned(s, power, b);
    lemma_in_use(s, m, free, power, b);
    assert(page_ok(s, m, free, page));
    assert forall|a: int| #![trigger l1.contains(a)] l1.contains(a) == (a == b || l.contains(a)) by {
        lemma_in_front(b, l, a);
    }
    list::lemma_kept(l1, page, l1.len() as int);
    assert forall|a: int| #![trigger k.contains(a)] k.contains(a) == (shape::page_of(a) != page
        && l.contains(a)) by {
        if list::among(l1, l1.len() as int, a) {
            let j = choose|j: int| 0 <= j < l1.len() && #[trigger] l1[j] == a;
            assert(l1.contains(a));
        }
        if l.contains(a) {
            assert(l1.contains(a));
            let j = choose|j: int| 0 <= j < l1.len() && l1[j] == a;
            assert(list::among(l1, l1.len() as int, a));
        }
    }
    assert forall|q: int| shape::is_power(q) implies #[trigger] list_ok(s2, m2, q) by {
        assert(list_ok(s, m, q));
        if q != power {
            assert forall|a: int| #[trigger] s.lists[q].contains(a) implies m2[a] == m[a]
                && on_page(s2.pages, q, a) by {
                lemma_listed(s, m, free, q, a);
                if l.contains(a) {
                    lemma_listed(s, m, free, power, a);
                }
            }
            lemma_list_stays(s, s2, m, m2, q);
        } else {
            assert forall|a: int| #[trigger] k.contains(a) implies on_page(s2.pages, q, a) by {
                lemma_listed(s, m, free, q, a);
            }
        }
    }
    if power == MAX_POWER {
        assert(k =~= Seq::<int>::empty()) by {
            if k.len() > 0 {
                assert(k.contains(k[0]));
            }
        }
    }
    assert(s2.lists[MAX_POWER as int] =~= Seq::<int>::empty());
    assert forall|f: int| #[trigger] s2.pages.contains_key(f) implies page_ok(s2, m2, free2, f) by {
        assert(page_ok(s, m, free, f));
        let q = s.pages[f];
        assert(m2[f] == m[f]) by {
            if l.contains(f) {
                lemma_listed(s, m, free, power, f);
            }
        }
        assert(live_on(s2.lists[q], q, f) =~= live_on(s.lists[q], q, f));
    }
    assert(live(s2) =~= live(s).remove(b)) by {
        assert forall|c: int| in_use(s2, c) == (in_use(s, c) && c != b) by {
            if in_use(s, c) && shape::page_of(c) == page {
                lemma_last_in_use(s, m, free, power, b, c);
            }
        }
    }
    assert forall|a: int| #[trigger] m2[a] == m[a] || a == b || (s.pages.contains_key(a)
        && s.pages[a] < MAX_POWER) || free_block(s, a) || !s.pages.contains_key(
        shape::page_of(a),
    ) by {
        if l.contains(a) {
            lemma_listed(s, m, free, power, a);
        }
    }
    lemma_contents(s, m, free, m2, b);
}

} // verus!
