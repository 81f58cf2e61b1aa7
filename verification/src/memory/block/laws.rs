//! What holds of the block allocator as a whole.
use vstd::prelude::*;
use crate::memory::block::allocator;
use crate::memory::block::list;
use crate::memory::block::pool;
use crate::memory::block::pool::Pools;
use crate::memory::block::shape;
use crate::memory::phys;

verus! {

/// Blocks in use do not overlap.
pub proof fn law_blocks_disjoint(s: Pools, m: Map<int, u64>, free: Set<int>, b: int, c: int)
    requires
        pool::pools_ok(s, m, free),
        pool::live(s).contains_key(b),
        pool::live(s).contains_key(c),
        b != c,
    ensures
        b + pool::live(s)[b] <= c || c + pool::live(s)[c] <= b,
{
    let p = s.pages[shape::page_of(b)];
    let q = s.pages[shape::page_of(c)];
    assert(pool::page_ok(s, m, free, shape::page_of(b)));
    assert(pool::page_ok(s, m, free, shape::page_of(c)));
    shape::lemma_block_fits(p, b);
    shape::lemma_block_fits(q, c);
    if shape::page_of(b) == shape::page_of(c) {
        shape::lemma_blocks_apart(p, b, c);
    }
}

/// A block in use lies in memory, aligned to words, and outside the free frames.
pub proof fn law_block_in_memory(s: Pools, m: Map<int, u64>, free: Set<int>, b: int, i: int)
    requires
        pool::pools_ok(s, m, free),
        pool::live(s).contains_key(b),
        0 <= i < pool::live(s)[b] / 8,
    ensures
        b % 8 == 0,
        m.contains_key(b + 8 * i),
        !free.contains(shape::page_of(b + 8 * i)),
{
    pool::lemma_word(s, m, free, b, i);
    pool::lemma_in_use(s, m, free, s.pages[shape::page_of(b)], b);
    shape::lemma_block_fits(s.pages[shape::page_of(b)], b);
}

/// Every block that serves a request is large enough for it and aligned as it asks; no smaller block
/// would be, if words suffice as alignment.
pub proof fn law_block_serves(size: int, align: int, b: int)
    requires
        0 <= size,
        shape::servable(size, align),
        shape::is_block(shape::power_of(size, align), b),
    ensures
        size <= shape::block_size(shape::power_of(size, align)),
        b % align == 0,
        align <= 8 && shape::power_of(size, align) > 3 ==> shape::block_size(
            shape::power_of(size, align) - 1,
        ) < size,
{
    shape::lemma_block_serves(size, align, b);
}

/// Every request of at most a page whose alignment is a word or less can be served.
pub proof fn law_words_servable(size: int, align: int)
    requires
        0 <= size <= 4096,
        align == 1 || align == 2 || align == 4 || align == 8,
    ensures
        shape::servable(size, align),
{
}

/// Freeing the block that was taken from a list puts the allocator back as it was.
pub proof fn law_free_undoes_take(s: Pools, power: int)
    requires
        shape::is_power(power),
        power < s.lists.len(),
        s.lists[power].len() > 0,
    ensures
        pool::pushed(pool::taken(s, power), power, s.lists[power][0]) == s,
{
    let b = s.lists[power][0];
    assert(pool::in_front(b, s.lists[power].drop_first()) =~= s.lists[power]);
    assert(pool::pushed(pool::taken(s, power), power, b).lists =~= s.lists);
}

/// Of a list on one page nothing is kept without the page.
proof fn lemma_none_kept(l: Seq<int>, page: int, n: int)
    requires
        0 <= n <= l.len(),
        forall|i: int| 0 <= i < n ==> shape::page_of(#[trigger] l[i]) == page,
    ensures
        list::kept(l, page, n) == Seq::<int>::empty(),
    decreases n,
{
    if n > 0 {
        lemma_none_kept(l, page, n - 1);
    }
}

/// The block for which a page was cut is alone on it; freeing it puts the allocator back as it was.
pub proof fn law_free_undoes_fill(
    s: Pools,
    m: Map<int, u64>,
    free: Set<int>,
    power: int,
    page: int,
)
    requires
        pool::pools_ok(s, m, free),
        shape::is_power(power),
        s.lists[power].len() == 0,
        free.contains(page),
        phys::has_frame(m, page),
    ensures
        allocator::alone(
            pool::filled(s, power, page),
            shape::block_at(page, power, 0),
        ),
        pool::returned(
            pool::filled(s, power, page),
            power,
            shape::block_at(page, power, 0),
        ) == s,
{
    let b = shape::block_at(page, power, 0);
    let s2 = pool::filled(s, power, page);
    let l = pool::fresh_list(page, power);
    let l1 = pool::in_front(b, l);
    shape::lemma_blocks_in(power);
    shape::lemma_block_at(page, power, 0);
    assert(!s.pages.contains_key(page)) by {
        if s.pages.contains_key(page) {
            assert(pool::page_ok(s, m, free, page));
        }
    }
    assert forall|c: int| #[trigger]
        pool::live(s2).contains_key(c) && shape::page_of(c) == page implies c == b by {
        pool::lemma_fresh_blocks(page, power, c);
    }
    assert forall|i: int| 0 <= i < l1.len() implies shape::page_of(#[trigger] l1[i]) == page by {
        if i > 0 {
            shape::lemma_block_at(page, power, i);
        }
    }
    lemma_none_kept(l1, page, l1.len() as int);
    assert(pool::returned(s2, power, b).pages =~= s.pages);
    assert(s.lists[power] =~= Seq::<int>::empty());
    assert(pool::returned(s2, power, b).lists =~= s.lists);
}

/// Requests can be served up to a page, with an alignment that is a power of two and not larger than
/// the block for the size; others cannot.
pub proof fn law_servable(size: int, align: int)
    requires
        0 <= size,
    ensures
        size > 4096 ==> !shape::servable(size, align),
        align <= 0 ==> !shape::servable(size, align),
        align > 4096 ==> !shape::servable(size, align),
        size <= 4096 && 0 < align <= size && (align == 16 || align == 32 || align == 64 || align
            == 128 || align == 256 || align == 512 || align == 1024 || align == 2048 || align
            == 4096) ==> shape::servable(size, align),
{
    assert(4096int % 16 == 0 && 4096int % 32 == 0 && 4096int % 64 == 0 && 4096int % 128 == 0);
    assert(4096int % 256 == 0 && 4096int % 512 == 0 && 4096int % 1024 == 0 && 4096int % 2048 == 0);
}

} // verus!
