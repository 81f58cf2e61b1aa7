//! Sizes and places of blocks.
use vstd::prelude::*;

verus! {

/// The smallest blocks have two to this power bytes.
pub const MIN_POWER: usize = 3;

/// The largest blocks have two to this power bytes: a page.
pub const MAX_POWER: usize = 12;

/// Size of the blocks of a power.
pub open spec fn block_size(power: int) -> int {
    if power <= 3 {
        8
    } else if power == 4 {
        16
    } else if power == 5 {
        32
    } else if power == 6 {
        64
    } else if power == 7 {
        128
    } else if power == 8 {
        256
    } else if power == 9 {
        512
    } else if power == 10 {
        1024
    } else if power == 11 {
        2048
    } else {
        4096
    }
}

/// The power is the one of a block size.
pub open spec fn is_power(power: int) -> bool {
    MIN_POWER <= power <= MAX_POWER
}

/// The power whose blocks are used for `size` bytes: the smallest that is large enough, or the
/// largest if none is.
pub open spec fn power_for(size: int) -> int {
    if size <= 8 {
        3
    } else if size <= 16 {
        4
    } else if size <= 32 {
        5
    } else if size <= 64 {
        6
    } else if size <= 128 {
        7
    } else if size <= 256 {
        8
    } else if size <= 512 {
        9
    } else if size <= 1024 {
        10
    } else if size <= 2048 {
        11
    } else {
        12
    }
}

/// A block can be found for `size` bytes at a multiple of `align`: they fit a page, and the alignment
/// is a power of two that is not larger than the smallest block for the bytes.
pub open spec fn servable(size: int, align: int) -> bool {
    &&& size <= 4096
    &&& 0 < align <= block_size(power_for(size))
    &&& 4096int % align == 0
}

/// The power whose blocks are used for `size` bytes at a multiple of `align`. Only pages are aligned
/// to more than eight bytes.
pub open spec fn power_of(size: int, align: int) -> int {
    if align <= 8 {
        power_for(size)
    } else {
        12
    }
}

/// Room for the count at the start of a page.
pub open spec fn header(power: int) -> int {
    if power < MAX_POWER {
        8
    } else {
        0
    }
}

/// Number of blocks in a page.
pub open spec fn blocks_in(power: int) -> int {
    (4096 - header(power)) / block_size(power)
}

/// The page of an address.
pub open spec fn page_of(a: int) -> int {
    a - a % 4096
}

/// The address is that of a block of its page, if the page is cut into blocks of the power.
pub open spec fn is_block(power: int, b: int) -> bool {
    let off = b % 4096 - header(power);
    0 <= off && off % block_size(power) == 0 && off / block_size(power) < blocks_in(power)
}

/// Block `k` of the page.
pub open spec fn block_at(page: int, power: int, k: int) -> int {
    page + header(power) + k * block_size(power)
}

/// A block lies inside its page, behind the count, and is made of words.
pub proof fn lemma_block_fits(power: int, b: int)
    requires
        is_power(power),
        is_block(power, b),
    ensures
        header(power) <= b % 4096,
        b % 4096 + block_size(power) <= 4096,
        b % 8 == 0,
        power == MAX_POWER ==> b % 4096 == 0,
{
    let off = b % 4096 - header(power);
    if power == 3 {
        assert(off / 8 < 511);
    } else if power == 4 {
        assert(off / 16 < 255);
    } else if power == 5 {
        assert(off / 32 < 127);
    } else if power == 6 {
        assert(off / 64 < 63);
    } else if power == 7 {
        assert(off / 128 < 31);
    } else if power == 8 {
        assert(off / 256 < 15);
    } else if power == 9 {
        assert(off / 512 < 7);
    } else if power == 10 {
        assert(off / 1024 < 3);
    } else if power == 11 {
        assert(off / 2048 < 1);
    } else {
        assert(off / 4096 < 1);
    }
}

/// The number of blocks in a page, for every power.
pub proof fn lemma_blocks_in(power: int)
    requires
        is_power(power),
    ensures
        1 <= blocks_in(power) <= 511,
        header(power) + blocks_in(power) * block_size(power) <= 4096,
        block_size(power) % 8 == 0,
        8 <= block_size(power) <= 4096,
{
    if power == 3 {
        assert(blocks_in(power) == 511);
    } else if power == 4 {
        assert(blocks_in(power) == 255);
    } else if power == 5 {
        assert(blocks_in(power) == 127);
    } else if power == 6 {
        assert(blocks_in(power) == 63);
    } else if power == 7 {
        assert(blocks_in(power) == 31);
    } else if power == 8 {
        assert(blocks_in(power) == 15);
    } else if power == 9 {
        assert(blocks_in(power) == 7);
    } else if power == 10 {
        assert(blocks_in(power) == 3);
    } else if power == 11 {
        assert(blocks_in(power) == 1);
    } else {
        assert(blocks_in(power) == 1);
    }
}

/// Block `k` of a page is a block of the page.
pub proof fn lemma_block_at(page: int, power: int, k: int)
    requires
        is_power(power),
        page % 4096 == 0,
        0 <= k < blocks_in(power),
    ensures
        is_block(power, block_at(page, power, k)),
        page_of(block_at(page, power, k)) == page,
{
    let size = block_size(power);
    lemma_blocks_in(power);
    let n = blocks_in(power);
    assert(0 <= k * size && k * size + size <= n * size) by (nonlinear_arith)
        requires
            0 <= k < n,
            size > 0,
    ;
    let b = block_at(page, power, k);
    assert(b % 4096 == header(power) + k * size);
    vstd::arithmetic::div_mod::lemma_mod_multiples_basic(k, size);
    vstd::arithmetic::div_mod::lemma_div_by_multiple(k, size);
}

/// A block has a number in its page.
pub proof fn lemma_block_number(power: int, b: int) -> (k: int)
    requires
        is_power(power),
        is_block(power, b),
    ensures
        0 <= k < blocks_in(power),
        b == block_at(page_of(b), power, k),
{
    let size = block_size(power);
    let off = b % 4096 - header(power);
    lemma_blocks_in(power);
    vstd::arithmetic::div_mod::lemma_fundamental_div_mod(off, size);
    vstd::arithmetic::div_mod::lemma_div_pos_is_pos(off, size);
    let k = off / size;
    assert(k * size == size * k) by (nonlinear_arith);
    k
}

/// Different blocks of a page do not overlap.
pub proof fn lemma_blocks_apart(power: int, b: int, c: int)
    requires
        is_power(power),
        is_block(power, b),
        is_block(power, c),
        page_of(b) == page_of(c),
        b != c,
    ensures
        b + block_size(power) <= c || c + block_size(power) <= b,
{
    let size = block_size(power);
    let j = lemma_block_number(power, b);
    let k = lemma_block_number(power, c);
    lemma_blocks_in(power);
    assert(j != k);
    if j < k {
        assert(j * size + size <= k * size) by (nonlinear_arith)
            requires
                j < k,
                size > 0,
        ;
    } else {
        assert(k * size + size <= j * size) by (nonlinear_arith)
            requires
                k < j,
                size > 0,
        ;
    }
}

/// Size of the blocks of a power.
pub fn block_bytes(power: usize) -> (r: u64)
    requires
        is_power(power as int),
    ensures
        r == block_size(power as int),
{
    let mut r: u64 = 8;
    let mut p: usize = MIN_POWER;
    while p < power
        invariant
            3 <= p <= power <= 12,
            r == block_size(p as int),
        decreases power - p,
    {
        r = r * 2;
        p += 1;
    }
    r
}

/// Multiples of a multiple are multiples.
proof fn lemma_multiple(b: int, n: int, align: int)
    requires
        0 < align,
        0 < n,
        n % align == 0,
        b % n == 0,
    ensures
        b % align == 0,
{
    let q = n / align;
    vstd::arithmetic::div_mod::lemma_fundamental_div_mod(n, align);
    vstd::arithmetic::div_mod::lemma_fundamental_div_mod(b, n);
    let k = b / n;
    assert(b == align * (q * k)) by (nonlinear_arith)
        requires
            b == n * k,
            n == align * q,
    ;
    vstd::arithmetic::div_mod::lemma_mod_multiples_vanish(q * k, 0, align);
    vstd::arithmetic::div_mod::lemma_small_mod(0, align as nat);
}

/// The alignments of up to eight bytes divide eight.
proof fn lemma_small_align(align: int)
    requires
        0 < align <= 8,
        4096int % align == 0,
    ensures
        8int % align == 0,
{
    if align == 3 {
        assert(4096int % 3 == 1);
    } else if align == 5 {
        assert(4096int % 5 == 1);
    } else if align == 6 {
        assert(4096int % 6 == 4);
    } else if align == 7 {
        assert(4096int % 7 == 1);
    } else if align == 1 {
        assert(8int % 1 == 0);
    } else if align == 2 {
        assert(8int % 2 == 0);
    } else if align == 4 {
        assert(8int % 4 == 0);
    } else {
        assert(8int % 8 == 0);
    }
}

/// A block of the power for a request is large enough for it and aligned as it asks.
pub proof fn lemma_block_serves(size: int, align: int, b: int)
    requires
        servable(size, align),
        is_block(power_of(size, align), b),
    ensures
        is_power(power_of(size, align)),
        size <= block_size(power_of(size, align)),
        b % align == 0,
{
    let power = power_of(size, align);
    lemma_block_fits(power, b);
    if align <= 8 {
        lemma_small_align(align);
        lemma_multiple(b, 8, align);
    } else {
        lemma_multiple(b, 4096, align);
    }
}

/// The power whose blocks are used for `size` bytes at a multiple of `align`; `None` if there is none.
pub fn layout_power(size: u64, align: u64) -> (r: Option<usize>)
    ensures
        match r {
            Some(p) => servable(size as int, align as int) && p == power_of(
                size as int,
                align as int,
            ) && is_power(p as int),
            None => !servable(size as int, align as int),
        },
{
    let power: usize = block_power(size);
    if size > 4096 || align == 0 || align > block_bytes(power) || 4096 % align != 0 {
        return None;
    }
    if align <= 8 {
        Some(power)
    } else {
        Some(MAX_POWER)
    }
}

/// The power whose blocks are used for `size` bytes.
pub fn block_power(size: u64) -> (r: usize)
    ensures
        r == power_for(size as int),
        is_power(r as int),
{
    let mut room: u64 = 8;
    let mut power: usize = MIN_POWER;
    while power < MAX_POWER && room < size
        invariant
            3 <= power <= 12,
            room == block_size(power as int),
            power > 3 ==> size > block_size(power - 1),
        decreases 12 - power,
    {
        room = room * 2;
        power += 1;
    }
    power
}

/// The sizes of blocks are the powers of two from eight bytes to a page.
pub proof fn law_block_sizes(power: int)
    requires
        is_power(power),
    ensures
        block_size(3) == 8,
        block_size(12) == 4096,
        power < 12 ==> block_size(power + 1) == 2 * block_size(power),
{
}

/// Bytes get the smallest block that holds them.
pub proof fn law_smallest_block(size: int, power: int)
    requires
        0 <= size <= 4096,
        is_power(power),
    ensures
        is_power(power_for(size)),
        block_size(power_for(size)) >= size,
        block_size(power) >= size ==> power_for(size) <= power,
{
}

/// A page keeps its count in its first eight bytes unless it is one block, and holds as many blocks as
/// fit behind that.
pub proof fn law_blocks_in_page(power: int)
    requires
        is_power(power),
    ensures
        power < 12 ==> block_at(0, power, 0) == 8,
        power == 12 ==> block_at(0, power, 0) == 0 && blocks_in(power) == 1,
        block_at(0, power, blocks_in(power)) <= 4096,
        block_at(0, power, blocks_in(power)) + block_size(power) > 4096,
{
    lemma_blocks_in(power);
    let size = block_size(power);
    let room = 4096 - header(power);
    vstd::arithmetic::div_mod::lemma_fundamental_div_mod(room, size);
    vstd::arithmetic::div_mod::lemma_mod_bound(room, size);
    assert(blocks_in(power) * size == size * (room / size)) by (nonlinear_arith)
        requires
            blocks_in(power) == room / size,
    ;
}

} // verus!
