//! Virtual and physical addresses.
use vstd::prelude::*;

verus! {

/// Number of bytes that 39 address bits reach.
pub const VA_SPAN: u64 = 0x80_0000_0000;

/// First byte of the upper half of the 39-bit range (bit 38 set).
pub const VA_HALF: u64 = 0x40_0000_0000;

/// First canonical address of the kernel half.
pub const KERNEL_BASE: u64 = 0xFFFF_FFC0_0000_0000;

/// A virtual address.
#[derive(Clone, Copy, PartialEq, Eq, Structural, Debug)]
pub struct VirtAddr(pub u64);

/// A physical address.
#[derive(Clone, Copy, PartialEq, Eq, Structural, Debug)]
pub struct PhysAddr(pub u64);

/// The nine-bit table index of `va` at `level` (2 = root table, 0 = leaf table).
pub open spec fn vpn_index(va: u64, level: int) -> int {
    if level == 2 {
        (va as int / 0x4000_0000) % 512
    } else if level == 1 {
        (va as int / 0x20_0000) % 512
    } else {
        (va as int / 0x1000) % 512
    }
}

/// The 27-bit virtual page number of `va`.
pub open spec fn page_number(va: u64) -> int {
    (va as int / 0x1000) % 0x800_0000
}

/// The three table indices of an address are the digits of its page number.
pub proof fn lemma_page_number(va: u64)
    ensures
        0 <= page_number(va) < 0x800_0000,
        vpn_index(va, 2) == page_number(va) / 0x4_0000,
        vpn_index(va, 1) == (page_number(va) / 512) % 512,
        vpn_index(va, 0) == page_number(va) % 512,
{
    let p = va as int / 0x1000;
    assert(va as int / 0x20_0000 == p / 512);
    assert(va as int / 0x4000_0000 == p / 0x4_0000);
}

/// Adding whole pages adds to the page number, modulo the 27 bits.
pub proof fn lemma_page_number_add(va: u64, pages: int)
    requires
        0 <= pages,
        va + pages * 4096 <= u64::MAX,
    ensures
        page_number((va + pages * 4096) as u64) == (page_number(va) + pages) % 0x800_0000,
{
    assert((va + pages * 4096) / 0x1000 == va as int / 0x1000 + pages);
}

/// The addresses that lie 0, 1, ... `pages - 1` pages behind `a` fit a word.
pub open spec fn in_word(a: u64, pages: int) -> bool {
    a + 4096 * (pages - 1) <= u64::MAX
}

/// Number of pages that the `size` bytes from `va` on touch.
pub open spec fn pages_over(va: u64, size: u64) -> int {
    if size == 0 {
        0
    } else {
        (va + size + 4095) / 4096 - va as int / 4096
    }
}

/// Number of pages that the `size` bytes from `va` on touch.
pub fn count_pages(va: u64, size: u64) -> (r: u64)
    requires
        va + size <= 0x1_0000_0000_0000_0000,
    ensures
        r == pages_over(va, size),
{
    if size == 0 {
        0
    } else {
        (va % 4096 + (size - 1)) / 4096 + 1
    }
}

/// The pages that bytes touch lie below the end of the bytes, counted from the start of the first.
pub proof fn lemma_pages_over(va: u64, size: u64, i: int)
    requires
        va + size <= 0x1_0000_0000_0000_0000,
        0 <= i < pages_over(va, size),
    ensures
        page_number((va - va % 4096) as u64) == page_number(va),
        va - va % 4096 + i * 4096 < va + size,
{
}

impl VirtAddr {
    /// Wraps a raw address.
    pub fn from_raw(addr: u64) -> (r: VirtAddr)
        ensures
            r == VirtAddr(addr),
    {
        VirtAddr(addr)
    }

    /// Keeps the low 39 bits of `addr` and sign-extends bit 38.
    pub fn new_truncate(addr: u64) -> (r: VirtAddr)
        ensures
            r.0 as int == if (addr as int) % (VA_SPAN as int) < VA_HALF {
                (addr as int) % (VA_SPAN as int)
            } else {
                (addr as int) % (VA_SPAN as int) + 0x1_0000_0000_0000_0000 - VA_SPAN
            },
    {
        let low: u64 = addr % VA_SPAN;
        if low < VA_HALF {
            VirtAddr(low)
        } else {
            VirtAddr(low + 0xFFFF_FF80_0000_0000)
        }
    }

    /// The raw address.
    pub fn as_usize(&self) -> (r: u64)
        ensures
            r == self.0,
    {
        self.0
    }

    /// The table index at `level`: bits 38:30 for 2, 29:21 for 1, 20:12 for 0.
    pub fn vpn(&self, level: u64) -> (r: u64)
        requires
            level <= 2,
        ensures
            r == vpn_index(self.0, level as int),
            r < 512,
    {
        if level == 2 {
            (self.0 / 0x4000_0000) % 512
        } else if level == 1 {
            (self.0 / 0x20_0000) % 512
        } else {
            (self.0 / 0x1000) % 512
        }
    }

    /// The first address of the page.
    pub fn page_start(&self) -> (r: VirtAddr)
        ensures
            r.0 == self.0 - self.0 % 4096,
            page_number(r.0) == page_number(self.0),
    {
        VirtAddr(self.0 - self.0 % 4096)
    }

    /// The offset inside the page.
    pub fn offset(&self) -> (r: u64)
        ensures
            r == self.0 as int % 4096,
    {
        self.0 % 4096
    }

    /// The address `n` bytes further on.
    pub fn plus(&self, n: u64) -> (r: VirtAddr)
        requires
            self.0 + n <= u64::MAX,
        ensures
            r.0 == self.0 + n,
    {
        VirtAddr(self.0 + n)
    }

    /// Whether the address lies in the user half (all bits from 38 up are clear).
    pub fn is_user(&self) -> (b: bool)
        ensures
            b == (self.0 < VA_HALF),
    {
        self.0 < VA_HALF
    }

    /// Whether the address lies in the kernel half.
    pub fn is_kernel(&self) -> (b: bool)
        ensures
            b == (self.0 >= KERNEL_BASE),
    {
        self.0 >= KERNEL_BASE
    }
}

impl PhysAddr {
    /// Wraps a raw address.
    pub fn from_raw(addr: u64) -> (r: PhysAddr)
        ensures
            r == PhysAddr(addr),
    {
        PhysAddr(addr)
    }

    /// The raw address.
    pub fn as_usize(&self) -> (r: u64)
        ensures
            r == self.0,
    {
        self.0
    }

    /// Whether the address is page aligned.
    pub fn is_aligned(&self) -> (b: bool)
        ensures
            b == (self.0 % 4096 == 0),
    {
        self.0 % 4096 == 0
    }

    /// The address `n` bytes further on.
    pub fn plus(&self, n: u64) -> (r: PhysAddr)
        requires
            self.0 + n <= u64::MAX,
        ensures
            r.0 == self.0 + n,
    {
        PhysAddr(self.0 + n)
    }
}

/// The page number of an address is its bits 12 to 38, and the table indices are nine bits each: the
/// root index is the highest.
pub proof fn law_page_bits(va: u64)
    ensures
        page_number(va) == (va >> 12) & 0x7FF_FFFF,
        vpn_index(va, 2) == (va >> 30) & 0x1FF,
        vpn_index(va, 1) == (va >> 21) & 0x1FF,
        vpn_index(va, 0) == (va >> 12) & 0x1FF,
{
    assert((va >> 12) & 0x7FF_FFFF == (va / 0x1000) % 0x800_0000) by (bit_vector);
    assert((va >> 30) & 0x1FF == (va / 0x4000_0000) % 512) by (bit_vector);
    assert((va >> 21) & 0x1FF == (va / 0x20_0000) % 512) by (bit_vector);
    assert((va >> 12) & 0x1FF == (va / 0x1000) % 512) by (bit_vector);
}

/// Bytes touch the pages from that of the first byte to that of the last one.
pub proof fn law_pages_touched(va: u64, size: u64)
    ensures
        size == 0 ==> pages_over(va, size) == 0,
        size > 0 ==> pages_over(va, size) == (va + size - 1) / 4096 - va as int / 4096 + 1,
{
    if size > 0 {
        let last = va + size - 1;
        assert((last + 4096) / 4096 == last / 4096 + 1);
    }
}

} // verus!
