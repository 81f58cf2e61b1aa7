//! The kernel address space.
use vstd::prelude::*;
use crate::memory::addr;
use crate::memory::addr::{PhysAddr, VirtAddr, KERNEL_BASE};
use crate::memory::entry::PteFlags;
use crate::memory::graft;
use crate::memory::moved;
use crate::memory::phys;
use crate::memory::phys::{PhysMem, PAGE_SIZE};
use crate::memory::region::Region;
use crate::memory::space::AddressSpace;
use crate::memory::sv39;
use crate::memory::table;
use crate::memory::table::MapError;
use crate::memory::ways;
use crate::mmu::frames::PageFrameAllocator;
use crate::mmu::pte;

verus! {

/// Flags of the kernel mappings: valid, readable, writable, executable, global, accessed, dirty.
pub const KERNEL_FLAGS: u64 = 239;

/// The pages of the kernel space: memory mapped onto itself, and once more in the kernel half.
pub open spec fn kernel_pages(m: Map<int, u64>, root: int, dram_base: u64, dram_size: u64) -> bool {
    let low = addr::page_number(dram_base);
    let high = addr::page_number((KERNEL_BASE + dram_base) as u64);
    let ppn = dram_base as int / 4096;
    let pages = moved::pages_in(dram_size);
    forall|w: int|
        #![trigger sv39::page(m, root, w)]
        sv39::is_page(w) ==> sv39::page(m, root, w) == (if table::pages_between(low, w) < pages {
            pte::pte_bits((ppn + table::pages_between(low, w)) as u64, KERNEL_FLAGS)
        } else if table::pages_between(high, w) < pages {
            pte::pte_bits((ppn + table::pages_between(high, w)) as u64, KERNEL_FLAGS)
        } else {
            0
        })
}

/// The two runs of pages are half the address range apart.
pub proof fn lemma_halves(dram_base: u64)
    requires
        dram_base < 0x40_0000_0000,
    ensures
        KERNEL_BASE + dram_base <= u64::MAX,
        sv39::is_page(addr::page_number(dram_base)),
        sv39::is_page(addr::page_number((KERNEL_BASE + dram_base) as u64)),
        addr::page_number((KERNEL_BASE + dram_base) as u64) == addr::page_number(dram_base)
            + 0x400_0000,
{
    let x = dram_base as int / 4096;
    let high = KERNEL_BASE + dram_base;
    assert(0 <= x < 0x400_0000);
    assert(addr::page_number(dram_base) == x);
    assert(high / 4096 == 0xF_FFFF_FC00_0000 + x);
    assert(0xF_FFFF_FC00_0000 == 0x1FF_FFFF * 0x800_0000 + 0x400_0000);
    assert((0x1FF_FFFF * 0x800_0000 + (0x400_0000 + x)) % 0x800_0000 == 0x400_0000 + x) by {
        vstd::arithmetic::div_mod::lemma_mod_multiples_vanish(
            0x1FF_FFFF,
            0x400_0000 + x,
            0x800_0000,
        );
        vstd::arithmetic::div_mod::lemma_small_mod((0x400_0000 + x) as nat, 0x800_0000);
    }
}

/// Memory mapped onto itself, and nothing else.
spec fn low_pages(m: Map<int, u64>, root: int, dram_base: u64, dram_size: u64) -> bool {
    let low = addr::page_number(dram_base);
    let ppn = dram_base as int / 4096;
    forall|w: int|
        #![trigger sv39::page(m, root, w)]
        sv39::is_page(w) ==> sv39::page(m, root, w) == (if table::pages_between(low, w)
            < moved::pages_in(dram_size) {
            pte::pte_bits((ppn + table::pages_between(low, w)) as u64, KERNEL_FLAGS)
        } else {
            0
        })
}

/// In an empty space nothing is in the way of the first mapping.
proof fn lemma_low_half(
    m: Map<int, u64>,
    m2: Map<int, u64>,
    free2: Set<int>,
    root: int,
    dram_base: u64,
    dram_size: u64,
    r: Result<(), MapError>,
)
    requires
        dram_size <= 0x4000_0000,
        dram_base < 0x40_0000_0000,
        forall|v: int| sv39::is_page(v) ==> #[trigger] sv39::page(m, root, v) == 0,
        moved::map_outcome(
            m,
            m2,
            free2,
            root,
            dram_base,
            dram_base,
            dram_size,
            KERNEL_FLAGS,
            r,
        ),
    ensures
        r != Err::<(), MapError>(MapError::AlreadyMapped),
        r is Ok ==> low_pages(m2, root, dram_base, dram_size),
{
    let low = addr::page_number(dram_base);
    lemma_halves(dram_base);
    assert forall|k: int| 0 <= k implies !pte::pte_valid(
        #[trigger] sv39::page(m, root, table::page_after(low, k)),
    ) by {
        table::lemma_page_after(low, k);
    }
}

/// The second mapping meets no page of the first.
proof fn lemma_high_half(
    m: Map<int, u64>,
    m2: Map<int, u64>,
    free2: Set<int>,
    root: int,
    dram_base: u64,
    dram_size: u64,
    r: Result<(), MapError>,
)
    requires
        dram_size <= 0x4000_0000,
        dram_base < 0x40_0000_0000,
        low_pages(m, root, dram_base, dram_size),
        moved::map_outcome(
            m,
            m2,
            free2,
            root,
            (KERNEL_BASE + dram_base) as u64,
            dram_base,
            dram_size,
            KERNEL_FLAGS,
            r,
        ),
    ensures
        r != Err::<(), MapError>(MapError::AlreadyMapped),
        r is Ok ==> kernel_pages(m2, root, dram_base, dram_size),
{
    let low = addr::page_number(dram_base);
    let high = addr::page_number((KERNEL_BASE + dram_base) as u64);
    let pages = moved::pages_in(dram_size);
    lemma_halves(dram_base);
    assert forall|k: int| 0 <= k < pages implies !pte::pte_valid(
        #[trigger] sv39::page(m, root, table::page_after(high, k)),
    ) by {
        let w = table::page_after(high, k);
        table::lemma_page_after(high, k);
        assert(table::pages_between(low, w) == 0x400_0000 + k);
        assert(sv39::page(m, root, w) == 0);
    }
    if r is Ok {
        let ppn = dram_base as int / 4096;
        assert forall|w: int|
            #![trigger sv39::page(m2, root, w)]
            sv39::is_page(w) implies sv39::page(m2, root, w) == (if table::pages_between(low, w)
            < pages {
            pte::pte_bits((ppn + table::pages_between(low, w)) as u64, KERNEL_FLAGS)
        } else if table::pages_between(high, w) < pages {
            pte::pte_bits((ppn + table::pages_between(high, w)) as u64, KERNEL_FLAGS)
        } else {
            0
        }) by {
            let p = sv39::page(m, root, w);
            if table::pages_between(low, w) < pages {
                assert(table::pages_between(high, w) == table::pages_between(low, w) + 0x400_0000);
            }
        }
    }
}

/// Number of tables of the kernel space: the root table and, in each half, those on the way to the
/// pages of memory.
pub open spec fn tables_needed(dram_base: u64, dram_size: u64) -> int {
    1 + 2 * ways::tables_for(addr::page_number(dram_base), moved::pages_in(dram_size))
}

/// In an empty space every table on the way to a run of pages is missing.
proof fn lemma_low_tables(m: Map<int, u64>, root: int, dram_base: u64, dram_size: u64)
    requires
        dram_base + dram_size <= 0x40_0000_0000,
        dram_base < 0x40_0000_0000,
        dram_base % 4096 == 0,
        forall|a: int| sv39::idx(a) ==> #[trigger] sv39::entry(m, root, a) == 0,
    ensures
        ways::lacking(
            m,
            root,
            ways::ways(addr::page_number(dram_base), moved::pages_in(dram_size)),
        ).len() == ways::tables_for(addr::page_number(dram_base), moved::pages_in(dram_size)),
{
    let low = addr::page_number(dram_base);
    let n = moved::pages_in(dram_size);
    let s = ways::ways(low, n);
    lemma_halves(dram_base);
    assert(low == dram_base as int / 4096);
    ways::lemma_tables_for(low, n);
    ways::lemma_ways(low, n);
    assert forall|p: (int, int)| #[trigger] s.contains(p) implies !ways::present(m, root, p) by {
        assert(sv39::entry(m, root, p.0) == 0);
    }
    assert(ways::lacking(m, root, s) =~= s);
}

/// The tables of the lower half are none of the upper half.
proof fn lemma_high_tables(
    m: Map<int, u64>,
    m1: Map<int, u64>,
    root: int,
    dram_base: u64,
    dram_size: u64,
)
    requires
        dram_base + dram_size <= 0x40_0000_0000,
        dram_base < 0x40_0000_0000,
        dram_base % 4096 == 0,
        forall|a: int| sv39::idx(a) ==> #[trigger] sv39::entry(m, root, a) == 0,
        ways::grew(
            m,
            m1,
            root,
            ways::ways(addr::page_number(dram_base), moved::pages_in(dram_size)),
        ),
    ensures
        ways::lacking(
            m1,
            root,
            ways::ways(
                addr::page_number((KERNEL_BASE + dram_base) as u64),
                moved::pages_in(dram_size),
            ),
        ).len() == ways::tables_for(addr::page_number(dram_base), moved::pages_in(dram_size)),
{
    let low = addr::page_number(dram_base);
    let high = addr::page_number((KERNEL_BASE + dram_base) as u64);
    let n = moved::pages_in(dram_size);
    let s = ways::ways(high, n);
    lemma_halves(dram_base);
    assert(low == dram_base as int / 4096);
    assert(low + n <= 0x400_0000);
    ways::lemma_tables_for(high, n);
    ways::lemma_ways(high, n);
    assert forall|p: (int, int)| #[trigger] s.contains(p) implies !ways::present(m1, root, p) by {
        assert(sv39::entry(m, root, p.0) == 0);
        let j = choose|j: int|
            0 <= j < n && #[trigger] ways::way(table::page_after(high, j)).contains(p);
        assert(table::page_after(high, j) == high + j);
        assert(p.0 >= 256);
        if ways::ways(low, n).contains(p) {
            let i = choose|i: int|
                0 <= i < n && #[trigger] ways::way(table::page_after(low, i)).contains(p);
            assert(table::page_after(low, i) == low + i);
            assert(p.0 < 256);
        }
        assert(ways::present(m1, root, p) == (ways::present(m, root, p) || ways::ways(
            low,
            n,
        ).contains(p)));
    }
    assert(ways::lacking(m1, root, s) =~= s);
    assert((high + n - 1) / 0x4_0000 == (low + n - 1) / 0x4_0000 + 256);
    assert((high + n - 1) / 512 == (low + n - 1) / 512 + 0x2_0000);
    assert(high / 0x4_0000 == low / 0x4_0000 + 256);
    assert(high / 512 == low / 512 + 0x2_0000);
}

/// Builds the kernel space: memory mapped onto itself and into the kernel half.
///
/// On an error every frame that was taken is given back.
pub fn init<A: PageFrameAllocator>(
    mem: &mut PhysMem,
    frames: &mut A,
    dram_base: u64,
    dram_size: u64,
) -> (r: Result<AddressSpace, MapError>)
    requires
        old(mem).wf(),
        old(frames).ready(old(mem)@.dom()),
        dram_size <= 0x4000_0000,
        dram_base < 0x40_0000_0000,
        dram_base + dram_size <= 0x40_0000_0000,
    ensures
        final(mem).wf(),
        final(mem).start() == old(mem).start(),
        final(mem).end() == old(mem).end(),
        final(mem)@.dom() == old(mem)@.dom(),
        final(frames).ready(final(mem)@.dom()),
        final(frames).recycles() == old(frames).recycles(),
        ({
            let free = old(frames).free();
            let free2 = final(frames).free();
            let aligned = dram_base % 4096 == 0 && dram_size % 4096 == 0;
            match r {
                Ok(space) => {
                    &&& aligned
                    &&& space.wf(final(mem)@, free2)
                    &&& space.shared() == Set::<int>::empty()
                    &&& space.regions() == Seq::<Region>::empty()
                    &&& kernel_pages(final(mem)@, space.root(), dram_base, dram_size)
                    &&& free2.subset_of(free)
                    &&& sv39::tables(final(mem)@, space.root()) == free.difference(free2)
                    &&& free.len() == free2.len() + tables_needed(dram_base, dram_size)
                },
                Err(MapError::NotAligned) => !aligned && free.len() > 0 && (old(frames).recycles()
                    ==> free2 == free),
                Err(MapError::OutOfMemory) => free.len() < (if aligned {
                    tables_needed(dram_base, dram_size)
                } else {
                    1
                }) && (old(frames).recycles() ==> free2 == free),
                _ => false,
            }
        }),
{
    let ghost free = frames.free();
    let ghost none = Set::<int>::empty();
    proof {
        frames.lemma_free(mem@);
    }
    let mut space: AddressSpace = match AddressSpace::new(mem, frames) {
        Err(e) => {
            return Err(e);
        },
        Ok(s) => s,
    };
    let ram_flags: PteFlags = PteFlags::from_bits(KERNEL_FLAGS);
    let ghost root = space.root();
    let ghost free0 = frames.free();
    let ghost m0 = mem@;
    let ghost low = addr::page_number(dram_base);
    let ghost high = addr::page_number((KERNEL_BASE + dram_base) as u64);
    let ghost pages = moved::pages_in(dram_size);
    let ghost no_place = Set::<(int, int)>::empty();
    proof {
        lemma_halves(dram_base);
        assert(phys::has_frame(m0, root));
        graft::lemma_empty_tree(m0, root);
        assert(ways::under(m0, root, none.intersect(moved::reached(low, pages))) =~= no_place);
        assert(ways::under(m0, root, none.intersect(moved::reached(high, pages))) =~= no_place);
        if dram_base % 4096 == 0 {
            lemma_low_tables(m0, root, dram_base, dram_size);
        }
    }
    let r1: Result<(), MapError> = space.map(
        mem,
        VirtAddr::from_raw(dram_base),
        PhysAddr::from_raw(dram_base),
        dram_size,
        ram_flags,
        frames,
    );
    let ghost free1 = frames.free();
    let ghost m1 = mem@;
    proof {
        moved::lemma_moved_less(m0, free0, m1, free1, root, none, space.shared());
        assert(space.shared() =~= none);
        assert(sv39::owned(m1, root, none) =~= set![root].union(free0.difference(free1)));
        assert(free1.union(sv39::owned(m1, root, none)) =~= free);
        lemma_low_half(m0, m1, free1, root, dram_base, dram_size, r1);
        assert(ways::under(m1, root, none.intersect(moved::reached(high, pages))) =~= no_place);
        if r1 is Ok {
            lemma_high_tables(m0, m1, root, dram_base, dram_size);
        }
    }
    match r1 {
        Ok(_) => {},
        Err(e) => {
            space.release(mem, frames);
            return Err(e);
        },
    }
    let r2: Result<(), MapError> = space.map(
        mem,
        VirtAddr::from_raw(KERNEL_BASE + dram_base),
        PhysAddr::from_raw(dram_base),
        dram_size,
        ram_flags,
        frames,
    );
    let ghost free2 = frames.free();
    let ghost m2 = mem@;
    proof {
        moved::lemma_moved_less(m1, free1, m2, free2, root, none, space.shared());
        assert(space.shared() =~= none);
        assert(sv39::owned(m2, root, none) =~= set![root].union(free0.difference(free2)));
        assert(free2.union(sv39::owned(m2, root, none)) =~= free);
        assert(free.difference(free2) =~= set![root].union(free0.difference(free2)));
        lemma_high_half(m1, m2, free2, root, dram_base, dram_size, r2);
    }
    match r2 {
        Ok(_) => {},
        Err(e) => {
            space.release(mem, frames);
            return Err(e);
        },
    }
    Ok(space)
}

/// The place of the kernel space, empty until it is built.
pub struct KernelSpace {
    space: Option<AddressSpace>,
}

impl KernelSpace {
    /// What the place holds.
    pub closed spec fn space(&self) -> Option<AddressSpace> {
        self.space
    }

    /// The empty place.
    pub fn new() -> (r: KernelSpace)
        ensures
            r.space() is None,
    {
        KernelSpace { space: None }
    }

    /// Puts the kernel space in its place.
    pub fn replace(&mut self, space: AddressSpace)
        ensures
            final(self).space() == Some(space),
    {
        self.space = Some(space);
    }

    /// Access to the kernel space.
    pub fn kernel_space(&mut self) -> (r: &mut Option<AddressSpace>)
        ensures
            *r == old(self).space(),
            final(self).space() == *final(r),
    {
        &mut self.space
    }
}

/// Flags of device mappings: valid, readable, writable, global, accessed, dirty.
pub const DEVICE_FLAGS: u64 = 231;

/// Maps the registers of a device onto themselves in the kernel space; the size is rounded up to
/// whole pages.
pub fn map_device<A: PageFrameAllocator>(
    kernel: &mut Option<AddressSpace>,
    mem: &mut PhysMem,
    frames: &mut A,
    base: PhysAddr,
    size: u64,
) -> (r: Result<(), MapError>)
    requires
        old(mem).wf(),
        old(frames).ready(old(mem)@.dom()),
        *old(kernel) matches Some(ks) ==> ks.wf(old(mem)@, old(frames).free()),
        4096 * moved::pages_in(size) <= u64::MAX,
        addr::in_word(base.0, moved::pages_in(size)),
    ensures
        final(mem).wf(),
        final(mem).start() == old(mem).start(),
        final(mem).end() == old(mem).end(),
        final(mem)@.dom() == old(mem)@.dom(),
        final(frames).ready(final(mem)@.dom()),
        final(frames).recycles() == old(frames).recycles(),
        match (*old(kernel), *final(kernel)) {
            (None, None) => r == Err::<(), MapError>(MapError::NotMapped) && final(mem)@ == old(
                mem,
            )@ && final(frames).free() == old(frames).free(),
            (Some(ks), Some(ks2)) => {
                &&& ks2.wf(final(mem)@, final(frames).free())
                &&& ks2.root() == ks.root()
                &&& ks2.regions() == ks.regions()
                &&& moved::moved(
                    old(mem)@,
                    old(frames).free(),
                    final(mem)@,
                    final(frames).free(),
                    ks.root(),
                    ks.shared(),
                    ks2.shared(),
                )
                &&& moved::map_outcome(
                    old(mem)@,
                    final(mem)@,
                    final(frames).free(),
                    ks.root(),
                    base.0,
                    base.0,
                    (4096 * moved::pages_in(size)) as u64,
                    DEVICE_FLAGS,
                    r,
                )
            },
            _ => false,
        },
{
    let pages: u64 = if size % PAGE_SIZE == 0 {
        size / PAGE_SIZE
    } else {
        size / PAGE_SIZE + 1
    };
    match kernel {
        None => Err(MapError::NotMapped),
        Some(ks) => ks.map(
            mem,
            VirtAddr::from_raw(base.as_usize()),
            base,
            pages * PAGE_SIZE,
            PteFlags::from_bits(DEVICE_FLAGS),
            frames,
        ),
    }
}

} // verus!
