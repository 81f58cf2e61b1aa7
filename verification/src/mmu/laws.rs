//! What the operations on an address space promise when they follow each other.
use vstd::prelude::*;
use crate::memory::addr;
use crate::memory::addr::VirtAddr;
use crate::memory::change;
use crate::memory::entry;
use crate::memory::laws;
use crate::memory::moved;
use crate::memory::phys;
use crate::memory::sv39;
use crate::memory::table;
use crate::memory::walk;
use crate::memory::ways;
use crate::mmu;
use crate::mmu::fault;
use crate::mmu::kernel;
use crate::mmu::kernel::{DeviceRange, Mapping};
use crate::mmu::pt;
use crate::mmu::pte;
use crate::mmu::space;
use crate::mmu::table::MapError;

verus! {

/// A successful mapping is what translation then finds: every mapped page translates to its frame
/// with the requested flags, every other page translates as before.
pub proof fn law_map_translates(
    m: Map<int, u64>,
    free: Set<int>,
    m2: Map<int, u64>,
    free2: Set<int>,
    root: int,
    va: u64,
    pa: u64,
    size: u64,
    flags: u64,
    w: int,
)
    requires
        mmu::table::region_outcome(m, free, m2, free2, root, va, pa, size, flags, Ok(())),
        (flags as int / 2) % 8 != 0,
        pa + size <= phys::PHYS_LIMIT,
        sv39::is_page(w),
    ensures
        ({
            let i = table::pages_between(addr::page_number(va), w);
            table::translation(m2, root, w) == (if i < moved::pages_in(size) {
                Some((pa + 4096 * i, entry::with_valid(flags) as int % 1024))
            } else {
                table::translation(m, root, w)
            })
        }),
{
    let i = table::pages_between(addr::page_number(va), w);
    let full = entry::with_valid(flags);
    let e = sv39::page(m2, root, w);
    if i < moved::pages_in(size) {
        pte::lemma_pte_bits((pa as int / 4096 + i) as u64, full);
        assert((full as int / 2) % 8 == (flags as int / 2) % 8);
    }
}

/// A page that was mapped without checks is found by a walk, with its frame and its flags: the tables
/// on the way are there. Two free frames are enough for them.
pub proof fn law_mapped_page_found(
    m: Map<int, u64>,
    m2: Map<int, u64>,
    root: int,
    va: u64,
    pa: u64,
    flags: u64,
)
    requires
        pa % 4096 == 0,
        pa < phys::PHYS_LIMIT,
        sv39::page(m2, root, addr::page_number(va)) == pte::pte_bits(
            (pa / 4096) as u64,
            flags | 1,
        ),
    ensures
        ({
            let e = sv39::page(m2, root, addr::page_number(va));
            &&& sv39::path(m2, root, addr::page_number(va))
            &&& pte::pte_valid(e)
            &&& pte::pte_paddr(e) == pa
            &&& pte::pte_flags(e) == (flags | 1) as int % 1024
        }),
        walk::missing(m, root, addr::page_number(va)) <= 2,
{
    pte::lemma_pte_bits((pa / 4096) as u64, flags | 1);
    assert((flags | 1) % 2 == 1) by (bit_vector);
}

/// Unmapping takes a mapping back: every page translates as before the mapping.
pub proof fn law_unmap_undoes_map(
    m: Map<int, u64>,
    free: Set<int>,
    m1: Map<int, u64>,
    free1: Set<int>,
    m2: Map<int, u64>,
    root: int,
    va: u64,
    pa: u64,
    size: u64,
    flags: u64,
    w: int,
)
    requires
        mmu::table::region_outcome(m, free, m1, free1, root, va, pa, size, flags, Ok(())),
        change::pages_changed(
            m1,
            m2,
            root,
            addr::page_number(va),
            addr::pages_over(va, size),
            change::cleared(),
        ),
        sv39::is_page(w),
    ensures
        table::translation(m2, root, w) == table::translation(m, root, w),
{
    let v = addr::page_number(va);
    addr::lemma_page_number(va);
    laws::law_unmap_clears(m1, m2, root, v, addr::pages_over(va, size), w);
    let i = table::pages_between(v, w);
    let e = sv39::page(m1, root, w);
    if i < moved::pages_in(size) {
        assert(table::page_after(v, i) == w);
        assert(!pte::pte_valid(sv39::page(m, root, table::page_after(v, i))));
    }
}

/// Mapping a mapped range again, to any aligned frames, is refused with the first address of the
/// range and changes no page.
pub proof fn law_map_twice_refused(
    m: Map<int, u64>,
    free: Set<int>,
    m1: Map<int, u64>,
    free1: Set<int>,
    m2: Map<int, u64>,
    free2: Set<int>,
    root: int,
    va: u64,
    pa: u64,
    pa2: u64,
    size: u64,
    flags: u64,
    flags2: u64,
    r: Result<(), MapError>,
)
    requires
        0 < size,
        pa2 % 4096 == 0,
        mmu::table::region_outcome(m, free, m1, free1, root, va, pa, size, flags, Ok(())),
        mmu::table::region_outcome(m1, free1, m2, free2, root, va, pa2, size, flags2, r),
    ensures
        r == Err::<(), MapError>(MapError::AlreadyMapped(VirtAddr(va))),
        moved::same_pages(m1, m2, root),
{
    let v = addr::page_number(va);
    addr::lemma_page_number(va);
    table::lemma_page_after(v, 0);
    assert(table::page_after(v, 0) == v);
    let full = entry::with_valid(flags);
    let e = sv39::page(m1, root, v);
    assert(table::pages_between(v, v) == 0);
    pte::lemma_pte_bits((pa as int / 4096) as u64, full);
    assert(pte::pte_valid(sv39::page(m1, root, table::page_after(v, 0))));
    if r is Err {
        let ppn = pa2 as int / 4096;
        let full2 = entry::with_valid(flags2);
        assert forall|k: int| 0 <= k && #[trigger] table::map_stopped(
            m1,
            m2,
            root,
            v,
            k,
            ppn,
            full2,
        ) implies k == 0 && moved::same_pages(m1, m2, root) && sv39::path(m2, root, v) by {
            let e2 = sv39::page(m2, root, v);
        }
    }
}

/// Setting the flags of a range keeps the frame of every page: mapped pages of the range get the
/// flags, pages that were not mapped stay so, and pages outside translate as before.
pub proof fn law_protect_keeps_frames(
    m: Map<int, u64>,
    m2: Map<int, u64>,
    root: int,
    v: int,
    pages: int,
    flags: u64,
    w: int,
)
    requires
        change::pages_changed(
            m,
            m2,
            root,
            v,
            pages,
            space::leaf_reflagged(entry::with_valid(flags)),
        ),
        sv39::is_page(w),
        (flags as int / 2) % 8 != 0,
        pte::pte_ppn(sv39::page(m, root, w)) < 0x1000_0000_0000,
    ensures
        table::translation(m2, root, w) == (if table::pages_between(v, w) < pages {
            match table::translation(m, root, w) {
                Some((pa, _)) => Some((pa, entry::with_valid(flags) as int % 1024)),
                None => None,
            }
        } else {
            table::translation(m, root, w)
        }),
{
    reveal(change::pages_changed);
    let full = entry::with_valid(flags);
    let e = sv39::page(m2, root, w);
    if table::pages_between(v, w) < pages {
        pte::lemma_pte_bits(pte::pte_ppn(sv39::page(m, root, w)) as u64, full);
        assert((full as int / 2) % 8 == (flags as int / 2) % 8);
    }
}

/// What a mapping gives its pages.
proof fn lemma_mapping_made(all: Seq<Mapping>, i: int, j: int)
    requires
        0 <= i < all.len(),
        0 <= j < moved::pages_in(all[i].size),
        j < 0x800_0000,
        all[i].flags < u64::MAX,
    ensures
        ({
            let w = table::page_after(addr::page_number(all[i].va), j);
            let e = kernel::mapped_entry(all.subrange(0, i + 1), w);
            &&& sv39::is_page(w)
            &&& e == pte::pte_bits(
                (all[i].pa as int / 4096 + j) as u64,
                entry::with_valid(all[i].flags),
            )
            &&& pte::pte_valid(e)
        }),
{
    let v = addr::page_number(all[i].va);
    addr::lemma_page_number(all[i].va);
    table::lemma_page_after(v, j);
    assert(all.subrange(0, i + 1).last() == all[i]);
    pte::lemma_pte_bits((all[i].pa as int / 4096 + j) as u64, entry::with_valid(all[i].flags));
}

/// A further mapping leaves the pages alone that are mapped already.
proof fn lemma_mapping_stays(all: Seq<Mapping>, free: int, n: int, w: int)
    requires
        0 <= n < all.len(),
        sv39::is_page(w),
        kernel::run_reaches(all.subrange(0, n), all[n], free, moved::pages_in(all[n].size)),
        pte::pte_valid(kernel::mapped_entry(all.subrange(0, n), w)),
    ensures
        kernel::mapped_entry(all.subrange(0, n + 1), w) == kernel::mapped_entry(
            all.subrange(0, n),
            w,
        ),
{
    let v = addr::page_number(all[n].va);
    let d = table::pages_between(v, w);
    addr::lemma_page_number(all[n].va);
    assert(table::page_after(v, d) == w);
    assert(all.subrange(0, n + 1).last() == all[n]);
    assert(all.subrange(0, n + 1).drop_last() =~= all.subrange(0, n));
    if d < moved::pages_in(all[n].size) {
        assert(!pte::pte_valid(
            kernel::mapped_entry(all.subrange(0, n), table::page_after(v, d)),
        ));
    }
}

/// What mappings that were made one after the other give the pages of one of them: none after it
/// maps them again.
proof fn lemma_mapping_kept(all: Seq<Mapping>, free: int, n: int, i: int, j: int)
    requires
        0 <= i < n <= all.len(),
        kernel::all_reach(all, free, n),
        0 <= j < moved::pages_in(all[i].size),
        all[i].flags < u64::MAX,
    ensures
        ({
            let w = table::page_after(addr::page_number(all[i].va), j);
            let e = kernel::mapped_entry(all.subrange(0, n), w);
            &&& sv39::is_page(w)
            &&& e == pte::pte_bits(
                (all[i].pa as int / 4096 + j) as u64,
                entry::with_valid(all[i].flags),
            )
            &&& pte::pte_valid(e)
        }),
    decreases n,
{
    let w = table::page_after(addr::page_number(all[i].va), j);
    assert(moved::pages_in(all[i].size) <= 0x800_0000) by {
        assert(kernel::run_reaches(
            all.subrange(0, i),
            all[i],
            free,
            moved::pages_in(all[i].size),
        ));
    }
    if i == n - 1 {
        lemma_mapping_made(all, i, j);
    } else {
        assert(kernel::all_reach(all, free, n - 1));
        lemma_mapping_kept(all, free, n - 1, i, j);
        assert(kernel::run_reaches(
            all.subrange(0, n - 1),
            all[n - 1],
            free,
            moved::pages_in(all[n - 1].size),
        ));
        lemma_mapping_stays(all, free, n - 1, w);
    }
}

/// Sign extension keeps the page number.
proof fn lemma_canonical_page(a: u64)
    ensures
        0 <= fault::sign_extended(a) <= u64::MAX,
        addr::page_number(fault::sign_extended(a) as u64) == (a as int / 4096) % 0x800_0000,
        addr::page_number(fault::sign_extended(a) as u64) == addr::page_number(a),
        fault::sign_extended(a) % 4096 == a as int % 4096,
{
    let b = (a as int) % 0x80_0000_0000;
    assert(a as int / 4096 == (a as int / 0x80_0000_0000) * 0x800_0000 + b / 4096);
    assert(b / 4096 < 0x800_0000);
    assert((a as int / 4096) % 0x800_0000 == b / 4096);
    let c = b + 0x1_0000_0000_0000_0000 - 0x80_0000_0000;
    assert(c / 4096 == b / 4096 + 0x10_0000_0000_0000 - 0x800_0000);
    assert((c / 4096) % 0x800_0000 == b / 4096);
}

/// What translation finds for the pages of a mapping: its frames, one behind the other, with its flags.
proof fn lemma_mapping_found(
    m: Map<int, u64>,
    root: int,
    all: Seq<Mapping>,
    free: int,
    i: int,
    k: int,
)
    requires
        forall|w: int|
            sv39::is_page(w) ==> #[trigger] sv39::page(m, root, w) == kernel::mapped_entry(all, w),
        kernel::all_reach(all, free, all.len() as int),
        0 <= i < all.len(),
        0 <= k < moved::pages_in(all[i].size),
        all[i].pa + 4096 * k < phys::PHYS_LIMIT,
        all[i].flags < u64::MAX,
        all[i].flags % 2 == 1,
        (all[i].flags as int / 2) % 8 != 0,
    ensures
        table::translation(m, root, table::page_after(addr::page_number(all[i].va), k)) == Some(
            (all[i].pa + 4096 * k, all[i].flags as int % 1024),
        ),
{
    let n = all.len() as int;
    let w = table::page_after(addr::page_number(all[i].va), k);
    assert(all.subrange(0, n) =~= all);
    lemma_mapping_kept(all, free, n, i, k);
    lemma_mapping_aligned(all, free, n, i);
    assert(sv39::page(m, root, w) == pte::pte_bits(
        (all[i].pa as int / 4096 + k) as u64,
        all[i].flags,
    ));
    lemma_frame_found(sv39::page(m, root, w), all[i].pa, k, all[i].flags);
}

/// Mappings that were made are at pages.
proof fn lemma_mapping_aligned(all: Seq<Mapping>, free: int, n: int, i: int)
    requires
        kernel::all_reach(all, free, n),
        0 <= i < n,
        0 < moved::pages_in(all[i].size),
    ensures
        all[i].va % 4096 == 0,
        all[i].pa % 4096 == 0,
{
    assert(kernel::run_reaches(
        all.subrange(0, i),
        all[i],
        free,
        moved::pages_in(all[i].size),
    ));
}

/// What an entry for a frame says.
proof fn lemma_frame_found(e: u64, pa: u64, k: int, flags: u64)
    requires
        0 <= k,
        pa % 4096 == 0,
        pa + 4096 * k < phys::PHYS_LIMIT,
        flags % 2 == 1,
        (flags as int / 2) % 8 != 0,
        e == pte::pte_bits((pa as int / 4096 + k) as u64, flags),
    ensures
        pte::pte_valid(e),
        pte::pte_leaf(e),
        pte::pte_paddr(e) == pa + 4096 * k,
        pte::pte_flags(e) == flags as int % 1024,
{
    let ppn = pa as int / 4096 + k;
    assert(ppn * 4096 == pa + 4096 * k);
    assert(0 <= ppn < 0x1000_0000_0000);
    pte::lemma_pte_bits(ppn as u64, flags);
}

/// In the kernel space every page of memory is found at its own address and at that address in the
/// kernel half: both translate to the page itself, which can be read, written and executed.
pub proof fn law_kernel_space_maps_memory(
    m: Map<int, u64>,
    root: int,
    free: int,
    dram_base: u64,
    dram_size: u64,
    devices: Seq<DeviceRange>,
    k: int,
)
    requires
        forall|w: int|
            sv39::is_page(w) ==> #[trigger] sv39::page(m, root, w) == kernel::mapped_entry(
                kernel::kernel_mappings(dram_base, dram_size, devices),
                w,
            ),
        kernel::all_reach(
            kernel::kernel_mappings(dram_base, dram_size, devices),
            free,
            kernel::kernel_mappings(dram_base, dram_size, devices).len() as int,
        ),
        0xFFFF_FFC0_0000_0000 + dram_base <= u64::MAX,
        dram_base + dram_size <= phys::PHYS_LIMIT,
        0 <= k,
        4096 * k < dram_size,
    ensures
        table::translation(m, root, ((dram_base + 4096 * k) / 4096) % 0x800_0000) == Some(
            (dram_base + 4096 * k, 207int),
        ),
        table::translation(
            m,
            root,
            ((0xFFFF_FFC0_0000_0000 + dram_base + 4096 * k) / 4096) % 0x800_0000,
        ) == Some((dram_base + 4096 * k, 207int)),
{
    let all = kernel::kernel_mappings(dram_base, dram_size, devices);
    let n = all.len() as int;
    let high = (0xFFFF_FFC0_0000_0000 + dram_base) as u64;
    assert(n == devices.len() + 2);
    assert(all[0] == kernel::ram_mapping(dram_base, dram_base, dram_size));
    assert(all[n - 1] == kernel::ram_mapping(high, dram_base, dram_size));
    lemma_canonical_page(dram_base);
    lemma_canonical_page(high);
    lemma_mapping_found(m, root, all, free, 0, k);
    lemma_mapping_found(m, root, all, free, n - 1, k);
    lemma_pages_on(dram_base as int, k);
    lemma_pages_on(high as int, k);
}

/// Page numbers of addresses some pages further on.
proof fn lemma_pages_on(a: int, k: int)
    requires
        0 <= a,
        0 <= k,
    ensures
        ((a + 4096 * k) / 4096) % 0x800_0000 == table::page_after((a / 4096) % 0x800_0000, k),
{
    assert((a + 4096 * k) / 4096 == a / 4096 + k);
}

/// In the kernel space every page of a device's registers is found at its own address; it can be read
/// and written, not executed. A device of unknown size has one page.
pub proof fn law_kernel_space_maps_devices(
    m: Map<int, u64>,
    root: int,
    free: int,
    dram_base: u64,
    dram_size: u64,
    devices: Seq<DeviceRange>,
    i: int,
    k: int,
)
    requires
        forall|w: int|
            sv39::is_page(w) ==> #[trigger] sv39::page(m, root, w) == kernel::mapped_entry(
                kernel::kernel_mappings(dram_base, dram_size, devices),
                w,
            ),
        kernel::all_reach(
            kernel::kernel_mappings(dram_base, dram_size, devices),
            free,
            kernel::kernel_mappings(dram_base, dram_size, devices).len() as int,
        ),
        0 <= i < devices.len(),
        devices[i].base + devices[i].size + 4096 <= phys::PHYS_LIMIT,
        0 <= k,
        k == 0 || 4096 * k < devices[i].size,
    ensures
        table::translation(m, root, ((devices[i].base + 4096 * k) / 4096) % 0x800_0000) == Some(
            (devices[i].base + 4096 * k, 199int),
        ),
{
    let all = kernel::kernel_mappings(dram_base, dram_size, devices);
    let n = all.len() as int;
    let d = devices[i];
    assert(n == devices.len() + 2);
    assert(all[i + 1] == kernel::device_mapping(d));
    lemma_canonical_page(d.base);
    lemma_mapping_found(m, root, all, free, i + 1, k);
    lemma_pages_on(d.base as int, k);
}

/// Page `w` is one of those that hold the `size` bytes from the page at `base` on.
pub open spec fn holds(base: int, size: int, w: int) -> bool {
    4096 * ((w - base / 4096) % 0x800_0000) < size
}

/// A page holds none of the bytes exactly if it comes behind their pages.
proof fn lemma_holds(base: u64, size: u64, w: int)
    requires
        !holds(base as int, size as int, w),
    ensures
        table::pages_between(addr::page_number(fault::sign_extended(base) as u64), w)
            >= moved::pages_in(size),
{
    lemma_canonical_page(base);
    let b = base as int / 4096;
    assert((w - b % 0x800_0000) % 0x800_0000 == (w - b) % 0x800_0000);
}

/// The kernel space maps nothing else: a page that is no page of memory, none of memory in the kernel
/// half and none of a device is not found.
pub proof fn law_kernel_space_maps_no_more(
    m: Map<int, u64>,
    root: int,
    dram_base: u64,
    dram_size: u64,
    devices: Seq<DeviceRange>,
    w: int,
)
    requires
        forall|w: int|
            sv39::is_page(w) ==> #[trigger] sv39::page(m, root, w) == kernel::mapped_entry(
                kernel::kernel_mappings(dram_base, dram_size, devices),
                w,
            ),
        0xFFFF_FFC0_0000_0000 + dram_base <= u64::MAX,
        sv39::is_page(w),
        !holds(dram_base as int, dram_size as int, w),
        !holds(0xFFFF_FFC0_0000_0000 + dram_base, dram_size as int, w),
        forall|i: int|
            0 <= i < devices.len() ==> !holds(
                (#[trigger] devices[i]).base as int,
                if devices[i].size > 0 {
                    devices[i].size as int
                } else {
                    1
                },
                w,
            ),
    ensures
        table::translation(m, root, w) is None,
{
    let all = kernel::kernel_mappings(dram_base, dram_size, devices);
    let n = all.len() as int;
    let high = (0xFFFF_FFC0_0000_0000 + dram_base) as u64;
    assert forall|i: int| 0 <= i < n implies table::pages_between(
        addr::page_number((#[trigger] all[i]).va),
        w,
    ) >= moved::pages_in(all[i].size) by {
        if i == 0 {
            assert(all[i] == kernel::ram_mapping(dram_base, dram_base, dram_size));
            lemma_holds(dram_base, dram_size, w);
        } else if i == n - 1 {
            assert(all[i] == kernel::ram_mapping(high, dram_base, dram_size));
            lemma_holds(high, dram_size, w);
        } else {
            let d = devices[i - 1];
            assert(all[i] == kernel::device_mapping(d));
            if d.size > 0 {
                lemma_holds(d.base, d.size, w);
            } else {
                lemma_holds(d.base, 1, w);
            }
        }
    }
    kernel::lemma_not_mapped(all, w);
}

/// Pages that were mapped over others translate to their frames, one behind the other, with the flags;
/// every other page translates as before.
pub proof fn law_mapped_over_translates(
    m: Map<int, u64>,
    m2: Map<int, u64>,
    root: int,
    v: int,
    k: int,
    ppn: int,
    flags: u64,
    i: int,
    w: int,
)
    requires
        pt::mapped_over(m, m2, root, v, k, ppn, flags),
        sv39::is_page(v),
        0 <= k <= 0x800_0000,
        0 <= ppn,
        ppn + k < 0x1000_0000_0000,
        flags % 2 == 1,
        (flags as int / 2) % 8 != 0,
        0 <= i < k,
        sv39::is_page(w),
        4096 * table::pages_between(v, w) >= 4096 * k,
    ensures
        table::translation(m2, root, (v + i) % 0x800_0000) == Some(
            (4096 * (ppn + i), flags as int % 1024),
        ),
        table::translation(m2, root, w) == table::translation(m, root, w),
{
    table::lemma_page_after(v, i);
    let e = sv39::page(m2, root, table::page_after(v, i));
    assert(pt::last_turn(i, k) == i);
    assert(e == pte::pte_bits((ppn + i) as u64, flags));
    pte::lemma_pte_bits((ppn + i) as u64, flags);
    assert(sv39::page(m2, root, w) == sv39::page(m, root, w));
}

/// Mapping one page maps that page alone: it must be at a page and free, and is otherwise refused
/// without a change.
pub proof fn law_page_mapped(
    m: Map<int, u64>,
    free: Set<int>,
    m2: Map<int, u64>,
    free2: Set<int>,
    root: int,
    va: u64,
    pa: u64,
    flags: u64,
    r: Result<(), MapError>,
    w: int,
)
    requires
        mmu::table::page_outcome(m, free, m2, free2, root, va, pa, flags, r),
        sv39::is_page(w),
        (flags as int / 2) % 8 != 0,
        flags < u64::MAX,
        pa < phys::PHYS_LIMIT,
    ensures
        va % 4096 != 0 || pa % 4096 != 0 ==> r == Err::<(), MapError>(MapError::NotAligned),
        va % 4096 == 0 && pa % 4096 == 0 && table::translation(m, root, addr::page_number(va))
            is Some ==> r == Err::<(), MapError>(MapError::AlreadyMapped(VirtAddr(va))),
        r is Ok ==> table::translation(m2, root, addr::page_number(va)) == Some(
            (pa as int, (flags | 1) as int % 1024),
        ),
        r is Err || w != addr::page_number(va) ==> table::translation(m2, root, w)
            == table::translation(m, root, w),
        r == Err::<(), MapError>(MapError::NotAligned) || r == Err::<(), MapError>(
            MapError::AlreadyMapped(VirtAddr(va)),
        ) ==> m2 == m && free2 == free,
{
    let v = addr::page_number(va);
    let full = entry::with_valid(flags);
    addr::lemma_page_number(va);
    entry::law_valid_added(flags);
    pte::lemma_pte_bits((pa / 4096) as u64, full);
    assert((full as int / 2) % 8 == (flags as int / 2) % 8);
    let e = sv39::page(m2, root, w);
    let f = sv39::page(m2, root, v);
}

/// Unmapping one page takes away that page alone.
pub proof fn law_page_unmapped(m: Map<int, u64>, m2: Map<int, u64>, root: int, v: int, w: int)
    requires
        table::page_written(m, m2, root, v, 0),
        sv39::is_page(v),
        sv39::is_page(w),
    ensures
        table::translation(m2, root, v) is None,
        w != v ==> table::translation(m2, root, w) == table::translation(m, root, w),
{
    let e = sv39::page(m2, root, w);
    let f = sv39::page(m2, root, v);
}

/// A page needs at most two tables on the way to it, that of its gibibyte and that of its two
/// mebibytes: pages with both in common share them.
pub proof fn law_tables_on_the_way(v: int, w: int)
    requires
        sv39::is_page(v),
        sv39::is_page(w),
    ensures
        ways::way(v) == ways::way(w) <==> v / 512 == w / 512,
        ways::way(v).contains((v / 0x4_0000, -1int)),
        ways::way(v).contains((v / 0x4_0000, (v / 512) % 512)),
        ways::way(v).len() == 2,
{
    let a = (v / 0x4_0000, -1int);
    let b = (v / 0x4_0000, (v / 512) % 512);
    assert(v / 0x4_0000 == v / 512 / 512);
    assert(w / 0x4_0000 == w / 512 / 512);
    assert(ways::way(v) =~= Set::<(int, int)>::empty().insert(a).insert(b));
    if ways::way(v) == ways::way(w) {
        assert(ways::way(w).contains(b));
    }
}

} // verus!
