//! The kernel space of the first memory-management unit driver.
use vstd::prelude::*;
use crate::memory::addr;
use crate::memory::addr::{PhysAddr, VirtAddr, KERNEL_BASE};
use crate::memory::entry;
use crate::memory::entry::PteFlags;
use crate::memory::graft;
use crate::memory::moved;
use crate::memory::phys;
use crate::memory::phys::PhysMem;
use crate::memory::space;
use crate::memory::sv39;
use crate::memory::table;
use crate::memory::walk;
use crate::memory::ways;
use crate::mmu::fault;
use crate::mmu::frames::PageFrameAllocator;
use crate::mmu::pte;
use crate::mmu::space::AddressSpace;
use crate::mmu::table::MapError;

verus! {

/// Flags of memory mappings: valid, readable, writable, executable, accessed, dirty.
pub const RAM_FLAGS: u64 = 207;

/// Flags of device mappings: valid, readable, writable, accessed, dirty.
pub const DEV_FLAGS: u64 = 199;

/// The registers of a device.
#[derive(Clone, Copy, PartialEq, Eq, Structural)]
pub struct DeviceRange {
    pub base: u64,
    /// Size in bytes; zero if unknown.
    pub size: u64,
}

/// A run of pages to map.
pub struct Mapping {
    pub va: u64,
    pub pa: u64,
    pub size: u64,
    pub flags: u64,
}

/// The entry that the mappings give page `w`: that of the last mapping that covers it, zero if
/// none does.
pub open spec fn mapped_entry(list: Seq<Mapping>, w: int) -> u64
    decreases list.len(),
{
    if list.len() == 0 {
        0
    } else {
        let r = list.last();
        let d = table::pages_between(addr::page_number(r.va), w);
        if d < moved::pages_in(r.size) {
            pte::pte_bits((r.pa as int / 4096 + d) as u64, entry::with_valid(r.flags))
        } else {
            mapped_entry(list.drop_last(), w)
        }
    }
}

/// The mappings of the kernel space: memory onto itself, the devices onto themselves, and memory
/// into the kernel half.
pub open spec fn kernel_mappings(
    dram_base: u64,
    dram_size: u64,
    devices: Seq<DeviceRange>,
) -> Seq<Mapping> {
    seq![ram_mapping(dram_base, dram_base, dram_size)] + devices.map_values(
        |d: DeviceRange| device_mapping(d),
    ) + seq![ram_mapping((KERNEL_BASE + dram_base) as u64, dram_base, dram_size)]
}

/// Memory at `pa`, mapped at the canonical form of `va`.
pub open spec fn ram_mapping(va: u64, pa: u64, size: u64) -> Mapping {
    Mapping { va: fault::sign_extended(va) as u64, pa, size, flags: RAM_FLAGS }
}

/// A device mapped onto itself; a device of unknown size takes one page.
pub open spec fn device_mapping(d: DeviceRange) -> Mapping {
    Mapping {
        va: fault::sign_extended(d.base) as u64,
        pa: d.base,
        size: if d.size > 0 {
            d.size
        } else {
            0x1000
        },
        flags: DEV_FLAGS,
    }
}

/// The addresses of the pages of the mapping fit a word.
pub open spec fn fits(r: Mapping) -> bool {
    r.va % 4096 == 0 && r.pa % 4096 == 0 ==> addr::in_word(r.va, moved::pages_in(r.size))
        && addr::in_word(r.pa, moved::pages_in(r.size))
}

/// The places of the tables on the way to the pages of the mappings.
pub open spec fn places(list: Seq<Mapping>) -> Set<(int, int)>
    decreases list.len(),
{
    if list.len() == 0 {
        Set::empty()
    } else {
        places(list.drop_last()).union(
            ways::ways(addr::page_number(list.last().va), moved::pages_in(list.last().size)),
        )
    }
}

/// Number of tables of a space with the mappings `done` and the first `k` pages of `run`.
pub open spec fn tables_with(done: Seq<Mapping>, run: Mapping, k: int) -> int {
    1 + places(done).union(ways::ways(addr::page_number(run.va), k)).len() as int
}

/// After the mappings `done` the first `k` pages of `run` can be mapped too: the addresses are
/// aligned, none of the pages is mapped already, and `free` frames suffice for the tables.
pub open spec fn run_reaches(done: Seq<Mapping>, run: Mapping, free: int, k: int) -> bool {
    let v = addr::page_number(run.va);
    &&& k <= 0x800_0000
    &&& k > 0 ==> run.va % 4096 == 0 && run.pa % 4096 == 0
    &&& forall|j: int|
        0 <= j < k ==> !pte::pte_valid(#[trigger] mapped_entry(done, table::page_after(v, j)))
    &&& tables_with(done, run, k) <= free
}

/// Why mapping `run` after the mappings `done` fails: it is not aligned, a page of it is mapped
/// already, or `free` frames do not suffice for the tables on the way to a page of it.
pub open spec fn run_fails(done: Seq<Mapping>, run: Mapping, free: int, e: MapError) -> bool {
    let v = addr::page_number(run.va);
    let pages = moved::pages_in(run.size);
    let aligned = run.va % 4096 == 0 && run.pa % 4096 == 0;
    match e {
        MapError::NotAligned => pages > 0 && !aligned,
        MapError::AlreadyMapped(x) => aligned && exists|k: int|
            0 <= k < pages && x.0 == run.va + 4096 * k && #[trigger] run_reaches(
                done,
                run,
                free,
                k,
            ) && (k == 0x800_0000 || pte::pte_valid(
                mapped_entry(done, table::page_after(v, k)),
            )),
        MapError::OutOfMemory => aligned && exists|k: int|
            0 <= k < pages && k < 0x800_0000 && #[trigger] run_reaches(done, run, free, k)
                && !pte::pte_valid(mapped_entry(done, table::page_after(v, k))) && free
                < tables_with(done, run, k + 1),
    }
}

/// The first `n` mappings can be made one after the other with `free` frames.
pub open spec fn all_reach(all: Seq<Mapping>, free: int, n: int) -> bool {
    &&& 1 <= free
    &&& forall|i: int|
        0 <= i < n ==> run_reaches(
            #[trigger] all.subrange(0, i),
            all[i],
            free,
            moved::pages_in(all[i].size),
        )
}

/// The tree has a table at each of the places and at no other.
spec fn tabled(m: Map<int, u64>, root: int, s: Set<(int, int)>) -> bool {
    forall|p: (int, int)|
        #![trigger ways::present(m, root, p)]
        ways::is_place(p) ==> ways::present(m, root, p) == s.contains(p)
}

/// The places of mappings are places, finitely many.
proof fn lemma_places(list: Seq<Mapping>)
    ensures
        places(list).finite(),
        forall|p: (int, int)| #[trigger] places(list).contains(p) ==> ways::is_place(p),
    decreases list.len(),
{
    if list.len() > 0 {
        let r = list.last();
        lemma_places(list.drop_last());
        addr::lemma_page_number(r.va);
        ways::lemma_ways(addr::page_number(r.va), moved::pages_in(r.size));
    }
}

/// The tables that `k` pages of a run lack are those that they add.
proof fn lemma_tables_with(m: Map<int, u64>, root: int, done: Seq<Mapping>, run: Mapping, k: int)
    requires
        tabled(m, root, places(done)),
        0 <= k,
    ensures
        tables_with(done, run, k) == 1 + places(done).len() + ways::lacking(
            m,
            root,
            ways::ways(addr::page_number(run.va), k),
        ).len(),
{
    let v = addr::page_number(run.va);
    let s = places(done);
    let t = ways::ways(v, k);
    let l = ways::lacking(m, root, t);
    addr::lemma_page_number(run.va);
    lemma_places(done);
    ways::lemma_ways(v, k);
    vstd::set_lib::lemma_len_subset(l, t);
    assert forall|p: (int, int)| #[trigger] t.contains(p) implies l.contains(p) == !s.contains(p) by {
        assert(ways::present(m, root, p) == s.contains(p));
    }
    assert(s.union(t) =~= s.union(l));
    assert(s.disjoint(l));
    vstd::set_lib::lemma_set_disjoint_lens(s, l);
}

/// One mapping more.
proof fn lemma_one_more(all: Seq<Mapping>, free: int, n: int)
    requires
        0 <= n < all.len(),
        1 <= free,
        all_reach(all, free, n),
        run_reaches(all.subrange(0, n), all[n], free, moved::pages_in(all[n].size)),
    ensures
        all_reach(all, free, n + 1),
{
}

/// Maps `size` bytes at `pa` to the canonical form of `va`.
fn map_run<A: PageFrameAllocator>(
    ks: &AddressSpace,
    mem: &mut PhysMem,
    frames: &mut A,
    va: u64,
    pa: u64,
    size: u64,
    flags: u64,
    Ghost(list): Ghost<Seq<Mapping>>,
) -> (r: Result<(), MapError>)
    requires
        old(mem).wf(),
        sv39::tree(old(mem)@, ks.root()),
        old(frames).ready(old(mem)@.dom()),
        walk::disjoint_from(old(mem)@, ks.root(), old(frames).free()),
        forall|w: int|
            sv39::is_page(w) ==> #[trigger] sv39::page(old(mem)@, ks.root(), w) == mapped_entry(
                list,
                w,
            ),
        tabled(old(mem)@, ks.root(), places(list)),
        fits((Mapping { va: fault::sign_extended(va) as u64, pa, size, flags })),
    ensures
        final(mem).wf(),
        final(mem).start() == old(mem).start(),
        final(mem).end() == old(mem).end(),
        final(mem)@.dom() == old(mem)@.dom(),
        final(frames).ready(final(mem)@.dom()),
        final(frames).recycles() == old(frames).recycles(),
        final(frames).free().subset_of(old(frames).free()),
        sv39::tree(final(mem)@, ks.root()),
        walk::disjoint_from(final(mem)@, ks.root(), final(frames).free()),
        ({
            let run = Mapping { va: fault::sign_extended(va) as u64, pa, size, flags };
            let free = (old(frames).free().len() + 1 + places(list).len()) as int;
            match r {
                Ok(_) => {
                    &&& forall|w: int|
                        sv39::is_page(w) ==> #[trigger] sv39::page(final(mem)@, ks.root(), w)
                            == mapped_entry(list.push(run), w)
                    &&& tabled(final(mem)@, ks.root(), places(list.push(run)))
                    &&& free == final(frames).free().len() + 1 + places(list.push(run)).len()
                    &&& run_reaches(list, run, free, moved::pages_in(size))
                },
                Err(e) => {
                    &&& run_fails(list, run, free, e)
                    &&& e == MapError::OutOfMemory ==> final(frames).free() == Set::<int>::empty()
                },
            }
        }),
{
    let ghost run = Mapping { va: fault::sign_extended(va) as u64, pa, size, flags };
    let ghost m = mem@;
    let ghost free = frames.free();
    let r: Result<(), MapError> = ks.map(
        mem,
        VirtAddr::new_truncate(va),
        PhysAddr::from_raw(pa),
        size,
        PteFlags::from_bits(flags),
        frames,
    );
    proof {
        let m2 = mem@;
        let root = ks.root();
        let v = addr::page_number(run.va);
        let ppn = pa as int / 4096;
        let full = entry::with_valid(flags);
        let pages = moved::pages_in(size);
        let all = (free.len() + 1 + places(list).len()) as int;
        addr::lemma_page_number(run.va);
        assert forall|k: int|
            0 <= k <= 0x800_0000 && #[trigger] table::map_stopped(m, m2, root, v, k, ppn, full) && (k
                > 0 ==> run.va % 4096 == 0 && run.pa % 4096 == 0) && ways::lacking(
                m,
                root,
                ways::ways(v, k),
            ).len() <= free.len() implies run_reaches(list, run, all, k) by {
            lemma_tables_with(m, root, list, run, k);
            assert forall|j: int| 0 <= j < k implies !pte::pte_valid(
                #[trigger] mapped_entry(list, table::page_after(v, j)),
            ) by {
                table::lemma_page_after(v, j);
                assert(!pte::pte_valid(sv39::page(m, root, table::page_after(v, j))));
            }
        }
        match r {
            Ok(_) => {
                assert(list.push(run).last() == run);
                assert(list.push(run).drop_last() =~= list);
                lemma_tables_with(m, root, list, run, pages);
                assert forall|p: (int, int)|
                    #![trigger ways::present(m2, root, p)]
                    ways::is_place(p) implies ways::present(m2, root, p) == places(
                    list.push(run),
                ).contains(p) by {
                    assert(ways::present(m, root, p) == places(list).contains(p));
                }
            },
            Err(MapError::AlreadyMapped(x)) => {
                let k = choose|k: int|
                    0 <= k < pages && k <= 0x800_0000 && x.0 == run.va + 4096 * k
                        && #[trigger] table::map_stopped(
                        m,
                        m2,
                        root,
                        v,
                        k,
                        ppn,
                        full,
                    ) && ways::built(m, free, m2, frames.free(), root, v, k) && (k == 0x800_0000
                        || pte::pte_valid(sv39::page(m, root, table::page_after(v, k))));
                table::lemma_page_after(v, k);
                assert(sv39::page(m, root, table::page_after(v, k)) == mapped_entry(
                    list,
                    table::page_after(v, k),
                ));
                assert(run_reaches(list, run, all, k));
            },
            Err(MapError::OutOfMemory) => {
                let k = choose|k: int|
                    0 <= k < pages && k < 0x800_0000 && #[trigger] table::map_stopped(
                        m,
                        m2,
                        root,
                        v,
                        k,
                        ppn,
                        full,
                    ) && !pte::pte_valid(sv39::page(m, root, table::page_after(v, k)))
                        && ways::short(m, free, root, v, k) && !sv39::path(
                        m2,
                        root,
                        table::page_after(v, k),
                    );
                table::lemma_page_after(v, k);
                lemma_tables_with(m, root, list, run, k + 1);
                assert(sv39::page(m, root, table::page_after(v, k)) == mapped_entry(
                    list,
                    table::page_after(v, k),
                ));
                assert(run_reaches(list, run, all, k));
            },
            _ => {},
        }
    }
    r
}

/// Why building the kernel space fails: no frame is left for the root table, or one of the mappings
/// fails after those before it were made.
pub open spec fn init_fails(all: Seq<Mapping>, free: int, e: MapError) -> bool {
    if free == 0 {
        e == MapError::OutOfMemory
    } else {
        exists|i: int|
            0 <= i < all.len() && all_reach(all, free, i) && run_fails(
                #[trigger] all.subrange(0, i),
                all[i],
                free,
                e,
            )
    }
}

/// The kernel space is built exactly where each mapping can be made after those before it: nothing
/// fails then.
pub proof fn law_init_decided(all: Seq<Mapping>, free: int, e: MapError)
    requires
        all_reach(all, free, all.len() as int),
    ensures
        !init_fails(all, free, e),
{
    assert forall|i: int| 0 <= i < all.len() implies !run_fails(
        #[trigger] all.subrange(0, i),
        all[i],
        free,
        e,
    ) by {
        let done = all.subrange(0, i);
        let run = all[i];
        let v = addr::page_number(run.va);
        let pages = moved::pages_in(run.size);
        assert(run_reaches(done, run, free, pages));
        if e == MapError::OutOfMemory && run_fails(done, run, free, e) {
            let k = choose|k: int|
                0 <= k < pages && k < 0x800_0000 && #[trigger] run_reaches(done, run, free, k)
                    && !pte::pte_valid(mapped_entry(done, table::page_after(v, k))) && free
                    < tables_with(done, run, k + 1);
            let s = places(done).union(ways::ways(v, k + 1));
            let t = places(done).union(ways::ways(v, pages));
            addr::lemma_page_number(run.va);
            lemma_places(done);
            ways::lemma_ways(v, pages);
            ways::lemma_ways_less(v, k + 1, pages);
            assert(s.subset_of(t));
            vstd::set_lib::lemma_len_subset(s, t);
        }
    }
}

/// A page that no mapping covers has no entry.
pub proof fn lemma_not_mapped(list: Seq<Mapping>, w: int)
    requires
        forall|i: int|
            0 <= i < list.len() ==> table::pages_between(
                addr::page_number((#[trigger] list[i]).va),
                w,
            ) >= moved::pages_in(list[i].size),
    ensures
        mapped_entry(list, w) == 0,
    decreases list.len(),
{
    if list.len() > 0 {
        assert(list.last() == list[list.len() - 1]);
        assert forall|i: int| 0 <= i < list.drop_last().len() implies table::pages_between(
            addr::page_number((#[trigger] list.drop_last()[i]).va),
            w,
        ) >= moved::pages_in(list.drop_last()[i].size) by {
            assert(list.drop_last()[i] == list[i]);
        }
        lemma_not_mapped(list.drop_last(), w);
    }
}

/// Page `w` is one of the pages of the mapping.
pub open spec fn covers(r: Mapping, w: int) -> bool {
    (w - r.va as int / 4096) % 0x800_0000 < moved::pages_in(r.size)
}

/// The places of the first mappings are among those of all.
proof fn lemma_places_grow(all: Seq<Mapping>, n: int)
    requires
        0 <= n <= all.len(),
    ensures
        places(all.subrange(0, n)).subset_of(places(all)),
    decreases all.len() - n,
{
    if n == all.len() {
        assert(all.subrange(0, n) =~= all);
    } else {
        assert(all.subrange(0, n + 1).drop_last() =~= all.subrange(0, n));
        lemma_places_grow(all, n + 1);
    }
}

/// Mappings can be made one after the other if they are at pages, no two of them have a page in common,
/// and there are enough frames for the tables: then building the kernel space succeeds.
pub proof fn law_disjoint_mappings_reach(all: Seq<Mapping>, free: int)
    requires
        forall|i: int|
            0 <= i < all.len() ==> (#[trigger] all[i]).va % 4096 == 0 && all[i].pa % 4096 == 0
                && moved::pages_in(all[i].size) <= 0x800_0000,
        forall|i: int, j: int, w: int|
            #![trigger covers(all[i], w), covers(all[j], w)]
            0 <= i < j < all.len() && covers(all[i], w) ==> !covers(all[j], w),
        1 + places(all).len() <= free,
    ensures
        all_reach(all, free, all.len() as int),
        forall|e: MapError| !#[trigger] init_fails(all, free, e),
{
    assert forall|i: int| 0 <= i < all.len() implies run_reaches(
        #[trigger] all.subrange(0, i),
        all[i],
        free,
        moved::pages_in(all[i].size),
    ) by {
        let done = all.subrange(0, i);
        let run = all[i];
        let v = addr::page_number(run.va);
        let k = moved::pages_in(run.size);
        addr::lemma_page_number(run.va);
        assert forall|j: int| 0 <= j < k implies !pte::pte_valid(
            #[trigger] mapped_entry(done, table::page_after(v, j)),
        ) by {
            let w = table::page_after(v, j);
            table::lemma_page_after(v, j);
            lemma_covers(run, w);
            assert(covers(all[i], w));
            assert forall|x: int| 0 <= x < done.len() implies table::pages_between(
                addr::page_number((#[trigger] done[x]).va),
                w,
            ) >= moved::pages_in(done[x].size) by {
                assert(done[x] == all[x]);
                lemma_covers(all[x], w);
            }
            lemma_not_mapped(done, w);
        }
        let next = all.subrange(0, i + 1);
        assert(next.drop_last() =~= done);
        assert(next.last() == run);
        lemma_places_grow(all, i + 1);
        lemma_places(all);
        vstd::set_lib::lemma_len_subset(places(next), places(all));
    }
    assert forall|e: MapError| !#[trigger] init_fails(all, free, e) by {
        law_init_decided(all, free, e);
    }
}

/// Why building the kernel space fails: without a frame for the root table memory has run out. Else a
/// mapping is not at a page, an earlier mapping has a page of it, or there are fewer frames than tables.
pub proof fn law_init_failures(all: Seq<Mapping>, free: int, e: MapError)
    requires
        init_fails(all, free, e),
        forall|i: int|
            0 <= i < all.len() ==> moved::pages_in((#[trigger] all[i]).size) <= 0x800_0000,
        0 <= free,
    ensures
        free == 0 ==> e == MapError::OutOfMemory,
        e == MapError::OutOfMemory ==> free < 1 + places(all).len(),
        e == MapError::NotAligned ==> exists|i: int|
            0 <= i < all.len() && ((#[trigger] all[i]).va % 4096 != 0 || all[i].pa % 4096 != 0),
        e matches MapError::AlreadyMapped(x) ==> exists|i: int, j: int, k: int|
            #![trigger all[i], all[j], table::page_after(addr::page_number(all[j].va), k)]
            0 <= i < j < all.len() && x.0 == all[j].va + 4096 * k && covers(
                all[i],
                table::page_after(addr::page_number(all[j].va), k),
            ),
{
    lemma_places(all);
    if free > 0 {
        let i = choose|i: int|
            0 <= i < all.len() && all_reach(all, free, i) && run_fails(
                #[trigger] all.subrange(0, i),
                all[i],
                free,
                e,
            );
        let done = all.subrange(0, i);
        let run = all[i];
        let v = addr::page_number(run.va);
        let pages = moved::pages_in(run.size);
        addr::lemma_page_number(run.va);
        match e {
            MapError::NotAligned => {
                assert(all[i].va % 4096 != 0 || all[i].pa % 4096 != 0);
            },
            MapError::OutOfMemory => {
                let k = choose|k: int|
                    0 <= k < pages && k < 0x800_0000 && #[trigger] run_reaches(done, run, free, k)
                        && !pte::pte_valid(mapped_entry(done, table::page_after(v, k))) && free
                        < tables_with(done, run, k + 1);
                let next = all.subrange(0, i + 1);
                assert(next.drop_last() =~= done);
                assert(next.last() == run);
                let s = places(done).union(ways::ways(v, k + 1));
                ways::lemma_ways_less(v, k + 1, pages);
                assert(s.subset_of(places(next)));
                lemma_places_grow(all, i + 1);
                vstd::set_lib::lemma_len_subset(s, places(all));
            },
            MapError::AlreadyMapped(x) => {
                let k = choose|k: int|
                    0 <= k < pages && x.0 == run.va + 4096 * k && #[trigger] run_reaches(
                        done,
                        run,
                        free,
                        k,
                    ) && (k == 0x800_0000 || pte::pte_valid(
                        mapped_entry(done, table::page_after(v, k)),
                    ));
                let w = table::page_after(v, k);
                if forall|j: int| 0 <= j < done.len() ==> !covers(#[trigger] done[j], w) {
                    assert forall|j: int| 0 <= j < done.len() implies table::pages_between(
                        addr::page_number((#[trigger] done[j]).va),
                        w,
                    ) >= moved::pages_in(done[j].size) by {
                        lemma_covers(done[j], w);
                    }
                    lemma_not_mapped(done, w);
                }
                let j = choose|j: int| 0 <= j < done.len() && covers(#[trigger] done[j], w);
                assert(done[j] == all[j]);
                assert(covers(all[j], table::page_after(addr::page_number(all[i].va), k)));
            },
        }
    }
}

/// The pages of a mapping are those that come up to its size behind its first page.
proof fn lemma_covers(r: Mapping, w: int)
    ensures
        covers(r, w) == (table::pages_between(addr::page_number(r.va), w) < moved::pages_in(
            r.size,
        )),
{
    let b = r.va as int / 4096;
    assert((w - b % 0x800_0000) % 0x800_0000 == (w - b) % 0x800_0000);
}

/// Builds the kernel space.
///
/// The devices are mapped in order. The first mapping that fails ends it; nothing is taken back.
pub fn init<A: PageFrameAllocator>(
    mem: &mut PhysMem,
    frames: &mut A,
    dram_base: u64,
    dram_size: u64,
    devices: &Vec<DeviceRange>,
) -> (r: Result<AddressSpace, MapError>)
    requires
        old(mem).wf(),
        old(frames).ready(old(mem)@.dom()),
        KERNEL_BASE + dram_base <= u64::MAX,
        forall|i: int|
            0 <= i < kernel_mappings(dram_base, dram_size, devices@).len() ==> fits(
                #[trigger] kernel_mappings(dram_base, dram_size, devices@)[i],
            ),
    ensures
        final(mem).wf(),
        final(mem).start() == old(mem).start(),
        final(mem).end() == old(mem).end(),
        final(mem)@.dom() == old(mem)@.dom(),
        final(frames).ready(final(mem)@.dom()),
        final(frames).recycles() == old(frames).recycles(),
        final(frames).free().subset_of(old(frames).free()),
        ({
            let all = kernel_mappings(dram_base, dram_size, devices@);
            let free = old(frames).free().len() as int;
            match r {
                Ok(ks) => {
                    &&& sv39::tree(final(mem)@, ks.root())
                    &&& walk::disjoint_from(final(mem)@, ks.root(), final(frames).free())
                    &&& old(frames).free().contains(ks.root())
                    &&& forall|w: int|
                        sv39::is_page(w) ==> #[trigger] sv39::page(final(mem)@, ks.root(), w)
                            == mapped_entry(all, w)
                    &&& all_reach(all, free, all.len() as int)
                    &&& free == final(frames).free().len() + 1 + places(all).len()
                },
                Err(e) => {
                    &&& init_fails(all, free, e)
                    &&& e == MapError::OutOfMemory ==> final(frames).free() == Set::<int>::empty()
                },
            }
        }),
{
    let ghost all = kernel_mappings(dram_base, dram_size, devices@);
    let ghost n0 = frames.free().len() as int;
    proof {
        frames.lemma_free(mem@);
    }
    let ks: AddressSpace = match AddressSpace::new(mem, frames) {
        Err(e) => {
            return Err(e);
        },
        Ok(s) => s,
    };
    let ghost mut list = Seq::<Mapping>::empty();
    proof {
        assert(all[0] == ram_mapping(dram_base, dram_base, dram_size));
        assert(fits(all[0]));
        assert(list =~= all.subrange(0, 0));
        assert(places(list) == Set::<(int, int)>::empty());
        assert(phys::has_frame(mem@, ks.root()));
        graft::lemma_empty_tree(mem@, ks.root());
        assert forall|p: (int, int)|
            #![trigger ways::present(mem@, ks.root(), p)]
            ways::is_place(p) implies !ways::present(mem@, ks.root(), p) by {
            assert(sv39::entry(mem@, ks.root(), p.0) == 0);
        }
    }
    match map_run(&ks, mem, frames, dram_base, dram_base, dram_size, RAM_FLAGS, Ghost(list)) {
        Err(e) => {
            return Err(e);
        },
        Ok(_) => {},
    }
    proof {
        lemma_one_more(all, n0, 0);
        list = list.push(ram_mapping(dram_base, dram_base, dram_size));
        assert(list =~= all.subrange(0, 1));
    }
    let mut i: usize = 0;
    while i < devices.len()
        invariant
            i <= devices@.len(),
            all == kernel_mappings(dram_base, dram_size, devices@),
            list == all.subrange(0, i + 1),
            n0 == old(frames).free().len(),
            n0 == frames.free().len() + 1 + places(list).len(),
            all_reach(all, n0, i + 1),
            tabled(mem@, ks.root(), places(list)),
            forall|j: int| 0 <= j < all.len() ==> fits(#[trigger] all[j]),
            mem.wf(),
            mem.start() == old(mem).start(),
            mem.end() == old(mem).end(),
            mem@.dom() == old(mem)@.dom(),
            frames.ready(mem@.dom()),
            frames.recycles() == old(frames).recycles(),
            frames.free().subset_of(old(frames).free()),
            sv39::tree(mem@, ks.root()),
            walk::disjoint_from(mem@, ks.root(), frames.free()),
            old(frames).free().contains(ks.root()),
            forall|w: int|
                sv39::is_page(w) ==> #[trigger] sv39::page(mem@, ks.root(), w) == mapped_entry(
                    list,
                    w,
                ),
        decreases devices@.len() - i,
    {
        let dev: DeviceRange = devices[i];
        let size: u64 = if dev.size > 0 {
            dev.size
        } else {
            0x1000
        };
        proof {
            assert(all[i + 1] == device_mapping(dev));
            assert(fits(all[i + 1]));
        }
        match map_run(&ks, mem, frames, dev.base, dev.base, size, DEV_FLAGS, Ghost(list)) {
            Err(e) => {
                return Err(e);
            },
            Ok(_) => {},
        }
        proof {
            lemma_one_more(all, n0, i + 1);
            list = list.push(device_mapping(dev));
            assert(list =~= all.subrange(0, i + 2));
        }
        i += 1;
    }
    proof {
        assert(all[i + 1] == ram_mapping((KERNEL_BASE + dram_base) as u64, dram_base, dram_size));
        assert(fits(all[i + 1]));
    }
    match map_run(
        &ks,
        mem,
        frames,
        KERNEL_BASE + dram_base,
        dram_base,
        dram_size,
        RAM_FLAGS,
        Ghost(list),
    ) {
        Err(e) => {
            return Err(e);
        },
        Ok(_) => {},
    }
    proof {
        lemma_one_more(all, n0, i + 1);
        list = list.push(ram_mapping((KERNEL_BASE + dram_base) as u64, dram_base, dram_size));
        assert(list =~= all);
    }
    Ok(ks)
}

/// Maps the registers of a device onto themselves in the kernel space; nothing happens if there is
/// no kernel space.
pub fn map_device<A: PageFrameAllocator>(
    kernel: Option<&AddressSpace>,
    mem: &mut PhysMem,
    frames: &mut A,
    base: u64,
    size: u64,
) -> (r: Result<(), MapError>)
    requires
        old(mem).wf(),
        old(frames).ready(old(mem)@.dom()),
        kernel matches Some(ks) ==> sv39::tree(old(mem)@, ks.root()) && walk::disjoint_from(
            old(mem)@,
            ks.root(),
            old(frames).free(),
        ),
        base % 4096 == 0 ==> addr::in_word(
            fault::sign_extended(base) as u64,
            moved::pages_in(size),
        ) && addr::in_word(base, moved::pages_in(size)),
    ensures
        final(mem).wf(),
        final(mem).start() == old(mem).start(),
        final(mem).end() == old(mem).end(),
        final(mem)@.dom() == old(mem)@.dom(),
        final(frames).ready(final(mem)@.dom()),
        final(frames).recycles() == old(frames).recycles(),
        match kernel {
            None => r is Ok && final(mem)@ == old(mem)@ && final(frames).free() == old(
                frames,
            ).free(),
            Some(ks) => {
                &&& sv39::tree(final(mem)@, ks.root())
                &&& walk::disjoint_from(final(mem)@, ks.root(), final(frames).free())
                &&& crate::mmu::table::region_outcome(
                    old(mem)@,
                    old(frames).free(),
                    final(mem)@,
                    final(frames).free(),
                    ks.root(),
                    fault::sign_extended(base) as u64,
                    base,
                    size,
                    DEV_FLAGS,
                    r,
                )
            },
        },
{
    match kernel {
        None => Ok(()),
        Some(ks) => ks.map(
            mem,
            VirtAddr::new_truncate(base),
            PhysAddr::from_raw(base),
            size,
            PteFlags::from_bits(DEV_FLAGS),
            frames,
        ),
    }
}

/// Creates a user space: the kernel half is that of the kernel space, the user half is empty.
pub fn new_user_space<A: PageFrameAllocator>(
    kernel: Option<&AddressSpace>,
    mem: &mut PhysMem,
    frames: &mut A,
) -> (r: Result<AddressSpace, MapError>)
    requires
        old(mem).wf(),
        old(frames).ready(old(mem)@.dom()),
        kernel matches Some(ks) ==> sv39::tree(old(mem)@, ks.root()) && walk::disjoint_from(
            old(mem)@,
            ks.root(),
            old(frames).free(),
        ),
    ensures
        final(mem).wf(),
        final(mem).start() == old(mem).start(),
        final(mem).end() == old(mem).end(),
        final(mem)@.dom() == old(mem)@.dom(),
        final(frames).ready(final(mem)@.dom()),
        final(frames).recycles() == old(frames).recycles(),
        match r {
            Ok(space) => {
                &&& sv39::tree(final(mem)@, space.root())
                &&& walk::disjoint_from(final(mem)@, space.root(), final(frames).free())
                &&& old(frames).free().contains(space.root())
                &&& final(frames).free() == old(frames).free().remove(space.root())
                &&& phys::same_outside(old(mem)@, final(mem)@, set![space.root()])
                &&& forall|v: int|
                    sv39::is_page(v) ==> #[trigger] sv39::page(final(mem)@, space.root(), v) == (
                    match kernel {
                        Some(ks) => if sv39::i2(v) < 256 {
                            0
                        } else {
                            sv39::page(old(mem)@, ks.root(), v)
                        },
                        None => 0,
                    })
                &&& kernel matches Some(ks) ==> sv39::tree(final(mem)@, ks.root())
                    && moved::same_pages(old(mem)@, final(mem)@, ks.root())
                    && walk::disjoint_from(final(mem)@, ks.root(), final(frames).free())
            },
            Err(e) => {
                &&& e == MapError::OutOfMemory
                &&& old(frames).free() == Set::<int>::empty()
                &&& final(frames).free() == old(frames).free()
                &&& final(mem)@ == old(mem)@
            },
        },
{
    let ghost m = mem@;
    let ghost free = frames.free();
    proof {
        frames.lemma_free(m);
    }
    let mut space: AddressSpace = match AddressSpace::new(mem, frames) {
        Err(e) => {
            return Err(e);
        },
        Ok(s) => s,
    };
    match kernel {
        None => {},
        Some(ks) => {
            let ghost m1 = mem@;
            proof {
                let root = space.root();
                let kr = ks.root();
                let none = Set::<int>::empty();
                let up = space::upper_half();
                moved::lemma_leaked(m, free, m1, frames.free(), kr, none);
                reveal(moved::moved);
                sv39::lemma_agree(m, m1, kr, set![root]);
                assert(sv39::owned(m1, kr, none) == sv39::owned(m, kr, none));
                assert(!sv39::tables(m1, kr).contains(root)) by {
                    if sv39::owned(m, kr, none).contains(root) {
                        assert(sv39::is_owned(m, kr, none, root));
                    }
                }
                assert(phys::has_frame(m1, root));
                graft::lemma_empty_tree(m1, root);
                assert(sv39::owned(m1, root, up) == set![root]);
                assert forall|t: int| sv39::owned(m1, root, up).contains(t) implies !sv39::owned(
                    m1,
                    kr,
                    graft::others(up),
                ).contains(t) by {
                    if sv39::is_owned(m1, kr, graft::others(up), t) {
                        graft::lemma_owned_frame(m1, kr, graft::others(up), t);
                        assert(sv39::tables(m1, kr).contains(t));
                    }
                }
            }
            space.share_kernel_half(mem, ks);
            proof {
                let m2 = mem@;
                let root = space.root();
                let kr = ks.root();
                assert(walk::disjoint_from(m1, root, frames.free()));
                assert forall|v: int| sv39::is_page(v) implies #[trigger] sv39::page(m2, kr, v)
                    == sv39::page(m, kr, v) by {
                    assert(sv39::page(m1, kr, v) == sv39::page(m, kr, v));
                }
                assert forall|v: int| sv39::is_page(v) implies #[trigger] sv39::page(m2, root, v)
                    == (if sv39::i2(v) < 256 {
                    0
                } else {
                    sv39::page(m, kr, v)
                }) by {
                    assert(sv39::page(m1, kr, v) == sv39::page(m, kr, v));
                }
                assert forall|f: int, i: int|
                    #![trigger m2[f + 8 * i]]
                    f % 4096 == 0 && 0 <= i < 512 && !set![root].contains(f) implies m2[f + 8 * i]
                    == m[f + 8 * i] by {
                    assert(m1[f + 8 * i] == m[f + 8 * i]);
                }
            }
        },
    }
    Ok(space)
}

} // verus!
