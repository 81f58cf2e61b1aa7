//! The regions of an address space: an ordered list of disjoint address ranges.
use vstd::prelude::*;
use crate::memory::addr::VirtAddr;
use crate::memory::entry::PteFlags;
use crate::memory::phys::PAGE_SIZE;
use crate::memory::table::MapError;

verus! {

/// What a region holds.
#[derive(Clone, Copy, PartialEq, Eq, Structural, Debug)]
pub enum RegionKind {
    /// Anonymous memory: a fault brings in a zeroed page.
    Anonymous,
    /// Reserved addresses: a fault is an error.
    Reserved,
}

/// The addresses from `start` up to, but not including, `end`.
#[derive(Clone, Copy, PartialEq, Eq, Structural, Debug)]
pub struct Region {
    pub start: u64,
    pub end: u64,
    pub flags: PteFlags,
    pub kind: RegionKind,
}

/// The range `[start, end)` meets the region.
pub open spec fn overlaps(r: Region, start: int, end: int) -> bool {
    start < r.end && end > r.start
}

/// The regions are ordered by their start, page aligned, and no two of them overlap.
pub open spec fn regions_wf(s: Seq<Region>) -> bool {
    &&& forall|i: int|
        0 <= i < s.len() ==> (#[trigger] s[i]).start <= s[i].end && s[i].start % 4096 == 0
            && s[i].end % 4096 == 0
    &&& forall|i: int, j: int|
        #![trigger s[i], s[j]]
        0 <= i < j < s.len() ==> s[i].start <= s[j].start && !overlaps(
            s[i],
            s[j].start as int,
            s[j].end as int,
        )
}

/// The address lies in the region.
pub open spec fn holds(r: Region, addr: int) -> bool {
    r.start <= addr < r.end
}

/// How registering `[start, start + size)` ends.
///
/// Refused if it is not page aligned, or meets a registered region; otherwise it is inserted where
/// the order by start puts it, before regions with the same start.
pub open spec fn add_outcome(
    s: Seq<Region>,
    s2: Seq<Region>,
    start: u64,
    size: u64,
    flags: PteFlags,
    kind: RegionKind,
    r: Result<(), MapError>,
) -> bool {
    let end = start + size;
    let new = Region { start, end: end as u64, flags, kind };
    let aligned = start % 4096 == 0 && size % 4096 == 0;
    let taken = exists|i: int| 0 <= i < s.len() && overlaps(#[trigger] s[i], start as int, end);
    match r {
        Ok(_) => {
            &&& aligned
            &&& !taken
            &&& exists|k: int|
                0 <= k <= s.len() && (forall|i: int|
                    0 <= i < k ==> (#[trigger] s[i]).start < start) && (forall|i: int|
                    k <= i < s.len() ==> (#[trigger] s[i]).start >= start) && s2
                    == #[trigger] s.insert(k, new)
        },
        Err(MapError::NotAligned) => !aligned && s2 == s,
        Err(MapError::AlreadyMapped) => aligned && taken && s2 == s,
        _ => false,
    }
}

/// What a search for the region of `addr` gives: the registered region in which it lies.
pub open spec fn find_outcome(s: Seq<Region>, addr: int, r: Option<Region>) -> bool {
    match r {
        Some(region) => s.contains(region) && holds(region, addr),
        None => forall|i: int| 0 <= i < s.len() ==> !holds(#[trigger] s[i], addr),
    }
}

/// Number of regions that start before `addr`.
fn starts_below(regions: &Vec<Region>, addr: u64) -> (n: usize)
    requires
        regions_wf(regions@),
    ensures
        n <= regions@.len(),
        forall|i: int| 0 <= i < n ==> (#[trigger] regions@[i]).start < addr,
        forall|i: int| n <= i < regions@.len() ==> (#[trigger] regions@[i]).start >= addr,
{
    let mut n: usize = 0;
    while n < regions.len() && regions[n].start < addr
        invariant
            regions_wf(regions@),
            n <= regions@.len(),
            forall|i: int| 0 <= i < n ==> (#[trigger] regions@[i]).start < addr,
        decreases regions@.len() - n,
    {
        n += 1;
    }
    n
}

/// Number of regions that start at or before `addr`.
fn starts_up_to(regions: &Vec<Region>, addr: u64) -> (n: usize)
    requires
        regions_wf(regions@),
    ensures
        n <= regions@.len(),
        forall|i: int| 0 <= i < n ==> (#[trigger] regions@[i]).start <= addr,
        forall|i: int| n <= i < regions@.len() ==> (#[trigger] regions@[i]).start > addr,
{
    let mut n: usize = 0;
    while n < regions.len() && regions[n].start <= addr
        invariant
            regions_wf(regions@),
            n <= regions@.len(),
            forall|i: int| 0 <= i < n ==> (#[trigger] regions@[i]).start <= addr,
        decreases regions@.len() - n,
    {
        n += 1;
    }
    n
}

/// Registers `[start, start + size)`.
pub fn add_region(
    regions: &mut Vec<Region>,
    start: u64,
    size: u64,
    flags: PteFlags,
    kind: RegionKind,
) -> (r: Result<(), MapError>)
    requires
        regions_wf(old(regions)@),
        start + size <= u64::MAX,
    ensures
        regions_wf(final(regions)@),
        add_outcome(old(regions)@, final(regions)@, start, size, flags, kind, r),
{
    if start % PAGE_SIZE != 0 || size % PAGE_SIZE != 0 {
        return Err(MapError::NotAligned);
    }
    let end: u64 = start + size;
    let mut i: usize = 0;
    while i < regions.len()
        invariant
            i <= regions@.len(),
            regions@ == old(regions)@,
            regions_wf(regions@),
            end == start + size,
            start % 4096 == 0,
            size % 4096 == 0,
            forall|j: int|
                0 <= j < i ==> !overlaps(#[trigger] regions@[j], start as int, end as int),
        decreases regions@.len() - i,
    {
        if start < regions[i].end && end > regions[i].start {
            assert(overlaps(old(regions)@[i as int], start as int, end as int));
            return Err(MapError::AlreadyMapped);
        }
        i += 1;
    }
    let region: Region = Region { start, end, flags, kind };
    let k: usize = starts_below(regions, start);
    regions.insert(k, region);
    proof {
        let s = old(regions)@;
        let t = regions@;
        assert(t == s.insert(k as int, region));
        assert forall|i: int, j: int|
            #![trigger t[i], t[j]]
            0 <= i < j < t.len() implies t[i].start <= t[j].start && !overlaps(
            t[i],
            t[j].start as int,
            t[j].end as int,
        ) by {
            let i0 = if i < k {
                i
            } else {
                i - 1
            };
            let j0 = if j < k {
                j
            } else {
                j - 1
            };
            if i == k {
                assert(t[j] == s[j0]);
                assert(!overlaps(s[j0], start as int, end as int));
            } else if j == k {
                assert(t[i] == s[i0]);
                assert(!overlaps(s[i0], start as int, end as int));
            } else {
                assert(t[i] == s[i0] && t[j] == s[j0]);
            }
        }
        assert forall|i: int| 0 <= i < t.len() implies (#[trigger] t[i]).start <= t[i].end
            && t[i].start % 4096 == 0 && t[i].end % 4096 == 0 by {
            if i < k {
                assert(t[i] == s[i]);
            } else if i > k {
                assert(t[i] == s[i - 1]);
            }
        }
    }
    Ok(())
}

/// The registered region in which `vaddr` lies.
pub fn find_region(regions: &Vec<Region>, vaddr: VirtAddr) -> (r: Option<Region>)
    requires
        regions_wf(regions@),
    ensures
        find_outcome(regions@, vaddr.0 as int, r),
{
    let addr: u64 = vaddr.as_usize();
    let mut n: usize = starts_up_to(regions, addr);
    while n > 0
        invariant
            addr == vaddr.0,
            n <= regions@.len(),
            forall|i: int| 0 <= i < n ==> (#[trigger] regions@[i]).start <= addr,
            forall|i: int| n <= i < regions@.len() ==> !holds(#[trigger] regions@[i], addr as int),
        decreases n,
    {
        let region: Region = regions[n - 1];
        if addr < region.end {
            assert(regions@[n - 1] == region);
            return Some(region);
        }
        n -= 1;
    }
    None
}

/// The regions that do not meet `[start, end)`.
pub open spec fn clear_of_range(s: Seq<Region>, start: int, end: int) -> Seq<Region> {
    s.filter(|r: Region| !overlaps(r, start, end))
}

/// Removing regions keeps the list in order.
proof fn lemma_filtered(s: Seq<Region>, start: int, end: int)
    requires
        regions_wf(s),
    ensures
        regions_wf(clear_of_range(s, start, end)),
        forall|i: int|
            0 <= i < clear_of_range(s, start, end).len() ==> s.contains(
                #[trigger] clear_of_range(s, start, end)[i],
            ) && !overlaps(clear_of_range(s, start, end)[i], start, end),
    decreases s.len(),
{
    reveal(Seq::filter);
    let p = |r: Region| !overlaps(r, start, end);
    if s.len() > 0 {
        let t = s.drop_last();
        assert forall|i: int| 0 <= i < t.len() implies t[i] == s[i] by {}
        assert(regions_wf(t)) by {
            assert forall|i: int, j: int|
                #![trigger t[i], t[j]]
                0 <= i < j < t.len() implies t[i].start <= t[j].start && !overlaps(
                t[i],
                t[j].start as int,
                t[j].end as int,
            ) by {
                assert(t[i] == s[i] && t[j] == s[j]);
            }
        }
        lemma_filtered(t, start, end);
        let ft = clear_of_range(t, start, end);
        let fs = clear_of_range(s, start, end);
        let last = s[s.len() - 1];
        assert(fs == if p(last) {
            ft.push(last)
        } else {
            ft
        });
        assert forall|i: int| 0 <= i < fs.len() implies s.contains(#[trigger] fs[i]) && !overlaps(
            fs[i],
            start,
            end,
        ) by {
            if i < ft.len() {
                assert(t.contains(ft[i]));
                let k = choose|k: int| 0 <= k < t.len() && t[k] == ft[i];
                assert(s[k] == fs[i]);
            } else {
                assert(fs[i] == last);
            }
        }
        assert forall|i: int, j: int|
            #![trigger fs[i], fs[j]]
            0 <= i < j < fs.len() implies fs[i].start <= fs[j].start && !overlaps(
            fs[i],
            fs[j].start as int,
            fs[j].end as int,
        ) by {
            if j < ft.len() {
                assert(ft[i] == fs[i] && ft[j] == fs[j]);
            } else {
                assert(t.contains(ft[i]));
                let k = choose|k: int| 0 <= k < t.len() && t[k] == ft[i];
                assert(s[k] == fs[i]);
                assert(s[s.len() - 1] == fs[j]);
            }
        }
    }
}

/// Drops every region that meets `[start, end)`.
pub fn remove_regions(regions: &mut Vec<Region>, start: u64, end: u64)
    requires
        regions_wf(old(regions)@),
    ensures
        regions_wf(final(regions)@),
        final(regions)@ == clear_of_range(old(regions)@, start as int, end as int),
{
    let ghost s = regions@;
    let ghost p = |r: Region| !overlaps(r, start as int, end as int);
    let mut rest: Vec<Region> = Vec::new();
    let mut i: usize = 0;
    while i < regions.len()
        invariant
            i <= regions@.len(),
            regions@ == s,
            p == (|r: Region| !overlaps(r, start as int, end as int)),
            rest@ == s.subrange(0, i as int).filter(p),
        decreases regions@.len() - i,
    {
        let r: Region = regions[i];
        proof {
            reveal(Seq::filter);
            assert(s.subrange(0, i + 1).drop_last() =~= s.subrange(0, i as int));
        }
        if !(start < r.end && end > r.start) {
            rest.push(r);
        }
        i += 1;
    }
    proof {
        assert(s.subrange(0, s.len() as int) =~= s);
        lemma_filtered(s, start as int, end as int);
    }
    *regions = rest;
}

/// An address lies in at most one region, so the search for it has one answer: the region in which
/// it lies.
pub proof fn law_find_region(s: Seq<Region>, addr: int, i: int, r: Option<Region>)
    requires
        regions_wf(s),
        0 <= i < s.len(),
        holds(s[i], addr),
        find_outcome(s, addr, r),
    ensures
        r == Some(s[i]),
        forall|j: int| 0 <= j < s.len() && holds(#[trigger] s[j], addr) ==> j == i,
{
    assert forall|j: int| 0 <= j < s.len() && holds(#[trigger] s[j], addr) implies j == i by {
        if j < i {
            assert(!overlaps(s[j], s[i].start as int, s[i].end as int));
        } else if i < j {
            assert(!overlaps(s[i], s[j].start as int, s[j].end as int));
        }
    }
    if let Some(x) = r {
        let j = choose|j: int| 0 <= j < s.len() && s[j] == x;
        assert(holds(s[j], addr));
    }
}

/// A region that was registered holds its addresses with its flags and its kind; every address outside
/// it is held as before.
pub proof fn law_region_added(
    s: Seq<Region>,
    s2: Seq<Region>,
    start: u64,
    size: u64,
    flags: PteFlags,
    kind: RegionKind,
    addr: int,
    x: Region,
)
    requires
        start + size <= u64::MAX,
        add_outcome(s, s2, start, size, flags, kind, Ok(())),
    ensures
        s2.len() == s.len() + 1,
        s2.contains(Region { start, end: (start + size) as u64, flags, kind }),
        x != (Region { start, end: (start + size) as u64, flags, kind }) ==> (s2.contains(x)
            <==> s.contains(x)),
        start <= addr < start + size ==> !exists|i: int|
            0 <= i < s.len() && (#[trigger] s[i]).start <= addr < s[i].end,
{
    let new = Region { start, end: (start + size) as u64, flags, kind };
    let k = choose|k: int|
        0 <= k <= s.len() && (forall|i: int| 0 <= i < k ==> (#[trigger] s[i]).start < start) && (
        forall|i: int| k <= i < s.len() ==> (#[trigger] s[i]).start >= start) && s2
            == #[trigger] s.insert(k, new);
    assert(s2[k] == new);
    if s.contains(x) {
        let i = choose|i: int| 0 <= i < s.len() && s[i] == x;
        if i < k {
            assert(s2[i] == x);
        } else {
            assert(s2[i + 1] == x);
        }
    }
    if s2.contains(x) && x != new {
        let i = choose|i: int| 0 <= i < s2.len() && s2[i] == x;
        if i < k {
            assert(s[i] == x);
        } else {
            assert(s[i - 1] == x);
        }
    }
    if start <= addr < start + size {
        assert forall|i: int| 0 <= i < s.len() implies !((#[trigger] s[i]).start <= addr
            < s[i].end) by {
            assert(!overlaps(s[i], start as int, start + size));
        }
    }
}

/// A range is refused if an end of it is not at a page, or if an address of it is held already; the
/// regions then stay.
pub proof fn law_region_refused(
    s: Seq<Region>,
    s2: Seq<Region>,
    start: u64,
    size: u64,
    flags: PteFlags,
    kind: RegionKind,
    r: Result<(), MapError>,
    i: int,
    addr: int,
)
    requires
        start + size <= u64::MAX,
        add_outcome(s, s2, start, size, flags, kind, r),
    ensures
        start % 4096 != 0 || size % 4096 != 0 ==> r == Err::<(), MapError>(MapError::NotAligned),
        start % 4096 == 0 && size % 4096 == 0 && 0 <= i < s.len() && s[i].start <= addr < s[i].end
            && start <= addr < start + size ==> r == Err::<(), MapError>(MapError::AlreadyMapped),
        r is Err ==> s2 == s,
{
    if 0 <= i < s.len() && s[i].start <= addr < s[i].end && start <= addr < start + size {
        assert(overlaps(s[i], start as int, start + size));
    }
}

/// Removing drops every region that has an address in the range; the others stay.
pub proof fn law_regions_removed(s: Seq<Region>, start: int, end: int, x: Region)
    requires
        x.start < x.end,
        start < end,
    ensures
        clear_of_range(s, start, end).contains(x) <==> s.contains(x) && (x.end <= start || end
            <= x.start),
{
    let p = |r: Region| !overlaps(r, start, end);
    let t = clear_of_range(s, start, end);
    if t.contains(x) {
        let i = choose|i: int| 0 <= i < t.len() && t[i] == x;
        s.lemma_filter_pred(p, i);
        s.lemma_filter_contains_rev(p, x);
    }
    if s.contains(x) && (x.end <= start || end <= x.start) {
        let i = choose|i: int| 0 <= i < s.len() && s[i] == x;
        assert(p(s[i]));
        s.lemma_filter_contains(p, i);
    }
}

} // verus!
