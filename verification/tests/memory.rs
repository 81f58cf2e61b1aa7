use atom::memory::addr::{PhysAddr, VirtAddr, KERNEL_BASE};
use atom::memory::entry::PteFlags;
use atom::memory::kernel;
use atom::memory::kernel::KernelSpace;
use atom::memory::phys::PhysMem;
use atom::memory::region;
use atom::memory::region::{Region, RegionKind};
use atom::memory::space::AddressSpace;
use atom::memory::table::{MapError, PageTable};
use atom::mmu::frames::{FramePool, PageFrameAllocator};

const BASE: u64 = 0x8000_0000;

const RW: u64 = 2 + 4 + 64 + 128;

fn va(a: u64) -> VirtAddr {
    VirtAddr::from_raw(a)
}

fn pa(a: u64) -> PhysAddr {
    PhysAddr::from_raw(a)
}

fn rw() -> PteFlags {
    PteFlags::from_bits(RW)
}

/// Memory of `pages` pages, and a pool with the first `n` of them.
fn memory(pages: usize, n: u64) -> (PhysMem, FramePool) {
    let mem = PhysMem::new(BASE, pages);
    let mut frames = FramePool::new(&mem);
    for i in 0..n {
        frames.free_frame(&mem, pa(BASE + 4096 * (n - 1 - i)));
    }
    (mem, frames)
}

/// Number of frames that can still be taken.
fn left(mem: &mut PhysMem, frames: &mut FramePool) -> usize {
    let mut taken = Vec::new();
    while let Some(f) = frames.alloc_frame(mem) {
        taken.push(f);
    }
    let n = taken.len();
    for f in taken {
        frames.free_frame(mem, f);
    }
    n
}

#[test]
fn virtual_addresses() {
    let a = va(0x40_2030_1ABC);
    assert_eq!((a.vpn(2), a.vpn(1), a.vpn(0), a.offset()), (256, 257, 257, 0xABC));
    assert_eq!(VirtAddr::new_truncate(0x40_0000_0000).as_usize(), 0xFFFF_FFC0_0000_0000);
    assert_eq!(VirtAddr::new_truncate(0x1234_003F_FFFF_F000).as_usize(), 0x3F_FFFF_F000);
    assert!(va(0x1000).is_user() && !va(0x1000).is_kernel());
    assert!(va(KERNEL_BASE).is_kernel() && !va(KERNEL_BASE).is_user());
    assert!(pa(0x1000).is_aligned() && !pa(0x1008).is_aligned());
    assert_eq!(pa(0x1000).plus(8).as_usize(), 0x1008);
    assert_eq!(va(0x1000).plus(8).as_usize(), 0x1008);
}

#[test]
fn flag_sets() {
    let f = PteFlags::from_bits(PteFlags::R).union(PteFlags::from_bits(PteFlags::W));
    assert_eq!(f.bits(), 6);
    assert!(f.contains(PteFlags::from_bits(PteFlags::W)));
    assert!(!f.contains(PteFlags::from_bits(PteFlags::V)));
    assert_eq!(f.valid().bits(), 7);
    assert_eq!(f.valid().valid().bits(), 7);
}

#[test]
fn words_and_bytes() {
    let mut mem = PhysMem::new(BASE, 2);
    mem.write_word(BASE + 8, 0x1122_3344_5566_7788);
    assert_eq!(mem.read_word(BASE + 8), 0x1122_3344_5566_7788);
    assert_eq!(mem.read_byte(BASE + 8), 0x88);
    assert_eq!(mem.read_byte(BASE + 15), 0x11);
    mem.copy_frame(BASE, BASE + 4096);
    assert_eq!(mem.read_word(BASE + 4096 + 8), 0x1122_3344_5566_7788);
    mem.zero_frame(BASE);
    assert_eq!(mem.read_word(BASE + 8), 0);
    assert!(mem.contains(BASE) && !mem.contains(BASE + 4) && !mem.contains(BASE + 8192));
}

#[test]
fn map_then_translate() {
    let (mut mem, mut frames) = memory(16, 8);
    let mut s = AddressSpace::new(&mut mem, &mut frames).unwrap();
    assert_eq!(s.root_page(), BASE / 4096);
    assert!(s.translate(&mem, va(0x1000)).is_none());
    assert_eq!(s.map(&mut mem, va(0x1000), pa(0x9000_0000), 0x2000, rw(), &mut frames), Ok(()));
    assert_eq!(
        s.translate(&mem, va(0x2ABC)),
        Some((pa(0x9000_1000), PteFlags::from_bits(RW + 1)))
    );
    assert!(s.translate(&mem, va(0x3000)).is_none());
    // A root table, a middle table and a leaf table.
    assert_eq!(left(&mut mem, &mut frames), 5);
}

#[test]
fn map_refuses() {
    let (mut mem, mut frames) = memory(16, 4);
    let mut s = AddressSpace::new(&mut mem, &mut frames).unwrap();
    assert_eq!(
        s.map(&mut mem, va(0x1008), pa(0x9000_0000), 0x1000, rw(), &mut frames),
        Err(MapError::NotAligned)
    );
    assert_eq!(
        s.map(&mut mem, va(0x1000), pa(0x9000_0000), 0x10, rw(), &mut frames),
        Err(MapError::NotAligned)
    );
    assert_eq!(s.map(&mut mem, va(0x2000), pa(0x9000_0000), 0x1000, rw(), &mut frames), Ok(()));
    assert_eq!(
        s.map(&mut mem, va(0x1000), pa(0x9100_0000), 0x2000, rw(), &mut frames),
        Err(MapError::AlreadyMapped)
    );
    // The page before the mapped one stays mapped.
    assert_eq!(s.translate(&mem, va(0x1000)).unwrap().0, pa(0x9100_0000));
    assert_eq!(s.translate(&mem, va(0x2000)).unwrap().0, pa(0x9000_0000));
    // One frame is left, two tables are missing.
    assert_eq!(
        s.map(&mut mem, va(0x8000_0000), pa(0x9000_0000), 0x1000, rw(), &mut frames),
        Err(MapError::OutOfMemory)
    );
    assert_eq!(left(&mut mem, &mut frames), 0);
}

#[test]
fn no_frame_for_a_root() {
    let (mut mem, mut frames) = memory(1, 0);
    assert!(matches!(AddressSpace::new(&mut mem, &mut frames), Err(MapError::OutOfMemory)));
}

#[test]
fn unmap_undoes_map() {
    let (mut mem, mut frames) = memory(16, 8);
    let mut s = AddressSpace::new(&mut mem, &mut frames).unwrap();
    s.map(&mut mem, va(0x1000), pa(0x9000_0000), 0x3000, rw(), &mut frames).unwrap();
    s.unmap(&mut mem, va(0x2000), 1);
    assert!(s.translate(&mem, va(0x1000)).is_some());
    assert!(s.translate(&mem, va(0x2000)).is_none());
    assert!(s.translate(&mem, va(0x3000)).is_some());
    assert_eq!(s.map(&mut mem, va(0x2000), pa(0x9100_0000), 0x1000, rw(), &mut frames), Ok(()));
}

#[test]
fn protect_keeps_the_frame() {
    let (mut mem, mut frames) = memory(16, 8);
    let mut s = AddressSpace::new(&mut mem, &mut frames).unwrap();
    s.map(&mut mem, va(0x1000), pa(0x9000_0000), 0x1000, rw(), &mut frames).unwrap();
    assert_eq!(s.protect(&mut mem, va(0x1000), 0x1000, PteFlags::from_bits(2)), Ok(()));
    assert_eq!(s.translate(&mem, va(0x1000)), Some((pa(0x9000_0000), PteFlags::from_bits(3))));
    assert_eq!(
        s.protect(&mut mem, va(0x1000), 0x2000, PteFlags::from_bits(4)),
        Err(MapError::NotMapped)
    );
    assert_eq!(s.translate(&mem, va(0x1000)), Some((pa(0x9000_0000), PteFlags::from_bits(5))));
}

#[test]
fn unmap_covers_the_pages_that_it_touches() {
    let (mut mem, mut frames) = memory(16, 8);
    let mut s = AddressSpace::new(&mut mem, &mut frames).unwrap();
    s.map(&mut mem, va(0x1000), pa(0x9000_0000), 0x3000, rw(), &mut frames).unwrap();
    s.region_add(0x1000, 0x1000, rw(), RegionKind::Anonymous).unwrap();
    s.region_add(0x2000, 0x1000, rw(), RegionKind::Anonymous).unwrap();
    s.region_add(0x3000, 0x1000, rw(), RegionKind::Anonymous).unwrap();
    s.unmap(&mut mem, va(0x1800), 0x1000);
    assert!(s.translate(&mem, va(0x1000)).is_none());
    assert!(s.translate(&mem, va(0x2000)).is_none());
    assert!(s.translate(&mem, va(0x3000)).is_some());
    assert!(s.region_find(va(0x1000)).is_none() && s.region_find(va(0x2000)).is_none());
    assert_eq!(s.region_find(va(0x3000)).unwrap().start, 0x3000);
    assert_eq!(
        s.protect(&mut mem, va(0x2800), 0x1000, rw()),
        Err(atom::memory::table::MapError::NotMapped)
    );
    assert_eq!(s.protect(&mut mem, va(0x3800), 0x800, rw()), Ok(()));
}

#[test]
fn empty_region_hides_no_other() {
    let (mut mem, mut frames) = memory(16, 8);
    let mut s = AddressSpace::new(&mut mem, &mut frames).unwrap();
    s.region_add(0x1000, 0, rw(), RegionKind::Anonymous).unwrap();
    s.region_add(0x1000, 0x1000, rw(), RegionKind::Anonymous).unwrap();
    assert_eq!(s.region_find(va(0x1000)).unwrap().end, 0x2000);
    assert_eq!(s.region_find(va(0x1FFF)).unwrap().end, 0x2000);
    assert!(s.region_find(va(0x2000)).is_none());
    s.page_fault(&mut mem, va(0x1000), 0x1000, rw(), &mut frames).unwrap();
    assert!(s.translate(&mem, va(0x1000)).is_some());
}

#[test]
fn regions_in_order() {
    let mut rs: Vec<Region> = Vec::new();
    let f = rw();
    assert_eq!(region::add_region(&mut rs, 0x3000, 0x1000, f, RegionKind::Anonymous), Ok(()));
    assert_eq!(region::add_region(&mut rs, 0x1000, 0x1000, f, RegionKind::Reserved), Ok(()));
    assert_eq!(
        region::add_region(&mut rs, 0x1000, 0x3000, f, RegionKind::Anonymous),
        Err(MapError::AlreadyMapped)
    );
    assert_eq!(
        region::add_region(&mut rs, 0x5001, 0x1000, f, RegionKind::Anonymous),
        Err(MapError::NotAligned)
    );
    assert_eq!(rs.iter().map(|r| r.start).collect::<Vec<u64>>(), vec![0x1000, 0x3000]);
    assert_eq!(region::find_region(&rs, va(0x3FFF)).unwrap().kind, RegionKind::Anonymous);
    assert!(region::find_region(&rs, va(0x2000)).is_none());
    assert!(region::find_region(&rs, va(0x10)).is_none());
    region::remove_regions(&mut rs, 0x1800, 0x2000);
    assert_eq!(rs.len(), 1);
}

#[test]
fn page_fault_brings_zeroed_pages() {
    let (mut mem, mut frames) = memory(16, 8);
    let mut s = AddressSpace::new(&mut mem, &mut frames).unwrap();
    assert_eq!(
        s.page_fault(&mut mem, va(0x10000), 0x1000, rw(), &mut frames),
        Err(MapError::NoRegion)
    );
    s.region_add(0x10000, 0x4000, rw(), RegionKind::Anonymous).unwrap();
    assert_eq!(s.region_find(va(0x12345)).unwrap().start, 0x10000);
    assert_eq!(s.page_fault(&mut mem, va(0x10000), 0x2000, rw(), &mut frames), Ok(()));
    let (p, f) = s.translate(&mem, va(0x11000)).unwrap();
    assert_eq!(f.bits(), RW + 1);
    assert_eq!(mem.read_word(p.as_usize()), 0);
    assert_eq!(
        s.page_fault(&mut mem, va(0x10000), 0x1000, rw(), &mut frames),
        Err(MapError::AlreadyMapped)
    );
    assert_eq!(
        s.page_fault(&mut mem, va(0x12008), 0x1000, rw(), &mut frames),
        Err(MapError::NotAligned)
    );
    s.unmap(&mut mem, va(0x10000), 0x1000);
    assert!(s.region_find(va(0x12345)).is_none());
}

#[test]
fn release_gives_every_table_back() {
    let (mut mem, mut frames) = memory(16, 8);
    let mut s = AddressSpace::new(&mut mem, &mut frames).unwrap();
    s.map(&mut mem, va(0x1000), pa(0x9000_0000), 0x1000, rw(), &mut frames).unwrap();
    s.map(&mut mem, va(0x8000_0000), pa(0x9000_0000), 0x1000, rw(), &mut frames).unwrap();
    assert_eq!(left(&mut mem, &mut frames), 3);
    s.release(&mut mem, &mut frames);
    assert_eq!(left(&mut mem, &mut frames), 8);
}

#[test]
fn clone_shares_until_it_writes() {
    let (mut mem, mut frames) = memory(32, 24);
    let mut k = AddressSpace::new(&mut mem, &mut frames).unwrap();
    k.map(&mut mem, va(0x1000), pa(0x9000_0000), 0x1000, rw(), &mut frames).unwrap();
    let before = left(&mut mem, &mut frames);
    let mut c = AddressSpace::from_kernel(&mut mem, Some(&k), &mut frames).unwrap();
    assert_eq!(left(&mut mem, &mut frames), before - 1);
    assert_eq!(c.translate(&mem, va(0x1000)).unwrap().0, pa(0x9000_0000));
    c.map(&mut mem, va(0x2000), pa(0x9100_0000), 0x1000, rw(), &mut frames).unwrap();
    assert_eq!(c.translate(&mem, va(0x2000)).unwrap().0, pa(0x9100_0000));
    assert!(k.translate(&mem, va(0x2000)).is_none());
    assert_eq!(c.translate(&mem, va(0x1000)).unwrap().0, pa(0x9000_0000));
    c.release(&mut mem, &mut frames);
    assert_eq!(left(&mut mem, &mut frames), before);
    assert_eq!(k.translate(&mem, va(0x1000)).unwrap().0, pa(0x9000_0000));
}

#[test]
fn kernel_half_is_taken_over() {
    let (mut mem, mut frames) = memory(32, 24);
    let mut k = AddressSpace::new(&mut mem, &mut frames).unwrap();
    k.map(&mut mem, va(KERNEL_BASE), pa(0x9000_0000), 0x1000, rw(), &mut frames).unwrap();
    let mut s = AddressSpace::new(&mut mem, &mut frames).unwrap();
    s.share_kernel(&mut mem, &k);
    assert_eq!(s.translate(&mem, va(KERNEL_BASE)).unwrap().0, pa(0x9000_0000));
}

#[test]
fn table_walks() {
    let (mut mem, mut frames) = memory(16, 8);
    let t = PageTable::allocate(&mut mem, &mut frames).unwrap();
    assert_eq!(t.walk_ref(&mem, va(0x1000)), Err(MapError::NotMapped));
    assert_eq!(t.find_entry(&mem, va(0x1000)), Err(MapError::NotMapped));
    let slot = t.walk_mut(&mut mem, va(0x1000), &mut frames).unwrap();
    assert_eq!(t.find_entry(&mem, va(0x1000)), Ok(slot));
    assert_eq!(slot % 4096, 8);
    t.map(&mut mem, va(0x1000), pa(0x9000_0000), 0x1000, rw(), &mut frames).unwrap();
    assert_eq!(t.walk_ref(&mem, va(0x1FFF)).unwrap().0, pa(0x9000_0000));
    t.unmap(&mut mem, va(0x1000));
    assert_eq!(t.walk_ref(&mem, va(0x1000)), Err(MapError::NotMapped));
    t.clean(&mut mem, &vec![], &mut frames);
    t.deallocate(&mem, &mut frames);
    assert_eq!(left(&mut mem, &mut frames), 8);
}

#[test]
fn kernel_space_maps_memory_twice() {
    let (mut mem, mut frames) = memory(32, 24);
    let space = kernel::init(&mut mem, &mut frames, BASE, 0x20000).unwrap();
    assert_eq!(space.translate(&mem, va(BASE + 0x1FFFF)).unwrap().0, pa(BASE + 0x1F000));
    assert_eq!(
        space.translate(&mem, va(KERNEL_BASE + BASE)),
        Some((pa(BASE), PteFlags::from_bits(kernel::KERNEL_FLAGS)))
    );
    assert!(space.translate(&mem, va(BASE + 0x20000)).is_none());
    let mut place = KernelSpace::new();
    assert_eq!(
        kernel::map_device(place.kernel_space(), &mut mem, &mut frames, pa(0x1000_0000), 0x100),
        Err(MapError::NotMapped)
    );
    place.replace(space);
    assert_eq!(
        kernel::map_device(place.kernel_space(), &mut mem, &mut frames, pa(0x1000_0000), 0x100),
        Ok(())
    );
    let ks = place.kernel_space().as_ref().unwrap();
    assert_eq!(
        ks.translate(&mem, va(0x1000_0000)),
        Some((pa(0x1000_0000), PteFlags::from_bits(kernel::DEVICE_FLAGS)))
    );
}

#[test]
fn kernel_space_refusals() {
    let (mut mem, mut frames) = memory(32, 24);
    assert!(matches!(
        kernel::init(&mut mem, &mut frames, BASE + 8, 0x1000),
        Err(MapError::NotAligned)
    ));
    assert_eq!(left(&mut mem, &mut frames), 24);
    let (mut mem, mut frames) = memory(32, 4);
    assert!(matches!(
        kernel::init(&mut mem, &mut frames, BASE, 0x1000),
        Err(MapError::OutOfMemory)
    ));
    assert_eq!(left(&mut mem, &mut frames), 4);
}

#[test]
fn kernel_space_takes_the_frames_of_its_tables() {
    for (size, tables) in [(0x2_0000, 5), (0x20_1000, 7)] {
        let (mut mem, mut frames) = memory(16, tables);
        assert!(kernel::init(&mut mem, &mut frames, BASE, size).is_ok());
        assert_eq!(left(&mut mem, &mut frames), 0);
        let (mut mem, mut frames) = memory(16, tables - 1);
        assert!(matches!(
            kernel::init(&mut mem, &mut frames, BASE, size),
            Err(MapError::OutOfMemory)
        ));
        assert_eq!(left(&mut mem, &mut frames), tables as usize - 1);
    }
}

#[test]
fn kernel_space_translates_to_memory_in_both_halves() {
    let (mut mem, mut frames) = memory(16, 8);
    let space = kernel::init(&mut mem, &mut frames, BASE, 0x4000).unwrap();
    for i in 0..4 {
        let there = Some((pa(BASE + 0x1000 * i), PteFlags::from_bits(239)));
        assert_eq!(space.translate(&mem, va(BASE + 0x1000 * i)), there);
        assert_eq!(space.translate(&mem, va(KERNEL_BASE + BASE + 0x1000 * i)), there);
    }
}

#[test]
fn clone_copies_the_kernel_tables_that_it_reaches() {
    let (mut mem, mut frames) = memory(16, 12);
    let space = kernel::init(&mut mem, &mut frames, BASE, 0x4000).unwrap();
    let mut clone = AddressSpace::from_kernel(&mut mem, Some(&space), &mut frames).unwrap();
    assert_eq!(left(&mut mem, &mut frames), 6);
    clone.map(&mut mem, va(BASE + 0x8000), pa(0x9000_0000), 0x1000, rw(), &mut frames).unwrap();
    assert_eq!(left(&mut mem, &mut frames), 4);
    clone.map(&mut mem, va(BASE + 0x20_0000), pa(0x9000_0000), 0x2000, rw(), &mut frames).unwrap();
    assert_eq!(left(&mut mem, &mut frames), 3);
    clone.map(&mut mem, va(0x1000), pa(0x9000_0000), 0x1000, rw(), &mut frames).unwrap();
    assert_eq!(left(&mut mem, &mut frames), 1);
}
