use atom::memory::addr::{PhysAddr, VirtAddr, KERNEL_BASE};
use atom::memory::entry::PteFlags;
use atom::memory::phys::PhysMem;
use atom::mmu::fault;
use atom::mmu::fault::{FaultKind, PageFault};
use atom::mmu::frames::{BootstrapPageAllocator, FramePool, PageFrameAllocator};
use atom::mmu::kernel;
use atom::mmu::kernel::DeviceRange;
use atom::mmu::pt;
use atom::mmu::pte::PageTableEntry;
use atom::mmu::space::AddressSpace;
use atom::mmu::table::{MapError, PageTable};

const BASE: u64 = 0x8000_0000;

fn va(a: u64) -> VirtAddr {
    VirtAddr::from_raw(a)
}

fn pa(a: u64) -> PhysAddr {
    PhysAddr::from_raw(a)
}

fn rw() -> PteFlags {
    PteFlags::from_bits(6)
}

fn memory(pages: usize, n: u64) -> (PhysMem, FramePool) {
    let mem = PhysMem::new(BASE, pages);
    let mut frames = FramePool::new(&mem);
    for i in 0..n {
        frames.free_frame(&mem, pa(BASE + 4096 * (n - 1 - i)));
    }
    (mem, frames)
}

#[test]
fn entries() {
    let mut e = PageTableEntry::new(0x80000, PageTableEntry::V | PageTableEntry::R);
    assert!(e.is_valid() && e.is_leaf());
    assert_eq!((e.ppn(), e.paddr(), e.flags()), (0x80000, 0x8000_0000, 3));
    assert_eq!(e.as_u64(), 0x2000_0003);
    e.set(1, 0x401);
    assert_eq!(e.as_u64(), 0x401);
    assert!(!e.is_leaf());
    e.clear();
    assert!(!e.is_valid());
    assert_eq!(PageTableEntry::empty().as_u64(), 0);
    assert_eq!(PageTableEntry::default().as_u64(), 0);
}

#[test]
fn entries_in_words() {
    assert_eq!(PageTableEntry::empty().describe(), b"PTE(invalid)");
    assert_eq!(
        PageTableEntry::new(0x80000, 0xFF).describe(),
        b"PTE(0x200000ff, ppn=0x80000, flags=RWXUGAD)".to_vec()
    );
    assert_eq!(
        PageTableEntry::new(2, PageTableEntry::V | PageTableEntry::W | PageTableEntry::D).describe(),
        b"PTE(0x885, ppn=0x2, flags=WD)".to_vec()
    );
}

#[test]
fn boot_pool_hands_out_sixteen_frames_once() {
    let mut mem = PhysMem::new(BASE, 20);
    let mut boot = BootstrapPageAllocator::new(BASE, &mem);
    mem.write_word(BASE, 7);
    for i in 0..16 {
        assert_eq!(boot.alloc_frame(&mut mem), Some(pa(BASE + 4096 * i)));
    }
    assert_eq!(mem.read_word(BASE), 0);
    boot.free_frame(&mem, pa(BASE));
    assert_eq!(boot.alloc_frame(&mut mem), None);
}

#[test]
fn frame_pool_reuses() {
    let (mut mem, mut frames) = memory(4, 1);
    let f = frames.alloc_frame(&mut mem).unwrap();
    assert_eq!(frames.alloc_frame(&mut mem), None);
    frames.free_frame(&mem, f);
    assert_eq!(frames.alloc_frame(&mut mem), Some(f));
}

#[test]
fn unchecked_mapping_replaces() {
    let (mut mem, mut frames) = memory(16, 8);
    let t = pt::PageTable::new(&mut mem, BASE + 4096 * 10);
    assert_eq!(pt::vpn(1, 0x2030_1000), 257);
    assert!(t.walk(&mem, 0x1000).is_none());
    t.map_page(&mut mem, 0x1000, 0x9000_0000, 2, &mut frames);
    assert_eq!(t.walk(&mem, 0x1000).unwrap().as_u64(), 0x2400_0003);
    t.map_page(&mut mem, 0x1000, 0x9000_1000, 6, &mut frames);
    assert_eq!(t.walk(&mem, 0x1000).unwrap().as_u64(), 0x2400_0407);
    t.map_region(&mut mem, 0x2000, 0x9100_0000, 0x1001, 2, &mut frames);
    assert_eq!(t.walk(&mem, 0x3000).unwrap().paddr(), 0x9100_1000);
    t.unmap(&mut mem, 0x2000);
    assert!(!t.walk(&mem, 0x2000).unwrap().is_valid());
    t.unmap(&mut mem, 0x8000_0000);
}

#[test]
fn checked_mapping() {
    let (mut mem, mut frames) = memory(16, 8);
    let t = PageTable::new(&mut mem, pa(BASE + 4096 * 10));
    assert_eq!(
        t.map_page(&mut mem, va(0x1008), pa(0x9000_0000), rw(), &mut frames),
        Err(MapError::NotAligned)
    );
    assert_eq!(t.map_page(&mut mem, va(0x1000), pa(0x9000_0000), rw(), &mut frames), Ok(()));
    assert_eq!(
        t.map_page(&mut mem, va(0x1000), pa(0x9000_0000), rw(), &mut frames),
        Err(MapError::AlreadyMapped(va(0x1000)))
    );
    assert_eq!(t.walk(&mem, va(0x1ABC)), Some((pa(0x9000_0000), PteFlags::from_bits(7))));
    assert_eq!(t.get_entry(&mem, va(0x1000)).unwrap().as_u64(), 0x2400_0007);
    assert_eq!(
        t.map_region(&mut mem, va(0), pa(0x9100_0000), 0x2000, rw(), &mut frames),
        Err(MapError::AlreadyMapped(va(0x1000)))
    );
    assert_eq!(t.walk(&mem, va(0)).unwrap().0, pa(0x9100_0000));
    t.unmap(&mut mem, va(0));
    assert_eq!(t.walk(&mem, va(0)), None);
    assert!(t.walk_mut(&mut mem, va(0x8000_0000), &mut frames).is_ok());
    t.destroy_children(&mut mem, &mut frames);
    assert_eq!(t.walk(&mem, va(0x1000)), None);
}

#[test]
fn mapping_without_frames() {
    let (mut mem, mut frames) = memory(16, 1);
    let t = PageTable::new(&mut mem, pa(BASE + 4096 * 10));
    assert_eq!(
        t.map_page(&mut mem, va(0x1000), pa(0x9000_0000), rw(), &mut frames),
        Err(MapError::OutOfMemory)
    );
    let (mut mem, mut frames) = memory(16, 0);
    assert!(matches!(AddressSpace::new(&mut mem, &mut frames), Err(MapError::OutOfMemory)));
}

#[test]
fn space_operations() {
    let (mut mem, mut frames) = memory(32, 20);
    let s = AddressSpace::new(&mut mem, &mut frames).unwrap();
    assert_eq!(s.root_ppn(), BASE / 4096);
    assert_eq!(s.map(&mut mem, va(0x1000), pa(0x9000_0000), 0x2000, rw(), &mut frames), Ok(()));
    assert_eq!(s.protect(&mut mem, va(0x1000), 0x5000, PteFlags::from_bits(2)), Ok(()));
    assert_eq!(s.translate(&mem, va(0x2000)), Some((pa(0x9000_1000), PteFlags::from_bits(3))));
    assert_eq!(s.translate(&mem, va(0x3000)), None);
    s.unmap(&mut mem, va(0x1000), 0x1000);
    assert_eq!(s.translate(&mem, va(0x1000)), None);
    s.destroy(&mut mem, &mut frames);
    let mut n = 0;
    while frames.alloc_frame(&mut mem).is_some() {
        n += 1;
    }
    assert_eq!(n, 20);
}

#[test]
fn user_space_shares_the_kernel_half() {
    let (mut mem, mut frames) = memory(64, 40);
    let devices = vec![
        DeviceRange { base: 0x1000_0000, size: 0 },
        DeviceRange { base: 0x0C00_0000, size: 0x2000 },
    ];
    let k = kernel::init(&mut mem, &mut frames, BASE, 0x40000, &devices).unwrap();
    assert_eq!(
        k.translate(&mem, va(BASE + 0x3F000)),
        Some((pa(BASE + 0x3F000), PteFlags::from_bits(kernel::RAM_FLAGS)))
    );
    assert_eq!(
        k.translate(&mem, va(0x1000_0000)),
        Some((pa(0x1000_0000), PteFlags::from_bits(kernel::DEV_FLAGS)))
    );
    assert_eq!(k.translate(&mem, va(0x0C00_1000)).unwrap().0, pa(0x0C00_1000));
    assert_eq!(k.translate(&mem, va(KERNEL_BASE + BASE)).unwrap().0, pa(BASE));
    let u = kernel::new_user_space(Some(&k), &mut mem, &mut frames).unwrap();
    assert_eq!(u.translate(&mem, va(KERNEL_BASE + BASE)).unwrap().0, pa(BASE));
    assert_eq!(u.translate(&mem, va(BASE)), None);
    let e = kernel::new_user_space(None, &mut mem, &mut frames).unwrap();
    assert_eq!(e.translate(&mem, va(KERNEL_BASE + BASE)), None);
    assert_eq!(
        kernel::map_device(Some(&k), &mut mem, &mut frames, 0x1000_1000, 0x1000),
        Ok(())
    );
    assert_eq!(k.translate(&mem, va(0x1000_1000)).unwrap().0, pa(0x1000_1000));
    assert_eq!(kernel::map_device(None, &mut mem, &mut frames, 0x1000_2000, 0x1000), Ok(()));
}

#[test]
fn page_faults() {
    let (mut mem, mut frames) = memory(16, 8);
    let s = AddressSpace::new(&mut mem, &mut frames).unwrap();
    s.map(&mut mem, va(0x1000), pa(0x9000_0000), 0x1000, rw(), &mut frames).unwrap();
    let f = PageFault::capture(13, 0x1234, 0x4000);
    assert_eq!(f, PageFault { addr: va(0x1234), pc: 0x4000, kind: FaultKind::Load });
    assert!(fault::handle_page_fault(&f, &s, &mem));
    // The page can be read and written, but not executed.
    assert!(fault::handle_page_fault(&PageFault::capture(15, 0x1234, 0), &s, &mem));
    assert!(!fault::handle_page_fault(&PageFault::capture(12, 0x1234, 0), &s, &mem));
    s.protect(&mut mem, va(0x1000), 0x1000, PteFlags::from_bits(2)).unwrap();
    assert!(fault::handle_page_fault(&f, &s, &mem));
    assert!(!fault::handle_page_fault(&PageFault::capture(15, 0x1234, 0), &s, &mem));
    let g = PageFault::capture(15, 0x40_0000_0000, 0);
    assert_eq!(g.addr, va(0xFFFF_FFC0_0000_0000));
    assert_eq!(g.kind, FaultKind::Store);
    assert!(!fault::handle_page_fault(&g, &s, &mem));
    assert_eq!(PageFault::capture(12, 0, 0).kind, FaultKind::Instruction);
}

#[test]
fn ranges_cover_the_pages_that_they_touch() {
    let (mut mem, mut frames) = memory(16, 8);
    let s = AddressSpace::new(&mut mem, &mut frames).unwrap();
    s.map(&mut mem, va(0x1000), pa(0x9000_0000), 0x3000, rw(), &mut frames).unwrap();
    s.protect(&mut mem, va(0x1800), 0x1000, PteFlags::from_bits(2)).unwrap();
    let flags = |a: u64| s.translate(&mem, va(a)).unwrap().1.bits();
    assert_eq!((flags(0x1000), flags(0x2000), flags(0x3000)), (3, 3, 7));
    s.unmap(&mut mem, va(0x1800), 0);
    assert!(s.translate(&mem, va(0x1000)).is_some());
    s.unmap(&mut mem, va(0x1800), 0x1000);
    assert!(s.translate(&mem, va(0x1000)).is_none() && s.translate(&mem, va(0x2000)).is_none());
    assert!(s.translate(&mem, va(0x3000)).is_some());
}

#[test]
fn first_kernel_space_takes_the_frames_of_its_tables() {
    let devices = vec![
        DeviceRange { base: 0x1000_0000, size: 0x100 },
        DeviceRange { base: 0x1000_1000, size: 0 },
    ];
    let (mut mem, mut frames) = memory(64, 7);
    assert!(kernel::init(&mut mem, &mut frames, BASE, 0x40000, &devices).is_ok());
    assert!(frames.alloc_frame(&mut mem).is_none());
    let (mut mem, mut frames) = memory(64, 6);
    assert!(matches!(
        kernel::init(&mut mem, &mut frames, BASE, 0x40000, &devices),
        Err(MapError::OutOfMemory)
    ));
    assert!(frames.alloc_frame(&mut mem).is_none());
}

#[test]
fn kernel_space_refuses_overlapping_devices() {
    let devices = vec![
        DeviceRange { base: 0x1000_0000, size: 0x2000 },
        DeviceRange { base: 0x1000_1000, size: 0x1000 },
    ];
    let (mut mem, mut frames) = memory(64, 20);
    assert!(matches!(
        kernel::init(&mut mem, &mut frames, BASE, 0x40000, &devices),
        Err(MapError::AlreadyMapped(a)) if a == va(0x1000_1000)
    ));
    let devices = vec![DeviceRange { base: 0x1000_0008, size: 0x1000 }];
    let (mut mem, mut frames) = memory(64, 20);
    assert!(matches!(
        kernel::init(&mut mem, &mut frames, BASE, 0x40000, &devices),
        Err(MapError::NotAligned)
    ));
}

#[test]
fn unchecked_region_takes_the_frames_of_its_tables() {
    let (mut mem, mut frames) = memory(16, 3);
    let t = pt::PageTable::new(&mut mem, BASE + 4096 * 10);
    t.map_region(&mut mem, 0x1F_F000, 0x9000_0000, 0x2000, 2, &mut frames);
    assert!(frames.alloc_frame(&mut mem).is_none());
    assert_eq!(t.walk(&mem, 0x20_0000).unwrap().paddr(), 0x9000_1000);
}
