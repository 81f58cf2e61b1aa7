use atom::memory::addr::PhysAddr;
use atom::memory::block::allocator::{AllocError, Block, BlockAllocator, BlockAllocators};
use atom::memory::block::shape;
use atom::memory::phys::PhysMem;
use atom::mmu::frames::{FramePool, PageFrameAllocator};

const BASE: u64 = 0x8000_0000;

/// Memory of eight pages, and a pool with the first `n` of them.
fn memory(n: u64) -> (PhysMem, FramePool) {
    let mem = PhysMem::new(BASE, 8);
    let mut frames = FramePool::new(&mem);
    for i in 0..n {
        frames.free_frame(&mem, PhysAddr::from_raw(BASE + 4096 * (n - 1 - i)));
    }
    (mem, frames)
}

fn ready() -> BlockAllocator {
    let mut a = BlockAllocator::new();
    a.init();
    a
}

#[test]
fn block_powers() {
    for (size, power) in [(0, 3), (1, 3), (8, 3), (9, 4), (100, 7), (2048, 11), (2049, 12), (4096, 12), (9000, 12)] {
        assert_eq!(shape::block_power(size), power, "size {}", size);
    }
    assert_eq!(shape::block_bytes(3), 8);
    assert_eq!(shape::block_bytes(12), 4096);
}

#[test]
fn first_block_is_behind_the_count() {
    let (mut mem, mut frames) = memory(2);
    let mut a = ready();
    assert_eq!(a.allocate(&mut mem, &mut frames, 16, 8), Ok(Block { addr: BASE + 8, size: 16 }));
    assert_eq!(mem.read_word(BASE), 1);
    assert_eq!(a.allocate(&mut mem, &mut frames, 16, 8), Ok(Block { addr: BASE + 24, size: 16 }));
    assert_eq!(mem.read_word(BASE), 2);
}

#[test]
fn whole_page_has_no_count() {
    let (mut mem, mut frames) = memory(1);
    let mut a = ready();
    assert_eq!(a.allocate(&mut mem, &mut frames, 4000, 8), Ok(Block { addr: BASE, size: 4096 }));
    assert_eq!(a.allocate(&mut mem, &mut frames, 4000, 8), Err(AllocError));
    a.deallocate(&mut mem, &mut frames, BASE, 4000, 8);
    assert_eq!(a.allocate(&mut mem, &mut frames, 4096, 4096), Ok(Block { addr: BASE, size: 4096 }));
}

#[test]
fn freed_block_comes_back_first() {
    let (mut mem, mut frames) = memory(1);
    let mut a = ready();
    let x = a.allocate(&mut mem, &mut frames, 64, 8).unwrap();
    let y = a.allocate(&mut mem, &mut frames, 64, 8).unwrap();
    let z = a.allocate(&mut mem, &mut frames, 64, 8).unwrap();
    a.deallocate(&mut mem, &mut frames, y.addr, 64, 8);
    assert_eq!(a.allocate(&mut mem, &mut frames, 64, 8), Ok(y));
    assert_eq!((x.addr, z.addr), (BASE + 8, BASE + 136));
}

#[test]
fn page_returned_with_its_last_block() {
    let (mut mem, mut frames) = memory(1);
    let mut a = ready();
    let x = a.allocate(&mut mem, &mut frames, 32, 8).unwrap();
    let y = a.allocate(&mut mem, &mut frames, 32, 8).unwrap();
    a.deallocate(&mut mem, &mut frames, x.addr, 32, 8);
    assert!(frames.alloc_frame(&mut mem).is_none());
    a.deallocate(&mut mem, &mut frames, y.addr, 32, 8);
    // The only frame is free again, so another size can have it.
    assert_eq!(a.allocate(&mut mem, &mut frames, 512, 8), Ok(Block { addr: BASE + 8, size: 512 }));
}

#[test]
fn blocks_of_other_pages_stay_listed() {
    let (mut mem, mut frames) = memory(2);
    let mut a = ready();
    // Three blocks fill a page of this size.
    let mut blocks = Vec::new();
    for _ in 0..5 {
        blocks.push(a.allocate(&mut mem, &mut frames, 1024, 8).unwrap().addr);
    }
    assert_eq!(blocks, vec![BASE + 8, BASE + 1032, BASE + 2056, BASE + 4104, BASE + 5128]);
    a.deallocate(&mut mem, &mut frames, blocks[0], 1024, 8);
    a.deallocate(&mut mem, &mut frames, blocks[3], 1024, 8);
    // The second page goes back, the free block of the first page stays.
    a.deallocate(&mut mem, &mut frames, blocks[4], 1024, 8);
    assert_eq!(a.allocate(&mut mem, &mut frames, 1024, 8), Ok(Block { addr: BASE + 8, size: 1024 }));
    assert_eq!(frames.alloc_frame(&mut mem), Some(PhysAddr::from_raw(BASE + 4096)));
}

#[test]
fn contents_of_other_blocks_stay() {
    let (mut mem, mut frames) = memory(1);
    let mut a = ready();
    let x = a.allocate(&mut mem, &mut frames, 16, 8).unwrap();
    mem.write_word(x.addr, 11);
    mem.write_word(x.addr + 8, 22);
    let y = a.allocate(&mut mem, &mut frames, 16, 8).unwrap();
    a.deallocate(&mut mem, &mut frames, y.addr, 16, 8);
    let _ = a.allocate(&mut mem, &mut frames, 16, 8).unwrap();
    assert_eq!((mem.read_word(x.addr), mem.read_word(x.addr + 8)), (11, 22));
}

#[test]
fn blocks_fit_size_and_alignment() {
    let (mut mem, mut frames) = memory(8);
    let mut a = ready();
    for (size, align) in [(1, 1), (3, 2), (24, 8), (16, 16), (40, 32), (600, 512), (4096, 4096)] {
        let b = a.allocate(&mut mem, &mut frames, size, align).unwrap();
        assert!(b.size >= size && b.addr % align == 0, "{} {}", size, align);
    }
    assert_eq!(a.allocate(&mut mem, &mut frames, 5000, 8), Err(AllocError));
    assert_eq!(a.allocate(&mut mem, &mut frames, 64, 3), Err(AllocError));
    assert_eq!(a.allocate(&mut mem, &mut frames, 64, 0), Err(AllocError));
    assert_eq!(a.allocate(&mut mem, &mut frames, 4096, 8192), Err(AllocError));
    assert_eq!((shape::layout_power(16, 8), shape::layout_power(16, 16)), (Some(4), Some(12)));
}

#[test]
fn aligned_block_returns_its_page() {
    let (mut mem, mut frames) = memory(1);
    let mut a = ready();
    let b = a.allocate(&mut mem, &mut frames, 64, 64).unwrap();
    assert_eq!(b, Block { addr: BASE, size: 4096 });
    a.deallocate(&mut mem, &mut frames, b.addr, 64, 64);
    assert_eq!(frames.alloc_frame(&mut mem), Some(PhysAddr::from_raw(BASE)));
}

#[test]
fn refused_requests() {
    let (mut mem, mut frames) = memory(0);
    let mut a = BlockAllocator::new();
    assert_eq!(a.allocate(&mut mem, &mut frames, 8, 8), Err(AllocError));
    a.deallocate(&mut mem, &mut frames, BASE, 8, 8);
    a.init();
    assert_eq!(a.allocate(&mut mem, &mut frames, 8, 16), Err(AllocError));
    assert_eq!(a.allocate(&mut mem, &mut frames, 8, 8), Err(AllocError));
}

#[test]
fn allocators_per_processor() {
    let (mut mem, mut frames) = memory(2);
    let mut all = BlockAllocators::empty();
    assert!(all.init(2));
    assert!(!all.init(5));
    let x = all.allocator(0).allocate(&mut mem, &mut frames, 8, 8).unwrap();
    let y = all.allocator(1).allocate(&mut mem, &mut frames, 8, 8).unwrap();
    let z = all.allocator(7).allocate(&mut mem, &mut frames, 8, 8).unwrap();
    assert_eq!((x.addr, y.addr, z.addr), (BASE + 8, BASE + 4104, BASE + 4112));
}
