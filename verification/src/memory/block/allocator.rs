//! The block allocator of a processor, and the allocators of all processors.
use vstd::prelude::*;
use crate::memory::addr::PhysAddr;
use crate::memory::block::list;
use crate::memory::block::pool;
use crate::memory::block::pool::Pools;
use crate::memory::block::shape;
use crate::memory::block::shape::MAX_POWER;
use crate::memory::phys;
use crate::memory::phys::{PhysMem, PAGE_SIZE};
use crate::mmu::frames::PageFrameAllocator;

verus! {

/// No block could be handed out.
#[derive(Clone, Copy, PartialEq, Eq, Structural, Debug)]
pub struct AllocError;

/// A block: its address and its size.
#[derive(Clone, Copy, PartialEq, Eq, Structural, Debug)]
pub struct Block {
    pub addr: u64,
    pub size: u64,
}

/// The block allocator of a processor.
pub struct BlockAllocator {
    /// The first free block of every power, or zero; empty before the allocator is set up.
    freepool: Vec<u64>,
    state: Ghost<Pools>,
}

impl BlockAllocator {
    /// The allocator was set up.
    pub closed spec fn ready(&self) -> bool {
        self.freepool@.len() != 0
    }

    /// The free blocks and the pages.
    pub closed spec fn pools(&self) -> Pools {
        self.state@
    }

    /// The blocks in use and their sizes.
    pub open spec fn live(&self) -> Map<int, int> {
        pool::live(self.pools())
    }

    /// The pages that are cut into blocks.
    pub open spec fn pages(&self) -> Set<int> {
        self.pools().pages.dom()
    }

    /// The allocator agrees with the memory, and its pages are not among the free frames.
    pub closed spec fn wf(&self, m: Map<int, u64>, free: Set<int>) -> bool {
        &&& pool::pools_ok(self.state@, m, free)
        &&& if self.ready() {
            &&& self.freepool@.len() == MAX_POWER + 1
            &&& forall|p: int|
                shape::is_power(p) ==> #[trigger] self.freepool@[p] == list::head_of(
                    self.state@.lists[p],
                )
        } else {
            self.state@ == pool::no_pools()
        }
    }

    /// What agreement with the memory says of the blocks and pages.
    pub proof fn lemma_wf(&self, m: Map<int, u64>, free: Set<int>)
        requires
            self.wf(m, free),
        ensures
            pool::pools_ok(self.pools(), m, free),
            !self.ready() ==> self.pools() == pool::no_pools(),
    {
    }

    /// A change of memory and free frames that leaves the pages of the allocator alone leaves the
    /// allocator in order. So the allocators of the processors do not disturb each other.
    pub proof fn law_unaffected(
        &self,
        m: Map<int, u64>,
        free: Set<int>,
        m2: Map<int, u64>,
        free2: Set<int>,
        touched: Set<int>,
    )
        requires
            self.wf(m, free),
            phys::same_outside(m, m2, touched),
            touched.disjoint(self.pages()),
            free2.disjoint(self.pages()),
        ensures
            self.wf(m2, free2),
    {
        let s = self.state@;
        assert forall|a: int| a % 8 == 0 && s.pages.contains_key(shape::page_of(a)) implies #[trigger] m2[a]
            == m[a] by {
            let f = shape::page_of(a);
            let i = (a % 4096) / 8;
            assert(a == f + 8 * i);
            assert(s.pages.dom().contains(f));
            assert(m2[f + 8 * i] == m[f + 8 * i]);
        }
        assert forall|p: int| shape::is_power(p) implies #[trigger] pool::list_ok(s, m2, p) by {
            assert(pool::list_ok(s, m, p));
            assert forall|a: int| #[trigger] s.lists[p].contains(a) implies m2[a] == m[a] by {
                pool::lemma_listed(s, m, free, p, a);
                shape::lemma_block_fits(p, a);
            }
            list::lemma_linked_same(m, m2, s.lists[p]);
        }
        assert forall|f: int| #[trigger] s.pages.contains_key(f) implies pool::page_ok(
            s,
            m2,
            free2,
            f,
        ) by {
            assert(pool::page_ok(s, m, free, f));
            assert(s.pages.dom().contains(f));
            assert(shape::page_of(f) == f);
            assert(m2[f] == m[f]);
        }
    }

    /// An allocator that is not set up.
    pub fn new() -> (r: BlockAllocator)
        ensures
            !r.ready(),
            r.pools() == pool::no_pools(),
            forall|m: Map<int, u64>, free: Set<int>| #[trigger] r.wf(m, free),
    {
        let r = BlockAllocator { freepool: Vec::new(), state: Ghost(pool::no_pools()) };
        proof {
            assert forall|m: Map<int, u64>, free: Set<int>| #[trigger] r.wf(m, free) by {
                lemma_no_pools(m, free);
            }
        }
        r
    }

    /// Sets the allocator up, without blocks.
    pub fn init(&mut self)
        ensures
            final(self).ready(),
            final(self).pools() == pool::no_pools(),
            forall|m: Map<int, u64>, free: Set<int>| #[trigger] final(self).wf(m, free),
    {
        let mut heads: Vec<u64> = Vec::new();
        while heads.len() < MAX_POWER + 1
            invariant
                heads@.len() <= 13,
                forall|p: int| 0 <= p < heads@.len() ==> #[trigger] heads@[p] == 0,
            decreases 13 - heads@.len(),
        {
            heads.push(0);
        }
        self.freepool = heads;
        self.state = Ghost(pool::no_pools());
        proof {
            assert forall|m: Map<int, u64>, free: Set<int>| #[trigger] self.wf(m, free) by {
                lemma_no_pools(m, free);
            }
        }
    }

    /// Counts one more block of the page in use.
    fn increase_used(&self, mem: &mut PhysMem, block: u64, power: usize)
        requires
            old(mem).wf(),
            power < MAX_POWER,
            old(mem)@.contains_key(shape::page_of(block as int)),
            old(mem)@[shape::page_of(block as int)] < u64::MAX,
        ensures
            final(mem).wf(),
            final(mem).start() == old(mem).start(),
            final(mem).end() == old(mem).end(),
            final(mem)@ == old(mem)@.insert(
                shape::page_of(block as int),
                (old(mem)@[shape::page_of(block as int)] + 1) as u64,
            ),
    {
        let base: u64 = block - block % PAGE_SIZE;
        let used: u64 = mem.read_word(base);
        mem.write_word(base, used + 1);
    }

    /// Takes a page from the frame allocator and cuts it into blocks; the first of them.
    fn refill<A: PageFrameAllocator>(
        &mut self,
        mem: &mut PhysMem,
        frames: &mut A,
        power: usize,
    ) -> (r: Result<Block, AllocError>)
        requires
            old(mem).wf(),
            old(frames).ready(old(mem)@.dom()),
            old(self).wf(old(mem)@, old(frames).free()),
            old(self).ready(),
            shape::is_power(power as int),
            old(self).pools().lists[power as int].len() == 0,
        ensures
            final(mem).wf(),
            final(mem).start() == old(mem).start(),
            final(mem).end() == old(mem).end(),
            final(mem)@.dom() == old(mem)@.dom(),
            final(frames).ready(final(mem)@.dom()),
            final(frames).recycles() == old(frames).recycles(),
            final(self).wf(final(mem)@, final(frames).free()),
            final(self).ready(),
            match r {
                Ok(block) => {
                    let page = shape::page_of(block.addr as int);
                    &&& old(frames).free().contains(page)
                    &&& final(frames).free() == old(frames).free().remove(page)
                    &&& block.addr == shape::block_at(page, power as int, 0)
                    &&& block.size == shape::block_size(power as int)
                    &&& final(self).pools() == pool::filled(old(self).pools(), power as int, page)
                    &&& !old(self).live().contains_key(block.addr as int)
                    &&& final(self).live() == old(self).live().insert(
                        block.addr as int,
                        block.size as int,
                    )
                    &&& pool::contents_kept(
                        old(self).pools(),
                        old(mem)@,
                        final(mem)@,
                        block.addr as int,
                    )
                    &&& phys::same_outside(old(mem)@, final(mem)@, set![page])
                },
                Err(_) => {
                    &&& old(frames).free() == Set::<int>::empty()
                    &&& final(frames).free() == old(frames).free()
                    &&& final(mem)@ == old(mem)@
                    &&& final(self).pools() == old(self).pools()
                },
            },
    {
        let size: u64 = shape::block_bytes(power);
        let ghost m0 = mem@;
        let ghost free = frames.free();
        let ghost s = self.state@;
        proof {
            frames.lemma_free(mem@);
            shape::lemma_blocks_in(power as int);
        }
        let base: u64 = match frames.alloc_frame(mem) {
            None => {
                return Err(AllocError);
            },
            Some(pa) => pa.as_usize(),
        };
        proof {
            assert(free.contains(base as int));
            assert(phys::has_frame(m0, base as int));
        }
        let ghost m1 = mem@;
        let first: u64 = if power < MAX_POWER {
            assert(mem@.dom().contains(base + 8 * 0));
            mem.write_word(base, 1);
            base + 8
        } else {
            base
        };
        let ghost m2 = mem@;
        let n: u64 = (base + PAGE_SIZE - first) / size;
        proof {
            assert(m2.dom() =~= m0.dom());
            assert(n == shape::blocks_in(power as int));
            assert(n * size == shape::blocks_in(power as int) * shape::block_size(power as int));
            assert forall|k: int| 0 <= k < n implies mem@.contains_key(
                #[trigger] list::nth(first as int, size as int, k),
            ) by {
                pool::lemma_block_in_memory(m0, base as int, power as int, k);
            }
        }
        list::link_blocks(mem, first, n, size);
        proof {
            let p = power as int;
            let page = base as int;
            assert forall|k: int| 0 <= k < shape::blocks_in(p) implies mem@[#[trigger] shape::block_at(
                page,
                p,
                k,
            )] == (if k + 1 < shape::blocks_in(p) {
                shape::block_at(page, p, k + 1)
            } else {
                0
            }) by {
                assert(shape::block_at(page, p, k) == list::nth(first as int, size as int, k));
                assert(shape::block_at(page, p, k + 1) == list::nth(
                    first as int,
                    size as int,
                    k + 1,
                ));
            }
            assert forall|a: int| shape::page_of(a) != page implies #[trigger] mem@[a] == m1[a] by {
                assert forall|k: int| 0 <= k < n implies a != #[trigger] list::nth(
                    first as int,
                    size as int,
                    k,
                ) by {
                    shape::lemma_block_at(page, p, k);
                }
                assert(mem@[a] == m2[a]);
            }
            if power < MAX_POWER {
                assert forall|k: int| 0 <= k < n implies page != #[trigger] list::nth(
                    first as int,
                    size as int,
                    k,
                ) by {
                    shape::lemma_block_at(page, p, k);
                    shape::lemma_block_fits(p, shape::block_at(page, p, k));
                }
                assert(mem@[page] == 1);
            }
            assert forall|f: int, i: int|
                #![trigger mem@[f + 8 * i]]
                f % 4096 == 0 && 0 <= i < 512 && !set![page].contains(f) implies mem@[f + 8 * i]
                == m0[f + 8 * i] by {
                assert((f + 8 * i) % 4096 == 8 * i);
                assert(shape::page_of(f + 8 * i) == f);
                assert(m1[f + 8 * i] == m0[f + 8 * i]);
            }
            assert(phys::same_outside(m0, mem@, set![page]));
            pool::lemma_filled(s, m0, free, p, page, mem@);
            pool::lemma_block_in_memory(mem@, page, p, 0);
            shape::lemma_block_at(page, p, 0);
            assert(shape::block_at(page, p, 0) == first);
        }
        let next: u64 = mem.read_word(first);
        self.freepool[power] = next;
        self.state = Ghost(pool::filled(s, power as int, base as int));
        Ok(Block { addr: first, size })
    }

    /// Hands out a block of at least `size` bytes whose address is a multiple of `align`.
    ///
    /// It fails if no block is that large or aligned like that, or if there is neither a free block
    /// nor a free frame. The contents of the blocks in use stay as they are.
    pub fn allocate<A: PageFrameAllocator>(
        &mut self,
        mem: &mut PhysMem,
        frames: &mut A,
        size: u64,
        align: u64,
    ) -> (r: Result<Block, AllocError>)
        requires
            old(mem).wf(),
            old(frames).ready(old(mem)@.dom()),
            old(self).wf(old(mem)@, old(frames).free()),
        ensures
            final(mem).wf(),
            final(mem).start() == old(mem).start(),
            final(mem).end() == old(mem).end(),
            final(mem)@.dom() == old(mem)@.dom(),
            final(frames).ready(final(mem)@.dom()),
            final(frames).recycles() == old(frames).recycles(),
            final(self).wf(final(mem)@, final(frames).free()),
            final(self).ready() == old(self).ready(),
            ({
                let power = shape::power_of(size as int, align as int);
                let list = old(self).pools().lists[power];
                match r {
                    Ok(block) => {
                        let page = shape::page_of(block.addr as int);
                        &&& old(self).ready()
                        &&& shape::servable(size as int, align as int)
                        &&& size <= block.size
                        &&& block.addr as int % align as int == 0
                        &&& block.size == shape::block_size(power)
                        &&& !old(self).live().contains_key(block.addr as int)
                        &&& final(self).live() == old(self).live().insert(
                            block.addr as int,
                            block.size as int,
                        )
                        &&& if list.len() > 0 {
                            &&& block.addr == list[0]
                            &&& final(self).pools() == pool::taken(old(self).pools(), power)
                            &&& final(frames).free() == old(frames).free()
                        } else {
                            &&& old(frames).free().contains(page)
                            &&& block.addr == shape::block_at(page, power, 0)
                            &&& final(self).pools() == pool::filled(
                                old(self).pools(),
                                power,
                                page,
                            )
                            &&& final(frames).free() == old(frames).free().remove(page)
                        }
                        &&& pool::contents_kept(
                            old(self).pools(),
                            old(mem)@,
                            final(mem)@,
                            block.addr as int,
                        )
                        &&& phys::same_outside(old(mem)@, final(mem)@, set![page])
                    },
                    Err(_) => {
                        &&& !old(self).ready() || !shape::servable(size as int, align as int)
                            || list.len() == 0 && old(frames).free() == Set::<int>::empty()
                        &&& final(mem)@ == old(mem)@
                        &&& final(frames).free() == old(frames).free()
                        &&& final(self).pools() == old(self).pools()
                    },
                }
            }),
    {
        let power: usize = match shape::layout_power(size, align) {
            Some(p) => p,
            None => {
                return Err(AllocError);
            },
        };
        let block_size: u64 = shape::block_bytes(power);
        if self.freepool.len() == 0 {
            return Err(AllocError);
        }
        let ghost s = self.state@;
        let ghost m0 = mem@;
        let ghost free = frames.free();
        let ghost p = power as int;
        let head: u64 = self.freepool[power];
        proof {
            assert(pool::list_ok(s, m0, p));
            if s.lists[p].len() > 0 {
                assert(list::node(m0, s.lists[p], 0));
                pool::lemma_taken(s, m0, free, p);
                pool::lemma_listed(s, m0, free, p, s.lists[p][0]);
                shape::lemma_block_serves(size as int, align as int, s.lists[p][0]);
            }
        }
        if head != 0 {
            let next: u64 = mem.read_word(head);
            self.freepool[power] = next;
            self.increase_used(mem, head, power);
            self.state = Ghost(pool::taken(s, p));
            proof {
                let page = shape::page_of(head as int);
                assert(mem@.dom() =~= m0.dom());
                assert forall|f: int, i: int|
                    #![trigger mem@[f + 8 * i]]
                    f % 4096 == 0 && 0 <= i < 512 && !set![page].contains(f) implies mem@[f + 8 * i]
                    == m0[f + 8 * i] by {
                    assert((f + 8 * i) % 4096 == 8 * i);
                }
            }
            return Ok(Block { addr: head, size: block_size });
        }
        let r: Result<Block, AllocError> = self.refill(mem, frames, power);
        proof {
            if let Ok(block) = r {
                let page = shape::page_of(block.addr as int);
                shape::lemma_blocks_in(p);
                shape::lemma_block_at(page, p, 0);
                shape::lemma_block_serves(size as int, align as int, block.addr as int);
            }
        }
        r
    }

    /// Takes back a block that was handed out for `size` bytes at a multiple of `align`, and returns its page if no other block of it is in use.
    ///
    /// The contents of the other blocks in use stay as they are.
    pub fn deallocate<A: PageFrameAllocator>(
        &mut self,
        mem: &mut PhysMem,
        frames: &mut A,
        addr: u64,
        size: u64,
        align: u64,
    )
        requires
            old(mem).wf(),
            old(frames).ready(old(mem)@.dom()),
            old(self).wf(old(mem)@, old(frames).free()),
            old(self).ready() ==> old(self).live().contains_key(addr as int) && old(
                self,
            ).live()[addr as int] == shape::block_size(
                shape::power_of(size as int, align as int),
            ) && shape::servable(size as int, align as int),
        ensures
            final(mem).wf(),
            final(mem).start() == old(mem).start(),
            final(mem).end() == old(mem).end(),
            final(mem)@.dom() == old(mem)@.dom(),
            final(frames).ready(final(mem)@.dom()),
            final(frames).recycles() == old(frames).recycles(),
            final(self).wf(final(mem)@, final(frames).free()),
            final(self).ready() == old(self).ready(),
            ({
                let power = shape::power_of(size as int, align as int);
                let page = shape::page_of(addr as int);
                if old(self).ready() {
                    &&& final(self).live() == old(self).live().remove(addr as int)
                    &&& if alone(old(self).pools(), addr as int) {
                        &&& final(self).pools() == pool::returned(
                            old(self).pools(),
                            power,
                            addr as int,
                        )
                        &&& final(frames).free() == (if old(frames).recycles() {
                            old(frames).free().insert(page)
                        } else {
                            old(frames).free()
                        })
                    } else {
                        &&& final(self).pools() == pool::pushed(
                            old(self).pools(),
                            power,
                            addr as int,
                        )
                        &&& final(frames).free() == old(frames).free()
                    }
                    &&& pool::contents_kept(old(self).pools(), old(mem)@, final(mem)@, addr as int)
                    &&& phys::same_outside(old(mem)@, final(mem)@, old(self).pages())
                } else {
                    &&& final(mem)@ == old(mem)@
                    &&& final(frames).free() == old(frames).free()
                    &&& final(self).pools() == old(self).pools()
                }
            }),
    {
        if self.freepool.len() == 0 {
            return ;
        }
        let power: usize = match shape::layout_power(size, align) {
            Some(p) => p,
            None => {
                return ;
            },
        };
        let ghost s = self.state@;
        let ghost m0 = mem@;
        let ghost free = frames.free();
        let ghost p = power as int;
        let ghost b = addr as int;
        let ghost page = shape::page_of(b);
        let ghost l1 = pool::in_front(b, s.lists[p]);
        proof {
            assert(pool::in_use(s, b));
            assert(pool::page_ok(s, m0, free, page));
            lemma_power_of_size(s.pages[page], p);
            pool::lemma_in_use(s, m0, free, p, b);
            lemma_alone(s, m0, free, p, b);
        }
        let base: u64 = addr - addr % PAGE_SIZE;
        let head: u64 = self.freepool[power];
        mem.write_word(addr, head);
        let ghost m1 = mem@;
        assert(m1.dom() =~= m0.dom());
        if power < MAX_POWER {
            let used: u64 = mem.read_word(base);
            mem.write_word(base, used - 1);
            assert(mem@.dom() =~= m0.dom());
            if used > 1 {
                self.freepool[power] = addr;
                self.state = Ghost(pool::pushed(s, p, b));
                proof {
                    pool::lemma_pushed(s, m0, free, p, b);
                    lemma_same_outside(s, m0, free, mem@, p, b);
                }
                return ;
            }
        }
        let ghost m2 = mem@;
        proof {
            assert forall|a: int| #[trigger] l1.contains(a) implies m2[a] == m1[a] by {
                pool::lemma_in_front(b, s.lists[p], a);
                if a != b {
                    pool::lemma_listed(s, m0, free, p, a);
                }
            }
            list::lemma_linked_same(m1, m2, l1);
        }
        let left: u64 = list::purge_freelist(mem, addr, Ghost(l1), base);
        self.freepool[power] = left;
        frames.free_frame(mem, PhysAddr::from_raw(base));
        self.state = Ghost(pool::returned(s, p, b));
        proof {
            pool::lemma_returned(s, m0, free, p, b, m2, mem@, frames.free());
            lemma_same_outside(s, m0, free, mem@, p, b);
        }
    }
}

/// The allocators of all processors, once they are set up.
pub struct BlockAllocators {
    ready: bool,
    list: Vec<BlockAllocator>,
}

/// The allocator that a processor uses: its own, or the last one if it has none.
pub open spec fn slot_of(hart: int, n: int) -> int {
    if hart < n {
        hart
    } else {
        n - 1
    }
}

/// The allocators are set up, without blocks.
pub open spec fn all_ready(l: Seq<BlockAllocator>) -> bool {
    forall|i: int|
        0 <= i < l.len() ==> (#[trigger] l[i]).ready() && l[i].pools() == pool::no_pools() && (forall|
            m: Map<int, u64>,
            free: Set<int>,
        | #[trigger] l[i].wf(m, free))
}

impl BlockAllocators {
    /// The allocators, once they are set up.
    pub closed spec fn list(&self) -> Option<Seq<BlockAllocator>> {
        if self.ready {
            Some(self.list@)
        } else {
            None
        }
    }

    /// No allocators.
    pub fn empty() -> (r: BlockAllocators)
        ensures
            r.list() is None,
    {
        BlockAllocators { ready: false, list: Vec::new() }
    }

    /// Sets up an allocator for each of `n` processors; nothing happens the second time. Whether it
    /// was the first time.
    pub fn init(&mut self, n: usize) -> (r: bool)
        ensures
            r == (old(self).list() is None),
            !r ==> final(self).list() == old(self).list(),
            r ==> (final(self).list() matches Some(l) && l.len() == n && all_ready(l)),
    {
        let mut v: Vec<BlockAllocator> = Vec::new();
        while v.len() < n
            invariant
                v@.len() <= n,
                all_ready(v@),
            decreases n - v@.len(),
        {
            let mut a: BlockAllocator = BlockAllocator::new();
            a.init();
            v.push(a);
        }
        if self.ready {
            return false;
        }
        self.list = v;
        self.ready = true;
        true
    }

    /// The allocator that the processor uses.
    pub fn allocator(&mut self, hart: usize) -> (r: &mut BlockAllocator)
        requires
            old(self).list() matches Some(l) && l.len() > 0,
        ensures
            *r == old(self).list()->0[slot_of(hart as int, old(self).list()->0.len() as int)],
            final(self).list() == Some(
                old(self).list()->0.update(
                    slot_of(hart as int, old(self).list()->0.len() as int),
                    *final(r),
                ),
            ),
    {
        let n: usize = self.list.len();
        let i: usize = if hart < n {
            hart
        } else {
            n - 1
        };
        &mut self.list[i]
    }
}

/// No other block of the page of the block is in use.
pub open spec fn alone(s: Pools, b: int) -> bool {
    forall|c: int| #[trigger]
        pool::live(s).contains_key(c) && shape::page_of(c) == shape::page_of(b) ==> c == b
}

/// Without blocks, any memory agrees.
proof fn lemma_no_pools(m: Map<int, u64>, free: Set<int>)
    ensures
        pool::pools_ok(pool::no_pools(), m, free),
{
    let s = pool::no_pools();
    assert forall|p: int| shape::is_power(p) implies #[trigger] pool::list_ok(s, m, p) by {
        assert(s.lists[p] =~= Seq::<int>::empty());
    }
    assert(s.lists[MAX_POWER as int] =~= Seq::<int>::empty());
}

/// Sizes tell powers apart.
proof fn lemma_power_of_size(p: int, q: int)
    requires
        shape::is_power(p),
        shape::is_power(q),
        shape::block_size(p) == shape::block_size(q),
    ensures
        p == q,
{
}

/// The count of a page tells whether a block is alone.
proof fn lemma_alone(s: Pools, m: Map<int, u64>, free: Set<int>, power: int, b: int)
    requires
        pool::pools_ok(s, m, free),
        pool::in_use(s, b),
        power == s.pages[shape::page_of(b)],
    ensures
        alone(s, b) <==> power == MAX_POWER || m[shape::page_of(b)] == 1,
{
    let page = shape::page_of(b);
    assert(pool::page_ok(s, m, free, page));
    pool::lemma_in_use(s, m, free, power, b);
    if power == MAX_POWER || m[page] == 1 {
        assert forall|c: int| #[trigger]
            pool::live(s).contains_key(c) && shape::page_of(c) == page implies c == b by {
            pool::lemma_last_in_use(s, m, free, power, b, c);
        }
    } else {
        let on = pool::live_on(s.lists[power], power, page);
        pool::lemma_live_finite(s.lists[power], power, page);
        assert(on.contains(b));
        assert(on.remove(b).len() > 0);
        let c = on.remove(b).choose();
        assert(on.remove(b).contains(c));
        assert(pool::live(s).contains_key(c));
    }
}

/// Words that changed are on the pages of the allocator.
proof fn lemma_same_outside(
    s: Pools,
    m: Map<int, u64>,
    free: Set<int>,
    m2: Map<int, u64>,
    power: int,
    b: int,
)
    requires
        pool::pools_ok(s, m, free),
        shape::is_power(power),
        s.pages.contains_key(shape::page_of(b)),
        m2.dom() == m.dom(),
        forall|a: int| #[trigger] m2[a] == m[a] || a == b || a == shape::page_of(b)
            || s.lists[power].contains(a),
    ensures
        phys::same_outside(m, m2, s.pages.dom()),
{
    assert forall|f: int, i: int|
        #![trigger m2[f + 8 * i]]
        f % 4096 == 0 && 0 <= i < 512 && !s.pages.dom().contains(f) implies m2[f + 8 * i] == m[f + 8
        * i] by {
        let a = f + 8 * i;
        assert(a % 4096 == 8 * i);
        assert(shape::page_of(a) == f);
        if s.lists[power].contains(a) {
            pool::lemma_listed(s, m, free, power, a);
        }
    }
}

} // verus!
