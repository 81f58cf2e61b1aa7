//! Physical memory: one identity-mapped DRAM window, read and written by words.
use vstd::prelude::*;

verus! {

/// Size of a page in bytes.
pub const PAGE_SIZE: u64 = 4096;

/// Number of bits of an offset inside a page.
pub const PAGE_SHIFT: u64 = 12;

/// First address that a 44-bit physical page number cannot reach.
pub const PHYS_LIMIT: u64 = 0x100_0000_0000_0000;

/// The DRAM window `[base, base + 8 * words.len())`.
///
/// Every address of the window is mapped onto itself in every address space, so a physical
/// address is all that is needed to reach a word.
pub struct PhysMem {
    base: u64,
    words: Vec<u64>,
}

/// The 4 KiB frame at `frame` lies inside the memory `m`.
pub open spec fn has_frame(m: Map<int, u64>, frame: int) -> bool {
    frame_in(m.dom(), frame)
}

/// The 4 KiB frame at `frame` consists of word addresses of `dom`.
pub open spec fn frame_in(dom: Set<int>, frame: int) -> bool {
    &&& frame % 4096 == 0
    &&& 0 < frame
    &&& frame + 4096 <= PHYS_LIMIT
    &&& forall|i: int| 0 <= i < 512 ==> #[trigger] dom.contains(frame + 8 * i)
}

/// `m2` has the words of `m1` outside the frames of `touched`.
pub open spec fn same_outside(m1: Map<int, u64>, m2: Map<int, u64>, touched: Set<int>) -> bool {
    &&& m1.dom() == m2.dom()
    &&& forall|f: int, i: int|
        #![trigger m2[f + 8 * i]]
        f % 4096 == 0 && 0 <= i < 512 && !touched.contains(f) ==> m2[f + 8 * i] == m1[f + 8 * i]
}

/// All words of the frame at `frame` are zero.
pub open spec fn zeroed(m: Map<int, u64>, frame: int) -> bool {
    forall|i: int| 0 <= i < 512 ==> #[trigger] m[frame + 8 * i] == 0
}

/// Byte `k` of a word, the lowest one first.
pub open spec fn byte_of(w: u64, k: int) -> u8 {
    let scale = if k == 0 {
        1int
    } else if k == 1 {
        0x100
    } else if k == 2 {
        0x1_0000
    } else if k == 3 {
        0x100_0000
    } else if k == 4 {
        0x1_0000_0000
    } else if k == 5 {
        0x100_0000_0000
    } else if k == 6 {
        0x1_0000_0000_0000
    } else {
        0x100_0000_0000_0000
    };
    ((w as int / scale) % 256) as u8
}

/// The byte at the address.
pub open spec fn byte_at(m: Map<int, u64>, a: int) -> u8 {
    byte_of(m[a - a % 8], a % 8)
}

impl View for PhysMem {
    type V = Map<int, u64>;

    /// The words of the window by their (8-byte aligned) address.
    closed spec fn view(&self) -> Map<int, u64> {
        Map::new(
            |a: int| self.base <= a < self.base + 8 * self.words@.len() && a % 8 == 0,
            |a: int| self.words@[(a - self.base) / 8],
        )
    }
}

impl PhysMem {
    /// First address of the window.
    pub closed spec fn start(&self) -> int {
        self.base as int
    }

    /// Address one past the window.
    pub closed spec fn end(&self) -> int {
        self.base + 8 * self.words@.len()
    }

    /// The window is page aligned on both sides, does not start at address zero and is reachable
    /// by 44-bit page numbers.
    pub closed spec fn wf(&self) -> bool {
        &&& self.base % 4096 == 0
        &&& 0 < self.base
        &&& self.words@.len() % 512 == 0
        &&& self.base + 8 * self.words@.len() <= PHYS_LIMIT
    }

    /// A window of `pages` zeroed pages that starts at `base`.
    pub fn new(base: u64, pages: usize) -> (mem: PhysMem)
        requires
            base % 4096 == 0,
            0 < base,
            base + 4096 * pages <= PHYS_LIMIT,
            512 * pages <= usize::MAX,
        ensures
            mem.wf(),
            mem.start() == base,
            mem.end() == base + 4096 * pages,
            forall|a: int| #[trigger] mem@.contains_key(a) ==> mem@[a] == 0,
    {
        let mut words: Vec<u64> = Vec::new();
        let n: usize = 512 * pages;
        let mut i: usize = 0;
        while i < n
            invariant
                i <= n,
                words@.len() == i,
                forall|j: int| 0 <= j < i ==> #[trigger] words@[j] == 0,
            decreases n - i,
        {
            words.push(0);
            i += 1;
        }
        PhysMem { base, words }
    }

    /// The addresses of a well-formed memory are the aligned addresses of its window.
    pub proof fn lemma_domain(&self)
        requires
            self.wf(),
        ensures
            forall|a: int| #[trigger]
                self@.contains_key(a) <==> self.start() <= a < self.end() && a % 8 == 0,
            self.start() % 4096 == 0,
            self.end() % 4096 == 0,
            0 < self.start() <= self.end() <= PHYS_LIMIT,
    {
    }

    /// A page-aligned frame between the ends of the window is a frame of the memory.
    pub proof fn lemma_frame(&self, frame: int)
        requires
            self.wf(),
            frame % 4096 == 0,
            self.start() <= frame,
            frame + 4096 <= self.end(),
        ensures
            has_frame(self@, frame),
    {
    }

    /// Whether the word at `addr` is an aligned word of the window.
    pub fn contains(&self, addr: u64) -> (b: bool)
        requires
            self.wf(),
        ensures
            b == self@.contains_key(addr as int),
    {
        addr >= self.base && (addr - self.base) / 8 < self.words.len() as u64 && addr % 8 == 0
    }

    /// Reads the word at `addr`.
    pub fn read_word(&self, addr: u64) -> (v: u64)
        requires
            self.wf(),
            self@.contains_key(addr as int),
        ensures
            v == self@[addr as int],
    {
        let n: usize = self.words.len();
        assert((addr - self.base) / 8 < n);
        let i: usize = ((addr - self.base) / 8) as usize;
        self.words[i]
    }

    /// Reads the byte at `addr`.
    pub fn read_byte(&self, addr: u64) -> (b: u8)
        requires
            self.wf(),
            self@.contains_key(addr - addr % 8),
        ensures
            b == byte_at(self@, addr as int),
    {
        let w: u64 = self.read_word(addr - addr % 8);
        let scale: u64 = match addr % 8 {
            0 => 1,
            1 => 0x100,
            2 => 0x1_0000,
            3 => 0x100_0000,
            4 => 0x1_0000_0000,
            5 => 0x100_0000_0000,
            6 => 0x1_0000_0000_0000,
            _ => 0x100_0000_0000_0000,
        };
        ((w / scale) % 256) as u8
    }

    /// Writes the word at `addr`.
    pub fn write_word(&mut self, addr: u64, v: u64)
        requires
            old(self).wf(),
            old(self)@.contains_key(addr as int),
        ensures
            final(self).wf(),
            final(self)@ == old(self)@.insert(addr as int, v),
            final(self).start() == old(self).start(),
            final(self).end() == old(self).end(),
    {
        let n: usize = self.words.len();
        assert((addr - self.base) / 8 < n);
        let i: usize = ((addr - self.base) / 8) as usize;
        self.words[i] = v;
        assert(self@ =~= old(self)@.insert(addr as int, v));
    }

    /// Clears the frame at `frame`.
    pub fn zero_frame(&mut self, frame: u64)
        requires
            old(self).wf(),
            has_frame(old(self)@, frame as int),
        ensures
            final(self).wf(),
            final(self).start() == old(self).start(),
            final(self).end() == old(self).end(),
            zeroed(final(self)@, frame as int),
            same_outside(old(self)@, final(self)@, set![frame as int]),
    {
        let mut i: u64 = 0;
        while i < 512
            invariant
                i <= 512,
                self.wf(),
                has_frame(old(self)@, frame as int),
                self@.dom() == old(self)@.dom(),
                self.start() == old(self).start(),
                self.end() == old(self).end(),
                forall|j: int| 0 <= j < i ==> #[trigger] self@[frame + 8 * j] == 0,
                same_outside(old(self)@, self@, set![frame as int]),
            decreases 512 - i,
        {
            assert(self@.contains_key(frame + 8 * (i as int)));
            let ghost before = self@;
            self.write_word(frame + 8 * i, 0);
            assert(self@.dom() =~= old(self)@.dom());
            i += 1;
        }
    }

    /// Copies the frame at `src` into the frame at `dst`.
    pub fn copy_frame(&mut self, src: u64, dst: u64)
        requires
            old(self).wf(),
            has_frame(old(self)@, src as int),
            has_frame(old(self)@, dst as int),
            src != dst,
        ensures
            final(self).wf(),
            final(self).start() == old(self).start(),
            final(self).end() == old(self).end(),
            forall|i: int|
                0 <= i < 512 ==> #[trigger] final(self)@[dst + 8 * i] == old(self)@[src + 8 * i],
            same_outside(old(self)@, final(self)@, set![dst as int]),
    {
        let mut i: u64 = 0;
        while i < 512
            invariant
                i <= 512,
                self.wf(),
                src != dst,
                has_frame(old(self)@, src as int),
                has_frame(old(self)@, dst as int),
                self@.dom() == old(self)@.dom(),
                self.start() == old(self).start(),
                self.end() == old(self).end(),
                forall|j: int|
                    0 <= j < i ==> #[trigger] self@[dst + 8 * j] == old(self)@[src + 8 * j],
                same_outside(old(self)@, self@, set![dst as int]),
            decreases 512 - i,
        {
            assert(self@.contains_key(src + 8 * (i as int)));
            assert(self@.contains_key(dst + 8 * (i as int)));
            assert(self@[src + 8 * (i as int)] == old(self)@[src + 8 * (i as int)]);
            let v: u64 = self.read_word(src + 8 * i);
            self.write_word(dst + 8 * i, v);
            assert(self@.dom() =~= old(self)@.dom());
            i += 1;
        }
    }
}

/// The bytes of a word make the word, the lowest one first, and the byte at an address is one of the
/// word that holds it.
pub proof fn law_bytes_of_word(m: Map<int, u64>, a: int, w: u64)
    requires
        0 <= a,
        a % 8 == 0,
        m[a] == w,
    ensures
        w == byte_at(m, a) + 0x100 * byte_at(m, a + 1) + 0x1_0000 * byte_at(m, a + 2) + 0x100_0000
            * byte_at(m, a + 3) + 0x1_0000_0000 * byte_at(m, a + 4) + 0x100_0000_0000 * byte_at(
            m,
            a + 5,
        ) + 0x1_0000_0000_0000 * byte_at(m, a + 6) + 0x100_0000_0000_0000 * byte_at(m, a + 7),
{
    lemma_byte_at(m, a, 0);
    lemma_byte_at(m, a, 1);
    lemma_byte_at(m, a, 2);
    lemma_byte_at(m, a, 3);
    lemma_byte_at(m, a, 4);
    lemma_byte_at(m, a, 5);
    lemma_byte_at(m, a, 6);
    lemma_byte_at(m, a, 7);
    assert(w == (w / 1) % 256 + 0x100 * ((w / 0x100) % 256) + 0x1_0000 * ((w / 0x1_0000) % 256)
        + 0x100_0000 * ((w / 0x100_0000) % 256) + 0x1_0000_0000 * ((w / 0x1_0000_0000) % 256)
        + 0x100_0000_0000 * ((w / 0x100_0000_0000) % 256) + 0x1_0000_0000_0000 * ((w
        / 0x1_0000_0000_0000) % 256) + 0x100_0000_0000_0000 * ((w / 0x100_0000_0000_0000) % 256))
        by (bit_vector);
}

/// The byte at an address behind a word address.
proof fn lemma_byte_at(m: Map<int, u64>, a: int, k: int)
    requires
        0 <= a,
        a % 8 == 0,
        0 <= k < 8,
    ensures
        byte_at(m, a + k) == byte_of(m[a], k),
{
    assert((a + k) % 8 == k);
}

} // verus!
