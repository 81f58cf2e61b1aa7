//! Sv39 page-table entries.
//!
//! Bits 0 to 9 hold the flags, bits 10 to 53 the physical page number.
use vstd::prelude::*;
use crate::text;

verus! {

/// The entry is valid (bit 0).
pub open spec fn pte_valid(bits: u64) -> bool {
    bits % 2 == 1
}

/// The entry is a leaf: one of the read, write and execute bits (1 to 3) is set.
pub open spec fn pte_leaf(bits: u64) -> bool {
    (bits as int / 2) % 8 != 0
}

/// The physical page number of the entry.
pub open spec fn pte_ppn(bits: u64) -> int {
    bits as int / 1024
}

/// The physical address that the entry points to.
pub open spec fn pte_paddr(bits: u64) -> int {
    (pte_ppn(bits) * 4096) % 0x1_0000_0000_0000_0000
}

/// The flag bits of the entry.
pub open spec fn pte_flags(bits: u64) -> int {
    bits as int % 1024
}

/// The entry that holds `ppn` and `flags`.
pub open spec fn pte_bits(ppn: u64, flags: u64) -> u64 {
    ((ppn as int * 1024) % 0x1_0000_0000_0000_0000 + flags as int % 1024) as u64
}

/// The letter, if the flag with the value `flag` is set.
pub open spec fn flag_letter(bits: u64, flag: int, letter: &str) -> Seq<u8> {
    if (bits as int / flag) % 2 == 1 {
        text::utf8(letter)
    } else {
        Seq::empty()
    }
}

/// The letters of the flags that are set.
pub open spec fn flag_letters(bits: u64) -> Seq<u8> {
    flag_letter(bits, 2, "R") + flag_letter(bits, 4, "W") + flag_letter(bits, 8, "X") + flag_letter(
        bits,
        16,
        "U",
    ) + flag_letter(bits, 32, "G") + flag_letter(bits, 64, "A") + flag_letter(bits, 128, "D")
}

/// The entry in words.
pub open spec fn pte_text(bits: u64) -> Seq<u8> {
    if pte_valid(bits) {
        text::utf8("PTE(") + text::hex_prefixed(bits as nat) + text::utf8(", ppn=")
            + text::hex_prefixed(pte_ppn(bits) as nat) + text::utf8(", flags=") + flag_letters(bits)
            + text::utf8(")")
    } else {
        text::utf8("PTE(invalid)")
    }
}

/// Appends the letter, if the flag with the value `flag` is set.
fn push_flag(out: &mut Vec<u8>, bits: u64, flag: u64, letter: &str)
    requires
        flag > 0,
    ensures
        final(out)@ == old(out)@ + flag_letter(bits, flag as int, letter),
{
    if (bits / flag) % 2 == 1 {
        text::push_str(out, letter);
    }
    assert(out@ =~= old(out)@ + flag_letter(bits, flag as int, letter));
}

/// A Sv39 page-table entry.
#[derive(Clone, Copy, PartialEq, Eq, Structural)]
pub struct PageTableEntry {
    pub bits: u64,
}

/// What an entry built from `ppn` and `flags` holds: the flags, and the page number as far as it
/// fits.
pub proof fn lemma_pte_bits(ppn: u64, flags: u64)
    ensures
        pte_flags(pte_bits(ppn, flags)) == flags as int % 1024,
        pte_valid(pte_bits(ppn, flags)) == (flags % 2 == 1),
        pte_leaf(pte_bits(ppn, flags)) == ((flags as int / 2) % 8 != 0),
        ppn < 0x40_0000_0000_0000 ==> pte_ppn(pte_bits(ppn, flags)) == ppn,
        ppn < 0x1000_0000_0000 ==> pte_paddr(pte_bits(ppn, flags)) == ppn * 4096,
{
    let hi = (ppn as int * 1024) % 0x1_0000_0000_0000_0000;
    assert(hi % 1024 == 0);
    assert(0 <= hi < 0x1_0000_0000_0000_0000);
    assert(hi + flags as int % 1024 < 0x1_0000_0000_0000_0000);
}

impl PageTableEntry {
    /// Valid.
    pub const V: u64 = 1;

    /// Read.
    pub const R: u64 = 2;

    /// Write.
    pub const W: u64 = 4;

    /// Execute.
    pub const X: u64 = 8;

    /// User.
    pub const U: u64 = 16;

    /// Global.
    pub const G: u64 = 32;

    /// Accessed.
    pub const A: u64 = 64;

    /// Dirty.
    pub const D: u64 = 128;

    /// The invalid entry, all zero.
    pub fn empty() -> (r: PageTableEntry)
        ensures
            r.bits == 0,
    {
        PageTableEntry { bits: 0 }
    }

    /// The entry that holds `ppn` and the low ten bits of `flags`.
    pub fn new(ppn: u64, flags: u64) -> (r: PageTableEntry)
        ensures
            r.bits == pte_bits(ppn, flags),
    {
        assert((ppn << 10) | (flags & 0x3FF) == (ppn * 1024) % 0x1_0000_0000_0000_0000 + flags
            % 1024) by (bit_vector);
        PageTableEntry { bits: (ppn << 10) | (flags & 0x3FF) }
    }

    /// Whether the valid bit is set.
    pub fn is_valid(&self) -> (b: bool)
        ensures
            b == pte_valid(self.bits),
    {
        let w: u64 = self.bits;
        assert((w & 1 != 0) == (w % 2 == 1)) by (bit_vector);
        self.bits & Self::V != 0
    }

    /// Whether one of the read, write and execute bits is set.
    pub fn is_leaf(&self) -> (b: bool)
        ensures
            b == pte_leaf(self.bits),
    {
        let w: u64 = self.bits;
        assert(2u64 | 4u64 | 8u64 == 14u64) by (bit_vector);
        assert((w & 14 != 0) == ((w / 2) % 8 != 0)) by (bit_vector);
        self.bits & (Self::R | Self::W | Self::X) != 0
    }

    /// The physical page number.
    pub fn ppn(&self) -> (r: u64)
        ensures
            r == pte_ppn(self.bits),
    {
        let w: u64 = self.bits;
        assert(w >> 10 == w / 1024) by (bit_vector);
        self.bits >> 10
    }

    /// The physical address: the page number shifted left by twelve bits.
    pub fn paddr(&self) -> (r: u64)
        ensures
            r == pte_paddr(self.bits),
    {
        let p: u64 = self.ppn();
        assert(p << 12 == (p * 4096) % 0x1_0000_0000_0000_0000) by (bit_vector);
        self.ppn() << 12
    }

    /// The flag bits.
    pub fn flags(&self) -> (r: u64)
        ensures
            r == pte_flags(self.bits),
    {
        let w: u64 = self.bits;
        assert(w & 0x3FF == w % 1024) by (bit_vector);
        self.bits & 0x3FF
    }

    /// Overwrites the page number and the flags.
    pub fn set(&mut self, ppn: u64, flags: u64)
        ensures
            final(self).bits == pte_bits(ppn, flags),
    {
        *self = PageTableEntry::new(ppn, flags);
    }

    /// Makes the entry invalid, all zero.
    pub fn clear(&mut self)
        ensures
            final(self).bits == 0,
    {
        self.bits = 0;
    }

    /// The entry in words: its value, its page number and a letter for each flag that is set.
    pub fn describe(&self) -> (r: Vec<u8>)
        ensures
            r@ == pte_text(self.bits),
    {
        let mut r: Vec<u8> = Vec::new();
        if !self.is_valid() {
            text::push_str(&mut r, "PTE(invalid)");
            assert(r@ =~= pte_text(self.bits));
            return r;
        }
        text::push_str(&mut r, "PTE(");
        text::push_hex(&mut r, self.bits);
        text::push_str(&mut r, ", ppn=");
        text::push_hex(&mut r, self.ppn());
        text::push_str(&mut r, ", flags=");
        push_flag(&mut r, self.bits, Self::R, "R");
        push_flag(&mut r, self.bits, Self::W, "W");
        push_flag(&mut r, self.bits, Self::X, "X");
        push_flag(&mut r, self.bits, Self::U, "U");
        push_flag(&mut r, self.bits, Self::G, "G");
        push_flag(&mut r, self.bits, Self::A, "A");
        push_flag(&mut r, self.bits, Self::D, "D");
        text::push_str(&mut r, ")");
        assert(r@ =~= pte_text(self.bits));
        r
    }

    /// The raw value.
    pub fn as_u64(&self) -> (r: u64)
        ensures
            r == self.bits,
    {
        self.bits
    }
}

impl Default for PageTableEntry {
    /// The invalid entry.
    fn default() -> (r: PageTableEntry)
        ensures
            r.bits == 0,
    {
        PageTableEntry::empty()
    }
}

/// Where the parts of an entry lie: the flags in the low ten bits, the page number above them.
pub proof fn law_entry_layout(ppn: u64, flags: u64, bits: u64)
    requires
        ppn < 0x40_0000_0000_0000,
    ensures
        pte_bits(ppn, flags) == (ppn << 10) | (flags & 0x3FF),
        pte_valid(bits) <==> bits & 1 != 0,
        pte_leaf(bits) <==> bits & 0xE != 0,
        pte_ppn(bits) == bits >> 10,
        pte_flags(bits) == bits & 0x3FF,
{
    assert(((ppn << 10) | (flags & 0x3FF)) == ppn * 1024 + flags % 1024) by (bit_vector)
        requires
            ppn < 0x40_0000_0000_0000,
    ;
    assert(bits % 2 == 1 <==> bits & 1 != 0) by (bit_vector);
    assert((bits / 2) % 8 != 0 <==> bits & 0xE != 0) by (bit_vector);
    assert(bits / 1024 == bits >> 10) by (bit_vector);
    assert(bits % 1024 == bits & 0x3FF) by (bit_vector);
}

/// The letters that describe an entry stand for its flags: each is shown exactly if its bit is set.
pub proof fn law_letters(bits: u64)
    ensures
        flag_letter(bits, 2, "R") == (if bits & 2 != 0 {
            text::utf8("R")
        } else {
            Seq::empty()
        }),
        flag_letter(bits, 4, "W") == (if bits & 4 != 0 {
            text::utf8("W")
        } else {
            Seq::empty()
        }),
        flag_letter(bits, 8, "X") == (if bits & 8 != 0 {
            text::utf8("X")
        } else {
            Seq::empty()
        }),
        flag_letter(bits, 16, "U") == (if bits & 16 != 0 {
            text::utf8("U")
        } else {
            Seq::empty()
        }),
        flag_letter(bits, 32, "G") == (if bits & 32 != 0 {
            text::utf8("G")
        } else {
            Seq::empty()
        }),
        flag_letter(bits, 64, "A") == (if bits & 64 != 0 {
            text::utf8("A")
        } else {
            Seq::empty()
        }),
        flag_letter(bits, 128, "D") == (if bits & 128 != 0 {
            text::utf8("D")
        } else {
            Seq::empty()
        }),
        bits & 1 == 0 ==> pte_text(bits) == text::utf8("PTE(invalid)"),
{
    assert((bits / 2) % 2 == 1 <==> bits & 2 != 0) by (bit_vector);
    assert((bits / 4) % 2 == 1 <==> bits & 4 != 0) by (bit_vector);
    assert((bits / 8) % 2 == 1 <==> bits & 8 != 0) by (bit_vector);
    assert((bits / 16) % 2 == 1 <==> bits & 16 != 0) by (bit_vector);
    assert((bits / 32) % 2 == 1 <==> bits & 32 != 0) by (bit_vector);
    assert((bits / 64) % 2 == 1 <==> bits & 64 != 0) by (bit_vector);
    assert((bits / 128) % 2 == 1 <==> bits & 128 != 0) by (bit_vector);
    assert(bits & 1 == 0 ==> bits % 2 == 0) by (bit_vector);
}

/// A valid entry is described by its bits, its page number and the letters of its flags, which are in
/// a fixed order.
pub proof fn law_entry_text(ppn: u64, flags: u64)
    requires
        ppn < 0x1000_0000_0000,
        flags == 207 || flags == 199,
    ensures
        ({
            let bits = (ppn * 1024 + flags) as u64;
            pte_text(bits) == text::utf8("PTE(") + text::hex_prefixed(bits as nat) + text::utf8(
                ", ppn=",
            ) + text::hex_prefixed(ppn as nat) + text::utf8(", flags=") + (if flags == 207 {
                text::utf8("R") + text::utf8("W") + text::utf8("X") + text::utf8("A") + text::utf8(
                    "D",
                )
            } else {
                text::utf8("R") + text::utf8("W") + text::utf8("A") + text::utf8("D")
            }) + text::utf8(")")
        }),
{
    let bits = (ppn * 1024 + flags) as u64;
    let none = Seq::<u8>::empty();
    assert(bits % 2 == 1);
    assert(bits as int / 1024 == ppn);
    assert((bits as int / 2) % 2 == 1);
    assert((bits as int / 4) % 2 == 1);
    assert((bits as int / 8) % 2 == (if flags == 207 {
        1int
    } else {
        0
    }));
    assert((bits as int / 16) % 2 == 0);
    assert((bits as int / 32) % 2 == 0);
    assert((bits as int / 64) % 2 == 1);
    assert((bits as int / 128) % 2 == 1);
    if flags == 207 {
        assert(flag_letters(bits) =~= text::utf8("R") + text::utf8("W") + text::utf8("X")
            + text::utf8("A") + text::utf8("D"));
    } else {
        assert(flag_letters(bits) =~= text::utf8("R") + text::utf8("W") + text::utf8("A")
            + text::utf8("D"));
    }
}

} // verus!
