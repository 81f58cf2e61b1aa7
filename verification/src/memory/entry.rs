//! Permission and status bits of a page-table entry.
use vstd::prelude::*;

verus! {

/// A set of page-table entry flags.
#[derive(Clone, Copy, PartialEq, Eq, Structural, Debug)]
pub struct PteFlags(pub u64);

/// `flags` with the valid bit set.
pub open spec fn with_valid(flags: u64) -> u64 {
    if flags % 2 == 1 {
        flags
    } else {
        (flags + 1) as u64
    }
}

impl PteFlags {
    /// Valid.
    pub const V: u64 = 1;

    /// Read.
    pub const R: u64 = 2;

    /// Write.
    pub const W: u64 = 4;

    /// Execute.
    pub const X: u64 = 8;

    /// User.
    pub const U: u64 = 16;

    /// Global.
    pub const G: u64 = 32;

    /// Accessed.
    pub const A: u64 = 64;

    /// Dirty.
    pub const D: u64 = 128;

    /// The set with the given bits.
    pub fn from_bits(bits: u64) -> (r: PteFlags)
        ensures
            r == PteFlags(bits),
    {
        PteFlags(bits)
    }

    /// The bits themselves.
    pub fn bits(&self) -> (r: u64)
        ensures
            r == self.0,
    {
        self.0
    }

    /// The union of two sets.
    pub fn union(&self, other: PteFlags) -> (r: PteFlags)
        ensures
            r.0 == self.0 | other.0,
    {
        PteFlags(self.0 | other.0)
    }

    /// The set with the valid bit added.
    pub fn valid(&self) -> (r: PteFlags)
        ensures
            r.0 == with_valid(self.0),
            r.0 == self.0 | 1,
    {
        let f: u64 = self.0;
        assert(f | 1 == if f % 2 == 1 {
            f as int
        } else {
            f + 1
        }) by (bit_vector);
        PteFlags(self.0 | 1)
    }

    /// Whether every bit of `other` is in the set.
    pub fn contains(&self, other: PteFlags) -> (b: bool)
        ensures
            b == (self.0 & other.0 == other.0),
    {
        self.0 & other.0 == other.0
    }
}

/// Adding the valid flag sets the lowest bit and keeps the others.
pub proof fn law_valid_added(flags: u64)
    ensures
        with_valid(flags) == flags | 1,
{
    assert(flags | 1 == if flags % 2 == 1 {
        flags as int
    } else {
        flags + 1
    }) by (bit_vector);
}

} // verus!
