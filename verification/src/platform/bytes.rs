//! Numbers and texts in a block of bytes.
use vstd::prelude::*;

verus! {

/// The 32-bit number at `at`, its highest byte first.
pub open spec fn be32(s: Seq<u8>, at: int) -> u32 {
    (s[at] * 0x100_0000 + s[at + 1] * 0x1_0000 + s[at + 2] * 0x100 + s[at + 3]) as u32
}

/// `n` rounded up to a multiple of four.
pub open spec fn aligned(n: int) -> int {
    (n + 3) / 4 * 4
}

/// Position of the first zero byte from `from` on; `end` if there is none before.
pub open spec fn zero_at(s: Seq<u8>, from: int, end: int) -> int
    decreases end - from,
{
    if from >= end || s[from] == 0 {
        from
    } else {
        zero_at(s, from + 1, end)
    }
}

/// What `zero_at` says.
pub proof fn lemma_zero_at(s: Seq<u8>, from: int, end: int)
    requires
        from <= end,
    ensures
        from <= zero_at(s, from, end) <= end,
        forall|i: int| from <= i < zero_at(s, from, end) ==> #[trigger] s[i] != 0,
        zero_at(s, from, end) < end ==> s[zero_at(s, from, end)] == 0,
    decreases end - from,
{
    if from < end && s[from] != 0 {
        lemma_zero_at(s, from + 1, end);
    }
}

/// The first zero byte is where the bytes before are not zero.
pub proof fn lemma_zero_is(s: Seq<u8>, from: int, end: int, k: int)
    requires
        from <= k <= end,
        forall|i: int| from <= i < k ==> #[trigger] s[i] != 0,
        k < end ==> s[k] == 0,
    ensures
        zero_at(s, from, end) == k,
    decreases end - from,
{
    if from < k {
        lemma_zero_is(s, from + 1, end, k);
    }
}

/// The number at `at`, its highest byte first.
pub fn read_be32(s: &[u8], at: usize) -> (r: u32)
    requires
        at + 4 <= s@.len(),
    ensures
        r == be32(s@, at as int),
{
    s[at] as u32 * 0x100_0000 + s[at + 1] as u32 * 0x1_0000 + s[at + 2] as u32 * 0x100 + s[at
        + 3] as u32
}

/// Position of the first zero byte from `from` on; `end` if there is none before.
pub fn find_zero(s: &[u8], from: usize, end: usize) -> (r: usize)
    requires
        from <= end <= s@.len(),
    ensures
        r == zero_at(s@, from as int, end as int),
        from <= r <= end,
{
    let mut i: usize = from;
    while i < end
        invariant
            from <= i <= end,
            end <= s@.len(),
            forall|j: int| from <= j < i ==> #[trigger] s@[j] != 0,
        decreases end - i,
    {
        if s[i] == 0 {
            proof {
                lemma_zero_is(s@, from as int, end as int, i as int);
            }
            return i;
        }
        i += 1;
    }
    proof {
        lemma_zero_is(s@, from as int, end as int, end as int);
    }
    end
}

} // verus!
