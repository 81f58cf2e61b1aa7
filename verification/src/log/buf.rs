//! Text buffers of fixed capacity.
use vstd::prelude::*;
use vstd::slice::slice_subrange;
use crate::text;

verus! {

/// A text of at most `N` bytes. What does not fit is cut off.
pub struct Buf<const N: usize> {
    data: Vec<u8>,
}

/// The first `n` bytes.
pub open spec fn cut(s: Seq<u8>, n: int) -> Seq<u8> {
    if s.len() <= n {
        s
    } else {
        s.subrange(0, n)
    }
}

impl<const N: usize> View for Buf<N> {
    type V = Seq<u8>;

    closed spec fn view(&self) -> Seq<u8> {
        self.data@
    }
}

impl<const N: usize> Buf<N> {
    /// The text fits.
    pub open spec fn wf(&self) -> bool {
        self@.len() <= N
    }

    /// An empty buffer.
    pub fn new() -> (r: Buf<N>)
        ensures
            r.wf(),
            r@ == Seq::<u8>::empty(),
    {
        Buf { data: Vec::new() }
    }

    /// Appends bytes, as far as they fit.
    pub fn write_bytes(&mut self, s: &[u8])
        requires
            old(self).wf(),
        ensures
            final(self).wf(),
            final(self)@ == cut(old(self)@ + s@, N as int),
    {
        let room: usize = N - self.data.len();
        let n: usize = if s.len() < room {
            s.len()
        } else {
            room
        };
        text::push_bytes(&mut self.data, slice_subrange(s, 0, n));
        assert(self@ =~= cut(old(self)@ + s@, N as int));
    }

    /// Appends text, as far as it fits.
    pub fn write_str(&mut self, s: &str)
        requires
            old(self).wf(),
        ensures
            final(self).wf(),
            final(self)@ == cut(old(self)@ + text::utf8(s), N as int),
    {
        self.write_bytes(s.as_bytes());
    }

    /// The text; empty if it was cut inside a character.
    pub fn as_str(&self) -> (r: &str)
        ensures
            text::utf8(r) == text::utf8_or(self@, Seq::empty()),
    {
        match text::from_utf8(self.data.as_slice()) {
            Some(s) => s,
            None => {
                proof {
                    reveal_strlit("");
                }
                ""
            },
        }
    }

    /// The bytes.
    pub fn as_slice(&self) -> (r: &[u8])
        ensures
            r@ == self@,
    {
        self.data.as_slice()
    }

    /// Number of bytes.
    pub fn len(&self) -> (r: usize)
        ensures
            r == self@.len(),
    {
        self.data.len()
    }
}

/// Writing in parts is the same as writing at once.
pub proof fn law_parts(a: Seq<u8>, b: Seq<u8>, c: Seq<u8>, n: int)
    requires
        0 <= n,
    ensures
        cut(cut(a + b, n) + c, n) == cut(a + b + c, n),
{
    assert(cut(cut(a + b, n) + c, n) =~= cut(a + b + c, n));
}

/// Cutting keeps the start of a text, all of it if it fits.
pub proof fn law_cut(s: Seq<u8>, n: int)
    requires
        0 <= n,
    ensures
        s.len() <= n ==> cut(s, n) == s,
        s.len() > n ==> cut(s, n).len() == n,
        forall|i: int| 0 <= i < cut(s, n).len() ==> #[trigger] cut(s, n)[i] == s[i],
{
}

} // verus!
