//! The structure block of a flattened device tree as a stream of tokens.
use vstd::prelude::*;
use vstd::slice::slice_subrange;
use crate::platform::bytes;
use crate::platform::bytes::{find_zero, read_be32};
use crate::text;

verus! {

/// A node begins.
pub const BEGIN_NODE: u32 = 1;

/// A node ends.
pub const END_NODE: u32 = 2;

/// A property.
pub const PROP: u32 = 3;

/// Padding.
pub const NOP: u32 = 4;

/// The block ends.
pub const END: u32 = 9;

/// Why the stream broke off.
#[derive(Clone, Copy, PartialEq, Eq, Structural, Debug)]
pub enum WalkError {
    /// The block ends too early, or holds what is no token.
    Truncated,
    /// The block ends inside a subtree that is skipped.
    Unbalanced,
    /// The name of a property lies outside the strings block.
    BadStringOffset(u32),
}

/// A token of the structure block.
#[derive(Clone, Copy)]
pub enum Token<'a> {
    /// A node with the name begins.
    BeginNode(&'a str),
    /// The node ends.
    EndNode,
    /// A property of the node.
    Property { name: &'a str, value: &'a [u8] },
    /// Padding.
    Nop,
    /// The block ends.
    End,
}

/// A token, with its texts as bytes.
pub enum TokenView {
    BeginNode(Seq<u8>),
    EndNode,
    Property(Seq<u8>, Seq<u8>),
    Nop,
    End,
}

impl<'a> View for Token<'a> {
    type V = TokenView;

    open spec fn view(&self) -> TokenView {
        match *self {
            Token::BeginNode(n) => TokenView::BeginNode(text::utf8(n)),
            Token::EndNode => TokenView::EndNode,
            Token::Property { name, value } => TokenView::Property(text::utf8(name), value@),
            Token::Nop => TokenView::Nop,
            Token::End => TokenView::End,
        }
    }
}

/// The name at `off` in the strings block: it reaches to the next zero byte or to the end. A name
/// that is not well-formed UTF-8 counts as empty.
pub open spec fn string_at(strings: Seq<u8>, off: int) -> Option<Seq<u8>> {
    if 0 <= off < strings.len() {
        let s = strings.subrange(off, bytes::zero_at(strings, off, strings.len() as int));
        Some(text::utf8_or(s, Seq::empty()))
    } else {
        None
    }
}

/// What was read, and where reading goes on.
pub struct Reading<T> {
    pub value: Result<T, WalkError>,
    pub next: int,
}

/// The number at `pos`.
pub open spec fn number_at(b: Seq<u8>, pos: int) -> Reading<u32> {
    if pos >= b.len() {
        Reading { value: Err(WalkError::Truncated), next: pos }
    } else {
        Reading { value: Ok(bytes::be32(b, pos)), next: pos + 4 }
    }
}

/// The node name at `pos`: it ends with a zero byte and is padded to a multiple of four bytes.
pub open spec fn name_at(b: Seq<u8>, pos: int) -> Reading<Seq<u8>> {
    let z = bytes::zero_at(b, pos, b.len() as int);
    if z >= b.len() {
        Reading { value: Err(WalkError::Truncated), next: pos }
    } else {
        let name = b.subrange(pos, z);
        Reading {
            value: if vstd::utf8::valid_utf8(name) {
                Ok(name)
            } else {
                Err(WalkError::Truncated)
            },
            next: pos + bytes::aligned(z - pos + 1),
        }
    }
}

/// The property value of `len` bytes at `pos`, padded to a multiple of four bytes.
pub open spec fn value_at(b: Seq<u8>, pos: int, len: int) -> Reading<Seq<u8>> {
    if pos + bytes::aligned(len) > b.len() {
        Reading { value: Err(WalkError::Truncated), next: pos }
    } else {
        Reading { value: Ok(b.subrange(pos, pos + len)), next: pos + bytes::aligned(len) }
    }
}

/// The token whose number `word` was read; the rest of it starts at `pos`.
pub open spec fn token_at(b: Seq<u8>, strings: Seq<u8>, pos: int, word: u32) -> Reading<TokenView> {
    if word == BEGIN_NODE {
        let n = name_at(b, pos);
        Reading {
            value: match n.value {
                Ok(s) => Ok(TokenView::BeginNode(s)),
                Err(e) => Err(e),
            },
            next: n.next,
        }
    } else if word == END_NODE {
        Reading { value: Ok(TokenView::EndNode), next: pos }
    } else if word == PROP {
        let len = number_at(b, pos);
        let off = number_at(b, len.next);
        match (len.value, off.value) {
            (Ok(l), Ok(o)) => match string_at(strings, o as int) {
                Some(name) => {
                    let v = value_at(b, off.next, l as int);
                    Reading {
                        value: match v.value {
                            Ok(s) => Ok(TokenView::Property(name, s)),
                            Err(e) => Err(e),
                        },
                        next: v.next,
                    }
                },
                None => Reading { value: Err(WalkError::BadStringOffset(o)), next: off.next },
            },
            (Err(e), _) => Reading { value: Err(e), next: len.next },
            (_, Err(e)) => Reading { value: Err(e), next: off.next },
        }
    } else if word == NOP {
        Reading { value: Ok(TokenView::Nop), next: pos }
    } else if word == END {
        Reading { value: Ok(TokenView::End), next: pos }
    } else {
        Reading { value: Err(WalkError::Truncated), next: pos }
    }
}

/// The depth after a token inside a skipped subtree whose number `word` was read.
pub open spec fn skip_at(b: Seq<u8>, pos: int, depth: int, word: u32) -> Reading<int> {
    if word == BEGIN_NODE {
        let n = name_at(b, pos);
        Reading {
            value: match n.value {
                Ok(_) => Ok(depth + 1),
                Err(e) => Err(e),
            },
            next: n.next,
        }
    } else if word == END_NODE {
        Reading { value: Ok(depth - 1), next: pos }
    } else if word == PROP {
        let len = number_at(b, pos);
        let off = number_at(b, len.next);
        match (len.value, off.value) {
            (Ok(l), Ok(o)) => {
                let v = value_at(b, off.next, l as int);
                Reading {
                    value: match v.value {
                        Ok(_) => Ok(depth),
                        Err(e) => Err(e),
                    },
                    next: v.next,
                }
            },
            (Err(e), _) => Reading { value: Err(e), next: len.next },
            (_, Err(e)) => Reading { value: Err(e), next: off.next },
        }
    } else if word == END {
        Reading { value: Err(WalkError::Unbalanced), next: pos }
    } else {
        Reading { value: Ok(depth), next: pos }
    }
}

/// Reading never goes back.
pub proof fn lemma_skip_advances(b: Seq<u8>, pos: int, depth: int, word: u32)
    ensures
        skip_at(b, pos, depth, word).value is Ok ==> skip_at(b, pos, depth, word).next >= pos,
{
    if pos <= b.len() {
        bytes::lemma_zero_at(b, pos, b.len() as int);
    }
}

/// Where the stream stands.
#[verifier::ext_equal]
pub struct Place {
    /// Position in the structure block.
    pub pos: int,
    /// Number of nodes that have to end before tokens count again; zero if none is skipped.
    pub skip: int,
    /// The end was reached.
    pub finished: bool,
}

/// The next token, and where the stream then stands.
pub open spec fn next_token(b: Seq<u8>, strings: Seq<u8>, pos: int, skip: int) -> (
    Result<TokenView, WalkError>,
    Place,
)
    decreases
            if pos < b.len() {
                b.len() - pos
            } else {
                0
            },
{
    if pos >= b.len() {
        (Err(WalkError::Truncated), Place { pos, skip, finished: true })
    } else {
        let word = bytes::be32(b, pos);
        if skip > 0 {
            let s = skip_at(b, pos + 4, skip, word);
            match s.value {
                Ok(d) => {
                    proof {
                        lemma_skip_advances(b, pos + 4, skip, word);
                    }
                    next_token(b, strings, s.next, d)
                },
                Err(e) => (
                    Err(e),
                    Place { pos: s.next, skip, finished: e == WalkError::Unbalanced },
                ),
            }
        } else {
            let t = token_at(b, strings, pos + 4, word);
            (
                t.value,
                Place {
                    pos: t.next,
                    skip,
                    finished: t.value matches Ok(v) && v is End,
                },
            )
        }
    }
}

/// A token that was read lies ahead.
pub proof fn lemma_next_advances(b: Seq<u8>, strings: Seq<u8>, pos: int, skip: int)
    requires
        pos < b.len(),
    ensures
        next_token(b, strings, pos, skip).0 is Ok ==> next_token(b, strings, pos, skip).1.pos > pos,
        next_token(b, strings, pos, skip).0 matches Ok(t) ==> next_token(
            b,
            strings,
            pos,
            skip,
        ).1.finished == (t is End),
    decreases b.len() - pos,
{
    let word = bytes::be32(b, pos);
    let p = pos + 4;
    if p <= b.len() {
        bytes::lemma_zero_at(b, p, b.len() as int);
    }
    if skip > 0 {
        lemma_skip_advances(b, p, skip, word);
        let s = skip_at(b, p, skip, word);
        if s.value is Ok {
            let d = s.value->Ok_0;
            if s.next < b.len() {
                lemma_next_advances(b, strings, s.next, d);
            } else {
                assert(next_token(b, strings, s.next, d).0 is Err);
            }
        }
    }
}

/// The tokens of a structure block.
pub struct FdtIter<'a> {
    block: &'a [u8],
    strings: &'a [u8],
    pos: usize,
    skip_depth: u32,
    finished: bool,
}

impl<'a> FdtIter<'a> {
    /// The structure block.
    pub closed spec fn block(&self) -> Seq<u8> {
        self.block@
    }

    /// The strings block.
    pub closed spec fn strings(&self) -> Seq<u8> {
        self.strings@
    }

    /// Where the stream stands.
    pub closed spec fn place(&self) -> Place {
        Place {
            pos: self.pos as int,
            skip: self.skip_depth as int,
            finished: self.finished,
        }
    }

    /// The block consists of words, and the stream stands between two of them.
    pub closed spec fn wf(&self) -> bool {
        &&& self.block@.len() % 4 == 0
        &&& self.block@.len() < 0xFFFF_FFFF
        &&& self.pos % 4 == 0
        &&& self.pos <= self.block@.len()
        &&& self.skip_depth <= self.pos + 1
    }

    /// The stream stands inside the block or at its end.
    pub proof fn lemma_within(&self)
        requires
            self.wf(),
        ensures
            0 <= self.place().pos <= self.block().len(),
    {
    }

    /// The tokens of a structure block, from its start.
    pub fn new(block: &'a [u8], strings: &'a [u8]) -> (r: FdtIter<'a>)
        requires
            block@.len() % 4 == 0,
            block@.len() < 0xFFFF_FFFF,
        ensures
            r.wf(),
            r.block() == block@,
            r.strings() == strings@,
            r.place() == (Place { pos: 0, skip: 0, finished: false }),
    {
        FdtIter { block, strings, pos: 0, skip_depth: 0, finished: false }
    }

    /// Position in the structure block.
    pub fn cursor_offset(&self) -> (r: u32)
        requires
            self.wf(),
        ensures
            r == self.place().pos,
    {
        self.pos as u32
    }

    /// Skips the node whose beginning was just returned, with all nodes in it.
    pub fn skip_subtree(&mut self)
        requires
            old(self).wf(),
        ensures
            final(self).wf(),
            final(self).block() == old(self).block(),
            final(self).strings() == old(self).strings(),
            final(self).place() == (Place { skip: 1, ..old(self).place() }),
    {
        self.skip_depth = 1;
    }

    /// Reads a number.
    fn read_u32(&mut self) -> (r: Result<u32, WalkError>)
        requires
            old(self).wf(),
        ensures
            final(self).wf(),
            final(self).block == old(self).block,
            final(self).strings == old(self).strings,
            final(self).skip_depth == old(self).skip_depth,
            final(self).finished == old(self).finished,
            final(self).pos >= old(self).pos,
            ({
                let x = number_at(old(self).block@, old(self).pos as int);
                r == x.value && final(self).pos == x.next
            }),
    {
        if self.pos >= self.block.len() {
            return Err(WalkError::Truncated);
        }
        let v: u32 = read_be32(self.block, self.pos);
        self.pos = self.pos + 4;
        Ok(v)
    }

    /// Reads a node name.
    fn read_node_name(&mut self) -> (r: Result<&'a str, WalkError>)
        requires
            old(self).wf(),
        ensures
            final(self).wf(),
            final(self).block == old(self).block,
            final(self).strings == old(self).strings,
            final(self).skip_depth == old(self).skip_depth,
            final(self).finished == old(self).finished,
            final(self).pos >= old(self).pos,
            r is Ok ==> final(self).pos > old(self).pos,
            ({
                let x = name_at(old(self).block@, old(self).pos as int);
                &&& final(self).pos == x.next
                &&& match x.value {
                    Ok(n) => r matches Ok(s) && text::utf8(s) == n,
                    Err(e) => r == Err::<&'a str, WalkError>(e),
                }
            }),
    {
        let len: usize = self.block.len();
        let z: usize = find_zero(self.block, self.pos, len);
        if z >= len {
            return Err(WalkError::Truncated);
        }
        let name: &'a [u8] = slice_subrange(self.block, self.pos, z);
        let total: usize = (z - self.pos + 1 + 3) / 4 * 4;
        self.pos = self.pos + total;
        match text::from_utf8(name) {
            Some(s) => Ok(s),
            None => Err(WalkError::Truncated),
        }
    }

    /// Reads a property value of `len` bytes.
    fn read_prop_value(&mut self, len: u32) -> (r: Result<&'a [u8], WalkError>)
        requires
            old(self).wf(),
        ensures
            final(self).wf(),
            final(self).block == old(self).block,
            final(self).strings == old(self).strings,
            final(self).skip_depth == old(self).skip_depth,
            final(self).finished == old(self).finished,
            final(self).pos >= old(self).pos,
            ({
                let x = value_at(old(self).block@, old(self).pos as int, len as int);
                &&& final(self).pos == x.next
                &&& match x.value {
                    Ok(n) => r matches Ok(s) && s@ == n,
                    Err(e) => r == Err::<&'a [u8], WalkError>(e),
                }
            }),
    {
        let left: u64 = (self.block.len() - self.pos) as u64;
        let padded: u64 = (len as u64 + 3) / 4 * 4;
        if padded > left {
            return Err(WalkError::Truncated);
        }
        let start: usize = self.pos;
        self.pos = start + padded as usize;
        Ok(slice_subrange(self.block, start, start + len as usize))
    }

    /// The name at `off` in the strings block.
    fn property_name(&self, off: u32) -> (r: Option<&'a str>)
        ensures
            match string_at(self.strings@, off as int) {
                Some(n) => r matches Some(s) && text::utf8(s) == n,
                None => r is None,
            },
    {
        let len: usize = self.strings.len();
        if off as u64 >= len as u64 {
            return None;
        }
        let z: usize = find_zero(self.strings, off as usize, len);
        match text::from_utf8(slice_subrange(self.strings, off as usize, z)) {
            Some(s) => Some(s),
            None => {
                proof {
                    reveal_strlit("");
                }
                Some("")
            },
        }
    }

    /// Consumes a token inside a skipped subtree.
    fn consume_skip(&mut self, word: u32) -> (r: Result<(), WalkError>)
        requires
            old(self).wf(),
            old(self).skip_depth > 0,
            old(self).pos >= 4,
            old(self).skip_depth <= old(self).pos - 3,
        ensures
            final(self).wf(),
            final(self).block == old(self).block,
            final(self).strings == old(self).strings,
            final(self).pos >= old(self).pos,
            ({
                let x = skip_at(
                    old(self).block@,
                    old(self).pos as int,
                    old(self).skip_depth as int,
                    word,
                );
                &&& final(self).pos == x.next
                &&& match x.value {
                    Ok(d) => r is Ok && final(self).skip_depth == d && final(self).finished == old(
                        self,
                    ).finished,
                    Err(e) => {
                        &&& r == Err::<(), WalkError>(e)
                        &&& final(self).skip_depth == old(self).skip_depth
                        &&& final(self).finished == (old(self).finished || e
                            == WalkError::Unbalanced)
                    },
                }
            }),
    {
        match word {
            BEGIN_NODE => match self.read_node_name() {
                Ok(_) => {
                    self.skip_depth = self.skip_depth + 1;
                    Ok(())
                },
                Err(e) => Err(e),
            },
            END_NODE => {
                self.skip_depth = self.skip_depth - 1;
                Ok(())
            },
            PROP => {
                let len: u32 = match self.read_u32() {
                    Ok(v) => v,
                    Err(e) => {
                        return Err(e);
                    },
                };
                match self.read_u32() {
                    Ok(_) => {},
                    Err(e) => {
                        return Err(e);
                    },
                }
                match self.read_prop_value(len) {
                    Ok(_) => Ok(()),
                    Err(e) => Err(e),
                }
            },
            END => {
                self.finished = true;
                Err(WalkError::Unbalanced)
            },
            _ => Ok(()),
        }
    }

    /// Reads the rest of the token whose number is `word`.
    fn next_normal(&mut self, word: u32) -> (r: Result<Token<'a>, WalkError>)
        requires
            old(self).wf(),
            !old(self).finished,
        ensures
            final(self).wf(),
            final(self).block == old(self).block,
            final(self).strings == old(self).strings,
            final(self).skip_depth == old(self).skip_depth,
            final(self).pos >= old(self).pos,
            ({
                let x = token_at(
                    old(self).block@,
                    old(self).strings@,
                    old(self).pos as int,
                    word,
                );
                &&& final(self).pos == x.next
                &&& final(self).finished == (x.value matches Ok(v) && v is End)
                &&& match x.value {
                    Ok(v) => r matches Ok(t) && t@ == v,
                    Err(e) => r == Err::<Token<'a>, WalkError>(e),
                }
            }),
    {
        match word {
            BEGIN_NODE => match self.read_node_name() {
                Ok(name) => Ok(Token::BeginNode(name)),
                Err(e) => Err(e),
            },
            END_NODE => Ok(Token::EndNode),
            PROP => {
                let len: u32 = match self.read_u32() {
                    Ok(v) => v,
                    Err(e) => {
                        return Err(e);
                    },
                };
                let nameoff: u32 = match self.read_u32() {
                    Ok(v) => v,
                    Err(e) => {
                        return Err(e);
                    },
                };
                let name: &'a str = match self.property_name(nameoff) {
                    Some(n) => n,
                    None => {
                        return Err(WalkError::BadStringOffset(nameoff));
                    },
                };
                match self.read_prop_value(len) {
                    Ok(value) => Ok(Token::Property { name, value }),
                    Err(e) => Err(e),
                }
            },
            NOP => Ok(Token::Nop),
            END => {
                self.finished = true;
                Ok(Token::End)
            },
            _ => Err(WalkError::Truncated),
        }
    }

    /// The next token; `None` after the end.
    pub fn next(&mut self) -> (r: Option<Result<Token<'a>, WalkError>>)
        requires
            old(self).wf(),
        ensures
            final(self).wf(),
            final(self).block() == old(self).block(),
            final(self).strings() == old(self).strings(),
            if old(self).place().finished {
                r is None && final(self).place() == old(self).place()
            } else {
                let x = next_token(
                    old(self).block(),
                    old(self).strings(),
                    old(self).place().pos,
                    old(self).place().skip,
                );
                &&& final(self).place() == x.1
                &&& match x.0 {
                    Ok(v) => r matches Some(Ok(t)) && t@ == v,
                    Err(e) => r == Some(Err::<Token<'a>, WalkError>(e)),
                }
            },
            final(self).place().pos >= old(self).place().pos,
            !old(self).place().finished ==> final(self).place().finished || final(self).place().pos
                > old(self).place().pos,
    {
        if self.finished {
            return None;
        }
        let ghost start = self.place();
        loop
            invariant
                self.wf(),
                !self.finished,
                self.block == old(self).block,
                self.strings == old(self).strings,
                start == old(self).place(),
                !start.finished,
                self.pos >= start.pos,
                next_token(
                    self.block@,
                    self.strings@,
                    self.pos as int,
                    self.skip_depth as int,
                ) == next_token(self.block@, self.strings@, start.pos, start.skip),
            decreases self.block@.len() - self.pos,
        {
            if self.pos >= self.block.len() {
                self.finished = true;
                return Some(Err(WalkError::Truncated));
            }
            let word: u32 = read_be32(self.block, self.pos);
            self.pos = self.pos + 4;
            if self.skip_depth > 0 {
                match self.consume_skip(word) {
                    Ok(_) => {},
                    Err(e) => {
                        return Some(Err(e));
                    },
                }
            } else {
                return Some(self.next_normal(word));
            }
        }
    }
}

} // verus!
