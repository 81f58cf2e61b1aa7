//! The nodes of a device tree and their properties.
use vstd::prelude::*;
use vstd::slice::slice_subrange;
use crate::platform::bytes;
use crate::platform::bytes::{find_zero, read_be32};
use crate::platform::cell;
use crate::platform::cell::{read_cell_u32, read_cells};
use crate::platform::walk;
use crate::platform::walk::{BEGIN_NODE, END, END_NODE, PROP};
use crate::text;

verus! {

/// A device tree: its structure block and its strings block.
#[derive(Clone, Copy)]
pub struct Dtb<'a> {
    block: &'a [u8],
    strings: &'a [u8],
}

/// A node.
#[derive(Clone, Copy, PartialEq, Eq, Structural, Debug)]
pub struct Node {
    /// Where the node begins in the structure block.
    pub offset: u32,
    /// Number of cells of an address in its `reg` property.
    pub address_cells: u32,
    /// Number of cells of a size in its `reg` property.
    pub size_cells: u32,
}

/// Deepest nesting for which the cells are kept; further down they are two.
pub const KEPT_DEPTH: usize = 16;

/// A word can be read at `off`.
pub open spec fn in_bounds(b: Seq<u8>, off: int) -> bool {
    0 <= off && off + 4 <= b.len()
}

/// Where the node name at `off` ends, with its padding.
pub open spec fn past_name(b: Seq<u8>, off: int) -> int {
    if off <= b.len() {
        bytes::aligned(bytes::zero_at(b, off, b.len() as int) + 1)
    } else {
        off + 4
    }
}

/// The bytes of the name of the node that begins at `off`.
pub open spec fn raw_name(b: Seq<u8>, off: int) -> Seq<u8> {
    b.subrange(off + 4, bytes::zero_at(b, off + 4, b.len() as int))
}

/// The name of a property: empty if it lies outside the strings block or is not well-formed UTF-8.
pub open spec fn prop_name(strings: Seq<u8>, off: int) -> Seq<u8> {
    match walk::string_at(strings, off) {
        Some(s) => s,
        None => Seq::empty(),
    }
}

/// Where the walk over the nodes stands.
#[verifier::ext_equal]
pub struct WalkPlace {
    pub cursor: int,
    /// Number of open nodes.
    pub depth: int,
    /// For every open node, the address cells that it sets for its children.
    pub address: Seq<u32>,
    /// For every open node, the size cells that it sets for its children.
    pub size: Seq<u32>,
    /// Number of open nodes of a subtree that is skipped.
    pub skip: int,
}

/// The cells that the parent of the node at level `d` sets.
pub open spec fn cells_above(cells: Seq<u32>, d: int) -> u32 {
    if 0 < d <= 16 {
        cells[d - 1]
    } else {
        2
    }
}

/// The cells with those of level `d` set.
pub open spec fn with_cells(cells: Seq<u32>, d: int, v: u32) -> Seq<u32> {
    if 0 <= d < 16 {
        cells.update(d, v)
    } else {
        cells
    }
}

/// The walk after the property at the cursor, of `len` bytes, with the name at `name`.
pub open spec fn after_property(b: Seq<u8>, strings: Seq<u8>, w: WalkPlace, len: u32, name: u32) -> WalkPlace {
    let n = prop_name(strings, name as int);
    let v = bytes::be32(b, w.cursor + 8);
    let sets = len == 4 && w.depth > 0;
    WalkPlace {
        cursor: w.cursor + 8 + bytes::aligned(len as int),
        address: if sets && n == text::utf8("#address-cells") {
            with_cells(w.address, w.depth - 1, v)
        } else {
            w.address
        },
        size: if sets && n == text::utf8("#size-cells") && n != text::utf8("#address-cells") {
            with_cells(w.size, w.depth - 1, v)
        } else {
            w.size
        },
        ..w
    }
}

/// What the walk does at a word of the structure block.
pub enum Pace {
    /// It goes on.
    On(WalkPlace),
    /// It has found a node.
    At(Node, WalkPlace),
    /// It ends.
    Stop(WalkPlace),
}

/// What the walk does with the word `word`, which stands before the cursor.
///
/// The root node and the subtree of `chosen` are left out. A node takes over the cells of its
/// parent, until it sets its own.
pub open spec fn pace(b: Seq<u8>, strings: Seq<u8>, w: WalkPlace, word: u32) -> Pace {
    if word == BEGIN_NODE {
        let off = w.cursor - 4;
        let next = WalkPlace { cursor: past_name(b, w.cursor), depth: w.depth + 1, ..w };
        let ac = cells_above(w.address, w.depth);
        let sc = cells_above(w.size, w.depth);
        if off == 0 {
            Pace::On(next)
        } else if w.skip > 0 {
            Pace::On(WalkPlace { skip: w.skip + 1, ..next })
        } else if raw_name(b, off) == text::utf8("chosen") {
            Pace::On(WalkPlace { skip: 1, ..next })
        } else {
            Pace::At(
                Node { offset: off as u32, address_cells: ac, size_cells: sc },
                WalkPlace {
                    address: with_cells(w.address, w.depth, ac),
                    size: with_cells(w.size, w.depth, sc),
                    ..next
                },
            )
        }
    } else if word == END_NODE {
        let skip = if w.skip > 0 {
            w.skip - 1
        } else {
            w.skip
        };
        if w.depth == 0 {
            Pace::Stop(WalkPlace { skip, ..w })
        } else {
            Pace::On(WalkPlace { skip, depth: w.depth - 1, ..w })
        }
    } else if word == PROP {
        if w.cursor + 8 > b.len() {
            Pace::Stop(w)
        } else {
            let len = bytes::be32(b, w.cursor);
            if w.cursor + 8 + len > b.len() {
                Pace::Stop(w)
            } else {
                Pace::On(after_property(b, strings, w, len, bytes::be32(b, w.cursor + 4)))
            }
        }
    } else if word == END {
        Pace::Stop(w)
    } else {
        Pace::On(w)
    }
}

/// The next node of the walk, and where the walk then stands.
pub open spec fn next_node(b: Seq<u8>, strings: Seq<u8>, w: WalkPlace) -> (Option<Node>, WalkPlace)
    decreases
            if w.cursor < b.len() {
                b.len() - w.cursor
            } else {
                0
            },
{
    if !in_bounds(b, w.cursor) {
        (None, w)
    } else {
        let word = bytes::be32(b, w.cursor);
        let past = WalkPlace { cursor: w.cursor + 4, ..w };
        proof {
            lemma_pace(b, strings, past, word);
        }
        match pace(b, strings, past, word) {
            Pace::On(v) => next_node(b, strings, v),
            Pace::At(n, v) => (Some(n), v),
            Pace::Stop(v) => (None, v),
        }
    }
}

/// The walk never goes back.
pub proof fn lemma_pace(b: Seq<u8>, strings: Seq<u8>, w: WalkPlace, word: u32)
    ensures
        match pace(b, strings, w, word) {
            Pace::On(v) => v.cursor >= w.cursor,
            Pace::At(_, v) => v.cursor >= w.cursor,
            Pace::Stop(v) => v.cursor == w.cursor,
        },
{
    if w.cursor <= b.len() {
        bytes::lemma_zero_at(b, w.cursor, b.len() as int);
    }
}

/// A node that the walk finds lies ahead.
pub proof fn lemma_next_node(b: Seq<u8>, strings: Seq<u8>, w: WalkPlace)
    ensures
        next_node(b, strings, w).1.cursor >= w.cursor,
        next_node(b, strings, w).0 is Some ==> next_node(b, strings, w).1.cursor > w.cursor,
        next_node(b, strings, w).0 is Some ==> w.cursor < b.len(),
        b.len() < 0xFFFF_FFF0 ==> (next_node(b, strings, w).0 matches Some(n) ==> placed(n, b)),
    decreases
            if w.cursor < b.len() {
                b.len() - w.cursor
            } else {
                0
            },
{
    if in_bounds(b, w.cursor) {
        let word = bytes::be32(b, w.cursor);
        let past = WalkPlace { cursor: w.cursor + 4, ..w };
        lemma_pace(b, strings, past, word);
        match pace(b, strings, past, word) {
            Pace::On(v) => {
                lemma_next_node(b, strings, v);
            },
            _ => {},
        }
    }
}

/// The start of a walk.
pub open spec fn walk_start() -> WalkPlace {
    WalkPlace {
        cursor: 0,
        depth: 0,
        address: Seq::new(16, |i: int| 2u32),
        size: Seq::new(16, |i: int| 2u32),
        skip: 0,
    }
}

/// A walk over the nodes, parents before their children.
pub struct Walk<'a> {
    dtb: Dtb<'a>,
    cursor: usize,
    depth: usize,
    address: Vec<u32>,
    size: Vec<u32>,
    skip: usize,
}

impl<'a> Walk<'a> {
    /// The structure block.
    pub closed spec fn block(&self) -> Seq<u8> {
        self.dtb.block@
    }

    /// The strings block.
    pub closed spec fn strings(&self) -> Seq<u8> {
        self.dtb.strings@
    }

    /// Where the walk stands.
    pub closed spec fn place(&self) -> WalkPlace {
        WalkPlace {
            cursor: self.cursor as int,
            depth: self.depth as int,
            address: self.address@,
            size: self.size@,
            skip: self.skip as int,
        }
    }

    /// The counters stay below the cursor, so that they do not overflow.
    pub closed spec fn wf(&self) -> bool {
        &&& self.dtb.wf()
        &&& self.address@.len() == 16
        &&& self.size@.len() == 16
        &&& self.depth <= self.cursor
        &&& self.skip <= self.cursor
        &&& self.cursor <= self.dtb.block@.len() + 4
    }

    /// The walk stands inside the block or at its end.
    pub proof fn lemma_within(&self)
        requires
            self.wf(),
        ensures
            0 <= self.place().cursor <= self.block().len() + 4,
            self.block().len() < 0xFFFF_FFF0,
    {
    }

    /// Passes the property at the cursor. `false` if it does not fit the block.
    fn consume_prop(&mut self) -> (r: bool)
        requires
            old(self).wf(),
            old(self).cursor <= old(self).dtb.block@.len(),
        ensures
            final(self).wf(),
            final(self).dtb == old(self).dtb,
            ({
                let b = old(self).dtb.block@;
                let w = old(self).place();
                let len = bytes::be32(b, w.cursor);
                if w.cursor + 8 > b.len() || w.cursor + 8 + len > b.len() {
                    !r && final(self).place() == w
                } else {
                    r && final(self).place() == after_property(
                        b,
                        old(self).dtb.strings@,
                        w,
                        len,
                        bytes::be32(b, w.cursor + 4),
                    )
                }
            }),
    {
        let total: usize = self.dtb.block.len();
        let at: usize = self.cursor;
        if total - at < 8 {
            return false;
        }
        let len: u32 = read_be32(self.dtb.block, at);
        if len as u64 > (total - at - 8) as u64 {
            return false;
        }
        let name_off: u32 = read_be32(self.dtb.block, at + 4);
        let padded: usize = (len as usize + 3) / 4 * 4;
        if len == 4 && self.depth > 0 {
            let d: usize = self.depth - 1;
            let v: u32 = read_be32(self.dtb.block, at + 8);
            let name: &[u8] = self.dtb.string_at(name_off);
            if text::is_text(name, "#address-cells") {
                if d < KEPT_DEPTH {
                    self.address.set(d, v);
                }
            } else if text::is_text(name, "#size-cells") {
                if d < KEPT_DEPTH {
                    self.size.set(d, v);
                }
            }
        }
        self.cursor = at + 8 + padded;
        assert(self.place() =~= after_property(
            old(self).dtb.block@,
            old(self).dtb.strings@,
            old(self).place(),
            len,
            name_off,
        ));
        true
    }

    /// Enters the node whose first word stands before the cursor; the node, unless it is left out.
    fn enter(&mut self) -> (r: Option<Node>)
        requires
            old(self).wf(),
            4 <= old(self).cursor <= old(self).dtb.block@.len(),
            old(self).depth < old(self).cursor,
            old(self).skip < old(self).cursor,
        ensures
            final(self).wf(),
            final(self).dtb == old(self).dtb,
            match pace(old(self).dtb.block@, old(self).dtb.strings@, old(self).place(), BEGIN_NODE) {
                Pace::On(v) => r is None && final(self).place() == v,
                Pace::At(n, v) => r == Some(n) && final(self).place() == v,
                Pace::Stop(_) => false,
            },
    {
        let ghost w = self.place();
        let ghost b = self.dtb.block@;
        let off: usize = self.cursor - 4;
        let d: usize = self.depth;
        let total: usize = self.dtb.block.len();
        let z: usize = find_zero(self.dtb.block, self.cursor, total);
        let name: &[u8] = slice_subrange(self.dtb.block, self.cursor, z);
        self.cursor = (z + 4) / 4 * 4;
        self.depth = d + 1;
        if off == 0 {
            assert(self.place() =~= (WalkPlace { cursor: past_name(b, w.cursor), depth: w.depth + 1, ..w }));
            return None;
        }
        if self.skip > 0 {
            self.skip = self.skip + 1;
            assert(self.place() =~= (WalkPlace { cursor: past_name(b, w.cursor), depth: w.depth + 1, skip: w.skip + 1, ..w }));
            return None;
        }
        if text::is_text(name, "chosen") {
            self.skip = 1;
            assert(self.place() =~= (WalkPlace { cursor: past_name(b, w.cursor), depth: w.depth + 1, skip: 1, ..w }));
            return None;
        }
        let (ac, sc): (u32, u32) = if d == 0 || d > KEPT_DEPTH {
            (2, 2)
        } else {
            (self.address[d - 1], self.size[d - 1])
        };
        if d < KEPT_DEPTH {
            self.address.set(d, ac);
            self.size.set(d, sc);
        }
        assert(self.place() =~= (WalkPlace {
            cursor: past_name(b, w.cursor),
            depth: w.depth + 1,
            address: with_cells(w.address, w.depth, ac),
            size: with_cells(w.size, w.depth, sc),
            ..w
        }));
        Some(Node { offset: off as u32, address_cells: ac, size_cells: sc })
    }

    /// The next node; `None` at the end.
    pub fn next(&mut self) -> (r: Option<Node>)
        requires
            old(self).wf(),
        ensures
            final(self).wf(),
            final(self).block() == old(self).block(),
            final(self).strings() == old(self).strings(),
            (r, final(self).place()) == next_node(
                old(self).block(),
                old(self).strings(),
                old(self).place(),
            ),
    {
        let ghost start = self.place();
        let ghost b = self.dtb.block@;
        let ghost s = self.dtb.strings@;
        let total: usize = self.dtb.block.len();
        loop
            invariant
                self.wf(),
                self.dtb == old(self).dtb,
                b == self.dtb.block@,
                s == self.dtb.strings@,
                total == b.len(),
                start == old(self).place(),
                next_node(b, s, self.place()) == next_node(b, s, start),
            decreases b.len() + 4 - self.cursor,
        {
            if self.cursor > total || total - self.cursor < 4 {
                return None;
            }
            let ghost w = self.place();
            let word: u32 = read_be32(self.dtb.block, self.cursor);
            self.cursor = self.cursor + 4;
            let ghost past = self.place();
            assert(past =~= (WalkPlace { cursor: w.cursor + 4, ..w }));
            proof {
                lemma_pace(b, s, past, word);
            }
            match word {
                BEGIN_NODE => {
                    match self.enter() {
                        Some(n) => {
                            return Some(n);
                        },
                        None => {},
                    }
                },
                END_NODE => {
                    if self.skip > 0 {
                        self.skip = self.skip - 1;
                    }
                    if self.depth == 0 {
                        return None;
                    }
                    self.depth = self.depth - 1;
                },
                PROP => {
                    if !self.consume_prop() {
                        return None;
                    }
                },
                END => {
                    return None;
                },
                _ => {},
            }
        }
    }
}

impl<'a> Dtb<'a> {
    /// The structure block.
    pub closed spec fn block(&self) -> Seq<u8> {
        self.block@
    }

    /// The strings block.
    pub closed spec fn strings(&self) -> Seq<u8> {
        self.strings@
    }

    /// Offsets in the structure block fit 32 bits.
    pub closed spec fn wf(&self) -> bool {
        self.block@.len() < 0xFFFF_FFF0
    }

    /// A device tree with the structure block and the strings block.
    pub fn new(block: &'a [u8], strings: &'a [u8]) -> (r: Dtb<'a>)
        requires
            block@.len() < 0xFFFF_FFF0,
        ensures
            r.wf(),
            r.block() == block@,
            r.strings() == strings@,
    {
        Dtb { block, strings }
    }

    /// A walk over all nodes but the root and the subtree of `chosen`.
    pub fn walk(&self) -> (r: Walk<'a>)
        requires
            self.wf(),
        ensures
            r.wf(),
            r.block() == self.block(),
            r.strings() == self.strings(),
            r.place() == walk_start(),
    {
        let mut address: Vec<u32> = Vec::new();
        let mut size: Vec<u32> = Vec::new();
        let mut i: usize = 0;
        while i < KEPT_DEPTH
            invariant
                i <= 16,
                address@ =~= Seq::new(i as nat, |k: int| 2u32),
                size@ =~= Seq::new(i as nat, |k: int| 2u32),
            decreases 16 - i,
        {
            address.push(2);
            size.push(2);
            i += 1;
        }
        Walk { dtb: *self, cursor: 0, depth: 0, address, size, skip: 0 }
    }

    /// The name at `off` in the strings block.
    fn string_at(&self, off: u32) -> (r: &'a [u8])
        ensures
            r@ == prop_name(self.strings@, off as int),
    {
        let len: usize = self.strings.len();
        if off as u64 >= len as u64 {
            return slice_subrange(self.strings, 0, 0);
        }
        let z: usize = find_zero(self.strings, off as usize, len);
        let s: &'a [u8] = slice_subrange(self.strings, off as usize, z);
        if text::is_utf8(s) {
            s
        } else {
            slice_subrange(self.strings, 0, 0)
        }
    }

    /// Passes the node name at `off`.
    fn skip_name(&self, off: usize) -> (r: usize)
        requires
            self.wf(),
            off <= self.block@.len(),
        ensures
            r == past_name(self.block@, off as int),
            off < r <= self.block@.len() + 4,
    {
        let z: usize = find_zero(self.block, off, self.block.len());
        (z + 4) / 4 * 4
    }

    /// Passes the nodes that are open at `off`, which is inside `depth` of them.
    fn skip_nodes(&self, off: usize, depth: usize) -> (r: Option<usize>)
        requires
            self.wf(),
            0 < depth <= off,
            off <= self.block@.len() + 4,
        ensures
            match past_nodes(self.block@, off as int, depth as int) {
                Some(e) => r == Some(e as usize) && off < e <= self.block@.len(),
                None => r is None,
            },
    {
        let total: usize = self.block.len();
        let ghost b = self.block@;
        let mut at: usize = off;
        let mut open: usize = depth;
        while open > 0
            invariant
                self.wf(),
                b == self.block@,
                total == b.len(),
                open <= at,
                off <= at <= total + 4,
                open == 0 ==> at <= total,
                open == 0 ==> off < at,
                past_nodes(b, at as int, open as int) == past_nodes(b, off as int, depth as int),
            decreases total + 4 - at,
        {
            if at > total || total - at < 4 {
                return None;
            }
            let word: u32 = read_be32(self.block, at);
            at = at + 4;
            match word {
                BEGIN_NODE => {
                    at = self.skip_name(at);
                    open = open + 1;
                },
                END_NODE => {
                    open = open - 1;
                },
                PROP => {
                    if total - at < 8 {
                        return None;
                    }
                    let len: u32 = read_be32(self.block, at);
                    if len as u64 > (total - at - 8) as u64 {
                        return None;
                    }
                    at = at + 8 + (len as usize + 3) / 4 * 4;
                },
                END => {
                    return None;
                },
                _ => {},
            }
        }
        Some(at)
    }

    /// The value of the property `name` of the node at `node_off`.
    pub fn node_property_raw(&self, node_off: u32, name: &str) -> (r: Option<&'a [u8]>)
        requires
            self.wf(),
            node_off + 4 <= self.block().len(),
        ensures
            match property_of(self.block(), self.strings(), node_off as int, text::utf8(name)) {
                Some(v) => r matches Some(s) && s@ == v,
                None => r is None,
            },
    {
        let total: usize = self.block.len();
        let ghost b = self.block@;
        let ghost st = self.strings@;
        let ghost want = text::utf8(name);
        let first: usize = self.skip_name(node_off as usize + 4);
        let mut off: usize = first;
        loop
            invariant
                self.wf(),
                b == self.block@,
                st == self.strings@,
                total == b.len(),
                want == text::utf8(name),
                first <= off <= total + 4,
                search_property(b, st, off as int, want) == search_property(
                    b,
                    st,
                    first as int,
                    want,
                ),
                property_of(b, st, node_off as int, want) == search_property(
                    b,
                    st,
                    first as int,
                    want,
                ),
            decreases total + 4 - off,
        {
            if off > total || total - off < 4 {
                return None;
            }
            let word: u32 = read_be32(self.block, off);
            off = off + 4;
            match word {
                PROP => {
                    if total - off < 8 {
                        return None;
                    }
                    let len: u32 = read_be32(self.block, off);
                    let name_off: u32 = read_be32(self.block, off + 4);
                    if len as u64 > (total - off - 8) as u64 {
                        return None;
                    }
                    if text::is_text(self.string_at(name_off), name) {
                        return Some(
                            slice_subrange(self.block, off + 8, off + 8 + len as usize),
                        );
                    }
                    off = off + 8 + (len as usize + 3) / 4 * 4;
                },
                BEGIN_NODE => {
                    let inner: usize = self.skip_name(off);
                    match self.skip_nodes(inner, 1) {
                        Some(e) => {
                            off = e;
                        },
                        None => {
                            return None;
                        },
                    }
                },
                END_NODE => {
                    return None;
                },
                END => {
                    return None;
                },
                _ => {},
            }
        }
    }

    /// The name of the node at `node_off`; empty if it is not well-formed UTF-8.
    fn node_name(&self, node_off: u32) -> (r: &'a [u8])
        requires
            self.wf(),
            node_off + 4 <= self.block@.len(),
        ensures
            r@ == text::utf8_or(raw_name(self.block@, node_off as int), Seq::empty()),
    {
        let start: usize = node_off as usize + 4;
        let z: usize = find_zero(self.block, start, self.block.len());
        let s: &'a [u8] = slice_subrange(self.block, start, z);
        if text::is_utf8(s) {
            s
        } else {
            slice_subrange(self.block, 0, 0)
        }
    }
}

/// Where the nodes that are open at `off` have ended, if `off` is inside `depth` of them; `None` if
/// the block ends before.
pub open spec fn past_nodes(b: Seq<u8>, off: int, depth: int) -> Option<int>
    decreases
            if off < b.len() {
                b.len() - off
            } else {
                0
            },
{
    if depth <= 0 {
        Some(off)
    } else if !in_bounds(b, off) {
        None
    } else {
        let word = bytes::be32(b, off);
        let p = off + 4;
        if word == BEGIN_NODE {
            proof {
                bytes::lemma_zero_at(b, p, b.len() as int);
            }
            past_nodes(b, past_name(b, p), depth + 1)
        } else if word == END_NODE {
            past_nodes(b, p, depth - 1)
        } else if word == PROP {
            let len = bytes::be32(b, p);
            if p + 8 > b.len() || p + 8 + len > b.len() {
                None
            } else {
                past_nodes(b, p + 8 + bytes::aligned(len as int), depth)
            }
        } else if word == END {
            None
        } else {
            past_nodes(b, p, depth)
        }
    }
}

/// The nodes have ended ahead.
pub proof fn lemma_past_nodes(b: Seq<u8>, off: int, depth: int)
    ensures
        past_nodes(b, off, depth) matches Some(e) ==> e >= off,
    decreases
            if off < b.len() {
                b.len() - off
            } else {
                0
            },
{
    if depth > 0 && in_bounds(b, off) {
        let word = bytes::be32(b, off);
        let p = off + 4;
        bytes::lemma_zero_at(b, p, b.len() as int);
        if word == BEGIN_NODE {
            lemma_past_nodes(b, past_name(b, p), depth + 1);
        } else if word == END_NODE {
            lemma_past_nodes(b, p, depth - 1);
        } else if word == PROP {
            lemma_past_nodes(b, p + 8 + bytes::aligned(bytes::be32(b, p) as int), depth);
        } else {
            lemma_past_nodes(b, p, depth);
        }
    }
}

/// The value of the property `name` among the properties from `off` on, up to the end of the node.
/// The properties of the nodes inside do not count.
pub open spec fn search_property(b: Seq<u8>, strings: Seq<u8>, off: int, name: Seq<u8>) -> Option<
    Seq<u8>,
>
    decreases
            if off < b.len() {
                b.len() - off
            } else {
                0
            },
{
    if !in_bounds(b, off) {
        None
    } else {
        let word = bytes::be32(b, off);
        let p = off + 4;
        if word == PROP {
            let len = bytes::be32(b, p);
            if p + 8 > b.len() || p + 8 + len > b.len() {
                None
            } else if prop_name(strings, bytes::be32(b, p + 4) as int) == name {
                Some(b.subrange(p + 8, p + 8 + len))
            } else {
                search_property(b, strings, p + 8 + bytes::aligned(len as int), name)
            }
        } else if word == BEGIN_NODE {
            proof {
                bytes::lemma_zero_at(b, p, b.len() as int);
                lemma_past_nodes(b, past_name(b, p), 1);
            }
            match past_nodes(b, past_name(b, p), 1) {
                Some(e) => search_property(b, strings, e, name),
                None => None,
            }
        } else if word == END_NODE || word == END {
            None
        } else {
            search_property(b, strings, p, name)
        }
    }
}

/// The value of the property `name` of the node that begins at `off`.
pub open spec fn property_of(b: Seq<u8>, strings: Seq<u8>, off: int, name: Seq<u8>) -> Option<
    Seq<u8>,
> {
    search_property(b, strings, past_name(b, off + 4), name)
}

/// The node lies in the structure block.
pub open spec fn placed(n: Node, b: Seq<u8>) -> bool {
    n.offset + 4 <= b.len()
}

/// Entry `index` of the registers in the value of `reg`: base and size.
pub open spec fn register_entry(value: Seq<u8>, index: int, ac: u32, sc: u32) -> Option<(u64, u64)> {
    let size = (ac + sc) * 4;
    let off = index * size;
    if off + size > value.len() {
        None
    } else {
        match (
            cell::cells_at(value, off, ac),
            cell::cells_at(value, cell::offset_after(value, off, ac), sc),
        ) {
            (Some(base), Some(len)) => Some((base, len)),
            _ => None,
        }
    }
}

impl Node {
    /// The name of the node; empty if it is not well-formed UTF-8.
    pub fn name<'a>(&self, dtb: &Dtb<'a>) -> (r: &'a [u8])
        requires
            dtb.wf(),
            placed(*self, dtb.block()),
        ensures
            r@ == text::utf8_or(raw_name(dtb.block(), self.offset as int), Seq::empty()),
    {
        dtb.node_name(self.offset)
    }

    /// Base and size of entry `index` of the registers.
    pub fn property_reg(&self, dtb: &Dtb, index: usize) -> (r: Option<(u64, u64)>)
        requires
            dtb.wf(),
            placed(*self, dtb.block()),
        ensures
            r == (match property_of(
                dtb.block(),
                dtb.strings(),
                self.offset as int,
                text::utf8("reg"),
            ) {
                Some(v) => register_entry(v, index as int, self.address_cells, self.size_cells),
                None => None,
            }),
    {
        let raw: &[u8] = match dtb.node_property_raw(self.offset, "reg") {
            Some(v) => v,
            None => {
                return None;
            },
        };
        let cells: u64 = self.address_cells as u64 + self.size_cells as u64;
        let size: u128 = cells as u128 * 4;
        assert(0 <= index * size <= 0xFFFF_FFFF_FFFF_FFFF * 0x8_0000_0000) by (nonlinear_arith)
            requires
                0 <= index <= 0xFFFF_FFFF_FFFF_FFFF,
                0 <= size <= 0x8_0000_0000,
        ;
        let off: u128 = index as u128 * size;
        let len: usize = raw.len();
        if off + size > len as u128 {
            return None;
        }
        let mut pos: usize = off as usize;
        match read_cells(raw, &mut pos, self.address_cells) {
            Some(base) => match read_cells(raw, &mut pos, self.size_cells) {
                Some(n) => Some((base, n)),
                None => None,
            },
            None => None,
        }
    }

    /// The first cell of the property.
    pub fn property_u32(&self, dtb: &Dtb, name: &str) -> (r: Option<u32>)
        requires
            dtb.wf(),
            placed(*self, dtb.block()),
        ensures
            r == (match property_of(
                dtb.block(),
                dtb.strings(),
                self.offset as int,
                text::utf8(name),
            ) {
                Some(v) => cell::cell_at(v, 0),
                None => None,
            }),
    {
        match dtb.node_property_raw(self.offset, name) {
            Some(v) => read_cell_u32(v, 0),
            None => None,
        }
    }

    /// The property as text, up to its first zero byte; `None` if that is not well-formed UTF-8.
    pub fn property_string<'a>(&self, dtb: &Dtb<'a>, name: &str) -> (r: Option<&'a str>)
        requires
            dtb.wf(),
            placed(*self, dtb.block()),
        ensures
            match text_property(dtb.block(), dtb.strings(), self.offset as int, text::utf8(name)) {
                Some(t) => r matches Some(s) && text::utf8(s) == t,
                None => r is None,
            },
    {
        match dtb.node_property_raw(self.offset, name) {
            Some(v) => {
                let z: usize = find_zero(v, 0, v.len());
                text::from_utf8(slice_subrange(v, 0, z))
            },
            None => None,
        }
    }

    /// The value of the property.
    pub fn property_raw<'a>(&self, dtb: &Dtb<'a>, name: &str) -> (r: Option<&'a [u8]>)
        requires
            dtb.wf(),
            placed(*self, dtb.block()),
        ensures
            match property_of(
                dtb.block(),
                dtb.strings(),
                self.offset as int,
                text::utf8(name),
            ) {
                Some(v) => r matches Some(s) && s@ == v,
                None => r is None,
            },
    {
        dtb.node_property_raw(self.offset, name)
    }
}

/// The property as text, up to its first zero byte; `None` if that is not well-formed UTF-8.
pub open spec fn text_property(b: Seq<u8>, strings: Seq<u8>, off: int, name: Seq<u8>) -> Option<
    Seq<u8>,
> {
    match property_of(b, strings, off, name) {
        Some(v) => {
            let t = v.subrange(0, bytes::zero_at(v, 0, v.len() as int));
            if vstd::utf8::valid_utf8(t) {
                Some(t)
            } else {
                None
            }
        },
        None => None,
    }
}

} // verus!
