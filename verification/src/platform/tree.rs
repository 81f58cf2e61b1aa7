//! Device trees as trees, and that the walk over the structure block finds their nodes.
use vstd::prelude::*;
use crate::platform::bytes;
use crate::platform::dtb;
use crate::platform::dtb::{Node, WalkPlace};
use crate::platform::encoding;
use crate::platform::walk::TokenView;
use crate::text;

verus! {

/// A part of a device tree: a node or padding. A node has a name, properties with padding among them,
/// and parts inside it.
pub enum Part {
    Padding,
    Node { name: Seq<u8>, head: Seq<TokenView>, parts: Seq<Part> },
}

/// Bytes of the start of a node.
pub open spec fn start_len(name: Seq<u8>) -> int {
    4 + bytes::aligned(name.len() as int + 1)
}

/// Bytes of a property or of padding.
pub open spec fn item_len(t: TokenView) -> int {
    match t {
        TokenView::Property(_, value) => 12 + bytes::aligned(value.len() as int),
        _ => 4,
    }
}

/// Bytes of the properties of a node.
pub open spec fn head_len(head: Seq<TokenView>) -> int
    decreases head.len(),
{
    if head.len() == 0 {
        0
    } else {
        head_len(head.drop_last()) + item_len(head.last())
    }
}

/// Bytes of a part.
pub open spec fn part_len(p: Part) -> int
    decreases p,
{
    match p {
        Part::Padding => 4,
        Part::Node { name, head, parts } => start_len(name) + head_len(head) + parts_len(parts) + 4,
    }
}

/// Bytes of parts that stand one behind the other.
pub open spec fn parts_len(ps: Seq<Part>) -> int
    decreases ps,
{
    if ps.len() == 0 {
        0
    } else {
        part_len(ps[0]) + parts_len(ps.drop_first())
    }
}

/// The block holds the properties from `pos` on.
pub open spec fn head_written(b: Seq<u8>, strings: Seq<u8>, pos: int, head: Seq<TokenView>) -> bool
    decreases head.len(),
{
    head.len() == 0 || {
        let t = head.last();
        let at = pos + head_len(head.drop_last());
        &&& head_written(b, strings, pos, head.drop_last())
        &&& t is Property || t is Nop
        &&& encoding::written(b, strings, at, t, at + item_len(t))
    }
}

/// The block holds the part from `pos` on.
pub open spec fn part_written(b: Seq<u8>, strings: Seq<u8>, pos: int, p: Part) -> bool
    decreases p,
{
    match p {
        Part::Padding => encoding::written(b, strings, pos, TokenView::Nop, pos + 4),
        Part::Node { name, head, parts } => {
            let at = pos + start_len(name);
            let inner = at + head_len(head);
            let end = inner + parts_len(parts);
            &&& encoding::written(b, strings, pos, TokenView::BeginNode(name), at)
            &&& head_written(b, strings, at, head)
            &&& parts_written(b, strings, inner, parts)
            &&& encoding::written(b, strings, end, TokenView::EndNode, end + 4)
        },
    }
}

/// The block holds the parts from `pos` on, one behind the other.
pub open spec fn parts_written(b: Seq<u8>, strings: Seq<u8>, pos: int, ps: Seq<Part>) -> bool
    decreases ps,
{
    ps.len() == 0 || {
        &&& part_written(b, strings, pos, ps[0])
        &&& parts_written(b, strings, pos + part_len(ps[0]), ps.drop_first())
    }
}

/// The nodes of the part are nested in at most `levels` levels.
pub open spec fn nested(p: Part, levels: int) -> bool
    decreases p,
{
    match p {
        Part::Padding => true,
        Part::Node { name, head, parts } => levels > 0 && all_nested(parts, levels - 1),
    }
}

/// The nodes of the parts are nested in at most `levels` levels.
pub open spec fn all_nested(ps: Seq<Part>, levels: int) -> bool
    decreases ps,
{
    ps.len() == 0 || nested(ps[0], levels) && all_nested(ps.drop_first(), levels)
}

/// The cells in force in a node with the properties: its own property of one cell with the name, the
/// last one if there are several, or what is in force around the node.
pub open spec fn in_force(head: Seq<TokenView>, name: Seq<u8>, around: u32) -> u32
    decreases head.len(),
{
    if head.len() == 0 {
        around
    } else {
        match head.last() {
            TokenView::Property(n, value) if n == name && value.len() == 4 => bytes::be32(value, 0),
            _ => in_force(head.drop_last(), name, around),
        }
    }
}

/// The address cells in force in a node.
pub open spec fn address_cells(head: Seq<TokenView>, around: u32) -> u32 {
    in_force(head, text::utf8("#address-cells"), around)
}

/// The size cells in force in a node.
pub open spec fn size_cells(head: Seq<TokenView>, around: u32) -> u32 {
    in_force(head, text::utf8("#size-cells"), around)
}

/// The nodes of a part at `pos`, a node before those inside it, each with the cells in force at its
/// parent. The subtree of `chosen` is left out.
pub open spec fn part_nodes(p: Part, pos: int, ac: u32, sc: u32) -> Seq<Node>
    decreases p,
{
    match p {
        Part::Padding => Seq::empty(),
        Part::Node { name, head, parts } => if name == text::utf8("chosen") {
            Seq::empty()
        } else {
            seq![Node { offset: pos as u32, address_cells: ac, size_cells: sc }] + parts_nodes(
                parts,
                pos + start_len(name) + head_len(head),
                address_cells(head, ac),
                size_cells(head, sc),
            )
        },
    }
}

/// The nodes of parts that stand one behind the other from `pos` on.
pub open spec fn parts_nodes(ps: Seq<Part>, pos: int, ac: u32, sc: u32) -> Seq<Node>
    decreases ps,
{
    if ps.len() == 0 {
        Seq::empty()
    } else {
        part_nodes(ps[0], pos, ac, sc) + parts_nodes(
            ps.drop_first(),
            pos + part_len(ps[0]),
            ac,
            sc,
        )
    }
}

/// The nodes that a walk from the place on finds, in the order in which it finds them.
pub open spec fn walked(b: Seq<u8>, strings: Seq<u8>, w: WalkPlace) -> Seq<Node>
    decreases
            if w.cursor < b.len() {
                b.len() - w.cursor
            } else {
                0
            },
{
    proof {
        dtb::lemma_next_node(b, strings, w);
    }
    match dtb::next_node(b, strings, w) {
        (Some(n), v) => seq![n] + walked(b, strings, v),
        (None, _) => Seq::empty(),
    }
}

/// Parts have whole words.
proof fn lemma_part_len(p: Part)
    ensures
        part_len(p) >= 4,
        part_len(p) % 4 == 0,
    decreases p,
{
    if let Part::Node { name, head, parts } = p {
        lemma_head_len(head);
        lemma_parts_len(parts);
    }
}

/// Parts have whole words.
proof fn lemma_parts_len(ps: Seq<Part>)
    ensures
        parts_len(ps) >= 0,
        parts_len(ps) % 4 == 0,
    decreases ps,
{
    if ps.len() > 0 {
        lemma_part_len(ps[0]);
        lemma_parts_len(ps.drop_first());
    }
}

/// Properties have whole words.
proof fn lemma_head_len(head: Seq<TokenView>)
    ensures
        head_len(head) >= 0,
        head_len(head) % 4 == 0,
    decreases head.len(),
{
    if head.len() > 0 {
        lemma_head_len(head.drop_last());
    }
}

/// The walk goes word by word.
proof fn lemma_walked_step(b: Seq<u8>, strings: Seq<u8>, w: WalkPlace)
    requires
        dtb::in_bounds(b, w.cursor),
    ensures
        walked(b, strings, w) == (match dtb::pace(
            b,
            strings,
            WalkPlace { cursor: w.cursor + 4, ..w },
            bytes::be32(b, w.cursor),
        ) {
            dtb::Pace::On(v) => walked(b, strings, v),
            dtb::Pace::At(n, v) => seq![n] + walked(b, strings, v),
            dtb::Pace::Stop(_) => Seq::empty(),
        }),
{
}

/// The places have the same cells for the first `d` levels.
pub open spec fn same_below(w: WalkPlace, v: WalkPlace, d: int) -> bool {
    &&& w.address.len() == 16
    &&& w.size.len() == 16
    &&& v.address.len() == 16
    &&& v.size.len() == 16
    &&& forall|i: int|
        #![trigger v.address[i]]
        #![trigger v.size[i]]
        0 <= i < d && i < 16 ==> v.address[i] == w.address[i] && v.size[i] == w.size[i]
}

/// The walk passes a property or padding; a property may set the cells of the innermost node.
proof fn lemma_item(b: Seq<u8>, strings: Seq<u8>, w: WalkPlace, t: TokenView) -> (v: WalkPlace)
    requires
        encoding::written(b, strings, w.cursor, t, w.cursor + item_len(t)),
        t is Property || t is Nop,
        w.depth > 0,
        w.address.len() == 16,
        w.size.len() == 16,
    ensures
        walked(b, strings, w) == walked(b, strings, v),
        v.cursor == w.cursor + item_len(t),
        v.depth == w.depth,
        v.skip == w.skip,
        same_below(w, v, w.depth - 1),
        w.depth <= 16 ==> v.address[w.depth - 1] == address_cells(
            seq![t],
            w.address[w.depth - 1],
        ),
        w.depth <= 16 ==> v.size[w.depth - 1] == size_cells(seq![t], w.size[w.depth - 1]),
{
    let past = WalkPlace { cursor: w.cursor + 4, ..w };
    lemma_walked_step(b, strings, w);
    assert(seq![t].last() == t);
    assert(seq![t].drop_last() =~= Seq::<TokenView>::empty());
    match t {
        TokenView::Property(name, value) => {
            let v = dtb::after_property(
                b,
                strings,
                past,
                value.len() as u32,
                bytes::be32(b, past.cursor + 4),
            );
            assert(dtb::prop_name(strings, bytes::be32(b, past.cursor + 4) as int) == name);
            if value.len() == 4 {
                assert forall|i: int| 0 <= i < 4 implies value[i] == b[w.cursor + 12 + i] by {
                    assert(value[i] == b.subrange(w.cursor + 12, w.cursor + 12 + value.len())[i]);
                }
                assert(bytes::be32(value, 0) == bytes::be32(b, w.cursor + 12));
            }
            lemma_names_differ();
            reveal_with_fuel(in_force, 2);
            v
        },
        _ => {
            reveal_with_fuel(in_force, 2);
            past
        },
    }
}

/// The two names differ.
proof fn lemma_names_differ()
    ensures
        text::utf8("#address-cells") != text::utf8("#size-cells"),
{
    reveal_strlit("#address-cells");
    reveal_strlit("#size-cells");
    text::lemma_ascii_len("#address-cells");
    text::lemma_ascii_len("#size-cells");
}

/// The cells in force after one more property.
proof fn lemma_in_force(head: Seq<TokenView>, name: Seq<u8>, around: u32)
    requires
        head.len() > 0,
    ensures
        in_force(head, name, around) == in_force(
            seq![head.last()],
            name,
            in_force(head.drop_last(), name, around),
        ),
{
    let one = seq![head.last()];
    assert(one.last() == head.last());
    assert(one.drop_last() =~= Seq::<TokenView>::empty());
    reveal_with_fuel(in_force, 2);
}

/// The walk passes the properties of a node, which set its cells.
proof fn lemma_head(b: Seq<u8>, strings: Seq<u8>, w: WalkPlace, head: Seq<TokenView>) -> (v: WalkPlace)
    requires
        head_written(b, strings, w.cursor, head),
        w.depth > 0,
        w.address.len() == 16,
        w.size.len() == 16,
    ensures
        walked(b, strings, w) == walked(b, strings, v),
        v.cursor == w.cursor + head_len(head),
        v.depth == w.depth,
        v.skip == w.skip,
        same_below(w, v, w.depth - 1),
        w.depth <= 16 ==> v.address[w.depth - 1] == address_cells(head, w.address[w.depth - 1]),
        w.depth <= 16 ==> v.size[w.depth - 1] == size_cells(head, w.size[w.depth - 1]),
    decreases head.len(),
{
    if head.len() == 0 {
        w
    } else {
        let u = lemma_head(b, strings, w, head.drop_last());
        let v = lemma_item(b, strings, u, head.last());
        if w.depth <= 16 {
            lemma_in_force(head, text::utf8("#address-cells"), w.address[w.depth - 1]);
            lemma_in_force(head, text::utf8("#size-cells"), w.size[w.depth - 1]);
        }
        v
    }
}

/// The start of a node is read as it was written.
proof fn lemma_start(b: Seq<u8>, strings: Seq<u8>, pos: int, name: Seq<u8>)
    requires
        pos % 4 == 0,
        encoding::written(b, strings, pos, TokenView::BeginNode(name), pos + start_len(name)),
    ensures
        dtb::raw_name(b, pos) == name,
        dtb::past_name(b, pos + 4) == pos + start_len(name),
{
    let p = pos + 4;
    let z = p + name.len();
    assert forall|i: int| p <= i < z implies #[trigger] b[i] != 0 by {
        assert(name[i - p] == b.subrange(p, z)[i - p]);
    }
    bytes::lemma_zero_is(b, p, b.len() as int, z);
    assert(bytes::aligned(p + (name.len() as int + 1)) == p + bytes::aligned(
        name.len() as int + 1,
    ));
}

/// The walk passes the end of a node.
proof fn lemma_end(b: Seq<u8>, strings: Seq<u8>, w: WalkPlace) -> (v: WalkPlace)
    requires
        encoding::written(b, strings, w.cursor, TokenView::EndNode, w.cursor + 4),
        w.depth > 0,
    ensures
        walked(b, strings, w) == walked(b, strings, v),
        v == (WalkPlace {
            cursor: w.cursor + 4,
            depth: w.depth - 1,
            skip: if w.skip > 0 {
                w.skip - 1
            } else {
                w.skip
            },
            ..w
        }),
{
    lemma_walked_step(b, strings, w);
    WalkPlace {
        cursor: w.cursor + 4,
        depth: w.depth - 1,
        skip: if w.skip > 0 {
            w.skip - 1
        } else {
            w.skip
        },
        ..w
    }
}

/// The walk finds nothing in a part of a subtree that is left out.
proof fn lemma_hidden(b: Seq<u8>, strings: Seq<u8>, w: WalkPlace, p: Part) -> (v: WalkPlace)
    requires
        part_written(b, strings, w.cursor, p),
        0 < w.cursor,
        w.cursor % 4 == 0,
        w.skip > 0,
        w.depth > 0,
        w.address.len() == 16,
        w.size.len() == 16,
    ensures
        walked(b, strings, w) == walked(b, strings, v),
        v.cursor == w.cursor + part_len(p),
        v.depth == w.depth,
        v.skip == w.skip,
        same_below(w, v, w.depth),
    decreases p,
{
    lemma_walked_step(b, strings, w);
    match p {
        Part::Padding => WalkPlace { cursor: w.cursor + 4, ..w },
        Part::Node { name, head, parts } => {
            lemma_start(b, strings, w.cursor, name);
            lemma_head_len(head);
            let inside = WalkPlace {
                cursor: w.cursor + start_len(name),
                depth: w.depth + 1,
                skip: w.skip + 1,
                ..w
            };
            let u = lemma_head(b, strings, inside, head);
            let x = lemma_all_hidden(b, strings, u, parts);
            lemma_end(b, strings, x)
        },
    }
}

/// The walk finds nothing in the parts of a subtree that is left out.
proof fn lemma_all_hidden(b: Seq<u8>, strings: Seq<u8>, w: WalkPlace, ps: Seq<Part>) -> (v: WalkPlace)
    requires
        parts_written(b, strings, w.cursor, ps),
        0 < w.cursor,
        w.cursor % 4 == 0,
        w.skip > 0,
        w.depth > 0,
        w.address.len() == 16,
        w.size.len() == 16,
    ensures
        walked(b, strings, w) == walked(b, strings, v),
        v.cursor == w.cursor + parts_len(ps),
        v.depth == w.depth,
        v.skip == w.skip,
        same_below(w, v, w.depth),
    decreases ps,
{
    if ps.len() == 0 {
        w
    } else {
        lemma_part_len(ps[0]);
        let u = lemma_hidden(b, strings, w, ps[0]);
        lemma_all_hidden(b, strings, u, ps.drop_first())
    }
}

/// The walk finds the nodes of a part.
proof fn lemma_found(b: Seq<u8>, strings: Seq<u8>, w: WalkPlace, p: Part, levels: int) -> (v:
    WalkPlace)
    requires
        part_written(b, strings, w.cursor, p),
        nested(p, levels),
        0 < w.cursor,
        w.cursor % 4 == 0,
        w.skip == 0,
        0 < w.depth,
        w.depth + levels <= 16,
        levels >= 0,
        w.address.len() == 16,
        w.size.len() == 16,
    ensures
        walked(b, strings, w) == part_nodes(
            p,
            w.cursor,
            w.address[w.depth - 1],
            w.size[w.depth - 1],
        ) + walked(b, strings, v),
        v.cursor == w.cursor + part_len(p),
        v.depth == w.depth,
        v.skip == 0,
        same_below(w, v, w.depth),
    decreases p,
{
    lemma_walked_step(b, strings, w);
    match p {
        Part::Padding => {
            let v = WalkPlace { cursor: w.cursor + 4, ..w };
            assert(Seq::<Node>::empty() + walked(b, strings, v) =~= walked(b, strings, v));
            v
        },
        Part::Node { name, head, parts } => {
            lemma_start(b, strings, w.cursor, name);
            lemma_head_len(head);
            let d = w.depth;
            let ac = w.address[d - 1];
            let sc = w.size[d - 1];
            if name == text::utf8("chosen") {
                let inside = WalkPlace {
                    cursor: w.cursor + start_len(name),
                    depth: d + 1,
                    skip: 1,
                    ..w
                };
                let u = lemma_head(b, strings, inside, head);
                let x = lemma_all_hidden(b, strings, u, parts);
                let v = lemma_end(b, strings, x);
                assert(Seq::<Node>::empty() + walked(b, strings, v) =~= walked(b, strings, v));
                v
            } else {
                let inside = WalkPlace {
                    cursor: w.cursor + start_len(name),
                    depth: d + 1,
                    address: dtb::with_cells(w.address, d, ac),
                    size: dtb::with_cells(w.size, d, sc),
                    ..w
                };
                let n = Node { offset: w.cursor as u32, address_cells: ac, size_cells: sc };
                assert(walked(b, strings, w) == seq![n] + walked(b, strings, inside));
                let u = lemma_head(b, strings, inside, head);
                let x = lemma_all_found(b, strings, u, parts, levels - 1);
                let v = lemma_end(b, strings, x);
                let inner = parts_nodes(parts, u.cursor, u.address[d], u.size[d]);
                assert(seq![n] + (inner + walked(b, strings, v)) =~= (seq![n] + inner) + walked(
                    b,
                    strings,
                    v,
                ));
                v
            }
        },
    }
}

/// The walk finds the nodes of parts that stand one behind the other.
proof fn lemma_all_found(b: Seq<u8>, strings: Seq<u8>, w: WalkPlace, ps: Seq<Part>, levels: int) -> (v:
    WalkPlace)
    requires
        parts_written(b, strings, w.cursor, ps),
        all_nested(ps, levels),
        0 < w.cursor,
        w.cursor % 4 == 0,
        w.skip == 0,
        0 < w.depth,
        w.depth + levels <= 16,
        levels >= 0,
        w.address.len() == 16,
        w.size.len() == 16,
    ensures
        walked(b, strings, w) == parts_nodes(
            ps,
            w.cursor,
            w.address[w.depth - 1],
            w.size[w.depth - 1],
        ) + walked(b, strings, v),
        v.cursor == w.cursor + parts_len(ps),
        v.depth == w.depth,
        v.skip == 0,
        same_below(w, v, w.depth),
    decreases ps,
{
    if ps.len() == 0 {
        assert(Seq::<Node>::empty() + walked(b, strings, w) =~= walked(b, strings, w));
        w
    } else {
        let ac = w.address[w.depth - 1];
        let sc = w.size[w.depth - 1];
        lemma_part_len(ps[0]);
        let u = lemma_found(b, strings, w, ps[0], levels);
        let v = lemma_all_found(b, strings, u, ps.drop_first(), levels);
        assert(u.address[w.depth - 1] == ac && u.size[w.depth - 1] == sc);
        let first = part_nodes(ps[0], w.cursor, ac, sc);
        let rest = parts_nodes(ps.drop_first(), u.cursor, ac, sc);
        assert(first + (rest + walked(b, strings, v)) =~= (first + rest) + walked(b, strings, v));
        v
    }
}

/// The block is the device tree with the root node, which begins the block and is followed by its
/// end.
pub open spec fn is_tree(b: Seq<u8>, strings: Seq<u8>, root: Part) -> bool {
    &&& root is Node
    &&& part_written(b, strings, 0, root)
    &&& encoding::written(b, strings, part_len(root), TokenView::End, part_len(root) + 4)
}

/// The nodes of the device tree: all but the root and the subtree of `chosen`, a node before those
/// inside it, in the order in which they are written. At the top, numbers have two cells.
pub open spec fn tree_nodes(root: Part) -> Seq<Node> {
    match root {
        Part::Padding => Seq::empty(),
        Part::Node { name, head, parts } => parts_nodes(
            parts,
            start_len(name) + head_len(head),
            address_cells(head, 2),
            size_cells(head, 2),
        ),
    }
}

/// The whole walk finds every node but the root and the subtree of `chosen`, each once, in the order
/// in which they are written, and each with the cells in force at its parent.
pub proof fn law_walk_finds_nodes(b: Seq<u8>, strings: Seq<u8>, root: Part)
    requires
        is_tree(b, strings, root),
        nested(root, 16),
    ensures
        walked(b, strings, dtb::walk_start()) == tree_nodes(root),
{
    let w = dtb::walk_start();
    if let Part::Node { name, head, parts } = root {
        lemma_walked_step(b, strings, w);
        lemma_start(b, strings, 0, name);
        lemma_head_len(head);
        let inside = WalkPlace { cursor: start_len(name), depth: 1, ..w };
        let u = lemma_head(b, strings, inside, head);
        let x = lemma_all_found(b, strings, u, parts, 15);
        let v = lemma_end(b, strings, x);
        lemma_walked_step(b, strings, v);
        assert(tree_nodes(root) + Seq::<Node>::empty() =~= tree_nodes(root));
    }
}

/// The nodes of a part lie in it, one behind the other.
proof fn lemma_part_in_order(p: Part, pos: int, ac: u32, sc: u32)
    requires
        0 <= pos,
        pos + part_len(p) <= u32::MAX,
    ensures
        in_order(part_nodes(p, pos, ac, sc), pos, pos + part_len(p)),
    decreases p,
{
    lemma_part_len(p);
    if let Part::Node { name, head, parts } = p {
        lemma_head_len(head);
        lemma_parts_len(parts);
        if name != text::utf8("chosen") {
            lemma_parts_in_order(
                parts,
                pos + start_len(name) + head_len(head),
                address_cells(head, ac),
                size_cells(head, sc),
            );
        }
    }
}

/// The nodes of parts lie in them, one behind the other.
proof fn lemma_parts_in_order(ps: Seq<Part>, pos: int, ac: u32, sc: u32)
    requires
        0 <= pos,
        pos + parts_len(ps) <= u32::MAX,
    ensures
        in_order(parts_nodes(ps, pos, ac, sc), pos, pos + parts_len(ps)),
    decreases ps,
{
    if ps.len() > 0 {
        lemma_part_len(ps[0]);
        lemma_parts_len(ps.drop_first());
        lemma_part_in_order(ps[0], pos, ac, sc);
        lemma_parts_in_order(ps.drop_first(), pos + part_len(ps[0]), ac, sc);
    }
}

/// The nodes lie between the places, one behind the other.
pub open spec fn in_order(ns: Seq<Node>, from: int, to: int) -> bool {
    &&& forall|i: int| 0 <= i < ns.len() ==> from <= (#[trigger] ns[i]).offset < to
    &&& forall|i: int, j: int|
        #![trigger ns[i], ns[j]]
        0 <= i < j < ns.len() ==> ns[i].offset < ns[j].offset
}

/// No node of a device tree comes twice, and none comes before one that is written before it.
pub proof fn law_nodes_in_order(root: Part)
    requires
        root is Node,
        part_len(root) <= u32::MAX,
    ensures
        in_order(tree_nodes(root), 0, part_len(root)),
{
    lemma_part_len(root);
    if let Part::Node { name, head, parts } = root {
        lemma_head_len(head);
        lemma_parts_len(parts);
        lemma_parts_in_order(
            parts,
            start_len(name) + head_len(head),
            address_cells(head, 2),
            size_cells(head, 2),
        );
    }
}

/// A part is among the parts that it stands among.
proof fn lemma_child(ps: Seq<Part>, k: int, pos: int, ac: u32, sc: u32)
    requires
        0 <= k < ps.len(),
        ps[k] matches Part::Node { name, head, parts } && name != text::utf8("chosen"),
    ensures
        parts_nodes(ps, pos, ac, sc).contains(
            (Node {
                offset: (pos + parts_len(ps.take(k))) as u32,
                address_cells: ac,
                size_cells: sc,
            }),
        ),
    decreases k,
{
    let n = Node {
        offset: (pos + parts_len(ps.take(k))) as u32,
        address_cells: ac,
        size_cells: sc,
    };
    let first = part_nodes(ps[0], pos, ac, sc);
    let rest = parts_nodes(ps.drop_first(), pos + part_len(ps[0]), ac, sc);
    if k == 0 {
        assert(first[0] == n);
        assert((first + rest)[0] == n);
    } else {
        lemma_child(ps.drop_first(), k - 1, pos + part_len(ps[0]), ac, sc);
        assert(ps.take(k).drop_first() =~= ps.drop_first().take(k - 1));
        let i = choose|i: int| 0 <= i < rest.len() && rest[i] == n;
        assert((first + rest)[first.len() + i] == n);
    }
}

/// A node has the cells in force at its parent: those that the parent sets, or what is in force
/// around the parent where it sets none. Its own properties do not matter.
pub proof fn law_cells_of_parent(
    name: Seq<u8>,
    head: Seq<TokenView>,
    parts: Seq<Part>,
    k: int,
    pos: int,
    ac: u32,
    sc: u32,
)
    requires
        name != text::utf8("chosen"),
        0 <= k < parts.len(),
        parts[k] matches Part::Node { name: n, head: h, parts: q } && n != text::utf8("chosen"),
    ensures
        part_nodes((Part::Node { name, head, parts }), pos, ac, sc).contains(
            (Node {
                offset: (pos + start_len(name) + head_len(head) + parts_len(
                    parts.take(k),
                )) as u32,
                address_cells: address_cells(head, ac),
                size_cells: size_cells(head, sc),
            }),
        ),
{
    let at = pos + start_len(name) + head_len(head);
    let inner = parts_nodes(parts, at, address_cells(head, ac), size_cells(head, sc));
    let outer = part_nodes(Part::Node { name, head, parts }, pos, ac, sc);
    lemma_child(parts, k, at, address_cells(head, ac), size_cells(head, sc));
    let n = Node {
        offset: (at + parts_len(parts.take(k))) as u32,
        address_cells: address_cells(head, ac),
        size_cells: size_cells(head, sc),
    };
    let i = choose|i: int| 0 <= i < inner.len() && inner[i] == n;
    assert(outer[i + 1] == n);
}

} // verus!
