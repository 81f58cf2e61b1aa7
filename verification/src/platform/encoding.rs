//! How tokens are written in a structure block, and that reading gives back what was written.
use vstd::prelude::*;
use crate::platform::bytes;
use crate::platform::dtb;
use crate::platform::walk;
use crate::platform::walk::TokenView;
use crate::text;

verus! {

/// The bytes of the block from `pos` to `end` are the token.
pub open spec fn written(b: Seq<u8>, strings: Seq<u8>, pos: int, t: TokenView, end: int) -> bool {
    &&& 0 <= pos
    &&& end <= b.len()
    &&& match t {
        TokenView::BeginNode(name) => {
            &&& end == pos + 4 + bytes::aligned(name.len() as int + 1)
            &&& bytes::be32(b, pos) == walk::BEGIN_NODE
            &&& b.subrange(pos + 4, pos + 4 + name.len()) == name
            &&& b[pos + 4 + name.len()] == 0
            &&& forall|i: int| 0 <= i < name.len() ==> #[trigger] name[i] != 0
            &&& vstd::utf8::valid_utf8(name)
        },
        TokenView::EndNode => end == pos + 4 && bytes::be32(b, pos) == walk::END_NODE,
        TokenView::Property(name, value) => {
            &&& end == pos + 12 + bytes::aligned(value.len() as int)
            &&& bytes::be32(b, pos) == walk::PROP
            &&& bytes::be32(b, pos + 4) == value.len()
            &&& walk::string_at(strings, bytes::be32(b, pos + 8) as int) == Some(name)
            &&& b.subrange(pos + 12, pos + 12 + value.len()) == value
        },
        TokenView::Nop => end == pos + 4 && bytes::be32(b, pos) == walk::NOP,
        TokenView::End => end == pos + 4 && bytes::be32(b, pos) == walk::END,
    }
}

/// A written token is read back, and reading goes on behind it.
pub proof fn law_written_is_read(b: Seq<u8>, strings: Seq<u8>, pos: int, t: TokenView, end: int)
    requires
        written(b, strings, pos, t, end),
    ensures
        walk::next_token(b, strings, pos, 0) == (
            Ok::<TokenView, walk::WalkError>(t),
            walk::Place { pos: end, skip: 0, finished: t is End },
        ),
{
    if let TokenView::BeginNode(name) = t {
        let p = pos + 4;
        let z = p + name.len();
        assert forall|i: int| p <= i < z implies #[trigger] b[i] != 0 by {
            assert(name[i - p] == b.subrange(p, z)[i - p]);
        }
        bytes::lemma_zero_is(b, p, b.len() as int, z);
    }
}

/// Whatever is read without an error was written there.
pub proof fn law_read_was_written(b: Seq<u8>, strings: Seq<u8>, pos: int, t: TokenView, end: int)
    requires
        0 <= pos,
        pos % 4 == 0,
        b.len() % 4 == 0,
        walk::next_token(b, strings, pos, 0).0 == Ok::<TokenView, walk::WalkError>(t),
        walk::next_token(b, strings, pos, 0).1.pos == end,
    ensures
        written(b, strings, pos, t, end),
{
    let p = pos + 4;
    bytes::lemma_zero_at(b, p, b.len() as int);
    let z = bytes::zero_at(b, p, b.len() as int);
    if let TokenView::BeginNode(name) = t {
        assert forall|i: int| 0 <= i < name.len() implies #[trigger] name[i] != 0 by {
            assert(name[i] == b[p + i]);
        }
    }
}

/// The tokens stand one behind the other: token `i` from `stops[i]` to `stops[i + 1]`.
pub open spec fn all_written(
    b: Seq<u8>,
    strings: Seq<u8>,
    ts: Seq<TokenView>,
    stops: Seq<int>,
) -> bool {
    &&& stops.len() == ts.len() + 1
    &&& forall|i: int|
        #![trigger ts[i]]
        0 <= i < ts.len() ==> written(b, strings, stops[i], ts[i], stops[i + 1])
}

/// The tokens close the last open node at their end and not before, and none of them ends the
/// block.
pub open spec fn closes(ts: Seq<TokenView>, depth: int) -> bool
    decreases ts.len(),
{
    if ts.len() == 0 {
        depth == 0
    } else {
        &&& depth > 0
        &&& !(ts[0] is End)
        &&& closes(
            ts.drop_first(),
            match ts[0] {
                TokenView::BeginNode(_) => depth + 1,
                TokenView::EndNode => depth - 1,
                _ => depth,
            },
        )
    }
}

/// Skipping a subtree skips exactly its tokens: the next token is the one behind the end of the
/// node.
pub proof fn law_skip_subtree(
    b: Seq<u8>,
    strings: Seq<u8>,
    ts: Seq<TokenView>,
    stops: Seq<int>,
    depth: int,
)
    requires
        all_written(b, strings, ts, stops),
        closes(ts, depth),
        depth > 0,
    ensures
        walk::next_token(b, strings, stops[0], depth) == walk::next_token(
            b,
            strings,
            stops.last(),
            0,
        ),
    decreases ts.len(),
{
    let pos = stops[0];
    let t = ts[0];
    let end = stops[1];
    assert(written(b, strings, pos, t, end));
    let next = match t {
        TokenView::BeginNode(_) => depth + 1,
        TokenView::EndNode => depth - 1,
        _ => depth,
    };
    if let TokenView::BeginNode(name) = t {
        let p = pos + 4;
        let z = p + name.len();
        assert forall|i: int| p <= i < z implies #[trigger] b[i] != 0 by {
            assert(name[i - p] == b.subrange(p, z)[i - p]);
        }
        bytes::lemma_zero_is(b, p, b.len() as int, z);
    }
    let word = bytes::be32(b, pos);
    let s = walk::skip_at(b, pos + 4, depth, word);
    assert(s.value == Ok::<int, walk::WalkError>(next) && s.next == end);
    assert(walk::next_token(b, strings, pos, depth) == walk::next_token(b, strings, end, next));
    let rest = ts.drop_first();
    let rest_stops = stops.drop_first();
    assert(closes(rest, next));
    if rest.len() > 0 {
        assert forall|i: int|
            #![trigger rest[i]]
            0 <= i < rest.len() implies written(
            b,
            strings,
            rest_stops[i],
            rest[i],
            rest_stops[i + 1],
        ) by {
            assert(written(b, strings, stops[i + 1], ts[i + 1], stops[i + 2]));
        }
        law_skip_subtree(b, strings, rest, rest_stops, next);
    }
}

/// The token is padding or a property with another name.
pub open spec fn passes(t: TokenView, name: Seq<u8>) -> bool {
    match t {
        TokenView::Property(n, _) => n != name,
        TokenView::Nop => true,
        _ => false,
    }
}

/// The search passes what is not asked for and finds what is.
proof fn lemma_search_finds(
    b: Seq<u8>,
    strings: Seq<u8>,
    ts: Seq<TokenView>,
    stops: Seq<int>,
    name: Seq<u8>,
    value: Seq<u8>,
)
    requires
        all_written(b, strings, ts, stops),
        ts.len() > 0,
        ts.last() == TokenView::Property(name, value),
        forall|i: int| 0 <= i < ts.len() - 1 ==> passes(#[trigger] ts[i], name),
    ensures
        dtb::search_property(b, strings, stops[0], name) == Some(value),
        stops[0] <= stops.last(),
    decreases ts.len(),
{
    let pos = stops[0];
    let end = stops[1];
    assert(written(b, strings, pos, ts[0], end));
    if ts.len() > 1 {
        let rest = ts.drop_first();
        let rest_stops = stops.drop_first();
        assert forall|i: int|
            #![trigger rest[i]]
            0 <= i < rest.len() implies written(
            b,
            strings,
            rest_stops[i],
            rest[i],
            rest_stops[i + 1],
        ) by {
            assert(written(b, strings, stops[i + 1], ts[i + 1], stops[i + 2]));
        }
        assert forall|i: int| 0 <= i < rest.len() - 1 implies passes(#[trigger] rest[i], name) by {
            assert(passes(ts[i + 1], name));
        }
        assert(passes(ts[0], name));
        lemma_search_finds(b, strings, rest, rest_stops, name, value);
    }
}

/// Padding counts from any word.
proof fn lemma_aligned(a: int, n: int)
    requires
        a % 4 == 0,
    ensures
        bytes::aligned(a + n) == a + bytes::aligned(n),
{
}

/// The name of a written node ends where the tokens inside the node begin.
proof fn lemma_past_name(b: Seq<u8>, strings: Seq<u8>, off: int, node: Seq<u8>, end: int)
    requires
        off % 4 == 0,
        written(b, strings, off, TokenView::BeginNode(node), end),
    ensures
        dtb::past_name(b, off + 4) == end,
{
    let p = off + 4;
    let z = p + node.len();
    assert forall|i: int| p <= i < z implies #[trigger] b[i] != 0 by {
        assert(node[i - p] == b.subrange(p, z)[i - p]);
    }
    bytes::lemma_zero_is(b, p, b.len() as int, z);
    lemma_aligned(p, node.len() as int + 1);
}

/// A property that was written for a node is found: the first one with the name counts.
pub proof fn law_property_found(
    b: Seq<u8>,
    strings: Seq<u8>,
    off: int,
    node: Seq<u8>,
    ts: Seq<TokenView>,
    stops: Seq<int>,
    name: Seq<u8>,
    value: Seq<u8>,
)
    requires
        off % 4 == 0,
        written(b, strings, off, TokenView::BeginNode(node), stops[0]),
        all_written(b, strings, ts, stops),
        ts.len() > 0,
        ts.last() == TokenView::Property(name, value),
        forall|i: int| 0 <= i < ts.len() - 1 ==> passes(#[trigger] ts[i], name),
    ensures
        dtb::property_of(b, strings, off, name) == Some(value),
{
    lemma_past_name(b, strings, off, node, stops[0]);
    lemma_search_finds(b, strings, ts, stops, name, value);
}

/// No property with the name stands directly in the innermost of `depth` open nodes that the tokens
/// close last. Nodes inside it may have one.
pub open spec fn lacks(ts: Seq<TokenView>, depth: int, name: Seq<u8>) -> bool
    decreases ts.len(),
{
    if ts.len() == 0 {
        true
    } else {
        match ts[0] {
            TokenView::BeginNode(_) => lacks(ts.drop_first(), depth + 1, name),
            TokenView::EndNode => lacks(ts.drop_first(), depth - 1, name),
            TokenView::Property(n, _) => (depth == 1 ==> n != name) && lacks(
                ts.drop_first(),
                depth,
                name,
            ),
            _ => lacks(ts.drop_first(), depth, name),
        }
    }
}

/// One token on the way to the end of the node.
proof fn lemma_search_step(
    b: Seq<u8>,
    strings: Seq<u8>,
    pos: int,
    t: TokenView,
    end: int,
    depth: int,
    name: Seq<u8>,
)
    requires
        written(b, strings, pos, t, end),
        depth > 0,
        !(t is End),
        t matches TokenView::BeginNode(_) ==> dtb::past_name(b, pos + 4) == end,
        t matches TokenView::Property(n, _) ==> depth == 1 ==> n != name,
        t is EndNode && depth == 1 || match dtb::past_nodes(
            b,
            end,
            match t {
                TokenView::BeginNode(_) => depth,
                TokenView::EndNode => depth - 2,
                _ => depth - 1,
            },
        ) {
            Some(e) => dtb::search_property(b, strings, e, name) is None,
            None => true,
        },
    ensures
        match dtb::past_nodes(b, pos, depth - 1) {
            Some(e) => dtb::search_property(b, strings, e, name) is None,
            None => true,
        },
{
    if depth == 1 {
        assert(dtb::past_nodes(b, pos, 0) == Some(pos));
        assert(dtb::past_nodes(b, end, 0) == Some(end));
    }
}

/// The search ends at the end of the node without a find; inside other nodes it first leaves them.
proof fn lemma_search_fails(
    b: Seq<u8>,
    strings: Seq<u8>,
    ts: Seq<TokenView>,
    stops: Seq<int>,
    depth: int,
    name: Seq<u8>,
)
    requires
        all_written(b, strings, ts, stops),
        stops[0] % 4 == 0,
        depth > 0,
        closes(ts, depth),
        lacks(ts, depth, name),
    ensures
        match dtb::past_nodes(b, stops[0], depth - 1) {
            Some(e) => dtb::search_property(b, strings, e, name) is None,
            None => true,
        },
    decreases ts.len(),
{
    let pos = stops[0];
    let t = ts[0];
    let end = stops[1];
    assert(written(b, strings, pos, t, end));
    let next = match t {
        TokenView::BeginNode(_) => depth + 1,
        TokenView::EndNode => depth - 1,
        _ => depth,
    };
    if let TokenView::BeginNode(node) = t {
        lemma_past_name(b, strings, pos, node, end);
    }
    let rest = ts.drop_first();
    let rest_stops = stops.drop_first();
    assert(closes(rest, next));
    assert(lacks(rest, next, name));
    assert(rest.len() == 0 ==> next == 0);
    if rest.len() > 0 {
        assert forall|i: int|
            #![trigger rest[i]]
            0 <= i < rest.len() implies written(
            b,
            strings,
            rest_stops[i],
            rest[i],
            rest_stops[i + 1],
        ) by {
            assert(written(b, strings, stops[i + 1], ts[i + 1], stops[i + 2]));
        }
        assert(next > 0);
        assert(end % 4 == 0);
        lemma_search_fails(b, strings, rest, rest_stops, next, name);
    }
    lemma_search_step(b, strings, pos, t, end, depth, name);
}

/// A property that a node lacks is not found, even if a node inside it has one with the name.
pub proof fn law_property_not_found(
    b: Seq<u8>,
    strings: Seq<u8>,
    off: int,
    node: Seq<u8>,
    ts: Seq<TokenView>,
    stops: Seq<int>,
    name: Seq<u8>,
)
    requires
        off % 4 == 0,
        written(b, strings, off, TokenView::BeginNode(node), stops[0]),
        all_written(b, strings, ts, stops),
        closes(ts, 1),
        lacks(ts, 1, name),
    ensures
        dtb::property_of(b, strings, off, name) is None,
{
    lemma_past_name(b, strings, off, node, stops[0]);
    lemma_search_fails(b, strings, ts, stops, 1, name);
}

/// The tokens lie between two nodes: none of them begins a node or ends the block, and inside `depth`
/// nodes none of them ends a node that is not open.
pub open spec fn between_nodes(ts: Seq<TokenView>, depth: int) -> bool
    decreases ts.len(),
{
    if ts.len() == 0 {
        true
    } else {
        match ts[0] {
            TokenView::EndNode => depth > 0 && between_nodes(ts.drop_first(), depth - 1),
            TokenView::Property(_, _) => between_nodes(ts.drop_first(), depth),
            TokenView::Nop => between_nodes(ts.drop_first(), depth),
            _ => false,
        }
    }
}

/// The walk over the nodes passes no node by: from wherever it stands, the next node that was
/// written, other than the root and `chosen`, is the next one that it finds.
pub proof fn law_next_node_found(
    b: Seq<u8>,
    strings: Seq<u8>,
    ts: Seq<TokenView>,
    stops: Seq<int>,
    name: Seq<u8>,
    w: dtb::WalkPlace,
)
    requires
        b.len() <= u32::MAX,
        all_written(b, strings, ts, stops),
        ts.len() > 0,
        between_nodes(ts.drop_last(), w.depth),
        ts.last() == TokenView::BeginNode(name),
        name != text::utf8("chosen"),
        w.cursor == stops[0],
        w.skip == 0,
        stops[ts.len() - 1] != 0,
    ensures
        dtb::next_node(b, strings, w).0 matches Some(n) && n.offset == stops[ts.len() - 1],
    decreases ts.len(),
{
    let pos = stops[0];
    let t = ts[0];
    let end = stops[1];
    assert(written(b, strings, pos, t, end));
    let past = dtb::WalkPlace { cursor: pos + 4, ..w };
    if ts.len() == 1 {
        let p = pos + 4;
        let z = p + name.len();
        assert forall|i: int| p <= i < z implies #[trigger] b[i] != 0 by {
            assert(name[i - p] == b.subrange(p, z)[i - p]);
        }
        bytes::lemma_zero_is(b, p, b.len() as int, z);
        assert(dtb::raw_name(b, pos) == name);
    } else {
        let rest = ts.drop_first();
        let rest_stops = stops.drop_first();
        assert(ts.drop_last()[0] == t);
        assert(ts.drop_last().drop_first() =~= rest.drop_last());
        assert forall|i: int|
            #![trigger rest[i]]
            0 <= i < rest.len() implies written(
            b,
            strings,
            rest_stops[i],
            rest[i],
            rest_stops[i + 1],
        ) by {
            assert(written(b, strings, stops[i + 1], ts[i + 1], stops[i + 2]));
        }
        match dtb::pace(b, strings, past, bytes::be32(b, pos)) {
            dtb::Pace::On(v) => {
                assert(v.cursor == end);
                law_next_node_found(b, strings, rest, rest_stops, name, v);
            },
            _ => {
                assert(false);
            },
        }
    }
}

/// The walk leaves the root out.
pub proof fn law_root_left_out(b: Seq<u8>, strings: Seq<u8>, w: dtb::WalkPlace)
    requires
        b.len() <= u32::MAX,
        0 <= w.cursor,
    ensures
        dtb::next_node(b, strings, w).0 matches Some(n) ==> n.offset != 0,
    decreases
            if w.cursor < b.len() {
                b.len() - w.cursor
            } else {
                0
            },
{
    if dtb::in_bounds(b, w.cursor) {
        let word = bytes::be32(b, w.cursor);
        let past = dtb::WalkPlace { cursor: w.cursor + 4, ..w };
        dtb::lemma_pace(b, strings, past, word);
        match dtb::pace(b, strings, past, word) {
            dtb::Pace::On(v) => {
                law_root_left_out(b, strings, v);
            },
            _ => {},
        }
    }
}

} // verus!
