//! What the search for the platform parameters finds in the properties of the nodes.
use vstd::prelude::*;
use crate::platform::bytes;
use crate::platform::cell;
use crate::platform::config;
use crate::platform::config::Survey;
use crate::platform::dev;
use crate::platform::dtb;
use crate::platform::dtb::{Node, WalkPlace};
use crate::platform::header;
use crate::platform::probe;
use crate::platform::probe::{Found, NodeKind, Pending, PlatformConfig, Probe};
use crate::platform::tree;
use crate::platform::walk;
use crate::platform::walk::{TokenView, WalkError};
use crate::text;

verus! {

/// The number that the `n` bytes from `from` on mean, the highest one first.
pub open spec fn big_endian(s: Seq<u8>, from: int, n: int) -> int
    decreases n,
{
    if n <= 0 {
        0
    } else {
        256 * big_endian(s, from, n - 1) + s[from + n - 1]
    }
}

/// Four bytes of a number.
proof fn lemma_four_bytes(s: Seq<u8>, from: int)
    ensures
        big_endian(s, from, 4) == bytes::be32(s, from),
        0 <= big_endian(s, from, 4) <= u32::MAX,
{
    reveal_with_fuel(big_endian, 5);
}

/// Eight bytes of a number.
proof fn lemma_eight_bytes(s: Seq<u8>, from: int)
    ensures
        big_endian(s, from, 8) == big_endian(s, from, 4) * 0x1_0000_0000 + big_endian(
            s,
            from + 4,
            4,
        ),
        0 <= big_endian(s, from, 8) <= u64::MAX,
{
    lemma_four_bytes(s, from);
    lemma_four_bytes(s, from + 4);
    reveal_with_fuel(big_endian, 9);
}

/// A cell is a number of four bytes, and is there exactly if its bytes are.
pub proof fn law_cell(data: Seq<u8>, offset: int)
    requires
        0 <= offset,
    ensures
        offset + 4 <= data.len() ==> (cell::cell_at(data, offset) matches Some(v) && v
            == big_endian(data, offset, 4)),
        offset + 4 > data.len() ==> cell::cell_at(data, offset) is None,
{
    lemma_four_bytes(data, offset);
}

/// Cells make one number: none make zero, one or two are read with the highest byte first, and more
/// than two are refused, as are those that are not all there.
pub proof fn law_cells(data: Seq<u8>, offset: int, cells: u32)
    requires
        0 <= offset,
    ensures
        cells <= 2 && offset + 4 * cells <= data.len() ==> (cell::cells_at(
            data,
            offset,
            cells,
        ) matches Some(v) && v == big_endian(data, offset, 4 * cells)) && cell::offset_after(
            data,
            offset,
            cells,
        ) == offset + 4 * cells,
        0 < cells && offset + 4 * cells > data.len() ==> cell::cells_at(data, offset, cells) is None,
        cells > 2 ==> cell::cells_at(data, offset, cells) is None,
        cell::cells_at(data, offset, cells) is None ==> cell::offset_after(data, offset, cells)
            == offset,
{
    lemma_four_bytes(data, offset);
    lemma_four_bytes(data, offset + 4);
    lemma_eight_bytes(data, offset);
    if cells == 0 {
        assert(big_endian(data, offset, 0) == 0);
    }
}

/// Registers are a base and, behind it, a size, as many cells each as the parent says.
pub proof fn law_registers(value: Seq<u8>, ac: u32, sc: u32)
    ensures
        0 < ac <= 2 && 0 < sc <= 2 && 4 * (ac + sc) <= value.len() ==> (probe::registers(
            value,
            ac,
            sc,
        ) matches Some((base, size)) && base == big_endian(value, 0, 4 * ac) && size
            == big_endian(value, 4 * ac, 4 * sc)),
        0 < sc && 4 * (ac + sc) > value.len() ==> probe::registers(value, ac, sc) is None,
        ac > 2 || sc > 2 ==> probe::registers(value, ac, sc) is None,
{
    law_cells(value, 0, ac);
    law_cells(value, cell::offset_after(value, 0, ac), sc);
}

/// No byte of the text is zero.
pub open spec fn no_zero(s: Seq<u8>) -> bool {
    forall|i: int| 0 <= i < s.len() ==> #[trigger] s[i] != 0
}

/// A list of texts with a zero byte behind each holds a text exactly if it is the first one or the
/// rest of the list holds it.
pub proof fn law_listed(first: Seq<u8>, rest: Seq<u8>, target: Seq<u8>)
    requires
        no_zero(first),
        first.len() > 0,
        target.len() > 0,
    ensures
        probe::listed(first.push(0) + rest, target) <==> first == target || probe::listed(
            rest,
            target,
        ),
        probe::listed(first, target) <==> first == target,
        !probe::listed(Seq::<u8>::empty(), target),
{
    let list = first.push(0) + rest;
    let n = first.len() as int;
    if first == target {
        assert(probe::entry(list, 0, n));
        assert(list.subrange(0, n) =~= target);
        assert(probe::entry(first, 0, n));
        assert(first.subrange(0, n) =~= target);
    }
    if probe::listed(rest, target) {
        let (i, j) = choose|i: int, j: int| #[trigger]
            probe::entry(rest, i, j) && rest.subrange(i, j) == target;
        if i == 0 {
            assert(list[n] == 0);
        } else {
            assert(list[i + n] == rest[i - 1]);
        }
        assert forall|k: int| i + n + 1 <= k < j + n + 1 implies #[trigger] list[k] != 0 by {
            assert(list[k] == rest[k - n - 1]);
        }
        if j < rest.len() {
            assert(list[j + n + 1] == rest[j]);
        }
        assert(probe::entry(list, i + n + 1, j + n + 1));
        assert(list.subrange(i + n + 1, j + n + 1) =~= target);
    }
    if probe::listed(list, target) && first != target {
        let (i, j) = choose|i: int, j: int| #[trigger]
            probe::entry(list, i, j) && list.subrange(i, j) == target;
        if i <= n {
            assert(list[n] == 0);
            if 0 < i {
                assert(list[i - 1] == first[i - 1]);
            } else if j < n {
                assert(list[j] == first[j]);
            } else {
                assert(list.subrange(0, n) =~= first);
            }
        }
        assert(i > n);
        let a = i - n - 1;
        let b = j - n - 1;
        if a > 0 {
            assert(list[i - 1] == rest[a - 1]);
        }
        if b < rest.len() {
            assert(list[j] == rest[b]);
        }
        assert forall|k: int| a <= k < b implies #[trigger] rest[k] != 0 by {
            assert(list[k + n + 1] == rest[k]);
        }
        assert(probe::entry(rest, a, b));
        assert(rest.subrange(a, b) =~= target);
    }
    if probe::listed(first, target) {
        let (i, j) = choose|i: int, j: int| #[trigger]
            probe::entry(first, i, j) && first.subrange(i, j) == target;
        assert(first.subrange(0, n) =~= first);
    }
}

/// Trimming takes zero bytes from the end and nothing else, and takes all of them.
pub proof fn law_trimmed(s: Seq<u8>)
    ensures
        probe::trimmed(s).len() <= s.len(),
        s.take(probe::trimmed(s).len() as int) == probe::trimmed(s),
        forall|i: int| probe::trimmed(s).len() <= i < s.len() ==> #[trigger] s[i] == 0,
        probe::trimmed(s).len() > 0 ==> probe::trimmed(s).last() != 0,
    decreases s.len(),
{
    if s.len() > 0 && s.last() == 0 {
        let t = s.drop_last();
        law_trimmed(t);
        let n = probe::trimmed(t).len() as int;
        assert(s.take(n) =~= t.take(n));
        assert forall|i: int| n <= i < s.len() implies #[trigger] s[i] == 0 by {
            if i < t.len() {
                assert(t[i] == 0);
            }
        }
    } else {
        assert(s.take(s.len() as int) =~= s);
    }
}

/// The property says that its node is of the kind: memory by its device type, a device by a name in
/// its list of compatible devices.
pub open spec fn tells(name: Seq<u8>, value: Seq<u8>, kind: NodeKind) -> bool {
    let uart = probe::listed(value, text::utf8("ns16550a")) || probe::listed(
        value,
        text::utf8("ns16550"),
    );
    let clint = probe::listed(value, text::utf8("riscv,clint0")) || probe::listed(
        value,
        text::utf8("sifive,clint0"),
    );
    let plic = probe::listed(value, text::utf8("riscv,plic0")) || probe::listed(
        value,
        text::utf8("sifive,plic0"),
    );
    match kind {
        NodeKind::Memory => name == text::utf8("device_type") && vstd::utf8::valid_utf8(value)
            && value.len() >= 6 && value.take(6) == text::utf8("memory") && forall|i: int|
            6 <= i < value.len() ==> #[trigger] value[i] == 0,
        NodeKind::Uart => name == text::utf8("compatible") && uart,
        NodeKind::Clint => name == text::utf8("compatible") && clint && !uart,
        NodeKind::Plic => name == text::utf8("compatible") && plic && !uart && !clint,
    }
}

/// The names of the properties differ.
proof fn lemma_names()
    ensures
        text::utf8("#address-cells") != text::utf8("#size-cells"),
        text::utf8("#address-cells") != text::utf8("device_type"),
        text::utf8("#address-cells") != text::utf8("compatible"),
        text::utf8("#address-cells") != text::utf8("reg"),
        text::utf8("#address-cells") != text::utf8("interrupts"),
        text::utf8("#address-cells") != text::utf8("timebase-frequency"),
        text::utf8("#size-cells") != text::utf8("device_type"),
        text::utf8("#size-cells") != text::utf8("compatible"),
        text::utf8("#size-cells") != text::utf8("reg"),
        text::utf8("#size-cells") != text::utf8("interrupts"),
        text::utf8("#size-cells") != text::utf8("timebase-frequency"),
        text::utf8("device_type") != text::utf8("compatible"),
        text::utf8("device_type") != text::utf8("reg"),
        text::utf8("device_type") != text::utf8("interrupts"),
        text::utf8("device_type") != text::utf8("timebase-frequency"),
        text::utf8("compatible") != text::utf8("reg"),
        text::utf8("compatible") != text::utf8("interrupts"),
        text::utf8("compatible") != text::utf8("timebase-frequency"),
        text::utf8("reg") != text::utf8("interrupts"),
        text::utf8("reg") != text::utf8("timebase-frequency"),
        text::utf8("interrupts") != text::utf8("timebase-frequency"),
{
    reveal_strlit("#address-cells");
    reveal_strlit("#size-cells");
    reveal_strlit("device_type");
    reveal_strlit("compatible");
    reveal_strlit("reg");
    reveal_strlit("interrupts");
    reveal_strlit("timebase-frequency");
    text::lemma_ascii_bytes("#address-cells");
    text::lemma_ascii_bytes("#size-cells");
    text::lemma_ascii_bytes("device_type");
    text::lemma_ascii_bytes("compatible");
    text::lemma_ascii_bytes("reg");
    text::lemma_ascii_bytes("interrupts");
    text::lemma_ascii_bytes("timebase-frequency");
    assert(text::utf8("#size-cells")[0] != text::utf8("device_type")[0]);
    assert(text::utf8("compatible")[0] != text::utf8("interrupts")[0]);
}

/// The device type is that of memory exactly if it is the word and zero bytes behind it.
proof fn lemma_memory_type(value: Seq<u8>)
    ensures
        probe::trimmed(value) == text::utf8("memory") <==> (value.len() >= 6 && value.take(6)
            == text::utf8("memory") && forall|i: int|
            6 <= i < value.len() ==> #[trigger] value[i] == 0),
{
    reveal_strlit("memory");
    text::lemma_ascii_bytes("memory");
    law_trimmed(value);
    let w = text::utf8("memory");
    let n = probe::trimmed(value).len() as int;
    if value.len() >= 6 && value.take(6) == w && (forall|i: int|
        6 <= i < value.len() ==> #[trigger] value[i] == 0) {
        assert(value[5] == w[5]);
        if n > 6 {
            assert(probe::trimmed(value).last() == value[n - 1]);
        }
        if n < 6 {
            assert(value[5] == 0);
        }
    }
}

/// A property says something of the innermost open node alone: its kind, its registers in the cells
/// of its parent, or its interrupt. Nothing is found before the node ends but the timer frequency.
pub proof fn law_property_noted(p: Probe, name: Seq<u8>, value: Seq<u8>)
    requires
        probe::sound(p),
        p.beyond == 0,
        p.open.len() > 0,
    ensures
        ({
            let q = probe::noted(p, name, value);
            let d = p.open.len() as int;
            let last = q.open.last();
            &&& probe::sound(q)
            &&& q.beyond == 0
            &&& q.open.len() == d
            &&& q.open.drop_last() == p.open.drop_last()
            &&& forall|i: int| 0 <= i < 8 && i != d ==> #[trigger] q.addr_cells[i] == p.addr_cells[i]
            &&& forall|i: int| 0 <= i < 8 && i != d ==> #[trigger] q.size_cells[i] == p.size_cells[i]
            &&& q.found == (Found { timebase_freq: q.found.timebase_freq, ..p.found })
            &&& name != text::utf8("timebase-frequency") ==> q.found == p.found
            &&& forall|k: NodeKind| #[trigger] tells(name, value, k) ==> last.kind == Some(k)
            &&& (forall|k: NodeKind| !#[trigger] tells(name, value, k)) ==> last.kind
                == p.open.last().kind
            &&& name != text::utf8("reg") ==> last.reg == p.open.last().reg
            &&& name != text::utf8("interrupts") ==> last.interrupt == p.open.last().interrupt
            &&& name == text::utf8("reg") ==> last.reg == (match probe::registers(
                value,
                if d == 1 {
                    2
                } else {
                    p.addr_cells[d - 1]
                },
                if d == 1 {
                    2
                } else {
                    p.size_cells[d - 1]
                },
            ) {
                Some(r) => Some(r),
                None => p.open.last().reg,
            })
            &&& name == text::utf8("interrupts") ==> last.interrupt == (match cell::cell_at(
                value,
                0,
            ) {
                Some(v) => Some(v),
                None => p.open.last().interrupt,
            })
        }),
{
    lemma_names();
    lemma_memory_type(value);
    let q = probe::noted(p, name, value);
    assert(q.open.drop_last() =~= p.open.drop_last());
    assert(p.open.drop_last().push(p.open.last()) =~= p.open);
    assert(tells(name, value, NodeKind::Memory) ==> q.open.last().kind == Some(NodeKind::Memory));
    if name == text::utf8("compatible") {
        match probe::kind_of(value) {
            Some(k) => {
                assert(tells(name, value, k));
            },
            None => {},
        }
    }
    if name == text::utf8("device_type") && q.open.last().kind != p.open.last().kind {
        assert(tells(name, value, NodeKind::Memory));
    }
}

/// The cells that a node sets for its children, and the timer frequency: each is the first cell of
/// the property.
pub proof fn law_numbers_noted(p: Probe, value: Seq<u8>)
    requires
        probe::sound(p),
        p.beyond == 0,
        p.open.len() < 8,
        value.len() >= 4,
    ensures
        ({
            let d = p.open.len() as int;
            &&& probe::noted(p, text::utf8("#address-cells"), value).addr_cells[d] == big_endian(
                value,
                0,
                4,
            )
            &&& probe::noted(p, text::utf8("#size-cells"), value).size_cells[d] == big_endian(
                value,
                0,
                4,
            )
            &&& probe::noted(p, text::utf8("timebase-frequency"), value).found.timebase_freq
                matches Some(f) && f == big_endian(value, 0, 4)
        }),
{
    lemma_names();
    lemma_four_bytes(value, 0);
}

/// The cells that a node starts with are those of its parent; the nodes that are open and the cells
/// that they have set stay.
pub proof fn law_node_begins(p: Probe)
    requires
        probe::sound(p),
        p.beyond == 0,
        p.open.len() < 8,
    ensures
        ({
            let q = probe::entered(p);
            let d = p.open.len() as int;
            &&& q.open.take(d) == p.open
            &&& q.open.len() == d + 1
            &&& q.open.last() == (Pending { kind: None, reg: None, interrupt: None })
            &&& q.beyond == 0
            &&& q.found == p.found
            &&& forall|i: int| 0 <= i <= d && i < 8 ==> #[trigger] q.addr_cells[i] == p.addr_cells[i]
            &&& forall|i: int| 0 <= i <= d && i < 8 ==> #[trigger] q.size_cells[i] == p.size_cells[i]
            &&& d < 7 ==> q.addr_cells[d + 1] == p.addr_cells[d]
            &&& d < 7 ==> q.size_cells[d + 1] == p.size_cells[d]
            &&& probe::sound(q)
        }),
{
    assert(probe::entered(p).open.take(p.open.len() as int) =~= p.open);
}

/// Address cells of the nodes that begin now.
pub open spec fn address_cells_here(p: Probe) -> u32 {
    if p.open.len() == 0 {
        2
    } else {
        p.addr_cells[p.open.len() as int]
    }
}

/// Size cells of the nodes that begin now.
pub open spec fn size_cells_here(p: Probe) -> u32 {
    if p.open.len() == 0 {
        2
    } else {
        p.size_cells[p.open.len() as int]
    }
}

/// The properties of a node tell no kind but `kind`.
pub open spec fn only_tells(props: Seq<(Seq<u8>, Seq<u8>)>, kind: NodeKind) -> bool {
    forall|i: int, k: NodeKind|
        0 <= i < props.len() && #[trigger] tells(props[i].0, props[i].1, k) ==> k == kind
}

/// The property at `r` is the only one with its name.
pub open spec fn only_one(props: Seq<(Seq<u8>, Seq<u8>)>, r: int) -> bool {
    forall|i: int| 0 <= i < props.len() && i != r ==> (#[trigger] props[i]).0 != props[r].0
}

/// What a node has said after its properties.
proof fn lemma_node_said(
    p: Probe,
    props: Seq<(Seq<u8>, Seq<u8>)>,
    n: int,
    kind: NodeKind,
)
    requires
        probe::sound(p),
        p.beyond == 0,
        p.open.len() < 8,
        0 <= n <= props.len(),
        only_tells(props, kind),
    ensures
        ({
            let q = probe::all_noted(probe::entered(p), props.take(n));
            let d = p.open.len() as int;
            let last = q.open.last();
            &&& probe::sound(q)
            &&& q.beyond == 0
            &&& q.open.len() == d + 1
            &&& q.open.drop_last() == p.open
            &&& forall|i: int| 0 <= i <= d && i < 8 ==> #[trigger] q.addr_cells[i] == p.addr_cells[i]
            &&& forall|i: int| 0 <= i <= d && i < 8 ==> #[trigger] q.size_cells[i] == p.size_cells[i]
            &&& q.found == (Found { timebase_freq: q.found.timebase_freq, ..p.found })
            &&& last.kind is None || last.kind == Some(kind)
            &&& (forall|a: int|
                0 <= a < n ==> !#[trigger] tells(props[a].0, props[a].1, kind)) ==> last.kind is None
            &&& forall|a: int|
                0 <= a < n && #[trigger] tells(props[a].0, props[a].1, kind) ==> last.kind == Some(
                    kind,
                )
            &&& (forall|i: int| 0 <= i < n ==> (#[trigger] props[i]).0 != text::utf8("reg"))
                ==> last.reg is None
            &&& (forall|i: int| 0 <= i < n ==> (#[trigger] props[i]).0 != text::utf8("interrupts"))
                ==> last.interrupt is None
            &&& forall|r: int|
                0 <= r < n && (#[trigger] props[r]).0 == text::utf8("reg") && only_one(props, r)
                    ==> last.reg == probe::registers(
                    props[r].1,
                    address_cells_here(p),
                    size_cells_here(p),
                )
            &&& forall|r: int|
                0 <= r < n && (#[trigger] props[r]).0 == text::utf8("interrupts") && only_one(
                    props,
                    r,
                ) ==> last.interrupt == cell::cell_at(props[r].1, 0)
        }),
    decreases n,
{
    let d = p.open.len() as int;
    if n == 0 {
        assert(props.take(0).len() == 0);
        assert(probe::entered(p).open.drop_last() =~= p.open);
    } else {
        let (name, value) = props[n - 1];
        lemma_node_said(p, props, n - 1, kind);
        let q = probe::all_noted(probe::entered(p), props.take(n - 1));
        assert(props.take(n).drop_last() =~= props.take(n - 1));
        assert(props.take(n).last() == props[n - 1]);
        law_property_noted(q, name, value);
        let r = probe::noted(q, name, value);
        lemma_names();
        assert(d + 1 == q.open.len());
        assert(r.open.drop_last() == p.open);
        if forall|k: NodeKind| !#[trigger] tells(name, value, k) {
            assert(r.open.last().kind == q.open.last().kind);
        } else {
            let k = choose|k: NodeKind| #[trigger] tells(name, value, k);
            assert(tells(props[n - 1].0, props[n - 1].1, k));
            assert(r.open.last().kind == Some(kind));
        }
        assert forall|j: int|
            0 <= j < n && (#[trigger] props[j]).0 == text::utf8("reg") && only_one(
                props,
                j,
            ) implies r.open.last().reg == probe::registers(
            props[j].1,
            address_cells_here(p),
            size_cells_here(p),
        ) by {
            if j == n - 1 {
                assert forall|i: int| 0 <= i < n - 1 implies (#[trigger] props[i]).0 != text::utf8(
                    "reg",
                ) by {}
                assert(q.open.last().reg is None);
            } else {
                assert(props[n - 1].0 != props[j].0);
            }
        }
        assert forall|j: int|
            0 <= j < n && (#[trigger] props[j]).0 == text::utf8("interrupts") && only_one(
                props,
                j,
            ) implies r.open.last().interrupt == cell::cell_at(props[j].1, 0) by {
            if j == n - 1 {
                assert forall|i: int| 0 <= i < n - 1 implies (#[trigger] props[i]).0 != text::utf8(
                    "interrupts",
                ) by {}
                assert(q.open.last().interrupt is None);
            } else {
                assert(props[n - 1].0 != props[j].0);
            }
        }
    }
}

/// A device is found at the base that its registers say, in the cells of its parent, and memory and
/// the interrupt controller with their size: it does not matter where among its properties a node
/// says what it is. Nothing else changes but the timer frequency.
pub proof fn law_node_found(
    p: Probe,
    props: Seq<(Seq<u8>, Seq<u8>)>,
    kind: NodeKind,
    a: int,
    r: int,
    base: u64,
    size: u64,
)
    requires
        probe::sound(p),
        p.beyond == 0,
        p.open.len() < 8,
        0 <= a < props.len(),
        tells(props[a].0, props[a].1, kind),
        only_tells(props, kind),
        0 <= r < props.len(),
        props[r].0 == text::utf8("reg"),
        only_one(props, r),
        0 < address_cells_here(p) <= 2,
        0 < size_cells_here(p) <= 2,
        4 * (address_cells_here(p) + size_cells_here(p)) <= props[r].1.len(),
        base == big_endian(props[r].1, 0, 4 * address_cells_here(p)),
        size == big_endian(props[r].1, 4 * address_cells_here(p), 4 * size_cells_here(p)),
    ensures
        ({
            let f = probe::left(probe::all_noted(probe::entered(p), props)).found;
            let g = p.found;
            match kind {
                NodeKind::Memory => f.memory == Some((base, size)) && f.uart_base == g.uart_base
                    && f.uart_irq == g.uart_irq && f.clint_base == g.clint_base && f.plic == g.plic,
                NodeKind::Uart => f.uart_base == Some(base) && f.memory == g.memory && f.clint_base
                    == g.clint_base && f.plic == g.plic,
                NodeKind::Clint => f.clint_base == Some(base) && f.memory == g.memory
                    && f.uart_base == g.uart_base && f.uart_irq == g.uart_irq && f.plic == g.plic,
                NodeKind::Plic => f.plic == Some((base, size)) && f.memory == g.memory
                    && f.uart_base == g.uart_base && f.uart_irq == g.uart_irq && f.clint_base
                    == g.clint_base,
            }
        }),
{
    lemma_node_said(p, props, props.len() as int, kind);
    assert(props.take(props.len() as int) =~= props);
    law_registers(props[r].1, address_cells_here(p), size_cells_here(p));
}

/// The interrupt of the serial port is the first cell of its interrupts; without them the one that was
/// known stays.
pub proof fn law_serial_interrupt_found(
    p: Probe,
    props: Seq<(Seq<u8>, Seq<u8>)>,
    a: int,
    r: int,
)
    requires
        probe::sound(p),
        p.beyond == 0,
        p.open.len() < 8,
        0 <= a < props.len(),
        tells(props[a].0, props[a].1, NodeKind::Uart),
        only_tells(props, NodeKind::Uart),
    ensures
        ({
            let f = probe::left(probe::all_noted(probe::entered(p), props)).found;
            &&& 0 <= r < props.len() && props[r].0 == text::utf8("interrupts") && only_one(props, r)
                && props[r].1.len() >= 4 ==> (f.uart_irq matches Some(i) && i == big_endian(
                props[r].1,
                0,
                4,
            ))
            &&& (forall|i: int|
                0 <= i < props.len() ==> (#[trigger] props[i]).0 != text::utf8("interrupts"))
                ==> f.uart_irq == p.found.uart_irq
        }),
{
    lemma_node_said(p, props, props.len() as int, NodeKind::Uart);
    assert(props.take(props.len() as int) =~= props);
    if 0 <= r < props.len() {
        law_cell(props[r].1, 0);
    }
}

/// A node without registers and interrupts, or of no kind, changes nothing of what was found but the
/// timer frequency.
pub proof fn law_node_without_registers(
    p: Probe,
    props: Seq<(Seq<u8>, Seq<u8>)>,
    kind: NodeKind,
)
    requires
        probe::sound(p),
        p.beyond == 0,
        p.open.len() < 8,
        only_tells(props, kind),
        (forall|i: int, k: NodeKind|
            0 <= i < props.len() ==> !#[trigger] tells(props[i].0, props[i].1, k)) || (forall|i: int|
            0 <= i < props.len() ==> (#[trigger] props[i]).0 != text::utf8("reg") && props[i].0
                != text::utf8("interrupts")),
    ensures
        ({
            let f = probe::left(probe::all_noted(probe::entered(p), props)).found;
            f == (Found { timebase_freq: f.timebase_freq, ..p.found })
        }),
{
    lemma_node_said(p, props, props.len() as int, kind);
    assert(props.take(props.len() as int) =~= props);
}

/// What was found goes into the parameters as it is; what was not found is that of the fallback
/// platform. Without memory there are no parameters.
pub proof fn law_parameters(f: Found)
    ensures
        f.memory is None ==> probe::concluded(f) == Err::<PlatformConfig, probe::ProbeError>(
            probe::ProbeError::MissingMemory,
        ),
        f.memory is Some ==> probe::concluded(f) is Ok,
        probe::concluded(f) matches Ok(c) ==> {
            &&& f.memory == Some((c.dram_base, c.dram_size))
            &&& f.uart_base is Some ==> f.uart_base == Some(c.uart_base)
            &&& f.uart_base is None ==> c.uart_base == 0x1000_0000
            &&& f.uart_irq is Some ==> f.uart_irq == Some(c.uart_irq)
            &&& f.uart_irq is None ==> c.uart_irq == 10
            &&& f.clint_base is Some ==> f.clint_base == Some(c.clint_base)
            &&& f.clint_base is None ==> c.clint_base == 0x200_0000
            &&& f.plic is Some ==> f.plic == Some((c.plic_base, c.plic_size))
            &&& f.plic is None ==> c.plic_base == 0xC00_0000 && c.plic_size == 0x30_0000
            &&& f.timebase_freq is Some ==> f.timebase_freq == Some(c.timebase_freq)
            &&& f.timebase_freq is None ==> c.timebase_freq == 10_000_000
            &&& c.firmware_reserve == 0
            &&& c.stack_reserve == 0x8000
            &&& c.hart_count == 1
        },
{
}

/// Without a usable device tree the parameters are those of the fallback platform, which has eight
/// mebibytes of memory; with one they are what was found in it.
pub proof fn law_fallback(e: probe::ProbeError, c: PlatformConfig)
    ensures
        probe::settled(Some(Ok(c))) == c,
        probe::settled(Some(Err(e))) == probe::settled(None),
        ({
            let d = probe::settled(None);
            &&& d.dram_base == 0x8000_0000
            &&& d.dram_size == 0x80_0000
            &&& d.uart_base == 0x1000_0000
            &&& d.uart_irq == 10
            &&& d.clint_base == 0x200_0000
            &&& d.plic_base == 0xC00_0000
            &&& d.plic_size == 0x30_0000
            &&& d.timebase_freq == 10_000_000
            &&& d.firmware_reserve == 0
            &&& d.stack_reserve == 0x8000
            &&& d.hart_count == 1
        }),
{
}

/// The search before the first token: nothing is found, no node is open, and both cells are two.
pub proof fn law_search_starts()
    ensures
        ({
            let p = probe::initial();
            &&& probe::sound(p)
            &&& p.open.len() == 0
            &&& p.beyond == 0
            &&& address_cells_here(p) == 2
            &&& size_cells_here(p) == 2
            &&& p.found.memory is None
            &&& p.found.uart_base is None
            &&& p.found.uart_irq is None
            &&& p.found.clint_base is None
            &&& p.found.plic is None
            &&& p.found.timebase_freq is None
        }),
{
}

/// The state after the tokens.
pub open spec fn taken(p: Probe, ts: Seq<TokenView>) -> Probe
    decreases ts.len(),
{
    if ts.len() == 0 {
        p
    } else {
        probe::advanced(taken(p, ts.drop_last()), ts.last())
    }
}

/// The tokens from `pos` on up to the end token, without the subtrees of nodes named `chosen`.
pub open spec fn tokens(b: Seq<u8>, strings: Seq<u8>, pos: int, skip: int) -> Result<
    Seq<TokenView>,
    WalkError,
>
    decreases
            if pos < b.len() {
                b.len() - pos
            } else {
                0
            },
{
    if pos >= b.len() {
        Err(WalkError::Truncated)
    } else {
        let x = walk::next_token(b, strings, pos, skip);
        proof {
            walk::lemma_next_advances(b, strings, pos, skip);
        }
        match x.0 {
            Err(e) => Err(e),
            Ok(TokenView::End) => Ok(Seq::empty()),
            Ok(t) => match tokens(
                b,
                strings,
                x.1.pos,
                if t == TokenView::BeginNode(text::utf8("chosen")) {
                    1
                } else {
                    x.1.skip
                },
            ) {
                Ok(rest) => Ok(seq![t] + rest),
                Err(e) => Err(e),
            },
        }
    }
}

/// Tokens taken one after the other.
proof fn lemma_taken(p: Probe, a: Seq<TokenView>, b: Seq<TokenView>)
    ensures
        taken(p, a + b) == taken(taken(p, a), b),
    decreases b.len(),
{
    if b.len() == 0 {
        assert(a + b =~= a);
    } else {
        assert((a + b).drop_last() =~= a + b.drop_last());
        lemma_taken(p, a, b.drop_last());
    }
}

/// The search takes the tokens in order, each of them once, and ends at the first one that is faulty.
pub proof fn law_search_takes_tokens(
    b: Seq<u8>,
    strings: Seq<u8>,
    pos: int,
    skip: int,
    p: Probe,
)
    ensures
        probe::searched(b, strings, pos, skip, p) == (match tokens(b, strings, pos, skip) {
            Ok(ts) => Ok::<Probe, WalkError>(taken(p, ts)),
            Err(e) => Err::<Probe, WalkError>(e),
        }),
    decreases
            if pos < b.len() {
                b.len() - pos
            } else {
                0
            },
{
    if pos < b.len() {
        let x = walk::next_token(b, strings, pos, skip);
        walk::lemma_next_advances(b, strings, pos, skip);
        match x.0 {
            Ok(TokenView::End) => {
                assert(taken(p, Seq::empty()) == p);
            },
            Ok(t) => {
                reveal(probe::is_chosen);
                let s = if t == TokenView::BeginNode(text::utf8("chosen")) {
                    1
                } else {
                    x.1.skip
                };
                let q = probe::advanced(p, t);
                law_search_takes_tokens(b, strings, x.1.pos, s, q);
                match tokens(b, strings, x.1.pos, s) {
                    Ok(rest) => {
                        lemma_taken(p, seq![t], rest);
                        assert(seq![t].drop_last() =~= Seq::<TokenView>::empty());
                        assert(taken(p, Seq::<TokenView>::empty()) == p);
                        assert(taken(p, seq![t]) == q);
                    },
                    Err(_) => {},
                }
            },
            Err(_) => {},
        }
    }
}

/// The token is a property that says that its node is of the kind.
pub open spec fn token_tells(t: TokenView, kind: NodeKind) -> bool {
    t matches TokenView::Property(name, value) && tells(name, value, kind)
}

/// No open node is of the kind.
pub open spec fn none_open(p: Probe, kind: NodeKind) -> bool {
    forall|i: int| 0 <= i < p.open.len() ==> (#[trigger] p.open[i]).kind != Some(kind)
}

/// What was found of nodes of the kind.
pub open spec fn same_of_kind(f: Found, g: Found, kind: NodeKind) -> bool {
    match kind {
        NodeKind::Memory => f.memory == g.memory,
        NodeKind::Uart => f.uart_base == g.uart_base && f.uart_irq == g.uart_irq,
        NodeKind::Clint => f.clint_base == g.clint_base,
        NodeKind::Plic => f.plic == g.plic,
    }
}

/// A token that does not say that a node is of the kind.
proof fn lemma_other_token(p: Probe, t: TokenView, kind: NodeKind)
    requires
        probe::sound(p),
        none_open(p, kind),
        !token_tells(t, kind),
    ensures
        probe::sound(probe::advanced(p, t)),
        none_open(probe::advanced(p, t), kind),
        same_of_kind(probe::advanced(p, t).found, p.found, kind),
{
    reveal(probe::advanced);
    let q = probe::advanced(p, t);
    match t {
        TokenView::Property(name, value) => {
            if p.beyond == 0 && p.open.len() > 0 {
                law_property_noted(p, name, value);
                assert forall|i: int| 0 <= i < q.open.len() implies (#[trigger] q.open[i]).kind
                    != Some(kind) by {
                    if i < q.open.len() - 1 {
                        assert(q.open[i] == q.open.drop_last()[i]);
                        assert(p.open[i] == p.open.drop_last()[i]);
                    } else {
                        assert(q.open[i] == q.open.last());
                        assert(p.open[i] == p.open.last());
                        if exists|k: NodeKind| #[trigger] tells(name, value, k) {
                            let k = choose|k: NodeKind| #[trigger] tells(name, value, k);
                            assert(k != kind);
                        }
                    }
                }
            }
        },
        TokenView::EndNode => {
            if p.open.len() > 0 {
                assert(p.open.last() == p.open[p.open.len() - 1]);
            }
        },
        TokenView::BeginNode(name) => {},
        _ => {},
    }
}

/// Tokens that do not say that a node is of the kind.
proof fn lemma_other_tokens(p: Probe, ts: Seq<TokenView>, kind: NodeKind)
    requires
        probe::sound(p),
        none_open(p, kind),
        forall|i: int| 0 <= i < ts.len() ==> !token_tells(#[trigger] ts[i], kind),
    ensures
        probe::sound(taken(p, ts)),
        none_open(taken(p, ts), kind),
        same_of_kind(taken(p, ts).found, p.found, kind),
    decreases ts.len(),
{
    if ts.len() > 0 {
        let front = ts.drop_last();
        assert forall|i: int| 0 <= i < front.len() implies !token_tells(#[trigger] front[i], kind) by {
            assert(front[i] == ts[i]);
        }
        lemma_other_tokens(p, front, kind);
        assert(ts.last() == ts[ts.len() - 1]);
        lemma_other_token(taken(p, front), ts.last(), kind);
    }
}

/// The tokens of a node without children.
pub open spec fn node_tokens(name: Seq<u8>, props: Seq<(Seq<u8>, Seq<u8>)>) -> Seq<TokenView> {
    seq![TokenView::BeginNode(name)] + props.map_values(
        |x: (Seq<u8>, Seq<u8>)| TokenView::Property(x.0, x.1),
    ) + seq![TokenView::EndNode]
}

/// A node is taken by its start, its properties and its end.
proof fn lemma_node_taken(p: Probe, name: Seq<u8>, props: Seq<(Seq<u8>, Seq<u8>)>)
    requires
        name != text::utf8("chosen"),
    ensures
        taken(p, node_tokens(name, props)) == probe::left(
            probe::all_noted(probe::entered(p), props),
        ),
{
    reveal(probe::advanced);
    reveal(probe::is_chosen);
    let head = seq![TokenView::BeginNode(name)];
    let f = |x: (Seq<u8>, Seq<u8>)| TokenView::Property(x.0, x.1);
    let body = props.map_values(f);
    assert(head.drop_last() =~= Seq::<TokenView>::empty());
    assert(taken(p, Seq::<TokenView>::empty()) == p);
    assert(taken(p, head) == probe::entered(p));
    lemma_taken(p, head, body);
    lemma_props_taken(probe::entered(p), props);
    let all = head + body + seq![TokenView::EndNode];
    assert(all.drop_last() =~= head + body);
}

/// Properties are taken one after the other.
proof fn lemma_props_taken(p: Probe, props: Seq<(Seq<u8>, Seq<u8>)>)
    ensures
        taken(p, props.map_values(|x: (Seq<u8>, Seq<u8>)| TokenView::Property(x.0, x.1)))
            == probe::all_noted(p, props),
    decreases props.len(),
{
    reveal(probe::advanced);
    let f = |x: (Seq<u8>, Seq<u8>)| TokenView::Property(x.0, x.1);
    if props.len() > 0 {
        assert(props.map_values(f).drop_last() =~= props.drop_last().map_values(f));
        lemma_props_taken(p, props.drop_last());
    }
}

/// What the parameters say of memory and of each device comes from the only node that is of its kind:
/// the search in a device tree gives the base and the size that the registers of that node say in the
/// cells of its parent, whatever other nodes there are before and behind it.
pub proof fn law_only_node_counts(
    b: Seq<u8>,
    strings: Seq<u8>,
    before: Seq<TokenView>,
    name: Seq<u8>,
    props: Seq<(Seq<u8>, Seq<u8>)>,
    behind: Seq<TokenView>,
    kind: NodeKind,
    a: int,
    r: int,
    base: u64,
    size: u64,
)
    requires
        tokens(b, strings, 0, 0) == Ok::<Seq<TokenView>, WalkError>(
            before + node_tokens(name, props) + behind,
        ),
        name != text::utf8("chosen"),
        forall|i: int| 0 <= i < before.len() ==> !token_tells(#[trigger] before[i], kind),
        forall|i: int| 0 <= i < behind.len() ==> !token_tells(#[trigger] behind[i], kind),
        0 <= a < props.len(),
        tells(props[a].0, props[a].1, kind),
        only_tells(props, kind),
        0 <= r < props.len(),
        props[r].0 == text::utf8("reg"),
        only_one(props, r),
        ({
            let p = taken(probe::initial(), before);
            &&& p.beyond == 0
            &&& p.open.len() < 8
            &&& 0 < address_cells_here(p) <= 2
            &&& 0 < size_cells_here(p) <= 2
            &&& 4 * (address_cells_here(p) + size_cells_here(p)) <= props[r].1.len()
            &&& base == big_endian(props[r].1, 0, 4 * address_cells_here(p))
            &&& size == big_endian(
                props[r].1,
                4 * address_cells_here(p),
                4 * size_cells_here(p),
            )
        }),
    ensures
        kind == NodeKind::Memory ==> probe::probed(b, strings) is Ok,
        probe::probed(b, strings) matches Ok(c) ==> match kind {
            NodeKind::Memory => c.dram_base == base && c.dram_size == size,
            NodeKind::Uart => c.uart_base == base,
            NodeKind::Clint => c.clint_base == base,
            NodeKind::Plic => c.plic_base == base && c.plic_size == size,
        },
{
    let start = probe::initial();
    let p = taken(start, before);
    let node = node_tokens(name, props);
    let q = taken(p, node);
    law_search_takes_tokens(b, strings, 0, 0, start);
    lemma_other_tokens(start, before, kind);
    lemma_taken(start, before, node);
    lemma_taken(start, before + node, behind);
    lemma_node_taken(p, name, props);
    law_node_found(p, props, kind, a, r, base, size);
    lemma_node_said(p, props, props.len() as int, kind);
    assert(props.take(props.len() as int) =~= props);
    assert(q.open == p.open);
    assert(probe::sound(q));
    lemma_other_tokens(q, behind, kind);
}

/// The registers of a node are numbered: each entry is a base and a size behind it, as many cells each
/// as the parent says, and one entry follows the other.
pub proof fn law_register_entry(value: Seq<u8>, index: int, ac: u32, sc: u32)
    requires
        0 <= index,
        0 < ac <= 2,
        0 < sc <= 2,
    ensures
        (index + 1) * (4 * ac + 4 * sc) <= value.len() ==> (dtb::register_entry(
            value,
            index,
            ac,
            sc,
        ) matches Some((base, size)) && base == big_endian(
            value,
            index * (4 * ac + 4 * sc),
            4 * ac,
        ) && size == big_endian(value, index * (4 * ac + 4 * sc) + 4 * ac, 4 * sc)),
        (index + 1) * (4 * ac + 4 * sc) > value.len() ==> dtb::register_entry(value, index, ac, sc)
            is None,
{
    let n = 4 * ac + 4 * sc;
    let off = index * n;
    assert((ac + sc) * 4 == n);
    assert((index + 1) * n == index * n + n) by (nonlinear_arith);
    assert(0 <= off) by (nonlinear_arith)
        requires
            0 <= index,
            0 <= n,
            off == index * n,
    ;
    law_cells(value, off, ac);
    law_cells(value, off + 4 * ac, sc);
}

/// The name of a node without its unit address: what stands before the first `@`.
pub proof fn law_name_before_at(name: Seq<u8>)
    ensures
        config::before_at(name).len() <= name.len(),
        config::before_at(name) == name.take(config::before_at(name).len() as int),
        forall|i: int|
            0 <= i < config::before_at(name).len() ==> #[trigger] config::before_at(name)[i] != 64,
        config::before_at(name).len() < name.len() ==> name[config::before_at(name).len() as int]
            == 64,
    decreases name.len(),
{
    if name.len() > 0 {
        let t = name.drop_last();
        let head = config::before_at(t);
        law_name_before_at(t);
        let n = head.len() as int;
        if n < name.len() - 1 || name.last() == 64 {
            assert(name.take(n) =~= t.take(n));
            if n < name.len() - 1 {
                assert(t[n] == name[n]);
            }
        } else {
            assert(head =~= t);
            assert(name.take(name.len() as int) =~= name);
        }
    } else {
        assert(name.take(0) =~= name);
    }
}

/// The device type of a node.
pub open spec fn device_type(b: Seq<u8>, strings: Seq<u8>, n: Node) -> Option<Seq<u8>> {
    dtb::text_property(b, strings, n.offset as int, text::utf8("device_type"))
}

/// A memory node gives the base and the size of its first registers; other nodes leave them alone.
pub proof fn law_memory_surveyed(b: Seq<u8>, strings: Seq<u8>, s: Survey, n: Node, value: Seq<u8>)
    requires
        0 < n.address_cells <= 2,
        0 < n.size_cells <= 2,
    ensures
        ({
            let r = config::learned(b, strings, s, n);
            let ac = n.address_cells;
            let sc = n.size_cells;
            &&& device_type(b, strings, n) == Some(text::utf8("memory")) && dtb::property_of(
                b,
                strings,
                n.offset as int,
                text::utf8("reg"),
            ) == Some(value) && 4 * ac + 4 * sc <= value.len() ==> r.config.dram_base == big_endian(
                value,
                0,
                4 * ac,
            ) && r.config.dram_size == big_endian(value, 4 * ac, 4 * sc)
            &&& device_type(b, strings, n) != Some(text::utf8("memory")) ==> r.config.dram_base
                == s.config.dram_base && r.config.dram_size == s.config.dram_size
            &&& r.config.stack_reserve == s.config.stack_reserve
            &&& r.config.hart_count == s.config.hart_count
        }),
{
    reveal(config::learned);
    law_register_entry(value, 0, n.address_cells, n.size_cells);
}

/// A processor counts, by its device type and whatever its name; no other node does.
pub proof fn law_processor_surveyed(b: Seq<u8>, strings: Seq<u8>, s: Survey, n: Node)
    requires
        s.cpus < u64::MAX,
    ensures
        ({
            let r = config::learned(b, strings, s, n);
            &&& device_type(b, strings, n) == Some(text::utf8("cpu")) ==> r.cpus == s.cpus + 1
            &&& device_type(b, strings, n) != Some(text::utf8("cpu")) ==> r.cpus == s.cpus
        }),
{
    reveal(config::learned);
    reveal_strlit("cpu");
    reveal_strlit("memory");
    text::lemma_ascii_bytes("cpu");
    text::lemma_ascii_bytes("memory");
}

/// The timer frequency is the first cell of the property of the node that is named `cpus`, with a unit
/// address or without; no other node sets it.
pub proof fn law_clock_surveyed(b: Seq<u8>, strings: Seq<u8>, s: Survey, n: Node, value: Seq<u8>)
    ensures
        ({
            let r = config::learned(b, strings, s, n);
            let name = config::before_at(
                text::utf8_or(dtb::raw_name(b, n.offset as int), Seq::empty()),
            );
            let here = dtb::property_of(
                b,
                strings,
                n.offset as int,
                text::utf8("timebase-frequency"),
            );
            &&& name == text::utf8("cpus") && here == Some(value) && value.len() >= 4
                ==> r.config.timebase_frequency == big_endian(value, 0, 4)
            &&& name != text::utf8("cpus") || here is None ==> r.config.timebase_frequency
                == s.config.timebase_frequency
        }),
{
    reveal(config::learned);
    law_cell(value, 0);
}

/// What is known after the nodes.
pub open spec fn all_learned(b: Seq<u8>, strings: Seq<u8>, s: Survey, ns: Seq<Node>) -> Survey
    decreases ns.len(),
{
    if ns.len() == 0 {
        s
    } else {
        config::learned(b, strings, all_learned(b, strings, s, ns.drop_last()), ns.last())
    }
}

/// Nodes learned from one after the other.
proof fn lemma_learned_first(b: Seq<u8>, strings: Seq<u8>, s: Survey, n: Node, ns: Seq<Node>)
    ensures
        all_learned(b, strings, s, seq![n] + ns) == all_learned(
            b,
            strings,
            config::learned(b, strings, s, n),
            ns,
        ),
    decreases ns.len(),
{
    let all = seq![n] + ns;
    if ns.len() == 0 {
        assert(all.drop_last() =~= Seq::<Node>::empty());
        assert(all_learned(b, strings, s, Seq::<Node>::empty()) == s);
    } else {
        assert(all.drop_last() =~= seq![n] + ns.drop_last());
        lemma_learned_first(b, strings, s, n, ns.drop_last());
    }
}

/// The survey learns from every node that a walk finds, once and in order.
pub proof fn law_survey_takes_nodes(b: Seq<u8>, strings: Seq<u8>, w: WalkPlace, s: Survey)
    ensures
        config::surveyed(b, strings, w, s) == all_learned(
            b,
            strings,
            s,
            tree::walked(b, strings, w),
        ),
    decreases
            if w.cursor < b.len() {
                b.len() - w.cursor
            } else {
                0
            },
{
    dtb::lemma_next_node(b, strings, w);
    match dtb::next_node(b, strings, w) {
        (Some(n), v) => {
            law_survey_takes_nodes(b, strings, v, config::learned(b, strings, s, n));
            lemma_learned_first(b, strings, s, n, tree::walked(b, strings, v));
        },
        (None, _) => {},
    }
}

/// Number of processors among the nodes.
pub open spec fn processors(b: Seq<u8>, strings: Seq<u8>, ns: Seq<Node>) -> nat {
    ns.filter(|n: Node| device_type(b, strings, n) == Some(text::utf8("cpu"))).len()
}

/// Processors are counted one by one.
proof fn lemma_processors(b: Seq<u8>, strings: Seq<u8>, s: Survey, ns: Seq<Node>)
    requires
        s.cpus + ns.len() < u64::MAX,
    ensures
        all_learned(b, strings, s, ns).cpus == s.cpus + processors(b, strings, ns),
        all_learned(b, strings, s, ns).cpus <= s.cpus + ns.len(),
        all_learned(b, strings, s, ns).config.hart_count == s.config.hart_count,
        all_learned(b, strings, s, ns).config.stack_reserve == s.config.stack_reserve,
    decreases ns.len(),
{
    reveal(Seq::filter);
    if ns.len() > 0 {
        let t = all_learned(b, strings, s, ns.drop_last());
        lemma_processors(b, strings, s, ns.drop_last());
        law_processor_surveyed(b, strings, t, ns.last());
        reveal(config::learned);
    }
}

/// There are as many processors as the walk finds nodes of that device type; a tree without any counts
/// for one.
pub proof fn law_processors_counted(b: Seq<u8>, strings: Seq<u8>)
    requires
        tree::walked(b, strings, dtb::walk_start()).len() < u64::MAX,
    ensures
        ({
            let n = processors(b, strings, tree::walked(b, strings, dtb::walk_start()));
            &&& n > 0 ==> config::probed(b, strings).hart_count == n
            &&& n == 0 ==> config::probed(b, strings).hart_count == 1
            &&& config::probed(b, strings).stack_reserve == 0x8000
        }),
{
    let s = Survey { config: config::qemu_virt(), cpus: 0 };
    let ns = tree::walked(b, strings, dtb::walk_start());
    law_survey_takes_nodes(b, strings, dtb::walk_start(), s);
    lemma_processors(b, strings, s, ns);
}

/// Memory is what the last memory node says: the nodes behind it leave it alone.
proof fn lemma_memory_kept(b: Seq<u8>, strings: Seq<u8>, s: Survey, ns: Seq<Node>)
    requires
        forall|i: int|
            0 <= i < ns.len() ==> device_type(b, strings, #[trigger] ns[i]) != Some(
                text::utf8("memory"),
            ),
    ensures
        all_learned(b, strings, s, ns).config.dram_base == s.config.dram_base,
        all_learned(b, strings, s, ns).config.dram_size == s.config.dram_size,
    decreases ns.len(),
{
    if ns.len() > 0 {
        let front = ns.drop_last();
        assert forall|i: int| 0 <= i < front.len() implies device_type(
            b,
            strings,
            #[trigger] front[i],
        ) != Some(text::utf8("memory")) by {
            assert(front[i] == ns[i]);
        }
        lemma_memory_kept(b, strings, s, front);
        assert(ns.last() == ns[ns.len() - 1]);
        reveal(config::learned);
    }
}

/// Nodes learned from in two turns.
proof fn lemma_learned_parts(
    b: Seq<u8>,
    strings: Seq<u8>,
    s: Survey,
    x: Seq<Node>,
    y: Seq<Node>,
)
    ensures
        all_learned(b, strings, s, x + y) == all_learned(
            b,
            strings,
            all_learned(b, strings, s, x),
            y,
        ),
    decreases y.len(),
{
    if y.len() == 0 {
        assert(x + y =~= x);
    } else {
        assert((x + y).drop_last() =~= x + y.drop_last());
        lemma_learned_parts(b, strings, s, x, y.drop_last());
    }
}

/// The parameters give the memory of the last memory node that the walk finds: its first registers,
/// in the cells of its parent. Without a memory node it is that of the fallback platform.
pub proof fn law_memory_probed(b: Seq<u8>, strings: Seq<u8>, i: int, value: Seq<u8>)
    ensures
        ({
            let ns = tree::walked(b, strings, dtb::walk_start());
            let c = config::probed(b, strings);
            &&& 0 <= i < ns.len() && device_type(b, strings, ns[i]) == Some(text::utf8("memory"))
                && (forall|j: int|
                i < j < ns.len() ==> device_type(b, strings, #[trigger] ns[j]) != Some(
                    text::utf8("memory"),
                )) && 0 < ns[i].address_cells <= 2 && 0 < ns[i].size_cells <= 2
                && dtb::property_of(b, strings, ns[i].offset as int, text::utf8("reg")) == Some(
                value,
            ) && 4 * ns[i].address_cells + 4 * ns[i].size_cells <= value.len() ==> c.dram_base
                == big_endian(value, 0, 4 * ns[i].address_cells) && c.dram_size == big_endian(
                value,
                4 * ns[i].address_cells,
                4 * ns[i].size_cells,
            )
            &&& (forall|j: int|
                0 <= j < ns.len() ==> device_type(b, strings, #[trigger] ns[j]) != Some(
                    text::utf8("memory"),
                )) ==> c.dram_base == 0x8000_0000 && c.dram_size == 0x800_0000
        }),
{
    let ns = tree::walked(b, strings, dtb::walk_start());
    let s = Survey { config: config::qemu_virt(), cpus: 0 };
    law_survey_takes_nodes(b, strings, dtb::walk_start(), s);
    if forall|j: int|
        0 <= j < ns.len() ==> device_type(b, strings, #[trigger] ns[j]) != Some(
            text::utf8("memory"),
        ) {
        lemma_memory_kept(b, strings, s, ns);
    }
    if 0 <= i < ns.len() && (forall|j: int|
        i < j < ns.len() ==> device_type(b, strings, #[trigger] ns[j]) != Some(
            text::utf8("memory"),
        )) && 0 < ns[i].address_cells <= 2 && 0 < ns[i].size_cells <= 2 {
        let x = ns.take(i + 1);
        let y = ns.skip(i + 1);
        assert(x + y =~= ns);
        assert(x.drop_last() =~= ns.take(i));
        lemma_learned_parts(b, strings, s, x, y);
        law_memory_surveyed(b, strings, all_learned(b, strings, s, ns.take(i)), ns[i], value);
        assert forall|j: int| 0 <= j < y.len() implies device_type(b, strings, #[trigger] y[j])
            != Some(text::utf8("memory")) by {
            assert(y[j] == ns[j + i + 1]);
        }
        lemma_memory_kept(b, strings, all_learned(b, strings, s, x), y);
    }
}

/// The fallback platform has 128 mebibytes of memory and one processor.
pub proof fn law_fallback_parameters()
    ensures
        config::qemu_virt().dram_base == 0x8000_0000,
        config::qemu_virt().dram_size == 0x800_0000,
        config::qemu_virt().timebase_frequency == 10_000_000,
        config::qemu_virt().stack_reserve == 0x8000,
        config::qemu_virt().hart_count == 1,
{
}

/// A header is sound if it starts with the magic number, the format can be read by a reader of version
/// 17, and both blocks lie in the data; the blocks are found where the header says.
pub proof fn law_header(b: Seq<u8>)
    ensures
        b.len() < 40 ==> header::refusal(b) == Some(probe::HeaderError::OutOfBounds),
        b.len() >= 40 ==> ({
            let magic = big_endian(b, 0, 4);
            let total = big_endian(b, 4, 4);
            let structure = big_endian(b, 8, 4);
            let strings = big_endian(b, 12, 4);
            let version = big_endian(b, 20, 4);
            let compatible = big_endian(b, 24, 4);
            let strings_size = big_endian(b, 32, 4);
            let structure_size = big_endian(b, 36, 4);
            &&& magic != 0xD00D_FEED <==> header::refusal(b) == Some(probe::HeaderError::BadMagic)
            &&& magic == 0xD00D_FEED && !(compatible <= 17 <= version) <==> header::refusal(b)
                == Some(probe::HeaderError::BadVersion)
            &&& header::refusal(b) is None ==> total <= b.len() && structure + structure_size
                <= total && strings + strings_size <= total && structure_size % 4 == 0
            &&& header::refusal(b) is None ==> header::block_of(b, 8, 36) == b.subrange(
                structure,
                structure + structure_size,
            ) && header::block_of(b, 12, 32) == b.subrange(strings, strings + strings_size)
            &&& magic == 0xD00D_FEED && compatible <= 17 <= version && total <= b.len() && structure
                + structure_size <= total && strings + strings_size <= total && structure_size % 4
                == 0 && structure_size < 0xFFFF_FFF0 ==> header::refusal(b) is None
        }),
{
    if b.len() >= 40 {
        lemma_four_bytes(b, 0);
        lemma_four_bytes(b, 4);
        lemma_four_bytes(b, 8);
        lemma_four_bytes(b, 12);
        lemma_four_bytes(b, 20);
        lemma_four_bytes(b, 24);
        lemma_four_bytes(b, 32);
        lemma_four_bytes(b, 36);
    }
}

/// The devices of the fallback platform: the interrupt controller, the serial port with its interrupt,
/// and the timer.
pub proof fn law_fallback_devices()
    ensures
        ({
            let d = dev::fallback();
            &&& d.len() == 3
            &&& d[0].compatible == "riscv,plic0" && d[0].base == 0xC00_0000 && d[0].size
                == 0x30_0000 && d[0].interrupt is None
            &&& d[1].compatible == "ns16550a" && d[1].base == 0x1000_0000 && d[1].size == 0x1000
                && d[1].interrupt == Some(10u32)
            &&& d[2].compatible == "riscv,clint0" && d[2].base == 0x200_0000 && d[2].size
                == 0x1_0000 && d[2].interrupt is None
        }),
{
}

/// A text in bytes ends before its first zero byte.
proof fn lemma_text_ends(s: Seq<u8>, from: int, t: Seq<u8>)
    requires
        0 <= from,
        from + t.len() <= s.len(),
        s.subrange(from, from + t.len()) == t,
        no_zero(t),
        from + t.len() == s.len() || s[from + t.len()] == 0,
    ensures
        bytes::zero_at(s, from, s.len() as int) == from + t.len(),
{
    assert forall|i: int| from <= i < from + t.len() implies #[trigger] s[i] != 0 by {
        assert(s[i] == t[i - from]);
    }
    bytes::lemma_zero_is(s, from, s.len() as int, from + t.len());
}

/// A property is read as text up to its first zero byte, or to its end if it has none; what is not
/// well-formed is no text.
pub proof fn law_text_property(
    b: Seq<u8>,
    strings: Seq<u8>,
    off: int,
    name: Seq<u8>,
    t: Seq<u8>,
    rest: Seq<u8>,
)
    requires
        no_zero(t),
        dtb::property_of(b, strings, off, name) == Some(t.push(0) + rest) || dtb::property_of(
            b,
            strings,
            off,
            name,
        ) == Some(t),
    ensures
        vstd::utf8::valid_utf8(t) ==> dtb::text_property(b, strings, off, name) == Some(t),
        !vstd::utf8::valid_utf8(t) ==> dtb::text_property(b, strings, off, name) is None,
{
    let v = dtb::property_of(b, strings, off, name)->0;
    let n = t.len() as int;
    assert(v.subrange(0, n) =~= t);
    lemma_text_ends(v, 0, t);
}

/// The name of a node stands behind its first word and ends before a zero byte.
pub proof fn law_node_name(b: Seq<u8>, off: int, name: Seq<u8>)
    requires
        0 <= off,
        off + 4 + name.len() < b.len(),
        b.subrange(off + 4, off + 4 + name.len()) == name,
        no_zero(name),
        b[off + 4 + name.len()] == 0,
    ensures
        dtb::raw_name(b, off) == name,
{
    lemma_text_ends(b, off + 4, name);
}

/// The name of a property stands in the strings block at its offset and ends before a zero byte; an
/// offset outside the block names nothing.
pub proof fn law_property_name(strings: Seq<u8>, off: int, name: Seq<u8>)
    requires
        0 <= off,
        off + name.len() < strings.len(),
        strings.subrange(off, off + name.len()) == name,
        no_zero(name),
        strings[off + name.len()] == 0,
        vstd::utf8::valid_utf8(name),
    ensures
        walk::string_at(strings, off) == Some(name),
        dtb::prop_name(strings, off) == name,
        walk::string_at(strings, strings.len() as int) is None,
{
    lemma_text_ends(strings, off, name);
}

/// Padding rounds up to whole words.
pub proof fn law_aligned(n: int)
    requires
        0 <= n,
    ensures
        bytes::aligned(n) % 4 == 0,
        n <= bytes::aligned(n) < n + 4,
{
}

/// What is said of each fault of a device tree.
pub proof fn law_descriptions(off: u32)
    ensures
        probe::described(probe::ProbeError::Header(probe::HeaderError::BadMagic))
            == "bad FDT magic",
        probe::described(probe::ProbeError::Header(probe::HeaderError::BadVersion))
            == "unsupported FDT version",
        probe::described(probe::ProbeError::Header(probe::HeaderError::OutOfBounds))
            == "FDT block out of bounds",
        probe::described(probe::ProbeError::Walk(WalkError::Truncated))
            == "FDT structure truncated",
        probe::described(probe::ProbeError::Walk(WalkError::Unbalanced)) == "FDT nodes unbalanced",
        probe::described(probe::ProbeError::Walk(WalkError::BadStringOffset(off)))
            == "FDT string offset out of bounds",
        probe::described(probe::ProbeError::MissingMemory) == "no /memory node found in DTB",
{
}

} // verus!
