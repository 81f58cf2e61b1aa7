//! The platform parameters that the kernel needs before it has an allocator.
use vstd::prelude::*;
use vstd::slice::slice_subrange;
use crate::platform::cell;
use crate::platform::dtb;
use crate::platform::dtb::{Dtb, Node, Walk, WalkPlace};
use crate::text;

verus! {

/// Memory of the fallback platform.
pub const DRAM_BASE: u64 = 0x8000_0000;

/// Memory size of the fallback platform: 128 MiB.
pub const DRAM_SIZE: u64 = 0x800_0000;

/// Timer frequency of the fallback platform.
pub const TIMEBASE_FREQUENCY: u64 = 10_000_000;

/// Kernel stack at the end of memory.
pub const STACK_RESERVE: u64 = 0x8000;

/// The platform parameters.
#[derive(Clone, Copy, PartialEq, Eq, Structural, Debug)]
pub struct Config {
    pub dram_base: u64,
    pub dram_size: u64,
    /// Ticks of the timer in a second.
    pub timebase_frequency: u64,
    pub stack_reserve: u64,
    pub hart_count: u64,
}

/// The parameters of the fallback platform.
pub open spec fn qemu_virt() -> Config {
    Config {
        dram_base: DRAM_BASE,
        dram_size: DRAM_SIZE,
        timebase_frequency: TIMEBASE_FREQUENCY,
        stack_reserve: STACK_RESERVE,
        hart_count: 1,
    }
}

impl Config {
    /// The parameters of the fallback platform.
    pub fn default_qemu_virt() -> (r: Config)
        ensures
            r == qemu_virt(),
    {
        Config {
            dram_base: DRAM_BASE,
            dram_size: DRAM_SIZE,
            timebase_frequency: TIMEBASE_FREQUENCY,
            stack_reserve: STACK_RESERVE,
            hart_count: 1,
        }
    }
}

/// The name of a node up to the `@` that starts its unit address.
pub open spec fn before_at(name: Seq<u8>) -> Seq<u8>
    decreases name.len(),
{
    if name.len() == 0 {
        name
    } else {
        let head = before_at(name.drop_last());
        if head.len() < name.len() - 1 || name.last() == 64 {
            head
        } else {
            name
        }
    }
}

/// The name of a node up to the `@` that starts its unit address.
fn cut_unit(name: &[u8]) -> (r: &[u8])
    ensures
        r@ == before_at(name@),
{
    let n: usize = name.len();
    let mut i: usize = 0;
    assert(name@.subrange(0, 0) =~= before_at(name@.subrange(0, 0)));
    while i < n && name[i] != 64
        invariant
            i <= n,
            n == name@.len(),
            before_at(name@.subrange(0, i as int)) == name@.subrange(0, i as int),
        decreases n - i,
    {
        proof {
            let next = name@.subrange(0, i + 1);
            assert(next.drop_last() =~= name@.subrange(0, i as int));
        }
        i += 1;
    }
    proof {
        lemma_cut(name@, i as int);
    }
    slice_subrange(name, 0, i)
}

/// What follows the `@` does not count.
proof fn lemma_cut(name: Seq<u8>, i: int)
    requires
        0 <= i <= name.len(),
        before_at(name.subrange(0, i)) == name.subrange(0, i),
        i < name.len() ==> name[i] == 64,
    ensures
        before_at(name) == name.subrange(0, i),
    decreases name.len(),
{
    if i == name.len() {
        assert(name.subrange(0, i) =~= name);
    } else if i == name.len() - 1 {
        assert(name.drop_last() =~= name.subrange(0, i));
    } else {
        let head = name.drop_last();
        assert(head.subrange(0, i) =~= name.subrange(0, i));
        lemma_cut(head, i);
    }
}

/// What is known so far: the parameters, and the number of processors.
#[derive(Clone, Copy)]
pub struct Survey {
    pub config: Config,
    pub cpus: u64,
}

/// What is known after a node.
#[verifier::opaque]
pub open spec fn learned(b: Seq<u8>, strings: Seq<u8>, s: Survey, n: Node) -> Survey {
    let off = n.offset as int;
    let kind = dtb::text_property(b, strings, off, text::utf8("device_type"));
    let reg = match dtb::property_of(b, strings, off, text::utf8("reg")) {
        Some(v) => dtb::register_entry(v, 0, n.address_cells, n.size_cells),
        None => None,
    };
    let freq = match dtb::property_of(b, strings, off, text::utf8("timebase-frequency")) {
        Some(v) => cell::cell_at(v, 0),
        None => None,
    };
    let memory = kind == Some(text::utf8("memory")) && reg is Some;
    let cpu = kind == Some(text::utf8("cpu")) && kind != Some(text::utf8("memory"));
    let name = text::utf8_or(dtb::raw_name(b, off), Seq::empty());
    let clock = before_at(name) == text::utf8("cpus") && freq is Some;
    Survey {
        config: Config {
            dram_base: if memory {
                (reg->0).0
            } else {
                s.config.dram_base
            },
            dram_size: if memory {
                (reg->0).1
            } else {
                s.config.dram_size
            },
            timebase_frequency: if clock {
                freq->0 as u64
            } else {
                s.config.timebase_frequency
            },
            ..s.config
        },
        cpus: if cpu {
            (s.cpus + 1) as u64
        } else {
            s.cpus
        },
    }
}

/// What is known after the nodes from the place on.
pub open spec fn surveyed(b: Seq<u8>, strings: Seq<u8>, w: WalkPlace, s: Survey) -> Survey
    decreases
            if w.cursor < b.len() {
                b.len() - w.cursor
            } else {
                0
            },
{
    proof {
        dtb::lemma_next_node(b, strings, w);
    }
    match dtb::next_node(b, strings, w) {
        (Some(n), next) => surveyed(b, strings, next, learned(b, strings, s, n)),
        (None, _) => s,
    }
}

/// The parameters of the device tree. Processors are counted only if there are any.
pub open spec fn probed(b: Seq<u8>, strings: Seq<u8>) -> Config {
    let s = surveyed(
        b,
        strings,
        dtb::walk_start(),
        Survey { config: qemu_virt(), cpus: 0 },
    );
    Config {
        hart_count: if s.cpus > 0 {
            s.cpus
        } else {
            s.config.hart_count
        },
        ..s.config
    }
}

/// Takes what a node says.
fn learn(dtb: &Dtb, s: Survey, n: &Node) -> (r: Survey)
    requires
        dtb.wf(),
        dtb::placed(*n, dtb.block()),
        s.cpus < u64::MAX,
    ensures
        r == learned(dtb.block(), dtb.strings(), s, *n),
        r.cpus <= s.cpus + 1,
{
    proof {
        reveal(learned);
    }
    let mut r: Survey = s;
    match n.property_string(dtb, "device_type") {
        Some(kind) => {
            if text::is_text(kind.as_bytes(), "memory") {
                match n.property_reg(dtb, 0) {
                    Some((base, size)) => {
                        r.config.dram_base = base;
                        r.config.dram_size = size;
                    },
                    None => {},
                }
            } else if text::is_text(kind.as_bytes(), "cpu") {
                r.cpus = r.cpus + 1;
            }
        },
        None => {},
    }
    if text::is_text(cut_unit(n.name(dtb)), "cpus") {
        match n.property_u32(dtb, "timebase-frequency") {
            Some(freq) => {
                r.config.timebase_frequency = freq as u64;
            },
            None => {},
        }
    }
    r
}

/// Reads the parameters from the device tree in one pass over its nodes.
pub fn probe_global(dtb: &Dtb) -> (r: Config)
    requires
        dtb.wf(),
    ensures
        r == probed(dtb.block(), dtb.strings()),
{
    let ghost b = dtb.block();
    let ghost st = dtb.strings();
    let mut walk: Walk = dtb.walk();
    let mut s: Survey = Survey { config: Config::default_qemu_virt(), cpus: 0 };
    let ghost first = s;
    proof {
        walk.lemma_within();
    }
    loop
        invariant
            dtb.wf(),
            b == dtb.block(),
            st == dtb.strings(),
            b.len() < 0xFFFF_FFF0,
            walk.wf(),
            walk.block() == b,
            walk.strings() == st,
            0 <= s.cpus <= walk.place().cursor,
            walk.place().cursor <= b.len() + 4,
            surveyed(b, st, dtb::walk_start(), first) == surveyed(b, st, walk.place(), s),
            first == (Survey { config: qemu_virt(), cpus: 0 }),
        decreases b.len() + 4 - walk.place().cursor,
    {
        let ghost w = walk.place();
        proof {
            dtb::lemma_next_node(b, st, w);
        }
        let next: Option<Node> = walk.next();
        proof {
            walk.lemma_within();
        }
        match next {
            Some(n) => {
                s = learn(dtb, s, &n);
            },
            None => {
                let mut cfg: Config = s.config;
                if s.cpus > 0 {
                    cfg.hart_count = s.cpus;
                }
                return cfg;
            },
        }
    }
}

/// The platform parameters, once they are known, and the device tree if there is a usable one.
pub struct Platform<'a> {
    config: Option<Config>,
    dtb: Option<Dtb<'a>>,
}

impl<'a> Platform<'a> {
    /// The parameters.
    pub closed spec fn known(&self) -> Option<Config> {
        self.config
    }

    /// The device tree.
    pub closed spec fn tree(&self) -> Option<Dtb<'a>> {
        self.dtb
    }

    /// Nothing is known.
    pub fn new() -> (r: Platform<'a>)
        ensures
            r.known() is None,
            r.tree() is None,
    {
        Platform { config: None, dtb: None }
    }

    /// Takes the parameters from the device tree, or those of the fallback platform if there is none
    /// that can be used. Only the first call counts.
    pub fn init(&mut self, tree: Option<Dtb<'a>>)
        requires
            tree matches Some(d) ==> d.wf(),
        ensures
            final(self).known() == (match old(self).known() {
                Some(c) => Some(c),
                None => Some(
                    match tree {
                        Some(d) => probed(d.block(), d.strings()),
                        None => qemu_virt(),
                    },
                ),
            }),
            final(self).tree() == (match old(self).tree() {
                Some(d) => Some(d),
                None => tree,
            }),
    {
        let cfg: Config = match &tree {
            Some(d) => probe_global(d),
            None => Config::default_qemu_virt(),
        };
        if self.dtb.is_none() {
            self.dtb = tree;
        }
        if self.config.is_none() {
            self.config = Some(cfg);
        }
    }

    /// The parameters, which must be known.
    pub fn get(&self) -> (r: &Config)
        requires
            self.known() is Some,
        ensures
            *r == self.known()->0,
    {
        self.config.as_ref().unwrap()
    }

    /// The device tree, if there is a usable one.
    pub fn dtb(&self) -> (r: Option<&Dtb<'a>>)
        ensures
            match self.tree() {
                Some(d) => r == Some(&d),
                None => r is None,
            },
    {
        self.dtb.as_ref()
    }
}

} // verus!
