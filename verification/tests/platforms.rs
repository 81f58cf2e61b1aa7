use atom::platform::bytes;
use atom::platform::cell;
use atom::platform::config;
use atom::platform::config::Config;
use atom::platform::dev::{DeviceNode, Devices};
use atom::platform::dtb::{Dtb, Node};
use atom::platform::header;
use atom::platform::probe;
use atom::platform::probe::{HeaderError, PlatformConfig, ProbeError, ProbeState};
use atom::platform::walk::{FdtIter, Token, WalkError};

/// A device tree in the making: the structure block and the strings block.
struct Tree {
    block: Vec<u8>,
    strings: Vec<u8>,
}

impl Tree {
    fn new() -> Tree {
        Tree { block: Vec::new(), strings: Vec::new() }
    }

    fn word(&mut self, w: u32) {
        self.block.extend(w.to_be_bytes());
    }

    fn pad(&mut self) {
        while self.block.len() % 4 != 0 {
            self.block.push(0);
        }
    }

    fn begin(&mut self, name: &str) {
        self.word(1);
        self.block.extend(name.as_bytes());
        self.block.push(0);
        self.pad();
    }

    fn end(&mut self) {
        self.word(2);
    }

    fn prop(&mut self, name: &str, value: &[u8]) {
        let at = self.strings.len() as u32;
        self.strings.extend(name.as_bytes());
        self.strings.push(0);
        self.word(3);
        self.word(value.len() as u32);
        self.word(at);
        self.block.extend(value);
        self.pad();
    }

    fn finish(&mut self) {
        self.word(9);
    }
}

fn cells(ws: &[u32]) -> Vec<u8> {
    ws.iter().flat_map(|w| w.to_be_bytes()).collect()
}

/// Memory, two processors, a serial port and an interrupt controller.
fn board() -> Tree {
    let mut t = Tree::new();
    t.begin("");
    t.prop("#address-cells", &cells(&[2]));
    t.prop("#size-cells", &cells(&[2]));
    t.begin("chosen");
    t.begin("memory@0");
    t.end();
    t.end();
    t.begin("cpus");
    t.prop("timebase-frequency", &cells(&[5_000_000]));
    t.prop("#address-cells", &cells(&[1]));
    t.prop("#size-cells", &cells(&[0]));
    t.begin("cpu@0");
    t.prop("device_type", b"cpu\0");
    t.end();
    t.begin("cpu@1");
    t.prop("device_type", b"cpu\0");
    t.end();
    t.end();
    t.begin("memory@80000000");
    t.prop("reg", &cells(&[0, 0x8000_0000, 0, 0x1000_0000]));
    t.prop("device_type", b"memory\0");
    t.end();
    t.begin("soc");
    t.prop("#address-cells", &cells(&[2]));
    t.prop("#size-cells", &cells(&[2]));
    t.begin("serial@10000000");
    t.prop("interrupts", &cells(&[11]));
    t.prop("reg", &cells(&[0, 0x1000_0100, 0, 0x100]));
    t.prop("compatible", b"ns16550a\0");
    t.end();
    t.begin("plic@c000000");
    t.prop("compatible", b"sifive,plic-1.0.0\0riscv,plic0\0");
    t.prop("reg", &cells(&[0, 0x0C00_0000, 0, 0x60_0000]));
    t.end();
    t.end();
    t.end();
    t.finish();
    t
}

#[test]
fn numbers_in_cells() {
    assert_eq!(bytes::read_be32(&[0, 1, 2, 3, 4], 1), 0x0102_0304);
    assert_eq!(bytes::find_zero(b"ab\0c\0", 0, 5), 2);
    assert_eq!(bytes::find_zero(b"abc", 1, 3), 3);
    let data = cells(&[1, 2, 3]);
    assert_eq!(cell::read_cell_u32(&data, 4), Some(2));
    assert_eq!(cell::read_cell_u32(&data, 9), None);
    let mut at = 0;
    assert_eq!(cell::read_cells(&data, &mut at, 2), Some(0x1_0000_0002));
    assert_eq!((cell::read_cells(&data, &mut at, 1), at), (Some(3), 12));
    assert_eq!(cell::read_cells(&data, &mut at, 1), None);
    let mut at = 8;
    assert_eq!((cell::read_cells(&data, &mut at, 2), at), (None, 8));
    assert_eq!((cell::read_cells(&data, &mut at, 3), at), (None, 8));
    let mut at = 0;
    assert_eq!((cell::read_cells(&data, &mut at, 0), at), (Some(0), 0));
}

fn names(block: &[u8], strings: &[u8]) -> (Vec<String>, Option<WalkError>) {
    let mut out = Vec::new();
    let mut it = FdtIter::new(block, strings);
    while let Some(r) = it.next() {
        match r {
            Ok(Token::BeginNode(n)) => out.push(format!("<{}", n)),
            Ok(Token::EndNode) => out.push(String::from(">")),
            Ok(Token::Property { name, value }) => out.push(format!("{}={}", name, value.len())),
            Ok(Token::Nop) => out.push(String::from(".")),
            Ok(Token::End) => out.push(String::from("!")),
            Err(e) => return (out, Some(e)),
        }
    }
    (out, None)
}

#[test]
fn tokens_in_order() {
    let mut t = Tree::new();
    t.begin("");
    t.prop("reg", &[1, 2, 3]);
    t.word(4);
    t.begin("abc");
    t.end();
    t.end();
    t.finish();
    let (out, e) = names(&t.block, &t.strings);
    assert_eq!(out, vec!["<", "reg=3", ".", "<abc", ">", ">", "!"]);
    assert_eq!(e, None);
}

#[test]
fn broken_streams() {
    assert_eq!(names(&[], &[]).1, Some(WalkError::Truncated));
    assert_eq!(names(&cells(&[7]), &[]).1, Some(WalkError::Truncated));
    assert_eq!(names(&cells(&[3, 0, 99, 9]), b"a\0").1, Some(WalkError::BadStringOffset(99)));
    let mut t = Tree::new();
    t.begin("a");
    t.begin("b");
    t.finish();
    let mut it = FdtIter::new(&t.block, &t.strings);
    assert!(matches!(it.next(), Some(Ok(Token::BeginNode("a")))));
    it.skip_subtree();
    assert!(matches!(it.next(), Some(Err(WalkError::Unbalanced))));
    assert!(it.next().is_none());
}

#[test]
fn skipped_subtree() {
    let t = board();
    let mut it = FdtIter::new(&t.block, &t.strings);
    assert_eq!(it.cursor_offset(), 0);
    assert!(matches!(it.next(), Some(Ok(Token::BeginNode("")))));
    assert_eq!(it.cursor_offset(), 8);
    it.next();
    it.next();
    assert!(matches!(it.next(), Some(Ok(Token::BeginNode("chosen")))));
    it.skip_subtree();
    assert!(matches!(it.next(), Some(Ok(Token::BeginNode("cpus")))));
}

#[test]
fn nodes_of_the_tree() {
    let t = board();
    let d = Dtb::new(&t.block, &t.strings);
    let mut w = d.walk();
    let mut found: Vec<(String, Node)> = Vec::new();
    while let Some(n) = w.next() {
        found.push((String::from_utf8(n.name(&d).to_vec()).unwrap(), n));
    }
    let order: Vec<&str> = found.iter().map(|f| f.0.as_str()).collect();
    assert_eq!(
        order,
        vec!["cpus", "cpu@0", "cpu@1", "memory@80000000", "soc", "serial@10000000", "plic@c000000"]
    );
    let serial = found[5].1;
    assert_eq!(serial.property_reg(&d, 0), Some((0x1000_0100, 0x100)));
    assert_eq!(serial.property_reg(&d, 1), None);
    assert_eq!(serial.property_u32(&d, "interrupts"), Some(11));
    assert_eq!(serial.property_string(&d, "compatible"), Some("ns16550a"));
    assert_eq!(serial.property_raw(&d, "compatible"), Some(&b"ns16550a\0"[..]));
    assert_eq!(serial.property_raw(&d, "clock"), None);
    assert_eq!(d.node_property_raw(serial.offset, "reg").unwrap().len(), 16);
    assert_eq!((found[1].1.address_cells, found[1].1.size_cells), (1, 0));
}

#[test]
fn parameters_of_the_tree() {
    let t = board();
    let d = Dtb::new(&t.block, &t.strings);
    assert_eq!(
        config::probe_global(&d),
        Config {
            dram_base: 0x8000_0000,
            dram_size: 0x1000_0000,
            timebase_frequency: 5_000_000,
            stack_reserve: 0x8000,
            hart_count: 2,
        }
    );
    let mut p = config::Platform::new();
    p.init(None);
    assert_eq!(*p.get(), Config::default_qemu_virt());
    assert!(p.dtb().is_none());
    let mut p = config::Platform::new();
    p.init(Some(Dtb::new(&t.block, &t.strings)));
    assert_eq!(p.get().hart_count, 2);
    assert!(p.dtb().is_some());
}

#[test]
fn search_in_the_tree() {
    let t = board();
    let c = probe::probe_dtb(&t.block, &t.strings).unwrap();
    assert_eq!((c.dram_base, c.dram_size), (0x8000_0000, 0x1000_0000));
    assert_eq!((c.uart_base, c.uart_irq), (0x1000_0100, 11));
    assert_eq!((c.plic_base, c.plic_size), (0x0C00_0000, 0x60_0000));
    assert_eq!((c.clint_base, c.timebase_freq), (probe::CLINT_BASE, 5_000_000));
}

#[test]
fn search_without_memory() {
    let mut t = Tree::new();
    t.begin("");
    t.end();
    t.finish();
    assert_eq!(probe::probe_dtb(&t.block, &t.strings), Err(ProbeError::MissingMemory));
    assert_eq!(probe::probe_dtb(&[], &[]), Err(ProbeError::Walk(WalkError::Truncated)));
    let mut s = ProbeState::new();
    assert_eq!(s.finish(), Err(ProbeError::MissingMemory));
    s.enter_node();
    s.enter_node();
    s.property("device_type", b"memory\0");
    s.property("reg", &cells(&[0, 0x4000_0000, 0, 0x100]));
    s.finish_node();
    assert_eq!(s.finish().unwrap().dram_base, 0x4000_0000);
}

#[test]
fn node_with_a_node_inside_is_recorded() {
    let mut s = ProbeState::new();
    s.enter_node();
    s.enter_node();
    s.property("device_type", b"memory\0");
    s.property("reg", &cells(&[0, 0x8000_0000, 0, 0x0800_0000]));
    s.enter_node();
    s.property("compatible", b"ns16550a\0");
    s.property("reg", &cells(&[0, 0x1234_0000, 0, 0x100]));
    s.finish_node();
    s.finish_node();
    let c = s.finish().unwrap();
    assert_eq!((c.dram_base, c.dram_size, c.uart_base), (0x8000_0000, 0x0800_0000, 0x1234_0000));
}

#[test]
fn nodes_nested_too_deep_are_passed_over() {
    let mut s = ProbeState::new();
    for _ in 0..8 {
        s.enter_node();
    }
    s.property("device_type", b"memory\0");
    s.property("reg", &cells(&[0, 0x8000_0000, 0, 0x1000]));
    s.enter_node();
    s.property("reg", &cells(&[0, 1, 0, 1]));
    s.finish_node();
    s.finish_node();
    assert_eq!(s.finish().unwrap().dram_base, 0x8000_0000);
}

#[test]
fn walk_gives_every_node_with_the_cells_of_its_parent() {
    let t = board();
    let dtb = Dtb::new(&t.block, &t.strings);
    let mut walk = dtb.walk();
    let mut seen = Vec::new();
    while let Some(n) = walk.next() {
        let name = String::from_utf8(n.name(&dtb).to_vec()).unwrap();
        seen.push((name, n.address_cells, n.size_cells));
    }
    let expected = [
        ("cpus", 2, 2),
        ("cpu@0", 1, 0),
        ("cpu@1", 1, 0),
        ("memory@80000000", 2, 2),
        ("soc", 2, 2),
        ("serial@10000000", 2, 2),
        ("plic@c000000", 2, 2),
    ];
    assert_eq!(seen.len(), expected.len());
    for (s, e) in seen.iter().zip(expected) {
        assert_eq!((s.0.as_str(), s.1, s.2), e);
    }
}

#[test]
fn compatible_lists() {
    assert!(probe::compatible_contains(b"a\0riscv,plic0\0", "riscv,plic0"));
    assert!(!probe::compatible_contains(b"riscv,plic01\0", "riscv,plic0"));
    assert_eq!(probe::trim_zeros(b"ab\0\0"), b"ab");
}

#[test]
fn errors_in_words() {
    for (e, s) in [
        (ProbeError::Header(HeaderError::BadMagic), "bad FDT magic"),
        (ProbeError::Header(HeaderError::BadVersion), "unsupported FDT version"),
        (ProbeError::Header(HeaderError::OutOfBounds), "FDT block out of bounds"),
        (ProbeError::Walk(WalkError::Truncated), "FDT structure truncated"),
        (ProbeError::Walk(WalkError::Unbalanced), "FDT nodes unbalanced"),
        (ProbeError::Walk(WalkError::BadStringOffset(1)), "FDT string offset out of bounds"),
        (ProbeError::MissingMemory, "no /memory node found in DTB"),
    ] {
        assert_eq!(e.description(), s);
    }
}

#[test]
fn platform_falls_back() {
    let mut p = probe::Platform::new();
    p.init(Some(Err(ProbeError::MissingMemory)), 0x8020_0000);
    assert_eq!(
        *p.config(),
        PlatformConfig { firmware_reserve: 0x20_0000, ..PlatformConfig::default_qemu_virt() }
    );
    assert_eq!(p.report_diag(), Some("no /memory node found in DTB"));
    assert_eq!(p.report_diag(), None);
    p.init(None, 0x8000_0000);
    assert_eq!(p.config().firmware_reserve, 0);
}

#[test]
fn devices_found_early() {
    let mut d = Devices::new();
    assert!(d.for_each(|n: &DeviceNode| n.base).is_empty());
    d.discover();
    assert_eq!(d.for_each(|n: &DeviceNode| n.base), vec![0x0C00_0000, 0x1000_0000, 0x0200_0000]);
    let mut d = Devices::new();
    for i in 0..10 {
        d.push_early("x", i, 1, None);
    }
    d.discover();
    assert_eq!(d.for_each(|n: &DeviceNode| n.base), vec![0, 1, 2, 3, 4, 5, 6, 7]);
    d.push_early("y", 99, 1, Some(1));
    d.discover();
    assert_eq!(d.for_each(|n: &DeviceNode| n.compatible).len(), 8);
}

/// The tree with its header in front.
fn blob(t: &Tree) -> Vec<u8> {
    let (n, m) = (t.block.len() as u32, t.strings.len() as u32);
    let mut b = cells(&[0xD00D_FEED, 40 + n + m, 40, 40 + n, 0, 17, 16, 0, m, n]);
    b.extend(&t.block);
    b.extend(&t.strings);
    b
}

fn with_word(b: &[u8], at: usize, w: u32) -> Vec<u8> {
    let mut b = b.to_vec();
    b[at..at + 4].copy_from_slice(&w.to_be_bytes());
    b
}

#[test]
fn headers() {
    let t = board();
    let b = blob(&t);
    let k = header::validate(&b).unwrap();
    assert_eq!((k.structure, k.strings), (&t.block[..], &t.strings[..]));
    assert_eq!(header::probe_blob(&b), probe::probe_dtb(&t.block, &t.strings));
    assert!(header::open_blob(&b).is_ok());
    assert!(matches!(header::validate(&b[..39]), Err(HeaderError::OutOfBounds)));
    assert!(matches!(header::validate(&with_word(&b, 0, 1)), Err(HeaderError::BadMagic)));
    assert!(matches!(header::validate(&with_word(&b, 20, 16)), Err(HeaderError::BadVersion)));
    assert!(matches!(header::validate(&with_word(&b, 24, 18)), Err(HeaderError::BadVersion)));
    assert!(matches!(header::validate(&b[..b.len() - 1]), Err(HeaderError::OutOfBounds)));
    assert!(matches!(header::validate(&with_word(&b, 8, u32::MAX)), Err(HeaderError::OutOfBounds)));
    assert_eq!(
        header::probe_blob(&with_word(&b, 0, 1)),
        Err(ProbeError::Header(HeaderError::BadMagic))
    );
    assert!(matches!(header::open_blob(&[]), Err(HeaderError::OutOfBounds)));
}

#[test]
fn property_of_a_node_inside_is_not_found() {
    let mut t = Tree::new();
    t.begin("");
    t.begin("a");
    t.prop("reg", &cells(&[1]));
    t.begin("b");
    t.prop("clock", &cells(&[7]));
    t.end();
    t.end();
    t.end();
    t.finish();
    let d = Dtb::new(&t.block, &t.strings);
    let mut w = d.walk();
    let a = w.next().unwrap();
    let b = w.next().unwrap();
    assert_eq!(a.property_raw(&d, "clock"), None);
    assert_eq!(b.property_u32(&d, "clock"), Some(7));
    assert_eq!(a.property_u32(&d, "reg"), Some(1));
}

#[test]
fn property_at_the_end_of_the_block_is_found() {
    let mut t = Tree::new();
    t.begin("a");
    t.prop("ranges", &[]);
    let d = Dtb::new(&t.block, &t.strings);
    assert_eq!(d.node_property_raw(0, "ranges"), Some(&[][..]));
    t.block.truncate(t.block.len() - 1);
    let d = Dtb::new(&t.block, &t.strings);
    assert_eq!(d.node_property_raw(0, "ranges"), None);
}
