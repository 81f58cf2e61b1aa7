use atom::panicking;
use atom::panicking::{
    Location, PanicConfig, PanicVerbosity, Registers, Unwind, Unwinder, MAX_BACKTRACE_FRAMES,
};
use atom::shell;
use atom::shell::{Action, LineEditor, LineEvent, Outcome, State};
use atom::text;

fn editor(keys: &[u8]) -> LineEditor {
    let mut e = LineEditor::new();
    for &k in keys {
        e.feed(k);
    }
    e
}

#[test]
fn typed_lines() {
    let mut e = editor(b"hex\x08llp");
    assert_eq!(e.feed(0x7f), LineEvent::Erased);
    assert_eq!(e.feed(b'o'), LineEvent::Pending);
    assert_eq!(e.feed(0x07), LineEvent::Pending);
    assert_eq!(e.feed(b'\r'), LineEvent::Complete);
    assert_eq!(e.take(), b"hello");
    assert_eq!(e.take(), b"");
    assert_eq!(e.feed(8), LineEvent::Pending);
    assert_eq!(e.feed(b'\n'), LineEvent::Complete);
    assert_eq!(shell::erase_sequence(), b"\x08 \x08");
    assert_eq!(shell::PROMPT, "atom> ");
}

fn output(line: &[u8]) -> Vec<u8> {
    let s = shell::execute(line, b"1.2.3");
    assert!(matches!(s.action, Action::Done));
    s.output
}

#[test]
fn simple_commands() {
    assert_eq!(output(b""), b"\n");
    assert_eq!(output(b"   "), b"\n");
    assert_eq!(output(b"echo  a   b"), b"\na b\n");
    assert_eq!(output(b"echo"), b"\n\n");
    assert_eq!(output(b"ver"), b"\natom kernel 1.2.3\n");
    assert_eq!(output(b"version"), b"\natom kernel 1.2.3\n");
    assert_eq!(output(b"clear"), b"\n\x1b[2J\x1b[H");
    assert_eq!(
        output(b"frob x"),
        "\nunknown command 'frob' \u{2014} type 'help' for usage\n".as_bytes()
    );
    assert_eq!(output(b"cat"), b"\nusage: cat <path>\n");
    assert_eq!(output(b"write"), b"\nusage: write <path> <content...>\n");
    let help = output(b"help");
    assert!(help.starts_with("\natom shell \u{2014} builtin commands:\n".as_bytes()));
    assert!(help.ends_with(b"  write <path> <text>  write text to file (creates if absent)\n"));
    assert_eq!(help.iter().filter(|&&b| b == b'\n').count(), 14);
}

#[test]
fn lines_that_are_not_plain() {
    // A line that is not text counts as empty; every white space separates words.
    assert_eq!(output(b"echo \xff"), b"\n");
    assert_eq!(output("echo\u{3000}a\u{a0}b\tc".as_bytes()), b"\na b c\n");
    assert_eq!(output("echo \u{e9}".as_bytes()), "\n\u{e9}\n".as_bytes());
}

#[test]
fn commands_with_an_action() {
    assert!(matches!(shell::execute(b"uptime", b"").action, Action::Uptime));
    assert!(matches!(shell::execute(b"date", b"").action, Action::Date));
    assert!(matches!(shell::execute(b"meminfo", b"").action, Action::Meminfo));
    let s = shell::execute(b"poweroff", b"");
    assert!(matches!(s.action, Action::Shutdown));
    assert_eq!(s.output, b"\nshutting down\n");
    let s = shell::execute(b"bench", b"");
    assert!(matches!(s.action, Action::Bench));
    assert_eq!(s.output, b"\nrunning demos (DEMO_* compile switches)...\n");
    assert_eq!(shell::uptime_text(12345, 1_234_567), b"up 12345 ticks (1234 ms)\n");
    assert_eq!(shell::date_text(Some(17)), b"epoch 17 s since Unix epoch\n");
    assert_eq!(shell::date_text(None), b"no RTC registered\n");
    assert_eq!(
        shell::meminfo_text(0x8000_0000, 0x800_0000, 10_000_000),
        b"DRAM 0x80000000..0x88000000 (128 MiB), timebase 10000000 Hz\n".to_vec()
    );
}

#[test]
fn ls_opens_lists_and_closes() {
    let s = shell::execute(b"ls", b"");
    assert!(matches!(&s.action, Action::Open { path, write: false } if path == b"/data"));
    let s = shell::advance(s.state, Outcome::Opened(Ok(4)));
    assert!(matches!(s.action, Action::Readdir { fd: 4 }));
    let s = shell::advance(s.state, Outcome::Bytes(Ok(b"a\nb\n".to_vec())));
    assert_eq!(s.output, b"a\nb\n");
    assert!(matches!(s.action, Action::Close { fd: 4 }));
    let s = shell::advance(s.state, Outcome::Over);
    assert!(matches!(s.action, Action::Done));
    let s = shell::advance(State::LsOpen, Outcome::Opened(Err(b"NotFound".to_vec())));
    assert_eq!(s.output, b"ls: NotFound\n");
    let s = shell::advance(State::LsList { fd: 1 }, Outcome::Bytes(Err(b"NotDir".to_vec())));
    assert_eq!(s.output, b"ls: NotDir\n");
    assert!(matches!(s.action, Action::Close { fd: 1 }));
    let s = shell::advance(State::LsList { fd: 1 }, Outcome::Bytes(Ok(vec![0xff])));
    assert_eq!(s.output, b"");
}

#[test]
fn cat_reads_to_the_end() {
    let s = shell::execute(b"cat /data/x", b"");
    assert!(matches!(&s.action, Action::Open { path, write: false } if path == b"/data/x"));
    let s = shell::advance(s.state, Outcome::Opened(Ok(3)));
    let s = shell::advance(s.state, Outcome::Bytes(Ok(b"hi".to_vec())));
    assert_eq!(s.output, b"hi");
    assert!(matches!(s.action, Action::Read { fd: 3 }));
    let s = shell::advance(s.state, Outcome::Bytes(Ok(b"a\xffb".to_vec())));
    assert_eq!(s.output, "a\u{fffd}b".as_bytes());
    let s = shell::advance(s.state, Outcome::Bytes(Ok(vec![])));
    assert!(matches!(s.action, Action::Close { fd: 3 }));
    let s = shell::advance(State::CatRead { fd: 3 }, Outcome::Bytes(Err(b"Io".to_vec())));
    assert!(matches!(s.action, Action::Close { fd: 3 }));
    let s = shell::advance(State::CatOpen, Outcome::Opened(Err(b"NotFound".to_vec())));
    assert_eq!(s.output, b"cat: NotFound\n");
}

#[test]
fn write_creates_if_absent() {
    let s = shell::execute(b"write /data/x some  text", b"");
    assert!(matches!(&s.action, Action::Open { path, write: true } if path == b"/data/x"));
    let s = shell::advance(s.state, Outcome::Opened(Err(b"NotFound".to_vec())));
    assert!(matches!(&s.action, Action::Create { path } if path == b"/data/x"));
    let s = shell::advance(s.state, Outcome::Opened(Ok(5)));
    assert!(matches!(&s.action, Action::Write { fd: 5, bytes } if bytes == b"some text"));
    let s = shell::advance(s.state, Outcome::Count(Ok(9)));
    assert_eq!(s.output, b"wrote 9 bytes\n");
    assert!(matches!(s.action, Action::Close { fd: 5 }));
    let s = shell::advance(
        State::WriteCreate { content: vec![] },
        Outcome::Opened(Err(b"ReadOnly".to_vec())),
    );
    assert_eq!(s.output, b"write: create failed: ReadOnly\n");
    let s = shell::advance(State::WriteContent { fd: 5 }, Outcome::Count(Err(b"Full".to_vec())));
    assert_eq!(s.output, b"write: Full\n");
    let s = shell::advance(
        State::WriteOpen { path: b"p".to_vec(), content: b"c".to_vec() },
        Outcome::Opened(Ok(6)),
    );
    assert!(matches!(&s.action, Action::Write { fd: 6, bytes } if bytes == b"c"));
}

#[test]
fn numbers_as_text() {
    let mut out = Vec::new();
    text::push_dec(&mut out, 0);
    text::push_dec(&mut out, u64::MAX);
    assert_eq!(out, b"018446744073709551615");
    let mut out = Vec::new();
    text::push_hex(&mut out, 0);
    text::push_hex(&mut out, 0xDEAD_BEEF);
    text::push_hex_word(&mut out, 0x1F);
    text::push_hex_digits(&mut out, 0xAB);
    assert_eq!(out, b"0x00xdeadbeef0x000000000000001fab".to_vec());
    let mut out = Vec::new();
    text::push_dec6(&mut out, 42);
    text::push_dec6(&mut out, 1_234_567);
    assert_eq!(out, b"0000421234567");
}

#[test]
fn words_of_a_text() {
    let ws = text::split_words(b"  ab c\t\n d ");
    assert_eq!(ws, vec![b"ab".to_vec(), b"c".to_vec(), b"d".to_vec()]);
    assert_eq!(text::join_words(&ws, 1), b"c d");
    assert_eq!(text::join_words(&ws, 3), b"");
    for s in ["\u{85}", "\u{1680}", "\u{2000}", "\u{200a}", "\u{2028}", "\u{2029}", "\u{202f}", "\u{205f}", "\u{0b}", "\u{0c}"] {
        let t = format!("a{}b", s);
        assert_eq!(text::split_words(t.as_bytes()).len(), t.split_whitespace().count());
        assert_eq!(text::split_words(t.as_bytes()).len(), 2);
    }
    for s in ["\u{200b}", "\u{2010}", "\u{e1}", "\u{1b}"] {
        assert_eq!(text::split_words(s.as_bytes()).len(), 1);
    }
}

#[test]
fn byte_strings() {
    assert!(text::bytes_eq(b"ab", b"ab") && !text::bytes_eq(b"ab", b"ac") && !text::bytes_eq(b"a", b"ab"));
    assert!(text::is_text(b"ls", "ls") && !text::is_text(b"ls", "cat"));
    assert!(text::is_utf8("\u{e9}".as_bytes()) && !text::is_utf8(b"\xe9"));
    assert_eq!(text::replace_invalid(&b"x\xfe".to_vec()), "x\u{fffd}".as_bytes());
    assert_eq!(text::replace_invalid(&b"xy".to_vec()), b"xy");
    assert_eq!(text::copy_bytes(b"q"), b"q");
    let mut out = vec![1];
    text::push_bytes(&mut out, &[2, 3]);
    text::push_str(&mut out, "A");
    assert_eq!(out, vec![1, 2, 3, 65]);
}

#[test]
fn verbosity_is_set_once() {
    let mut c = PanicConfig::new();
    assert_eq!(c.verbosity(), PanicVerbosity::Full);
    c.set_verbosity(PanicVerbosity::Normal);
    c.set_verbosity(PanicVerbosity::Full);
    assert_eq!(c.verbosity(), PanicVerbosity::Normal);
}

#[test]
fn causes_in_words() {
    let irq = 1 << 63;
    assert_eq!(panicking::decode_scause(irq + 5), "Supervisor timer interrupt");
    assert_eq!(panicking::decode_scause(irq + 2), "Unknown interrupt");
    assert_eq!(panicking::decode_scause(2), "Illegal instruction");
    assert_eq!(panicking::decode_scause(15), "Store/AMO page fault");
    assert_eq!(panicking::decode_scause(14), "Unknown exception");
}

#[test]
fn panic_report() {
    let r = Registers {
        scause: 13,
        sepc: 0x8020_0000,
        sstatus: 0x122,
        stval: 0xdead,
        satp: 0x8000_0000_0008_0001,
        sp: 0x8700_0000,
        s0: 0x8700_0010,
    };
    let at = Some(Location { file: "src/main.rs", line: 12, column: 5 });
    let out = panicking::report_head(at, "boom", &r, PanicVerbosity::Full);
    let want = concat_lines(&[
        "",
        "\x1b[31m\x1b[1m\u{2500}\u{2500}\u{2500} KERNEL PANIC\x1b[0m",
        "  \x1b[1mpanicked at src/main.rs:12:5\x1b[0m",
        "  \x1b[1mboom\x1b[0m",
        "",
        "\x1b[36m\u{2500}\u{2500}\u{2500} CSRs\x1b[0m",
        "  scause:  0x000000000000000d  (Exception: Load page fault)",
        "  sepc:    0x0000000080200000",
        "  sstatus: 0x0000000000000122  (SPP=S, SPIE=1, SIE=1)",
        "  stval:   0x000000000000dead",
        "  sp:      0x0000000087000000",
        "  satp:    0x8000000000080001  (MODE=Sv39, PPN=0x80001 \u{2192} root table 0x80001000)",
        "  s0:      0x0000000087000010  (frame pointer, backtrace start)",
        "",
        "\x1b[33m\u{2500}\u{2500}\u{2500} Backtrace\x1b[0m",
    ]);
    assert_eq!(String::from_utf8(out).unwrap(), want);
    let end = "\x1b[31m\x1b[1m\u{2500}\u{2500}\u{2500} System halted (shutting down via SBI)\x1b[0m\n";
    assert_eq!(panicking::report_foot(PanicVerbosity::Normal), end.as_bytes());
    assert_eq!(panicking::report_foot(PanicVerbosity::Full), format!("\n{}", end).as_bytes());
}

fn concat_lines(lines: &[&str]) -> String {
    let mut s = String::new();
    for l in lines {
        s.push_str(l);
        s.push('\n');
    }
    s
}

#[test]
fn panic_report_without_place() {
    let r = Registers { scause: 1 << 63, sepc: 0, sstatus: 0, stval: 0, satp: 0, sp: 0, s0: 0 };
    let out = String::from_utf8(panicking::report_head(None, "m", &r, PanicVerbosity::Normal)).unwrap();
    assert!(out.contains("(Interrupt: Unknown interrupt)"));
    assert!(out.contains("(SPP=U, SPIE=0, SIE=0)"));
    assert!(out.contains("(MODE=??, PPN=0x0 \u{2192} root table 0x0)"));
    assert!(!out.contains("panicked at") && !out.contains("Backtrace"));
}

#[test]
fn backtrace_follows_the_frames() {
    let base = 0x8000_0000;
    let u = Unwinder::new(base + 0x100);
    assert_eq!(u.next(base), Unwind::Visit(base + 0xF8, base + 0xF0));
    let mut out = Vec::new();
    let v = u.visit(0x8020_1234, base + 0x200, &mut out).unwrap();
    assert_eq!(out, b"    [0] 0x0000000080201234\n");
    assert_eq!(v, Unwinder { shown: 1, fp: base + 0x200 });
    assert_eq!(v.visit(1, 0, &mut out), None);
    assert_eq!(v.visit(1, v.fp, &mut out), None);
    assert_eq!(Unwinder::new(3).next(base), Unwind::NoFrame);
    assert_eq!(Unwinder { shown: 2, fp: 3 }.next(base), Unwind::Done);
    assert_eq!(Unwinder { shown: MAX_BACKTRACE_FRAMES, fp: base + 64 }.next(base), Unwind::Done);
    assert!(matches!(Unwinder::new(0xC000_0100).next(base), Unwind::Visit(_, _)));
    let mut out = Vec::new();
    panicking::no_frame_line(&mut out);
    assert_eq!(out, b"    (no frame pointer available)\n");
}
