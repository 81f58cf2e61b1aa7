use atom::journal;
use atom::journal::Journal;
use atom::log::buf::Buf;
use atom::log::clock;
use atom::log::clock::{ClockSource, CsrClock};
use atom::log::filter;
use atom::log::filter::{Filter, LogLevel, ModuleRule};
use atom::log::logger::Logger;
use atom::log::names;
use atom::log::palette;
use atom::log::record::{LogMessage, Timestamp};
use atom::log::ring::LogRing;

#[test]
fn buffers_cut() {
    let mut b: Buf<4> = Buf::new();
    b.write_str("ab");
    b.write_bytes(b"cde");
    assert_eq!(b.as_slice(), b"abcd");
    assert_eq!((b.as_str(), b.len()), ("abcd", 4));
    let mut c: Buf<2> = Buf::new();
    c.write_str("a\u{e9}");
    assert_eq!((c.as_str(), c.len()), ("", 2));
}

#[test]
fn times() {
    assert_eq!(clock::timestamp_of(25_000_001, 10_000_000), Timestamp(2_500_000));
    assert_eq!(clock::timestamp_of(7, 0), Timestamp(7_000_000));
    assert_eq!(clock::split_time(25_000_010, 10_000_000), (2, 500_001));
    assert_eq!(clock::fmt_time(Some(Timestamp::new(3_000_042))), b"3.000042");
    assert_eq!(clock::fmt_time(None), b"?.??????");
    assert_eq!((Timestamp(1_500_000).sec(), Timestamp(1_500_000).usec()), (1, 500_000));
    let mut s: ClockSource<CsrClock> = ClockSource::new();
    assert_eq!(s.count(), None);
    assert_eq!(s.read_time(), None);
    s.set_clock_source(CsrClock { count: 9 }, 10);
    s.set_clock_source(CsrClock { count: 1 }, 20);
    assert_eq!(s.count(), Some((9, 10)));
    assert_eq!(s.read_time(), Some(Timestamp(900_000)));
}

#[test]
fn levels_and_rules() {
    let mut f = Filter::new();
    assert_eq!(f.max_level(), LogLevel::Info);
    assert!(f.lets_through(LogLevel::Info, "atom::a") && !f.lets_through(LogLevel::Debug, "atom::a"));
    f.set_max_level(LogLevel::Error);
    f.set_module_rules(vec![
        ModuleRule { prefix: "driver", level: LogLevel::Debug },
        ModuleRule { prefix: "driver::uart", level: LogLevel::Warn },
    ]);
    assert_eq!(f.effective_level("atom::driver::uart::tx"), LogLevel::Warn);
    assert_eq!(f.effective_level("atom::driver::plic"), LogLevel::Debug);
    assert_eq!(f.effective_level("atom::drivers"), LogLevel::Error);
    f.set_console_level(LogLevel::Warn);
    assert_eq!(f.console_level(), LogLevel::Warn);
    assert!(f.console_shows(LogLevel::Error) && !f.console_shows(LogLevel::Info));
    assert_eq!(LogLevel::Trace.as_u8(), 4);
    for l in [LogLevel::Error, LogLevel::Warn, LogLevel::Info, LogLevel::Debug, LogLevel::Trace] {
        assert_eq!(filter::level_from_u8(l.as_u8()), l);
    }
}

#[test]
fn short_names() {
    assert_eq!(names::short_module("atom::driver::uart"), b"uart");
    assert_eq!(names::short_module("atom"), b"atom");
    assert_eq!(names::short_file("src/driver/uart.rs"), b"uart.rs");
    assert_eq!(names::short_file("uart.rs"), b"uart.rs");
    assert_eq!(names::strip_crate(b"atom::driver::uart"), b"driver::uart");
}

#[test]
fn styles() {
    assert_eq!(palette::level_style(LogLevel::Warn), ("\x1b[1;33m", "WARN"));
    assert_eq!(palette::label_str(LogLevel::Trace), "TRACE");
}

fn message(text: &str) -> LogMessage {
    let mut m = LogMessage::new(LogLevel::Warn, Timestamp(1_000_002), b"uart", None);
    m.write_msg(text);
    m
}

#[test]
fn messages() {
    let mut m = LogMessage::new(
        LogLevel::Debug,
        Timestamp(5),
        b"a_module_name_of_thirty_bytes!",
        Some((b"f.rs".to_vec(), 9)),
    );
    m.write_msg("x");
    m.write_msg("y");
    m.set_seq(3);
    assert_eq!((m.module(), m.msg(), m.seq), ("a_module_name_of_thirty_", "xy", 3));
    assert_eq!((m.level(), m.ts()), (LogLevel::Debug, Timestamp(5)));
    assert_eq!(m.loc(), Some((&b"f.rs"[..], 9)));
}

#[test]
fn ring_keeps_the_last_messages() {
    let mut r = LogRing::new();
    assert_eq!(r.log_seq_range(), None);
    for i in 0..130 {
        r.push(message(&format!("m{}", i)));
    }
    let (first, last) = r.log_seq_range().unwrap();
    assert_eq!(last - first, 127);
    let all = r.log_read(0, 100_000);
    assert!(all.starts_with(b"[WARN] (uart) 1.000002\n    m2\n[WARN] (uart) 1.000002\n    m3\n"));
    assert!(all.ends_with(b"    m129\n"));
    let mut pieces = Vec::new();
    loop {
        let p = r.log_read(pieces.len(), 7);
        if p.is_empty() {
            break;
        }
        pieces.extend(p);
    }
    assert_eq!(pieces, all);
    assert!(r.log_read(all.len(), 10).is_empty());
}

#[test]
fn lost_messages_show_in_the_numbers() {
    let mut r = LogRing::new();
    r.push(message("seen"));
    let (_, newest) = r.log_seq_range().unwrap();
    for i in 0..128 {
        r.push(message(&format!("m{}", i)));
    }
    assert_eq!(r.log_seq_range(), Some((newest + 1, newest + 128)));
    r.push(message("one more"));
    assert_eq!(r.log_seq_range(), Some((newest + 2, newest + 129)));
}

#[test]
fn long_messages_are_read_back_whole() {
    let expected = format!("[ERROR] ({}) 0.000000\n    {}\n", "m".repeat(24), "x".repeat(256));
    assert_eq!(expected.len(), 305);
    let module = format!("k::{}", "m".repeat(24));
    let mut l: Logger<CsrClock> = Logger::new();
    l.log(LogLevel::Error, &"x".repeat(256), &module, "f.rs", 1);
    assert_eq!(l.ring.log_read(0, 512), expected.as_bytes());
    let mut j: Journal<CsrClock> = Journal::new();
    j.log(LogLevel::Error, &"x".repeat(256), &module, "f.rs", 1);
    assert_eq!(j.ring.log_read(0, 512), expected.as_bytes());
    assert_eq!(j.ring.log_read(300, 512), b"xxxx\n");
}

#[test]
fn logger_lines() {
    let mut l: Logger<CsrClock> = Logger::new();
    assert_eq!(l.log(LogLevel::Debug, "no", "atom::a", "a.rs", 1), None);
    let out = l.log(LogLevel::Error, "bad", "atom::mm::fault", "src/f.rs", 3).unwrap();
    assert_eq!(
        String::from_utf8(out).unwrap(),
        "\x1b[1;31m[ERROR]\x1b[0m\t(\x1b[90mfault\x1b[0m) \x1b[90m?.??????\x1b[0m\n\t\x1b[90mbad\x1b[0m\n"
    );
    assert_eq!(l.ring.log_read(0, 1000), b"[ERROR] (fault) 0.000000\n    bad\n");
    l.filter.set_max_level(LogLevel::Trace);
    l.filter.set_console_level(LogLevel::Trace);
    let out = l.log_line(LogLevel::Debug, "d", "atom::x", "src/f.rs", 3, Some(Timestamp(2))).unwrap();
    assert!(String::from_utf8(out).unwrap().contains("f.rs:3 0.000002"));
    // What the console does not show is kept all the same.
    l.filter.set_console_level(LogLevel::Error);
    assert_eq!(l.log(LogLevel::Info, "quiet", "atom::x", "src/f.rs", 3), None);
    assert!(l.ring.log_read(0, 1000).ends_with(b"    quiet\n"));
    l.clock.set_clock_source(CsrClock { count: 25_000_010 }, 10_000_000);
    let out = l.log(LogLevel::Error, "late", "atom::x", "src/f.rs", 3).unwrap();
    assert!(String::from_utf8(out).unwrap().contains("2.500001"));
    assert!(l.ring.log_read(0, 1000).ends_with(b"[ERROR] (x) 2.500001\n    late\n"));
}

#[test]
fn journal_lines() {
    let mut j: Journal<CsrClock> = Journal::new();
    assert_eq!(j.log(LogLevel::Trace, "no", "atom::a", "a.rs", 1), None);
    let out = j.log(LogLevel::Info, "up", "atom::a::b", "src/b.rs", 1).unwrap();
    assert_eq!(
        String::from_utf8(out).unwrap(),
        "[\x1b[32mINFO\x1b[0m] (\x1b[90mb\x1b[0m) \x1b[90m?.??????\x1b[0m\n    up\n"
    );
    assert_eq!(j.read_time(), None);
    j.init_timestamp(CsrClock { count: 15 }, 10);
    assert_eq!(j.read_time(), Some((1, 500_000)));
    j.init_timestamp(CsrClock { count: 99 }, 10);
    j.filter.set_max_level(LogLevel::Debug);
    let out = j.log(LogLevel::Debug, "dbg", "atom::a::b", "src/b.rs", 7).unwrap();
    assert_eq!(
        String::from_utf8(out).unwrap(),
        "[\x1b[36mDEBUG\x1b[0m] (\x1b[90mb\x1b[0m) \x1b[90mb.rs:7 1.500000\x1b[0m\n    dbg\n"
    );
    assert_eq!(
        j.ring.log_read(0, 1000),
        b"[INFO] (b) 0.000000\n    up\n[DEBUG] (b) 1.500000\n    dbg\n".to_vec()
    );
    assert_eq!(j.ring.log_read(6, 3), b" (b");
    j.log_at(LogLevel::Info, "at", "m", "f", 1, Some((2, 3)));
    assert!(j.ring.log_read(0, 1000).ends_with(b"[INFO] (m) 2.000003\n    at\n"));
    assert_eq!(journal::RING_CAP, 128);
}

#[test]
fn journal_drops_the_oldest() {
    let mut j: Journal<CsrClock> = Journal::new();
    for i in 0..129 {
        j.log(LogLevel::Info, &format!("n{}", i), "m", "f", 1);
    }
    assert!(j.ring.log_read(0, 60).starts_with(b"[INFO] (m) 0.000000\n    n1\n"));
}
