//! Logging a message: the filter, the console line and the ring.
use vstd::prelude::*;
use crate::log::buf;
use crate::log::buf::Buf;
use crate::log::clock;
use crate::log::clock::{fmt_time, Clock, ClockSource};
use crate::log::filter;
use crate::log::filter::{Filter, LogLevel};
use crate::log::names;
use crate::log::names::{short_file, short_module};
use crate::log::palette;
use crate::log::palette::level_style;
use crate::log::record::{LogMessage, Record, Timestamp};
use crate::log::ring;
use crate::log::ring::LogRing;
use crate::text;

verus! {

/// The log: its filter, its clock and its ring.
pub struct Logger<C> {
    pub filter: Filter,
    pub clock: ClockSource<C>,
    pub ring: LogRing,
}

/// The place of a message: only messages for finding errors show it.
pub open spec fn place_of(level: LogLevel, file: Seq<u8>, line: u32) -> Option<(Seq<u8>, u32)> {
    if level == LogLevel::Debug || level == LogLevel::Trace {
        Some((names::base_name(file), line))
    } else {
        None
    }
}

/// What is kept of a message. Without a clock its time is zero.
pub open spec fn record_of(
    level: LogLevel,
    msg: Seq<u8>,
    module: Seq<u8>,
    file: Seq<u8>,
    line: u32,
    t: Option<Timestamp>,
) -> Record {
    Record {
        level,
        ts: match t {
            Some(t) => t,
            None => Timestamp(0),
        },
        seq: 0,
        module: buf::cut(names::last_segment(module), 24),
        msg: buf::cut(msg, 256),
        loc: place_of(level, file, line),
    }
}

/// The place as it is shown on the console.
pub open spec fn shown_place(loc: Option<(Seq<u8>, u32)>) -> Seq<u8> {
    match loc {
        Some(l) => text::utf8_or(
            buf::cut(l.0 + text::utf8(":") + text::dec(l.1 as nat) + text::utf8(" "), 64),
            Seq::empty(),
        ),
        None => Seq::empty(),
    }
}

/// The two lines that a message shows on the console.
pub open spec fn console_lines(r: Record, t: Option<Timestamp>) -> Seq<u8> {
    text::utf8(palette::style(r.level).0) + text::utf8("[") + text::utf8(palette::style(r.level).1)
        + text::utf8("]") + text::utf8(palette::RESET) + text::utf8("\t(") + text::utf8(
        palette::GRAY,
    ) + text::utf8_or(r.module, Seq::empty()) + text::utf8(palette::RESET) + text::utf8(") ")
        + text::utf8(palette::GRAY) + shown_place(r.loc) + clock::shown_time(t) + text::utf8(
        palette::RESET,
    ) + text::utf8("\n\t") + text::utf8(palette::GRAY) + text::utf8_or(r.msg, Seq::empty())
        + text::utf8(palette::RESET) + text::utf8("\n")
}

/// Appends the place as it is shown on the console.
fn push_place(out: &mut Vec<u8>, m: &LogMessage)
    ensures
        final(out)@ == old(out)@ + shown_place(m@.loc),
{
    match m.loc() {
        Some((file, line)) => {
            let mut full: Vec<u8> = text::copy_bytes(file);
            text::push_str(&mut full, ":");
            text::push_dec(&mut full, line as u64);
            text::push_str(&mut full, " ");
            let mut loc: Buf<64> = Buf::new();
            loc.write_bytes(full.as_slice());
            assert(Seq::<u8>::empty() + full@ =~= full@);
            text::push_str(out, loc.as_str());
        },
        None => {},
    }
    assert(out@ =~= old(out)@ + shown_place(m@.loc));
}

/// The two lines that a message shows on the console.
fn render(m: &LogMessage, t: Option<Timestamp>) -> (out: Vec<u8>)
    ensures
        out@ == console_lines(m@, t),
{
    let (color, label) = level_style(m.level());
    let mut out: Vec<u8> = Vec::new();
    text::push_str(&mut out, color);
    text::push_str(&mut out, "[");
    text::push_str(&mut out, label);
    text::push_str(&mut out, "]");
    text::push_str(&mut out, palette::RESET);
    text::push_str(&mut out, "\t(");
    text::push_str(&mut out, palette::GRAY);
    text::push_str(&mut out, m.module());
    text::push_str(&mut out, palette::RESET);
    text::push_str(&mut out, ") ");
    text::push_str(&mut out, palette::GRAY);
    push_place(&mut out, m);
    text::push_bytes(&mut out, fmt_time(t).as_slice());
    text::push_str(&mut out, palette::RESET);
    text::push_str(&mut out, "\n\t");
    text::push_str(&mut out, palette::GRAY);
    text::push_str(&mut out, m.msg());
    text::push_str(&mut out, palette::RESET);
    text::push_str(&mut out, "\n");
    assert(out@ =~= console_lines(m@, t));
    out
}

impl<C: Clock> Logger<C> {
    /// The ring is sound and has numbers left.
    pub open spec fn wf(&self) -> bool {
        self.ring.wf() && self.ring.next_seq() < u64::MAX
    }

    /// A log without messages and without a clock.
    pub fn new() -> (r: Logger<C>)
        ensures
            r.wf(),
            r.ring.kept() == Seq::<Record>::empty(),
            r.clock.source() is None,
            r.filter.level() == LogLevel::Info,
            r.filter.console() == LogLevel::Info,
            r.filter.rules() is None,
    {
        Logger { filter: Filter::new(), clock: ClockSource::new(), ring: LogRing::new() }
    }

    /// Keeps a message, and returns what the console shows of it. The ring keeps the messages that
    /// the console does not show, too.
    pub fn log_line(
        &mut self,
        level: LogLevel,
        msg: &str,
        module: &str,
        file: &str,
        line: u32,
        t: Option<Timestamp>,
    ) -> (r: Option<Vec<u8>>)
        requires
            old(self).wf(),
        ensures
            final(self).filter == old(self).filter,
            final(self).clock == old(self).clock,
            final(self).ring.wf(),
            final(self).ring.next_seq() == old(self).ring.next_seq() + 1,
            ({
                let rec = record_of(
                    level,
                    text::utf8(msg),
                    text::utf8(module),
                    text::utf8(file),
                    line,
                    t,
                );
                &&& final(self).ring.kept() == ring::pushed(
                    old(self).ring.kept(),
                    (Record { seq: old(self).ring.next_seq() as u64, ..rec }),
                )
                &&& if filter::rank(level) <= filter::rank(old(self).filter.console()) {
                    r matches Some(b) && b@ == console_lines(rec, t)
                } else {
                    r is None
                }
            }),
    {
        let ts: Timestamp = match t {
            Some(t) => t,
            None => Timestamp::new(0),
        };
        let loc: Option<(Vec<u8>, u32)> = match level {
            LogLevel::Debug => Some((text::copy_bytes(short_file(file)), line)),
            LogLevel::Trace => Some((text::copy_bytes(short_file(file)), line)),
            _ => None,
        };
        let mut m: LogMessage = LogMessage::new(level, ts, short_module(module), loc);
        m.write_msg(msg);
        assert(Seq::<u8>::empty() + text::utf8(msg) =~= text::utf8(msg));
        assert(m@ =~= record_of(
            level,
            text::utf8(msg),
            text::utf8(module),
            text::utf8(file),
            line,
            t,
        ));
        let shown: Option<Vec<u8>> = if self.filter.console_shows(level) {
            Some(render(&m, t))
        } else {
            None
        };
        self.ring.push(m);
        shown
    }

    /// Logs a message at the time of the clock if the filter lets it through; what the console shows
    /// of it.
    pub fn log(&mut self, level: LogLevel, msg: &str, module: &str, file: &str, line: u32) -> (r:
        Option<Vec<u8>>)
        requires
            old(self).wf(),
            old(self).clock.in_range(),
        ensures
            final(self).filter == old(self).filter,
            final(self).clock == old(self).clock,
            final(self).ring.wf(),
            if filter::rank(level) <= filter::rank(
                filter::effective(
                    old(self).filter.level(),
                    old(self).filter.rules(),
                    text::utf8(module),
                ),
            ) {
                exists|t: Option<Timestamp>|
                    {
                        let rec = #[trigger] record_of(
                            level,
                            text::utf8(msg),
                            text::utf8(module),
                            text::utf8(file),
                            line,
                            t,
                        );
                        &&& old(self).clock.may_be_time(t)
                        &&& final(self).ring.next_seq() == old(self).ring.next_seq() + 1
                        &&& final(self).ring.kept() == ring::pushed(
                            old(self).ring.kept(),
                            (Record { seq: old(self).ring.next_seq() as u64, ..rec }),
                        )
                        &&& if filter::rank(level) <= filter::rank(old(self).filter.console()) {
                            r matches Some(b) && b@ == console_lines(rec, t)
                        } else {
                            r is None
                        }
                    }
            } else {
                r is None && final(self).ring == old(self).ring
            },
    {
        if !self.filter.lets_through(level, module) {
            return None;
        }
        let t: Option<Timestamp> = self.clock.read_time();
        self.log_line(level, msg, module, file, line, t)
    }
}

/// What is kept of a message: its level, its time, the last segment of its module and its text, cut to
/// their room. Only messages for finding errors keep their place, under the name of the file.
pub proof fn law_record(
    level: LogLevel,
    msg: Seq<u8>,
    path: Seq<u8>,
    name: Seq<u8>,
    dir: Seq<u8>,
    file: Seq<u8>,
    line: u32,
    t: Timestamp,
)
    requires
        names::no_colon(name),
        name.len() <= 24,
        msg.len() <= 256,
        forall|i: int| 0 <= i < file.len() ==> #[trigger] file[i] != 47,
    ensures
        ({
            let r = record_of(
                level,
                msg,
                path + seq![58u8, 58u8] + name,
                dir + seq![47u8] + file,
                line,
                Some(t),
            );
            &&& r.level == level
            &&& r.ts == t
            &&& r.seq == 0
            &&& r.module == name
            &&& r.msg == msg
            &&& level == LogLevel::Debug || level == LogLevel::Trace ==> r.loc == Some((file, line))
            &&& level == LogLevel::Error || level == LogLevel::Warn || level == LogLevel::Info
                ==> r.loc is None
        }),
        record_of(level, msg, name, file, line, None).ts == Timestamp(0),
{
    names::law_last_segment(path, name);
    names::law_file_name(dir, file);
}

/// What the console shows of a message: the coloured label, the module, the place if there is one, the
/// time, and the text on a line of its own.
pub proof fn law_console(r: Record, t: Option<Timestamp>)
    requires
        vstd::utf8::valid_utf8(r.module),
        vstd::utf8::valid_utf8(r.msg),
        r.loc is None,
    ensures
        console_lines(r, t) == text::utf8(palette::style(r.level).0) + text::utf8("[") + text::utf8(
            palette::style(r.level).1,
        ) + text::utf8("]") + text::utf8("\u{1b}[0m") + text::utf8("\t(") + text::utf8(
            "\u{1b}[90m",
        ) + r.module + text::utf8("\u{1b}[0m") + text::utf8(") ") + text::utf8("\u{1b}[90m")
            + clock::shown_time(t) + text::utf8("\u{1b}[0m") + text::utf8("\n\t") + text::utf8(
            "\u{1b}[90m",
        ) + r.msg + text::utf8("\u{1b}[0m") + text::utf8("\n"),
{
    let a = text::utf8(palette::style(r.level).0) + text::utf8("[") + text::utf8(
        palette::style(r.level).1,
    ) + text::utf8("]") + text::utf8("\u{1b}[0m") + text::utf8("\t(") + text::utf8("\u{1b}[90m")
        + r.module + text::utf8("\u{1b}[0m") + text::utf8(") ") + text::utf8("\u{1b}[90m");
    assert(a + shown_place(r.loc) =~= a);
}

/// A place is shown as the file, a colon, the line and a space, if it has room.
pub proof fn law_place_shown(file: Seq<u8>, line: u32)
    requires
        ({
            let s = file + text::utf8(":") + text::dec(line as nat) + text::utf8(" ");
            s.len() <= 64 && vstd::utf8::valid_utf8(s)
        }),
    ensures
        shown_place(Some((file, line))) == file + text::utf8(":") + text::dec(line as nat)
            + text::utf8(" "),
        shown_place(None) == Seq::<u8>::empty(),
{
}

/// A longer text keeps its first 256 bytes, a longer module name its first 24.
pub proof fn law_record_cut(
    level: LogLevel,
    msg: Seq<u8>,
    name: Seq<u8>,
    file: Seq<u8>,
    line: u32,
    t: Option<Timestamp>,
)
    requires
        names::no_colon(name),
    ensures
        ({
            let r = record_of(level, msg, name, file, line, t);
            &&& r.msg.len() <= 256
            &&& msg.len() > 256 ==> r.msg == msg.take(256)
            &&& r.module.len() <= 24
            &&& name.len() > 24 ==> r.module == name.take(24)
        }),
{
    names::law_last_segment(Seq::empty(), name);
}

} // verus!
