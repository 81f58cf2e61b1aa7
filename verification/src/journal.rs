//! The first kernel log: messages with seconds and microseconds, kept without numbers.
use vstd::prelude::*;
use vstd::slice::slice_subrange;
use crate::log::buf;
use crate::log::buf::Buf;
use crate::log::clock;
use crate::log::clock::{push_time, Clock, ClockSource};
use crate::log::filter;
use crate::log::filter::{Filter, LogLevel};
use crate::log::names;
use crate::log::names::{short_file, short_module};
use crate::log::palette;
use crate::log::palette::{label_str, level_style};
use crate::log::ring;
use crate::text;

verus! {

/// Number of messages that are kept.
pub const RING_CAP: usize = 128;

/// Most bytes of a module name.
pub const MODULE_CAP: usize = 24;

/// A message that is kept.
pub struct LogEntry {
    level: LogLevel,
    sec: u64,
    usec: u32,
    module: Vec<u8>,
    msg: Vec<u8>,
}

/// What is kept of a message.
#[verifier::ext_equal]
pub struct Entry {
    pub level: LogLevel,
    pub sec: u64,
    pub usec: u32,
    pub module: Seq<u8>,
    pub msg: Seq<u8>,
}

impl View for LogEntry {
    type V = Entry;

    closed spec fn view(&self) -> Entry {
        Entry {
            level: self.level,
            sec: self.sec,
            usec: self.usec,
            module: self.module@,
            msg: self.msg@,
        }
    }
}

/// The two lines of a message: label, module and time, and the indented text. A module name that
/// was cut inside a character is shown as a question mark.
pub open spec fn lines_of(e: Entry) -> Seq<u8> {
    text::utf8("[") + text::utf8(palette::style(e.level).1) + text::utf8("] (")
        + text::utf8_or(e.module, text::utf8("?")) + text::utf8(") ") + clock::time_text(
        e.sec as nat,
        e.usec as nat,
    ) + text::utf8("\n    ") + text::utf8_or(e.msg, text::utf8("?")) + text::utf8("\n")
}

/// The lines of the first `n` messages.
pub open spec fn first_lines(kept: Seq<Entry>, n: int) -> Seq<u8>
    decreases n,
{
    if n <= 0 {
        Seq::empty()
    } else {
        first_lines(kept, n - 1) + lines_of(kept[n - 1])
    }
}

/// The messages with one more: when the ring is full the oldest one is dropped.
pub open spec fn pushed(kept: Seq<Entry>, e: Entry) -> Seq<Entry> {
    if kept.len() < 128 {
        kept.push(e)
    } else {
        kept.drop_first().push(e)
    }
}

/// A full window does not change when the text becomes longer.
proof fn lemma_window_full(kept: Seq<Entry>, i: int, n: int, offset: int, room: int)
    requires
        0 <= i <= n,
        0 <= offset,
        0 <= room,
        ring::window(first_lines(kept, i), offset, room).len() == room,
    ensures
        ring::window(first_lines(kept, n), offset, room) == ring::window(
            first_lines(kept, i),
            offset,
            room,
        ),
    decreases n - i,
{
    if i < n {
        let a = first_lines(kept, i);
        let line = lines_of(kept[i]);
        ring::lemma_window_grows(a, line, offset, room);
        assert(first_lines(kept, i + 1) == a + line);
        assert(ring::window(a + line, offset, room) =~= ring::window(a, offset, room));
        lemma_window_full(kept, i + 1, n, offset, room);
    }
}

/// Appends the bytes if they are text, else a question mark.
fn push_text(out: &mut Vec<u8>, s: &[u8])
    ensures
        final(out)@ == old(out)@ + text::utf8_or(s@, text::utf8("?")),
{
    if text::is_utf8(s) {
        text::push_bytes(out, s);
    } else {
        text::push_str(out, "?");
    }
}

/// The two lines of a message.
fn entry_lines(e: &LogEntry) -> (r: Vec<u8>)
    ensures
        r@ == lines_of(e@),
{
    let mut full: Vec<u8> = Vec::new();
    text::push_str(&mut full, "[");
    text::push_str(&mut full, label_str(e.level));
    text::push_str(&mut full, "] (");
    push_text(&mut full, e.module.as_slice());
    text::push_str(&mut full, ") ");
    push_time(&mut full, e.sec, e.usec as u64);
    text::push_str(&mut full, "\n    ");
    push_text(&mut full, e.msg.as_slice());
    text::push_str(&mut full, "\n");
    assert(full@ =~= lines_of(e@));
    full
}

/// The last messages.
pub struct LogRing {
    entries: Vec<LogEntry>,
    /// Where the next message goes.
    head: usize,
}

impl LogRing {
    /// The messages that are kept, the oldest one first.
    pub closed spec fn kept(&self) -> Seq<Entry> {
        let start = if self.entries@.len() == 128 {
            self.head as int
        } else {
            0
        };
        Seq::new(self.entries@.len(), |i: int| self.entries@[(start + i) % 128]@)
    }

    /// The ring is filled from its start.
    pub closed spec fn wf(&self) -> bool {
        &&& self.entries@.len() <= 128
        &&& self.head < 128
        &&& self.entries@.len() < 128 ==> self.head == self.entries@.len()
    }

    /// A ring without messages.
    pub fn new() -> (r: LogRing)
        ensures
            r.wf(),
            r.kept() == Seq::<Entry>::empty(),
    {
        let r = LogRing { entries: Vec::new(), head: 0 };
        assert(r.kept() =~= Seq::<Entry>::empty());
        r
    }

    /// Keeps a message.
    pub fn push(&mut self, e: LogEntry)
        requires
            old(self).wf(),
        ensures
            final(self).wf(),
            final(self).kept() == pushed(old(self).kept(), e@),
    {
        let ghost before = self.kept();
        let ghost r = e@;
        if self.entries.len() < RING_CAP {
            self.entries.push(e);
        } else {
            self.entries.set(self.head, e);
        }
        self.head = (self.head + 1) % RING_CAP;
        assert(self.kept() =~= pushed(before, r));
    }

    /// At most `room` bytes of the log from `offset` on, the oldest message first.
    pub fn log_read(&self, offset: usize, room: usize) -> (r: Vec<u8>)
        requires
            self.wf(),
        ensures
            r@ == ring::window(
                first_lines(self.kept(), self.kept().len() as int),
                offset as int,
                room as int,
            ),
    {
        let ghost kept = self.kept();
        let n: usize = self.entries.len();
        let start: usize = if n == RING_CAP {
            self.head
        } else {
            0
        };
        let mut out: Vec<u8> = Vec::new();
        let mut skip: usize = offset;
        let mut i: usize = 0;
        assert(out@ =~= ring::window(first_lines(kept, 0), offset as int, room as int));
        while i < n
            invariant
                self.wf(),
                kept == self.kept(),
                n == self.entries@.len(),
                n == kept.len(),
                n <= 128,
                start == (if n == 128 {
                    self.head as int
                } else {
                    0
                }),
                i <= n,
                skip == (if first_lines(kept, i as int).len() < offset {
                    offset - first_lines(kept, i as int).len()
                } else {
                    0
                }),
                out@ == ring::window(first_lines(kept, i as int), offset as int, room as int),
            decreases n - i,
        {
            let line: Vec<u8> = entry_lines(&self.entries[(start + i) % RING_CAP]);
            let len: usize = line.len();
            proof {
                assert(line@ == lines_of(kept[i as int]));
                ring::lemma_window_grows(
                    first_lines(kept, i as int),
                    line@,
                    offset as int,
                    room as int,
                );
                assert(first_lines(kept, i + 1) == first_lines(kept, i as int) + line@);
            }
            if len > skip {
                let from: usize = skip;
                let left: usize = room - out.len();
                let take: usize = if len - from < left {
                    len - from
                } else {
                    left
                };
                text::push_bytes(&mut out, slice_subrange(line.as_slice(), from, from + take));
                if out.len() == room {
                    proof {
                        lemma_window_full(kept, i + 1, n as int, offset as int, room as int);
                    }
                    return out;
                }
                skip = 0;
            } else {
                skip = skip - len;
            }
            i += 1;
        }
        out
    }
}

/// The log: its filter, its clock and its ring.
pub struct Journal<C> {
    pub filter: Filter,
    pub clock: ClockSource<C>,
    pub ring: LogRing,
}

/// The message text: at most 256 bytes; nothing if it was cut inside a character.
pub open spec fn body_of(msg: Seq<u8>) -> Seq<u8> {
    text::utf8_or(buf::cut(msg, 256), Seq::empty())
}

/// The time as it is shown: at most 24 bytes; question marks if there is no clock.
pub open spec fn shown_time(t: Option<(u64, u64)>) -> Seq<u8> {
    match t {
        Some(p) => text::utf8_or(
            buf::cut(clock::time_text(p.0 as nat, p.1 as nat), 24),
            Seq::empty(),
        ),
        None => text::utf8("?.??????"),
    }
}

/// What is kept of a message. Without a clock its time is zero.
pub open spec fn entry_of(
    level: LogLevel,
    msg: Seq<u8>,
    module: Seq<u8>,
    t: Option<(u64, u64)>,
) -> Entry {
    Entry {
        level,
        sec: match t {
            Some(p) => p.0,
            None => 0,
        },
        usec: match t {
            Some(p) => p.1 as u32,
            None => 0,
        },
        module: buf::cut(names::last_segment(module), 24),
        msg: body_of(msg),
    }
}

/// The two lines that a message shows on the console. Messages for finding errors show their place.
pub open spec fn console_lines(
    level: LogLevel,
    msg: Seq<u8>,
    module: Seq<u8>,
    file: Seq<u8>,
    line: u32,
    t: Option<(u64, u64)>,
) -> Seq<u8> {
    text::utf8("[") + text::utf8(palette::style(level).0) + text::utf8(palette::style(level).1)
        + text::utf8("\u{1b}[0m] (\u{1b}[90m") + names::last_segment(module) + text::utf8(
        "\u{1b}[0m) \u{1b}[90m",
    ) + (if level == LogLevel::Debug || level == LogLevel::Trace {
        names::base_name(file) + text::utf8(":") + text::dec(line as nat) + text::utf8(" ")
    } else {
        Seq::empty()
    }) + shown_time(t) + text::utf8("\u{1b}[0m\n    ") + body_of(msg) + text::utf8("\n")
}

/// The time as it is shown.
fn fmt_time(t: Option<(u64, u64)>) -> (r: Vec<u8>)
    ensures
        r@ == shown_time(t),
{
    let mut r: Vec<u8> = Vec::new();
    match t {
        Some((sec, usec)) => {
            let mut full: Vec<u8> = Vec::new();
            push_time(&mut full, sec, usec);
            let ghost whole = clock::time_text(sec as nat, usec as nat);
            assert(full@ =~= whole);
            let mut cut: Buf<24> = Buf::new();
            cut.write_bytes(full.as_slice());
            assert(Seq::<u8>::empty() + full@ =~= full@);
            text::push_str(&mut r, cut.as_str());
        },
        None => {
            text::push_str(&mut r, "?.??????");
        },
    }
    assert(r@ =~= shown_time(t));
    r
}

/// The message text.
fn body(msg: &str) -> (r: Vec<u8>)
    ensures
        r@ == body_of(text::utf8(msg)),
{
    let mut cut: Buf<256> = Buf::new();
    cut.write_str(msg);
    assert(Seq::<u8>::empty() + text::utf8(msg) =~= text::utf8(msg));
    let mut r: Vec<u8> = Vec::new();
    text::push_str(&mut r, cut.as_str());
    assert(r@ =~= body_of(text::utf8(msg)));
    r
}

/// The two lines that a message shows on the console.
fn render(
    level: LogLevel,
    msg: &Vec<u8>,
    module: &str,
    file: &str,
    line: u32,
    t: Option<(u64, u64)>,
    Ghost(full): Ghost<Seq<u8>>,
) -> (out: Vec<u8>)
    requires
        msg@ == body_of(full),
    ensures
        out@ == console_lines(level, full, text::utf8(module), text::utf8(file), line, t),
{
    let (color, label) = level_style(level);
    let mut out: Vec<u8> = Vec::new();
    text::push_str(&mut out, "[");
    text::push_str(&mut out, color);
    text::push_str(&mut out, label);
    text::push_str(&mut out, "\u{1b}[0m] (\u{1b}[90m");
    text::push_bytes(&mut out, short_module(module));
    text::push_str(&mut out, "\u{1b}[0m) \u{1b}[90m");
    if level == LogLevel::Debug || level == LogLevel::Trace {
        text::push_bytes(&mut out, short_file(file));
        text::push_str(&mut out, ":");
        text::push_dec(&mut out, line as u64);
        text::push_str(&mut out, " ");
    }
    text::push_bytes(&mut out, fmt_time(t).as_slice());
    text::push_str(&mut out, "\u{1b}[0m\n    ");
    text::push_bytes(&mut out, msg.as_slice());
    text::push_str(&mut out, "\n");
    assert(out@ =~= console_lines(level, full, text::utf8(module), text::utf8(file), line, t));
    out
}

impl<C: Clock> Journal<C> {
    /// A log without messages and without a clock.
    pub fn new() -> (r: Journal<C>)
        ensures
            r.ring.wf(),
            r.ring.kept() == Seq::<Entry>::empty(),
            r.clock.source() is None,
            r.filter.level() == LogLevel::Info,
            r.filter.rules() is None,
    {
        Journal { filter: Filter::new(), clock: ClockSource::new(), ring: LogRing::new() }
    }

    /// Sets the clock and its frequency. Only the first call counts.
    pub fn init_timestamp(&mut self, clock: C, freq: u64)
        ensures
            final(self).clock.source() == (match old(self).clock.source() {
                Some(s) => Some(s),
                None => Some((clock, freq)),
            }),
            final(self).filter == old(self).filter,
            final(self).ring == old(self).ring,
    {
        self.clock.set_clock_source(clock, freq);
    }

    /// The seconds and microseconds may be those of the clock; there are none without a clock.
    pub open spec fn may_be_time(&self, t: Option<(u64, u64)>) -> bool {
        match t {
            Some(p) => exists|count: u64, freq: u64| #[trigger]
                self.clock.may_say(count, freq) && p.0 == count as int / clock::frequency(freq)
                    && p.1 == (count as int % clock::frequency(freq)) * 1_000_000
                    / clock::frequency(freq),
            None => self.clock.source() is None,
        }
    }

    /// The seconds and microseconds of the clock; `None` if there is no clock.
    pub fn read_time(&self) -> (r: Option<(u64, u64)>)
        ensures
            self.may_be_time(r),
    {
        match self.clock.count() {
            Some((count, freq)) => Some(clock::split_time(count, freq)),
            None => None,
        }
    }

    /// Logs a message at the time `t` if the filter lets it through, and returns what the console
    /// shows of it.
    pub fn log_at(
        &mut self,
        level: LogLevel,
        msg: &str,
        module: &str,
        file: &str,
        line: u32,
        t: Option<(u64, u64)>,
    ) -> (r: Option<Vec<u8>>)
        requires
            old(self).ring.wf(),
        ensures
            final(self).ring.wf(),
            final(self).filter == old(self).filter,
            final(self).clock == old(self).clock,
            if filter::rank(level) <= filter::rank(
                filter::effective(
                    old(self).filter.level(),
                    old(self).filter.rules(),
                    text::utf8(module),
                ),
            ) {
                &&& final(self).ring.kept() == pushed(
                    old(self).ring.kept(),
                    entry_of(level, text::utf8(msg), text::utf8(module), t),
                )
                &&& r matches Some(b) && b@ == console_lines(
                    level,
                    text::utf8(msg),
                    text::utf8(module),
                    text::utf8(file),
                    line,
                    t,
                )
            } else {
                r is None && final(self).ring == old(self).ring
            },
    {
        if !self.filter.lets_through(level, module) {
            return None;
        }
        let (sec, usec): (u64, u64) = match t {
            Some(p) => p,
            None => (0, 0),
        };
        let text_body: Vec<u8> = body(msg);
        let out: Vec<u8> = render(
            level,
            &text_body,
            module,
            file,
            line,
            t,
            Ghost(text::utf8(msg)),
        );
        let short: &[u8] = short_module(module);
        let mut name: Buf<24> = Buf::new();
        name.write_bytes(short);
        assert(Seq::<u8>::empty() + short@ =~= short@);
        let e: LogEntry = LogEntry {
            level,
            sec,
            usec: #[verifier::truncate] (usec as u32),
            module: text::copy_bytes(name.as_slice()),
            msg: text_body,
        };
        assert(e@ =~= entry_of(level, text::utf8(msg), text::utf8(module), t));
        self.ring.push(e);
        Some(out)
    }

    /// Logs a message at the time of the clock.
    pub fn log(&mut self, level: LogLevel, msg: &str, module: &str, file: &str, line: u32) -> (r:
        Option<Vec<u8>>)
        requires
            old(self).ring.wf(),
        ensures
            final(self).ring.wf(),
            final(self).filter == old(self).filter,
            final(self).clock == old(self).clock,
            r is Some == (filter::rank(level) <= filter::rank(
                filter::effective(
                    old(self).filter.level(),
                    old(self).filter.rules(),
                    text::utf8(module),
                ),
            )),
            match r {
                Some(b) => exists|t: Option<(u64, u64)>|
                    {
                        &&& old(self).may_be_time(t)
                        &&& final(self).ring.kept() == pushed(
                            old(self).ring.kept(),
                            #[trigger] entry_of(level, text::utf8(msg), text::utf8(module), t),
                        )
                        &&& b@ == console_lines(
                            level,
                            text::utf8(msg),
                            text::utf8(module),
                            text::utf8(file),
                            line,
                            t,
                        )
                    },
                None => final(self).ring == old(self).ring,
            },
    {
        let t: Option<(u64, u64)> = self.read_time();
        self.log_at(level, msg, module, file, line, t)
    }
}

/// The ring keeps the last 128 messages, the newest one last: a message is dropped only when the ring
/// is full, and then it is the oldest one.
pub proof fn law_newest_kept(kept: Seq<Entry>, e: Entry, i: int)
    requires
        kept.len() <= 128,
    ensures
        pushed(kept, e).last() == e,
        kept.len() < 128 ==> pushed(kept, e).len() == kept.len() + 1,
        kept.len() == 128 ==> pushed(kept, e).len() == 128,
        kept.len() < 128 && 0 <= i < kept.len() ==> pushed(kept, e)[i] == kept[i],
        kept.len() == 128 && 0 < i < 128 ==> pushed(kept, e)[i - 1] == kept[i],
{
}

/// What is kept of a message: its level, its time, the last segment of its module and its text, cut to
/// their room. Without a clock the time is zero.
pub proof fn law_entry(
    level: LogLevel,
    msg: Seq<u8>,
    path: Seq<u8>,
    name: Seq<u8>,
    sec: u64,
    usec: u64,
)
    requires
        names::no_colon(name),
        name.len() <= 24,
        msg.len() <= 256,
        vstd::utf8::valid_utf8(msg),
        usec < 1_000_000,
    ensures
        entry_of(level, msg, path + seq![58u8, 58u8] + name, Some((sec, usec))) == (Entry {
            level,
            sec,
            usec: usec as u32,
            module: name,
            msg,
        }),
        entry_of(level, msg, path + seq![58u8, 58u8] + name, None) == (Entry {
            level,
            sec: 0,
            usec: 0,
            module: name,
            msg,
        }),
{
    names::law_last_segment(path, name);
}

/// The log shows the messages one behind the other, the oldest one first, and each of them with its
/// label, its module, its time and its text.
pub proof fn law_log_text(kept: Seq<Entry>, e: Entry)
    requires
        vstd::utf8::valid_utf8(e.module),
        vstd::utf8::valid_utf8(e.msg),
    ensures
        first_lines(kept, 0) == Seq::<u8>::empty(),
        first_lines(kept.push(e), kept.len() as int + 1) == first_lines(kept, kept.len() as int)
            + text::utf8("[") + text::utf8(palette::style(e.level).1) + text::utf8("] (") + e.module
            + text::utf8(") ") + clock::time_text(e.sec as nat, e.usec as nat) + text::utf8(
            "\n    ",
        ) + e.msg + text::utf8("\n"),
{
    let n = kept.len() as int;
    lemma_same_lines(kept, kept.push(e), n);
    let a = first_lines(kept, n);
    assert(first_lines(kept.push(e), n + 1) == a + lines_of(e));
    assert(a + lines_of(e) =~= a + text::utf8("[") + text::utf8(palette::style(e.level).1)
        + text::utf8("] (") + e.module + text::utf8(") ") + clock::time_text(
        e.sec as nat,
        e.usec as nat,
    ) + text::utf8("\n    ") + e.msg + text::utf8("\n"));
}

/// Lines depend on the messages that they show alone.
proof fn lemma_same_lines(a: Seq<Entry>, b: Seq<Entry>, n: int)
    requires
        0 <= n <= a.len(),
        n <= b.len(),
        forall|i: int| 0 <= i < n ==> #[trigger] a[i] == b[i],
    ensures
        first_lines(a, n) == first_lines(b, n),
    decreases n,
{
    if n > 0 {
        lemma_same_lines(a, b, n - 1);
        assert(a[n - 1] == b[n - 1]);
    }
}

/// What the console shows of a message: the coloured label, the module, for finding errors the place,
/// the time, and the text on a line of its own.
pub proof fn law_console(
    level: LogLevel,
    msg: Seq<u8>,
    path: Seq<u8>,
    name: Seq<u8>,
    dir: Seq<u8>,
    file: Seq<u8>,
    line: u32,
    t: Option<(u64, u64)>,
)
    requires
        names::no_colon(name),
        msg.len() <= 256,
        vstd::utf8::valid_utf8(msg),
        forall|i: int| 0 <= i < file.len() ==> #[trigger] file[i] != 47,
    ensures
        ({
            let shown = console_lines(
                level,
                msg,
                path + seq![58u8, 58u8] + name,
                dir + seq![47u8] + file,
                line,
                t,
            );
            let start = text::utf8("[") + text::utf8(palette::style(level).0) + text::utf8(
                palette::style(level).1,
            ) + text::utf8("\u{1b}[0m] (\u{1b}[90m") + name + text::utf8("\u{1b}[0m) \u{1b}[90m");
            let end = shown_time(t) + text::utf8("\u{1b}[0m\n    ") + msg + text::utf8("\n");
            &&& level == LogLevel::Debug || level == LogLevel::Trace ==> shown == start + (file
                + text::utf8(":") + text::dec(line as nat) + text::utf8(" ")) + end
            &&& level == LogLevel::Error || level == LogLevel::Warn || level == LogLevel::Info
                ==> shown == start + end
        }),
{
    names::law_last_segment(path, name);
    names::law_file_name(dir, file);
    let shown = console_lines(
        level,
        msg,
        path + seq![58u8, 58u8] + name,
        dir + seq![47u8] + file,
        line,
        t,
    );
    let start = text::utf8("[") + text::utf8(palette::style(level).0) + text::utf8(
        palette::style(level).1,
    ) + text::utf8("\u{1b}[0m] (\u{1b}[90m") + name + text::utf8("\u{1b}[0m) \u{1b}[90m");
    let end = shown_time(t) + text::utf8("\u{1b}[0m\n    ") + msg + text::utf8("\n");
    if level == LogLevel::Debug || level == LogLevel::Trace {
        assert(shown =~= start + (file + text::utf8(":") + text::dec(line as nat) + text::utf8(" "))
            + end);
    } else {
        assert(shown =~= start + end);
    }
}

/// A time of at most 24 characters is shown as it is; without a clock there are question marks.
pub proof fn law_time_shown(sec: u64, usec: u64)
    requires
        clock::time_text(sec as nat, usec as nat).len() <= 24,
        vstd::utf8::valid_utf8(clock::time_text(sec as nat, usec as nat)),
    ensures
        shown_time(Some((sec, usec))) == clock::time_text(sec as nat, usec as nat),
        shown_time(None) == text::utf8("?.??????"),
{
}

/// A longer text keeps its first 256 bytes, a longer module name its first 24.
pub proof fn law_entry_cut(
    level: LogLevel,
    msg: Seq<u8>,
    name: Seq<u8>,
    t: Option<(u64, u64)>,
)
    requires
        names::no_colon(name),
    ensures
        ({
            let e = entry_of(level, msg, name, t);
            &&& e.msg.len() <= 256
            &&& msg.len() > 256 && vstd::utf8::valid_utf8(msg.take(256)) ==> e.msg == msg.take(256)
            &&& e.module.len() <= 24
            &&& name.len() > 24 ==> e.module == name.take(24)
        }),
{
    names::law_last_segment(Seq::empty(), name);
}

/// The time of the journal is that of its clock, in whole seconds and microseconds; it has none exactly
/// if it has no clock.
pub proof fn law_journal_time<C: Clock>(j: Journal<C>, t: Option<(u64, u64)>)
    requires
        j.may_be_time(t),
    ensures
        t is Some <==> j.clock.source() is Some,
        t matches Some(p) ==> exists|count: u64, freq: u64| #[trigger]
            j.clock.may_say(count, freq) && p.0 * 1_000_000 + p.1 == clock::micros(count, freq)
                && p.0 == count as int / clock::frequency(freq),
{
    if let Some(p) = t {
        let (count, freq) = choose|count: u64, freq: u64| #[trigger]
            j.clock.may_say(count, freq) && p.0 == count as int / clock::frequency(freq) && p.1 == (
            count as int % clock::frequency(freq)) * 1_000_000 / clock::frequency(freq);
        clock::law_split_is_micros(count, freq);
        assert(j.clock.may_say(count, freq));
    }
}

} // verus!
