//! The ring that keeps the last log messages.
use vstd::prelude::*;
use vstd::slice::slice_subrange;
use crate::log::clock;
use crate::log::clock::push_time;
use crate::log::palette;
use crate::log::palette::label_str;
use crate::log::record::{LogMessage, Record};
use crate::text;

verus! {

/// Number of messages that are kept.
pub const RING_CAP: usize = 128;

/// The last messages.
pub struct LogRing {
    entries: Vec<LogMessage>,
    /// Where the next message goes.
    head: usize,
    next_seq: u64,
}

/// The messages with one more: when the ring is full the oldest one is dropped.
pub open spec fn pushed(kept: Seq<Record>, r: Record) -> Seq<Record> {
    if kept.len() < 128 {
        kept.push(r)
    } else {
        kept.drop_first().push(r)
    }
}

/// The two lines of a message: label, module and time, and the indented text.
pub open spec fn lines_of(r: Record) -> Seq<u8> {
    text::utf8("[") + text::utf8(palette::style(r.level).1) + text::utf8("] (")
        + text::utf8_or(r.module, Seq::empty()) + text::utf8(") ") + clock::time_text(
        (r.ts.0 / 1_000_000) as nat,
        (r.ts.0 % 1_000_000) as nat,
    ) + text::utf8("\n    ") + text::utf8_or(r.msg, Seq::empty()) + text::utf8("\n")
}

/// The lines of the first `n` messages.
pub open spec fn first_lines(kept: Seq<Record>, n: int) -> Seq<u8>
    decreases n,
{
    if n <= 0 {
        Seq::empty()
    } else {
        first_lines(kept, n - 1) + lines_of(kept[n - 1])
    }
}

/// At most `room` bytes of the text from `offset` on.
pub open spec fn window(s: Seq<u8>, offset: int, room: int) -> Seq<u8> {
    if offset >= s.len() {
        Seq::empty()
    } else if offset + room <= s.len() {
        s.subrange(offset, offset + room)
    } else {
        s.subrange(offset, s.len() as int)
    }
}

/// The window of a text that became longer.
pub proof fn lemma_window_grows(a: Seq<u8>, line: Seq<u8>, offset: int, room: int)
    requires
        0 <= offset,
        0 <= room,
    ensures
        ({
            let w = window(a, offset, room);
            let start = if offset > a.len() {
                offset - a.len()
            } else {
                0
            };
            let left = room - w.len();
            let n = if line.len() - start < left {
                line.len() - start
            } else {
                left
            };
            &&& left >= 0
            &&& a.len() + line.len() > offset ==> 0 <= start <= start + n <= line.len() && window(
                a + line,
                offset,
                room,
            ) == w + line.subrange(start, start + n)
            &&& a.len() + line.len() <= offset ==> window(a + line, offset, room) == w
        }),
{
    let w = window(a, offset, room);
    let start = if offset > a.len() {
        offset - a.len()
    } else {
        0
    };
    let left = room - w.len();
    let n = if line.len() - start < left {
        line.len() - start
    } else {
        left
    };
    if a.len() + line.len() > offset {
        assert(window(a + line, offset, room) =~= w + line.subrange(start, start + n));
    } else {
        assert(window(a + line, offset, room) =~= w);
    }
}

/// A full window does not change when the text becomes longer.
pub proof fn lemma_window_full(kept: Seq<Record>, i: int, n: int, offset: int, room: int)
    requires
        0 <= i <= n,
        0 <= offset,
        0 <= room,
        window(first_lines(kept, i), offset, room).len() == room,
    ensures
        window(first_lines(kept, n), offset, room) == window(first_lines(kept, i), offset, room),
    decreases n - i,
{
    if i < n {
        let a = first_lines(kept, i);
        lemma_window_grows(a, lines_of(kept[i]), offset, room);
        assert(first_lines(kept, i + 1) == a + lines_of(kept[i]));
        let line = lines_of(kept[i]);
        assert(window(a + line, offset, room) =~= window(a, offset, room));
        lemma_window_full(kept, i + 1, n, offset, room);
    }
}

/// The two lines of a message.
fn message_lines(m: &LogMessage) -> (r: Vec<u8>)
    ensures
        r@ == lines_of(m@),
{
    let mut full: Vec<u8> = Vec::new();
    text::push_str(&mut full, "[");
    text::push_str(&mut full, label_str(m.level()));
    text::push_str(&mut full, "] (");
    text::push_str(&mut full, m.module());
    text::push_str(&mut full, ") ");
    push_time(&mut full, m.ts().sec(), m.ts().usec());
    text::push_str(&mut full, "\n    ");
    text::push_str(&mut full, m.msg());
    text::push_str(&mut full, "\n");
    assert(full@ =~= lines_of(m@));
    full
}

impl LogRing {
    /// The messages that are kept, the oldest one first.
    pub closed spec fn kept(&self) -> Seq<Record> {
        let start = if self.entries@.len() == 128 {
            self.head as int
        } else {
            0
        };
        Seq::new(self.entries@.len(), |i: int| self.entries@[(start + i) % 128]@)
    }

    /// The number of the next message.
    pub closed spec fn next_seq(&self) -> int {
        self.next_seq as int
    }

    /// The messages are numbered without a gap.
    pub closed spec fn wf(&self) -> bool {
        &&& self.entries@.len() <= 128
        &&& self.head < 128
        &&& self.entries@.len() < 128 ==> self.head == self.entries@.len()
        &&& self.entries@.len() < self.next_seq
        &&& forall|i: int| 0 <= i < self.entries@.len() ==> (#[trigger] self.entries@[i]).wf()
        &&& forall|i: int|
            0 <= i < self.kept().len() ==> (#[trigger] self.kept()[i]).seq == self.next_seq
                - self.kept().len() + i
    }

    /// A ring without messages. Messages are numbered from one.
    pub fn new() -> (r: LogRing)
        ensures
            r.wf(),
            r.kept() == Seq::<Record>::empty(),
            r.next_seq() == 1,
    {
        let r = LogRing { entries: Vec::new(), head: 0, next_seq: 1 };
        assert(r.kept() =~= Seq::<Record>::empty());
        r
    }

    /// Numbers a message and keeps it.
    pub fn push(&mut self, m: LogMessage)
        requires
            old(self).wf(),
            m.wf(),
            old(self).next_seq() < u64::MAX,
        ensures
            final(self).wf(),
            final(self).next_seq() == old(self).next_seq() + 1,
            final(self).kept() == pushed(
                old(self).kept(),
                (Record { seq: old(self).next_seq() as u64, ..m@ }),
            ),
    {
        let ghost before = self.kept();
        let mut m = m;
        m.set_seq(self.next_seq);
        let ghost r = m@;
        self.next_seq = self.next_seq + 1;
        if self.entries.len() < RING_CAP {
            self.entries.push(m);
            self.head = (self.head + 1) % RING_CAP;
        } else {
            self.entries.set(self.head, m);
            self.head = (self.head + 1) % RING_CAP;
        }
        proof {
            assert(self.kept() =~= pushed(before, r));
            assert forall|i: int| 0 <= i < self.kept().len() implies (
            #[trigger] self.kept()[i]).seq == self.next_seq - self.kept().len() + i by {
                let k = pushed(before, r)[i];
                if i < self.kept().len() - 1 {
                    if before.len() < 128 {
                        assert(k == before[i]);
                    } else {
                        assert(k == before[i + 1]);
                    }
                }
            }
        }
    }

    /// The numbers of the oldest and the newest message that is kept.
    pub fn log_seq_range(&self) -> (r: Option<(u64, u64)>)
        requires
            self.wf(),
        ensures
            if self.kept().len() == 0 {
                r is None
            } else {
                r matches Some(p) && p.0 == self.kept()[0].seq && p.1 == self.kept().last().seq
                    && p.1 == self.next_seq() - 1 && p.1 - p.0 + 1 == self.kept().len()
            },
    {
        if self.entries.len() == 0 {
            return None;
        }
        let newest: u64 = self.next_seq - 1;
        let oldest: u64 = newest - (self.entries.len() as u64 - 1);
        proof {
            let k = self.kept();
            assert(k[0].seq == self.next_seq - k.len());
            assert(k[k.len() - 1].seq == self.next_seq - 1);
        }
        Some((oldest, newest))
    }

    /// At most `room` bytes of the log from `offset` on, the oldest message first.
    pub fn log_read(&self, offset: usize, room: usize) -> (r: Vec<u8>)
        requires
            self.wf(),
        ensures
            r@ == window(
                first_lines(self.kept(), self.kept().len() as int),
                offset as int,
                room as int,
            ),
    {
        let ghost kept = self.kept();
        let n: usize = self.entries.len();
        let start: usize = if n == RING_CAP {
            self.head
        } else {
            0
        };
        let mut out: Vec<u8> = Vec::new();
        let mut skip: usize = offset;
        let mut i: usize = 0;
        assert(out@ =~= window(first_lines(kept, 0), offset as int, room as int));
        while i < n
            invariant
                self.wf(),
                kept == self.kept(),
                n == self.entries@.len(),
                n == kept.len(),
                n <= 128,
                start == (if n == 128 {
                    self.head as int
                } else {
                    0
                }),
                i <= n,
                skip == (if first_lines(kept, i as int).len() < offset {
                    offset - first_lines(kept, i as int).len()
                } else {
                    0
                }),
                out@ == window(first_lines(kept, i as int), offset as int, room as int),
            decreases n - i,
        {
            let line: Vec<u8> = message_lines(&self.entries[(start + i) % RING_CAP]);
            let len: usize = line.len();
            proof {
                assert(line@ == lines_of(kept[i as int]));
                lemma_window_grows(
                    first_lines(kept, i as int),
                    line@,
                    offset as int,
                    room as int,
                );
                assert(first_lines(kept, i + 1) == first_lines(kept, i as int) + line@);
            }
            if len > skip {
                let from: usize = skip;
                let left: usize = room - out.len();
                let take: usize = if len - from < left {
                    len - from
                } else {
                    left
                };
                text::push_bytes(&mut out, slice_subrange(line.as_slice(), from, from + take));
                if out.len() == room {
                    proof {
                        lemma_window_full(kept, i + 1, n as int, offset as int, room as int);
                    }
                    return out;
                }
                skip = 0;
            } else {
                skip = skip - len;
            }
            i += 1;
        }
        out
    }
}

/// Reading the log piece by piece gives the same bytes as reading it at once.
pub proof fn law_read_in_pieces(s: Seq<u8>, offset: int, a: int, b: int)
    requires
        0 <= offset,
        0 <= a,
        0 <= b,
        window(s, offset, a).len() == a,
    ensures
        window(s, offset, a) + window(s, offset + a, b) == window(s, offset, a + b),
{
    assert(window(s, offset, a) + window(s, offset + a, b) =~= window(s, offset, a + b));
}

/// The ring keeps the last messages: a message that was pushed is the newest one, and the others
/// move up by one only when the ring is full.
pub proof fn law_newest_last(kept: Seq<Record>, r: Record, i: int)
    requires
        kept.len() <= 128,
        0 <= i < kept.len(),
    ensures
        pushed(kept, r).last() == r,
        pushed(kept, r).len() <= 128,
        kept.len() < 128 ==> pushed(kept, r)[i] == kept[i],
        kept.len() == 128 && i > 0 ==> pushed(kept, r)[i - 1] == kept[i],
{
}

/// The messages with all of `rs`, pushed in order.
pub open spec fn pushed_all(kept: Seq<Record>, rs: Seq<Record>) -> Seq<Record>
    decreases rs.len(),
{
    if rs.len() == 0 {
        kept
    } else {
        pushed(pushed_all(kept, rs.drop_last()), rs.last())
    }
}

/// The last messages of a sequence, as many as the ring keeps.
pub open spec fn last_of(s: Seq<Record>) -> Seq<Record> {
    if s.len() <= 128 {
        s
    } else {
        s.subrange(s.len() - 128, s.len() as int)
    }
}

/// However many messages are pushed, the ring holds the last ones in the order of their arrival.
pub proof fn law_last_kept(kept: Seq<Record>, rs: Seq<Record>)
    requires
        kept.len() <= 128,
    ensures
        pushed_all(kept, rs) == last_of(kept + rs),
    decreases rs.len(),
{
    if rs.len() == 0 {
        assert(kept + rs =~= kept);
    } else {
        law_last_kept(kept, rs.drop_last());
        assert(kept + rs =~= (kept + rs.drop_last()).push(rs.last()));
        assert(pushed_all(kept, rs) =~= last_of(kept + rs));
    }
}

/// Lost messages show in the numbers: between two looks at a ring that is not empty, a message was
/// pushed and dropped again if and only if the oldest number is then more than one past what was
/// the newest number.
pub proof fn law_loss_shows(kept: Seq<Record>, rs: Seq<Record>)
    requires
        0 < kept.len() <= 128,
        forall|i: int|
            0 <= i < kept.len() + rs.len() ==> (#[trigger] (kept + rs)[i]).seq == kept[0].seq + i,
    ensures
        pushed_all(kept, rs)[0].seq > kept.last().seq + 1 <==> exists|j: int|
            0 <= j < rs.len() && !pushed_all(kept, rs).contains(#[trigger] rs[j]),
{
    let all = kept + rs;
    let after = pushed_all(kept, rs);
    let first = all.len() - after.len();
    law_last_kept(kept, rs);
    assert forall|i: int| 0 <= i < after.len() implies after[i] == all[first + i] by {}
    assert(kept.last() == all[kept.len() - 1]);
    assert(after[0] == all[first]);
    if first > kept.len() {
        assert(rs[0] == all[kept.len() as int]);
        assert forall|i: int| 0 <= i < after.len() implies after[i] != rs[0] by {
            assert(after[i] == all[first + i]);
        }
        assert(!after.contains(rs[0]));
    } else {
        assert forall|j: int| 0 <= j < rs.len() implies after.contains(#[trigger] rs[j]) by {
            assert(rs[j] == all[kept.len() + j]);
            assert(after[kept.len() + j - first] == rs[j]);
        }
    }
}

/// The log shows the messages one behind the other, the oldest one first, and each of them with its
/// label, its module, its time and its text.
pub proof fn law_log_text(kept: Seq<Record>, r: Record, sec: u64, usec: u64)
    requires
        vstd::utf8::valid_utf8(r.module),
        vstd::utf8::valid_utf8(r.msg),
        usec < 1_000_000,
        r.ts.0 == sec * 1_000_000 + usec,
    ensures
        first_lines(kept, 0) == Seq::<u8>::empty(),
        first_lines(kept.push(r), kept.len() as int + 1) == first_lines(kept, kept.len() as int)
            + text::utf8("[") + text::utf8(palette::style(r.level).1) + text::utf8("] (") + r.module
            + text::utf8(") ") + clock::time_text(sec as nat, usec as nat) + text::utf8("\n    ")
            + r.msg + text::utf8("\n"),
{
    let n = kept.len() as int;
    lemma_same_lines(kept, kept.push(r), n);
    assert(r.ts.0 / 1_000_000 == sec);
    assert(r.ts.0 % 1_000_000 == usec);
    let a = first_lines(kept, n);
    assert(first_lines(kept.push(r), n + 1) == a + lines_of(r));
    assert(a + lines_of(r) =~= a + text::utf8("[") + text::utf8(palette::style(r.level).1)
        + text::utf8("] (") + r.module + text::utf8(") ") + clock::time_text(
        sec as nat,
        usec as nat,
    ) + text::utf8("\n    ") + r.msg + text::utf8("\n"));
}

/// Lines depend on the messages that they show alone.
proof fn lemma_same_lines(a: Seq<Record>, b: Seq<Record>, n: int)
    requires
        0 <= n <= a.len(),
        n <= b.len(),
        forall|i: int| 0 <= i < n ==> #[trigger] a[i] == b[i],
    ensures
        first_lines(a, n) == first_lines(b, n),
    decreases n,
{
    if n > 0 {
        lemma_same_lines(a, b, n - 1);
        assert(a[n - 1] == b[n - 1]);
    }
}

/// A read gives the bytes of the log from the offset on, as many as there are and fit, and none behind
/// its end.
pub proof fn law_window(s: Seq<u8>, offset: int, room: int, i: int)
    requires
        0 <= offset,
        0 <= room,
    ensures
        window(s, offset, room).len() <= room,
        offset >= s.len() ==> window(s, offset, room).len() == 0,
        offset + room <= s.len() ==> window(s, offset, room).len() == room,
        offset <= s.len() < offset + room ==> window(s, offset, room).len() == s.len() - offset,
        0 <= i < window(s, offset, room).len() ==> window(s, offset, room)[i] == s[offset + i],
{
}

} // verus!
