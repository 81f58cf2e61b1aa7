//! Log messages.
use vstd::prelude::*;
use crate::log::buf;
use crate::log::buf::Buf;
use crate::log::filter::LogLevel;
use crate::text;

verus! {

/// Most bytes of a module name.
pub const MODULE_CAP: usize = 24;

/// Most bytes of a message.
pub const MSG_CAP: usize = 256;

/// A time in microseconds since the start.
#[derive(Clone, Copy, PartialEq, Eq, Structural, Debug)]
pub struct Timestamp(pub u64);

impl Timestamp {
    /// The time `total` microseconds after the start.
    pub fn new(total: u64) -> (r: Timestamp)
        ensures
            r.0 == total,
    {
        Timestamp(total)
    }

    /// The whole seconds.
    pub fn sec(&self) -> (r: u64)
        ensures
            r == self.0 / 1_000_000,
    {
        self.0 / 1_000_000
    }

    /// The microseconds past the whole second.
    pub fn usec(&self) -> (r: u64)
        ensures
            r == self.0 % 1_000_000,
    {
        self.0 % 1_000_000
    }
}

/// A log message.
pub struct LogMessage {
    pub level: LogLevel,
    pub ts: Timestamp,
    /// The number of the message; zero until it is kept.
    pub seq: u64,
    module: Buf<24>,
    msg: Buf<256>,
    /// The file and the line.
    pub loc: Option<(Vec<u8>, u32)>,
}

/// What is kept of a message.
#[verifier::ext_equal]
pub struct Record {
    pub level: LogLevel,
    pub ts: Timestamp,
    pub seq: u64,
    pub module: Seq<u8>,
    pub msg: Seq<u8>,
    pub loc: Option<(Seq<u8>, u32)>,
}

impl View for LogMessage {
    type V = Record;

    closed spec fn view(&self) -> Record {
        Record {
            level: self.level,
            ts: self.ts,
            seq: self.seq,
            module: self.module@,
            msg: self.msg@,
            loc: match self.loc {
                Some(l) => Some((l.0@, l.1)),
                None => None,
            },
        }
    }
}

impl LogMessage {
    /// Name and message fit.
    pub closed spec fn wf(&self) -> bool {
        self.module.wf() && self.msg.wf()
    }

    /// A message without text. The module name is cut to its capacity.
    pub fn new(level: LogLevel, ts: Timestamp, module: &[u8], loc: Option<(Vec<u8>, u32)>) -> (r:
        LogMessage)
        ensures
            r.wf(),
            r@ == (Record {
                level,
                ts,
                seq: 0,
                module: buf::cut(module@, 24),
                msg: Seq::empty(),
                loc: match loc {
                    Some(l) => Some((l.0@, l.1)),
                    None => None,
                },
            }),
    {
        let mut name: Buf<24> = Buf::new();
        name.write_bytes(module);
        assert(Seq::<u8>::empty() + module@ =~= module@);
        LogMessage { level, ts, seq: 0, module: name, msg: Buf::new(), loc }
    }

    /// Appends to the message text, as far as it fits.
    pub fn write_msg(&mut self, s: &str)
        requires
            old(self).wf(),
        ensures
            final(self).wf(),
            final(self)@ == (Record {
                msg: buf::cut(old(self)@.msg + text::utf8(s), 256),
                ..old(self)@
            }),
    {
        self.msg.write_str(s);
    }

    /// Numbers the message.
    pub fn set_seq(&mut self, seq: u64)
        requires
            old(self).wf(),
        ensures
            final(self).wf(),
            final(self)@ == (Record { seq, ..old(self)@ }),
    {
        self.seq = seq;
    }

    /// The module name; empty if it was cut inside a character.
    pub fn module(&self) -> (r: &str)
        ensures
            text::utf8(r) == text::utf8_or(self@.module, Seq::empty()),
    {
        self.module.as_str()
    }

    /// The message text; empty if it was cut inside a character.
    pub fn msg(&self) -> (r: &str)
        ensures
            text::utf8(r) == text::utf8_or(self@.msg, Seq::empty()),
    {
        self.msg.as_str()
    }

    /// The level.
    pub fn level(&self) -> (r: LogLevel)
        ensures
            r == self@.level,
    {
        self.level
    }

    /// The time.
    pub fn ts(&self) -> (r: Timestamp)
        ensures
            r == self@.ts,
    {
        self.ts
    }

    /// The file and the line.
    pub fn loc(&self) -> (r: Option<(&[u8], u32)>)
        ensures
            match self@.loc {
                Some(l) => r matches Some(x) && x.0@ == l.0 && x.1 == l.1,
                None => r is None,
            },
    {
        match &self.loc {
            Some(l) => Some((l.0.as_slice(), l.1)),
            None => None,
        }
    }
}

} // verus!
