//! Serial ports: the bytes that go out, and the list of ports.
use vstd::prelude::*;
use crate::runtime::envcall::FileError;
use crate::text;

verus! {

/// The bytes with a carriage return before every line feed.
pub open spec fn crlf(s: Seq<u8>) -> Seq<u8>
    decreases s.len(),
{
    if s.len() == 0 {
        s
    } else if s.last() == 10 {
        crlf(s.drop_last()).push(13).push(10)
    } else {
        crlf(s.drop_last()).push(s.last())
    }
}

/// Appends the bytes that are sent for `buf`, with a carriage return before every line feed.
pub fn write_with_crlf(out: &mut Vec<u8>, buf: &[u8])
    ensures
        final(out)@ == old(out)@ + crlf(buf@),
{
    let mut i: usize = 0;
    assert(old(out)@ + crlf(buf@.subrange(0, 0)) =~= old(out)@);
    while i < buf.len()
        invariant
            i <= buf@.len(),
            out@ == old(out)@ + crlf(buf@.subrange(0, i as int)),
        decreases buf@.len() - i,
    {
        let b: u8 = buf[i];
        if b == 10 {
            out.push(13);
        }
        out.push(b);
        proof {
            let next = buf@.subrange(0, i + 1);
            assert(next.drop_last() =~= buf@.subrange(0, i as int));
            assert(out@ =~= old(out)@ + crlf(next));
        }
        i += 1;
    }
    assert(buf@.subrange(0, buf@.len() as int) =~= buf@);
}

/// Number of line feeds.
pub open spec fn line_feeds(s: Seq<u8>) -> int
    decreases s.len(),
{
    if s.len() == 0 {
        0
    } else {
        line_feeds(s.drop_last()) + (if s.last() == 10 {
            1int
        } else {
            0
        })
    }
}

/// Nothing is lost: the bytes that are sent are those of the text and one for every line feed.
pub proof fn law_crlf_length(s: Seq<u8>)
    ensures
        crlf(s).len() == s.len() + line_feeds(s),
    decreases s.len(),
{
    if s.len() > 0 {
        law_crlf_length(s.drop_last());
    }
}

/// Writing in parts sends the same bytes as writing at once.
pub proof fn law_crlf_parts(a: Seq<u8>, b: Seq<u8>)
    ensures
        crlf(a + b) == crlf(a) + crlf(b),
    decreases b.len(),
{
    if b.len() == 0 {
        assert(a + b =~= a);
        assert(crlf(a) + crlf(b) =~= crlf(a));
    } else {
        assert((a + b).drop_last() =~= a + b.drop_last());
        law_crlf_parts(a, b.drop_last());
        assert(crlf(a + b) =~= crlf(a) + crlf(b));
    }
}

/// Sends text to a serial port.
#[derive(Clone, Copy, PartialEq, Eq, Structural, Debug)]
pub struct UartWriter {
    /// Base of the registers of the port.
    pub port: u64,
}

impl UartWriter {
    /// The bytes that are sent for the text.
    pub fn write_str(&self, s: &str) -> (r: Vec<u8>)
        ensures
            r@ == crlf(text::utf8(s)),
    {
        let mut r: Vec<u8> = Vec::new();
        write_with_crlf(&mut r, s.as_bytes());
        assert(r@ =~= crlf(text::utf8(s)));
        r
    }
}

/// What a read of at most `room` bytes gives, if `next` is the byte that has arrived. A read never
/// waits: without a byte it fails.
pub fn read(room: usize, next: Option<u8>) -> (r: Result<Vec<u8>, FileError>)
    ensures
        if room == 0 {
            r matches Ok(b) && b@ == Seq::<u8>::empty()
        } else {
            match next {
                Some(c) => r matches Ok(b) && b@ == seq![c],
                None => r == Err::<Vec<u8>, FileError>(FileError::WouldBlock),
            }
        },
{
    let mut out: Vec<u8> = Vec::new();
    if room == 0 {
        return Ok(out);
    }
    match next {
        Some(c) => {
            out.push(c);
            assert(out@ =~= seq![c]);
            Ok(out)
        },
        None => Err(FileError::WouldBlock),
    }
}

/// A serial port that was found.
#[derive(Clone, Copy, PartialEq, Eq, Structural, Debug)]
pub struct SerialDevice {
    /// Base of its registers.
    pub port: u64,
}

/// The serial ports, in the order in which they were found. The first one is the console.
pub struct SerialPorts {
    ports: Vec<SerialDevice>,
}

/// The name of the port with the number.
pub open spec fn port_name(n: nat) -> Seq<u8> {
    text::utf8("uart") + text::dec(n)
}

impl SerialPorts {
    /// The ports.
    pub closed spec fn list(&self) -> Seq<SerialDevice> {
        self.ports@
    }

    /// No ports.
    pub fn new() -> (r: SerialPorts)
        ensures
            r.list() == Seq::<SerialDevice>::empty(),
    {
        SerialPorts { ports: Vec::new() }
    }

    /// Adds a port; the name under which it is offered for printing.
    pub fn register(&mut self, port: u64) -> (name: Vec<u8>)
        ensures
            final(self).list() == old(self).list().push(SerialDevice { port }),
            name@ == port_name(old(self).list().len()),
    {
        let idx: usize = self.ports.len();
        self.ports.push(SerialDevice { port });
        let mut name: Vec<u8> = Vec::new();
        text::push_str(&mut name, "uart");
        text::push_dec(&mut name, idx as u64);
        assert(name@ =~= port_name(idx as nat));
        name
    }

    /// All ports.
    pub fn all(&self) -> (r: Vec<SerialDevice>)
        ensures
            r@ == self.list(),
    {
        let mut r: Vec<SerialDevice> = Vec::new();
        let mut i: usize = 0;
        while i < self.ports.len()
            invariant
                i <= self.ports@.len(),
                r@ == self.ports@.subrange(0, i as int),
            decreases self.ports@.len() - i,
        {
            r.push(self.ports[i]);
            assert(r@ =~= self.ports@.subrange(0, i + 1));
            i += 1;
        }
        assert(self.ports@.subrange(0, self.ports@.len() as int) =~= self.ports@);
        r
    }
}

/// Every byte goes out as it is, and a line feed with a carriage return before it.
pub proof fn law_crlf_bytes(s: Seq<u8>, c: u8)
    ensures
        crlf(Seq::empty()) == Seq::<u8>::empty(),
        c != 10 ==> crlf(s.push(c)) == crlf(s).push(c),
        crlf(s.push(10)) == crlf(s) + seq![13u8, 10u8],
{
    assert(s.push(c).drop_last() =~= s);
    assert(s.push(10).drop_last() =~= s);
    assert(crlf(s).push(13).push(10) =~= crlf(s) + seq![13u8, 10u8]);
}

/// The ports are named by their number, each differently.
pub proof fn law_port_names(a: nat, b: nat)
    ensures
        port_name(a).take(4) == seq![117u8, 97u8, 114u8, 116u8],
        text::valued(port_name(a).skip(4), 10) == a,
        port_name(a) == port_name(b) ==> a == b,
{
    reveal_strlit("uart");
    text::lemma_ascii_bytes("uart");
    text::law_dec_value(a);
    text::law_dec_value(b);
    assert(port_name(a).take(4) =~= seq![117u8, 97u8, 114u8, 116u8]);
    assert(port_name(a).skip(4) =~= text::dec(a));
    assert(port_name(b).skip(4) =~= text::dec(b));
}

} // verus!
