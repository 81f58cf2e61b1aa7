//! The interactive shell: line editing, command parsing, and the steps of each command.
//!
//! The shell never touches a file or a device itself. Every command is a sequence of steps: a step
//! prints some output and names the next action; whoever performs the action reports the result,
//! and the next step follows from it.
use vstd::prelude::*;
use crate::text;

verus! {

/// What the shell prints before it reads a line.
pub const PROMPT: &'static str = "atom> ";

/// What a typed byte did to the line.
#[derive(Clone, Copy, PartialEq, Eq, Structural, Debug)]
pub enum LineEvent {
    /// The line is not complete.
    Pending,
    /// The last character was removed; its place on the screen must be erased.
    Erased,
    /// The line is complete.
    Complete,
}

/// A printable ASCII character.
pub open spec fn printable(c: u8) -> bool {
    0x20 <= c <= 0x7e
}

/// All bytes are printable ASCII.
pub open spec fn all_printable(s: Seq<u8>) -> bool {
    forall|i: int| 0 <= i < s.len() ==> printable(#[trigger] s[i])
}

/// The byte completes a line.
pub open spec fn ends_line(c: u8) -> bool {
    c == 13 || c == 10
}

/// The byte takes back a character.
pub open spec fn erases(c: u8) -> bool {
    c == 8 || c == 0x7f
}

/// The line after a typed byte.
pub open spec fn typed_key(s: Seq<u8>, c: u8) -> Seq<u8> {
    if erases(c) {
        if s.len() > 0 {
            s.drop_last()
        } else {
            s
        }
    } else if printable(c) {
        s.push(c)
    } else {
        s
    }
}

/// A line that is being typed.
pub struct LineEditor {
    line: Vec<u8>,
}

/// The sequence that erases one character on the screen: back, blank, back.
pub fn erase_sequence() -> (r: Vec<u8>)
    ensures
        r@ == seq![8u8, 32u8, 8u8],
{
    let mut r: Vec<u8> = Vec::new();
    r.push(8);
    r.push(32);
    r.push(8);
    assert(r@ =~= seq![8u8, 32u8, 8u8]);
    r
}

impl View for LineEditor {
    type V = Seq<u8>;

    /// The characters typed so far.
    closed spec fn view(&self) -> Seq<u8> {
        self.line@
    }
}

impl LineEditor {
    /// An empty line.
    pub fn new() -> (r: LineEditor)
        ensures
            r@ == Seq::<u8>::empty(),
    {
        LineEditor { line: Vec::new() }
    }

    /// Takes one typed byte: a carriage return or line feed completes the line, a backspace or
    /// delete removes the last character, a printable character is added, anything else is ignored.
    pub fn feed(&mut self, c: u8) -> (r: LineEvent)
        ensures
            final(self)@ == typed_key(old(self)@, c),
            r == (if ends_line(c) {
                LineEvent::Complete
            } else if erases(c) && old(self)@.len() > 0 {
                LineEvent::Erased
            } else {
                LineEvent::Pending
            }),
    {
        if c == 13 || c == 10 {
            LineEvent::Complete
        } else if c == 8 || c == 0x7f {
            match self.line.pop() {
                Some(_) => {
                    assert(self@ =~= old(self)@.drop_last());
                    LineEvent::Erased
                },
                None => LineEvent::Pending,
            }
        } else {
            if c >= 0x20 && c <= 0x7e {
                self.line.push(c);
            }
            LineEvent::Pending
        }
    }

    /// Hands out the line and starts a new one.
    pub fn take(&mut self) -> (r: Vec<u8>)
        ensures
            r@ == old(self)@,
            final(self)@ == Seq::<u8>::empty(),
    {
        let r: Vec<u8> = text::copy_bytes(self.line.as_slice());
        self.line = Vec::new();
        r
    }
}

/// The line that a run of typed bytes leaves behind.
pub open spec fn typed(s: Seq<u8>, keys: Seq<u8>) -> Seq<u8>
    decreases keys.len(),
{
    if keys.len() == 0 {
        s
    } else {
        typed_key(typed(s, keys.drop_last()), keys.last())
    }
}

/// Typing a printable character and a backspace leaves the line as it was.
pub proof fn law_backspace_undoes(s: Seq<u8>, c: u8)
    requires
        printable(c),
    ensures
        typed(s, seq![c, 8u8]) == s,
        typed(s, seq![c, 0x7fu8]) == s,
{
    assert(seq![c, 8u8].drop_last() =~= seq![c]);
    assert(seq![c, 0x7fu8].drop_last() =~= seq![c]);
    assert(seq![c].drop_last() =~= Seq::<u8>::empty());
    reveal_with_fuel(typed, 4);
    assert(s.push(c).drop_last() =~= s);
}

/// Whatever is typed, the line stays printable.
pub proof fn law_line_printable(s: Seq<u8>, keys: Seq<u8>)
    requires
        all_printable(s),
    ensures
        all_printable(typed(s, keys)),
    decreases keys.len(),
{
    if keys.len() > 0 {
        law_line_printable(s, keys.drop_last());
    }
}

/// The built-in commands.
#[derive(Clone, Copy, PartialEq, Eq, Structural, Debug)]
pub enum Builtin {
    Help,
    Echo,
    Version,
    Uptime,
    Date,
    Clear,
    Meminfo,
    Shutdown,
    Bench,
    Ls,
    Cat,
    Write,
    Unknown,
}

/// The command that the word `cmd` names.
pub open spec fn builtin(cmd: Seq<u8>) -> Builtin {
    if cmd == text::utf8("help") {
        Builtin::Help
    } else if cmd == text::utf8("echo") {
        Builtin::Echo
    } else if cmd == text::utf8("version") || cmd == text::utf8("ver") {
        Builtin::Version
    } else if cmd == text::utf8("uptime") {
        Builtin::Uptime
    } else if cmd == text::utf8("date") {
        Builtin::Date
    } else if cmd == text::utf8("clear") {
        Builtin::Clear
    } else if cmd == text::utf8("meminfo") {
        Builtin::Meminfo
    } else if cmd == text::utf8("shutdown") || cmd == text::utf8("poweroff") {
        Builtin::Shutdown
    } else if cmd == text::utf8("bench") {
        Builtin::Bench
    } else if cmd == text::utf8("ls") {
        Builtin::Ls
    } else if cmd == text::utf8("cat") {
        Builtin::Cat
    } else if cmd == text::utf8("write") {
        Builtin::Write
    } else {
        Builtin::Unknown
    }
}

/// Recognises a command word.
fn recognise(cmd: &[u8]) -> (r: Builtin)
    ensures
        r == builtin(cmd@),
{
    if text::is_text(cmd, "help") {
        Builtin::Help
    } else if text::is_text(cmd, "echo") {
        Builtin::Echo
    } else if text::is_text(cmd, "version") || text::is_text(cmd, "ver") {
        Builtin::Version
    } else if text::is_text(cmd, "uptime") {
        Builtin::Uptime
    } else if text::is_text(cmd, "date") {
        Builtin::Date
    } else if text::is_text(cmd, "clear") {
        Builtin::Clear
    } else if text::is_text(cmd, "meminfo") {
        Builtin::Meminfo
    } else if text::is_text(cmd, "shutdown") || text::is_text(cmd, "poweroff") {
        Builtin::Shutdown
    } else if text::is_text(cmd, "bench") {
        Builtin::Bench
    } else if text::is_text(cmd, "ls") {
        Builtin::Ls
    } else if text::is_text(cmd, "cat") {
        Builtin::Cat
    } else if text::is_text(cmd, "write") {
        Builtin::Write
    } else {
        Builtin::Unknown
    }
}

/// What the shell needs done next.
pub enum Action {
    /// Nothing: the command is finished.
    Done,
    /// Report the clock.
    Uptime,
    /// Report the real-time clock.
    Date,
    /// Report the memory layout.
    Meminfo,
    /// Power off.
    Shutdown,
    /// Start the demo tasks.
    Bench,
    /// Open a file, for writing or for reading.
    Open { path: Vec<u8>, write: bool },
    /// Create a file and open it for writing.
    Create { path: Vec<u8> },
    /// List a directory.
    Readdir { fd: u64 },
    /// Read some bytes.
    Read { fd: u64 },
    /// Write all the bytes.
    Write { fd: u64, bytes: Vec<u8> },
    /// Close a file.
    Close { fd: u64 },
}

/// Where a command stands while an action is performed.
pub enum State {
    /// The next result ends the command.
    Last,
    /// `ls` opens the directory.
    LsOpen,
    /// `ls` lists the directory.
    LsList { fd: u64 },
    /// `cat` opens the file.
    CatOpen,
    /// `cat` reads the file.
    CatRead { fd: u64 },
    /// `write` opens the file.
    WriteOpen { path: Vec<u8>, content: Vec<u8> },
    /// `write` creates the file.
    WriteCreate { content: Vec<u8> },
    /// `write` writes the content.
    WriteContent { fd: u64 },
}

/// What came of an action. Errors come as text.
pub enum Outcome {
    /// A file was opened or created, or not.
    Opened(Result<u64, Vec<u8>>),
    /// Bytes were read, or not.
    Bytes(Result<Vec<u8>, Vec<u8>>),
    /// A number of bytes was written, or not.
    Count(Result<u64, Vec<u8>>),
    /// The action is over.
    Over,
}

/// One step: output to print, the action to perform, and where the command then stands.
pub struct Step {
    pub output: Vec<u8>,
    pub action: Action,
    pub state: State,
}

/// The text that `help` prints.
pub open spec fn help_text() -> Seq<u8> {
    text::utf8("atom shell \u{2014} builtin commands:\n") + text::utf8(
        "  help                 show this help\n",
    ) + text::utf8("  echo <text>          print text\n") + text::utf8(
        "  version              kernel version\n",
    ) + text::utf8("  uptime               clock ticks / ms since boot\n") + text::utf8(
        "  date                 RTC epoch seconds (if registered)\n",
    ) + text::utf8("  clear                ANSI clear screen\n") + text::utf8(
        "  meminfo              DRAM layout\n",
    ) + text::utf8("  shutdown             power off (SBI)\n") + text::utf8(
        "  bench                run demo task set (DEMO_* switches)\n",
    ) + text::utf8("  ls [path]            list directory (default /data)\n") + text::utf8(
        "  cat <path>           print file contents\n",
    ) + text::utf8("  write <path> <text>  write text to file (creates if absent)\n")
}

/// Appends the list of built-in commands.
fn help(out: &mut Vec<u8>)
    ensures
        final(out)@ == old(out)@ + help_text(),
{
    text::push_str(out, "atom shell \u{2014} builtin commands:\n");
    text::push_str(out, "  help                 show this help\n");
    text::push_str(out, "  echo <text>          print text\n");
    text::push_str(out, "  version              kernel version\n");
    text::push_str(out, "  uptime               clock ticks / ms since boot\n");
    text::push_str(out, "  date                 RTC epoch seconds (if registered)\n");
    text::push_str(out, "  clear                ANSI clear screen\n");
    text::push_str(out, "  meminfo              DRAM layout\n");
    text::push_str(out, "  shutdown             power off (SBI)\n");
    text::push_str(out, "  bench                run demo task set (DEMO_* switches)\n");
    text::push_str(out, "  ls [path]            list directory (default /data)\n");
    text::push_str(out, "  cat <path>           print file contents\n");
    text::push_str(out, "  write <path> <text>  write text to file (creates if absent)\n");
    assert(out@ =~= old(out)@ + help_text());
}

/// The step ends the command with the output `out`.
pub open spec fn ends(s: Step, out: Seq<u8>) -> bool {
    s.output@ == out && s.action is Done && s.state is Last
}

/// The first step of a command line. A line that is not well-formed UTF-8 counts as empty.
pub open spec fn first_step(line: Seq<u8>, version: Seq<u8>, s: Step) -> bool {
    let ws = text::words(text::utf8_or(line, Seq::empty()));
    let nl = seq![10u8];
    if ws.len() == 0 {
        ends(s, nl)
    } else {
        let args = ws.subrange(1, ws.len() as int);
        match builtin(ws[0]) {
            Builtin::Help => ends(s, nl + help_text()),
            Builtin::Echo => ends(s, nl + text::joined(args) + nl),
            Builtin::Version => ends(s, nl + text::utf8("atom kernel ") + version + nl),
            Builtin::Uptime => s.output@ == nl && s.action is Uptime && s.state is Last,
            Builtin::Date => s.output@ == nl && s.action is Date && s.state is Last,
            Builtin::Clear => ends(s, nl + text::utf8("\x1b[2J\x1b[H")),
            Builtin::Meminfo => s.output@ == nl && s.action is Meminfo && s.state is Last,
            Builtin::Shutdown => s.output@ == nl + text::utf8("shutting down\n")
                && s.action is Shutdown && s.state is Last,
            Builtin::Bench => s.output@ == nl + text::utf8(
                "running demos (DEMO_* compile switches)...\n",
            ) && s.action is Bench && s.state is Last,
            Builtin::Ls => {
                &&& s.output@ == nl
                &&& s.action matches Action::Open { path, write } && !write && path@ == (
                if args.len() > 0 {
                    args[0]
                } else {
                    text::utf8("/data")
                })
                &&& s.state is LsOpen
            },
            Builtin::Cat => if args.len() == 0 {
                ends(s, nl + text::utf8("usage: cat <path>\n"))
            } else {
                &&& s.output@ == nl
                &&& s.action matches Action::Open { path, write } && !write && path@ == args[0]
                &&& s.state is CatOpen
            },
            Builtin::Write => if args.len() == 0 {
                ends(s, nl + text::utf8("usage: write <path> <content...>\n"))
            } else {
                &&& s.output@ == nl
                &&& s.action matches Action::Open { path, write } && write && path@ == args[0]
                &&& s.state matches State::WriteOpen { path, content } && path@ == args[0]
                    && content@ == text::joined(args.subrange(1, args.len() as int))
            },
            Builtin::Unknown => ends(
                s,
                nl + text::utf8("unknown command '") + ws[0] + text::utf8(
                    "' \u{2014} type 'help' for usage\n",
                ),
            ),
        }
    }
}

/// A step that ends the command.
fn finished(output: Vec<u8>) -> (s: Step)
    ensures
        ends(s, output@),
{
    Step { output, action: Action::Done, state: State::Last }
}

/// Parses a line and takes the first step of its command. The first word is the command, the others
/// are its arguments.
pub fn execute(line: &[u8], version: &[u8]) -> (s: Step)
    ensures
        first_step(line@, version@, s),
{
    let mut out: Vec<u8> = Vec::new();
    out.push(10);
    assert(out@ =~= seq![10u8]);
    let ws: Vec<Vec<u8>> = if text::is_utf8(line) {
        text::split_words(line)
    } else {
        let none: Vec<u8> = Vec::new();
        assert(none@ =~= Seq::<u8>::empty());
        text::split_words(none.as_slice())
    };
    let n: usize = ws.len();
    let ghost all = text::words(text::utf8_or(line@, Seq::empty()));
    assert(all.len() == n);
    if n == 0 {
        return finished(out);
    }
    let ghost args = all.subrange(1, all.len() as int);
    assert(ws@[0]@ == all[0]);
    match recognise(ws[0].as_slice()) {
        Builtin::Help => {
            help(&mut out);
            finished(out)
        },
        Builtin::Echo => {
            let joined: Vec<u8> = text::join_words(&ws, 1);
            text::push_bytes(&mut out, joined.as_slice());
            out.push(10);
            assert(out@ =~= seq![10u8] + text::joined(args) + seq![10u8]);
            finished(out)
        },
        Builtin::Version => {
            text::push_str(&mut out, "atom kernel ");
            text::push_bytes(&mut out, version);
            out.push(10);
            assert(out@ =~= seq![10u8] + text::utf8("atom kernel ") + version@ + seq![10u8]);
            finished(out)
        },
        Builtin::Uptime => Step { output: out, action: Action::Uptime, state: State::Last },
        Builtin::Date => Step { output: out, action: Action::Date, state: State::Last },
        Builtin::Clear => {
            text::push_str(&mut out, "\x1b[2J\x1b[H");
            finished(out)
        },
        Builtin::Meminfo => Step { output: out, action: Action::Meminfo, state: State::Last },
        Builtin::Shutdown => {
            text::push_str(&mut out, "shutting down\n");
            Step { output: out, action: Action::Shutdown, state: State::Last }
        },
        Builtin::Bench => {
            text::push_str(&mut out, "running demos (DEMO_* compile switches)...\n");
            Step { output: out, action: Action::Bench, state: State::Last }
        },
        Builtin::Ls => {
            let path: Vec<u8> = if n > 1 {
                assert(ws@[1]@ == all[1]);
                text::copy_bytes(ws[1].as_slice())
            } else {
                text::copy_bytes("/data".as_bytes())
            };
            Step { output: out, action: Action::Open { path, write: false }, state: State::LsOpen }
        },
        Builtin::Cat => {
            if n == 1 {
                text::push_str(&mut out, "usage: cat <path>\n");
                return finished(out);
            }
            assert(ws@[1]@ == all[1]);
            let path: Vec<u8> = text::copy_bytes(ws[1].as_slice());
            Step { output: out, action: Action::Open { path, write: false }, state: State::CatOpen }
        },
        Builtin::Write => {
            if n == 1 {
                text::push_str(&mut out, "usage: write <path> <content...>\n");
                return finished(out);
            }
            assert(ws@[1]@ == all[1]);
            let path: Vec<u8> = text::copy_bytes(ws[1].as_slice());
            let again: Vec<u8> = text::copy_bytes(ws[1].as_slice());
            let content: Vec<u8> = text::join_words(&ws, 2);
            assert(args.subrange(1, args.len() as int) =~= all.subrange(2, all.len() as int));
            Step {
                output: out,
                action: Action::Open { path, write: true },
                state: State::WriteOpen { path: again, content },
            }
        },
        Builtin::Unknown => {
            text::push_str(&mut out, "unknown command '");
            text::push_bytes(&mut out, ws[0].as_slice());
            text::push_str(&mut out, "' \u{2014} type 'help' for usage\n");
            assert(out@ =~= seq![10u8] + text::utf8("unknown command '") + all[0] + text::utf8(
                "' \u{2014} type 'help' for usage\n",
            ));
            finished(out)
        },
    }
}

/// The step closes the file `fd`, with the output `out`, and ends the command.
pub open spec fn closes(s: Step, out: Seq<u8>, fd: u64) -> bool {
    s.output@ == out && s.action == (Action::Close { fd }) && s.state is Last
}

/// The step that follows when the action of a command in state `state` came out as `o`.
pub open spec fn next_step(state: State, o: Outcome, s: Step) -> bool {
    let none = Seq::<u8>::empty();
    let nl = seq![10u8];
    match (state, o) {
        (State::LsOpen, Outcome::Opened(Ok(fd))) => s.output@ == none && s.action == (
        Action::Readdir { fd }) && s.state == (State::LsList { fd }),
        (State::LsOpen, Outcome::Opened(Err(e))) => ends(s, text::utf8("ls: ") + e@ + nl),
        (State::LsList { fd }, Outcome::Bytes(Ok(b))) => closes(s, text::utf8_or(b@, none), fd),
        (State::LsList { fd }, Outcome::Bytes(Err(e))) => closes(
            s,
            text::utf8("ls: ") + e@ + nl,
            fd,
        ),
        (State::CatOpen, Outcome::Opened(Ok(fd))) => s.output@ == none && s.action == (
        Action::Read { fd }) && s.state == (State::CatRead { fd }),
        (State::CatOpen, Outcome::Opened(Err(e))) => ends(s, text::utf8("cat: ") + e@ + nl),
        (State::CatRead { fd }, Outcome::Bytes(Ok(b))) => if b@.len() == 0 {
            closes(s, none, fd)
        } else {
            s.output@ == text::lossy_bytes(b@) && (vstd::utf8::valid_utf8(b@) ==> s.output@ == b@)
                && s.action == (Action::Read { fd }) && s.state == (State::CatRead { fd })
        },
        (State::CatRead { fd }, Outcome::Bytes(Err(_))) => closes(s, none, fd),
        (State::WriteOpen { path, content }, Outcome::Opened(Ok(fd))) => writes(s, fd, content@),
        (State::WriteOpen { path, content }, Outcome::Opened(Err(_))) => {
            &&& s.output@ == none
            &&& s.action matches Action::Create { path: p } && p@ == path@
            &&& s.state matches State::WriteCreate { content: c } && c@ == content@
        },
        (State::WriteCreate { content }, Outcome::Opened(Ok(fd))) => writes(s, fd, content@),
        (State::WriteCreate { content }, Outcome::Opened(Err(e))) => ends(
            s,
            text::utf8("write: create failed: ") + e@ + nl,
        ),
        (State::WriteContent { fd }, Outcome::Count(Ok(n))) => closes(
            s,
            text::utf8("wrote ") + text::dec(n as nat) + text::utf8(" bytes\n"),
            fd,
        ),
        (State::WriteContent { fd }, Outcome::Count(Err(e))) => closes(
            s,
            text::utf8("write: ") + e@ + nl,
            fd,
        ),
        (State::Last, _) => ends(s, none),
        _ => true,
    }
}

/// The step writes `content` to the file `fd`.
pub open spec fn writes(s: Step, fd: u64, content: Seq<u8>) -> bool {
    &&& s.output@ == Seq::<u8>::empty()
    &&& s.action matches Action::Write { fd: f, bytes } && f == fd && bytes@ == content
    &&& s.state == (State::WriteContent { fd })
}

/// `o` is a result of the action that a command in state `state` waits for.
pub open spec fn answers(state: State, o: Outcome) -> bool {
    match state {
        State::Last => true,
        State::LsOpen | State::CatOpen => o is Opened,
        State::LsList { .. } | State::CatRead { .. } => o is Bytes,
        State::WriteOpen { .. } | State::WriteCreate { .. } => o is Opened,
        State::WriteContent { .. } => o is Count,
    }
}

/// `prefix`, the error and a line feed.
fn failure(prefix: &str, e: &Vec<u8>) -> (out: Vec<u8>)
    ensures
        out@ == text::utf8(prefix) + e@ + seq![10u8],
{
    let mut out: Vec<u8> = Vec::new();
    text::push_str(&mut out, prefix);
    text::push_bytes(&mut out, e.as_slice());
    out.push(10);
    assert(out@ =~= text::utf8(prefix) + e@ + seq![10u8]);
    out
}

/// A step that closes the file and ends the command.
fn closing(output: Vec<u8>, fd: u64) -> (s: Step)
    ensures
        closes(s, output@, fd),
{
    Step { output, action: Action::Close { fd }, state: State::Last }
}

/// Takes the next step of a command after an action was performed.
pub fn advance(state: State, o: Outcome) -> (s: Step)
    requires
        answers(state, o),
    ensures
        next_step(state, o, s),
{
    match (state, o) {
        (State::LsOpen, Outcome::Opened(Ok(fd))) => Step {
            output: Vec::new(),
            action: Action::Readdir { fd },
            state: State::LsList { fd },
        },
        (State::LsOpen, Outcome::Opened(Err(e))) => finished(failure("ls: ", &e)),
        (State::LsList { fd }, Outcome::Bytes(Ok(b))) => {
            if text::is_utf8(b.as_slice()) {
                closing(b, fd)
            } else {
                closing(Vec::new(), fd)
            }
        },
        (State::LsList { fd }, Outcome::Bytes(Err(e))) => closing(failure("ls: ", &e), fd),
        (State::CatOpen, Outcome::Opened(Ok(fd))) => Step {
            output: Vec::new(),
            action: Action::Read { fd },
            state: State::CatRead { fd },
        },
        (State::CatOpen, Outcome::Opened(Err(e))) => finished(failure("cat: ", &e)),
        (State::CatRead { fd }, Outcome::Bytes(Ok(b))) => {
            if b.len() == 0 {
                assert(b@ =~= Seq::<u8>::empty());
                closing(b, fd)
            } else {
                Step {
                    output: text::replace_invalid(&b),
                    action: Action::Read { fd },
                    state: State::CatRead { fd },
                }
            }
        },
        (State::CatRead { fd }, Outcome::Bytes(Err(_))) => closing(Vec::new(), fd),
        (State::WriteOpen { path: _, content }, Outcome::Opened(Ok(fd))) => Step {
            output: Vec::new(),
            action: Action::Write { fd, bytes: content },
            state: State::WriteContent { fd },
        },
        (State::WriteOpen { path, content }, Outcome::Opened(Err(_))) => Step {
            output: Vec::new(),
            action: Action::Create { path },
            state: State::WriteCreate { content },
        },
        (State::WriteCreate { content }, Outcome::Opened(Ok(fd))) => Step {
            output: Vec::new(),
            action: Action::Write { fd, bytes: content },
            state: State::WriteContent { fd },
        },
        (State::WriteCreate { content: _ }, Outcome::Opened(Err(e))) => finished(
            failure("write: create failed: ", &e),
        ),
        (State::WriteContent { fd }, Outcome::Count(Ok(n))) => {
            let mut out: Vec<u8> = Vec::new();
            text::push_str(&mut out, "wrote ");
            text::push_dec(&mut out, n);
            text::push_str(&mut out, " bytes\n");
            assert(out@ =~= text::utf8("wrote ") + text::dec(n as nat) + text::utf8(" bytes\n"));
            closing(out, fd)
        },
        (State::WriteContent { fd }, Outcome::Count(Err(e))) => closing(failure("write: ", &e), fd),
        _ => finished(Vec::new()),
    }
}

/// What `uptime` prints for a clock of `ticks` ticks that took `usecs` microseconds.
pub fn uptime_text(ticks: u64, usecs: u64) -> (out: Vec<u8>)
    ensures
        out@ == text::utf8("up ") + text::dec(ticks as nat) + text::utf8(" ticks (") + text::dec(
            (usecs / 1000) as nat,
        ) + text::utf8(" ms)\n"),
{
    let mut out: Vec<u8> = Vec::new();
    text::push_str(&mut out, "up ");
    text::push_dec(&mut out, ticks);
    text::push_str(&mut out, " ticks (");
    text::push_dec(&mut out, usecs / 1000);
    text::push_str(&mut out, " ms)\n");
    assert(out@ =~= text::utf8("up ") + text::dec(ticks as nat) + text::utf8(" ticks (")
        + text::dec((usecs / 1000) as nat) + text::utf8(" ms)\n"));
    out
}

/// What `date` prints for the seconds since the epoch, if a real-time clock is there.
pub fn date_text(secs: Option<u64>) -> (out: Vec<u8>)
    ensures
        out@ == (match secs {
            Some(s) => text::utf8("epoch ") + text::dec(s as nat) + text::utf8(
                " s since Unix epoch\n",
            ),
            None => text::utf8("no RTC registered\n"),
        }),
{
    let mut out: Vec<u8> = Vec::new();
    match secs {
        Some(s) => {
            text::push_str(&mut out, "epoch ");
            text::push_dec(&mut out, s);
            text::push_str(&mut out, " s since Unix epoch\n");
            assert(out@ =~= text::utf8("epoch ") + text::dec(s as nat) + text::utf8(
                " s since Unix epoch\n",
            ));
        },
        None => {
            text::push_str(&mut out, "no RTC registered\n");
            assert(out@ =~= text::utf8("no RTC registered\n"));
        },
    }
    out
}

/// What `meminfo` prints.
pub open spec fn meminfo(dram_base: u64, dram_size: u64, timebase: u64) -> Seq<u8> {
    text::utf8("DRAM ") + text::hex_prefixed(dram_base as nat) + text::utf8("..")
        + text::hex_prefixed((dram_base + dram_size) as nat) + text::utf8(" (") + text::dec(
        (dram_size / 1048576) as nat,
    ) + text::utf8(" MiB), timebase ") + text::dec(timebase as nat) + text::utf8(" Hz\n")
}

/// What `meminfo` prints for a memory layout.
pub fn meminfo_text(dram_base: u64, dram_size: u64, timebase: u64) -> (out: Vec<u8>)
    requires
        dram_base + dram_size <= u64::MAX,
    ensures
        out@ == meminfo(dram_base, dram_size, timebase),
{
    let mut out: Vec<u8> = Vec::new();
    text::push_str(&mut out, "DRAM ");
    text::push_hex(&mut out, dram_base);
    text::push_str(&mut out, "..");
    text::push_hex(&mut out, dram_base + dram_size);
    text::push_str(&mut out, " (");
    text::push_dec(&mut out, dram_size / 1048576);
    text::push_str(&mut out, " MiB), timebase ");
    text::push_dec(&mut out, timebase);
    text::push_str(&mut out, " Hz\n");
    assert(out@ =~= meminfo(dram_base, dram_size, timebase));
    out
}

/// A file that a command opened is closed before the command ends: every step from a state that
/// holds an open file either keeps it open or closes it.
pub proof fn law_files_closed(state: State, o: Outcome, s: Step)
    requires
        answers(state, o),
        next_step(state, o, s),
    ensures
        match state {
            State::LsList { fd } => s.action == (Action::Close { fd }),
            State::CatRead { fd } => s.action == (Action::Close { fd }) || (s.action == (
            Action::Read { fd }) && s.state == (State::CatRead { fd })),
            State::WriteContent { fd } => s.action == (Action::Close { fd }),
            _ => true,
        },
        o matches Outcome::Opened(Ok(fd)) ==> match state {
            State::LsOpen => s.state == (State::LsList { fd }),
            State::CatOpen => s.state == (State::CatRead { fd }),
            State::WriteOpen { .. } | State::WriteCreate { .. } => s.state == (
            State::WriteContent { fd }),
            _ => true,
        },
{
}

/// The words that name commands: each names its own.
pub proof fn law_command_words()
    ensures
        builtin(text::utf8("help")) == Builtin::Help,
        builtin(text::utf8("echo")) == Builtin::Echo,
        builtin(text::utf8("version")) == Builtin::Version,
        builtin(text::utf8("ver")) == Builtin::Version,
        builtin(text::utf8("uptime")) == Builtin::Uptime,
        builtin(text::utf8("date")) == Builtin::Date,
        builtin(text::utf8("clear")) == Builtin::Clear,
        builtin(text::utf8("meminfo")) == Builtin::Meminfo,
        builtin(text::utf8("shutdown")) == Builtin::Shutdown,
        builtin(text::utf8("poweroff")) == Builtin::Shutdown,
        builtin(text::utf8("bench")) == Builtin::Bench,
        builtin(text::utf8("ls")) == Builtin::Ls,
        builtin(text::utf8("cat")) == Builtin::Cat,
        builtin(text::utf8("write")) == Builtin::Write,
{
    reveal_strlit("help");
    text::lemma_ascii_bytes("help");
    reveal_strlit("echo");
    text::lemma_ascii_bytes("echo");
    reveal_strlit("version");
    text::lemma_ascii_bytes("version");
    reveal_strlit("ver");
    text::lemma_ascii_bytes("ver");
    reveal_strlit("uptime");
    text::lemma_ascii_bytes("uptime");
    reveal_strlit("date");
    text::lemma_ascii_bytes("date");
    reveal_strlit("clear");
    text::lemma_ascii_bytes("clear");
    reveal_strlit("meminfo");
    text::lemma_ascii_bytes("meminfo");
    reveal_strlit("shutdown");
    text::lemma_ascii_bytes("shutdown");
    reveal_strlit("poweroff");
    text::lemma_ascii_bytes("poweroff");
    reveal_strlit("bench");
    text::lemma_ascii_bytes("bench");
    reveal_strlit("ls");
    text::lemma_ascii_bytes("ls");
    reveal_strlit("cat");
    text::lemma_ascii_bytes("cat");
    reveal_strlit("write");
    text::lemma_ascii_bytes("write");
    assert(text::utf8("help")[0] != text::utf8("echo")[0]);
    assert(text::utf8("help")[0] != text::utf8("date")[0]);
    assert(text::utf8("echo")[0] != text::utf8("date")[0]);
    assert(text::utf8("version")[0] != text::utf8("meminfo")[0]);
    assert(text::utf8("ver")[0] != text::utf8("cat")[0]);
    assert(text::utf8("clear")[0] != text::utf8("bench")[0]);
    assert(text::utf8("clear")[0] != text::utf8("write")[0]);
    assert(text::utf8("bench")[0] != text::utf8("write")[0]);
    assert(text::utf8("shutdown")[0] != text::utf8("poweroff")[0]);
}

/// A word that is none of the commands names none.
pub proof fn law_other_words(w: Seq<u8>)
    ensures
        builtin(w) == Builtin::Unknown <==> w != text::utf8("help")
            && w != text::utf8("echo")
            && w != text::utf8("version")
            && w != text::utf8("ver")
            && w != text::utf8("uptime")
            && w != text::utf8("date")
            && w != text::utf8("clear")
            && w != text::utf8("meminfo")
            && w != text::utf8("shutdown")
            && w != text::utf8("poweroff")
            && w != text::utf8("bench")
            && w != text::utf8("ls")
            && w != text::utf8("cat")
            && w != text::utf8("write"),
{
}

/// The words of a line, if it is well-formed UTF-8, are its words; any other line counts as empty.
pub open spec fn line_words(line: Seq<u8>) -> Seq<Seq<u8>> {
    if vstd::utf8::valid_utf8(line) {
        text::words(line)
    } else {
        Seq::empty()
    }
}

/// Lines that are not well-formed UTF-8 have no words.
proof fn lemma_line_words(line: Seq<u8>)
    ensures
        line_words(line) == text::words(text::utf8_or(line, Seq::empty())),
{
    text::law_one_word(Seq::empty());
}

/// `ls` opens the directory that its first argument names, for reading; alone it opens `/data`.
pub proof fn law_ls(line: Seq<u8>, version: Seq<u8>, s: Step)
    requires
        first_step(line, version, s),
        line_words(line).len() > 0,
        line_words(line)[0] == text::utf8("ls"),
    ensures
        line_words(line).len() >= 2 ==> (s.action matches Action::Open { path, write } && path@
            == line_words(line)[1] && !write),
        line_words(line).len() == 1 ==> (s.action matches Action::Open { path, write } && path@
            == text::utf8("/data") && !write),
        s.state is LsOpen,
        s.output@ == seq![10u8],
{
    law_command_words();
    lemma_line_words(line);
}

/// `ls`, a space and a path without white space lists that path, whatever it is.
pub proof fn law_ls_path(path: Seq<u8>, version: Seq<u8>, s: Step)
    requires
        first_step(seq![108u8, 115u8, 32u8] + path, version, s),
        vstd::utf8::valid_utf8(seq![108u8, 115u8, 32u8] + path),
        text::plain(path),
        path.len() > 0,
    ensures
        s.action matches Action::Open { path: p, write } && p@ == path && !write,
        s.state is LsOpen,
{
    let cmd = seq![108u8, 115u8];
    let line = seq![108u8, 115u8, 32u8] + path;
    reveal_strlit("ls");
    text::lemma_ascii_bytes("ls");
    assert(cmd =~= text::utf8("ls"));
    assert(line =~= cmd.push(32) + path);
    text::law_space_parts_words(cmd, 32, path);
    text::law_one_word(cmd);
    text::law_one_word(path);
    law_ls(line, version, s);
}

/// `cat` opens the file that its first argument names, for reading; alone it says how it is used.
pub proof fn law_cat(line: Seq<u8>, version: Seq<u8>, s: Step)
    requires
        first_step(line, version, s),
        line_words(line).len() > 0,
        line_words(line)[0] == text::utf8("cat"),
    ensures
        line_words(line).len() >= 2 ==> (s.action matches Action::Open { path, write } && path@
            == line_words(line)[1] && !write) && s.state is CatOpen && s.output@ == seq![10u8],
        line_words(line).len() == 1 ==> s.action is Done && s.output@ == seq![10u8] + text::utf8(
            "usage: cat <path>\n",
        ),
{
    law_command_words();
    lemma_line_words(line);
}

/// `write` opens the file that its first argument names, for writing, and keeps the path and the other
/// arguments, with one space between each two; alone it says how it is used.
pub proof fn law_write(line: Seq<u8>, version: Seq<u8>, s: Step)
    requires
        first_step(line, version, s),
        line_words(line).len() > 0,
        line_words(line)[0] == text::utf8("write"),
    ensures
        line_words(line).len() >= 2 ==> (s.action matches Action::Open { path, write } && path@
            == line_words(line)[1] && write) && (s.state matches State::WriteOpen {
            path,
            content,
        } && path@ == line_words(line)[1] && content@ == text::joined(line_words(line).skip(2)))
            && s.output@ == seq![10u8],
        line_words(line).len() == 1 ==> s.action is Done && s.output@ == seq![10u8] + text::utf8(
            "usage: write <path> <content...>\n",
        ),
{
    law_command_words();
    lemma_line_words(line);
    let ws = line_words(line);
    if ws.len() >= 2 {
        let args = ws.subrange(1, ws.len() as int);
        assert(args.subrange(1, args.len() as int) =~= ws.skip(2));
    }
}

/// `echo` prints its arguments, with one space between each two, on a line of their own.
pub proof fn law_echo(line: Seq<u8>, version: Seq<u8>, s: Step)
    requires
        first_step(line, version, s),
        line_words(line).len() > 0,
        line_words(line)[0] == text::utf8("echo"),
    ensures
        s.output@ == seq![10u8] + text::joined(line_words(line).skip(1)) + seq![10u8],
        s.action is Done,
{
    law_command_words();
    lemma_line_words(line);
    let ws = line_words(line);
    assert(ws.subrange(1, ws.len() as int) =~= ws.skip(1));
}

/// The commands without arguments: each does its own, and an empty line does nothing. Output starts on
/// a new line.
pub proof fn law_simple_commands(line: Seq<u8>, version: Seq<u8>, s: Step)
    requires
        first_step(line, version, s),
    ensures
        s.output@.len() > 0 && s.output@[0] == 10,
        line_words(line).len() == 0 ==> s.action is Done && s.output@ == seq![10u8],
        line_words(line).len() > 0 ==> ({
            let w = line_words(line)[0];
            &&& w == text::utf8("help") ==> s.action is Done && s.output@ == seq![10u8]
                + help_text()
            &&& w == text::utf8("version") || w == text::utf8("ver") ==> s.action is Done
                && s.output@ == seq![10u8] + text::utf8("atom kernel ") + version + seq![10u8]
            &&& w == text::utf8("uptime") ==> s.action is Uptime && s.output@ == seq![10u8]
            &&& w == text::utf8("date") ==> s.action is Date && s.output@ == seq![10u8]
            &&& w == text::utf8("clear") ==> s.action is Done && s.output@ == seq![10u8]
                + text::utf8("\x1b[2J\x1b[H")
            &&& w == text::utf8("meminfo") ==> s.action is Meminfo && s.output@ == seq![10u8]
            &&& w == text::utf8("shutdown") || w == text::utf8("poweroff")
                ==> s.action is Shutdown
            &&& w == text::utf8("bench") ==> s.action is Bench
        }),
{
    law_command_words();
    lemma_line_words(line);
}

/// Only `shutdown` and `poweroff` switch the machine off, and only `write` changes a file.
pub proof fn law_harmless_commands(line: Seq<u8>, version: Seq<u8>, s: Step)
    requires
        first_step(line, version, s),
        line_words(line).len() > 0,
    ensures
        s.action is Shutdown <==> line_words(line)[0] == text::utf8("shutdown") || line_words(line)[0]
            == text::utf8("poweroff"),
        s.action matches Action::Open { path, write } && write ==> line_words(line)[0]
            == text::utf8("write"),
        !(s.action is Create || s.action is Write || s.action is Close || s.action is Read
            || s.action is Readdir),
{
    law_command_words();
    lemma_line_words(line);
}

/// A word that names no command is quoted in the answer, and nothing else is done.
pub proof fn law_unknown_command(line: Seq<u8>, version: Seq<u8>, s: Step)
    requires
        first_step(line, version, s),
        line_words(line).len() > 0,
        builtin(line_words(line)[0]) == Builtin::Unknown,
    ensures
        s.action is Done,
        s.output@ == seq![10u8] + text::utf8("unknown command '") + line_words(line)[0] + text::utf8(
            "' \u{2014} type 'help' for usage\n",
        ),
{
    lemma_line_words(line);
}

/// `ls` and `cat` go on with the file that was opened, print what was read from it as it is, and say
/// why it could not be opened.
pub proof fn law_reading_steps(fd: u64, b: Vec<u8>, e: Vec<u8>, s: Step)
    requires
        vstd::utf8::valid_utf8(b@),
    ensures
        next_step(State::LsOpen, Outcome::Opened(Ok(fd)), s) ==> s.action == (Action::Readdir { fd })
            && s.state == (State::LsList { fd }) && s.output@.len() == 0,
        next_step(State::CatOpen, Outcome::Opened(Ok(fd)), s) ==> s.action == (Action::Read { fd })
            && s.state == (State::CatRead { fd }) && s.output@.len() == 0,
        next_step(State::LsOpen, Outcome::Opened(Err(e)), s) ==> s.action is Done && s.output@
            == text::utf8("ls: ") + e@ + seq![10u8],
        next_step(State::CatOpen, Outcome::Opened(Err(e)), s) ==> s.action is Done && s.output@
            == text::utf8("cat: ") + e@ + seq![10u8],
        next_step((State::LsList { fd }), Outcome::Bytes(Ok(b)), s) ==> s.output@ == b@ && s.action
            == (Action::Close { fd }),
        next_step((State::LsList { fd }), Outcome::Bytes(Err(e)), s) ==> s.output@ == text::utf8(
            "ls: ",
        ) + e@ + seq![10u8] && s.action == (Action::Close { fd }),
        next_step((State::CatRead { fd }), Outcome::Bytes(Ok(b)), s) && b@.len() > 0 ==> s.output@
            == b@ && s.action == (Action::Read { fd }) && s.state == (State::CatRead { fd }),
        next_step((State::CatRead { fd }), Outcome::Bytes(Ok(b)), s) && b@.len() == 0
            ==> s.output@.len() == 0 && s.action == (Action::Close { fd }),
        next_step((State::CatRead { fd }), Outcome::Bytes(Err(e)), s) ==> s.output@.len() == 0
            && s.action == (Action::Close { fd }),
{
}

/// `write` writes the content that it was given, to the file that was opened. Where the file cannot be
/// opened it is created under the same path, and the content waits for it.
pub proof fn law_writing_steps(fd: u64, path: Vec<u8>, content: Vec<u8>, e: Vec<u8>, n: u64, s: Step)
    ensures
        next_step((State::WriteOpen { path, content }), Outcome::Opened(Ok(fd)), s)
            || next_step((State::WriteCreate { content }), Outcome::Opened(Ok(fd)), s) ==> (
        s.action matches Action::Write { fd: f, bytes } && f == fd && bytes@ == content@) && s.state
            == (State::WriteContent { fd }) && s.output@.len() == 0,
        next_step((State::WriteOpen { path, content }), Outcome::Opened(Err(e)), s) ==> (
        s.action matches Action::Create { path: p } && p@ == path@) && (
        s.state matches State::WriteCreate { content: c } && c@ == content@) && s.output@.len() == 0,
        next_step((State::WriteCreate { content }), Outcome::Opened(Err(e)), s) ==> s.action is Done
            && s.output@ == text::utf8("write: create failed: ") + e@ + seq![10u8],
        next_step((State::WriteContent { fd }), Outcome::Count(Ok(n)), s) ==> s.action == (
        Action::Close { fd }) && s.output@ == text::utf8("wrote ") + text::dec(n as nat)
            + text::utf8(" bytes\n"),
        next_step((State::WriteContent { fd }), Outcome::Count(Err(e)), s) ==> s.action == (
        Action::Close { fd }) && s.output@ == text::utf8("write: ") + e@ + seq![10u8],
{
}

/// Where an action ends the command, nothing more is printed or done.
pub proof fn law_last_step(o: Outcome, s: Step)
    requires
        next_step(State::Last, o, s),
    ensures
        s.action is Done,
        s.output@.len() == 0,
        s.state is Last,
{
}

/// What a key does to the line: a printable character comes at the end, a backspace or delete takes
/// the last one, and any other byte changes nothing.
pub proof fn law_keys(s: Seq<u8>, c: u8)
    ensures
        32 <= c <= 126 ==> typed_key(s, c) == s.push(c),
        c == 8 || c == 127 ==> typed_key(s, c) == (if s.len() > 0 {
            s.take(s.len() - 1)
        } else {
            s
        }),
        c < 32 && c != 8 || c > 127 ==> typed_key(s, c) == s,
        ends_line(c) <==> c == 10 || c == 13,
        erases(c) <==> c == 8 || c == 127,
{
    if s.len() > 0 {
        assert(s.drop_last() =~= s.take(s.len() - 1));
    }
}

/// A run of printable keys is the line, in order.
pub proof fn law_typed_line(keys: Seq<u8>)
    requires
        all_printable(keys),
    ensures
        typed(Seq::empty(), keys) == keys,
    decreases keys.len(),
{
    if keys.len() > 0 {
        law_typed_line(keys.drop_last());
        assert(keys.drop_last().push(keys.last()) =~= keys);
    } else {
        assert(keys =~= Seq::<u8>::empty());
    }
}

/// The memory report names the first address, the end, the size in mebibytes and the frequency.
pub proof fn law_meminfo(dram_base: u64, mib: u64, timebase: u64)
    requires
        dram_base + mib * 1048576 <= u64::MAX,
    ensures
        meminfo(dram_base, (mib * 1048576) as u64, timebase) == text::utf8("DRAM ")
            + text::hex_prefixed(dram_base as nat) + text::utf8("..") + text::hex_prefixed(
            (dram_base + mib * 1048576) as nat,
        ) + text::utf8(" (") + text::dec(mib as nat) + text::utf8(" MiB), timebase ") + text::dec(
            timebase as nat,
        ) + text::utf8(" Hz\n"),
{
    assert((mib * 1048576) / 1048576 == mib);
}

} // verus!
