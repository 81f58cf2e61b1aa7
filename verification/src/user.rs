//! The user program that tries out loading and the clock.
use vstd::prelude::*;
use crate::text;

verus! {

/// A point in time, as the clock call stores it.
#[derive(Clone, Copy, PartialEq, Eq, Structural, Debug)]
pub struct TimeVal {
    pub sec: u64,
    pub usec: u64,
}

/// The microseconds from `t1` to `t2`, modulo the size of a word.
pub open spec fn micros_between(t1: TimeVal, t2: TimeVal) -> int {
    ((t2.sec - t1.sec) * 1_000_000 + (t2.usec - t1.usec)) % 0x1_0000_0000_0000_0000
}

/// Computations modulo the size of a word give the difference modulo the size of a word.
proof fn lemma_wrapping(s: int, u: int)
    ensures
        (((s % 0x1_0000_0000_0000_0000) * 1_000_000) % 0x1_0000_0000_0000_0000 + u
            % 0x1_0000_0000_0000_0000) % 0x1_0000_0000_0000_0000 == (s * 1_000_000 + u)
            % 0x1_0000_0000_0000_0000,
{
    let w = 0x1_0000_0000_0000_0000int;
    vstd::arithmetic::div_mod::lemma_mul_mod_noop_left(s, 1_000_000, w);
    vstd::arithmetic::div_mod::lemma_add_mod_noop(s * 1_000_000, u, w);
}

/// The difference modulo the size of a word.
fn difference(a: u64, b: u64) -> (r: u64)
    ensures
        r == (a - b) % 0x1_0000_0000_0000_0000,
{
    a.wrapping_sub(b)
}

/// Seconds in microseconds, modulo the size of a word.
fn in_micros(secs: u64) -> (r: u64)
    ensures
        r == (secs * 1_000_000) % 0x1_0000_0000_0000_0000,
{
    secs.wrapping_mul(1_000_000)
}

/// The sum modulo the size of a word.
fn sum(a: u64, b: u64) -> (r: u64)
    ensures
        r == (a + b) % 0x1_0000_0000_0000_0000,
{
    a.wrapping_add(b)
}

/// The microseconds from `t1` to `t2`.
pub fn elapsed(t1: TimeVal, t2: TimeVal) -> (r: u64)
    ensures
        r == micros_between(t1, t2),
{
    let secs: u64 = difference(t2.sec, t1.sec);
    let usecs: u64 = difference(t2.usec, t1.usec);
    let micros: u64 = in_micros(secs);
    proof {
        lemma_wrapping(t2.sec - t1.sec, t2.usec - t1.usec);
    }
    sum(micros, usecs)
}

/// The text if the condition holds.
pub open spec fn text_if(cond: bool, s: &str) -> Seq<u8> {
    if cond {
        text::utf8(s)
    } else {
        Seq::empty()
    }
}

/// What the program writes: `r1` and `r2` are the answers of the two clock calls, `t1` and `t2` the
/// times that they stored.
pub open spec fn program_output(r1: i64, t1: TimeVal, r2: i64, t2: TimeVal) -> Seq<u8> {
    text::utf8("hello from elf\n") + text_if(r1 < 0, "[M2] gettimeofday(t1) failed\n") + text_if(
        r2 < 0,
        "[M2] gettimeofday(t2) failed\n",
    ) + (if micros_between(t1, t2) == 0 {
        text::utf8("[M2] diff_usec=0 (busy loop too fast?)\n")
    } else {
        text::utf8("[M2] diff_usec=") + text::dec(micros_between(t1, t2) as nat) + text::utf8("\n")
    })
}

/// What the program writes, and the code with which it ends: zero if both calls succeed and time
/// has passed between them.
pub fn run(r1: i64, t1: TimeVal, r2: i64, t2: TimeVal) -> (r: (Vec<u8>, u64))
    ensures
        r.0@ == program_output(r1, t1, r2, t2),
        r.1 == (if r1 >= 0 && r2 >= 0 && micros_between(t1, t2) != 0 {
            0u64
        } else {
            1
        }),
{
    let mut ok: bool = true;
    let mut out: Vec<u8> = Vec::new();
    text::push_str(&mut out, "hello from elf\n");
    if r1 < 0 {
        ok = false;
        text::push_str(&mut out, "[M2] gettimeofday(t1) failed\n");
    }
    if r2 < 0 {
        ok = false;
        text::push_str(&mut out, "[M2] gettimeofday(t2) failed\n");
    }
    let diff: u64 = elapsed(t1, t2);
    if diff == 0 {
        ok = false;
        text::push_str(&mut out, "[M2] diff_usec=0 (busy loop too fast?)\n");
    } else {
        text::push_str(&mut out, "[M2] diff_usec=");
        text::push_dec(&mut out, diff);
        text::push_str(&mut out, "\n");
    }
    assert(out@ =~= program_output(r1, t1, r2, t2));
    (
        out,
        if ok {
            0
        } else {
            1
        },
    )
}

/// What the child program writes, and the code with which it ends.
pub fn run_child() -> (r: (Vec<u8>, u64))
    ensures
        r.0@ == text::utf8("[M5] child program speaking\n"),
        r.1 == 42,
{
    let mut out: Vec<u8> = Vec::new();
    text::push_str(&mut out, "[M5] child program speaking\n");
    assert(out@ =~= text::utf8("[M5] child program speaking\n"));
    (out, 42)
}

/// If time goes forward by less than the clock can tell apart, the difference is exact.
pub proof fn law_elapsed_exact(t1: TimeVal, t2: TimeVal)
    requires
        0 <= (t2.sec * 1_000_000 + t2.usec) - (t1.sec * 1_000_000 + t1.usec) <= u64::MAX,
    ensures
        micros_between(t1, t2) == (t2.sec * 1_000_000 + t2.usec) - (t1.sec * 1_000_000 + t1.usec),
{
}

/// The program greets, complains of each call that failed, and then says how much time has passed, or
/// that none has.
pub proof fn law_program_output(r1: i64, t1: TimeVal, r2: i64, t2: TimeVal, micros: nat)
    requires
        t2.sec * 1_000_000 + t2.usec == t1.sec * 1_000_000 + t1.usec + micros,
        micros <= u64::MAX,
    ensures
        r1 >= 0 && r2 >= 0 && micros > 0 ==> program_output(r1, t1, r2, t2) == text::utf8(
            "hello from elf\n",
        ) + text::utf8("[M2] diff_usec=") + text::dec(micros) + text::utf8("\n"),
        r1 >= 0 && r2 >= 0 && micros == 0 ==> program_output(r1, t1, r2, t2) == text::utf8(
            "hello from elf\n",
        ) + text::utf8("[M2] diff_usec=0 (busy loop too fast?)\n"),
        r1 < 0 && r2 >= 0 && micros > 0 ==> program_output(r1, t1, r2, t2) == text::utf8(
            "hello from elf\n",
        ) + text::utf8("[M2] gettimeofday(t1) failed\n") + text::utf8("[M2] diff_usec=")
            + text::dec(micros) + text::utf8("\n"),
        r1 >= 0 && r2 < 0 && micros > 0 ==> program_output(r1, t1, r2, t2) == text::utf8(
            "hello from elf\n",
        ) + text::utf8("[M2] gettimeofday(t2) failed\n") + text::utf8("[M2] diff_usec=")
            + text::dec(micros) + text::utf8("\n"),
{
    law_elapsed_exact(t1, t2);
    let o = program_output(r1, t1, r2, t2);
    let hello = text::utf8("hello from elf\n");
    let diff = text::utf8("[M2] diff_usec=") + text::dec(micros) + text::utf8("\n");
    if micros > 0 {
        if r1 >= 0 && r2 >= 0 {
            assert(o =~= hello + diff);
            assert(hello + diff =~= hello + text::utf8("[M2] diff_usec=") + text::dec(micros)
                + text::utf8("\n"));
        } else if r1 < 0 && r2 >= 0 {
            let failed = text::utf8("[M2] gettimeofday(t1) failed\n");
            assert(o =~= hello + failed + text::utf8("[M2] diff_usec=") + text::dec(micros)
                + text::utf8("\n"));
        } else if r1 >= 0 {
            let failed = text::utf8("[M2] gettimeofday(t2) failed\n");
            assert(o =~= hello + failed + text::utf8("[M2] diff_usec=") + text::dec(micros)
                + text::utf8("\n"));
        }
    } else if r1 >= 0 && r2 >= 0 {
        assert(o =~= hello + text::utf8("[M2] diff_usec=0 (busy loop too fast?)\n"));
    }
}

} // verus!
