//! Where the time stamps come from.
use vstd::prelude::*;
use crate::log::record::Timestamp;
use crate::text;

verus! {

/// A clock that only goes forward.
pub trait Clock {
    /// The count of the clock.
    fn now(&self) -> u64;
}

/// The count that was read last from the time register of the processor.
#[derive(Clone, Copy, PartialEq, Eq, Structural, Debug)]
pub struct CsrClock {
    pub count: u64,
}

impl Clock for CsrClock {
    /// The count that was read last.
    fn now(&self) -> (r: u64)
        ensures
            r == self.count,
    {
        self.count
    }
}

/// The clock of the log and its frequency, once they are set.
pub struct ClockSource<C> {
    source: Option<(C, u64)>,
}

/// The frequency; a clock without one counts seconds.
pub open spec fn frequency(freq: u64) -> int {
    if freq == 0 {
        1
    } else {
        freq as int
    }
}

/// The microseconds that `count` ticks take.
pub open spec fn micros(count: u64, freq: u64) -> int {
    count * 1_000_000 / frequency(freq)
}

/// The microseconds of a count: those of the whole seconds, and those of the rest.
proof fn lemma_micros(count: int, f: int)
    requires
        0 <= count,
        0 < f,
    ensures
        count * 1_000_000 / f == count / f * 1_000_000 + (count % f) * 1_000_000 / f,
{
    let q = count / f;
    let r = count % f;
    vstd::arithmetic::div_mod::lemma_fundamental_div_mod(count, f);
    assert(count * 1_000_000 == f * (q * 1_000_000) + r * 1_000_000) by (nonlinear_arith)
        requires
            count == f * q + r,
    ;
    vstd::arithmetic::div_mod::lemma_hoist_over_denominator(r * 1_000_000, q * 1_000_000, f as nat);
    assert(q * 1_000_000 * f == f * (q * 1_000_000)) by (nonlinear_arith);
}

/// The rest of the division is smaller than the frequency.
proof fn lemma_rest(count: int, f: int)
    requires
        0 <= count,
        0 < f,
    ensures
        0 <= count % f < f,
        0 <= count / f <= count,
        0 <= (count % f) * 1_000_000 / f < 1_000_000,
{
    vstd::arithmetic::div_mod::lemma_mod_bound(count, f);
    vstd::arithmetic::div_mod::lemma_div_is_ordered_by_denominator(count, 1, f);
    vstd::arithmetic::div_mod::lemma_div_pos_is_pos(count, f);
    let r = count % f;
    vstd::arithmetic::div_mod::lemma_div_pos_is_pos(r * 1_000_000, f);
    assert(r * 1_000_000 / f < 1_000_000) by (nonlinear_arith)
        requires
            0 <= r < f,
            0 < f,
    ;
}

/// The time stamp of a count, if the microseconds fit a word.
pub fn timestamp_of(count: u64, freq: u64) -> (r: Timestamp)
    requires
        micros(count, freq) <= u64::MAX,
    ensures
        r.0 == micros(count, freq),
{
    let f: u64 = if freq == 0 {
        1
    } else {
        freq
    };
    proof {
        lemma_micros(count as int, f as int);
        lemma_rest(count as int, f as int);
        vstd::arithmetic::div_mod::lemma_div_pos_is_pos((count % f) * 1_000_000, f as int);
    }
    let rest: u128 = ((count % f) as u128 * 1_000_000) / f as u128;
    Timestamp((count / f) * 1_000_000 + rest as u64)
}

/// The seconds and the microseconds of a count.
pub fn split_time(count: u64, freq: u64) -> (r: (u64, u64))
    ensures
        r.0 == count as int / frequency(freq),
        r.1 == (count as int % frequency(freq)) * 1_000_000 / frequency(freq),
        r.1 < 1_000_000,
{
    let f: u64 = if freq == 0 {
        1
    } else {
        freq
    };
    proof {
        lemma_rest(count as int, f as int);
    }
    let rest: u128 = ((count % f) as u128 * 1_000_000) / f as u128;
    (count / f, rest as u64)
}

impl<C: Clock> ClockSource<C> {
    /// The clock and its frequency.
    pub closed spec fn source(&self) -> Option<(C, u64)> {
        self.source
    }

    /// No clock.
    pub fn new() -> (r: ClockSource<C>)
        ensures
            r.source() is None,
    {
        ClockSource { source: None }
    }

    /// Sets the clock and its frequency. Only the first call counts.
    pub fn set_clock_source(&mut self, clock: C, freq: u64)
        ensures
            final(self).source() == (match old(self).source() {
                Some(s) => Some(s),
                None => Some((clock, freq)),
            }),
    {
        if self.source.is_none() {
            self.source = Some((clock, freq));
        }
    }

    /// There is a clock with the frequency `freq`, and it may say `count`.
    pub open spec fn may_say(&self, count: u64, freq: u64) -> bool {
        self.source() matches Some(s) && s.1 == freq && call_ensures(C::now, (&s.0,), count)
    }

    /// The microseconds of whatever the clock says fit a word.
    pub open spec fn in_range(&self) -> bool {
        forall|count: u64, freq: u64| #[trigger]
            self.may_say(count, freq) ==> micros(count, freq) <= u64::MAX
    }

    /// The time may be that of the clock; there is none without a clock.
    pub open spec fn may_be_time(&self, t: Option<Timestamp>) -> bool {
        match t {
            Some(ts) => exists|count: u64, freq: u64| #[trigger]
                self.may_say(count, freq) && ts.0 == micros(count, freq),
            None => self.source() is None,
        }
    }

    /// The count of the clock and its frequency; `None` if there is no clock.
    pub fn count(&self) -> (r: Option<(u64, u64)>)
        ensures
            match r {
                Some(c) => self.may_say(c.0, c.1),
                None => self.source() is None,
            },
    {
        match &self.source {
            Some((clock, freq)) => Some((clock.now(), *freq)),
            None => None,
        }
    }

    /// The time of the clock; `None` if there is no clock.
    pub fn read_time(&self) -> (r: Option<Timestamp>)
        requires
            self.in_range(),
        ensures
            self.may_be_time(r),
    {
        match self.count() {
            Some((count, freq)) => Some(timestamp_of(count, freq)),
            None => None,
        }
    }
}

/// The time as it is shown: seconds, a point and six digits of microseconds.
pub open spec fn time_text(sec: nat, usec: nat) -> Seq<u8> {
    text::dec(sec) + text::utf8(".") + text::zero_padded(text::dec(usec), 6)
}

/// The time as it is shown; question marks if there is none.
pub open spec fn shown_time(ts: Option<Timestamp>) -> Seq<u8> {
    match ts {
        Some(t) => time_text((t.0 / 1_000_000) as nat, (t.0 % 1_000_000) as nat),
        None => text::utf8("?.??????"),
    }
}

/// Appends the time as it is shown.
pub fn push_time(out: &mut Vec<u8>, sec: u64, usec: u64)
    ensures
        final(out)@ == old(out)@ + time_text(sec as nat, usec as nat),
{
    text::push_dec(out, sec);
    text::push_str(out, ".");
    text::push_dec6(out, usec);
    assert(out@ =~= old(out)@ + time_text(sec as nat, usec as nat));
}

/// The time as it is shown.
pub fn fmt_time(ts: Option<Timestamp>) -> (r: Vec<u8>)
    ensures
        r@ == shown_time(ts),
{
    let mut r: Vec<u8> = Vec::new();
    match ts {
        Some(t) => {
            push_time(&mut r, t.sec(), t.usec());
        },
        None => {
            text::push_str(&mut r, "?.??????");
        },
    }
    assert(r@ =~= shown_time(ts));
    r
}

/// Time stamps go forward with the clock.
pub proof fn law_time_goes_forward(a: u64, b: u64, freq: u64)
    requires
        a <= b,
    ensures
        micros(a, freq) <= micros(b, freq),
{
    vstd::arithmetic::div_mod::lemma_div_is_ordered(
        a * 1_000_000,
        b * 1_000_000,
        frequency(freq),
    );
}

/// A clock that counts microseconds or faster never says more of them than fit a word.
pub proof fn law_fast_clock_in_range<C: Clock>(source: ClockSource<C>)
    requires
        source.source() matches Some(s) ==> s.1 >= 1_000_000,
    ensures
        source.in_range(),
{
    assert forall|count: u64, freq: u64| #[trigger] source.may_say(count, freq) implies micros(
        count,
        freq,
    ) <= u64::MAX by {
        assert(count * 1_000_000 / (freq as int) <= count) by (nonlinear_arith)
            requires
                freq >= 1_000_000,
        ;
    }
}

/// Splitting a count gives the same time as the microseconds of the count.
pub proof fn law_split_is_micros(count: u64, freq: u64)
    ensures
        micros(count, freq) == count as int / frequency(freq) * 1_000_000 + (count as int
            % frequency(freq)) * 1_000_000 / frequency(freq),
{
    lemma_micros(count as int, frequency(freq));
}

/// Whole seconds of ticks are whole seconds of microseconds, and a clock without a frequency counts
/// seconds.
pub proof fn law_whole_seconds(secs: u64, freq: u64)
    requires
        freq > 0,
        secs * freq <= u64::MAX,
    ensures
        micros((secs * freq) as u64, freq) == secs * 1_000_000,
        micros(secs, 0) == secs * 1_000_000,
{
    assert(secs * freq * 1_000_000 == (secs * 1_000_000) * freq) by (nonlinear_arith);
    assert(0 <= secs * freq) by (nonlinear_arith);
    vstd::arithmetic::div_mod::lemma_div_multiples_vanish(secs * 1_000_000, freq as int);
    assert(freq * (secs * 1_000_000) == (secs * 1_000_000) * freq) by (nonlinear_arith);
}

/// A time is shown with six digits behind the point, whatever they are: read as a number without the
/// point they are the microseconds.
pub proof fn law_time_shown(sec: nat, usec: nat)
    requires
        usec < 1_000_000,
    ensures
        time_text(sec, usec).len() == text::dec(sec).len() + 7,
        time_text(sec, usec).take(text::dec(sec).len() as int) == text::dec(sec),
        time_text(sec, usec)[text::dec(sec).len() as int] == 46,
        text::valued(time_text(sec, usec).skip(text::dec(sec).len() as int + 1), 10) == usec,
{
    let d = text::dec(usec);
    let n = text::dec(sec).len() as int;
    reveal_strlit(".");
    text::lemma_ascii_bytes(".");
    text::law_dec_value(usec);
    text::lemma_dec_len(usec, 6);
    text::law_padding(d, 6);
    let six = text::zero_padded(d, 6);
    let t = time_text(sec, usec);
    assert(six.len() == 6);
    assert(t.take(n) =~= text::dec(sec));
    assert(t[n] == text::utf8(".")[0]);
    assert(t.skip(n + 1) =~= six);
    text::lemma_padded_value(d, 6, 10);
}

/// A time stamp is shown with its seconds and its microseconds; without a clock there are question
/// marks.
pub proof fn law_stamp_shown(sec: u64, usec: u64)
    requires
        usec < 1_000_000,
        sec * 1_000_000 + usec <= u64::MAX,
    ensures
        shown_time(Some(Timestamp((sec * 1_000_000 + usec) as u64))) == time_text(
            sec as nat,
            usec as nat,
        ),
        shown_time(None) == text::utf8("?.??????"),
{
    let t = (sec * 1_000_000 + usec) as u64;
    assert(t / 1_000_000 == sec);
    assert(t % 1_000_000 == usec);
}

/// The time is that of the clock: the microseconds of a count that the clock may say. There is none
/// exactly if there is no clock.
pub proof fn law_time_of_clock<C: Clock>(source: ClockSource<C>, t: Option<Timestamp>)
    requires
        source.may_be_time(t),
    ensures
        t is Some <==> source.source() is Some,
        t matches Some(ts) ==> exists|count: u64, freq: u64| #[trigger]
            source.may_say(count, freq) && (source.source()->0).1 == freq && ts.0 * frequency(freq)
                <= count * 1_000_000 && count * 1_000_000 < (ts.0 + 1) * frequency(freq),
{
    if let Some(ts) = t {
        let (count, freq) = choose|count: u64, freq: u64| #[trigger]
            source.may_say(count, freq) && ts.0 == micros(count, freq);
        let f = frequency(freq);
        let n = count * 1_000_000;
        vstd::arithmetic::div_mod::lemma_fundamental_div_mod(n, f);
        vstd::arithmetic::div_mod::lemma_mod_bound(n, f);
        assert(ts.0 * f <= n && n < (ts.0 + 1) * f) by (nonlinear_arith)
            requires
                n == f * ts.0 + n % f,
                0 <= n % f < f,
        ;
        assert(source.may_say(count, freq));
    }
}

/// The clock of the processor says what was read from the time register.
pub proof fn law_register_time(source: ClockSource<CsrClock>, count: u64, freq: u64, t: Option<Timestamp>)
    requires
        source.source() == Some((CsrClock { count }, freq)),
        source.may_be_time(t),
    ensures
        t matches Some(ts) && ts.0 == micros(count, freq),
{
}

} // verus!
