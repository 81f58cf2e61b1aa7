//! A lock that several readers or one writer hold.
//!
//! The highest bit of the word says that a writer has claimed the lock, the other bits count the
//! readers. A writer first claims the lock, which keeps new readers out, and then waits until the
//! readers have left.
use vstd::prelude::*;

verus! {

/// A writer has claimed the lock.
pub const WRITER_BIT: u64 = 0x8000_0000_0000_0000;

/// A value behind a lock.
pub struct RwLock<T> {
    state: u64,
    data: T,
}

/// Proof that the lock was taken for reading. It remembers whether interrupts were on.
pub struct RwLockReadGuard {
    saved: bool,
}

/// Proof that the lock was claimed for writing and the readers have left. It remembers whether
/// interrupts were on.
pub struct RwLockWriteGuard {
    saved: bool,
}

impl RwLockReadGuard {
    /// Whether interrupts were on before the lock was taken.
    pub closed spec fn saved(&self) -> bool {
        self.saved
    }
}

impl RwLockWriteGuard {
    /// Whether interrupts were on before the lock was taken.
    pub closed spec fn saved(&self) -> bool {
        self.saved
    }
}

/// A writer has claimed the lock.
pub open spec fn claimed(state: int) -> bool {
    state >= WRITER_BIT
}

/// The readers that the word counts.
pub open spec fn readers(state: int) -> int {
    state % (WRITER_BIT as int)
}

impl<T> RwLock<T> {
    /// The word.
    pub closed spec fn state(&self) -> int {
        self.state as int
    }

    /// The value.
    pub closed spec fn data(&self) -> T {
        self.data
    }

    /// A value behind a lock that nobody holds.
    pub fn new(val: T) -> (r: RwLock<T>)
        ensures
            r.state() == 0,
            r.data() == val,
    {
        RwLock { state: 0, data: val }
    }

    /// Counts a reader. It holds the lock if no writer has claimed it; else it has to take itself
    /// back.
    pub fn count_reader(&mut self) -> (r: bool)
        requires
            readers(old(self).state()) + 1 < WRITER_BIT,
        ensures
            final(self).state() == old(self).state() + 1,
            final(self).data() == old(self).data(),
            r == !claimed(old(self).state()),
    {
        let s: u64 = self.state;
        self.state = s + 1;
        s < WRITER_BIT
    }

    /// Takes back a reader that found the lock claimed.
    pub fn retreat(&mut self)
        requires
            readers(old(self).state()) > 0,
        ensures
            final(self).state() == old(self).state() - 1,
            final(self).data() == old(self).data(),
    {
        self.state = self.state - 1;
    }

    /// Takes the lock for reading, once no writer has claimed it. Interrupts are then off.
    pub fn read(&mut self, interrupts: &mut bool) -> (r: RwLockReadGuard)
        requires
            !claimed(old(self).state()),
            readers(old(self).state()) + 1 < WRITER_BIT,
        ensures
            final(self).state() == old(self).state() + 1,
            final(self).data() == old(self).data(),
            r.saved() == *old(interrupts),
            !*final(interrupts),
    {
        let saved: bool = *interrupts;
        *interrupts = false;
        let _ = self.count_reader();
        RwLockReadGuard { saved }
    }

    /// Claims the lock for a writer, if no other writer has.
    pub fn claim(&mut self) -> (r: bool)
        ensures
            r == !claimed(old(self).state()),
            final(self).state() == (if r {
                old(self).state() + WRITER_BIT
            } else {
                old(self).state()
            }),
            final(self).data() == old(self).data(),
    {
        if self.state >= WRITER_BIT {
            return false;
        }
        self.state = self.state + WRITER_BIT;
        true
    }

    /// Whether the readers have left.
    pub fn readers_gone(&self) -> (r: bool)
        ensures
            r == (readers(self.state()) == 0),
    {
        self.state % WRITER_BIT == 0
    }

    /// Takes the lock for writing, once no other writer has claimed it and the readers have left.
    /// Interrupts are then off.
    pub fn write(&mut self, interrupts: &mut bool) -> (r: RwLockWriteGuard)
        requires
            old(self).state() == 0,
        ensures
            final(self).state() == WRITER_BIT,
            final(self).data() == old(self).data(),
            r.saved() == *old(interrupts),
            !*final(interrupts),
    {
        let saved: bool = *interrupts;
        *interrupts = false;
        let _ = self.claim();
        RwLockWriteGuard { saved }
    }

    /// Reads the value, for a reader that holds the lock.
    pub fn get(&self, guard: &RwLockReadGuard) -> (r: &T)
        requires
            readers(self.state()) > 0,
        ensures
            *r == self.data(),
    {
        &self.data
    }

    /// Changes the value, for the writer that holds the lock.
    pub fn set(&mut self, guard: &RwLockWriteGuard, val: T)
        requires
            claimed(old(self).state()),
        ensures
            final(self).state() == old(self).state(),
            final(self).data() == val,
    {
        self.data = val;
    }

    /// A reader leaves; interrupts are as they were before it took the lock.
    pub fn read_unlock(&mut self, guard: RwLockReadGuard, interrupts: &mut bool)
        requires
            readers(old(self).state()) > 0,
        ensures
            final(self).state() == old(self).state() - 1,
            final(self).data() == old(self).data(),
            *final(interrupts) == guard.saved(),
    {
        self.state = self.state - 1;
        *interrupts = guard.saved;
    }

    /// The writer leaves, which gives up its claim; interrupts are as they were before it took the
    /// lock.
    pub fn write_unlock(&mut self, guard: RwLockWriteGuard, interrupts: &mut bool)
        requires
            claimed(old(self).state()),
        ensures
            final(self).state() == readers(old(self).state()),
            final(self).data() == old(self).data(),
            *final(interrupts) == guard.saved(),
    {
        self.state = self.state - WRITER_BIT;
        *interrupts = guard.saved;
    }
}

/// The word, and what the processors are about.
pub struct Parties {
    pub state: int,
    /// Number of readers that hold the lock.
    pub reading: nat,
    /// Number of readers that found the lock claimed and have not taken themselves back.
    pub retreating: nat,
    /// A writer has claimed the lock.
    pub claimed: bool,
    /// The writer holds the lock.
    pub writing: bool,
}

/// The word says what the processors are about, and a writer holds the lock alone.
pub open spec fn agreed(p: Parties) -> bool {
    &&& p.state == p.reading + p.retreating + (if p.claimed {
        WRITER_BIT as int
    } else {
        0
    })
    &&& p.reading + p.retreating < WRITER_BIT
    &&& p.writing ==> p.claimed && p.reading == 0
}

/// A step of a processor.
pub enum Step {
    /// A reader is counted.
    Read,
    /// A reader that found the lock claimed takes itself back.
    Retreat,
    /// A reader leaves.
    ReadUnlock,
    /// A writer claims the lock.
    Claim,
    /// The writer sees whether the readers have left.
    Write,
    /// The writer leaves.
    WriteUnlock,
}

/// The step can be taken.
pub open spec fn can_take(p: Parties, s: Step) -> bool {
    match s {
        Step::Read => p.reading + p.retreating + 1 < WRITER_BIT,
        Step::Retreat => p.retreating > 0,
        Step::ReadUnlock => p.reading > 0,
        Step::Claim => true,
        Step::Write => p.claimed && !p.writing,
        Step::WriteUnlock => p.writing,
    }
}

/// The parties after the step.
pub open spec fn taken(p: Parties, s: Step) -> Parties {
    match s {
        Step::Read => if claimed(p.state) {
            Parties { state: p.state + 1, retreating: p.retreating + 1, ..p }
        } else {
            Parties { state: p.state + 1, reading: p.reading + 1, ..p }
        },
        Step::Retreat => Parties {
            state: p.state - 1,
            retreating: (p.retreating - 1) as nat,
            ..p
        },
        Step::ReadUnlock => Parties { state: p.state - 1, reading: (p.reading - 1) as nat, ..p },
        Step::Claim => if claimed(p.state) {
            p
        } else {
            Parties { state: p.state + WRITER_BIT, claimed: true, ..p }
        },
        Step::Write => if readers(p.state) == 0 {
            Parties { writing: true, ..p }
        } else {
            p
        },
        Step::WriteUnlock => Parties {
            state: readers(p.state),
            claimed: false,
            writing: false,
            ..p
        },
    }
}

/// However the steps mix, a writer never holds the lock together with a reader, and the word stays
/// in step with what the processors are about.
pub proof fn law_writer_alone(p: Parties, s: Step)
    requires
        agreed(p),
        can_take(p, s),
    ensures
        agreed(taken(p, s)),
{
    assert(claimed(p.state) == p.claimed);
    if p.claimed {
        assert(readers(p.state) == p.reading + p.retreating) by {
            let n = (p.reading + p.retreating) as int;
            assert((n + WRITER_BIT) % (WRITER_BIT as int) == n) by (nonlinear_arith)
                requires
                    0 <= n < WRITER_BIT,
            ;
        }
    }
}

/// A writer that has claimed the lock keeps new readers out, so that it gets its turn.
pub proof fn law_writer_first(p: Parties)
    requires
        agreed(p),
        p.claimed,
        can_take(p, Step::Read),
    ensures
        taken(p, Step::Read).reading == p.reading,
{
}

/// What each step does to the word: a reader counts one up and down, a writer sets and clears the
/// highest bit.
pub proof fn law_steps_on_word(p: Parties)
    requires
        agreed(p),
        p.state >= 0,
    ensures
        taken(p, Step::Read).state == p.state + 1,
        taken(p, Step::Retreat).state == p.state - 1,
        taken(p, Step::ReadUnlock).state == p.state - 1,
        p.claimed ==> taken(p, Step::Claim) == p,
        !p.claimed ==> taken(p, Step::Claim).state == p.state + 0x8000_0000_0000_0000 && taken(
            p,
            Step::Claim,
        ).claimed,
        p.claimed ==> taken(p, Step::WriteUnlock).state == p.state - 0x8000_0000_0000_0000,
        taken(p, Step::Write).state == p.state,
        p.claimed ==> taken(p, Step::Write).writing == (p.writing || p.reading + p.retreating == 0),
{
    let n = (p.reading + p.retreating) as int;
    assert(claimed(p.state) == p.claimed);
    if p.claimed {
        assert((n + WRITER_BIT) % (WRITER_BIT as int) == n) by (nonlinear_arith)
            requires
                0 <= n < WRITER_BIT,
        ;
    }
}

/// A reader that comes and goes leaves the word as it was, and so does a writer.
pub proof fn law_leaving_undoes_taking(p: Parties)
    requires
        agreed(p),
    ensures
        !p.claimed && can_take(p, Step::Read) ==> taken(taken(p, Step::Read), Step::ReadUnlock) == p,
        p.claimed && can_take(p, Step::Read) ==> taken(taken(p, Step::Read), Step::Retreat) == p,
        !p.claimed && p.state == 0 && !p.writing ==> taken(
            taken(taken(p, Step::Claim), Step::Write),
            Step::WriteUnlock,
        ) == p,
{
    assert(claimed(p.state) == p.claimed);
    if p.state == 0 {
        assert((0 + WRITER_BIT) % (WRITER_BIT as int) == 0) by (nonlinear_arith);
    }
}

} // verus!
