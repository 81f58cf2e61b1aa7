//! A lock that one processor holds at a time.
use vstd::prelude::*;

verus! {

/// A value behind a lock.
pub struct SpinLock<T> {
    locked: bool,
    data: T,
}

/// Proof that the lock was taken; it is given back to release it. Interrupts are off on the
/// processor that holds it, and the guard remembers whether they were on.
pub struct SpinLockGuard {
    saved: bool,
}

impl SpinLockGuard {
    /// Whether interrupts were on before the lock was taken.
    pub closed spec fn saved(&self) -> bool {
        self.saved
    }
}

impl<T> SpinLock<T> {
    /// The lock is held.
    pub closed spec fn locked(&self) -> bool {
        self.locked
    }

    /// The value.
    pub closed spec fn data(&self) -> T {
        self.data
    }

    /// A value behind a lock that nobody holds.
    pub fn new(val: T) -> (r: SpinLock<T>)
        ensures
            !r.locked(),
            r.data() == val,
    {
        SpinLock { locked: false, data: val }
    }

    /// Takes the lock if nobody holds it. Interrupts are then off; if somebody holds it, they are
    /// as they were. The word is set either way, as an atomic swap does it.
    pub fn try_lock(&mut self, interrupts: &mut bool) -> (r: Option<SpinLockGuard>)
        ensures
            final(self).locked(),
            final(self).data() == old(self).data(),
            r is Some == !old(self).locked(),
            r matches Some(g) ==> g.saved() == *old(interrupts),
            *final(interrupts) == (r is None && *old(interrupts)),
    {
        let saved: bool = *interrupts;
        *interrupts = false;
        let was: bool = self.locked;
        self.locked = true;
        if was {
            *interrupts = saved;
            None
        } else {
            Some(SpinLockGuard { saved })
        }
    }

    /// Takes the lock once nobody holds it.
    pub fn lock(&mut self, interrupts: &mut bool) -> (r: SpinLockGuard)
        requires
            !old(self).locked(),
        ensures
            final(self).locked(),
            final(self).data() == old(self).data(),
            r.saved() == *old(interrupts),
            !*final(interrupts),
    {
        let saved: bool = *interrupts;
        *interrupts = false;
        self.locked = true;
        SpinLockGuard { saved }
    }

    /// Reads the value, for the holder of the lock.
    pub fn get(&self, guard: &SpinLockGuard) -> (r: &T)
        requires
            self.locked(),
        ensures
            *r == self.data(),
    {
        &self.data
    }

    /// Changes the value, for the holder of the lock.
    pub fn set(&mut self, guard: &SpinLockGuard, val: T)
        requires
            old(self).locked(),
        ensures
            final(self).locked(),
            final(self).data() == val,
    {
        self.data = val;
    }

    /// Releases the lock and puts interrupts back as they were before it was taken.
    pub fn unlock(&mut self, guard: SpinLockGuard, interrupts: &mut bool)
        requires
            old(self).locked(),
        ensures
            !final(self).locked(),
            final(self).data() == old(self).data(),
            *final(interrupts) == guard.saved(),
    {
        self.locked = false;
        *interrupts = guard.saved;
    }
}

/// The lock and the processors that hold it.
pub struct Holders {
    pub locked: bool,
    pub held_by: Set<int>,
}

/// The step of a processor that tries to take the lock.
pub open spec fn try_step(s: Holders, hart: int) -> Holders {
    Holders {
        locked: true,
        held_by: if s.locked {
            s.held_by
        } else {
            s.held_by.insert(hart)
        },
    }
}

/// The step of a processor that releases the lock.
pub open spec fn unlock_step(s: Holders, hart: int) -> Holders {
    Holders { locked: false, held_by: s.held_by.remove(hart) }
}

/// The lock is held exactly when a processor holds it, and by one only.
pub open spec fn exclusive(s: Holders) -> bool {
    &&& s.locked ==> exists|h: int| #[trigger] s.held_by.contains(h)
    &&& !s.locked ==> s.held_by == Set::<int>::empty()
    &&& forall|a: int, b: int|
        #![trigger s.held_by.contains(a), s.held_by.contains(b)]
        s.held_by.contains(a) && s.held_by.contains(b) ==> a == b
}

/// However the steps of the processors mix, at most one holds the lock, provided that only a holder
/// releases it.
pub proof fn law_mutual_exclusion(s: Holders, hart: int)
    requires
        exclusive(s),
    ensures
        exclusive(try_step(s, hart)),
        s.held_by.contains(hart) ==> exclusive(unlock_step(s, hart)),
        s.held_by.contains(hart) ==> !unlock_step(s, hart).locked,
{
    let t = try_step(s, hart);
    if s.locked {
        let h = choose|h: int| #[trigger] s.held_by.contains(h);
        assert(t.held_by.contains(h));
    } else {
        assert(t.held_by.contains(hart));
    }
    if s.held_by.contains(hart) {
        let u = unlock_step(s, hart);
        assert(u.held_by =~= Set::<int>::empty());
    }
}

/// A processor gets the lock exactly if nobody holds it, and then holds it alone; releasing it lets the
/// next one in.
pub proof fn law_taken_and_released(s: Holders, hart: int, other: int)
    requires
        exclusive(s),
    ensures
        !s.locked ==> try_step(s, hart).held_by == set![hart],
        s.locked ==> try_step(s, hart).held_by == s.held_by,
        try_step(s, hart).locked,
        s.held_by.contains(hart) ==> try_step(unlock_step(s, hart), other).held_by == set![other],
{
    if !s.locked {
        assert(try_step(s, hart).held_by =~= set![hart]);
    }
    if s.held_by.contains(hart) {
        let u = unlock_step(s, hart);
        assert(u.held_by =~= Set::<int>::empty());
        assert(try_step(u, other).held_by =~= set![other]);
    }
}

} // verus!
