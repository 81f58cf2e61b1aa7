//! The register frame that a trap saves on the stack of the interrupted task.
use vstd::prelude::*;
use crate::memory::phys::PhysMem;

verus! {

/// Size of a frame in bytes.
pub const FRAME_SIZE: u64 = 264;

/// Offset of the saved stack pointer.
pub const FRAME_OFF_SP: u64 = 8;

/// Offset of the first argument register.
pub const FRAME_OFF_A0: u64 = 72;

/// Offset of the saved program counter.
pub const FRAME_OFF_SEPC: u64 = 248;

/// Offset of the saved status register.
pub const FRAME_OFF_SSTATUS: u64 = 256;

/// `sstatus.SPIE`: interrupts are enabled after the return.
pub const SSTATUS_SPIE: u64 = 32;

/// `sstatus.SPP`: the return goes to supervisor mode.
pub const SSTATUS_SPP: u64 = 256;

/// The registers of a task, in the order in which they lie in memory.
#[derive(Clone, Copy, PartialEq, Eq, Structural)]
pub struct TrapFrame {
    pub ra: u64,
    pub sp: u64,
    pub gp: u64,
    pub tp: u64,
    pub t0: u64,
    pub t1: u64,
    pub t2: u64,
    pub s0: u64,
    pub s1: u64,
    pub a0: u64,
    pub a1: u64,
    pub a2: u64,
    pub a3: u64,
    pub a4: u64,
    pub a5: u64,
    pub a6: u64,
    pub a7: u64,
    pub s2: u64,
    pub s3: u64,
    pub s4: u64,
    pub s5: u64,
    pub s6: u64,
    pub s7: u64,
    pub s8: u64,
    pub s9: u64,
    pub s10: u64,
    pub s11: u64,
    pub t3: u64,
    pub t4: u64,
    pub t5: u64,
    pub t6: u64,
    pub sepc: u64,
    pub sstatus: u64,
}

/// The words of a fresh frame: stack pointer, program counter and status register are set, every
/// other register is zero.
pub open spec fn fresh_words(sp: u64, sepc: u64, sstatus: u64) -> Seq<u64> {
    Seq::new(
        33,
        |i: int|
            if i == 1 {
                sp
            } else if i == 31 {
                sepc
            } else if i == 32 {
                sstatus
            } else {
                0
            },
    )
}

/// The words of a frame.
pub open spec fn frame_words(f: TrapFrame) -> Seq<u64> {
    seq![
        f.ra,
        f.sp,
        f.gp,
        f.tp,
        f.t0,
        f.t1,
        f.t2,
        f.s0,
        f.s1,
        f.a0,
        f.a1,
        f.a2,
        f.a3,
        f.a4,
        f.a5,
        f.a6,
        f.a7,
        f.s2,
        f.s3,
        f.s4,
        f.s5,
        f.s6,
        f.s7,
        f.s8,
        f.s9,
        f.s10,
        f.s11,
        f.t3,
        f.t4,
        f.t5,
        f.t6,
        f.sepc,
        f.sstatus,
    ]
}

/// `m` with the words `ws` from address `at` on.
pub open spec fn with_words(m: Map<int, u64>, at: int, ws: Seq<u64>) -> Map<int, u64>
    decreases ws.len(),
{
    if ws.len() == 0 {
        m
    } else {
        with_words(m, at, ws.drop_last()).insert(at + 8 * (ws.len() - 1), ws.last())
    }
}

/// The memory has the words of a frame at `at`.
pub open spec fn has_frame_slot(m: Map<int, u64>, at: int) -> bool {
    &&& at % 8 == 0
    &&& forall|i: int| 0 <= i < 33 ==> #[trigger] m.contains_key(at + 8 * i)
}

/// What `with_words` holds.
pub proof fn lemma_with_words(m: Map<int, u64>, at: int, ws: Seq<u64>)
    requires
        at % 8 == 0,
        forall|i: int| 0 <= i < ws.len() ==> #[trigger] m.contains_key(at + 8 * i),
    ensures
        with_words(m, at, ws).dom() == m.dom(),
        forall|i: int|
            0 <= i < ws.len() ==> #[trigger] with_words(m, at, ws)[at + 8 * i] == ws[i],
        forall|a: int|
            a < at || a >= at + 8 * ws.len() ==> #[trigger] with_words(m, at, ws)[a] == m[a],
    decreases ws.len(),
{
    if ws.len() > 0 {
        lemma_with_words(m, at, ws.drop_last());
        let n = ws.len() - 1;
        assert(m.contains_key(at + 8 * n));
        let before = with_words(m, at, ws.drop_last());
        let after = with_words(m, at, ws);
        assert(after.dom() =~= m.dom());
        assert forall|i: int| 0 <= i < ws.len() implies #[trigger] after[at + 8 * i] == ws[i] by {
            if i < n {
                assert(before[at + 8 * i] == ws[i]);
            }
        }
        assert forall|a: int| a < at || a >= at + 8 * ws.len() implies #[trigger] after[a]
            == m[a] by {
            assert(before[a] == m[a]);
        }
    }
}

impl TrapFrame {
    /// A frame with the given stack pointer, program counter and status register; every other
    /// register is zero.
    pub fn fresh(sp: u64, sepc: u64, sstatus: u64) -> (f: TrapFrame)
        ensures
            frame_words(f) == fresh_words(sp, sepc, sstatus),
            f.sp == sp,
            f.sepc == sepc,
            f.sstatus == sstatus,
    {
        let f: TrapFrame = TrapFrame {
            ra: 0,
            sp,
            gp: 0,
            tp: 0,
            t0: 0,
            t1: 0,
            t2: 0,
            s0: 0,
            s1: 0,
            a0: 0,
            a1: 0,
            a2: 0,
            a3: 0,
            a4: 0,
            a5: 0,
            a6: 0,
            a7: 0,
            s2: 0,
            s3: 0,
            s4: 0,
            s5: 0,
            s6: 0,
            s7: 0,
            s8: 0,
            s9: 0,
            s10: 0,
            s11: 0,
            t3: 0,
            t4: 0,
            t5: 0,
            t6: 0,
            sepc,
            sstatus,
        };
        assert(frame_words(f) =~= fresh_words(sp, sepc, sstatus));
        f
    }

    /// The words of the frame.
    pub fn words(&self) -> (r: Vec<u64>)
        ensures
            r@ == frame_words(*self),
    {
        let mut r: Vec<u64> = Vec::new();
        r.push(self.ra);
        r.push(self.sp);
        r.push(self.gp);
        r.push(self.tp);
        r.push(self.t0);
        r.push(self.t1);
        r.push(self.t2);
        r.push(self.s0);
        r.push(self.s1);
        r.push(self.a0);
        r.push(self.a1);
        r.push(self.a2);
        r.push(self.a3);
        r.push(self.a4);
        r.push(self.a5);
        r.push(self.a6);
        r.push(self.a7);
        r.push(self.s2);
        r.push(self.s3);
        r.push(self.s4);
        r.push(self.s5);
        r.push(self.s6);
        r.push(self.s7);
        r.push(self.s8);
        r.push(self.s9);
        r.push(self.s10);
        r.push(self.s11);
        r.push(self.t3);
        r.push(self.t4);
        r.push(self.t5);
        r.push(self.t6);
        r.push(self.sepc);
        r.push(self.sstatus);
        assert(r@ =~= frame_words(*self));
        r
    }

    /// Writes the frame to the memory at `at`.
    pub fn store(&self, mem: &mut PhysMem, at: u64)
        requires
            old(mem).wf(),
            has_frame_slot(old(mem)@, at as int),
            at + 264 <= u64::MAX,
        ensures
            final(mem).wf(),
            final(mem).start() == old(mem).start(),
            final(mem).end() == old(mem).end(),
            final(mem)@ == with_words(old(mem)@, at as int, frame_words(*self)),
            final(mem)@.dom() == old(mem)@.dom(),
    {
        let ws: Vec<u64> = self.words();
        let ghost all = ws@;
        let ghost m = mem@;
        let mut i: usize = 0;
        assert(all.subrange(0, 0).len() == 0);
        while i < 33
            invariant
                i <= 33,
                ws@ == all,
                all.len() == 33,
                at + 264 <= u64::MAX,
                m == old(mem)@,
                has_frame_slot(m, at as int),
                mem.wf(),
                mem.start() == old(mem).start(),
                mem.end() == old(mem).end(),
                mem@.dom() == m.dom(),
                mem@ == with_words(m, at as int, all.subrange(0, i as int)),
            decreases 33 - i,
        {
            assert(m.contains_key(at + 8 * (i as int)));
            mem.write_word(at + 8 * (i as u64), ws[i]);
            proof {
                let next = all.subrange(0, i + 1);
                assert(next.drop_last() =~= all.subrange(0, i as int));
                assert(mem@.dom() =~= m.dom());
            }
            i += 1;
        }
        assert(all.subrange(0, 33) =~= all);
    }
}

/// Where the registers lie in a frame: register `x1` first, one word each up to `x31`, and behind them
/// the program counter and the status register.
pub proof fn law_frame_layout(f: TrapFrame)
    ensures
        ({
            let w = frame_words(f);
            &&& w.len() == 33
            &&& w[0] == f.ra && w[1] == f.sp && w[2] == f.gp && w[3] == f.tp
            &&& w[4] == f.t0 && w[5] == f.t1 && w[6] == f.t2
            &&& w[7] == f.s0 && w[8] == f.s1
            &&& w[9] == f.a0 && w[10] == f.a1 && w[11] == f.a2 && w[12] == f.a3
            &&& w[13] == f.a4 && w[14] == f.a5 && w[15] == f.a6 && w[16] == f.a7
            &&& w[17] == f.s2 && w[18] == f.s3 && w[19] == f.s4 && w[20] == f.s5 && w[21] == f.s6
            &&& w[22] == f.s7 && w[23] == f.s8 && w[24] == f.s9 && w[25] == f.s10 && w[26] == f.s11
            &&& w[27] == f.t3 && w[28] == f.t4 && w[29] == f.t5 && w[30] == f.t6
            &&& w[31] == f.sepc && w[32] == f.sstatus
        }),
{
}

/// A fresh frame has the stack pointer in the second word, the program counter and the status register
/// in the last two, and zero everywhere else.
pub proof fn law_fresh_frame(sp: u64, sepc: u64, sstatus: u64, i: int)
    requires
        0 <= i < 33,
    ensures
        fresh_words(sp, sepc, sstatus).len() == 33,
        fresh_words(sp, sepc, sstatus)[1] == sp,
        fresh_words(sp, sepc, sstatus)[31] == sepc,
        fresh_words(sp, sepc, sstatus)[32] == sstatus,
        i != 1 && i != 31 && i != 32 ==> fresh_words(sp, sepc, sstatus)[i] == 0,
{
}

/// Storing words writes each of them to its place, one behind the other, and nothing else.
pub proof fn law_words_stored(m: Map<int, u64>, at: int, ws: Seq<u64>, i: int, a: int)
    requires
        a < at || a >= at + 8 * ws.len() || (a - at) % 8 != 0,
    ensures
        0 <= i < ws.len() ==> with_words(m, at, ws)[at + 8 * i] == ws[i],
        with_words(m, at, ws)[a] == m[a],
    decreases ws.len(),
{
    if ws.len() > 0 {
        let front = ws.drop_last();
        law_words_stored(m, at, front, i, a);
    }
}

} // verus!
