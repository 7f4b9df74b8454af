//! Duplicate suppression for reliable frames.
//!
//! Each reliable frame carries a 24-bit reliable index. A sliding window
//! records which indices have been seen: indices behind the window's base
//! count as seen, indices inside it have a recorded bit, and an index beyond
//! its end slides the window forward, forgetting the oldest slots. A frame is
//! delivered only when its index was not seen before, so replaying one frame
//! delivers it exactly once.

use vstd::prelude::*;

verus! {

/// Window size in slots.
pub const DUP_WINDOW: usize = 2048;

/// Wrapping distance from `base` up to `idx` in the 24-bit space.
pub open spec fn dup_dist(base: u32, idx: u32) -> int {
    ((idx % 0x1000000) + 0x1000000 - (base % 0x1000000)) % 0x1000000
}

/// Whether `idx` counts as already seen: behind the base (more than half the
/// space ahead reads as behind), or marked inside the window.
pub open spec fn spec_is_seen(base: u32, seen: Seq<bool>, idx: u32) -> bool {
    let d = dup_dist(base, idx);
    if d >= 0x800000 {
        true
    } else if d < seen.len() {
        seen[d]
    } else {
        false
    }
}

/// The window after recording `idx`: inside the window the bit is set; beyond
/// it the window slides so `idx` lands on the last slot, the slid-out slots
/// are forgotten and the fresh slots start clear.
pub open spec fn spec_mark(base: u32, seen: Seq<bool>, idx: u32) -> (u32, Seq<bool>) {
    let d = dup_dist(base, idx);
    if d >= 0x800000 {
        (base, seen)
    } else if d < seen.len() {
        (base, seen.update(d, true))
    } else {
        let shift = d - seen.len() + 1;
        let base2 = ((base % 0x1000000 + shift) % 0x1000000) as u32;
        let kept = if shift >= seen.len() {
            Seq::new(seen.len(), |k: int| false)
        } else {
            seen.skip(shift) + Seq::new(shift as nat, |k: int| false)
        };
        (base2, kept.update(seen.len() - 1, true))
    }
}

/// Recording an index makes it read as seen.
pub proof fn lemma_mark_seen(base: u32, seen: Seq<bool>, idx: u32)
    requires
        base < 0x1000000,
        seen.len() == DUP_WINDOW,
    ensures
        ({
            let (b2, s2) = spec_mark(base, seen, idx);
            spec_is_seen(b2, s2, idx)
        }),
{
    let d = dup_dist(base, idx);
    let (b2, s2) = spec_mark(base, seen, idx);
    if d >= 0x800000 {
    } else if d < seen.len() {
        assert(s2[d]);
    } else {
        let shift = d - seen.len() + 1;
        assert(b2 == (base + shift) % 0x1000000);
        assert(dup_dist(b2, idx) == seen.len() - 1) by {
            assert(((idx % 0x1000000) + 0x1000000 - (base + shift) % 0x1000000) % 0x1000000 == (
            d - shift) % 0x1000000) by (nonlinear_arith)
                requires
                    base < 0x1000000,
                    d == ((idx % 0x1000000) + 0x1000000 - base) % 0x1000000,
                    0 <= shift < 0x1000000,
                    d >= shift;
            assert((d - shift) % 0x1000000 == seen.len() - 1);
        }
        assert(s2[seen.len() - 1]);
    }
}

/// Recording an index that already reads as seen leaves the window unchanged.
pub proof fn lemma_mark_idempotent(base: u32, seen: Seq<bool>, idx: u32)
    requires
        base < 0x1000000,
        seen.len() == DUP_WINDOW,
        spec_is_seen(base, seen, idx),
    ensures
        spec_mark(base, seen, idx) == (base, seen),
{
    let d = dup_dist(base, idx);
    if d >= 0x800000 {
    } else {
        assert(d < seen.len());
        assert(seen[d]);
        assert(seen.update(d, true) =~= seen);
    }
}

/// The duplicate filter: a base index and one bit per window slot.
pub struct DuplicateWindow {
    pub base: u32,
    pub seen: Vec<bool>,
}

impl DuplicateWindow {
    pub open spec fn wf(self) -> bool {
        &&& self.base < 0x1000000
        &&& self.seen@.len() == DUP_WINDOW
    }

    pub fn new() -> (r: DuplicateWindow)
        ensures
            r.wf(),
            r.base == 0,
            forall|k: int| 0 <= k < r.seen@.len() ==> !(#[trigger] r.seen@[k]),
    {
        let mut seen: Vec<bool> = Vec::new();
        let mut k: usize = 0;
        while k < DUP_WINDOW
            invariant
                k <= DUP_WINDOW,
                seen@.len() == k,
                forall|q: int| 0 <= q < seen@.len() ==> !(#[trigger] seen@[q]),
            decreases DUP_WINDOW - k,
        {
            seen.push(false);
            k = k + 1;
        }
        DuplicateWindow { base: 0, seen }
    }

    /// Tests whether `idx` is fresh and records it. Returns true exactly when
    /// the index had not been seen; afterwards the index reads as seen, so a
    /// replay of the same index returns false.
    pub fn check_and_mark(&mut self, idx: u32) -> (r: bool)
        requires
            old(self).wf(),
            idx < 0x1000000,
        ensures
            final(self).wf(),
            r == !spec_is_seen(old(self).base, old(self).seen@, idx),
            (final(self).base, final(self).seen@) == spec_mark(old(self).base, old(self).seen@, idx),
            spec_is_seen(final(self).base, final(self).seen@, idx),
    {
        proof {
            lemma_mark_seen(self.base, self.seen@, idx);
        }
        let d = ((idx % 0x1000000) + 0x1000000 - (self.base % 0x1000000)) % 0x1000000;
        let du = d as usize;
        if d >= 0x800000 {
            return false;
        }
        if du < self.seen.len() {
            let was = self.seen[du];
            let removed = self.seen.remove(du);
            self.seen.insert(du, true);
            proof {
                assert(self.seen@ =~= old(self).seen@.update(d as int, true));
            }
            return !was;
        }
        let shift = du - DUP_WINDOW + 1;
        let ghost target = spec_mark(old(self).base, old(self).seen@, idx).1;
        let mut fresh: Vec<bool> = Vec::new();
        let mut q: usize = 0;
        while q < DUP_WINDOW
            invariant
                q <= DUP_WINDOW,
                fresh@.len() == q,
                self.seen@ == old(self).seen@,
                old(self).seen@.len() == DUP_WINDOW,
                shift == dup_dist(old(self).base, idx) - DUP_WINDOW + 1,
                DUP_WINDOW <= dup_dist(old(self).base, idx) < 0x800000,
                target == spec_mark(old(self).base, old(self).seen@, idx).1,
                forall|w: int| 0 <= w < q ==> fresh@[w] == target[w],
            decreases DUP_WINDOW - q,
        {
            let val: bool = if q == DUP_WINDOW - 1 {
                true
            } else if shift < DUP_WINDOW && q + shift < DUP_WINDOW {
                self.seen[q + shift]
            } else {
                false
            };
            proof {
                assert(val == target[q as int]);
            }
            fresh.push(val);
            q = q + 1;
        }
        self.seen = fresh;
        proof {
            assert(self.seen@ =~= target);
        }
        self.base = ((self.base % 0x1000000) + (shift as u32)) % 0x1000000;
        true
    }
}

} // verus!
