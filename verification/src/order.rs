//! Per-channel ordered delivery.
//!
//! Each of the sixteen ordering channels releases payloads in the order of
//! their 24-bit ordering indices: the payload with the expected index goes
//! out at once, together with every consecutively following payload waiting
//! in the channel; payloads ahead of the expected index wait; payloads behind
//! it are stale repeats and are dropped.

use vstd::prelude::*;

use crate::sequence::seq_after;

verus! {

/// Number of ordering channels a session owns.
pub const ORDERING_CHANNEL_COUNT: usize = 16;

/// Most payloads one channel will hold ahead of the expected index; further
/// out-of-order arrivals are dropped and repaired by retransmission.
pub const ORDER_BACKLOG_CAP: usize = 0x10000;

/// `a + k` in the 24-bit wrapping space.
pub open spec fn wrap_add(a: u32, k: int) -> u32 {
    (((a % 0x1000000) + (k % 0x1000000) + 0x1000000) % 0x1000000) as u32
}

/// One ordering channel: the next index owed to the application and the
/// payloads that arrived ahead of it.
pub struct OrderingChannel {
    pub expected: u32,
    pub pending: Vec<(u32, Vec<u8>)>,
}

/// Whether some pending entry carries the index.
pub open spec fn has_key(s: Seq<(u32, Vec<u8>)>, idx: u32) -> bool {
    exists|k: int| 0 <= k < s.len() && (#[trigger] s[k]).0 == idx
}

/// The payload stored under the index.
pub open spec fn key_payload(s: Seq<(u32, Vec<u8>)>, idx: u32) -> Seq<u8> {
    s[choose|k: int| 0 <= k < s.len() && (#[trigger] s[k]).0 == idx].1@
}

impl OrderingChannel {
    /// Indices are 24-bit, unique, and strictly ahead of the expected one.
    pub open spec fn wf(self) -> bool {
        &&& self.expected < 0x1000000
        &&& self.pending@.len() <= ORDER_BACKLOG_CAP
        &&& forall|k: int|
            0 <= k < self.pending@.len() ==> (#[trigger] self.pending@[k]).0 < 0x1000000
                && seq_after(self.pending@[k].0, self.expected)
        &&& forall|k1: int, k2: int|
            0 <= k1 < k2 < self.pending@.len() ==> (#[trigger] self.pending@[k1]).0 != (
            #[trigger] self.pending@[k2]).0
    }

    pub fn new() -> (r: OrderingChannel)
        ensures
            r.wf(),
            r.expected == 0,
            r.pending@.len() == 0,
    {
        OrderingChannel { expected: 0, pending: Vec::new() }
    }
}


/// Wrapping distance from `b` up to `a`.
pub open spec fn wrap_dist(a: u32, b: u32) -> int {
    ((a % 0x1000000) + 0x1000000 - (b % 0x1000000)) % 0x1000000
}

/// Stepping the reference forward by one shortens the distance by one, for
/// any value strictly after the reference.
proof fn lemma_dist_step(a: u32, b: u32)
    requires
        a < 0x1000000,
        b < 0x1000000,
        wrap_dist(a, b) > 0,
    ensures
        wrap_dist(a, ((b + 1) % 0x1000000) as u32) == wrap_dist(a, b) - 1,
{
    let m = 0x1000000;
    assert((a + m - (b + 1) % m) % m == ((a + m - b) % m + m - 1) % m) by (nonlinear_arith)
        requires a < m, b < m, m == 0x1000000;
    assert(((a + m - b) % m + m - 1) % m == (a + m - b) % m - 1) by (nonlinear_arith)
        requires a < m, b < m, m == 0x1000000, (a + m - b) % m > 0;
}

impl OrderingChannel {
    /// Index of the pending entry with the given key, if any.
    fn find(&self, idx: u32) -> (r: Option<usize>)
        ensures
            match r {
                Some(j) => j < self.pending@.len() && self.pending@[j as int].0 == idx,
                None => !has_key(self.pending@, idx),
            },
    {
        let mut k: usize = 0;
        while k < self.pending.len()
            invariant
                k <= self.pending@.len(),
                forall|q: int| 0 <= q < k ==> (#[trigger] self.pending@[q]).0 != idx,
            decreases self.pending@.len() - k,
        {
            if self.pending[k].0 == idx {
                return Some(k);
            }
            k = k + 1;
        }
        None
    }

    /// Feeds one ordered payload in and returns everything now releasable, in
    /// index order. The expected index is released first, followed by every
    /// consecutively indexed payload that was waiting; an index ahead of the
    /// expected one waits (repeats of a waiting index are dropped); an index
    /// behind it is a stale repeat and is dropped.
    #[verifier::rlimit(100)]
    pub fn push(&mut self, idx: u32, payload: Vec<u8>) -> (r: Vec<Vec<u8>>)
        requires
            old(self).wf(),
            idx < 0x1000000,
        ensures
            final(self).wf(),
            (!seq_after(idx, old(self).expected) && idx != old(self).expected) ==> (r@.len() == 0
                && final(self).expected == old(self).expected && final(self).pending@ == old(
                self,
            ).pending@),
            seq_after(idx, old(self).expected) ==> (r@.len() == 0 && final(self).expected == old(
                self,
            ).expected && (if has_key(old(self).pending@, idx) || old(self).pending@.len()
                >= ORDER_BACKLOG_CAP {
                final(self).pending@ == old(self).pending@
            } else {
                final(self).pending@ == old(self).pending@.push((idx, payload))
            })),
            idx == old(self).expected ==> {
                &&& 1 <= r@.len() <= old(self).pending@.len() + 1
                &&& r@[0]@ == payload@
                &&& final(self).expected == wrap_add(old(self).expected, r@.len() as int)
                &&& forall|k: int|
                    1 <= k < r@.len() ==> has_key(
                        old(self).pending@,
                        #[trigger] wrap_add(old(self).expected, k),
                    ) && r@[k]@ == key_payload(
                        old(self).pending@,
                        wrap_add(old(self).expected, k),
                    )
                &&& !has_key(final(self).pending@, final(self).expected)
                &&& forall|k: int|
                    0 <= k < final(self).pending@.len() ==> has_key(
                        old(self).pending@,
                        (#[trigger] final(self).pending@[k]).0,
                    )
            },
    {
        let mut r: Vec<Vec<u8>> = Vec::new();
        if idx == self.expected {
            let ghost e0 = old(self).expected;
            let ghost p0s = old(self).pending@;
            let ghost pv = payload@;
            r.push(payload);
            self.expected = (self.expected + 1) % 0x1000000;
            proof {
                lemma_wrap_add_zero(e0);
                lemma_wrap_add_step(e0, 0);
                assert(self.expected == wrap_add(e0, 1));
                lemma_key_payload_identity(p0s);
                assert forall|q: int| 0 <= q < self.pending@.len() implies (
                #[trigger] self.pending@[q]).0 == self.expected || seq_after(
                    self.pending@[q].0,
                    self.expected,
                ) by {
                    lemma_dist_step(self.pending@[q].0, e0);
                }
            }
            loop
                invariant
                    self.expected < 0x1000000,
                    e0 < 0x1000000,
                    1 <= r@.len(),
                    r@[0]@ == pv,
                    self.expected == wrap_add(e0, r@.len() as int),
                    forall|k: int|
                        1 <= k < r@.len() ==> has_key(p0s, #[trigger] wrap_add(e0, k)) && r@[k]@
                            == key_payload(p0s, wrap_add(e0, k)),
                    forall|q: int|
                        0 <= q < self.pending@.len() ==> has_key(
                            p0s,
                            (#[trigger] self.pending@[q]).0,
                        ) && self.pending@[q].1@ == key_payload(p0s, self.pending@[q].0)
                            && self.pending@[q].0 < 0x1000000,
                    forall|q: int|
                        0 <= q < self.pending@.len() ==> ((#[trigger] self.pending@[q]).0
                            == self.expected || seq_after(self.pending@[q].0, self.expected)),
                    forall|q1: int, q2: int|
                        0 <= q1 < q2 < self.pending@.len() ==> (#[trigger] self.pending@[q1]).0
                            != (#[trigger] self.pending@[q2]).0,
                    self.pending@.len() + r@.len() <= p0s.len() + 1,
                    p0s.len() <= ORDER_BACKLOG_CAP,
                ensures
                    !has_key(self.pending@, self.expected),
                    self.expected < 0x1000000,
                    1 <= r@.len(),
                    r@[0]@ == pv,
                    self.expected == wrap_add(e0, r@.len() as int),
                    forall|k: int|
                        1 <= k < r@.len() ==> has_key(p0s, #[trigger] wrap_add(e0, k)) && r@[k]@
                            == key_payload(p0s, wrap_add(e0, k)),
                    forall|q: int|
                        0 <= q < self.pending@.len() ==> has_key(
                            p0s,
                            (#[trigger] self.pending@[q]).0,
                        ) && self.pending@[q].0 < 0x1000000,
                    forall|q: int|
                        0 <= q < self.pending@.len() ==> seq_after(
                            (#[trigger] self.pending@[q]).0,
                            self.expected,
                        ),
                    forall|q1: int, q2: int|
                        0 <= q1 < q2 < self.pending@.len() ==> (#[trigger] self.pending@[q1]).0
                            != (#[trigger] self.pending@[q2]).0,
                decreases self.pending@.len(),
            {
                let j = match self.find(self.expected) {
                    None => {
                        proof {
                            assert forall|q: int|
                                0 <= q < self.pending@.len() implies seq_after(
                                (#[trigger] self.pending@[q]).0,
                                self.expected,
                            ) by {
                                if self.pending@[q].0 == self.expected {
                                    assert(has_key(self.pending@, self.expected));
                                }
                            }
                        }
                        break;
                    },
                    Some(j) => j,
                };
                let ghost pend_before = self.pending@;
                proof {
                    assert(has_key(p0s, pend_before[j as int].0) && pend_before[j as int].1@
                        == key_payload(p0s, pend_before[j as int].0));
                }
                let (key, pl) = self.pending.remove(j);
                proof {
                    assert(key == self.expected);
                    assert(has_key(p0s, key) && pl@ == key_payload(p0s, key));
                    assert forall|q: int|
                        0 <= q < self.pending@.len() implies (#[trigger] self.pending@[q]).0
                        != key by {
                        if q < j {
                            assert(self.pending@[q] == pend_before[q]);
                        } else {
                            assert(self.pending@[q] == pend_before[q + 1]);
                        }
                    }
                }
                let ghost r_before = r@;
                r.push(pl);
                let ghost exp_before = self.expected;
                self.expected = (self.expected + 1) % 0x1000000;
                proof {
                    assert(r@[r@.len() - 1]@ == key_payload(p0s, wrap_add(e0, r@.len() - 1)));
                    assert(forall|k: int|
                        0 <= k < r_before.len() ==> #[trigger] r@[k] == r_before[k]);
                    lemma_wrap_add_step(e0, r@.len() - 1);
                    assert forall|q: int| 0 <= q < self.pending@.len() implies (
                    #[trigger] self.pending@[q]).0 == self.expected || seq_after(
                        self.pending@[q].0,
                        self.expected,
                    ) by {
                        lemma_dist_step(self.pending@[q].0, exp_before);
                    }
                }
            }
            r
        } else if self.after_expected(idx) {
            if self.pending.len() >= ORDER_BACKLOG_CAP {
                return r;
            }
            match self.find(idx) {
                Some(_) => r,
                None => {
                    self.pending.push((idx, payload));
                    r
                },
            }
        } else {
            r
        }
    }

    /// True iff `idx` lies strictly after the expected index.
    fn after_expected(&self, idx: u32) -> (r: bool)
        requires
            self.expected < 0x1000000,
            idx < 0x1000000,
        ensures
            r == seq_after(idx, self.expected),
    {
        let d = ((idx % 0x1000000) + 0x1000000 - (self.expected % 0x1000000)) % 0x1000000;
        0 < d && d < 0x800000
    }
}

/// A value below the modulus shifted by nothing stays itself.
pub proof fn lemma_wrap_add_zero(a: u32)
    requires
        a < 0x1000000,
    ensures
        wrap_add(a, 0) == a,
{
    assert((a + 0 + 0x1000000) % 0x1000000 == a) by (nonlinear_arith)
        requires a < 0x1000000;
}

/// Shifting one step further advances the wrapped sum by one.
pub proof fn lemma_wrap_add_step(a: u32, k: int)
    requires
        a < 0x1000000,
        0 <= k < 0x1000000,
    ensures
        wrap_add(a, k + 1) == ((wrap_add(a, k) + 1) % 0x1000000) as u32,
{
    let m = 0x1000000;
    if k + 1 < m {
        assert((a + (k + 1) % m + m) % m == ((a + k % m + m) % m + 1) % m) by (nonlinear_arith)
            requires a < m, 0 <= k, k + 1 < m, m == 0x1000000;
    } else {
        assert((a + (k + 1) % m + m) % m == ((a + k % m + m) % m + 1) % m) by (nonlinear_arith)
            requires a < m, k + 1 == m, m == 0x1000000;
    }
}

/// The distance from a point to its shifted image is the shift itself.
pub proof fn lemma_wrap_dist_of_add(e: u32, k: int)
    requires
        e < 0x1000000,
        0 <= k < 0x1000000,
    ensures
        wrap_dist(wrap_add(e, k), e) == k,
{
    let m = 0x1000000;
    assert(((e + k % m + m) % m + m - e) % m == k) by (nonlinear_arith)
        requires e < m, 0 <= k < m, m == 0x1000000;
}

/// With unique keys, looking a stored key up returns that entry's payload.
proof fn lemma_key_payload_identity(s: Seq<(u32, Vec<u8>)>)
    requires
        forall|k1: int, k2: int|
            0 <= k1 < k2 < s.len() ==> (#[trigger] s[k1]).0 != (#[trigger] s[k2]).0,
    ensures
        forall|q: int|
            0 <= q < s.len() ==> key_payload(s, (#[trigger] s[q]).0) == s[q].1@ && has_key(
                s,
                s[q].0,
            ),
{
    assert forall|q: int| 0 <= q < s.len() implies key_payload(s, (#[trigger] s[q]).0) == s[q].1@
        && has_key(s, s[q].0) by {
        assert(0 <= q < s.len() && s[q].0 == s[q].0);
        let w = choose|k: int| 0 <= k < s.len() && (#[trigger] s[k]).0 == s[q].0;
        if w != q {
            if w < q {
                assert(s[w].0 != s[q].0);
            } else {
                assert(s[q].0 != s[w].0);
            }
        }
    }
}

} // verus!
