//! Fragmentation of large messages and reassembly of their fragments.
//!
//! A message longer than the per-frame budget is cut into chunks; each chunk
//! travels as one encapsulated packet whose split metadata names the shared
//! split id, the fragment count and the fragment index. The assembler holds
//! the arrived fragments per id and yields the concatenated payload once all
//! slots are filled.

use vstd::prelude::*;

use crate::frame::EncapsulatedPacket;
use crate::reliability::Reliability;
use crate::sequence::Sequence24;

verus! {

/// Most fragments one split message may announce; guards reassembly memory.
pub const MAX_SPLIT_COUNT: u32 = 2048;

/// Entries older than this many milliseconds are dropped at sweep time.
pub const SPLIT_STALE_MS: u64 = 5000;

/// The payload cut into chunks of at most `m` bytes: every chunk but the last
/// is exactly `m` long, and a message that fits gives a single chunk.
pub open spec fn chunks(p: Seq<u8>, m: int) -> Seq<Seq<u8>>
    decreases p.len(),
{
    if p.len() <= m || m <= 0 {
        seq![p]
    } else {
        seq![p.take(m)] + chunks(p.skip(m), m)
    }
}

/// All chunks joined back together, in order.
pub open spec fn concat_seqs(ss: Seq<Seq<u8>>) -> Seq<u8>
    decreases ss.len(),
{
    if ss.len() == 0 {
        Seq::empty()
    } else {
        ss[0] + concat_seqs(ss.drop_first())
    }
}

/// Splitting a payload and joining the chunks yields the payload back,
/// whatever the chunk size.
pub proof fn lemma_split_concat(p: Seq<u8>, m: int)
    requires
        m >= 1,
    ensures
        concat_seqs(chunks(p, m)) == p,
    decreases p.len(),
{
    if p.len() <= m {
        assert(chunks(p, m) == seq![p]);
        assert(seq![p].drop_first() =~= Seq::<Seq<u8>>::empty());
        assert(concat_seqs(seq![p]) == p + concat_seqs(Seq::<Seq<u8>>::empty()));
        assert(concat_seqs(chunks(p, m)) =~= p);
    } else {
        lemma_split_concat(p.skip(m), m);
        let cs = chunks(p, m);
        assert(cs[0] == p.take(m));
        assert(cs.drop_first() =~= chunks(p.skip(m), m));
        assert(concat_seqs(cs) == p.take(m) + concat_seqs(chunks(p.skip(m), m)));
        assert(p.take(m) + p.skip(m) =~= p);
    }
}

/// Number of chunks: one for a fitting payload, else the rounded-up ratio.
pub proof fn lemma_chunks_count(p: Seq<u8>, m: int)
    requires
        m >= 1,
    ensures
        p.len() <= m ==> chunks(p, m).len() == 1,
        p.len() > m ==> chunks(p, m).len() == (p.len() + m - 1) / m,
    decreases p.len(),
{
    if p.len() <= m {
    } else {
        lemma_chunks_count(p.skip(m), m);
        if p.len() - m <= m {
            assert((p.len() + m - 1) / m == 2) by (nonlinear_arith)
                requires m >= 1, m < p.len() <= 2 * m;
        } else {
            assert((p.len() + m - 1) / m == 1 + (p.len() - m + m - 1) / m) by (nonlinear_arith)
                requires m >= 1, p.len() > 2 * m;
        }
    }
}

/// Every chunk is at most `m` bytes long.
pub proof fn lemma_chunks_bound(p: Seq<u8>, m: int)
    requires
        m >= 1,
    ensures
        forall|k: int| 0 <= k < chunks(p, m).len() ==> (#[trigger] chunks(p, m)[k]).len() <= m,
    decreases p.len(),
{
    if p.len() <= m {
    } else {
        lemma_chunks_bound(p.skip(m), m);
        assert forall|k: int| 0 <= k < chunks(p, m).len() implies (#[trigger] chunks(p, m)[k]).len()
            <= m by {
            if k > 0 {
                assert(chunks(p, m)[k] == chunks(p.skip(m), m)[k - 1]);
            }
        }
    }
}

/// There are never more chunks than bytes, plus the one chunk of an empty
/// payload.
pub proof fn lemma_chunks_len_le(p: Seq<u8>, m: int)
    requires
        m >= 1,
    ensures
        chunks(p, m).len() <= p.len() + 1,
    decreases p.len(),
{
    if p.len() <= m {
    } else {
        lemma_chunks_len_le(p.skip(m), m);
    }
}

/// Cuts the payload into chunks of at most `max` bytes.
pub fn split_payload(payload: &Vec<u8>, max: usize) -> (r: Vec<Vec<u8>>)
    requires
        max >= 1,
    ensures
        r@.map_values(|c: Vec<u8>| c@) == chunks(payload@, max as int),
{
    let mut r: Vec<Vec<u8>> = Vec::new();
    let mut off: usize = 0;
    let len = payload.len();
    proof {
        assert(payload@.skip(0) =~= payload@);
        assert(r@.map_values(|c: Vec<u8>| c@) =~= Seq::<Seq<u8>>::empty());
        assert(Seq::<Seq<u8>>::empty() + chunks(payload@, max as int) =~= chunks(
            payload@,
            max as int,
        ));
    }
    while len - off > max
        invariant
            off <= len,
            len == payload@.len(),
            max >= 1,
            chunks(payload@, max as int) == r@.map_values(|c: Vec<u8>| c@) + chunks(
                payload@.skip(off as int),
                max as int,
            ),
        decreases len - off,
    {
        let mut chunk: Vec<u8> = Vec::new();
        let mut k: usize = 0;
        while k < max
            invariant
                k <= max,
                off + max <= len,
                len == payload@.len(),
                chunk@ == payload@.subrange(off as int, off + k),
            decreases max - k,
        {
            chunk.push(payload[off + k]);
            assert(chunk@ =~= payload@.subrange(off as int, off + k + 1));
            k = k + 1;
        }
        proof {
            let rest = payload@.skip(off as int);
            assert(rest.take(max as int) =~= payload@.subrange(off as int, off + max as int));
            assert(rest.skip(max as int) =~= payload@.skip(off + max as int));
            let m = r@.map_values(|c: Vec<u8>| c@);
            assert(chunks(rest, max as int) == seq![rest.take(max as int)] + chunks(
                rest.skip(max as int),
                max as int,
            ));
            assert(r@.push(chunk).map_values(|c: Vec<u8>| c@) =~= m + seq![chunk@]);
            assert((m + seq![chunk@]) + chunks(payload@.skip(off + max as int), max as int) =~= m
                + (seq![chunk@] + chunks(payload@.skip(off + max as int), max as int)));
        }
        r.push(chunk);
        off = off + max;
    }
    let mut chunk: Vec<u8> = Vec::new();
    let mut k: usize = off;
    while k < len
        invariant
            off <= k <= len,
            len == payload@.len(),
            chunk@ == payload@.subrange(off as int, k as int),
        decreases len - k,
    {
        chunk.push(payload[k]);
        assert(chunk@ =~= payload@.subrange(off as int, k as int + 1));
        k = k + 1;
    }
    proof {
        let rest = payload@.skip(off as int);
        assert(rest =~= payload@.subrange(off as int, len as int));
        assert(rest.len() <= max as int);
        assert(chunks(rest, max as int) == seq![rest]);
        let m = r@.map_values(|c: Vec<u8>| c@);
        assert(r@.push(chunk).map_values(|c: Vec<u8>| c@) =~= m + seq![chunk@]);
        assert(m + seq![rest] =~= r@.push(chunk).map_values(|c: Vec<u8>| c@));
    }
    r.push(chunk);
    r
}

/// One split message under reassembly.
pub struct SplitEntry {
    pub id: u16,
    pub count: u32,
    pub received: u32,
    pub slots: Vec<Option<Vec<u8>>>,
    pub first_arrival: u64,
    pub reliability: Reliability,
    pub reliable_index: Option<Sequence24>,
    pub ordering_index: Option<Sequence24>,
    pub ordering_channel: Option<u8>,
    pub needs_bas: bool,
}

/// How many slots hold a fragment.
pub open spec fn count_filled(slots: Seq<Option<Vec<u8>>>) -> int
    decreases slots.len(),
{
    if slots.len() == 0 {
        0
    } else {
        (if slots[0] is Some {
            1int
        } else {
            0int
        }) + count_filled(slots.drop_first())
    }
}

/// The payloads of all slots, joined in index order; meaningful when full.
pub open spec fn concat_slots(slots: Seq<Option<Vec<u8>>>) -> Seq<u8>
    decreases slots.len(),
{
    if slots.len() == 0 {
        Seq::empty()
    } else {
        (match slots[0] {
            Some(c) => c@,
            None => Seq::empty(),
        }) + concat_slots(slots.drop_first())
    }
}

impl SplitEntry {
    pub open spec fn wf(self) -> bool {
        &&& self.slots@.len() == self.count
        &&& 0 < self.count <= MAX_SPLIT_COUNT
        &&& self.received == count_filled(self.slots@)
    }
}

/// Reassembly state: one entry per outstanding split id.
pub struct SplitAssembler {
    pub entries: Vec<SplitEntry>,
}

impl SplitAssembler {
    /// Entries are well formed and ids unique.
    pub open spec fn wf(self) -> bool {
        &&& forall|k: int| 0 <= k < self.entries@.len() ==> (#[trigger] self.entries@[k]).wf()
        &&& forall|k1: int, k2: int|
            0 <= k1 < k2 < self.entries@.len() ==> (#[trigger] self.entries@[k1]).id != (
            #[trigger] self.entries@[k2]).id
    }

    pub fn new() -> (r: SplitAssembler)
        ensures
            r.wf(),
            r.entries@.len() == 0,
    {
        SplitAssembler { entries: Vec::new() }
    }
}

/// Counting never exceeds the slot count.
pub proof fn lemma_count_filled_le(s: Seq<Option<Vec<u8>>>)
    ensures
        0 <= count_filled(s) <= s.len(),
    decreases s.len(),
{
    if s.len() > 0 {
        lemma_count_filled_le(s.drop_first());
    }
}

/// Filling an empty slot raises the count by one.
pub proof fn lemma_count_filled_update(s: Seq<Option<Vec<u8>>>, i: int, v: Vec<u8>)
    requires
        0 <= i < s.len(),
        s[i] is None,
    ensures
        count_filled(s.update(i, Some(v))) == count_filled(s) + 1,
    decreases s.len(),
{
    if i == 0 {
        assert(s.update(0, Some(v)).drop_first() =~= s.drop_first());
    } else {
        assert(s.update(i, Some(v)).drop_first() =~= s.drop_first().update(i - 1, Some(v)));
        lemma_count_filled_update(s.drop_first(), i - 1, v);
        assert(s.update(i, Some(v))[0] == s[0]);
    }
}

/// A full count means every slot is filled.
pub proof fn lemma_count_filled_full(s: Seq<Option<Vec<u8>>>)
    requires
        count_filled(s) == s.len(),
    ensures
        forall|k: int| 0 <= k < s.len() ==> (#[trigger] s[k]) is Some,
    decreases s.len(),
{
    if s.len() > 0 {
        lemma_count_filled_le(s.drop_first());
        lemma_count_filled_full(s.drop_first());
        assert forall|k: int| 0 <= k < s.len() implies (#[trigger] s[k]) is Some by {
            if k > 0 {
                assert(s.drop_first()[k - 1] is Some);
            }
        }
    }
}

/// Appending one slot appends its payload to the concatenation.
proof fn lemma_concat_slots_snoc(s: Seq<Option<Vec<u8>>>, o: Option<Vec<u8>>)
    ensures
        concat_slots(s.push(o)) == concat_slots(s) + (match o {
            Some(c) => c@,
            None => Seq::<u8>::empty(),
        }),
    decreases s.len(),
{
    let tailp = (match o {
        Some(c) => c@,
        None => Seq::<u8>::empty(),
    });
    if s.len() == 0 {
        assert(s.push(o).drop_first() =~= Seq::<Option<Vec<u8>>>::empty());
        assert(s.push(o)[0] == o);
        assert(concat_slots(Seq::<Option<Vec<u8>>>::empty()) =~= Seq::<u8>::empty());
        assert(concat_slots(s.push(o)) =~= tailp);
        assert(concat_slots(s) + tailp =~= tailp);
    } else {
        assert(s.push(o).drop_first() =~= s.drop_first().push(o));
        lemma_concat_slots_snoc(s.drop_first(), o);
        assert(s.push(o)[0] == s[0]);
        let h = (match s[0] {
            Some(c) => c@,
            None => Seq::<u8>::empty(),
        });
        assert(concat_slots(s.push(o)) == h + concat_slots(s.drop_first().push(o)));
        assert(h + (concat_slots(s.drop_first()) + tailp) =~= (h + concat_slots(s.drop_first()))
            + tailp);
    }
}

impl SplitAssembler {
    /// Index of the entry for `id`, or a negative value when absent.
    pub open spec fn spec_find(es: Seq<SplitEntry>, id: u16) -> int
        decreases es.len(),
    {
        if es.len() == 0 {
            -1
        } else if es[0].id == id {
            0
        } else {
            let r = SplitAssembler::spec_find(es.drop_first(), id);
            if r < 0 {
                -1
            } else {
                1 + r
            }
        }
    }

    proof fn lemma_find(es: Seq<SplitEntry>, id: u16)
        ensures
            SplitAssembler::spec_find(es, id) < 0 ==> forall|k: int|
                0 <= k < es.len() ==> (#[trigger] es[k]).id != id,
            SplitAssembler::spec_find(es, id) >= 0 ==> SplitAssembler::spec_find(es, id)
                < es.len() && es[SplitAssembler::spec_find(es, id)].id == id,
        decreases es.len(),
    {
        if es.len() > 0 {
            SplitAssembler::lemma_find(es.drop_first(), id);
            if es[0].id != id {
                let r = SplitAssembler::spec_find(es.drop_first(), id);
                if r < 0 {
                    assert forall|k: int| 0 <= k < es.len() implies (#[trigger] es[k]).id != id by {
                        if k > 0 {
                            assert(es.drop_first()[k - 1].id != id);
                        }
                    }
                } else {
                    assert(es[1 + r] == es.drop_first()[r]);
                }
            }
        }
    }

    /// Finds the entry for `id`.
    fn find(&self, id: u16) -> (r: Option<usize>)
        ensures
            match r {
                Some(j) => SplitAssembler::spec_find(self.entries@, id) == j && j
                    < self.entries@.len() && self.entries@[j as int].id == id,
                None => SplitAssembler::spec_find(self.entries@, id) < 0,
            },
    {
        proof {
            assert(self.entries@.skip(0) =~= self.entries@);
        }
        let mut k: usize = 0;
        while k < self.entries.len()
            invariant
                k <= self.entries@.len(),
                SplitAssembler::spec_find(self.entries@, id) == if SplitAssembler::spec_find(
                    self.entries@.skip(k as int),
                    id,
                ) < 0 {
                    -1int
                } else {
                    k + SplitAssembler::spec_find(self.entries@.skip(k as int), id)
                },
            decreases self.entries@.len() - k,
        {
            proof {
                assert(self.entries@.skip(k as int)[0] == self.entries@[k as int]);
                assert(self.entries@.skip(k as int).drop_first() =~= self.entries@.skip(
                    k as int + 1,
                ));
            }
            if self.entries[k].id == id {
                return Some(k);
            }
            k = k + 1;
        }
        proof {
            assert(self.entries@.skip(k as int).len() == 0);
        }
        None
    }

    /// Feeds one arrived frame in. A frame that is not split passes straight
    /// through. A fragment is stored under its split id; when it completes
    /// its message, the fragments leave the table and come back joined in
    /// index order as one frame carrying the metadata stored with the entry
    /// (those of the fragment that arrived first). Fragments with impossible
    /// metadata, duplicates, and fragments whose index does not fit the
    /// entry's count are dropped.
    #[verifier::rlimit(100)]
    pub fn add(&mut self, frame: EncapsulatedPacket, now: u64) -> (r: Option<EncapsulatedPacket>)
        requires
            old(self).wf(),
        ensures
            final(self).wf(),
            !frame.is_split ==> (r matches Some(g) && g@ == frame@ && final(self).entries@
                == old(self).entries@),
            frame.is_split ==> match frame.split {
                None => r is None && final(self).entries@ == old(self).entries@,
                Some(si) => {
                let j = SplitAssembler::spec_find(old(self).entries@, si.id);
                if si.count == 0 || si.count > MAX_SPLIT_COUNT || si.index >= si.count {
                    r is None && final(self).entries@ == old(self).entries@
                } else if j < 0 {
                    if si.count == 1 {
                        // a one-fragment message completes at once
                        r matches Some(g) && g.payload@ == frame.payload@ && !g.is_split
                            && g.split is None && g.sequence_index == frame.sequence_index
                            && g.reliability == frame.reliability && g.reliable_index
                            == frame.reliable_index && g.ordering_index == frame.ordering_index
                            && g.ordering_channel == frame.ordering_channel && g.needs_bas
                            == frame.needs_bas && g.bit_length == frame.bit_length && final(self).entries@ == old(self).entries@
                    } else {
                        // first fragment: a fresh entry holding it
                        r is None && final(self).entries@.len() == old(self).entries@.len() + 1
                            && final(self).entries@.subrange(
                            0,
                            old(self).entries@.len() as int,
                        ) == old(self).entries@ && {
                            let e = final(self).entries@.last();
                            &&& e.id == si.id
                            &&& e.count == si.count
                            &&& e.received == 1
                            &&& e.first_arrival == now
                            &&& e.slots@.len() == si.count
                            &&& e.slots@[si.index as int] matches Some(c) && c@ == frame.payload@
                            &&& forall|q: int|
                                0 <= q < e.slots@.len() && q != si.index ==> (#[trigger] e.slots@[q]) is None
                            &&& e.reliability == frame.reliability
                            &&& e.reliable_index == frame.reliable_index
                            &&& e.ordering_index == frame.ordering_index
                            &&& e.ordering_channel == frame.ordering_channel
                        }
                    }
                } else {
                    let e = old(self).entries@[j];
                    if si.index >= e.count || e.slots@[si.index as int] is Some {
                        r is None && final(self).entries@ == old(self).entries@
                    } else if e.received + 1 == e.count {
                        // completion: the joined payload leaves, the entry goes
                        r matches Some(g) && g.payload@ == concat_slots(
                            e.slots@.update(si.index as int, Some(frame.payload)),
                        ) && !g.is_split && g.split is None && g.sequence_index is None
                            && g.reliability == e.reliability && g.reliable_index
                            == e.reliable_index && g.ordering_index == e.ordering_index
                            && g.ordering_channel == e.ordering_channel && final(self).entries@
                            == old(self).entries@.remove(j)
                    } else {
                        r is None && final(self).entries@.len() == old(self).entries@.len() && {
                            let e2 = final(self).entries@[j];
                            &&& forall|q: int|
                                0 <= q < final(self).entries@.len() && q != j ==> final(self).entries@[q] == old(self).entries@[q]
                            &&& e2.id == e.id
                            &&& e2.count == e.count
                            &&& e2.received == e.received + 1
                            &&& e2.slots@ == e.slots@.update(si.index as int, Some(frame.payload))
                            &&& e2.reliability == e.reliability
                            &&& e2.reliable_index == e.reliable_index
                            &&& e2.ordering_index == e.ordering_index
                            &&& e2.ordering_channel == e.ordering_channel
                        }
                    }
                }
            },
        },
    {
        if !frame.is_split {
            return Some(frame);
        }
        let si = match &frame.split {
            Some(si) => *si,
            None => {
                return None;
            },
        };
        if si.count == 0 || si.count > MAX_SPLIT_COUNT || si.index >= si.count {
            return None;
        }
        proof {
            SplitAssembler::lemma_find(self.entries@, si.id);
        }
        match self.find(si.id) {
            None => {
                if si.count == 1 {
                    return Some(
                        EncapsulatedPacket {
                            reliability: frame.reliability,
                            is_split: false,
                            needs_bas: frame.needs_bas,
                            bit_length: frame.bit_length,
                            reliable_index: frame.reliable_index,
                            sequence_index: frame.sequence_index,
                            ordering_index: frame.ordering_index,
                            ordering_channel: frame.ordering_channel,
                            split: None,
                            payload: frame.payload,
                        },
                    );
                }
                let mut slots: Vec<Option<Vec<u8>>> = Vec::new();
                let mut k: u32 = 0;
                while k < si.count
                    invariant
                        k <= si.count,
                        slots@.len() == k,
                        forall|q: int| 0 <= q < slots@.len() ==> (#[trigger] slots@[q]) is None,
                        count_filled(slots@) == 0,
                    decreases si.count - k,
                {
                    proof {
                        lemma_count_filled_snoc_none(slots@);
                    }
                    slots.push(None);
                    k = k + 1;
                }
                let idx = si.index as usize;
                let ghost base = slots@;
                let removed = slots.remove(idx);
                slots.insert(idx, Some(frame.payload));
                proof {
                    assert(slots@ =~= base.update(idx as int, Some(frame.payload)));
                    lemma_count_filled_update(base, idx as int, frame.payload);
                }
                let entry = SplitEntry {
                    id: si.id,
                    count: si.count,
                    received: 1,
                    slots,
                    first_arrival: now,
                    reliability: frame.reliability,
                    reliable_index: frame.reliable_index,
                    ordering_index: frame.ordering_index,
                    ordering_channel: frame.ordering_channel,
                    needs_bas: frame.needs_bas,
                };
                self.entries.push(entry);
                proof {
                    assert(self.entries@.subrange(0, old(self).entries@.len() as int) =~= old(
                        self,
                    ).entries@);
                }
                None
            },
            Some(j) => {
                let count = self.entries[j].count;
                let received = self.entries[j].received;
                if si.index >= count {
                    return None;
                }
                let idx = si.index as usize;
                let is_dup = match &self.entries[j].slots[idx] {
                    Some(_) => true,
                    None => false,
                };
                if is_dup {
                    return None;
                }
                let mut entry = self.entries.remove(j);
                let slot = entry.slots.remove(idx);
                match slot {
                    Some(_) => {
                        proof {
                            assert(false);
                        }
                        None
                    },
                    None => {
                        entry.slots.insert(idx, Some(frame.payload));
                        proof {
                            assert(entry.slots@ =~= old(self).entries@[j as int].slots@.update(
                                idx as int,
                                Some(frame.payload),
                            ));
                            lemma_count_filled_update(
                                old(self).entries@[j as int].slots@,
                                idx as int,
                                frame.payload,
                            );
                        }
                        proof {
                            lemma_count_filled_le(entry.slots@);
                            lemma_count_filled_le(old(self).entries@[j as int].slots@);
                        }
                        entry.received = entry.received + 1;
                        if entry.received == entry.count {
                            proof {
                                lemma_count_filled_le(entry.slots@);
                                lemma_count_filled_full(entry.slots@);
                            }
                            let mut joined: Vec<u8> = Vec::new();
                            let n = entry.slots.len();
                            let mut k: usize = 0;
                            while k < n
                                invariant
                                    k <= n,
                                    n == entry.slots@.len(),
                                    forall|q: int|
                                        0 <= q < entry.slots@.len() ==> (#[trigger] entry.slots@[q]) is Some,
                                    joined@ == concat_slots(entry.slots@.take(k as int)),
                                decreases n - k,
                            {
                                proof {
                                    lemma_concat_slots_snoc(
                                        entry.slots@.take(k as int),
                                        entry.slots@[k as int],
                                    );
                                    assert(entry.slots@.take(k as int).push(
                                        entry.slots@[k as int],
                                    ) =~= entry.slots@.take(k as int + 1));
                                }
                                match &entry.slots[k] {
                                    Some(c) => {
                                        crate::codec::append_bytes(c, &mut joined);
                                    },
                                    None => {
                                        proof {
                                            assert(false);
                                        }
                                    },
                                }
                                k = k + 1;
                            }
                            proof {
                                assert(entry.slots@.take(n as int) =~= entry.slots@);
                            }
                            // a joined message can exceed what the 16-bit
                            // length field can say in bits; an assembled
                            // frame therefore carries zero there, and its
                            // payload vector alone is authoritative
                            let bl: u16 = 0;
                            Some(
                                EncapsulatedPacket {
                                    reliability: entry.reliability,
                                    is_split: false,
                                    needs_bas: entry.needs_bas,
                                    bit_length: bl,
                                    reliable_index: entry.reliable_index,
                                    sequence_index: None,
                                    ordering_index: entry.ordering_index,
                                    ordering_channel: entry.ordering_channel,
                                    split: None,
                                    payload: joined,
                                },
                            )
                        } else {
                            self.entries.insert(j, entry);
                            None
                        }
                    },
                }
            },
        }
    }
}

/// Whether the table holds this very entry.
pub open spec fn split_entry_in(s: Seq<SplitEntry>, e: SplitEntry) -> bool {
    exists|k: int| 0 <= k < s.len() && s[k] == e
}

impl SplitAssembler {
    /// Evicts every entry whose first fragment arrived at least the stale
    /// span ago; entries still fresh stay, unchanged and in order.
    pub fn sweep(&mut self, now: u64)
        requires
            old(self).wf(),
        ensures
            final(self).wf(),
            forall|k: int|
                0 <= k < final(self).entries@.len() ==> split_entry_in(
                    old(self).entries@,
                    #[trigger] final(self).entries@[k],
                ) && now < final(self).entries@[k].first_arrival + SPLIT_STALE_MS,
            forall|j: int|
                0 <= j < old(self).entries@.len() && now < (
                #[trigger] old(self).entries@[j]).first_arrival + SPLIT_STALE_MS ==> split_entry_in(
                    final(self).entries@,
                    old(self).entries@[j],
                ),
    {
        let mut drained: Vec<SplitEntry> = Vec::new();
        core::mem::swap(&mut drained, &mut self.entries);
        let ghost es0 = drained@;
        let mut kept: Vec<SplitEntry> = Vec::new();
        let mut k: usize = 0;
        let n = drained.len();
        proof {
            assert(drained@ =~= es0.skip(0));
        }
        while k < n
            invariant
                k <= n,
                n == es0.len(),
                drained@ == es0.skip(k as int),
                forall|q: int| 0 <= q < es0.len() ==> (#[trigger] es0[q]).wf(),
                forall|q1: int, q2: int|
                    0 <= q1 < q2 < es0.len() ==> (#[trigger] es0[q1]).id != (
                    #[trigger] es0[q2]).id,
                forall|q: int|
                    0 <= q < kept@.len() ==> split_entry_in(es0, #[trigger] kept@[q]) && now
                        < kept@[q].first_arrival + SPLIT_STALE_MS,
                forall|j: int|
                    0 <= j < k && now < (#[trigger] es0[j]).first_arrival + SPLIT_STALE_MS
                        ==> split_entry_in(kept@, es0[j]),
                forall|q1: int, q2: int|
                    0 <= q1 < q2 < kept@.len() ==> (#[trigger] kept@[q1]).id != (
                    #[trigger] kept@[q2]).id,
                forall|q: int, j: int|
                    0 <= q < kept@.len() && k <= j < es0.len() ==> (#[trigger] kept@[q]).id != (
                    #[trigger] es0[j]).id,
            decreases n - k,
        {
            proof {
                assert(drained@[0] == es0[k as int]);
                assert(drained@.remove(0) =~= es0.skip(k as int + 1));
            }
            let e = drained.remove(0);
            let ghost kept_before = kept@;
            let fresh = now < e.first_arrival || now - e.first_arrival < SPLIT_STALE_MS;
            if fresh {
                kept.push(e);
            }
            proof {
                if fresh {
                    assert(kept@[kept@.len() - 1] == es0[k as int]);
                    assert(split_entry_in(kept@, es0[k as int]));
                }
                assert forall|j: int|
                    0 <= j < k + 1 && now < (#[trigger] es0[j]).first_arrival + SPLIT_STALE_MS
                        implies split_entry_in(kept@, es0[j]) by {
                    if j < k {
                        let w = choose|w: int|
                            0 <= w < kept_before.len() && kept_before[w] == es0[j];
                        assert(kept@[w] == es0[j]);
                    }
                }
                assert forall|q: int| 0 <= q < kept@.len() implies split_entry_in(
                    es0,
                    #[trigger] kept@[q],
                ) && now < kept@[q].first_arrival + SPLIT_STALE_MS by {
                    if q < kept_before.len() {
                        let w = choose|w: int| 0 <= w < es0.len() && es0[w] == kept_before[q];
                        assert(kept@[q] == kept_before[q]);
                        assert(es0[w] == kept@[q]);
                    } else {
                        assert(kept@[q] == es0[k as int]);
                    }
                }
            }
            k = k + 1;
        }
        self.entries = kept;
    }
}

/// Appending an empty slot keeps the filled count.
proof fn lemma_count_filled_snoc_none(s: Seq<Option<Vec<u8>>>)
    ensures
        count_filled(s.push(None)) == count_filled(s),
    decreases s.len(),
{
    if s.len() == 0 {
        assert(s.push(None).drop_first() =~= Seq::<Option<Vec<u8>>>::empty());
        assert(s.push(None)[0] is None);
        assert(count_filled(Seq::<Option<Vec<u8>>>::empty()) == 0);
        assert(count_filled(s) == 0);
    } else {
        assert(s.push(None).drop_first() =~= s.drop_first().push(None));
        lemma_count_filled_snoc_none(s.drop_first());
        assert(s.push(None)[0] == s[0]);
    }
}

} // verus!
