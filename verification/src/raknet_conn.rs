//! Per-connection RakNet state: the received-sequence queue for ACKs,
//! split-packet reassembly, sent frames awaiting acknowledgment, and the
//! connection's counters. Times are milliseconds of a monotonic clock.

use vstd::prelude::*;
use std::collections::HashMap;
use crate::raknet_packet::{NetAddress, FrameView, concat_bodies};

verus! {

broadcast use vstd::std_specs::hash::group_hash_axioms;

/// How long a partial split packet is kept, in milliseconds.
pub const SPLIT_PACKET_TIMEOUT_MS: u64 = 5000;

/// Connection lifecycle state.
#[derive(Debug, Clone, Copy, PartialEq, Eq, Structural)]
pub enum ConnectionState {
    /// Waiting for Open Connection Request 1.
    Unconnected,
    /// Received Request 1, sent Reply 1 — awaiting Request 2.
    Handshaking,
    /// Request 2 received, Reply 2 sent — connection established.
    Connected,
    /// Connection has been closed or timed out.
    Disconnected,
}

/// Some range of `rs` holds `seq`.
pub open spec fn in_ranges(rs: Seq<(u32, u32)>, seq: u32) -> bool {
    exists|i: int| 0 <= i < rs.len() && (#[trigger] rs[i]).0 <= seq <= rs[i].1
}

/// The ranges are in canonical form: each starts no later than it ends,
/// and each ends more than one below the start of every later one, so
/// they are sorted, disjoint and no two could be merged.
pub open spec fn ranges_wf(rs: Seq<(u32, u32)>) -> bool {
    &&& forall|i: int| 0 <= i < rs.len() ==> (#[trigger] rs[i]).0 <= rs[i].1
    &&& forall|i: int, j: int|
        0 <= i < j < rs.len() ==> (#[trigger] rs[i]).1 as int + 1 < (#[trigger] rs[j]).0 as int
}

/// `rs` covers what `old` covers and `seq`, and nothing else.
pub open spec fn covers_with(rs: Seq<(u32, u32)>, old: Seq<(u32, u32)>, seq: u32) -> bool {
    forall|x: u32| #[trigger] in_ranges(rs, x) == (in_ranges(old, x) || x == seq)
}

/// `seq` belongs between the first `p` ranges, which end below it, and
/// the rest, which start above it.
pub open spec fn seq_slot(rs: Seq<(u32, u32)>, p: int, seq: u32) -> bool {
    &&& ranges_wf(rs)
    &&& 0 <= p <= rs.len()
    &&& forall|j: int| 0 <= j < p ==> (#[trigger] rs[j]).1 < seq
    &&& forall|j: int| p <= j < rs.len() ==> (#[trigger] rs[j]).0 > seq
}

proof fn lemma_slot_gaps(rs: Seq<(u32, u32)>, p: int, seq: u32)
    requires
        seq_slot(rs, p, seq),
    ensures
        forall|j: int| 0 <= j < p - 1 ==> (#[trigger] rs[j]).1 as int + 1 < seq as int,
        forall|j: int| p < j < rs.len() ==> (#[trigger] rs[j]).0 as int > seq as int + 1,
{
    assert forall|j: int| 0 <= j < p - 1 implies (#[trigger] rs[j]).1 as int + 1 < seq as int by {
        assert(rs[j].1 as int + 1 < rs[p - 1].0 as int);
        assert(rs[p - 1].0 <= rs[p - 1].1);
    }
    assert forall|j: int| p < j < rs.len() implies (#[trigger] rs[j]).0 as int > seq as int + 1 by {
        assert(rs[p].1 as int + 1 < rs[j].0 as int);
        assert(rs[p].0 <= rs[p].1);
    }
}

/// `seq` starts a range of its own at `p`.
proof fn lemma_join_none(rs: Seq<(u32, u32)>, p: int, seq: u32)
    requires
        seq_slot(rs, p, seq),
        !(p > 0 && rs[p - 1].1 as int + 1 == seq as int),
        !(p < rs.len() && seq as int + 1 == rs[p].0 as int),
    ensures
        ranges_wf(rs.insert(p, (seq, seq))),
        covers_with(rs.insert(p, (seq, seq)), rs, seq),
{
    lemma_slot_gaps(rs, p, seq);
    let ns = rs.insert(p, (seq, seq));
    assert forall|i: int, j: int| 0 <= i < j < ns.len() implies (#[trigger] ns[i]).1 as int + 1 < (
    #[trigger] ns[j]).0 as int by {
        if j < p {
            assert(rs[i].1 as int + 1 < rs[j].0 as int);
        } else if j == p {
            assert(ns[i] == rs[i]);
        } else if i < p {
            assert(rs[i].1 as int + 1 < rs[j - 1].0 as int);
        } else if i > p {
            assert(rs[i - 1].1 as int + 1 < rs[j - 1].0 as int);
        }
    }
    assert forall|x: u32| #[trigger] in_ranges(ns, x) == (in_ranges(rs, x) || x == seq) by {
        if in_ranges(ns, x) {
            let i = choose|i: int| 0 <= i < ns.len() && (#[trigger] ns[i]).0 <= x <= ns[i].1;
            if i < p {
                assert(rs[i].0 <= x <= rs[i].1);
            } else if i > p {
                assert(rs[i - 1].0 <= x <= rs[i - 1].1);
            }
        }
        if in_ranges(rs, x) {
            let i = choose|i: int| 0 <= i < rs.len() && (#[trigger] rs[i]).0 <= x <= rs[i].1;
            if i < p {
                assert(ns[i].0 <= x <= ns[i].1);
            } else {
                assert(ns[i + 1].0 <= x <= ns[i + 1].1);
            }
        }
        if x == seq {
            assert(ns[p].0 <= x <= ns[p].1);
        }
    }
}

/// `seq` extends the range before `p` by one at its end.
proof fn lemma_join_left(rs: Seq<(u32, u32)>, p: int, seq: u32)
    requires
        seq_slot(rs, p, seq),
        p > 0 && rs[p - 1].1 as int + 1 == seq as int,
        !(p < rs.len() && seq as int + 1 == rs[p].0 as int),
    ensures
        ranges_wf(rs.update(p - 1, (rs[p - 1].0, seq))),
        covers_with(rs.update(p - 1, (rs[p - 1].0, seq)), rs, seq),
{
    lemma_slot_gaps(rs, p, seq);
    let ns = rs.update(p - 1, (rs[p - 1].0, seq));
    assert forall|i: int, j: int| 0 <= i < j < ns.len() implies (#[trigger] ns[i]).1 as int + 1 < (
    #[trigger] ns[j]).0 as int by {
        assert(rs[i].1 as int + 1 < rs[j].0 as int);
    }
    assert forall|x: u32| #[trigger] in_ranges(ns, x) == (in_ranges(rs, x) || x == seq) by {
        if in_ranges(ns, x) {
            let i = choose|i: int| 0 <= i < ns.len() && (#[trigger] ns[i]).0 <= x <= ns[i].1;
            if i != p - 1 {
                assert(rs[i].0 <= x <= rs[i].1);
            } else if x != seq {
                assert(rs[i].0 <= x <= rs[i].1);
            }
        }
        if in_ranges(rs, x) {
            let i = choose|i: int| 0 <= i < rs.len() && (#[trigger] rs[i]).0 <= x <= rs[i].1;
            assert(ns[i].0 <= x <= ns[i].1);
        }
        if x == seq {
            assert(ns[p - 1].0 <= x <= ns[p - 1].1);
        }
    }
}

/// `seq` extends the range at `p` by one at its start.
proof fn lemma_join_right(rs: Seq<(u32, u32)>, p: int, seq: u32)
    requires
        seq_slot(rs, p, seq),
        p < rs.len() && seq as int + 1 == rs[p].0 as int,
        !(p > 0 && rs[p - 1].1 as int + 1 == seq as int),
    ensures
        ranges_wf(rs.update(p, (seq, rs[p].1))),
        covers_with(rs.update(p, (seq, rs[p].1)), rs, seq),
{
    lemma_slot_gaps(rs, p, seq);
    let ns = rs.update(p, (seq, rs[p].1));
    assert forall|i: int, j: int| 0 <= i < j < ns.len() implies (#[trigger] ns[i]).1 as int + 1 < (
    #[trigger] ns[j]).0 as int by {
        assert(rs[i].1 as int + 1 < rs[j].0 as int);
    }
    assert forall|x: u32| #[trigger] in_ranges(ns, x) == (in_ranges(rs, x) || x == seq) by {
        if in_ranges(ns, x) {
            let i = choose|i: int| 0 <= i < ns.len() && (#[trigger] ns[i]).0 <= x <= ns[i].1;
            if i != p {
                assert(rs[i].0 <= x <= rs[i].1);
            } else if x != seq {
                assert(rs[i].0 <= x <= rs[i].1);
            }
        }
        if in_ranges(rs, x) {
            let i = choose|i: int| 0 <= i < rs.len() && (#[trigger] rs[i]).0 <= x <= rs[i].1;
            assert(ns[i].0 <= x <= ns[i].1);
        }
        if x == seq {
            assert(ns[p].0 <= x <= ns[p].1);
        }
    }
}

/// `seq` closes the gap between the ranges at `p - 1` and `p`, which
/// become one.
proof fn lemma_join_both(rs: Seq<(u32, u32)>, p: int, seq: u32)
    requires
        seq_slot(rs, p, seq),
        p > 0 && rs[p - 1].1 as int + 1 == seq as int,
        p < rs.len() && seq as int + 1 == rs[p].0 as int,
    ensures
        ranges_wf(rs.update(p - 1, (rs[p - 1].0, rs[p].1)).remove(p)),
        covers_with(rs.update(p - 1, (rs[p - 1].0, rs[p].1)).remove(p), rs, seq),
{
    lemma_slot_gaps(rs, p, seq);
    let ns = rs.update(p - 1, (rs[p - 1].0, rs[p].1)).remove(p);
    assert(ns.len() == rs.len() - 1);
    assert forall|i: int| 0 <= i < ns.len() implies #[trigger] ns[i] == (if i < p - 1 {
        rs[i]
    } else if i == p - 1 {
        (rs[p - 1].0, rs[p].1)
    } else {
        rs[i + 1]
    }) by {}
    assert forall|i: int| 0 <= i < ns.len() implies (#[trigger] ns[i]).0 <= ns[i].1 by {
        if i >= p - 1 {
            assert(rs[i + 1].0 <= rs[i + 1].1);
        }
    }
    assert forall|i: int, j: int| 0 <= i < j < ns.len() implies (#[trigger] ns[i]).1 as int + 1 < (
    #[trigger] ns[j]).0 as int by {
        if j < p - 1 {
            assert(rs[i].1 as int + 1 < rs[j].0 as int);
        } else if j == p - 1 {
            assert(rs[i].1 as int + 1 < rs[j].0 as int);
        } else if i < p - 1 {
            assert(rs[i].1 as int + 1 < rs[j + 1].0 as int);
        } else if i == p - 1 {
            assert(rs[p].1 as int + 1 < rs[j + 1].0 as int);
        } else {
            assert(rs[i + 1].1 as int + 1 < rs[j + 1].0 as int);
        }
    }
    assert forall|x: u32| #[trigger] in_ranges(ns, x) == (in_ranges(rs, x) || x == seq) by {
        if in_ranges(ns, x) {
            let i = choose|i: int| 0 <= i < ns.len() && (#[trigger] ns[i]).0 <= x <= ns[i].1;
            if i < p - 1 {
                assert(rs[i].0 <= x <= rs[i].1);
            } else if i > p - 1 {
                assert(rs[i + 1].0 <= x <= rs[i + 1].1);
            } else if x < seq {
                assert(rs[p - 1].0 <= x <= rs[p - 1].1);
            } else if x > seq {
                assert(rs[p].0 <= x <= rs[p].1);
            }
        }
        if in_ranges(rs, x) {
            let i = choose|i: int| 0 <= i < rs.len() && (#[trigger] rs[i]).0 <= x <= rs[i].1;
            if i < p - 1 {
                assert(ns[i].0 <= x <= ns[i].1);
            } else if i == p - 1 || i == p {
                assert(ns[p - 1].0 <= x <= ns[p - 1].1);
            } else {
                assert(ns[i - 1].0 <= x <= ns[i - 1].1);
            }
        }
        if x == seq {
            assert(ns[p - 1].0 <= x <= ns[p - 1].1);
        }
    }
}

/// What the ranges after the first cover: what all of them cover, less
/// the first range.
proof fn lemma_ranges_tail(a: Seq<(u32, u32)>, x: u32)
    requires
        ranges_wf(a),
        a.len() > 0,
    ensures
        ranges_wf(a.drop_first()),
        in_ranges(a.drop_first(), x) == (in_ranges(a, x) && !(a[0].0 <= x <= a[0].1)),
{
    let t = a.drop_first();
    assert forall|i: int, j: int| 0 <= i < j < t.len() implies (#[trigger] t[i]).1 as int + 1 < (
    #[trigger] t[j]).0 as int by {
        assert(a[i + 1].1 as int + 1 < a[j + 1].0 as int);
    }
    if in_ranges(t, x) {
        let i = choose|i: int| 0 <= i < t.len() && (#[trigger] t[i]).0 <= x <= t[i].1;
        assert(a[0].1 as int + 1 < a[i + 1].0 as int);
        assert(a[i + 1].0 <= x <= a[i + 1].1);
    }
    if in_ranges(a, x) && !(a[0].0 <= x <= a[0].1) {
        let i = choose|i: int| 0 <= i < a.len() && (#[trigger] a[i]).0 <= x <= a[i].1;
        assert(i != 0);
        assert(t[i - 1].0 <= x <= t[i - 1].1);
    }
}

/// No number that a canonical list covers lies below its first start.
proof fn lemma_ranges_first(a: Seq<(u32, u32)>, x: u32)
    requires
        ranges_wf(a),
        in_ranges(a, x),
    ensures
        a.len() > 0,
        a[0].0 <= x,
        x > a[0].1 ==> x as int > a[0].1 as int + 1,
{
    let i = choose|i: int| 0 <= i < a.len() && (#[trigger] a[i]).0 <= x <= a[i].1;
    if i > 0 {
        assert(a[0].1 as int + 1 < a[i].0 as int);
        assert(a[0].0 <= a[0].1);
    }
}

/// Received ranges in canonical form are fixed by the numbers they cover:
/// two canonical lists that cover the same numbers are the same list.
pub proof fn law_ranges_canonical(a: Seq<(u32, u32)>, b: Seq<(u32, u32)>)
    requires
        ranges_wf(a),
        ranges_wf(b),
        forall|x: u32| #[trigger] in_ranges(a, x) == in_ranges(b, x),
    ensures
        a == b,
    decreases a.len(),
{
    if a.len() == 0 || b.len() == 0 {
        if a.len() > 0 {
            assert(a[0].0 <= a[0].0 <= a[0].1);
            assert(in_ranges(a, a[0].0));
            lemma_ranges_first(b, a[0].0);
        }
        if b.len() > 0 {
            assert(b[0].0 <= b[0].0 <= b[0].1);
            assert(in_ranges(b, b[0].0));
            lemma_ranges_first(a, b[0].0);
        }
        assert(a =~= b);
    } else {
        let (a0, b0) = (a[0], b[0]);
        assert(in_ranges(a, a0.0));
        assert(in_ranges(b, b0.0));
        lemma_ranges_first(b, a0.0);
        lemma_ranges_first(a, b0.0);
        assert(a0.0 == b0.0);
        if a0.1 < b0.1 {
            let x = (a0.1 + 1) as u32;
            assert(b[0].0 <= x <= b[0].1);
            assert(in_ranges(b, x));
            lemma_ranges_first(a, x);
        }
        if b0.1 < a0.1 {
            let x = (b0.1 + 1) as u32;
            assert(a[0].0 <= x <= a[0].1);
            assert(in_ranges(a, x));
            lemma_ranges_first(b, x);
        }
        assert(a0 == b0);
        assert forall|x: u32| #[trigger] in_ranges(a.drop_first(), x) == in_ranges(b.drop_first(), x) by {
            lemma_ranges_tail(a, x);
            lemma_ranges_tail(b, x);
        }
        lemma_ranges_tail(a, 0);
        lemma_ranges_tail(b, 0);
        law_ranges_canonical(a.drop_first(), b.drop_first());
        assert(a =~= seq![a0] + a.drop_first());
        assert(b =~= seq![b0] + b.drop_first());
    }
}

/// Tracks which datagram sequence numbers have been received, as ranges
/// (start, end) in canonical form (see `ranges_wf`).
#[derive(Debug)]
pub struct RecvQueue {
    ranges: Vec<(u32, u32)>,
}

impl RecvQueue {
    /// The ranges held.
    pub closed spec fn spec_ranges(self) -> Seq<(u32, u32)> {
        self.ranges@
    }

    pub fn new() -> (r: Self)
        ensures
            r.spec_ranges() == Seq::<(u32, u32)>::empty(),
            ranges_wf(r.spec_ranges()),
    {
        RecvQueue { ranges: Vec::new() }
    }

    /// Record that `seq` has been received. The ranges stay in canonical
    /// form: `seq` joins the range it follows or precedes directly (both,
    /// when it closes the gap between them), else it becomes a range of
    /// its own in its place. A number already held changes nothing.
    pub fn push(&mut self, seq: u32)
        requires
            ranges_wf(old(self).spec_ranges()),
        ensures
            ranges_wf(final(self).spec_ranges()),
            covers_with(final(self).spec_ranges(), old(self).spec_ranges(), seq),
            in_ranges(old(self).spec_ranges(), seq) ==> final(self).spec_ranges() == old(
                self,
            ).spec_ranges(),
    {
        let ghost rs = self.ranges@;
        let n = self.ranges.len();
        let mut p: usize = 0;
        while p < n && self.ranges[p].0 <= seq
            invariant
                p <= n,
                n == rs.len(),
                self.ranges@ == rs,
                forall|j: int| 0 <= j < p ==> (#[trigger] rs[j]).0 <= seq,
            decreases n - p,
        {
            p = p + 1;
        }
        proof {
            assert forall|j: int| p <= j < n implies (#[trigger] rs[j]).0 > seq by {
                if j > p {
                    assert(rs[p as int].0 <= rs[p as int].1);
                    assert(rs[p as int].1 as int + 1 < rs[j].0 as int);
                }
            }
        }
        if p > 0 && self.ranges[p - 1].1 >= seq {
            assert(rs[p - 1].0 <= seq <= rs[p - 1].1);
            return;
        }
        proof {
            assert forall|j: int| 0 <= j < p implies (#[trigger] rs[j]).1 < seq by {
                if j < p - 1 {
                    assert(rs[j].1 as int + 1 < rs[p - 1].0 as int);
                }
            }
            assert(seq_slot(rs, p as int, seq));
            assert(!in_ranges(rs, seq)) by {
                if in_ranges(rs, seq) {
                    let i = choose|i: int| 0 <= i < rs.len() && (#[trigger] rs[i]).0 <= seq <= rs[i].1;
                    assert(i < p || i >= p);
                }
            }
        }
        let joins_left = p > 0 && self.ranges[p - 1].1 as u64 + 1 == seq as u64;
        let joins_right = p < n && seq as u64 + 1 == self.ranges[p].0 as u64;
        if joins_left && joins_right {
            let start = self.ranges[p - 1].0;
            let end = self.ranges[p].1;
            self.ranges.set(p - 1, (start, end));
            self.ranges.remove(p);
            proof {
                lemma_join_both(rs, p as int, seq);
            }
        } else if joins_left {
            let start = self.ranges[p - 1].0;
            self.ranges.set(p - 1, (start, seq));
            proof {
                lemma_join_left(rs, p as int, seq);
            }
        } else if joins_right {
            let end = self.ranges[p].1;
            self.ranges.set(p, (seq, end));
            proof {
                lemma_join_right(rs, p as int, seq);
            }
        } else {
            self.ranges.insert(p, (seq, seq));
            proof {
                lemma_join_none(rs, p as int, seq);
            }
        }
    }

    /// Whether `seq` has been received.
    pub fn contains(&self, seq: u32) -> (r: bool)
        ensures
            r == in_ranges(self.spec_ranges(), seq),
    {
        let mut i: usize = 0;
        while i < self.ranges.len()
            invariant
                i <= self.ranges@.len(),
                forall|j: int| 0 <= j < i ==> !((#[trigger] self.ranges@[j]).0 <= seq <= self.ranges@[j].1),
            decreases self.ranges@.len() - i,
        {
            let (s, e) = self.ranges[i];
            if seq >= s && seq <= e {
                assert(self.ranges@[i as int].0 <= seq <= self.ranges@[i as int].1);
                return true;
            }
            i = i + 1;
        }
        false
    }

    /// Drain the queue and return the ranges, leaving it empty.
    pub fn drain(&mut self) -> (r: Vec<(u32, u32)>)
        ensures
            r@ == old(self).spec_ranges(),
            final(self).spec_ranges() == Seq::<(u32, u32)>::empty(),
    {
        let mut out: Vec<(u32, u32)> = Vec::new();
        std::mem::swap(&mut out, &mut self.ranges);
        out
    }

    /// The ranges held: the minimal list of sorted, disjoint ranges, no
    /// two adjacent, that covers what was received.
    pub fn ranges(&self) -> (r: &[(u32, u32)])
        ensures
            r@ == self.spec_ranges(),
    {
        self.ranges.as_slice()
    }
}

impl Default for RecvQueue {
    fn default() -> (r: Self)
        ensures
            r.spec_ranges() == Seq::<(u32, u32)>::empty(),
    {
        RecvQueue::new()
    }
}


/// A frame sent to the client that needs acknowledgment.
#[derive(Debug, Clone)]
pub struct PendingFrame {
    pub sequence_number: u32,
    pub reliable_index: u32,
    pub raw_data: Vec<u8>,
    pub send_time_ms: u64,
    pub retries: u32,
}

/// The parts `0..n` one after another.
pub open spec fn joined_parts(m: Map<u32, Vec<u8>>, n: nat) -> Seq<u8>
    decreases n,
{
    if n == 0 {
        Seq::empty()
    } else {
        joined_parts(m, (n - 1) as nat) + m[(n - 1) as u32]@
    }
}

/// Every part index is below the piece count.
pub open spec fn parts_wf(m: Map<u32, Vec<u8>>, count: u32) -> bool {
    forall|k: u32| m.contains_key(k) ==> k < count
}

/// A partially reassembled split packet.
#[derive(Debug)]
pub struct SplitPacket {
    pub split_count: u32,
    pub parts: HashMap<u32, Vec<u8>>,
    pub created_at_ms: u64,
}

impl SplitPacket {
    pub fn new(split_count: u32, now_ms: u64) -> (r: Self)
        ensures
            r.split_count == split_count,
            r.parts@ == Map::<u32, Vec<u8>>::empty(),
            r.created_at_ms == now_ms,
    {
        SplitPacket { split_count, parts: HashMap::new(), created_at_ms: now_ms }
    }

    /// Insert a piece; returns the reassembled body once every piece has
    /// arrived. A piece index beyond the count is ignored.
    pub fn insert(&mut self, split_index: u32, data: Vec<u8>) -> (r: Option<Vec<u8>>)
        requires
            parts_wf(old(self).parts@, old(self).split_count),
        ensures
            final(self).split_count == old(self).split_count,
            final(self).created_at_ms == old(self).created_at_ms,
            parts_wf(final(self).parts@, final(self).split_count),
            split_index >= old(self).split_count ==> r is None && final(self).parts@ == old(
                self,
            ).parts@,
            split_index < old(self).split_count ==> {
                let m = old(self).parts@.insert(split_index, data);
                &&& final(self).parts@ == m
                &&& m.len() == old(self).split_count ==> (r matches Some(b) && b@ == joined_parts(
                    m,
                    old(self).split_count as nat,
                ))
                &&& m.len() != old(self).split_count ==> r is None
            },
    {
        if split_index >= self.split_count {
            return None;
        }
        self.parts.insert(split_index, data);
        let ghost m = self.parts@;
        proof {
            lemma_parts_len(m, self.split_count);
        }
        if self.parts.len() as u64 == self.split_count as u64 {
            proof {
                lemma_parts_full(m, self.split_count);
            }
            let mut out: Vec<u8> = Vec::new();
            let mut i: u32 = 0;
            while i < self.split_count
                invariant
                    i <= self.split_count,
                    m == self.parts@,
                    forall|k: u32| k < self.split_count ==> m.contains_key(k),
                    out@ == joined_parts(m, i as nat),
                decreases self.split_count - i,
            {
                match self.parts.get(&i) {
                    Some(part) => {
                        crate::bytes::append_bytes(&mut out, part.as_slice());
                    },
                    None => {
                        return None;
                    },
                }
                i = i + 1;
            }
            Some(out)
        } else {
            None
        }
    }
}

/// A map whose keys lie below `count` holds at most `count` parts.
proof fn lemma_parts_len(m: Map<u32, Vec<u8>>, count: u32)
    requires
        parts_wf(m, count),
        m.dom().finite(),
    ensures
        m.len() <= count,
{
    let below = Set::new(|k: u32| k < count);
    assert(m.dom().subset_of(below));
    lemma_below_len(count);
    vstd::set_lib::lemma_len_subset(m.dom(), below);
}

proof fn lemma_below_len(count: u32)
    ensures
        Set::new(|k: u32| k < count).finite(),
        Set::new(|k: u32| k < count).len() == count,
    decreases count,
{
    if count == 0 {
        assert(Set::new(|k: u32| k < count) =~= Set::<u32>::empty());
    } else {
        lemma_below_len((count - 1) as u32);
        assert(Set::new(|k: u32| k < count) =~= Set::new(|k: u32| k < (count - 1) as u32).insert(
            (count - 1) as u32,
        ));
    }
}

/// A map with `count` parts whose keys lie below `count` holds every
/// index below `count`.
proof fn lemma_parts_full(m: Map<u32, Vec<u8>>, count: u32)
    requires
        parts_wf(m, count),
        m.dom().finite(),
        m.len() == count,
    ensures
        forall|k: u32| k < count ==> m.contains_key(k),
{
    let below = Set::new(|k: u32| k < count);
    lemma_below_len(count);
    assert(m.dom().subset_of(below));
    if exists|k: u32| k < count && !m.contains_key(k) {
        let k = choose|k: u32| k < count && !m.contains_key(k);
        vstd::set_lib::lemma_len_subset(m.dom(), below.remove(k));
        assert(below.remove(k).len() == count - 1);
    }
}

/// Reassembling the pieces of a split body gives the body back: when part
/// `i` holds the body of frame `i`, the joined parts are the frames'
/// bodies one after another.
pub proof fn law_split_reassembly(fs: Seq<FrameView>, m: Map<u32, Vec<u8>>)
    requires
        fs.len() < 0x1_0000_0000,
        forall|k: u32| k < fs.len() ==> #[trigger] m.contains_key(k) && m[k]@ == fs[k as int].body,
    ensures
        joined_parts(m, fs.len()) == concat_bodies(fs),
    decreases fs.len(),
{
    if fs.len() > 0 {
        let t = fs.drop_last();
        assert forall|k: u32| k < t.len() implies #[trigger] m.contains_key(k) && m[k]@ == t[k as int].body by {
            assert(t[k as int] == fs[k as int]);
            assert(m.contains_key(k));
        }
        law_split_reassembly(t, m);
        let last = (fs.len() - 1) as u32;
        assert(m.contains_key(last));
        assert(fs == t.push(fs[fs.len() - 1]));
    }
}

/// What a split packet holds: the piece count, the pieces by index and
/// when it was started.
pub open spec fn split_state(p: SplitPacket) -> (u32, Map<u32, Vec<u8>>, u64) {
    (p.split_count, p.parts@, p.created_at_ms)
}

/// The split packets of a connection by split id, each by its state.
pub open spec fn splits_view(m: Map<u16, SplitPacket>) -> Map<u16, (u32, Map<u32, Vec<u8>>, u64)> {
    m.map_values(|p: SplitPacket| split_state(p))
}

/// Every split packet's piece indices lie below its count.
pub open spec fn splits_wf(m: Map<u16, SplitPacket>) -> bool {
    forall|k: u16| #[trigger] m.contains_key(k) ==> parts_wf(m[k].parts@, m[k].split_count)
}

/// Feeding piece `idx` of `count` pieces of split `id`: the packet under
/// `id` is kept when its count agrees and started afresh otherwise; a piece
/// beyond the count is dropped; once every piece is there the packet leaves
/// the map and its body comes out.
pub open spec fn feed_split_spec(
    sp: Map<u16, (u32, Map<u32, Vec<u8>>, u64)>,
    id: u16,
    idx: u32,
    count: u32,
    data: Vec<u8>,
    now: u64,
) -> (Map<u16, (u32, Map<u32, Vec<u8>>, u64)>, Option<Seq<u8>>) {
    let base = if sp.contains_key(id) && sp[id].0 == count {
        sp[id]
    } else {
        (count, Map::<u32, Vec<u8>>::empty(), now)
    };
    if idx >= count {
        (sp.insert(id, base), None)
    } else {
        let m = base.1.insert(idx, data);
        if m.len() == count as nat {
            (sp.remove(id), Some(joined_parts(m, count as nat)))
        } else {
            (sp.insert(id, (base.0, m, base.2)), None)
        }
    }
}

/// A split packet started at `created` is still kept at `now`: less than
/// the timeout has passed (no time has passed when the clock reads earlier).
pub open spec fn split_alive(created: u64, now: u64) -> bool {
    (if now >= created { now - created } else { 0 }) < SPLIT_PACKET_TIMEOUT_MS
}

/// The split packets that are still kept at `now`.
pub open spec fn expire_spec(m: Map<u16, SplitPacket>, now: u64) -> Map<u16, SplitPacket> {
    Map::new(|k: u16| m.contains_key(k) && split_alive(m[k].created_at_ms, now), |k: u16| m[k])
}

/// The split states still kept at `now`.
pub open spec fn expire_view(
    sp: Map<u16, (u32, Map<u32, Vec<u8>>, u64)>,
    now: u64,
) -> Map<u16, (u32, Map<u32, Vec<u8>>, u64)> {
    Map::new(|k: u16| sp.contains_key(k) && split_alive(sp[k].2, now), |k: u16| sp[k])
}

/// Expiring split packets and then taking their states is taking the
/// states and then expiring them.
pub proof fn lemma_expire_view(m: Map<u16, SplitPacket>, now: u64)
    ensures
        splits_view(expire_spec(m, now)) == expire_view(splits_view(m), now),
{
    assert(splits_view(expire_spec(m, now)) =~~= expire_view(splits_view(m), now));
}

/// Per-connection data tracked by the server.
#[derive(Debug)]
pub struct Connection {
    /// Client's socket address.
    pub addr: NetAddress,
    /// Client GUID.
    pub client_guid: i64,
    /// Negotiated MTU for this connection.
    pub mtu: u16,
    /// Current connection state.
    pub state: ConnectionState,
    /// When this connection was created.
    pub created_at_ms: u64,
    /// When the last packet was received from this client.
    pub last_recv_ms: u64,
    /// Outgoing datagram sequence number.
    pub send_seq: u32,
    /// Next reliable message index.
    pub reliable_index: u32,
    /// Next ordered message index per channel (outgoing).
    pub order_indices: [u32; 32],
    /// Next sequenced message index per channel (outgoing).
    pub sequence_indices: [u32; 32],
    /// Outgoing frames awaiting ACK, oldest first.
    pub pending_frames: Vec<PendingFrame>,
    /// Received datagram sequence numbers.
    pub recv_queue: RecvQueue,
    /// MTU size confirmed at connection establishment.
    pub mtu_size: u16,
    /// In-flight split packets being reassembled, keyed by split id.
    pub split_packets: HashMap<u16, SplitPacket>,
    /// Counter for outgoing split-packet ids.
    pub next_split_id: u16,
    /// Next ordered message index expected on each channel (incoming).
    pub next_order_index: [u32; 32],
    /// Reordering buffer for ordered reliable frames, keyed by channel and order index.
    pub ordered_backlog: HashMap<(u8, u32), Vec<u8>>,
}

/// The connection's own invariant: received ranges are well formed and
/// every split packet's pieces lie below its count.
pub open spec fn conn_wf(c: Connection) -> bool {
    &&& ranges_wf(c.recv_queue.spec_ranges())
    &&& splits_wf(c.split_packets@)
}

/// `c` is a connection just made for `addr`: created and last heard from
/// at `now`, with both MTU fields at `mtu`, every counter at zero and
/// nothing queued.
pub open spec fn fresh_conn(c: Connection, addr: NetAddress, client_guid: i64, mtu: u16, now: u64) -> bool {
    &&& conn_wf(c)
    &&& c.addr == addr
    &&& c.client_guid == client_guid
    &&& c.mtu == mtu
    &&& c.mtu_size == mtu
    &&& c.created_at_ms == now
    &&& c.last_recv_ms == now
    &&& c.send_seq == 0
    &&& c.reliable_index == 0
    &&& forall|i: int| 0 <= i < 32 ==> c.order_indices@[i] == 0 && c.sequence_indices@[i] == 0
        && c.next_order_index@[i] == 0
    &&& c.pending_frames@.len() == 0
    &&& c.recv_queue.spec_ranges().len() == 0
    &&& c.split_packets@ == Map::<u16, SplitPacket>::empty()
    &&& c.next_split_id == 0
    &&& c.ordered_backlog@ == Map::<(u8, u32), Vec<u8>>::empty()
}

impl Connection {
    /// A new connection in `Unconnected` state, created and last heard
    /// from at `now_ms`, with every counter at zero and nothing queued.
    pub fn new(addr: NetAddress, client_guid: i64, mtu: u16, now_ms: u64) -> (r: Self)
        ensures
            fresh_conn(r, addr, client_guid, mtu, now_ms),
            r.state == ConnectionState::Unconnected,
    {
        Connection {
            addr,
            client_guid,
            mtu,
            state: ConnectionState::Unconnected,
            created_at_ms: now_ms,
            last_recv_ms: now_ms,
            send_seq: 0,
            reliable_index: 0,
            order_indices: [0u32; 32],
            sequence_indices: [0u32; 32],
            pending_frames: Vec::new(),
            recv_queue: RecvQueue::new(),
            mtu_size: mtu,
            split_packets: HashMap::new(),
            next_split_id: 0,
            next_order_index: [0u32; 32],
            ordered_backlog: HashMap::new(),
        }
    }

    /// Feed a split piece into reassembly; returns the body once every
    /// piece of this split id has arrived.
    pub fn feed_split(
        &mut self,
        split_id: u16,
        split_index: u32,
        split_count: u32,
        data: Vec<u8>,
        now_ms: u64,
    ) -> (r: Option<Vec<u8>>)
        requires
            conn_wf(*old(self)),
        ensures
            conn_wf(*final(self)),
            *final(self) == (Connection { split_packets: final(self).split_packets, ..*old(self) }),
            ({
                let (m, out) = feed_split_spec(
                    splits_view(old(self).split_packets@),
                    split_id,
                    split_index,
                    split_count,
                    data,
                    now_ms,
                );
                &&& splits_view(final(self).split_packets@) == m
                &&& match r {
                    Some(b) => out == Some(b@),
                    None => out is None,
                }
            }),
    {
        let ghost sp = splits_view(self.split_packets@);
        let ghost old_map = self.split_packets@;
        let removed = self.split_packets.remove(&split_id);
        let mut entry = match removed {
            Some(p) => {
                if p.split_count == split_count {
                    p
                } else {
                    SplitPacket::new(split_count, now_ms)
                }
            },
            None => SplitPacket::new(split_count, now_ms),
        };
        proof {
            assert(old_map.remove(split_id) == self.split_packets@);
            if old_map.contains_key(split_id) {
                assert(splits_wf(old_map));
                assert(old_map.contains_key(split_id));
            }
            assert(split_state(entry) == (if sp.contains_key(split_id) && sp[split_id].0 == split_count {
                sp[split_id]
            } else {
                (split_count, Map::<u32, Vec<u8>>::empty(), now_ms)
            }));
        }
        let result = entry.insert(split_index, data);
        if result.is_none() {
            self.split_packets.insert(split_id, entry);
            proof {
                assert(splits_view(self.split_packets@) =~~= feed_split_spec(sp, split_id, split_index, split_count, data, now_ms).0);
            }
        } else {
            proof {
                assert(splits_view(self.split_packets@) =~~= feed_split_spec(sp, split_id, split_index, split_count, data, now_ms).0);
            }
        }
        result
    }

    /// Drop every split packet that has been incomplete for the timeout
    /// or longer at `now_ms`.
    pub fn expire_split_packets(&mut self, now_ms: u64)
        requires
            conn_wf(*old(self)),
        ensures
            conn_wf(*final(self)),
            *final(self) == (Connection { split_packets: final(self).split_packets, ..*old(self) }),
            final(self).split_packets@ == expire_spec(old(self).split_packets@, now_ms),
    {
        let ghost old_map = self.split_packets@;
        let mut keys: Vec<u16> = Vec::new();
        for k in it: self.split_packets.keys()
            invariant
                keys@.len() == it.index(),
                it.seq().unref().to_set() == old_map.dom(),
                forall|j: int| 0 <= j < keys@.len() ==> keys@[j] == *it.seq()[j],
                it.index() < it.seq().len() || keys@.to_set() == old_map.dom(),
        {
            keys.push(*k);
            assert(it.index() + 1 == it.seq().len() ==> keys@ =~= it.seq().unref());
        }
        proof {
            if old_map.dom().len() == 0 {
                assert(old_map.dom() =~= Set::<u16>::empty());
            }
        }
        let mut i: usize = 0;
        while i < keys.len()
            invariant
                0 <= i <= keys@.len(),
                keys@.to_set() == old_map.dom(),
                splits_wf(old_map),
                *self == (Connection { split_packets: self.split_packets, ..*old(self) }),
                old_map == old(self).split_packets@,
                self.split_packets@ == Map::new(
                    |x: u16| old_map.contains_key(x) && (!keys@.take(i as int).contains(x) || split_alive(old_map[x].created_at_ms, now_ms)),
                    |x: u16| old_map[x],
                ),
            decreases keys@.len() - i,
        {
            let k = keys[i];
            let ghost before = self.split_packets@;
            let drop = match self.split_packets.get(&k) {
                Some(sp) => {
                    assert(before.contains_key(k) && before[k] == *sp);
                    let age: u64 = if now_ms >= sp.created_at_ms { now_ms - sp.created_at_ms } else { 0 };
                    age >= SPLIT_PACKET_TIMEOUT_MS
                },
                None => false,
            };
            assert(before.contains_key(k) ==> (drop == !split_alive(old_map[k].created_at_ms, now_ms)));
            assert(!before.contains_key(k) ==> !drop);
            if drop {
                self.split_packets.remove(&k);
            }
            proof {
                assert(keys@.take(i + 1) == keys@.take(i as int).push(k));
                assert forall|x: u16| keys@.take(i + 1).contains(x) == (keys@.take(i as int).contains(x) || x == k) by {
                    if keys@.take(i as int).contains(x) {
                        let j = choose|j: int| 0 <= j < i && #[trigger] keys@.take(i as int)[j] == x;
                        assert(keys@.take(i + 1)[j] == x);
                    }
                    if x == k {
                        assert(keys@.take(i + 1)[i as int] == x);
                    }
                    if keys@.take(i + 1).contains(x) {
                        let j = choose|j: int| 0 <= j < i + 1 && #[trigger] keys@.take(i + 1)[j] == x;
                        if j < i {
                            assert(keys@.take(i as int)[j] == x);
                        }
                    }
                }
                assert(self.split_packets@ =~= Map::new(
                    |x: u16| old_map.contains_key(x) && (!keys@.take(i + 1).contains(x) || split_alive(old_map[x].created_at_ms, now_ms)),
                    |x: u16| old_map[x],
                ));
            }
            i = i + 1;
        }
        proof {
            assert(keys@.take(keys@.len() as int) == keys@);
            assert(self.split_packets@ =~= expire_spec(old_map, now_ms));
        }
    }
}

} // verus!
