//! The Kademlia routing table: buckets of at most `K` nodes, kept by XOR distance.
use vstd::prelude::*;
use vstd::seq_lib::{to_multiset_build, to_multiset_insert};

use crate::bencode::{bytes_lt, lemma_lex_irreflexive, lemma_lex_transitive, lex_lt};
use crate::types::{bit_of, byte_leading_zeros, seq_leading_zeros, xor_seq, KBucketEntry, NodeId};
use crate::util::current_time_millis;

verus! {

/// Nodes a bucket holds at most.
pub const K: usize = 8;

/// Milliseconds after which a bucket is due for a refresh.
pub const REFRESH_INTERVAL_MS: u64 = 900_000;

/// Milliseconds of silence after which a node may be replaced.
pub const STALE_INTERVAL_MS: u64 = 900_000;

/// Number of buckets a new table starts with.
pub const INITIAL_BUCKETS: usize = 160;

/// What became of a node offered to a bucket.
#[derive(Debug, Clone, Copy, PartialEq, Eq, Structural)]
pub enum InsertResult {
    Added,
    Existing,
    Replaced,
    Full,
}

/// Whether two node ids are the same.
pub fn same_node(a: &NodeId, b: &NodeId) -> (r: bool)
    ensures
        r == (*a == *b),
{
    let mut i: usize = 0;
    while i < 20
        invariant
            i <= 20,
            forall|j: int| 0 <= j < i ==> a.0@[j] == b.0@[j],
        decreases 20 - i,
    {
        if a.0[i] != b.0[i] {
            return false;
        }
        i += 1;
    }
    assert(a.0 =~= b.0);
    true
}

/// The XOR distance of a node to a target, as bytes.
pub open spec fn distance(id: NodeId, target: NodeId) -> Seq<u8> {
    xor_seq(id.0@, target.0@)
}

/// No entry is strictly closer to `target` than an entry before it.
pub open spec fn sorted_by_distance(s: Seq<KBucketEntry>, target: NodeId) -> bool {
    forall|i: int, j: int|
        0 <= i < j < s.len() ==> !lex_lt(
            #[trigger] distance(s[j].node_id, target),
            #[trigger] distance(s[i].node_id, target),
        )
}

/// Where an entry at distance `d` goes among `s`: after every entry that is
/// not farther than it.
pub open spec fn distance_slot(s: Seq<KBucketEntry>, target: NodeId, d: Seq<u8>) -> nat
    decreases s.len(),
{
    if s.len() == 0 {
        0
    } else if lex_lt(d, distance(s[0].node_id, target)) {
        0
    } else {
        1 + distance_slot(s.drop_first(), target, d)
    }
}

/// The entries in order of distance to `target`, those at equal distance in
/// their order in `s`, as a stable sort leaves them.
pub open spec fn by_distance(s: Seq<KBucketEntry>, target: NodeId) -> Seq<KBucketEntry>
    decreases s.len(),
{
    if s.len() == 0 {
        s
    } else {
        let rest = by_distance(s.drop_last(), target);
        rest.insert(distance_slot(rest, target, distance(s.last().node_id, target)) as int, s.last())
    }
}

/// `r` is the first `count` entries of `cands` put in order of distance to
/// `target`, those at equal distance in their order in `cands`.
pub open spec fn closest_of(
    cands: Seq<KBucketEntry>,
    target: NodeId,
    count: nat,
    r: Seq<KBucketEntry>,
) -> bool {
    &&& exists|p: Seq<KBucketEntry>|
        #![trigger sorted_by_distance(p, target)]
        p.to_multiset() == cands.to_multiset() && sorted_by_distance(p, target) && r == p.take(
            if count < p.len() {
                count as int
            } else {
                p.len() as int
            },
        )
    &&& r == by_distance(cands, target).take(
        if count < cands.len() {
            count as int
        } else {
            cands.len() as int
        },
    )
}

/// The slot of distance `d` is the first position farther than `d`.
proof fn lemma_distance_slot(s: Seq<KBucketEntry>, target: NodeId, d: Seq<u8>, pos: int)
    requires
        0 <= pos <= s.len(),
        forall|k: int| 0 <= k < pos ==> !lex_lt(d, #[trigger] distance(s[k].node_id, target)),
        pos == s.len() || lex_lt(d, distance(s[pos].node_id, target)),
    ensures
        distance_slot(s, target, d) == pos,
    decreases pos,
{
    if pos > 0 {
        assert forall|k: int| 0 <= k < pos - 1 implies !lex_lt(d, #[trigger] distance(s.drop_first()[k].node_id, target)) by {
            assert(s.drop_first()[k] == s[k + 1]);
        }
        lemma_distance_slot(s.drop_first(), target, d, pos - 1);
    }
}

/// Distance of an entry's node to a target.
fn entry_distance(e: &KBucketEntry, target: &NodeId) -> (d: [u8; 20])
    ensures
        d@ == distance(e.node_id, *target),
{
    e.node_id.xor_distance(target)
}

/// Whether distance `a` is strictly smaller than distance `b`.
fn distance_lt(a: &[u8; 20], b: &[u8; 20]) -> (r: bool)
    ensures
        r == lex_lt(a@, b@),
{
    bytes_lt(a.as_slice(), b.as_slice())
}

/// The entries in order of distance to `target`; entries at equal distance keep their order.
pub fn sort_by_distance(v: &Vec<KBucketEntry>, target: &NodeId) -> (out: Vec<KBucketEntry>)
    ensures
        out@.to_multiset() == v@.to_multiset(),
        sorted_by_distance(out@, *target),
        out@.len() == v@.len(),
        out@ == by_distance(v@, *target),
{
    let mut out: Vec<KBucketEntry> = Vec::new();
    let mut i: usize = 0;
    assert(out@ =~= v@.take(0));
    while i < v.len()
        invariant
            i <= v@.len(),
            out@.to_multiset() == v@.take(i as int).to_multiset(),
            sorted_by_distance(out@, *target),
            out@.len() == i,
            out@ == by_distance(v@.take(i as int), *target),
        decreases v@.len() - i,
    {
        let e = v[i];
        let d = entry_distance(&e, target);
        let mut pos: usize = 0;
        let mut found = false;
        while pos < out.len() && !found
            invariant
                pos <= out@.len(),
                found ==> pos < out@.len() && lex_lt(d@, distance(out@[pos as int].node_id, *target)),
                forall|k: int|
                    0 <= k < pos ==> !lex_lt(d@, #[trigger] distance(out@[k].node_id, *target)),
            decreases out@.len() - pos + (if found { 0int } else { 1int }),
        {
            let dk = entry_distance(&out[pos], target);
            if distance_lt(&d, &dk) {
                found = true;
            } else {
                pos += 1;
            }
        }
        let ghost old_out = out@;
        out.insert(pos, e);
        proof {
            let s = out@;
            assert(s == old_out.insert(pos as int, e));
            assert forall|a: int, b: int| 0 <= a < b < s.len() implies !lex_lt(
                #[trigger] distance(s[b].node_id, *target),
                #[trigger] distance(s[a].node_id, *target),
            ) by {
                if b < pos {
                } else if b == pos {
                    assert(s[a] == old_out[a]);
                } else if a == pos {
                    let x = distance(old_out[b - 1].node_id, *target);
                    let y = distance(old_out[pos as int].node_id, *target);
                    if lex_lt(x, d@) {
                        if b - 1 == pos {
                            lemma_lex_transitive(x, d@, x);
                            lemma_lex_irreflexive(x);
                        } else {
                            lemma_lex_transitive(x, d@, y);
                        }
                    }
                } else if a < pos {
                    assert(s[a] == old_out[a]);
                    assert(s[b] == old_out[b - 1]);
                } else {
                    assert(s[a] == old_out[a - 1]);
                    assert(s[b] == old_out[b - 1]);
                }
            }
            to_multiset_insert(old_out, pos as int, e);
            assert(v@.take(i + 1) =~= v@.take(i as int).push(e));
            to_multiset_build(v@.take(i as int), e);
            lemma_distance_slot(old_out, *target, d@, pos as int);
            assert(v@.take(i + 1).drop_last() =~= v@.take(i as int));
        }
        i += 1;
    }
    assert(v@.take(v@.len() as int) =~= v@);
    out
}

/// The first `count` entries of `v` in order of distance to `target`.
pub fn closest_entries(v: &Vec<KBucketEntry>, target: &NodeId, count: usize) -> (r: Vec<KBucketEntry>)
    ensures
        closest_of(v@, *target, count as nat, r@),
{
    let mut sorted = sort_by_distance(v, target);
    let ghost p = sorted@;
    sorted.truncate(count);
    assert(sorted@ == p.take(if count < p.len() { count as int } else { p.len() as int }));
    assert(p.to_multiset() == v@.to_multiset() && sorted_by_distance(p, *target));
    sorted
}

/// The index of the first entry for node `id`, or -1.
pub open spec fn index_of_node(s: Seq<KBucketEntry>, id: NodeId) -> int {
    if exists|i: int| 0 <= i < s.len() && (#[trigger] s[i]).node_id == id {
        choose|i: int|
            0 <= i < s.len() && (#[trigger] s[i]).node_id == id && forall|j: int|
                0 <= j < i ==> (#[trigger] s[j]).node_id != id
    } else {
        -1
    }
}

/// Whether `now` is more than `STALE_INTERVAL_MS` after the entry was last seen.
pub open spec fn is_stale(e: KBucketEntry, now: u64) -> bool {
    now > e.last_seen_ms + STALE_INTERVAL_MS
}

/// The index of the first stale entry, or -1.
pub open spec fn index_of_stale(s: Seq<KBucketEntry>, now: u64) -> int {
    if exists|i: int| 0 <= i < s.len() && is_stale(#[trigger] s[i], now) {
        choose|i: int|
            0 <= i < s.len() && is_stale(#[trigger] s[i], now) && forall|j: int|
                0 <= j < i ==> !is_stale(#[trigger] s[j], now)
    } else {
        -1
    }
}

/// The entries of a bucket in order, and when it was last refreshed.
pub struct BucketModel {
    pub entries: Seq<KBucketEntry>,
    pub last_refreshed: u64,
}

/// At most `K` entries, no node twice.
pub open spec fn bucket_ok(b: BucketModel) -> bool {
    &&& b.entries.len() <= K
    &&& forall|i: int, j: int|
        0 <= i < j < b.entries.len() ==> (#[trigger] b.entries[i]).node_id != (#[trigger] b.entries[j]).node_id
}

/// What offering `entry` at time `now` does to a bucket, and what it answers.
pub open spec fn bucket_insert(b: BucketModel, entry: KBucketEntry, now: u64) -> (BucketModel, InsertResult) {
    let s = b.entries;
    let pos = index_of_node(s, entry.node_id);
    if pos >= 0 {
        let seen = KBucketEntry { last_seen_ms: now, latency_ms: entry.latency_ms, ..s[pos] };
        let u = s.update(pos, seen);
        (
            BucketModel { entries: u.subrange(pos, u.len() as int) + u.subrange(0, pos), ..b },
            InsertResult::Existing,
        )
    } else if s.len() < K {
        (BucketModel { entries: s.push(entry), ..b }, InsertResult::Added)
    } else {
        let st = index_of_stale(s, now);
        if st >= 0 {
            (BucketModel { entries: s.remove(st).push(entry), ..b }, InsertResult::Replaced)
        } else {
            (b, InsertResult::Full)
        }
    }
}

/// The entries of `s` whose node is not `id`, in order.
pub open spec fn without_node(s: Seq<KBucketEntry>, id: NodeId) -> Seq<KBucketEntry>
    decreases s.len(),
{
    if s.len() == 0 {
        s
    } else {
        let r = without_node(s.drop_last(), id);
        if s.last().node_id == id {
            r
        } else {
            r.push(s.last())
        }
    }
}

/// Bit `idx` (most significant first) of the distance between `local` and `id`.
pub open spec fn split_bit(local: NodeId, id: NodeId, idx: int) -> bool {
    bit_of(xor_seq(local.0@, id.0@), idx)
}

/// The entries of `s` whose split bit at `idx` is `side`, in order.
pub open spec fn split_side(s: Seq<KBucketEntry>, local: NodeId, idx: int, side: bool) -> Seq<KBucketEntry>
    decreases s.len(),
{
    if s.len() == 0 {
        s
    } else {
        let r = split_side(s.drop_last(), local, idx, side);
        if split_bit(local, s.last().node_id, idx) == side {
            r.push(s.last())
        } else {
            r
        }
    }
}

/// Whether a bucket last refreshed at `last` is due at `now`.
pub open spec fn refresh_due(last: u64, now: u64) -> bool {
    now > last + REFRESH_INTERVAL_MS
}

/// Every entry of `without_node(s, id)` is an entry of `s` other than `id`, and
/// every such entry of `s` is kept.
pub proof fn lemma_without_node(s: Seq<KBucketEntry>, id: NodeId)
    ensures
        without_node(s, id).len() <= s.len(),
        forall|e: KBucketEntry| #[trigger] without_node(s, id).contains(e) <==> (s.contains(e) && e.node_id != id),
    decreases s.len(),
{
    if s.len() > 0 {
        lemma_without_node(s.drop_last(), id);
        let t = s.drop_last();
        let r = without_node(t, id);
        let q = without_node(s, id);
        assert forall|e: KBucketEntry| #[trigger] q.contains(e) implies (s.contains(e) && e.node_id != id) by {
            if r.contains(e) {
                let k = choose|k: int| 0 <= k < r.len() && r[k] == e;
                assert(r[k] == e);
                assert(t.contains(e));
                let m = choose|m: int| 0 <= m < t.len() && t[m] == e;
                assert(s[m] == e);
            } else {
                let k = choose|k: int| 0 <= k < q.len() && q[k] == e;
                assert(q.len() == r.len() + 1);
                if k < r.len() {
                    assert(q[k] == r[k]);
                    assert(r.contains(e));
                }
                assert(e == s.last());
                assert(s[s.len() - 1] == e);
            }
        }
        assert forall|e: KBucketEntry| (s.contains(e) && e.node_id != id) implies #[trigger] q.contains(e) by {
            let i = choose|i: int| 0 <= i < s.len() && s[i] == e;
            if i < s.len() - 1 {
                assert(t[i] == e);
                assert(t.contains(e));
                assert(r.contains(e));
                let k = choose|k: int| 0 <= k < r.len() && r[k] == e;
                if s.last().node_id != id {
                    assert(q[k] == r[k]);
                }
            } else {
                assert(q[r.len() as int] == e);
            }
        }
    }
}

/// The entries of a side of a split are entries of `s`, each kept once and in order.
pub proof fn lemma_split_side(s: Seq<KBucketEntry>, local: NodeId, idx: int, side: bool)
    ensures
        split_side(s, local, idx, side).len() <= s.len(),
        forall|e: KBucketEntry| #[trigger] split_side(s, local, idx, side).contains(e) ==> s.contains(e),
        forall|i: int| 0 <= i < split_side(s, local, idx, side).len() ==> split_bit(local, (#[trigger] split_side(s, local, idx, side)[i]).node_id, idx) == side,
        (forall|i: int, j: int| 0 <= i < j < s.len() ==> (#[trigger] s[i]).node_id != (#[trigger] s[j]).node_id)
            ==> (forall|i: int, j: int| 0 <= i < j < split_side(s, local, idx, side).len()
                ==> (#[trigger] split_side(s, local, idx, side)[i]).node_id != (#[trigger] split_side(s, local, idx, side)[j]).node_id),
    decreases s.len(),
{
    if s.len() > 0 {
        let t = s.drop_last();
        lemma_split_side(t, local, idx, side);
        let r = split_side(t, local, idx, side);
        assert forall|e: KBucketEntry| #[trigger] split_side(s, local, idx, side).contains(e) implies s.contains(e) by {
            if r.contains(e) {
                let i = choose|i: int| 0 <= i < r.len() && r[i] == e;
                assert(t.contains(e));
                let k = choose|k: int| 0 <= k < t.len() && t[k] == e;
                assert(s[k] == e);
            } else {
                assert(e == s.last());
                assert(s[s.len() - 1] == e);
            }
        }
        if forall|i: int, j: int| 0 <= i < j < s.len() ==> (#[trigger] s[i]).node_id != (#[trigger] s[j]).node_id {
            assert forall|i: int, j: int| 0 <= i < j < t.len() implies (#[trigger] t[i]).node_id != (#[trigger] t[j]).node_id by {
                assert(s[i] == t[i] && s[j] == t[j]);
            }
            let q = split_side(s, local, idx, side);
            assert forall|i: int, j: int| 0 <= i < j < q.len() implies (#[trigger] q[i]).node_id != (#[trigger] q[j]).node_id by {
                if j == r.len() && q.len() > r.len() {
                    assert(r.contains(q[i]));
                    assert(t.contains(q[i]));
                    let k = choose|k: int| 0 <= k < t.len() && t[k] == q[i];
                    assert(s[k] == q[i]);
                    assert(q[j] == s[s.len() - 1]);
                } else {
                    assert(q[i] == r[i] && q[j] == r[j]);
                }
            }
        }
    }
}

/// A bucket of the routing table.
#[derive(Debug, Clone)]
pub struct KBucket {
    entries: Vec<KBucketEntry>,
    last_refreshed_ms: u64,
}

impl View for KBucket {
    type V = BucketModel;

    closed spec fn view(&self) -> BucketModel {
        BucketModel { entries: self.entries@, last_refreshed: self.last_refreshed_ms }
    }
}

impl KBucket {
    /// An empty bucket refreshed at `now`.
    pub fn new_at(now: u64) -> (b: KBucket)
        ensures
            b@.entries == Seq::<KBucketEntry>::empty(),
            b@.last_refreshed == now,
    {
        KBucket { entries: Vec::new(), last_refreshed_ms: now }
    }

    /// An empty bucket refreshed now.
    pub fn new() -> (b: KBucket)
        ensures
            b@.entries == Seq::<KBucketEntry>::empty(),
    {
        KBucket::new_at(current_time_millis())
    }

    /// Whether the bucket holds `K` entries or more.
    pub fn is_full(&self) -> (r: bool)
        ensures
            r == (self@.entries.len() >= K),
    {
        self.entries.len() >= K
    }

    /// Number of entries.
    pub fn len(&self) -> (n: usize)
        ensures
            n == self@.entries.len(),
    {
        self.entries.len()
    }

    /// The index of the entry for node `id`, if there is one.
    fn position_of(&self, id: &NodeId) -> (r: Option<usize>)
        ensures
            match r {
                Some(p) => p as int == index_of_node(self@.entries, *id),
                None => index_of_node(self@.entries, *id) == -1,
            },
    {
        let mut i: usize = 0;
        while i < self.entries.len()
            invariant
                i <= self@.entries.len(),
                forall|j: int| 0 <= j < i ==> (#[trigger] self@.entries[j]).node_id != *id,
            decreases self@.entries.len() - i,
        {
            if same_node(&self.entries[i].node_id, id) {
                let ghost s = self@.entries;
                assert(0 <= i < s.len() && s[i as int].node_id == *id);
                let ghost c = index_of_node(s, *id);
                assert(c == i) by {
                    if c < i {
                        assert(s[c].node_id != *id);
                    } else if c > i {
                    }
                };
                return Some(i);
            }
            i += 1;
        }
        None
    }

    /// The index of the first stale entry, if there is one.
    fn position_of_stale(&self, now: u64) -> (r: Option<usize>)
        ensures
            match r {
                Some(p) => p as int == index_of_stale(self@.entries, now),
                None => index_of_stale(self@.entries, now) == -1,
            },
    {
        let mut i: usize = 0;
        while i < self.entries.len()
            invariant
                i <= self@.entries.len(),
                forall|j: int| 0 <= j < i ==> !is_stale(#[trigger] self@.entries[j], now),
            decreases self@.entries.len() - i,
        {
            let seen = self.entries[i].last_seen_ms;
            if now > seen && now - seen > STALE_INTERVAL_MS {
                let ghost s = self@.entries;
                assert(is_stale(s[i as int], now));
                let ghost c = index_of_stale(s, now);
                assert(c == i) by {
                    if c < i {
                        assert(!is_stale(s[c], now));
                    }
                };
                return Some(i);
            }
            i += 1;
        }
        None
    }

    /// Offers an entry at time `now`: a known node is refreshed and moved to the
    /// front, a new one is added while there is room, else it takes the place of
    /// the first stale node, else the bucket is full.
    pub fn insert_at(&mut self, entry: KBucketEntry, now: u64) -> (r: InsertResult)
        requires
            bucket_ok(old(self)@),
        ensures
            (final(self)@, r) == bucket_insert(old(self)@, entry, now),
            bucket_ok(final(self)@),
    {
        let ghost s = self@.entries;
        match self.position_of(&entry.node_id) {
            Some(pos) => {
                let mut seen = self.entries[pos];
                seen.last_seen_ms = now;
                seen.latency_ms = entry.latency_ms;
                self.entries.set(pos, seen);
                let ghost u = self.entries@;
                let mut rotated: Vec<KBucketEntry> = Vec::new();
                let mut i: usize = pos;
                while i < self.entries.len()
                    invariant
                        pos <= i <= u.len(),
                        self.entries@ == u,
                        rotated@ == u.subrange(pos as int, i as int),
                    decreases u.len() - i,
                {
                    rotated.push(self.entries[i]);
                    i += 1;
                }
                let mut j: usize = 0;
                while j < pos
                    invariant
                        j <= pos < u.len(),
                        self.entries@ == u,
                        rotated@ == u.subrange(pos as int, u.len() as int) + u.subrange(0, j as int),
                    decreases pos - j,
                {
                    rotated.push(self.entries[j]);
                    j += 1;
                }
                self.entries = rotated;
                proof {
                    let n = s.len();
                    let t = self.entries@;
                    assert(t.len() == n);
                    assert forall|a: int, b: int| 0 <= a < b < t.len() implies (#[trigger] t[a]).node_id != (#[trigger] t[b]).node_id by {
                        let a1 = if a < n - pos { a + pos } else { a - (n - pos) };
                        let b1 = if b < n - pos { b + pos } else { b - (n - pos) };
                        assert(t[a].node_id == s[a1].node_id);
                        assert(t[b].node_id == s[b1].node_id);
                        assert(a1 != b1);
                        if a1 < b1 {
                        } else {
                        }
                    }
                }
                InsertResult::Existing
            },
            None => {
                if self.entries.len() < K {
                    self.entries.push(entry);
                    proof {
                        let t = self@.entries;
                        assert forall|a: int, b: int| 0 <= a < b < t.len() implies (#[trigger] t[a]).node_id != (#[trigger] t[b]).node_id by {
                            if b == s.len() {
                                assert(t[a] == s[a]);
                            }
                        }
                    }
                    InsertResult::Added
                } else {
                    match self.position_of_stale(now) {
                        Some(st) => {
                            self.entries.remove(st);
                            self.entries.push(entry);
                            proof {
                                let t = self@.entries;
                                assert(t == s.remove(st as int).push(entry));
                                assert forall|a: int, b: int| 0 <= a < b < t.len() implies (#[trigger] t[a]).node_id != (#[trigger] t[b]).node_id by {
                                    let a1 = if a < st { a } else { a + 1 };
                                    assert(t[a] == s[a1]);
                                    if b < t.len() - 1 {
                                        let b1 = if b < st { b } else { b + 1 };
                                        assert(t[b] == s[b1]);
                                    }
                                }
                            }
                            InsertResult::Replaced
                        },
                        None => InsertResult::Full,
                    }
                }
            },
        }
    }

    /// Offers an entry now; see `insert_at`.
    pub fn insert(&mut self, entry: KBucketEntry) -> (r: InsertResult)
        requires
            bucket_ok(old(self)@),
        ensures
            exists|now: u64| (final(self)@, r) == bucket_insert(old(self)@, entry, now),
            bucket_ok(final(self)@),
    {
        let now = current_time_millis();
        self.insert_at(entry, now)
    }

    /// Drops every entry for node `id`.
    pub fn remove(&mut self, id: &NodeId)
        requires
            bucket_ok(old(self)@),
        ensures
            final(self)@.entries == without_node(old(self)@.entries, *id),
            final(self)@.last_refreshed == old(self)@.last_refreshed,
            bucket_ok(final(self)@),
    {
        let ghost s = self@.entries;
        let mut kept: Vec<KBucketEntry> = Vec::new();
        let mut i: usize = 0;
        while i < self.entries.len()
            invariant
                i <= s.len(),
                self.entries@ == s,
                kept@ == without_node(s.take(i as int), *id),
            decreases s.len() - i,
        {
            let e = self.entries[i];
            assert(s.take(i + 1).drop_last() =~= s.take(i as int));
            if !same_node(&e.node_id, id) {
                kept.push(e);
            }
            i += 1;
        }
        assert(s.take(s.len() as int) =~= s);
        self.entries = kept;
        proof {
            lemma_without_node_order(s, *id);
        }
    }

    /// The `count` entries nearest to `target`, nearest first.
    pub fn find_closest(&self, target: &NodeId, count: usize) -> (r: Vec<KBucketEntry>)
        ensures
            closest_of(self@.entries, *target, count as nat, r@),
    {
        closest_entries(&self.entries, target, count)
    }

    /// Whether the bucket was last refreshed more than `REFRESH_INTERVAL_MS` before `now`.
    pub fn needs_refresh_at(&self, now: u64) -> (r: bool)
        ensures
            r == refresh_due(self@.last_refreshed, now),
    {
        now > self.last_refreshed_ms && now - self.last_refreshed_ms > REFRESH_INTERVAL_MS
    }

    /// Whether the bucket is due for a refresh now.
    pub fn needs_refresh(&self) -> (r: bool)
        ensures
            exists|now: u64| r == refresh_due(self@.last_refreshed, now),
    {
        self.needs_refresh_at(current_time_millis())
    }

    /// Records a refresh at `now`.
    pub fn mark_refreshed_at(&mut self, now: u64)
        ensures
            final(self)@ == (BucketModel { last_refreshed: now, ..old(self)@ }),
    {
        self.last_refreshed_ms = now;
    }

    /// Records a refresh now.
    pub fn mark_refreshed(&mut self)
        ensures
            final(self)@.entries == old(self)@.entries,
    {
        self.mark_refreshed_at(current_time_millis());
    }

    /// The entries, in order.
    pub fn entries(&self) -> (r: &Vec<KBucketEntry>)
        ensures
            r@ == self@.entries,
    {
        &self.entries
    }

    /// When the bucket was last refreshed.
    pub fn get_last_refreshed(&self) -> (t: u64)
        ensures
            t == self@.last_refreshed,
    {
        self.last_refreshed_ms
    }

    /// Splits the entries by bit `bucket_idx` of their distance to `local_id`:
    /// clear bits go left, set bits right, both refreshed at `now`; this bucket is emptied.
    pub fn split_at(&mut self, local_id: &NodeId, bucket_idx: usize, now: u64) -> (r: (KBucket, KBucket))
        requires
            bucket_idx < 160,
            bucket_ok(old(self)@),
        ensures
            r.0@ == (BucketModel {
                entries: split_side(old(self)@.entries, *local_id, bucket_idx as int, false),
                last_refreshed: now,
            }),
            r.1@ == (BucketModel {
                entries: split_side(old(self)@.entries, *local_id, bucket_idx as int, true),
                last_refreshed: now,
            }),
            bucket_ok(r.0@),
            bucket_ok(r.1@),
            final(self)@.entries.len() == 0,
    {
        let ghost s = self@.entries;
        let mut left = KBucket::new_at(now);
        let mut right = KBucket::new_at(now);
        let byte_idx = bucket_idx / 8;
        let sh: u8 = (7 - bucket_idx % 8) as u8;
        let mask: u8 = 1u8 << sh;
        let mut i: usize = 0;
        while i < self.entries.len()
            invariant
                i <= s.len(),
                self.entries@ == s,
                byte_idx == bucket_idx / 8,
                byte_idx < 20,
                sh == (7 - bucket_idx % 8) as u8,
                mask == 1u8 << sh,
                left@.entries == split_side(s.take(i as int), *local_id, bucket_idx as int, false),
                right@.entries == split_side(s.take(i as int), *local_id, bucket_idx as int, true),
                left@.last_refreshed == now,
                right@.last_refreshed == now,
            decreases s.len() - i,
        {
            let e = self.entries[i];
            let dist = local_id.xor_distance(&e.node_id);
            assert(s.take(i + 1).drop_last() =~= s.take(i as int));
            assert(s.take(i + 1).last() == e);
            if (dist[byte_idx] & mask) == 0 {
                left.entries.push(e);
            } else {
                right.entries.push(e);
            }
            i += 1;
        }
        assert(s.take(s.len() as int) =~= s);
        self.entries = Vec::new();
        proof {
            lemma_split_side(s, *local_id, bucket_idx as int, false);
            lemma_split_side(s, *local_id, bucket_idx as int, true);
        }
        (left, right)
    }

    /// Splits the entries now; see `split_at`.
    pub fn split(&mut self, local_id: &NodeId, bucket_idx: usize) -> (r: (KBucket, KBucket))
        requires
            bucket_idx < 160,
            bucket_ok(old(self)@),
        ensures
            r.0@.entries == split_side(old(self)@.entries, *local_id, bucket_idx as int, false),
            r.1@.entries == split_side(old(self)@.entries, *local_id, bucket_idx as int, true),
            bucket_ok(r.0@),
            bucket_ok(r.1@),
            final(self)@.entries.len() == 0,
    {
        self.split_at(local_id, bucket_idx, current_time_millis())
    }
}

/// Dropping a node keeps the bucket within bounds and free of repeats.
pub proof fn lemma_without_node_order(s: Seq<KBucketEntry>, id: NodeId)
    requires
        forall|i: int, j: int| 0 <= i < j < s.len() ==> (#[trigger] s[i]).node_id != (#[trigger] s[j]).node_id,
    ensures
        without_node(s, id).len() <= s.len(),
        forall|i: int, j: int|
            0 <= i < j < without_node(s, id).len() ==> (#[trigger] without_node(s, id)[i]).node_id
                != (#[trigger] without_node(s, id)[j]).node_id,
    decreases s.len(),
{
    if s.len() > 0 {
        let t = s.drop_last();
        assert forall|i: int, j: int| 0 <= i < j < t.len() implies (#[trigger] t[i]).node_id != (#[trigger] t[j]).node_id by {
            assert(s[i] == t[i] && s[j] == t[j]);
        }
        lemma_without_node_order(t, id);
        lemma_without_node(t, id);
        let r = without_node(t, id);
        let q = without_node(s, id);
        assert forall|i: int, j: int| 0 <= i < j < q.len() implies (#[trigger] q[i]).node_id != (#[trigger] q[j]).node_id by {
            if j == r.len() && q.len() > r.len() {
                assert(r.contains(q[i]));
                assert(t.contains(q[i]));
                let k = choose|k: int| 0 <= k < t.len() && t[k] == q[i];
                assert(s[k] == q[i]);
                assert(q[j] == s[s.len() - 1]);
            } else {
                assert(q[i] == r[i] && q[j] == r[j]);
            }
        }
    }
}

/// Every byte of `d` is zero.
pub open spec fn all_zero(d: Seq<u8>) -> bool {
    forall|i: int| 0 <= i < d.len() ==> d[i] == 0
}

/// Leading zero bits count eight per zero byte and stop at the first other byte.
pub proof fn lemma_leading_zeros_bound(s: Seq<u8>)
    ensures
        seq_leading_zeros(s) <= 8 * s.len(),
        seq_leading_zeros(s) == 8 * s.len() <==> all_zero(s),
    decreases s.len(),
{
    if s.len() > 0 {
        lemma_leading_zeros_bound(s.drop_first());
        if s[0] == 0 {
            if all_zero(s.drop_first()) {
                assert forall|i: int| 0 <= i < s.len() implies s[i] == 0 by {
                    if i > 0 {
                        assert(s[i] == s.drop_first()[i - 1]);
                    }
                }
            } else {
                let i = choose|i: int| 0 <= i < s.drop_first().len() && s.drop_first()[i] != 0;
                assert(s[i + 1] != 0);
            }
        } else {
            assert(byte_leading_zeros(s[0]) <= 7);
        }
    }
}

/// The bucket a node belongs in: 159 for every node but the local one, which
/// belongs in bucket 0.
pub open spec fn bucket_index_of(local: NodeId, id: NodeId) -> int {
    let d = xor_seq(local.0@, id.0@);
    let leading: int = if all_zero(d) {
        1280
    } else {
        seq_leading_zeros(d) as int
    };
    let v: int = if leading <= 1279 {
        1279 - leading
    } else {
        0
    };
    if v < 159 {
        v
    } else {
        159
    }
}

/// A node is at distance zero from itself only.
pub proof fn lemma_distance_zero(a: NodeId, b: NodeId)
    ensures
        all_zero(xor_seq(a.0@, b.0@)) <==> a == b,
{
    if all_zero(xor_seq(a.0@, b.0@)) {
        assert forall|i: int| 0 <= i < 20 implies a.0@[i] == b.0@[i] by {
            let x = a.0@[i];
            let y = b.0@[i];
            assert(xor_seq(a.0@, b.0@)[i] == x ^ y);
            assert(x ^ y == 0 ==> x == y) by (bit_vector);
        }
        assert(a.0 =~= b.0);
    }
    if a == b {
        assert forall|i: int| 0 <= i < 20 implies xor_seq(a.0@, b.0@)[i] == 0 by {
            let x = a.0@[i];
            assert(x ^ x == 0) by (bit_vector);
        }
    }
}

/// Every node but the local one belongs in the last bucket; the local one in the first.
pub proof fn lemma_bucket_index(local: NodeId, id: NodeId)
    ensures
        bucket_index_of(local, id) == (if id == local { 0int } else { 159int }),
{
    lemma_distance_zero(local, id);
    lemma_leading_zeros_bound(xor_seq(local.0@, id.0@));
}

/// The local node, and the buckets in order.
pub struct TableModel {
    pub local: NodeId,
    pub buckets: Seq<BucketModel>,
}

/// Entries in all the buckets together.
pub open spec fn total_entries(bs: Seq<BucketModel>) -> nat
    decreases bs.len(),
{
    if bs.len() == 0 {
        0
    } else {
        total_entries(bs.drop_last()) + bs.last().entries.len()
    }
}

/// A well-formed table: at least `INITIAL_BUCKETS` well-formed buckets, a
/// count of entries that fits in memory, and nothing but the local node in
/// bucket 0.
pub open spec fn table_ok(t: TableModel) -> bool {
    &&& t.buckets.len() >= INITIAL_BUCKETS
    &&& t.buckets.len() * K <= usize::MAX
    &&& forall|i: int| 0 <= i < t.buckets.len() ==> bucket_ok(#[trigger] t.buckets[i])
    &&& forall|i: int| 0 <= i < t.buckets[0].entries.len() ==> (#[trigger] t.buckets[0].entries[i]).node_id == t.local
}

/// Whether bucket `idx` may be split: it exists and holds the local node.
pub open spec fn can_split_at(t: TableModel, idx: int) -> bool {
    0 <= idx < t.buckets.len() && idx == bucket_index_of(t.local, t.local)
}

/// Bucket `idx` split in two by bit `idx` of the distance to the local node,
/// both halves refreshed at `now`.
pub open spec fn split_buckets(bs: Seq<BucketModel>, local: NodeId, idx: int, now: u64) -> Seq<BucketModel> {
    let b = bs[idx];
    let left = BucketModel { entries: split_side(b.entries, local, idx, false), last_refreshed: now };
    let right = BucketModel { entries: split_side(b.entries, local, idx, true), last_refreshed: now };
    bs.update(idx, left).insert(idx + 1, right)
}

/// What inserting `e` at time `now` does to a table, and what it answers: the
/// node goes to its bucket; a full bucket that may be split is split and the
/// node offered again to its half.
pub open spec fn table_insert(t: TableModel, e: KBucketEntry, now: u64) -> (TableModel, InsertResult) {
    let idx = bucket_index_of(t.local, e.node_id);
    let (b1, r) = bucket_insert(t.buckets[idx], e, now);
    if r == InsertResult::Full && can_split_at(t, idx) {
        let bs = split_buckets(t.buckets, t.local, idx, now);
        let new_idx = if split_bit(t.local, e.node_id, idx) {
            idx + 1
        } else {
            idx
        };
        let (b2, r2) = bucket_insert(bs[new_idx], e, now);
        (TableModel { buckets: bs.update(new_idx, b2), ..t }, r2)
    } else {
        (TableModel { buckets: t.buckets.update(idx, b1), ..t }, r)
    }
}

/// Buckets visited by the time the search reaches `offset`, counted once each.
pub open spec fn buckets_seen(idx: int, n: int, offset: int) -> int {
    let lower = if offset < idx + 1 {
        offset
    } else {
        idx + 1
    };
    let upper = if offset <= 1 {
        0
    } else if offset - 1 < n - 1 - idx {
        offset - 1
    } else {
        n - 1 - idx
    };
    lower + upper
}

/// The candidates a search for bucket `idx` gathers: the buckets at `offset`
/// on either side of it, nearest first, until `count` entries are in hand.
pub open spec fn gather(bs: Seq<BucketModel>, idx: int, count: nat, offset: int, acc: Seq<KBucketEntry>) -> Seq<KBucketEntry>
    decreases bs.len() - offset,
{
    if offset >= bs.len() || offset < 0 {
        acc
    } else {
        let acc1 = if idx >= offset {
            acc + bs[idx - offset].entries
        } else {
            acc
        };
        let acc2 = if offset > 0 && idx + offset < bs.len() {
            acc1 + bs[idx + offset].entries
        } else {
            acc1
        };
        if acc2.len() >= count {
            acc2
        } else {
            gather(bs, idx, count, offset + 1, acc2)
        }
    }
}

/// The indices, in order, of the buckets among `bs[0..upto]` due for refresh at `now`.
pub open spec fn due_buckets(bs: Seq<BucketModel>, now: u64, upto: int) -> Seq<usize>
    decreases upto,
{
    if upto <= 0 {
        Seq::empty()
    } else {
        let r = due_buckets(bs, now, upto - 1);
        if refresh_due(bs[upto - 1].last_refreshed, now) {
            r.push((upto - 1) as usize)
        } else {
            r
        }
    }
}

/// The table with bucket `index`, if there is one, refreshed at `now`.
pub open spec fn refreshed_table(t: TableModel, index: int, now: u64) -> TableModel {
    if 0 <= index < t.buckets.len() {
        TableModel {
            buckets: t.buckets.update(index, BucketModel { last_refreshed: now, ..t.buckets[index] }),
            ..t
        }
    } else {
        t
    }
}

/// The entries of well-formed buckets number at most `K` per bucket.
pub proof fn lemma_total_entries(bs: Seq<BucketModel>)
    requires
        forall|i: int| 0 <= i < bs.len() ==> bucket_ok(#[trigger] bs[i]),
    ensures
        total_entries(bs) <= K * bs.len(),
    decreases bs.len(),
{
    if bs.len() > 0 {
        assert forall|i: int| 0 <= i < bs.drop_last().len() implies bucket_ok(#[trigger] bs.drop_last()[i]) by {
            assert(bs.drop_last()[i] == bs[i]);
        }
        lemma_total_entries(bs.drop_last());
        assert(bucket_ok(bs[bs.len() - 1]));
    }
}

/// The routing table of a node: its id and its buckets.
pub struct RoutingTable {
    local_id: NodeId,
    buckets: Vec<KBucket>,
}

impl View for RoutingTable {
    type V = TableModel;

    closed spec fn view(&self) -> TableModel {
        TableModel { local: self.local_id, buckets: self.buckets@.map_values(|b: KBucket| b@) }
    }
}

/// Bucket 0 of a well-formed table holds at most one entry, so it is never full.
proof fn lemma_first_bucket_small(t: TableModel)
    requires
        table_ok(t),
    ensures
        t.buckets[0].entries.len() <= 1,
{
    let s = t.buckets[0].entries;
    assert(bucket_ok(t.buckets[0]));
    if s.len() >= 2 {
        assert(s[0].node_id == t.local);
        assert(s[1].node_id == t.local);
    }
}

/// Offering a node to its bucket keeps bucket 0 holding only the local node.
proof fn lemma_insert_keeps_first(t: TableModel, e: KBucketEntry, now: u64)
    requires
        table_ok(t),
    ensures
        ({
            let idx = bucket_index_of(t.local, e.node_id);
            let b1 = bucket_insert(t.buckets[idx], e, now).0;
            idx == 0 ==> forall|i: int| 0 <= i < b1.entries.len() ==> (#[trigger] b1.entries[i]).node_id == t.local
        }),
{
    let idx = bucket_index_of(t.local, e.node_id);
    lemma_bucket_index(t.local, e.node_id);
    if idx == 0 {
        let b = t.buckets[0];
        let s = b.entries;
        let b1 = bucket_insert(b, e, now).0;
        let pos = index_of_node(s, e.node_id);
        if pos >= 0 {
            let u = s.update(pos, KBucketEntry { last_seen_ms: now, latency_ms: e.latency_ms, ..s[pos] });
            assert forall|i: int| 0 <= i < b1.entries.len() implies (#[trigger] b1.entries[i]).node_id == t.local by {
                if i < s.len() - pos {
                    assert(b1.entries[i] == u[i + pos]);
                } else {
                    assert(b1.entries[i] == u[i - (s.len() - pos)]);
                }
            }
        } else {
            lemma_first_bucket_small(t);
            assert forall|i: int| 0 <= i < b1.entries.len() implies (#[trigger] b1.entries[i]).node_id == t.local by {
                if i < s.len() {
                    assert(b1.entries[i] == s[i]);
                }
            }
        }
    }
}

/// Entries of `bs[0..n]` together, bucket by bucket.
proof fn lemma_total_entries_step(bs: Seq<BucketModel>, i: int)
    requires
        0 <= i < bs.len(),
    ensures
        total_entries(bs.take(i + 1)) == total_entries(bs.take(i)) + bs[i].entries.len(),
{
    assert(bs.take(i + 1).drop_last() =~= bs.take(i));
}

/// Appends the entries of `src` to `dst`.
fn append_entries(dst: &mut Vec<KBucketEntry>, src: &Vec<KBucketEntry>)
    requires
        old(dst)@.len() + src@.len() <= usize::MAX,
    ensures
        final(dst)@ == old(dst)@ + src@,
{
    let ghost d0 = dst@;
    let mut i: usize = 0;
    while i < src.len()
        invariant
            i <= src@.len(),
            d0.len() + src@.len() <= usize::MAX,
            dst@ == d0 + src@.take(i as int),
        decreases src@.len() - i,
    {
        dst.push(src[i]);
        assert(src@.take(i + 1) =~= src@.take(i as int).push(src@[i as int]));
        i += 1;
    }
    assert(src@.take(src@.len() as int) =~= src@);
}

impl RoutingTable {
    /// A table for node `local_id` with `INITIAL_BUCKETS` empty buckets refreshed at `now`.
    pub fn new_at(local_id: NodeId, now: u64) -> (t: RoutingTable)
        ensures
            t@.local == local_id,
            t@.buckets == Seq::new(
                INITIAL_BUCKETS as nat,
                |i: int| BucketModel { entries: Seq::<KBucketEntry>::empty(), last_refreshed: now },
            ),
            table_ok(t@),
    {
        let mut buckets: Vec<KBucket> = Vec::new();
        let mut i: usize = 0;
        while i < INITIAL_BUCKETS
            invariant
                i <= INITIAL_BUCKETS,
                buckets@.len() == i,
                forall|j: int| 0 <= j < i ==> (#[trigger] buckets@[j])@ == (BucketModel { entries: Seq::<KBucketEntry>::empty(), last_refreshed: now }),
            decreases INITIAL_BUCKETS - i,
        {
            buckets.push(KBucket::new_at(now));
            i += 1;
        }
        let t = RoutingTable { local_id, buckets };
        assert(t@.buckets =~= Seq::new(
            INITIAL_BUCKETS as nat,
            |i: int| BucketModel { entries: Seq::<KBucketEntry>::empty(), last_refreshed: now },
        ));
        t
    }

    /// A table for node `local_id` with `INITIAL_BUCKETS` empty buckets.
    pub fn new(local_id: NodeId) -> (t: RoutingTable)
        ensures
            t@.local == local_id,
            t@.buckets.len() == INITIAL_BUCKETS,
            forall|i: int| 0 <= i < INITIAL_BUCKETS ==> (#[trigger] t@.buckets[i]).entries.len() == 0,
            table_ok(t@),
    {
        RoutingTable::new_at(local_id, current_time_millis())
    }

    /// The bucket a node belongs in.
    pub fn bucket_index(&self, node_id: &NodeId) -> (idx: usize)
        ensures
            idx as int == bucket_index_of(self@.local, *node_id),
            idx <= 159,
    {
        let dist = self.local_id.xor_distance(node_id);
        let lz = NodeId(dist).leading_zeros();
        proof {
            lemma_leading_zeros_bound(dist@);
        }
        let leading: usize = if lz == 160 {
            1280
        } else {
            lz as usize
        };
        let v: usize = if leading <= 1279 {
            1279 - leading
        } else {
            0
        };
        if v < 159 {
            v
        } else {
            159
        }
    }

    /// Whether bucket `bucket_idx` may be split.
    pub fn can_split(&self, bucket_idx: usize) -> (r: bool)
        ensures
            r == can_split_at(self@, bucket_idx as int),
    {
        let local_idx = self.bucket_index(&self.local_id);
        bucket_idx < self.buckets.len() && bucket_idx == local_idx
    }

    /// Offers `entry` to bucket `idx` at `now`.
    fn insert_into_bucket(&mut self, idx: usize, entry: KBucketEntry, now: u64) -> (r: InsertResult)
        requires
            idx < old(self)@.buckets.len(),
            bucket_ok(old(self)@.buckets[idx as int]),
        ensures
            final(self)@ == (TableModel {
                buckets: old(self)@.buckets.update(idx as int, bucket_insert(old(self)@.buckets[idx as int], entry, now).0),
                ..old(self)@
            }),
            r == bucket_insert(old(self)@.buckets[idx as int], entry, now).1,
            bucket_ok(final(self)@.buckets[idx as int]),
    {
        let ghost bs = self.buckets@;
        let mut b = self.buckets.remove(idx);
        let r = b.insert_at(entry, now);
        self.buckets.insert(idx, b);
        assert(self.buckets@ =~= bs.update(idx as int, b));
        assert(self@.buckets =~= old(self)@.buckets.update(idx as int, b@));
        r
    }

    /// Inserts `entry` at time `now`; see `table_insert`.
    pub fn insert_at(&mut self, entry: KBucketEntry, now: u64) -> (r: InsertResult)
        requires
            table_ok(old(self)@),
        ensures
            (final(self)@, r) == table_insert(old(self)@, entry, now),
            table_ok(final(self)@),
    {
        let ghost t = self@;
        let idx = self.bucket_index(&entry.node_id);
        proof {
            lemma_bucket_index(t.local, entry.node_id);
            lemma_bucket_index(t.local, t.local);
            lemma_insert_keeps_first(t, entry, now);
            lemma_first_bucket_small(t);
            assert(bucket_ok(t.buckets[idx as int]));
        }
        let result = self.insert_into_bucket(idx, entry, now);
        if result == InsertResult::Full && idx < self.buckets.len() && self.can_split(idx) {
            proof {
                // only the local node belongs in bucket 0, and it is never full
                assert(idx == 0);
                assert(false);
            }
            let byte_idx = idx / 8;
            let sh: u8 = (7 - idx % 8) as u8;
            let mask: u8 = 1u8 << sh;
            let dist = self.local_id.xor_distance(&entry.node_id);
            let bit = (dist[byte_idx] & mask) != 0;
            let _ = self.split_bucket_at(idx, now);
            let new_idx = if bit {
                idx + 1
            } else {
                idx
            };
            return self.insert_into_bucket(new_idx, entry, now);
        }
        proof {
            assert forall|i: int| 0 <= i < self@.buckets.len() implies bucket_ok(#[trigger] self@.buckets[i]) by {
                if i != idx {
                    assert(self@.buckets[i] == t.buckets[i]);
                }
            }
            if idx != 0 {
                assert(self@.buckets[0] == t.buckets[0]);
            }
        }
        result
    }

    /// Inserts `entry` now; see `insert_at`.
    pub fn insert(&mut self, entry: KBucketEntry) -> (r: InsertResult)
        requires
            table_ok(old(self)@),
        ensures
            exists|now: u64| (final(self)@, r) == table_insert(old(self)@, entry, now),
            table_ok(final(self)@),
    {
        let now = current_time_millis();
        self.insert_at(entry, now)
    }

    /// The `count` nodes nearest to `target` among those gathered from the
    /// buckets around `target`'s bucket, nearest first.
    pub fn find_closest(&self, target: &NodeId, count: usize) -> (r: Vec<KBucketEntry>)
        requires
            table_ok(self@),
        ensures
            closest_of(
                gather(self@.buckets, bucket_index_of(self@.local, *target), count as nat, 0, Seq::empty()),
                *target,
                count as nat,
                r@,
            ),
    {
        let ghost bs = self@.buckets;
        let idx = self.bucket_index(target);
        let n = self.buckets.len();
        let ghost g = gather(bs, idx as int, count as nat, 0, Seq::empty());
        let mut cands: Vec<KBucketEntry> = Vec::new();
        let mut offset: usize = 0;
        let mut done = false;
        while offset < n && !done
            invariant
                n == bs.len(),
                bs == self@.buckets,
                table_ok(self@),
                idx as int == bucket_index_of(self@.local, *target),
                idx <= 159,
                offset <= n,
                done ==> g == cands@,
                !done ==> g == gather(bs, idx as int, count as nat, offset as int, cands@),
                cands@.len() <= K * buckets_seen(idx as int, n as int, offset as int + (if done { 1int } else { 0int })),
                done ==> offset < n,
            decreases n - offset + (if done { 0int } else { 1int }),
        {
            assert(buckets_seen(idx as int, n as int, offset as int + 1) <= n);
            assert(buckets_seen(idx as int, n as int, offset as int + 1) == buckets_seen(idx as int, n as int, offset as int)
                + (if idx >= offset { 1int } else { 0int }) + (if offset > 0 && idx + offset < n { 1int } else { 0int }));
            if idx >= offset {
                assert(bucket_ok(bs[idx - offset]));
                append_entries(&mut cands, self.buckets[idx - offset].entries());
            }
            if offset > 0 && idx + offset < n {
                assert(bucket_ok(bs[idx + offset]));
                append_entries(&mut cands, self.buckets[idx + offset].entries());
            }
            if cands.len() >= count {
                done = true;
            } else {
                offset += 1;
            }
        }
        closest_entries(&cands, target, count)
    }

    /// Indices of the buckets due for refresh at `now`, in order.
    pub fn refresh_list_at(&self, now: u64) -> (r: Vec<usize>)
        ensures
            r@ == due_buckets(self@.buckets, now, self@.buckets.len() as int),
    {
        let mut r: Vec<usize> = Vec::new();
        let mut i: usize = 0;
        while i < self.buckets.len()
            invariant
                i <= self@.buckets.len(),
                r@ == due_buckets(self@.buckets, now, i as int),
            decreases self@.buckets.len() - i,
        {
            if self.buckets[i].needs_refresh_at(now) {
                r.push(i);
            }
            i += 1;
        }
        r
    }

    /// Indices of the buckets due for refresh now, in order.
    pub fn refresh_list(&self) -> (r: Vec<usize>)
        ensures
            exists|now: u64| r@ == due_buckets(self@.buckets, now, self@.buckets.len() as int),
    {
        self.refresh_list_at(current_time_millis())
    }

    /// Records that bucket `index`, if there is one, was refreshed at `now`.
    pub fn mark_refreshed_at(&mut self, index: usize, now: u64)
        requires
            table_ok(old(self)@),
        ensures
            final(self)@ == refreshed_table(old(self)@, index as int, now),
            table_ok(final(self)@),
    {
        if index < self.buckets.len() {
            let ghost t = self@;
            let ghost bs = self.buckets@;
            let mut b = self.buckets.remove(index);
            b.mark_refreshed_at(now);
            self.buckets.insert(index, b);
            assert(self.buckets@ =~= bs.update(index as int, b));
            assert(self@.buckets =~= t.buckets.update(index as int, b@));
            assert forall|i: int| 0 <= i < self@.buckets.len() implies bucket_ok(#[trigger] self@.buckets[i]) by {
                assert(bucket_ok(t.buckets[i]));
            }
        }
    }

    /// Records that bucket `index`, if there is one, was refreshed now.
    pub fn mark_refreshed(&mut self, index: usize)
        requires
            table_ok(old(self)@),
        ensures
            exists|now: u64| final(self)@ == refreshed_table(old(self)@, index as int, now),
            table_ok(final(self)@),
    {
        let now = current_time_millis();
        self.mark_refreshed_at(index, now);
    }

    /// Number of nodes in the table.
    pub fn size(&self) -> (n: usize)
        requires
            table_ok(self@),
        ensures
            n == total_entries(self@.buckets),
    {
        let ghost bs = self@.buckets;
        let mut total: usize = 0;
        let mut i: usize = 0;
        while i < self.buckets.len()
            invariant
                i <= bs.len(),
                bs == self@.buckets,
                table_ok(self@),
                total == total_entries(bs.take(i as int)),
            decreases bs.len() - i,
        {
            proof {
                lemma_total_entries_step(bs, i as int);
                assert forall|j: int| 0 <= j < bs.take(i + 1).len() implies bucket_ok(#[trigger] bs.take(i + 1)[j]) by {
                    assert(bs.take(i + 1)[j] == bs[j]);
                }
                lemma_total_entries(bs.take(i + 1));
            }
            total = total + self.buckets[i].len();
            i += 1;
        }
        assert(bs.take(bs.len() as int) =~= bs);
        total
    }

    /// Drops node `node_id` from its bucket.
    pub fn remove(&mut self, node_id: &NodeId)
        requires
            table_ok(old(self)@),
        ensures
            ({
                let idx = bucket_index_of(old(self)@.local, *node_id);
                final(self)@ == (TableModel {
                    buckets: old(self)@.buckets.update(
                        idx,
                        BucketModel {
                            entries: without_node(old(self)@.buckets[idx].entries, *node_id),
                            ..old(self)@.buckets[idx]
                        },
                    ),
                    ..old(self)@
                })
            }),
            table_ok(final(self)@),
    {
        let ghost t = self@;
        let idx = self.bucket_index(node_id);
        if idx < self.buckets.len() {
            let ghost bs = self.buckets@;
            assert(bucket_ok(t.buckets[idx as int]));
            let mut b = self.buckets.remove(idx);
            b.remove(node_id);
            self.buckets.insert(idx, b);
            assert(self.buckets@ =~= bs.update(idx as int, b));
            assert(self@.buckets =~= t.buckets.update(idx as int, b@));
            proof {
                lemma_without_node(t.buckets[idx as int].entries, *node_id);
                assert forall|i: int| 0 <= i < self@.buckets.len() implies bucket_ok(#[trigger] self@.buckets[i]) by {
                    assert(bucket_ok(t.buckets[i]));
                }
                if idx == 0 {
                    let s = t.buckets[0].entries;
                    let w = self@.buckets[0].entries;
                    assert forall|i: int| 0 <= i < w.len() implies (#[trigger] w[i]).node_id == t.local by {
                        assert(w.contains(w[i]));
                        assert(s.contains(w[i]));
                        let k = choose|k: int| 0 <= k < s.len() && s[k] == w[i];
                        assert(s[k].node_id == t.local);
                    }
                }
            }
        }
    }

    /// The id of the local node.
    pub fn local_id(&self) -> (id: &NodeId)
        ensures
            *id == self@.local,
    {
        &self.local_id
    }

    /// The buckets, in order.
    pub fn buckets(&self) -> (bs: &[KBucket])
        ensures
            bs@.map_values(|b: KBucket| b@) == self@.buckets,
    {
        self.buckets.as_slice()
    }

    /// Splits bucket `bucket_idx` in two at `now`: its clear-bit half stays at
    /// `bucket_idx`, its set-bit half follows it. False if there is no such bucket.
    pub fn split_bucket_at(&mut self, bucket_idx: usize, now: u64) -> (r: bool)
        requires
            table_ok(old(self)@),
            bucket_idx < old(self)@.buckets.len() ==> bucket_idx < 160 && (old(self)@.buckets.len() + 1) * K <= usize::MAX,
        ensures
            r == (bucket_idx < old(self)@.buckets.len()),
            r ==> final(self)@ == (TableModel {
                buckets: split_buckets(old(self)@.buckets, old(self)@.local, bucket_idx as int, now),
                ..old(self)@
            }),
            !r ==> final(self)@ == old(self)@,
            table_ok(final(self)@),
    {
        if bucket_idx >= self.buckets.len() {
            return false;
        }
        let ghost t = self@;
        let ghost bs = self.buckets@;
        assert(bucket_ok(t.buckets[bucket_idx as int]));
        let mut b = self.buckets.remove(bucket_idx);
        let (left, right) = b.split_at(&self.local_id, bucket_idx, now);
        self.buckets.insert(bucket_idx, left);
        self.buckets.insert(bucket_idx + 1, right);
        assert(self.buckets@ =~= bs.update(bucket_idx as int, left).insert(bucket_idx + 1, right));
        assert(self@.buckets =~= split_buckets(t.buckets, t.local, bucket_idx as int, now));
        proof {
            let nb = self@.buckets;
            assert forall|i: int| 0 <= i < nb.len() implies bucket_ok(#[trigger] nb[i]) by {
                if i < bucket_idx {
                    assert(nb[i] == t.buckets[i]);
                } else if i > bucket_idx + 1 {
                    assert(nb[i] == t.buckets[i - 1]);
                }
            }
            if bucket_idx == 0 {
                let s = t.buckets[0].entries;
                let w = nb[0].entries;
                lemma_split_side(s, t.local, 0, false);
                assert forall|i: int| 0 <= i < w.len() implies (#[trigger] w[i]).node_id == t.local by {
                    assert(w.contains(w[i]));
                    let k = choose|k: int| 0 <= k < s.len() && s[k] == w[i];
                    assert(s[k].node_id == t.local);
                }
            } else {
                assert(nb[0] == t.buckets[0]);
            }
        }
        true
    }

    /// Splits bucket `bucket_idx` now; see `split_bucket_at`.
    pub fn split_bucket(&mut self, bucket_idx: usize) -> (r: bool)
        requires
            table_ok(old(self)@),
            bucket_idx < old(self)@.buckets.len() ==> bucket_idx < 160 && (old(self)@.buckets.len() + 1) * K <= usize::MAX,
        ensures
            r == (bucket_idx < old(self)@.buckets.len()),
            r ==> exists|now: u64|
                #![trigger split_buckets(old(self)@.buckets, old(self)@.local, bucket_idx as int, now)]
                final(self)@ == (TableModel {
                    buckets: split_buckets(old(self)@.buckets, old(self)@.local, bucket_idx as int, now),
                    ..old(self)@
                }),
            !r ==> final(self)@ == old(self)@,
            table_ok(final(self)@),
    {
        self.split_bucket_at(bucket_idx, current_time_millis())
    }
}

/// The all-zero distance is the least: nothing is strictly closer.
pub proof fn lemma_zero_least(z: Seq<u8>, d: Seq<u8>)
    requires
        all_zero(z),
        z.len() == d.len(),
        !lex_lt(z, d),
    ensures
        d == z,
    decreases z.len(),
{
    if z.len() > 0 {
        assert(z[0] == 0);
        if d[0] != 0 {
            assert(lex_lt(z, d));
        }
        assert(all_zero(z.drop_first()));
        if lex_lt(z.drop_first(), d.drop_first()) {
            assert(lex_lt(z, d));
        }
        lemma_zero_least(z.drop_first(), d.drop_first());
        assert forall|i: int| 0 <= i < d.len() implies d[i] == z[i] by {
            if i > 0 {
                assert(d[i] == d.drop_first()[i - 1]);
                assert(z[i] == z.drop_first()[i - 1]);
            }
        }
        assert(d =~= z);
    } else {
        assert(d =~= z);
    }
}

/// Some entry for `id` at or before `i` has none for `id` before it.
proof fn lemma_first_of_node(s: Seq<KBucketEntry>, id: NodeId, i: int)
    requires
        0 <= i < s.len(),
        s[i].node_id == id,
    ensures
        exists|m: int|
            0 <= m < s.len() && (#[trigger] s[m]).node_id == id && forall|j: int| 0 <= j < m ==> (#[trigger] s[j]).node_id != id,
    decreases i,
{
    if exists|j: int| 0 <= j < i && (#[trigger] s[j]).node_id == id {
        let j = choose|j: int| 0 <= j < i && (#[trigger] s[j]).node_id == id;
        lemma_first_of_node(s, id, j);
    } else {
        assert(forall|j: int| 0 <= j < i ==> (#[trigger] s[j]).node_id != id);
    }
}

/// `index_of_node` is the index of the first entry for `id`, or -1 if there is none.
pub proof fn lemma_index_of_node(s: Seq<KBucketEntry>, id: NodeId)
    ensures
        index_of_node(s, id) == -1 <==> forall|i: int| 0 <= i < s.len() ==> (#[trigger] s[i]).node_id != id,
        index_of_node(s, id) != -1 ==> {
            let p = index_of_node(s, id);
            &&& 0 <= p < s.len()
            &&& s[p].node_id == id
            &&& forall|j: int| 0 <= j < p ==> (#[trigger] s[j]).node_id != id
        },
{
    if exists|i: int| 0 <= i < s.len() && (#[trigger] s[i]).node_id == id {
        let i = choose|i: int| 0 <= i < s.len() && (#[trigger] s[i]).node_id == id;
        lemma_first_of_node(s, id, i);
    }
}

/// Offering a node to a bucket, unless it is refused as full, leaves an entry for it there.
pub proof fn lemma_bucket_insert_keeps(b: BucketModel, e: KBucketEntry, now: u64)
    requires
        bucket_insert(b, e, now).1 != InsertResult::Full,
    ensures
        exists|i: int|
            0 <= i < bucket_insert(b, e, now).0.entries.len() && (#[trigger] bucket_insert(b, e, now).0.entries[i]).node_id == e.node_id,
{
    let s = b.entries;
    let b1 = bucket_insert(b, e, now).0;
    let pos = index_of_node(s, e.node_id);
    lemma_index_of_node(s, e.node_id);
    if pos >= 0 {
        let u = s.update(pos, KBucketEntry { last_seen_ms: now, latency_ms: e.latency_ms, ..s[pos] });
        assert(b1.entries[0] == u[pos]);
    } else {
        assert(b1.entries[b1.entries.len() - 1] == e);
    }
}

/// The gathered candidates start with those already in hand.
pub proof fn lemma_gather_keeps(bs: Seq<BucketModel>, idx: int, count: nat, offset: int, acc: Seq<KBucketEntry>)
    ensures
        gather(bs, idx, count, offset, acc).len() >= acc.len(),
        forall|i: int| 0 <= i < acc.len() ==> #[trigger] gather(bs, idx, count, offset, acc)[i] == acc[i],
    decreases bs.len() - offset,
{
    if !(offset >= bs.len() || offset < 0) {
        let acc1 = if idx >= offset {
            acc + bs[idx - offset].entries
        } else {
            acc
        };
        let acc2 = if offset > 0 && idx + offset < bs.len() {
            acc1 + bs[idx + offset].entries
        } else {
            acc1
        };
        if acc2.len() < count {
            lemma_gather_keeps(bs, idx, count, offset + 1, acc2);
        }
    }
}

/// A node just inserted, unless refused as full, is the first answer of a
/// search for its own id.
pub proof fn law_inserted_node_found_first(
    t: TableModel,
    e: KBucketEntry,
    now: u64,
    count: nat,
    r: Seq<KBucketEntry>,
)
    requires
        table_ok(t),
        table_insert(t, e, now).1 != InsertResult::Full,
        count >= 1,
        closest_of(
            gather(table_insert(t, e, now).0.buckets, bucket_index_of(t.local, e.node_id), count, 0, Seq::empty()),
            e.node_id,
            count,
            r,
        ),
    ensures
        r.len() >= 1,
        r[0].node_id == e.node_id,
{
    let idx = bucket_index_of(t.local, e.node_id);
    lemma_bucket_index(t.local, e.node_id);
    lemma_bucket_index(t.local, t.local);
    lemma_insert_keeps_first(t, e, now);
    lemma_first_bucket_small(t);
    let b1 = bucket_insert(t.buckets[idx], e, now).0;
    // bucket 0 is never full, so the table takes the path without a split
    assert(table_insert(t, e, now).0.buckets == t.buckets.update(idx, b1));
    let bs = t.buckets.update(idx, b1);
    lemma_bucket_insert_keeps(t.buckets[idx], e, now);
    let k = choose|k: int| 0 <= k < b1.entries.len() && (#[trigger] b1.entries[k]).node_id == e.node_id;
    let x = b1.entries[k];
    let acc = Seq::<KBucketEntry>::empty() + bs[idx].entries;
    assert(acc[k] == x);
    let cands = gather(bs, idx, count, 0, Seq::empty());
    assert(cands == (if acc.len() >= count { acc } else { gather(bs, idx, count, 1, acc) }));
    lemma_gather_keeps(bs, idx, count, 1, acc);
    assert(cands[k] == x);
    let p = choose|p: Seq<KBucketEntry>|
        #![trigger sorted_by_distance(p, e.node_id)]
        p.to_multiset() == cands.to_multiset() && sorted_by_distance(p, e.node_id) && r == p.take(
            if count < p.len() { count as int } else { p.len() as int },
        );
    vstd::seq_lib::to_multiset_contains(cands, x);
    assert(cands.contains(x));
    assert(cands.to_multiset().count(x) > 0);
    vstd::seq_lib::to_multiset_contains(p, x);
    assert(p.contains(x));
    let j = choose|j: int| 0 <= j < p.len() && p[j] == x;
    lemma_distance_zero(x.node_id, e.node_id);
    let z = distance(x.node_id, e.node_id);
    if j > 0 {
        assert(!lex_lt(distance(p[j].node_id, e.node_id), distance(p[0].node_id, e.node_id)));
        lemma_zero_least(z, distance(p[0].node_id, e.node_id));
    }
    lemma_distance_zero(p[0].node_id, e.node_id);
    assert(r[0] == p[0]);
}

} // verus!
