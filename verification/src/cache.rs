//! The bookkeeping of the on-disk cache: where a file's data and metadata
//! live, what is known of each cached file, and which files a cleanup removes.
use vstd::prelude::*;
use vstd::seq_lib::{to_multiset_build, to_multiset_insert};

use crate::gui::{path_join, path_join_of};
use crate::qvs_file::QvsFile;
use crate::strings::{ascii_chars, push_str};
use crate::text::hex_lower;
use crate::types::{Bitfield, FileMeta, InfoHash};

verus! {

/// Where the cache lives and how much it may hold.
#[derive(Debug, Clone)]
pub struct CacheConfig {
    pub cache_dir: String,
    pub max_size: u64,
    pub max_files: u32,
}

/// The user's data directory, if the platform has one.
///
/// Trusted: this calls `dirs::data_dir`, which reads the environment; nothing
/// is claimed about the result.
#[verifier::external_body]
fn user_data_dir() -> (d: Option<String>) {
    dirs::data_dir().map(|p| p.to_string_lossy().into_owned())
}

impl Default for CacheConfig {
    /// `qvs/cache` under the user's data directory (or the current one), ten
    /// gibibytes, a thousand files.
    fn default() -> (c: CacheConfig)
        ensures
            exists|base: Seq<char>| c.cache_dir@ == path_join_of(path_join_of(base, "qvs"@), "cache"@),
            c.max_size == 10 * 1024 * 1024 * 1024,
            c.max_files == 1000,
    {
        let base = match user_data_dir() {
            Some(d) => d,
            None => String::from_str("."),
        };
        let qvs = path_join(base.as_str(), "qvs");
        let cache_dir = path_join(qvs.as_str(), "cache");
        CacheConfig { cache_dir, max_size: 10 * 1024 * 1024 * 1024, max_files: 1000 }
    }
}

/// The name of a cached file: the info hash in lowercase hexadecimal, a dot and `ext`.
pub open spec fn cache_file_name(h: InfoHash, ext: Seq<char>) -> Seq<char> {
    ascii_chars(hex_lower(h.0@)) + "."@ + ext
}

/// Where the data of a file is kept: `qdata/<hash>.qdata` under the cache directory.
pub fn qdata_path(cache_dir: &str, info_hash: &InfoHash) -> (p: String)
    ensures
        p@ == path_join_of(path_join_of(cache_dir@, "qdata"@), cache_file_name(*info_hash, "qdata"@)),
{
    let dir = path_join(cache_dir, "qdata");
    let mut name = info_hash.to_hex();
    push_str(&mut name, ".qdata");
    proof {
        reveal_strlit(".qdata");
        reveal_strlit(".");
        reveal_strlit("qdata");
        assert(name@ =~= cache_file_name(*info_hash, "qdata"@));
    }
    path_join(dir.as_str(), name.as_str())
}

/// Where the metadata of a file is kept: `qmv/<hash>.qmv` under the cache directory.
pub fn qmv_path(cache_dir: &str, info_hash: &InfoHash) -> (p: String)
    ensures
        p@ == path_join_of(path_join_of(cache_dir@, "qmv"@), cache_file_name(*info_hash, "qmv"@)),
{
    let dir = path_join(cache_dir, "qmv");
    let mut name = info_hash.to_hex();
    push_str(&mut name, ".qmv");
    proof {
        reveal_strlit(".qmv");
        reveal_strlit(".");
        reveal_strlit("qmv");
        assert(name@ =~= cache_file_name(*info_hash, "qmv"@));
    }
    path_join(dir.as_str(), name.as_str())
}

/// What is known of a cached file; times are milliseconds since the Unix epoch.
#[derive(Debug, Clone)]
pub struct CacheEntry {
    pub info_hash: InfoHash,
    pub file_size: u64,
    pub downloaded: u64,
    pub bitfield: Bitfield,
    pub last_access_ms: u64,
    pub created_at_ms: u64,
}

/// `a` divided by `b`, rounded up.
pub open spec fn ceil_div(a: nat, b: nat) -> nat {
    a / b + if a % b > 0 { 1nat } else { 0nat }
}

/// The entry for a cached file whose metadata is `f`, read at `now`: nothing
/// downloaded yet, one bit per piece.
pub fn entry_from_metadata(f: &QvsFile, now: u64) -> (e: CacheEntry)
    ensures
        e.info_hash == f.info_hash,
        e.file_size == f.file_size,
        e.downloaded == 0,
        e.bitfield.spec_num_pieces() == (if f.piece_length > 0 {
            (#[verifier::truncate] (ceil_div(f.file_size as nat, f.piece_length as nat) as u32)) as nat
        } else {
            0
        }),
        e.last_access_ms == now,
        e.created_at_ms == now,
{
    let num_pieces: u32 = if f.piece_length > 0 {
        let q = f.file_size / f.piece_length;
        proof {
            if f.piece_length == 1 {
                assert(f.file_size % f.piece_length == 0);
            } else {
                assert(q <= f.file_size / 2) by (nonlinear_arith)
                    requires
                        q == f.file_size / f.piece_length,
                        f.piece_length >= 2;
            }
        }
        let c = if f.file_size % f.piece_length > 0 { q + 1 } else { q };
        #[verifier::truncate] (c as u32)
    } else {
        0
    };
    CacheEntry {
        info_hash: f.info_hash,
        file_size: f.file_size,
        downloaded: 0,
        bitfield: Bitfield::new(num_pieces),
        last_access_ms: now,
        created_at_ms: now,
    }
}

/// What the cache knows of a file from its metadata: name, size, pieces; no
/// key frames, duration, codecs, picture size or bit rate.
pub fn meta_from_metadata(f: QvsFile) -> (m: FileMeta)
    ensures
        m.info_hash == f.info_hash,
        m.filename == f.filename,
        m.file_size == f.file_size,
        m.piece_length == f.piece_length,
        m.pieces == f.pieces,
        m.keyframe_index is None,
        m.duration_ms == 0,
        m.video_codec is None,
        m.audio_codec is None,
        m.width == 0,
        m.height == 0,
        m.bitrate == 0,
        m.from_cache,
{
    FileMeta {
        info_hash: f.info_hash,
        filename: f.filename,
        file_size: f.file_size,
        piece_length: f.piece_length,
        pieces: f.pieces,
        keyframe_index: None,
        duration_ms: 0,
        video_codec: None,
        audio_codec: None,
        width: 0,
        height: 0,
        bitrate: 0,
        from_cache: true,
    }
}

/// Total size of the files of `s`.
pub open spec fn sizes_sum(s: Seq<CacheEntry>) -> nat
    decreases s.len(),
{
    if s.len() == 0 {
        0
    } else {
        sizes_sum(s.drop_last()) + s.last().file_size as nat
    }
}

/// No entry was accessed later than an entry after it.
pub open spec fn sorted_by_access(s: Seq<CacheEntry>) -> bool {
    forall|i: int, j: int| 0 <= i < j < s.len() ==> (#[trigger] s[i]).last_access_ms <= (#[trigger] s[j]).last_access_ms
}

/// Where an entry last accessed at `t` goes among `s`: before the first entry
/// accessed at `t` or later.
pub open spec fn access_slot(s: Seq<CacheEntry>, t: u64) -> nat
    decreases s.len(),
{
    if s.len() == 0 {
        0
    } else if s[0].last_access_ms >= t {
        0
    } else {
        1 + access_slot(s.drop_first(), t)
    }
}

/// The entries in order of last access, those accessed at the same time in
/// their order in `s`, as a stable sort leaves them.
pub open spec fn by_access(s: Seq<CacheEntry>) -> Seq<CacheEntry>
    decreases s.len(),
{
    if s.len() == 0 {
        s
    } else {
        let rest = by_access(s.drop_first());
        rest.insert(access_slot(rest, s[0].last_access_ms) as int, s[0])
    }
}

/// The slot of `t` is the first position not accessed before `t`.
proof fn lemma_access_slot(s: Seq<CacheEntry>, t: u64, pos: int)
    requires
        0 <= pos <= s.len(),
        forall|k: int| 0 <= k < pos ==> (#[trigger] s[k]).last_access_ms < t,
        pos == s.len() || s[pos].last_access_ms >= t,
    ensures
        access_slot(s, t) == pos,
    decreases pos,
{
    if pos > 0 {
        assert forall|k: int| 0 <= k < pos - 1 implies (#[trigger] s.drop_first()[k]).last_access_ms < t by {
            assert(s.drop_first()[k] == s[k + 1]);
        }
        lemma_access_slot(s.drop_first(), t, pos - 1);
    }
}

/// How many of the oldest entries go: the fewest whose removal leaves at most
/// `threshold` bytes in the rest.
pub open spec fn removal_count(s: Seq<CacheEntry>, threshold: nat) -> int {
    choose|k: int|
        0 <= k <= s.len() && sizes_sum(s.skip(k)) <= threshold && forall|j: int|
            0 <= j < k ==> #[trigger] sizes_sum(s.skip(j)) > threshold
}

/// The entry for `h` after a write ending at `end` at `now`, given the entries before.
pub open spec fn index_of_hash(s: Seq<CacheEntry>, h: InfoHash) -> int {
    if exists|i: int| 0 <= i < s.len() && (#[trigger] s[i]).info_hash == h {
        choose|i: int|
            0 <= i < s.len() && (#[trigger] s[i]).info_hash == h && forall|j: int|
                0 <= j < i ==> (#[trigger] s[j]).info_hash != h
    } else {
        -1
    }
}

/// The entries known to the cache.
pub struct CacheIndex {
    entries: Vec<CacheEntry>,
}

impl View for CacheIndex {
    type V = Seq<CacheEntry>;

    closed spec fn view(&self) -> Seq<CacheEntry> {
        self.entries@
    }
}

/// The sum over a suffix is what remains after taking the prefix.
proof fn lemma_sizes_sum_split(s: Seq<CacheEntry>, k: int)
    requires
        0 <= k <= s.len(),
    ensures
        sizes_sum(s) == sizes_sum(s.take(k)) + sizes_sum(s.skip(k)),
    decreases s.len(),
{
    if s.len() > 0 && k < s.len() {
        lemma_sizes_sum_split(s.drop_last(), k);
        assert(s.drop_last().take(k) =~= s.take(k));
        assert(s.skip(k).drop_last() =~= s.drop_last().skip(k));
        assert(s.skip(k).last() == s.last());
    } else if k == s.len() {
        assert(s.take(k) =~= s);
        assert(s.skip(k).len() == 0);
    }
}

impl CacheIndex {
    /// An index with no entry.
    pub fn new() -> (c: CacheIndex)
        ensures
            c@ == Seq::<CacheEntry>::empty(),
    {
        CacheIndex { entries: Vec::new() }
    }

    /// The entries, in order.
    pub fn entries(&self) -> (e: &Vec<CacheEntry>)
        ensures
            e@ == self@,
    {
        &self.entries
    }

    /// Records a write of `len` bytes at `offset` into the file of `info_hash`
    /// at `now`: a known file's downloaded mark rises to the end of the write
    /// and its access time becomes `now`; an unknown file gets an entry whose
    /// size and downloaded mark are the end of the write.
    pub fn record_write(&mut self, info_hash: &InfoHash, offset: u64, len: u64, now: u64)
        requires
            offset + len <= u64::MAX,
        ensures
            ({
                let s = old(self)@;
                let end = (offset + len) as u64;
                let i = index_of_hash(s, *info_hash);
                if i >= 0 {
                    &&& final(self)@.len() == s.len()
                    &&& forall|j: int| 0 <= j < s.len() && j != i ==> #[trigger] final(self)@[j] == s[j]
                    &&& final(self)@[i] == (CacheEntry {
                        downloaded: if s[i].downloaded >= end { s[i].downloaded } else { end },
                        last_access_ms: now,
                        ..s[i]
                    })
                } else {
                    &&& final(self)@.len() == s.len() + 1
                    &&& forall|j: int| 0 <= j < s.len() ==> #[trigger] final(self)@[j] == s[j]
                    &&& final(self)@[s.len() as int].info_hash == *info_hash
                    &&& final(self)@[s.len() as int].file_size == end
                    &&& final(self)@[s.len() as int].downloaded == end
                    &&& final(self)@[s.len() as int].bitfield.spec_num_pieces() == 0
                    &&& final(self)@[s.len() as int].last_access_ms == now
                    &&& final(self)@[s.len() as int].created_at_ms == now
                }
            }),
    {
        let end = offset + len;
        let ghost s = self.entries@;
        let mut i: usize = 0;
        while i < self.entries.len()
            invariant
                i <= s.len(),
                self.entries@ == s,
                s == old(self)@,
                end == offset + len,
                forall|j: int| 0 <= j < i ==> (#[trigger] s[j]).info_hash != *info_hash,
            decreases s.len() - i,
        {
            proof {
                if s[i as int].info_hash == *info_hash {
                    assert(s[i as int].info_hash.0@ == info_hash.0@);
                }
            }
            if crate::krpc::same_hash(&self.entries[i].info_hash.0, &info_hash.0) {
                proof {
                    assert(s[i as int].info_hash.0 =~= info_hash.0);
                    assert(s[i as int].info_hash == *info_hash);
                    let c = index_of_hash(s, *info_hash);
                    assert(c == i) by {
                        if c < i {
                            assert(s[c].info_hash != *info_hash);
                        }
                    };
                }
                let mut e = self.entries.remove(i);
                if e.downloaded < end {
                    e.downloaded = end;
                }
                e.last_access_ms = now;
                self.entries.insert(i, e);
                return;
            }
            i += 1;
        }
        self.entries.push(
            CacheEntry {
                info_hash: *info_hash,
                file_size: end,
                downloaded: end,
                bitfield: Bitfield::new(0),
                last_access_ms: now,
                created_at_ms: now,
            },
        );
    }

    /// Puts the entries in order of last access, oldest first; entries
    /// accessed at the same time keep their order.
    fn sort_by_access(&mut self)
        ensures
            final(self)@.to_multiset() == old(self)@.to_multiset(),
            sorted_by_access(final(self)@),
            final(self)@.len() == old(self)@.len(),
            final(self)@ == by_access(old(self)@),
    {
        let mut rest: Vec<CacheEntry> = Vec::new();
        std::mem::swap(&mut rest, &mut self.entries);
        let ghost v = rest@;
        let mut out: Vec<CacheEntry> = Vec::new();
        assert(out@ =~= v.take(0));
        assert(by_access(v.skip(v.len() as int)) == out@) by {
            assert(v.skip(v.len() as int).len() == 0);
            assert(out@ =~= v.skip(v.len() as int));
        }
        // move entries one by one from the back of `rest`, keeping `out` sorted
        let mut i: usize = 0;
        let n = rest.len();
        assert(v.skip(n as int) =~= out@);
        while i < n
            invariant
                n == v.len(),
                i <= n,
                rest@ == v.take(n - i),
                out@.to_multiset() == v.skip(n - i).to_multiset(),
                sorted_by_access(out@),
                out@.len() == i,
                out@ == by_access(v.skip(n - i)),
            decreases n - i,
        {
            let e = rest.pop().unwrap();
            proof {
                assert(e == v[n - i - 1]);
                assert(rest@ =~= v.take(n - i - 1));
            }
            // insert before the first entry accessed strictly later, which
            // keeps equal times in their original order
            let mut pos: usize = 0;
            let mut found = false;
            while pos < out.len() && !found
                invariant
                    pos <= out@.len(),
                    found ==> pos < out@.len() && out@[pos as int].last_access_ms >= e.last_access_ms,
                    forall|k: int| 0 <= k < pos ==> (#[trigger] out@[k]).last_access_ms < e.last_access_ms,
                decreases out@.len() - pos + (if found { 0int } else { 1int }),
            {
                if out[pos].last_access_ms >= e.last_access_ms {
                    found = true;
                } else {
                    pos += 1;
                }
            }
            let ghost old_out = out@;
            out.insert(pos, e);
            proof {
                let t = out@;
                assert(t == old_out.insert(pos as int, e));
                assert forall|a: int, b: int| 0 <= a < b < t.len() implies (#[trigger] t[a]).last_access_ms <= (#[trigger] t[b]).last_access_ms by {
                    if b < pos {
                    } else if b == pos {
                        assert(t[a] == old_out[a]);
                    } else if a == pos {
                        assert(t[b] == old_out[b - 1]);
                        assert(old_out[pos as int].last_access_ms <= old_out[b - 1].last_access_ms || b - 1 == pos);
                    } else if a < pos {
                        assert(t[a] == old_out[a]);
                        assert(t[b] == old_out[b - 1]);
                    } else {
                        assert(t[a] == old_out[a - 1]);
                        assert(t[b] == old_out[b - 1]);
                    }
                }
                to_multiset_insert(old_out, pos as int, e);
                assert(v.skip(n - i - 1) =~= seq![e] + v.skip(n - i));
                vstd::seq_lib::lemma_multiset_commutative(seq![e], v.skip(n - i));
                vstd::seq_lib::lemma_multiset_commutative(v.skip(n - i), seq![e]);
                assert(v.skip(n - i) + seq![e] =~= v.skip(n - i).push(e));
                to_multiset_build(v.skip(n - i), e);
                lemma_access_slot(old_out, e.last_access_ms, pos as int);
                assert(v.skip(n - i - 1).drop_first() =~= v.skip(n - i));
                assert(v.skip(n - i - 1)[0] == e);
            }
            i += 1;
        }
        assert(v.skip(0) =~= v);
        self.entries = out;
    }

    /// Removes the files accessed longest ago until the rest take at most 80%
    /// of `max_size`, and gives their info hashes, oldest first. The entries
    /// end in order of last access, those accessed at the same time in the
    /// order they had.
    pub fn cleanup(&mut self, max_size: u64) -> (removed: Vec<InfoHash>)
        requires
            sizes_sum(old(self)@) <= u64::MAX,
            max_size * 80 <= u64::MAX,
        ensures
            ({
                let p = by_access(old(self)@);
                let k = removal_count(p, (max_size * 80 / 100) as nat);
                &&& p.to_multiset() == old(self)@.to_multiset()
                &&& sorted_by_access(p)
                &&& final(self)@ == p.skip(k)
                &&& removed@ == p.take(k).map_values(|e: CacheEntry| e.info_hash)
            }),
    {
        let threshold: u64 = max_size * 80 / 100;
        self.sort_by_access();
        let ghost p = self.entries@;
        proof {
            vstd::seq_lib::to_multiset_len(p);
            vstd::seq_lib::to_multiset_len(old(self)@);
            lemma_sizes_sum_perm(old(self)@, p);
        }
        let mut total: u64 = 0;
        let mut i: usize = 0;
        while i < self.entries.len()
            invariant
                i <= p.len(),
                self.entries@ == p,
                total == sizes_sum(p.take(i as int)),
                sizes_sum(p) <= u64::MAX,
            decreases p.len() - i,
        {
            proof {
                assert(p.take(i + 1).drop_last() =~= p.take(i as int));
                lemma_sizes_sum_split(p, i + 1);
            }
            total = total + self.entries[i].file_size;
            i += 1;
        }
        assert(p.take(p.len() as int) =~= p);
        let mut removed: Vec<InfoHash> = Vec::new();
        let mut k: usize = 0;
        while k < self.entries.len() && total > threshold
            invariant
                k <= p.len(),
                self.entries@ == p,
                total == sizes_sum(p.skip(k as int)),
                forall|j: int| 0 <= j < k ==> #[trigger] sizes_sum(p.skip(j)) > threshold,
                removed@ == p.take(k as int).map_values(|e: CacheEntry| e.info_hash),
            decreases p.len() - k,
        {
            proof {
                lemma_sizes_sum_split(p.skip(k as int), 1);
                assert(p.skip(k as int).take(1) =~= seq![p[k as int]]);
                assert(p.skip(k as int).skip(1) =~= p.skip(k + 1));
                lemma_sizes_sum_one(p[k as int]);
                assert(p.take(k + 1).map_values(|e: CacheEntry| e.info_hash) =~= p.take(k as int).map_values(
                    |e: CacheEntry| e.info_hash,
                ).push(p[k as int].info_hash));
            }
            total = total - self.entries[k].file_size;
            removed.push(self.entries[k].info_hash);
            k += 1;
        }
        proof {
            if k == p.len() {
                assert(p.skip(k as int).len() == 0);
            }
            let c = removal_count(p, threshold as nat);
            assert(0 <= k <= p.len() && sizes_sum(p.skip(k as int)) <= threshold);
            assert(c == k) by {
                if c < k {
                    assert(sizes_sum(p.skip(c)) > threshold);
                } else if c > k {
                    assert(sizes_sum(p.skip(k as int)) > threshold);
                }
            };
        }
        let mut all: Vec<CacheEntry> = Vec::new();
        std::mem::swap(&mut all, &mut self.entries);
        self.entries = all.split_off(k);
        assert(self.entries@ =~= p.skip(k as int));
        removed
    }
}

/// The total of one entry is its size.
proof fn lemma_sizes_sum_one(x: CacheEntry)
    ensures
        sizes_sum(seq![x]) == x.file_size,
{
    let s = seq![x];
    assert(s.drop_last() =~= Seq::<CacheEntry>::empty());
    assert(s.last() == x);
    assert(sizes_sum(s.drop_last()) == 0);
}

/// Reordering entries keeps their total size.
proof fn lemma_sizes_sum_perm(a: Seq<CacheEntry>, b: Seq<CacheEntry>)
    requires
        a.to_multiset() == b.to_multiset(),
    ensures
        sizes_sum(a) == sizes_sum(b),
    decreases a.len(),
{
    vstd::seq_lib::to_multiset_len(a);
    vstd::seq_lib::to_multiset_len(b);
    if a.len() > 0 {
        let x = a.last();
        vstd::seq_lib::to_multiset_contains(a, x);
        assert(a.contains(x)) by {
            assert(a[a.len() - 1] == x);
        };
        vstd::seq_lib::to_multiset_contains(b, x);
        let j = choose|j: int| 0 <= j < b.len() && b[j] == x;
        let b2 = b.remove(j);
        vstd::seq_lib::to_multiset_remove(b, j);
        assert(a.drop_last() =~= a.remove(a.len() - 1));
        vstd::seq_lib::to_multiset_remove(a, a.len() - 1);
        lemma_sizes_sum_perm(a.drop_last(), b2);
        lemma_sizes_sum_remove(b, j);
    }
}

/// Removing one entry takes its size off the total.
proof fn lemma_sizes_sum_remove(s: Seq<CacheEntry>, j: int)
    requires
        0 <= j < s.len(),
    ensures
        sizes_sum(s) == sizes_sum(s.remove(j)) + s[j].file_size,
    decreases s.len(),
{
    if j == s.len() - 1 {
        assert(s.remove(j) =~= s.drop_last());
    } else {
        lemma_sizes_sum_remove(s.drop_last(), j);
        assert(s.remove(j).drop_last() =~= s.drop_last().remove(j));
        assert(s.remove(j).last() == s.last());
    }
}

/// Some least count of oldest entries leaves at most `threshold` bytes.
proof fn lemma_first_fit(p: Seq<CacheEntry>, threshold: nat, j: int)
    requires
        0 <= j <= p.len(),
        forall|i: int| 0 <= i < j ==> #[trigger] sizes_sum(p.skip(i)) > threshold,
    ensures
        exists|k: int|
            0 <= k <= p.len() && sizes_sum(p.skip(k)) <= threshold && forall|i: int|
                0 <= i < k ==> #[trigger] sizes_sum(p.skip(i)) > threshold,
    decreases p.len() - j,
{
    if sizes_sum(p.skip(j)) <= threshold {
    } else {
        if j == p.len() {
            assert(p.skip(j).len() == 0);
        } else {
            lemma_first_fit(p, threshold, j + 1);
        }
    }
}

/// A cleanup leaves at most 80% of the maximum size, and every file it removes
/// was last accessed no later than every file it keeps.
pub proof fn law_cleanup_fits(p: Seq<CacheEntry>, max_size: u64)
    requires
        sorted_by_access(p),
    ensures
        ({
            let t = (max_size * 80 / 100) as nat;
            let k = removal_count(p, t);
            &&& 0 <= k <= p.len()
            &&& sizes_sum(p.skip(k)) <= t
            &&& forall|a: int, b: int|
                0 <= a < k <= b < p.len() ==> (#[trigger] p[a]).last_access_ms <= (#[trigger] p[b]).last_access_ms
        }),
{
    let t = (max_size * 80 / 100) as nat;
    lemma_first_fit(p, t, 0);
}

} // verus!
