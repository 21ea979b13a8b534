//! The download buffer: a window of `capacity` bytes over a file of
//! `total_size` bytes, with the byte ranges received so far.
use vstd::prelude::*;

verus! {

broadcast use vstd::std_specs::vec::group_vec_axioms;

/// The buffer as mathematics sees it.
pub struct BufferModel {
    pub capacity: u64,
    pub data: Seq<u8>,
    pub file_offset: u64,
    pub filled: Seq<(u64, u64)>,
    pub play_position: u64,
    pub total_size: u64,
}

/// Ranges `[start, end)` with strictly increasing starts, each non-empty and
/// ending within `limit`.
pub open spec fn ranges_ok(rs: Seq<(u64, u64)>, limit: u64) -> bool {
    &&& forall|i: int| 0 <= i < rs.len() ==> (#[trigger] rs[i]).0 < rs[i].1 <= limit
    &&& starts_sorted(rs)
}

/// Starts strictly increase.
pub open spec fn starts_sorted(rs: Seq<(u64, u64)>) -> bool {
    forall|i: int, j: int| 0 <= i < j < rs.len() ==> (#[trigger] rs[i]).0 < (#[trigger] rs[j]).0
}

/// What every buffer satisfies.
pub open spec fn buffer_ok(m: BufferModel) -> bool {
    &&& m.data.len() == m.capacity
    &&& m.capacity <= isize::MAX
    &&& m.total_size <= i64::MAX
    &&& m.file_offset <= m.total_size
    &&& ranges_ok(m.filled, m.total_size)
}

/// A buffer of `capacity` zero bytes at the start of a file of `total_size`
/// bytes, with nothing received and playback at the start.
pub open spec fn empty_buffer(capacity: u64, total_size: u64) -> BufferModel {
    BufferModel {
        capacity,
        data: Seq::new(capacity as nat, |i: int| 0u8),
        file_offset: 0,
        filled: Seq::empty(),
        play_position: 0,
        total_size,
    }
}

/// Some range covers `[offset, offset + length)`.
pub open spec fn range_filled(rs: Seq<(u64, u64)>, offset: int, length: int) -> bool {
    exists|i: int| 0 <= i < rs.len() && (#[trigger] rs[i]).0 <= offset && rs[i].1 >= offset + length
}

/// A buffer over a file, holding a window of the file's bytes and the ranges
/// of the file received.
#[derive(Debug)]
pub struct RingBuffer {
    capacity: u64,
    data: Vec<u8>,
    file_offset: u64,
    filled: Vec<(u64, u64)>,
    play_position: u64,
    total_size: u64,
}

impl View for RingBuffer {
    type V = BufferModel;

    closed spec fn view(&self) -> BufferModel {
        BufferModel {
            capacity: self.capacity,
            data: self.data@,
            file_offset: self.file_offset,
            filled: self.filled@,
            play_position: self.play_position,
            total_size: self.total_size,
        }
    }
}

impl Clone for RingBuffer {
    fn clone(&self) -> (c: RingBuffer)
        ensures
            c@ == self@,
    {
        RingBuffer {
            capacity: self.capacity,
            data: vstd::slice::slice_to_vec(self.data.as_slice()),
            file_offset: self.file_offset,
            filled: vstd::slice::slice_to_vec(self.filled.as_slice()),
            play_position: self.play_position,
            total_size: self.total_size,
        }
    }
}

impl RingBuffer {
    /// An empty buffer of `capacity` bytes over a file of `total_size` bytes.
    pub fn new(capacity: u64, total_size: u64) -> (b: RingBuffer)
        requires
            capacity <= isize::MAX,
            total_size <= i64::MAX,
        ensures
            buffer_ok(b@),
            b@ == empty_buffer(capacity, total_size),
    {
        let data = zeros(capacity as usize);
        RingBuffer { capacity, data, file_offset: 0, filled: Vec::new(), play_position: 0, total_size }
    }

    /// Some received range covers `[offset, offset + length)`.
    pub fn is_range_filled(&self, offset: u64, length: u64) -> (r: bool)
        requires
            offset + length <= u64::MAX,
        ensures
            r == range_filled(self@.filled, offset as int, length as int),
    {
        let end = offset + length;
        let mut i: usize = 0;
        while i < self.filled.len()
            invariant
                i <= self.filled@.len(),
                end == offset + length,
                forall|j: int| 0 <= j < i ==> !((#[trigger] self.filled@[j]).0 <= offset && self.filled@[j].1 >= end),
            decreases self.filled@.len() - i,
        {
            let (s, e) = self.filled[i];
            if s <= offset && e >= end {
                return true;
            }
            i += 1;
        }
        false
    }

    /// The first `min(total_size, 256 KiB, capacity)` bytes have arrived.
    pub fn is_playable(&self) -> (r: bool)
        ensures
            r == range_filled(
                self@.filled,
                0,
                min_u64(min_u64(self@.total_size, 262_144), self@.capacity) as int,
            ),
    {
        let a = if self.total_size < 262_144 { self.total_size } else { 262_144 };
        let head_len = if a < self.capacity { a } else { self.capacity };
        self.is_range_filled(0, head_len)
    }

    /// The bytes `[offset, offset + length)`, if they have arrived and lie in the window.
    pub fn read(&self, offset: u64, length: u64) -> (r: Option<Vec<u8>>)
        requires
            buffer_ok(self@),
            offset + length <= u64::MAX,
        ensures
            match r {
                Some(v) => spec_read(self@, offset, length) == Some(v@),
                None => spec_read(self@, offset, length) is None,
            },
    {
        if !self.is_range_filled(offset, length) {
            return None;
        }
        let buf_offset = if offset >= self.file_offset { offset - self.file_offset } else { 0 };
        if buf_offset + length > self.capacity {
            return None;
        }
        let start = buf_offset as usize;
        let end = start + length as usize;
        if end > self.data.len() {
            return None;
        }
        Some(vstd::slice::slice_to_vec(&self.data.as_slice()[start..end]))
    }

    /// Where playback is.
    pub fn set_play_position(&mut self, position: u64)
        ensures
            buffer_ok(old(self)@) ==> buffer_ok(final(self)@),
            final(self)@ == (BufferModel { play_position: position, ..old(self)@ }),
    {
        self.play_position = position;
    }

    /// Forgets everything received and returns to the start of the file.
    pub fn clear(&mut self)
        requires
            buffer_ok(old(self)@),
        ensures
            buffer_ok(final(self)@),
            final(self)@ == empty_buffer(old(self)@.capacity, old(self)@.total_size),
    {
        self.filled = Vec::new();
        self.data = zeros(self.capacity as usize);
        self.file_offset = 0;
        self.play_position = 0;
    }
}

/// The smaller of two numbers.
pub open spec fn min_u64(a: u64, b: u64) -> u64 {
    if a < b {
        a
    } else {
        b
    }
}

/// What reading `[offset, offset + length)` gives.
pub open spec fn spec_read(m: BufferModel, offset: u64, length: u64) -> Option<Seq<u8>> {
    if !range_filled(m.filled, offset as int, length as int) {
        None
    } else {
        let buf_offset = if offset >= m.file_offset { offset - m.file_offset } else { 0 };
        if buf_offset + length > m.capacity {
            None
        } else {
            Some(m.data.subrange(buf_offset, buf_offset + length))
        }
    }
}

/// `n` zero bytes.
fn zeros(n: usize) -> (v: Vec<u8>)
    ensures
        v@ == Seq::new(n as nat, |i: int| 0u8),
{
    let mut v: Vec<u8> = Vec::new();
    let mut i: usize = 0;
    while i < n
        invariant
            i <= n,
            v@ == Seq::new(i as nat, |k: int| 0u8),
        decreases n - i,
    {
        v.push(0u8);
        i += 1;
        assert(v@ =~= Seq::new(i as nat, |k: int| 0u8));
    }
    v
}

} // verus!

verus! {

/// The larger of two numbers.
pub open spec fn max_u64(a: u64, b: u64) -> u64 {
    if a > b {
        a
    } else {
        b
    }
}

/// `a - b`, or 0 when `b` is larger.
pub open spec fn sat_sub(a: u64, b: u64) -> u64 {
    if a > b {
        (a - b) as u64
    } else {
        0
    }
}

/// Adding a range to ranges kept by start, as a set ordered by start adds it:
/// nothing changes when a range already starts there.
pub open spec fn set_insert(rs: Seq<(u64, u64)>, r: (u64, u64)) -> Seq<(u64, u64)>
    decreases rs.len(),
{
    if rs.len() == 0 {
        seq![r]
    } else if rs[0].0 == r.0 {
        rs
    } else if r.0 < rs[0].0 {
        seq![r] + rs
    } else {
        seq![rs[0]] + set_insert(rs.drop_first(), r)
    }
}

/// The bounds after scanning `rs` in order, growing `[s, e]` by every range
/// that touches it.
pub open spec fn merge_bounds(rs: Seq<(u64, u64)>, s: u64, e: u64) -> (u64, u64)
    decreases rs.len(),
{
    if rs.len() == 0 {
        (s, e)
    } else {
        let (s1, e1) = merge_bounds(rs.drop_last(), s, e);
        let r = rs.last();
        if r.0 <= e1 && r.1 >= s1 {
            (min_u64(s1, r.0), max_u64(e1, r.1))
        } else {
            (s1, e1)
        }
    }
}

/// The ranges that the scan leaves alone.
pub open spec fn merge_kept(rs: Seq<(u64, u64)>, s: u64, e: u64) -> Seq<(u64, u64)>
    decreases rs.len(),
{
    if rs.len() == 0 {
        Seq::empty()
    } else {
        let (s1, e1) = merge_bounds(rs.drop_last(), s, e);
        let r = rs.last();
        if r.0 <= e1 && r.1 >= s1 {
            merge_kept(rs.drop_last(), s, e)
        } else {
            merge_kept(rs.drop_last(), s, e).push(r)
        }
    }
}

/// Recording that `[s, e)` arrived: the ranges touching it are replaced by
/// their union with it.
pub open spec fn spec_merge(rs: Seq<(u64, u64)>, s: u64, e: u64) -> Seq<(u64, u64)> {
    if e <= s {
        rs
    } else {
        set_insert(merge_kept(rs, s, e), merge_bounds(rs, s, e))
    }
}

/// The ranges after the window moves forward to `off`: each shifted down by
/// `off` (stopping at 0) and cut at `cap`; those left empty or starting at
/// `cap` or beyond are dropped.
pub open spec fn slide_fwd_ranges(rs: Seq<(u64, u64)>, off: u64, cap: u64) -> Seq<(u64, u64)>
    decreases rs.len(),
{
    if rs.len() == 0 {
        Seq::empty()
    } else {
        let prev = slide_fwd_ranges(rs.drop_last(), off, cap);
        let r = rs.last();
        let ns = sat_sub(r.0, off);
        let ne = sat_sub(r.1, off);
        if ne > ns && ns < cap {
            set_insert(prev, (ns, min_u64(ne, cap)))
        } else {
            prev
        }
    }
}

/// The ranges after the window moves back by `shift`: each shifted down by
/// `shift`, stopping at 0; those left empty are dropped.
pub open spec fn slide_back_ranges(rs: Seq<(u64, u64)>, shift: u64) -> Seq<(u64, u64)>
    decreases rs.len(),
{
    if rs.len() == 0 {
        Seq::empty()
    } else {
        let prev = slide_back_ranges(rs.drop_last(), shift);
        let r = rs.last();
        let ns = sat_sub(r.0, shift);
        let ne = sat_sub(r.1, shift);
        if ne > ns {
            set_insert(prev, (ns, ne))
        } else {
            prev
        }
    }
}

/// `n` zero bytes.
pub open spec fn zero_seq(n: nat) -> Seq<u8> {
    Seq::new(n, |i: int| 0u8)
}

/// Moving the window to start at file offset `new_off`.
pub open spec fn spec_slide(m: BufferModel, new_off: u64) -> BufferModel {
    let cap = m.capacity;
    if new_off == m.file_offset {
        m
    } else if new_off > m.file_offset {
        let shift = (new_off - m.file_offset) as u64;
        if shift >= cap {
            BufferModel { data: zero_seq(cap as nat), filled: Seq::empty(), file_offset: new_off, ..m }
        } else {
            BufferModel {
                data: m.data.subrange(shift as int, cap as int) + zero_seq(shift as nat),
                filled: slide_fwd_ranges(m.filled, new_off, cap),
                file_offset: new_off,
                ..m
            }
        }
    } else {
        let shift = (m.file_offset - new_off) as u64;
        if shift >= cap {
            BufferModel { data: zero_seq(cap as nat), filled: Seq::empty(), file_offset: new_off, ..m }
        } else {
            BufferModel {
                data: zero_seq(shift as nat) + m.data.subrange(0, cap - shift),
                filled: slide_back_ranges(m.filled, shift),
                file_offset: new_off,
                ..m
            }
        }
    }
}

/// Where the window stands before `len` bytes are stored at `offset`: moved
/// back to `offset` if it starts after it, then forward if the bytes would run
/// past its end.
pub open spec fn spec_position(m: BufferModel, offset: u64, len: u64) -> BufferModel {
    let m1 = if offset < m.file_offset {
        spec_slide(m, offset)
    } else {
        m
    };
    if offset + len > m1.file_offset + m1.capacity {
        spec_slide(
            m1,
            min_u64(sat_sub((offset + len) as u64, m1.capacity), sat_sub(m1.total_size, m1.capacity)),
        )
    } else {
        m1
    }
}

/// Storing the first `len` bytes of `d` for file offset `offset`: what fits in
/// the window from there.
pub open spec fn spec_store(m: BufferModel, offset: u64, len: u64, d: Seq<u8>) -> BufferModel {
    let buf_offset = sat_sub(offset, m.file_offset);
    if buf_offset < m.capacity {
        let wl = min_u64(len, (m.capacity - buf_offset) as u64);
        let re = buf_offset + wl;
        if re <= m.data.len() {
            BufferModel {
                data: m.data.subrange(0, buf_offset as int) + d.subrange(0, wl as int) + m.data.subrange(
                    re,
                    m.data.len() as int,
                ),
                ..m
            }
        } else {
            m
        }
    } else {
        m
    }
}

/// Writing `d` at file offset `offset`: bytes past the end of the file are
/// dropped; the window is positioned; what fits in it is stored; the range is
/// recorded as received.
pub open spec fn spec_write(m: BufferModel, offset: u64, d: Seq<u8>) -> BufferModel {
    if offset >= m.total_size || d.len() == 0 {
        m
    } else {
        let end = min_u64((offset + d.len()) as u64, m.total_size);
        let len = (end - offset) as u64;
        let m3 = spec_store(spec_position(m, offset, len), offset, len, d);
        BufferModel { filled: spec_merge(m3.filled, offset, (offset + len) as u64), ..m3 }
    }
}

} // verus!

verus! {

/// A property every range of `set_insert` has when `r` and all of `rs` have it.
pub proof fn lemma_set_insert_all(rs: Seq<(u64, u64)>, r: (u64, u64), p: spec_fn((u64, u64)) -> bool)
    requires
        p(r),
        forall|j: int| 0 <= j < rs.len() ==> p(#[trigger] rs[j]),
    ensures
        forall|i: int| 0 <= i < set_insert(rs, r).len() ==> p(#[trigger] set_insert(rs, r)[i]),
    decreases rs.len(),
{
    let out = set_insert(rs, r);
    if rs.len() == 0 {
    } else if rs[0].0 == r.0 {
    } else if r.0 < rs[0].0 {
        assert forall|i: int| 0 <= i < out.len() implies p(#[trigger] out[i]) by {
            if i > 0 {
                assert(out[i] == rs[i - 1]);
            }
        }
    } else {
        let t = rs.drop_first();
        assert forall|j: int| 0 <= j < t.len() implies p(#[trigger] t[j]) by {
            assert(t[j] == rs[j + 1]);
        }
        lemma_set_insert_all(t, r, p);
        assert forall|i: int| 0 <= i < out.len() implies p(#[trigger] out[i]) by {
            if i > 0 {
                assert(out[i] == set_insert(t, r)[i - 1]);
            }
        }
    }
}

/// `set_insert` keeps starts sorted.
pub proof fn lemma_set_insert_sorted(rs: Seq<(u64, u64)>, r: (u64, u64))
    requires
        starts_sorted(rs),
    ensures
        starts_sorted(set_insert(rs, r)),
    decreases rs.len(),
{
    let out = set_insert(rs, r);
    if rs.len() == 0 {
    } else if rs[0].0 == r.0 {
    } else if r.0 < rs[0].0 {
        assert forall|i: int, j: int| 0 <= i < j < out.len() implies (#[trigger] out[i]).0 < (#[trigger] out[j]).0 by {
            assert(out[j] == rs[j - 1]);
            if i > 0 {
                assert(out[i] == rs[i - 1]);
            } else if j > 1 {
                assert(rs[0].0 < rs[j - 1].0);
            }
        }
    } else {
        let t = rs.drop_first();
        assert forall|i: int, j: int| 0 <= i < j < t.len() implies (#[trigger] t[i]).0 < (#[trigger] t[j]).0 by {
            assert(t[i] == rs[i + 1]);
            assert(t[j] == rs[j + 1]);
        }
        lemma_set_insert_sorted(t, r);
        let b = rs[0].0;
        assert forall|j: int| 0 <= j < t.len() implies (|x: (u64, u64)| x.0 > b)(#[trigger] t[j]) by {
            assert(t[j] == rs[j + 1]);
        }
        lemma_set_insert_all(t, r, |x: (u64, u64)| x.0 > b);
        let st = set_insert(t, r);
        assert forall|i: int, j: int| 0 <= i < j < out.len() implies (#[trigger] out[i]).0 < (#[trigger] out[j]).0 by {
            assert(out[j] == st[j - 1]);
            assert((|x: (u64, u64)| x.0 > b)(st[j - 1]));
            if i > 0 {
                assert(out[i] == st[i - 1]);
            }
        }
    }
}

/// `set_insert` adds `r` when no range starts where it does.
pub proof fn lemma_set_insert_adds(rs: Seq<(u64, u64)>, r: (u64, u64))
    requires
        forall|j: int| 0 <= j < rs.len() ==> (#[trigger] rs[j]).0 != r.0,
    ensures
        exists|i: int| 0 <= i < set_insert(rs, r).len() && #[trigger] set_insert(rs, r)[i] == r,
    decreases rs.len(),
{
    let out = set_insert(rs, r);
    if rs.len() == 0 {
        assert(out[0] == r);
    } else if r.0 < rs[0].0 {
        assert(out[0] == r);
    } else {
        let t = rs.drop_first();
        assert forall|j: int| 0 <= j < t.len() implies (#[trigger] t[j]).0 != r.0 by {
            assert(t[j] == rs[j + 1]);
        }
        lemma_set_insert_adds(t, r);
        let k = choose|i: int| 0 <= i < set_insert(t, r).len() && #[trigger] set_insert(t, r)[i] == r;
        assert(out[k + 1] == r);
    }
}

/// A property every kept range has when all ranges have it.
pub proof fn lemma_kept_all(rs: Seq<(u64, u64)>, s: u64, e: u64, p: spec_fn((u64, u64)) -> bool)
    requires
        forall|j: int| 0 <= j < rs.len() ==> p(#[trigger] rs[j]),
    ensures
        forall|i: int| 0 <= i < merge_kept(rs, s, e).len() ==> p(#[trigger] merge_kept(rs, s, e)[i]),
    decreases rs.len(),
{
    if rs.len() > 0 {
        let t = rs.drop_last();
        assert forall|j: int| 0 <= j < t.len() implies p(#[trigger] t[j]) by {
            assert(t[j] == rs[j]);
        }
        lemma_kept_all(t, s, e, p);
        let k = merge_kept(rs, s, e);
        assert forall|i: int| 0 <= i < k.len() implies p(#[trigger] k[i]) by {
            if i < merge_kept(t, s, e).len() {
                assert(k[i] == merge_kept(t, s, e)[i]);
            } else {
                assert(k[i] == rs.last());
            }
        }
    }
}

/// The kept ranges stay sorted.
pub proof fn lemma_kept_sorted(rs: Seq<(u64, u64)>, s: u64, e: u64)
    requires
        starts_sorted(rs),
    ensures
        starts_sorted(merge_kept(rs, s, e)),
    decreases rs.len(),
{
    if rs.len() > 0 {
        let t = rs.drop_last();
        assert forall|i: int, j: int| 0 <= i < j < t.len() implies (#[trigger] t[i]).0 < (#[trigger] t[j]).0 by {
            assert(t[i] == rs[i]);
            assert(t[j] == rs[j]);
        }
        lemma_kept_sorted(t, s, e);
        let last = rs.last();
        assert forall|j: int| 0 <= j < t.len() implies (|x: (u64, u64)| x.0 < last.0)(#[trigger] t[j]) by {
            assert(t[j] == rs[j]);
        }
        lemma_kept_all(t, s, e, |x: (u64, u64)| x.0 < last.0);
        let kt = merge_kept(t, s, e);
        let k = merge_kept(rs, s, e);
        assert forall|i: int, j: int| 0 <= i < j < k.len() implies (#[trigger] k[i]).0 < (#[trigger] k[j]).0 by {
            assert(k[i] == kt[i]);
            if j < kt.len() {
                assert(k[j] == kt[j]);
            } else {
                assert((|x: (u64, u64)| x.0 < last.0)(kt[i]));
            }
        }
    }
}

/// The merged bounds contain `[s, e]` and stay within the ranges' limit;
/// and no kept range starts where the merged bounds do.
pub proof fn lemma_merge_bounds(rs: Seq<(u64, u64)>, s: u64, e: u64, limit: u64)
    requires
        s < e <= limit,
        ranges_ok(rs, limit),
    ensures
        merge_bounds(rs, s, e).0 <= s,
        merge_bounds(rs, s, e).1 >= e,
        merge_bounds(rs, s, e).1 <= limit,
        forall|i: int|
            0 <= i < merge_kept(rs, s, e).len() ==> (#[trigger] merge_kept(rs, s, e)[i]).0 != merge_bounds(
                rs,
                s,
                e,
            ).0,
    decreases rs.len(),
{
    if rs.len() > 0 {
        let t = rs.drop_last();
        assert forall|i: int| 0 <= i < t.len() implies (#[trigger] t[i]).0 < t[i].1 <= limit by {
            assert(t[i] == rs[i]);
        }
        assert forall|i: int, j: int| 0 <= i < j < t.len() implies (#[trigger] t[i]).0 < (#[trigger] t[j]).0 by {
            assert(t[i] == rs[i]);
            assert(t[j] == rs[j]);
        }
        lemma_merge_bounds(t, s, e, limit);
        let last = rs.last();
        assert(last.0 < last.1 <= limit);
        let kt = merge_kept(t, s, e);
        let b = merge_bounds(rs, s, e);
        let k = merge_kept(rs, s, e);
        assert forall|j: int| 0 <= j < t.len() implies (|x: (u64, u64)| x.0 < last.0)(#[trigger] t[j]) by {
            assert(t[j] == rs[j]);
        }
        lemma_kept_all(t, s, e, |x: (u64, u64)| x.0 < last.0);
        assert forall|i: int| 0 <= i < k.len() implies (#[trigger] k[i]).0 != b.0 by {
            if i < kt.len() {
                assert(k[i] == kt[i]);
                assert((|x: (u64, u64)| x.0 < last.0)(kt[i]));
            }
        }
    }
}

/// Merging keeps the ranges well formed, and records a range covering `[s, e)`.
pub proof fn lemma_merge_ok(rs: Seq<(u64, u64)>, s: u64, e: u64, limit: u64)
    requires
        e <= limit,
        ranges_ok(rs, limit),
    ensures
        ranges_ok(spec_merge(rs, s, e), limit),
        s < e ==> range_filled(spec_merge(rs, s, e), s as int, e - s),
{
    if s < e {
        lemma_merge_bounds(rs, s, e, limit);
        lemma_kept_sorted(rs, s, e);
        let k = merge_kept(rs, s, e);
        let b = merge_bounds(rs, s, e);
        lemma_set_insert_sorted(k, b);
        let p = |x: (u64, u64)| x.0 < x.1 <= limit;
        assert forall|j: int| 0 <= j < rs.len() implies p(#[trigger] rs[j]) by {
        }
        lemma_kept_all(rs, s, e, p);
        lemma_set_insert_all(k, b, p);
        let out = set_insert(k, b);
        assert forall|i: int| 0 <= i < out.len() implies (#[trigger] out[i]).0 < out[i].1 <= limit by {
            assert(p(out[i]));
        }
        lemma_set_insert_adds(k, b);
        let w = choose|i: int| 0 <= i < out.len() && #[trigger] out[i] == b;
        assert(out[w].0 <= s && out[w].1 >= e);
    }
}

/// Moving the window keeps the ranges well formed.
pub proof fn lemma_slide_fwd_ok(rs: Seq<(u64, u64)>, off: u64, cap: u64, limit: u64)
    requires
        ranges_ok(rs, limit),
    ensures
        ranges_ok(slide_fwd_ranges(rs, off, cap), limit),
    decreases rs.len(),
{
    if rs.len() > 0 {
        let t = rs.drop_last();
        assert forall|i: int| 0 <= i < t.len() implies (#[trigger] t[i]).0 < t[i].1 <= limit by {
            assert(t[i] == rs[i]);
        }
        assert forall|i: int, j: int| 0 <= i < j < t.len() implies (#[trigger] t[i]).0 < (#[trigger] t[j]).0 by {
            assert(t[i] == rs[i]);
            assert(t[j] == rs[j]);
        }
        lemma_slide_fwd_ok(t, off, cap, limit);
        let prev = slide_fwd_ranges(t, off, cap);
        let r = rs.last();
        let ns = sat_sub(r.0, off);
        let ne = sat_sub(r.1, off);
        if ne > ns && ns < cap {
            let x = (ns, min_u64(ne, cap));
            lemma_set_insert_sorted(prev, x);
            let p = |y: (u64, u64)| y.0 < y.1 <= limit;
            assert forall|j: int| 0 <= j < prev.len() implies p(#[trigger] prev[j]) by {
            }
            lemma_set_insert_all(prev, x, p);
            let out = set_insert(prev, x);
            assert forall|i: int| 0 <= i < out.len() implies (#[trigger] out[i]).0 < out[i].1 <= limit by {
                assert(p(out[i]));
            }
        }
    }
}

/// Moving the window back keeps the ranges well formed.
pub proof fn lemma_slide_back_ok(rs: Seq<(u64, u64)>, shift: u64, limit: u64)
    requires
        ranges_ok(rs, limit),
    ensures
        ranges_ok(slide_back_ranges(rs, shift), limit),
    decreases rs.len(),
{
    if rs.len() > 0 {
        let t = rs.drop_last();
        assert forall|i: int| 0 <= i < t.len() implies (#[trigger] t[i]).0 < t[i].1 <= limit by {
            assert(t[i] == rs[i]);
        }
        assert forall|i: int, j: int| 0 <= i < j < t.len() implies (#[trigger] t[i]).0 < (#[trigger] t[j]).0 by {
            assert(t[i] == rs[i]);
            assert(t[j] == rs[j]);
        }
        lemma_slide_back_ok(t, shift, limit);
        let prev = slide_back_ranges(t, shift);
        let r = rs.last();
        let ns = sat_sub(r.0, shift);
        let ne = sat_sub(r.1, shift);
        if ne > ns {
            let x = (ns, ne);
            lemma_set_insert_sorted(prev, x);
            let p = |y: (u64, u64)| y.0 < y.1 <= limit;
            assert forall|j: int| 0 <= j < prev.len() implies p(#[trigger] prev[j]) by {
            }
            lemma_set_insert_all(prev, x, p);
            let out = set_insert(prev, x);
            assert forall|i: int| 0 <= i < out.len() implies (#[trigger] out[i]).0 < out[i].1 <= limit by {
                assert(p(out[i]));
            }
        }
    }
}

} // verus!

verus! {

/// `set_insert` past a prefix of smaller starts keeps that prefix.
proof fn lemma_set_insert_skip(rs: Seq<(u64, u64)>, i: int, r: (u64, u64))
    requires
        0 <= i <= rs.len(),
        forall|j: int| 0 <= j < i ==> (#[trigger] rs[j]).0 < r.0,
    ensures
        set_insert(rs, r) == rs.take(i) + set_insert(rs.skip(i), r),
    decreases i,
{
    if i == 0 {
        assert(rs.skip(0) =~= rs);
        assert(rs.take(0) + set_insert(rs, r) =~= set_insert(rs, r));
    } else {
        let t = rs.drop_first();
        assert forall|j: int| 0 <= j < i - 1 implies (#[trigger] t[j]).0 < r.0 by {
            assert(t[j] == rs[j + 1]);
        }
        lemma_set_insert_skip(t, i - 1, r);
        assert(t.skip(i - 1) =~= rs.skip(i));
        assert(rs.take(i) =~= seq![rs[0]] + t.take(i - 1));
    }
}

/// Adds a range to ranges kept by start, as a set ordered by start does.
fn set_insert_exec(v: &mut Vec<(u64, u64)>, r: (u64, u64))
    ensures
        final(v)@ == set_insert(old(v)@, r),
{
    let ghost rs = v@;
    let mut i: usize = 0;
    while i < v.len() && v[i].0 < r.0
        invariant
            i <= v@.len(),
            v@ == rs,
            forall|j: int| 0 <= j < i ==> (#[trigger] rs[j]).0 < r.0,
        decreases v@.len() - i,
    {
        i += 1;
    }
    proof {
        lemma_set_insert_skip(rs, i as int, r);
    }
    if i < v.len() && v[i].0 == r.0 {
        assert(rs.skip(i as int)[0] == rs[i as int]);
        assert(rs.take(i as int) + rs.skip(i as int) =~= rs);
        return;
    }
    if i < v.len() {
        assert(rs.skip(i as int)[0] == rs[i as int]);
    }
    v.insert(i, r);
    assert(v@ =~= rs.take(i as int) + set_insert(rs.skip(i as int), r));
}

/// Records that `[start, end)` arrived.
fn merge_ranges(rs: &Vec<(u64, u64)>, start: u64, end: u64) -> (out: Vec<(u64, u64)>)
    ensures
        out@ == spec_merge(rs@, start, end),
{
    if end <= start {
        return vstd::slice::slice_to_vec(rs.as_slice());
    }
    let mut ns = start;
    let mut ne = end;
    let mut kept: Vec<(u64, u64)> = Vec::new();
    let mut i: usize = 0;
    while i < rs.len()
        invariant
            i <= rs@.len(),
            (ns, ne) == merge_bounds(rs@.take(i as int), start, end),
            kept@ == merge_kept(rs@.take(i as int), start, end),
        decreases rs@.len() - i,
    {
        let (s, e) = rs[i];
        proof {
            assert(rs@.take(i + 1).drop_last() =~= rs@.take(i as int));
            assert(rs@.take(i + 1).last() == rs@[i as int]);
        }
        if s <= ne && e >= ns {
            if s < ns {
                ns = s;
            }
            if e > ne {
                ne = e;
            }
        } else {
            kept.push((s, e));
        }
        i += 1;
    }
    proof {
        assert(rs@.take(rs@.len() as int) =~= rs@);
    }
    set_insert_exec(&mut kept, (ns, ne));
    kept
}

/// The ranges shifted down by `off`, cut at `cap`.
fn slide_fwd_exec(rs: &Vec<(u64, u64)>, off: u64, cap: u64) -> (out: Vec<(u64, u64)>)
    ensures
        out@ == slide_fwd_ranges(rs@, off, cap),
{
    let mut out: Vec<(u64, u64)> = Vec::new();
    let mut i: usize = 0;
    while i < rs.len()
        invariant
            i <= rs@.len(),
            out@ == slide_fwd_ranges(rs@.take(i as int), off, cap),
        decreases rs@.len() - i,
    {
        let (s, e) = rs[i];
        proof {
            assert(rs@.take(i + 1).drop_last() =~= rs@.take(i as int));
            assert(rs@.take(i + 1).last() == rs@[i as int]);
        }
        let ns = if s > off { s - off } else { 0 };
        let ne = if e > off { e - off } else { 0 };
        if ne > ns && ns < cap {
            set_insert_exec(&mut out, (ns, if ne < cap { ne } else { cap }));
        }
        i += 1;
    }
    proof {
        assert(rs@.take(rs@.len() as int) =~= rs@);
    }
    out
}

/// The ranges shifted down by `shift`.
fn slide_back_exec(rs: &Vec<(u64, u64)>, shift: u64) -> (out: Vec<(u64, u64)>)
    ensures
        out@ == slide_back_ranges(rs@, shift),
{
    let mut out: Vec<(u64, u64)> = Vec::new();
    let mut i: usize = 0;
    while i < rs.len()
        invariant
            i <= rs@.len(),
            out@ == slide_back_ranges(rs@.take(i as int), shift),
        decreases rs@.len() - i,
    {
        let (s, e) = rs[i];
        proof {
            assert(rs@.take(i + 1).drop_last() =~= rs@.take(i as int));
            assert(rs@.take(i + 1).last() == rs@[i as int]);
        }
        let ns = if s > shift { s - shift } else { 0 };
        let ne = if e > shift { e - shift } else { 0 };
        if ne > ns {
            set_insert_exec(&mut out, (ns, ne));
        }
        i += 1;
    }
    proof {
        assert(rs@.take(rs@.len() as int) =~= rs@);
    }
    out
}

/// Moving the window keeps a buffer well formed, when it moves to an offset
/// within the file.
pub proof fn lemma_slide_ok(m: BufferModel, new_off: u64)
    requires
        buffer_ok(m),
        new_off <= m.total_size,
    ensures
        buffer_ok(spec_slide(m, new_off)),
{
    if new_off > m.file_offset {
        lemma_slide_fwd_ok(m.filled, new_off, m.capacity, m.total_size);
    } else if new_off < m.file_offset {
        lemma_slide_back_ok(m.filled, (m.file_offset - new_off) as u64, m.total_size);
    }
}

impl RingBuffer {
    /// Moves the window to start at file offset `new_offset`.
    fn slide_to(&mut self, new_offset: u64)
        requires
            buffer_ok(old(self)@),
            new_offset <= old(self)@.total_size,
        ensures
            final(self)@ == spec_slide(old(self)@, new_offset),
            buffer_ok(final(self)@),
    {
        proof {
            lemma_slide_ok(self@, new_offset);
        }
        if new_offset == self.file_offset {
            return;
        }
        let cap = self.capacity;
        if new_offset > self.file_offset {
            let shift = new_offset - self.file_offset;
            if shift >= cap {
                self.filled = Vec::new();
                self.data = zeros(cap as usize);
                self.file_offset = new_offset;
                return;
            }
            let mut new_data: Vec<u8> = Vec::new();
            let mut k: usize = shift as usize;
            while k < cap as usize
                invariant
                    shift <= k <= cap,
                    self.data@.len() == cap,
                    new_data@ == self.data@.subrange(shift as int, k as int),
                decreases cap - k,
            {
                new_data.push(self.data[k]);
                k += 1;
            }
            let mut z: usize = 0;
            while z < shift as usize
                invariant
                    z <= shift,
                    new_data@ == self.data@.subrange(shift as int, cap as int) + zero_seq(z as nat),
                decreases shift - z,
            {
                new_data.push(0u8);
                z += 1;
                assert(new_data@ =~= self.data@.subrange(shift as int, cap as int) + zero_seq(z as nat));
            }
            let filled = slide_fwd_exec(&self.filled, new_offset, cap);
            self.filled = filled;
            self.data = new_data;
            self.file_offset = new_offset;
        } else {
            let shift = self.file_offset - new_offset;
            if shift >= cap {
                self.filled = Vec::new();
                self.data = zeros(cap as usize);
                self.file_offset = new_offset;
                return;
            }
            let mut new_data = zeros(shift as usize);
            let mut k: usize = 0;
            while k < (cap - shift) as usize
                invariant
                    k <= cap - shift,
                    self.data@.len() == cap,
                    new_data@ == zero_seq(shift as nat) + self.data@.subrange(0, k as int),
                decreases cap - shift - k,
            {
                new_data.push(self.data[k]);
                k += 1;
            }
            let filled = slide_back_exec(&self.filled, shift);
            self.filled = filled;
            self.data = new_data;
            self.file_offset = new_offset;
        }
    }
}

} // verus!

verus! {

/// Positioning the window keeps a buffer well formed.
pub proof fn lemma_position_ok(m: BufferModel, offset: u64, len: u64)
    requires
        buffer_ok(m),
        offset < m.total_size,
        offset + len <= m.total_size,
    ensures
        buffer_ok(spec_position(m, offset, len)),
        spec_position(m, offset, len).total_size == m.total_size,
        spec_position(m, offset, len).capacity == m.capacity,
{
    let m1 = if offset < m.file_offset {
        lemma_slide_ok(m, offset);
        spec_slide(m, offset)
    } else {
        m
    };
    if offset + len > m1.file_offset + m1.capacity {
        let t = min_u64(sat_sub((offset + len) as u64, m1.capacity), sat_sub(m1.total_size, m1.capacity));
        lemma_slide_ok(m1, t);
    }
}

/// Writing keeps a buffer well formed.
pub proof fn lemma_write_ok(m: BufferModel, offset: u64, d: Seq<u8>)
    requires
        buffer_ok(m),
        offset < m.total_size ==> offset + d.len() <= u64::MAX,
    ensures
        buffer_ok(spec_write(m, offset, d)),
{
    if !(offset >= m.total_size || d.len() == 0) {
        let end = min_u64((offset + d.len()) as u64, m.total_size);
        let len = (end - offset) as u64;
        lemma_position_ok(m, offset, len);
        let m3 = spec_store(spec_position(m, offset, len), offset, len, d);
        assert(buffer_ok(m3));
        lemma_merge_ok(m3.filled, offset, (offset + len) as u64, m3.total_size);
    }
}

impl RingBuffer {
    /// Moves the window so that `len` bytes at `offset` can be stored.
    fn position_window(&mut self, offset: u64, len: u64)
        requires
            buffer_ok(old(self)@),
            offset < old(self)@.total_size,
            offset + len <= old(self)@.total_size,
        ensures
            final(self)@ == spec_position(old(self)@, offset, len),
            buffer_ok(final(self)@),
    {
        proof {
            lemma_position_ok(self@, offset, len);
        }
        if offset < self.file_offset {
            self.slide_to(offset);
        }
        if offset + len > self.file_offset + self.capacity {
            let a = if offset + len > self.capacity { offset + len - self.capacity } else { 0 };
            let b = if self.total_size > self.capacity { self.total_size - self.capacity } else { 0 };
            self.slide_to(if a < b { a } else { b });
        }
    }

    /// Stores the first `len` bytes of `data` for file offset `offset`, as far
    /// as the window reaches.
    fn store_bytes(&mut self, offset: u64, len: u64, data: &[u8])
        requires
            buffer_ok(old(self)@),
            len <= data@.len(),
        ensures
            final(self)@ == spec_store(old(self)@, offset, len, data@),
    {
        let ghost m2 = self@;
        let buf_offset = if offset > self.file_offset { offset - self.file_offset } else { 0 };
        if buf_offset < self.capacity {
            let wl = if len < self.capacity - buf_offset { len } else { self.capacity - buf_offset };
            let rs = buf_offset as usize;
            let re = rs + wl as usize;
            if re <= self.data.len() {
                let mut k: usize = 0;
                while k < wl as usize
                    invariant
                        k <= wl,
                        re == rs + wl,
                        re <= m2.data.len(),
                        wl <= len <= data@.len(),
                        self@ == (BufferModel { data: self@.data, ..m2 }),
                        self@.data.len() == m2.data.len(),
                        forall|j: int|
                            0 <= j < self@.data.len() ==> #[trigger] self@.data[j] == if rs <= j < rs + k {
                                data@[j - rs]
                            } else {
                                m2.data[j]
                            },
                    decreases wl - k,
                {
                    self.data.set(rs + k, data[k]);
                    k += 1;
                }
                proof {
                    assert(self@.data =~= m2.data.subrange(0, rs as int) + data@.subrange(0, wl as int)
                        + m2.data.subrange(re as int, m2.data.len() as int));
                }
            }
        }
    }

    /// Stores bytes that arrived for file offset `offset` and records them as
    /// received. Bytes past the end of the file are dropped. The window moves
    /// back to `offset` if it starts after it, and forward when the bytes would
    /// run past its end.
    pub fn write(&mut self, offset: u64, data: &[u8])
        requires
            buffer_ok(old(self)@),
            offset < old(self)@.total_size ==> offset + data@.len() <= u64::MAX,
        ensures
            final(self)@ == spec_write(old(self)@, offset, data@),
            buffer_ok(final(self)@),
    {
        proof {
            lemma_write_ok(self@, offset, data@);
        }
        if offset >= self.total_size || data.len() == 0 {
            return;
        }
        let sum = offset + data.len() as u64;
        let end = if sum < self.total_size { sum } else { self.total_size };
        let len = end - offset;
        self.position_window(offset, len);
        self.store_bytes(offset, len, data);
        let merged = merge_ranges(&self.filled, offset, offset + len);
        self.filled = merged;
    }
}

} // verus!

verus! {

/// A write within the window and the file reads back as written: reading the
/// same range right after returns exactly the bytes written.
pub proof fn law_read_after_write(m: BufferModel, offset: u64, d: Seq<u8>)
    requires
        buffer_ok(m),
        d.len() > 0,
        m.file_offset <= offset,
        offset + d.len() <= m.file_offset + m.capacity,
        offset + d.len() <= m.total_size,
    ensures
        spec_read(spec_write(m, offset, d), offset, d.len() as u64) == Some(d),
{
    let len = d.len() as u64;
    assert(spec_position(m, offset, len) == m);
    let buf = (offset - m.file_offset) as u64;
    let m3 = spec_store(m, offset, len, d);
    assert(m3.data =~= m.data.subrange(0, buf as int) + d + m.data.subrange(buf + len, m.data.len() as int));
    lemma_merge_ok(m3.filled, offset, (offset + len) as u64, m3.total_size);
    let w = spec_write(m, offset, d);
    assert(w.data.subrange(buf as int, buf + len) =~= d);
}

/// `set_insert` keeps every range it is given.
proof fn lemma_set_insert_keeps(rs: Seq<(u64, u64)>, r: (u64, u64))
    ensures
        forall|i: int|
            #![trigger rs[i]]
            0 <= i < rs.len() ==> exists|j: int| 0 <= j < set_insert(rs, r).len() && #[trigger] set_insert(rs, r)[j] == rs[i],
    decreases rs.len(),
{
    let out = set_insert(rs, r);
    if rs.len() > 0 {
        if rs[0].0 == r.0 {
            assert forall|i: int|
                #![trigger rs[i]]
                0 <= i < rs.len() implies exists|j: int| 0 <= j < out.len() && #[trigger] out[j] == rs[i] by {
                assert(out[i] == rs[i]);
            }
        } else if r.0 < rs[0].0 {
            assert forall|i: int|
                #![trigger rs[i]]
                0 <= i < rs.len() implies exists|j: int| 0 <= j < out.len() && #[trigger] out[j] == rs[i] by {
                assert(out[i + 1] == rs[i]);
            }
        } else {
            let t = rs.drop_first();
            lemma_set_insert_keeps(t, r);
            assert forall|i: int|
                #![trigger rs[i]]
                0 <= i < rs.len() implies exists|j: int| 0 <= j < out.len() && #[trigger] out[j] == rs[i] by {
                if i == 0 {
                    assert(out[0] == rs[0]);
                } else {
                    assert(rs[i] == t[i - 1]);
                    let j = choose|j: int| 0 <= j < set_insert(t, r).len() && #[trigger] set_insert(t, r)[j] == t[i - 1];
                    assert(out[j + 1] == rs[i]);
                }
            }
        }
    }
}

/// Each range of `rs` is either kept by the merge or lies within the merged bounds.
proof fn lemma_merge_keeps(rs: Seq<(u64, u64)>, s: u64, e: u64)
    ensures
        forall|i: int|
            0 <= i < rs.len() ==> (exists|j: int|
                0 <= j < merge_kept(rs, s, e).len() && #[trigger] merge_kept(rs, s, e)[j] == rs[i]) || (merge_bounds(
                rs,
                s,
                e,
            ).0 <= (#[trigger] rs[i]).0 && rs[i].1 <= merge_bounds(rs, s, e).1),
    decreases rs.len(),
{
    if rs.len() > 0 {
        let t = rs.drop_last();
        lemma_merge_keeps(t, s, e);
        let kt = merge_kept(t, s, e);
        let k = merge_kept(rs, s, e);
        let bt = merge_bounds(t, s, e);
        let b = merge_bounds(rs, s, e);
        assert(b.0 <= bt.0 && bt.1 <= b.1);
        assert forall|i: int| 0 <= i < rs.len() implies (exists|j: int| 0 <= j < k.len() && #[trigger] k[j] == rs[i]) || (b.0
            <= (#[trigger] rs[i]).0 && rs[i].1 <= b.1) by {
            if i == rs.len() - 1 {
                let r = rs.last();
                if !(r.0 <= bt.1 && r.1 >= bt.0) {
                    assert(k[k.len() - 1] == rs[i]);
                }
            } else {
                assert(rs[i] == t[i]);
                if exists|j: int| 0 <= j < kt.len() && #[trigger] kt[j] == t[i] {
                    let j = choose|j: int| 0 <= j < kt.len() && #[trigger] kt[j] == t[i];
                    assert(k[j] == kt[j]);
                }
            }
        }
    }
}

/// Recording a range never loses what was recorded before.
pub proof fn lemma_merge_keeps_filled(rs: Seq<(u64, u64)>, s: u64, e: u64, limit: u64, o: int, l: int)
    requires
        e <= limit,
        ranges_ok(rs, limit),
        range_filled(rs, o, l),
    ensures
        range_filled(spec_merge(rs, s, e), o, l),
{
    if s < e {
        let i = choose|i: int| 0 <= i < rs.len() && (#[trigger] rs[i]).0 <= o && rs[i].1 >= o + l;
        lemma_merge_keeps(rs, s, e);
        lemma_merge_bounds(rs, s, e, limit);
        let k = merge_kept(rs, s, e);
        let b = merge_bounds(rs, s, e);
        let out = set_insert(k, b);
        lemma_set_insert_keeps(k, b);
        if exists|j: int| 0 <= j < k.len() && #[trigger] k[j] == rs[i] {
            let j = choose|j: int| 0 <= j < k.len() && #[trigger] k[j] == rs[i];
            let w = choose|w: int| 0 <= w < out.len() && #[trigger] out[w] == k[j];
            assert(out[w].0 <= o && out[w].1 >= o + l);
        } else {
            lemma_set_insert_adds(k, b);
            let w = choose|w: int| 0 <= w < out.len() && #[trigger] out[w] == b;
            assert(out[w].0 <= o && out[w].1 >= o + l);
        }
    }
}

/// A new buffer, and so a cleared one, has received nothing: no range is
/// filled, so no read gives bytes and it is not playable.
pub proof fn law_empty_buffer_holds_nothing(capacity: u64, total_size: u64)
    ensures
        forall|o: int, l: int| !#[trigger] range_filled(empty_buffer(capacity, total_size).filled, o, l),
        forall|o: u64, l: u64| #[trigger] spec_read(empty_buffer(capacity, total_size), o, l) is None,
{
}

/// The buffer after the writes of `ws`, each an offset and its bytes, in order.
pub open spec fn apply_writes(m: BufferModel, ws: Seq<(u64, Seq<u8>)>) -> BufferModel
    decreases ws.len(),
{
    if ws.len() == 0 {
        m
    } else {
        let w = ws.last();
        spec_write(apply_writes(m, ws.drop_last()), w.0, w.1)
    }
}

/// Every write of `ws` lies inside the window of `m` and inside the file.
pub open spec fn writes_in_window(m: BufferModel, ws: Seq<(u64, Seq<u8>)>) -> bool {
    forall|k: int|
        0 <= k < ws.len() ==> {
            &&& m.file_offset <= (#[trigger] ws[k]).0
            &&& ws[k].0 + ws[k].1.len() <= m.file_offset + m.capacity
            &&& ws[k].0 + ws[k].1.len() <= m.total_size
        }
}

/// The byte at file position `p` after the writes of `ws` on `m`: that of the
/// latest write covering `p`, or the one `m` held in its window if none does.
pub open spec fn byte_after_writes(m: BufferModel, ws: Seq<(u64, Seq<u8>)>, p: int) -> u8
    decreases ws.len(),
{
    if ws.len() == 0 {
        m.data[p - m.file_offset]
    } else {
        let w = ws.last();
        if w.0 <= p < w.0 + w.1.len() {
            w.1[p - w.0]
        } else {
            byte_after_writes(m, ws.drop_last(), p)
        }
    }
}

/// A write inside the window and the file leaves the window where it is, puts
/// its bytes at their place in it, and records its range beside those already
/// recorded.
proof fn lemma_write_in_window(m: BufferModel, offset: u64, d: Seq<u8>)
    requires
        buffer_ok(m),
        m.file_offset <= offset,
        offset + d.len() <= m.file_offset + m.capacity,
        offset + d.len() <= m.total_size,
    ensures
        buffer_ok(spec_write(m, offset, d)),
        spec_write(m, offset, d).file_offset == m.file_offset,
        spec_write(m, offset, d).capacity == m.capacity,
        spec_write(m, offset, d).total_size == m.total_size,
        forall|i: int|
            0 <= i < m.capacity ==> #[trigger] spec_write(m, offset, d).data[i] == if offset - m.file_offset <= i < offset
                - m.file_offset + d.len() {
                d[i - (offset - m.file_offset)]
            } else {
                m.data[i]
            },
        forall|o: int, l: int|
            #[trigger] range_filled(m.filled, o, l) ==> range_filled(spec_write(m, offset, d).filled, o, l),
        d.len() > 0 ==> range_filled(spec_write(m, offset, d).filled, offset as int, d.len() as int),
{
    lemma_write_ok(m, offset, d);
    let f = spec_write(m, offset, d);
    if d.len() > 0 {
        let len = d.len() as u64;
        assert(min_u64((offset + d.len()) as u64, m.total_size) == offset + len);
        assert(spec_position(m, offset, len) == m);
        let buf = (offset - m.file_offset) as u64;
        assert(sat_sub(offset, m.file_offset) == buf);
        let m3 = spec_store(m, offset, len, d);
        assert(m3.data =~= m.data.subrange(0, buf as int) + d + m.data.subrange(buf + len, m.data.len() as int));
        assert(f.filled == spec_merge(m3.filled, offset, (offset + len) as u64));
        lemma_merge_ok(m3.filled, offset, (offset + len) as u64, m3.total_size);
        assert forall|o: int, l: int| #[trigger] range_filled(m.filled, o, l) implies range_filled(f.filled, o, l) by {
            lemma_merge_keeps_filled(m3.filled, offset, (offset + len) as u64, m3.total_size, o, l);
        }
    }
}

/// Writes that all fall inside the window leave it where it is, and each byte
/// of the window then holds what the latest write covering it wrote there, or
/// what it held before where none did. Every range written is then received,
/// and reading it back gives, at each position, the byte most recently written
/// there; any read from the window gives such bytes too.
pub proof fn law_reads_after_writes(m: BufferModel, ws: Seq<(u64, Seq<u8>)>)
    requires
        buffer_ok(m),
        writes_in_window(m, ws),
    ensures
        buffer_ok(apply_writes(m, ws)),
        apply_writes(m, ws).file_offset == m.file_offset,
        apply_writes(m, ws).capacity == m.capacity,
        apply_writes(m, ws).total_size == m.total_size,
        forall|p: int|
            m.file_offset <= p < m.file_offset + m.capacity ==> #[trigger] apply_writes(m, ws).data[p - m.file_offset]
                == byte_after_writes(m, ws, p),
        forall|k: int|
            0 <= k < ws.len() && (#[trigger] ws[k]).1.len() > 0 ==> spec_read(apply_writes(m, ws), ws[k].0, ws[k].1.len() as u64)
                == Some(Seq::new(ws[k].1.len(), |j: int| byte_after_writes(m, ws, ws[k].0 + j))),
        forall|o: u64, l: u64|
            #![trigger spec_read(apply_writes(m, ws), o, l)]
            m.file_offset <= o && spec_read(apply_writes(m, ws), o, l) is Some ==> forall|j: int|
                0 <= j < l ==> #[trigger] spec_read(apply_writes(m, ws), o, l)->0[j] == byte_after_writes(m, ws, o + j),
{
    lemma_writes_in_window(m, ws);
    let f = apply_writes(m, ws);
    assert forall|k: int|
        0 <= k < ws.len() && (#[trigger] ws[k]).1.len() > 0 implies spec_read(f, ws[k].0, ws[k].1.len() as u64)
            == Some(Seq::new(ws[k].1.len(), |j: int| byte_after_writes(m, ws, ws[k].0 + j))) by {
        let o = ws[k].0;
        let l = ws[k].1.len() as u64;
        assert(range_filled(f.filled, o as int, l as int));
        let r = spec_read(f, o, l)->0;
        assert forall|j: int| 0 <= j < l implies r[j] == byte_after_writes(m, ws, o + j) by {
            assert(f.data[(o + j) - m.file_offset] == byte_after_writes(m, ws, o + j));
        }
        assert(r =~= Seq::new(ws[k].1.len(), |j: int| byte_after_writes(m, ws, ws[k].0 + j)));
    }
    assert forall|o: u64, l: u64|
        #![trigger spec_read(apply_writes(m, ws), o, l)]
        m.file_offset <= o && spec_read(f, o, l) is Some implies forall|j: int|
            0 <= j < l ==> #[trigger] spec_read(f, o, l)->0[j] == byte_after_writes(m, ws, o + j) by {
        assert forall|j: int| 0 <= j < l implies #[trigger] spec_read(f, o, l)->0[j] == byte_after_writes(m, ws, o + j) by {
            assert(f.data[(o + j) - m.file_offset] == byte_after_writes(m, ws, o + j));
        }
    }
}

/// The state after writes inside the window, by induction on the writes.
proof fn lemma_writes_in_window(m: BufferModel, ws: Seq<(u64, Seq<u8>)>)
    requires
        buffer_ok(m),
        writes_in_window(m, ws),
    ensures
        buffer_ok(apply_writes(m, ws)),
        apply_writes(m, ws).file_offset == m.file_offset,
        apply_writes(m, ws).capacity == m.capacity,
        apply_writes(m, ws).total_size == m.total_size,
        forall|p: int|
            m.file_offset <= p < m.file_offset + m.capacity ==> #[trigger] apply_writes(m, ws).data[p - m.file_offset]
                == byte_after_writes(m, ws, p),
        forall|k: int|
            0 <= k < ws.len() && (#[trigger] ws[k]).1.len() > 0 ==> range_filled(
                apply_writes(m, ws).filled,
                ws[k].0 as int,
                ws[k].1.len() as int,
            ),
    decreases ws.len(),
{
    if ws.len() > 0 {
        let rest = ws.drop_last();
        assert forall|k: int| 0 <= k < rest.len() implies {
            &&& m.file_offset <= (#[trigger] rest[k]).0
            &&& rest[k].0 + rest[k].1.len() <= m.file_offset + m.capacity
            &&& rest[k].0 + rest[k].1.len() <= m.total_size
        } by {
            assert(rest[k] == ws[k]);
        }
        lemma_writes_in_window(m, rest);
        let m0 = apply_writes(m, rest);
        let w = ws.last();
        assert(w == ws[ws.len() - 1]);
        let f = apply_writes(m, ws);
        assert(f == spec_write(m0, w.0, w.1));
        lemma_write_in_window(m0, w.0, w.1);
        assert forall|p: int| m.file_offset <= p < m.file_offset + m.capacity implies #[trigger] f.data[p - m.file_offset]
            == byte_after_writes(m, ws, p) by {
            assert(m0.data[p - m.file_offset] == byte_after_writes(m, rest, p));
        }
        assert forall|k: int|
            0 <= k < ws.len() && (#[trigger] ws[k]).1.len() > 0 implies range_filled(f.filled, ws[k].0 as int, ws[k].1.len() as int) by {
            if k < rest.len() {
                assert(rest[k] == ws[k]);
                assert(range_filled(m0.filled, rest[k].0 as int, rest[k].1.len() as int));
            }
        }
    }
}

/// After a write, the bytes written that lie within the file are recorded as
/// received, wherever the window had to move.
pub proof fn law_write_records_range(m: BufferModel, offset: u64, d: Seq<u8>)
    requires
        buffer_ok(m),
        d.len() > 0,
        offset < m.total_size,
        offset + d.len() <= u64::MAX,
    ensures
        range_filled(
            spec_write(m, offset, d).filled,
            offset as int,
            min_u64((offset + d.len()) as u64, m.total_size) - offset,
        ),
{
    let end = min_u64((offset + d.len()) as u64, m.total_size);
    let len = (end - offset) as u64;
    lemma_position_ok(m, offset, len);
    let m3 = spec_store(spec_position(m, offset, len), offset, len, d);
    lemma_merge_ok(m3.filled, offset, (offset + len) as u64, m3.total_size);
}

/// The bytes received before `off`, counting each range up to where it or
/// `off` ends.
pub open spec fn sum_before(rs: Seq<(u64, u64)>, off: u64) -> int
    decreases rs.len(),
{
    if rs.len() == 0 {
        0
    } else {
        let r = rs.last();
        sum_before(rs.drop_last(), off) + if r.1 <= off {
            r.1 - r.0
        } else if r.0 < off {
            off - r.0
        } else {
            0
        }
    }
}

/// The total length of the ranges.
pub open spec fn sum_lengths(rs: Seq<(u64, u64)>) -> int
    decreases rs.len(),
{
    if rs.len() == 0 {
        0
    } else {
        sum_lengths(rs.drop_last()) + rs.last().1 - rs.last().0
    }
}

/// The bytes received at or after `off`, counting each range from where it or
/// `off` begins.
pub open spec fn sum_after(rs: Seq<(u64, u64)>, off: u64) -> int
    decreases rs.len(),
{
    if rs.len() == 0 {
        0
    } else {
        let r = rs.last();
        sum_after(rs.drop_last(), off) + if r.0 >= off {
            r.1 - r.0
        } else if r.1 > off {
            r.1 - off
        } else {
            0
        }
    }
}

impl RingBuffer {
    /// The ranges received, ordered by start.
    pub fn filled_ranges(&self) -> (r: &[(u64, u64)])
        ensures
            r@ == self@.filled,
    {
        self.filled.as_slice()
    }

    /// The bytes received at or after file position `offset`, range by range.
    pub fn filled_after(&self, offset: u64) -> (n: u128)
        requires
            buffer_ok(self@),
        ensures
            n == sum_after(self@.filled, offset),
    {
        let mut total: u128 = 0;
        let mut i: usize = 0;
        while i < self.filled.len()
            invariant
                i <= self.filled@.len(),
                ranges_ok(self.filled@, self.total_size),
                total == sum_after(self.filled@.take(i as int), offset),
                total <= i * 0x1_0000_0000_0000_0000,
            decreases self.filled@.len() - i,
        {
            let (s, e) = self.filled[i];
            proof {
                assert(self.filled@.take(i + 1).drop_last() =~= self.filled@.take(i as int));
                assert(self.filled@.take(i + 1).last() == self.filled@[i as int]);
                assert(i * 0x1_0000_0000_0000_0000 + 0x1_0000_0000_0000_0000 <= 0xffff_ffff_ffff_ffff_0000_0000_0000_0000u128 + 0x1_0000_0000_0000_0000) by (nonlinear_arith)
                    requires
                        i < 0x1_0000_0000_0000_0000,
                ;
            }
            let add: u64 = if s >= offset {
                e - s
            } else if e > offset {
                e - offset
            } else {
                0
            };
            total = total + add as u128;
            i += 1;
        }
        proof {
            assert(self.filled@.take(self.filled@.len() as int) =~= self.filled@);
        }
        total
    }

    /// The bytes received before file position `offset`, range by range.
    pub fn filled_before(&self, offset: u64) -> (n: u128)
        requires
            buffer_ok(self@),
        ensures
            n == sum_before(self@.filled, offset),
    {
        let mut total: u128 = 0;
        let mut i: usize = 0;
        while i < self.filled.len()
            invariant
                i <= self.filled@.len(),
                ranges_ok(self.filled@, self.total_size),
                total == sum_before(self.filled@.take(i as int), offset),
                total <= i * 0x1_0000_0000_0000_0000,
            decreases self.filled@.len() - i,
        {
            let (s, e) = self.filled[i];
            proof {
                assert(self.filled@.take(i + 1).drop_last() =~= self.filled@.take(i as int));
                assert(self.filled@.take(i + 1).last() == self.filled@[i as int]);
                assert(i * 0x1_0000_0000_0000_0000 + 0x1_0000_0000_0000_0000 <= 0xffff_ffff_ffff_ffff_0000_0000_0000_0000u128 + 0x1_0000_0000_0000_0000) by (nonlinear_arith)
                    requires
                        i < 0x1_0000_0000_0000_0000,
                ;
            }
            let add: u64 = if e <= offset {
                e - s
            } else if s < offset {
                offset - s
            } else {
                0
            };
            total = total + add as u128;
            i += 1;
        }
        proof {
            assert(self.filled@.take(self.filled@.len() as int) =~= self.filled@);
        }
        total
    }

    /// All the bytes received: the sum of the ranges' lengths.
    pub fn filled_total(&self) -> (n: u128)
        requires
            buffer_ok(self@),
        ensures
            n == sum_lengths(self@.filled),
    {
        let mut total: u128 = 0;
        let mut i: usize = 0;
        while i < self.filled.len()
            invariant
                i <= self.filled@.len(),
                ranges_ok(self.filled@, self.total_size),
                total == sum_lengths(self.filled@.take(i as int)),
                total <= i * 0x1_0000_0000_0000_0000,
            decreases self.filled@.len() - i,
        {
            let (s, e) = self.filled[i];
            proof {
                assert(self.filled@.take(i + 1).drop_last() =~= self.filled@.take(i as int));
                assert(self.filled@.take(i + 1).last() == self.filled@[i as int]);
                assert(i * 0x1_0000_0000_0000_0000 + 0x1_0000_0000_0000_0000 <= 0xffff_ffff_ffff_ffff_0000_0000_0000_0000u128 + 0x1_0000_0000_0000_0000) by (nonlinear_arith)
                    requires
                        i < 0x1_0000_0000_0000_0000,
                ;
            }
            total = total + (e - s) as u128;
            i += 1;
        }
        proof {
            assert(self.filled@.take(self.filled@.len() as int) =~= self.filled@);
        }
        total
    }

    /// The size of the file.
    pub fn total_size(&self) -> (n: u64)
        ensures
            n == self@.total_size,
    {
        self.total_size
    }

    /// Where playback is.
    pub fn play_position(&self) -> (n: u64)
        ensures
            n == self@.play_position,
    {
        self.play_position
    }
}

} // verus!
