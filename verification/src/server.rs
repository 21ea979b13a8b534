//! Pieces of the local HTTP server that decide rather than serve: its port,
//! and the byte ranges a request asks for.
use vstd::prelude::*;
use vstd::utf8::encode_utf8;

use crate::seqs::{chars_start_with, split_ranges, split_on, starts_with, str_chars, seq_find, lemma_seq_find};
use crate::strings::{ascii_chars, decimal_string, push_str};
use crate::text::{dec_nat, parse_u64_bytes, parse_unsigned};

verus! {

/// Where the local server tries to listen.
#[derive(Debug, Clone, Copy)]
pub struct LocalServerConfig {
    pub preferred_port: u16,
    pub max_retry: u8,
}

impl Default for LocalServerConfig {
    fn default() -> (c: LocalServerConfig)
        ensures
            c.preferred_port == 8621,
            c.max_retry == 10,
    {
        LocalServerConfig { preferred_port: 8621, max_retry: 10 }
    }
}

impl LocalServerConfig {
    /// Listens on `preferred_port` if it can, trying up to ten ports after it.
    pub fn new(preferred_port: u16) -> (c: LocalServerConfig)
        ensures
            c.preferred_port == preferred_port,
            c.max_retry == 10,
    {
        LocalServerConfig { preferred_port, max_retry: 10 }
    }

    /// The first port among `preferred_port`, `preferred_port + 1`, ...,
    /// `preferred_port + max_retry` that `port_available` accepts, trying them
    /// in that order and stopping at the first; 0 when none is.
    pub fn find_available_port<F: Fn(u16) -> bool>(&self, port_available: F) -> (port: u16)
        requires
            self.preferred_port + self.max_retry <= u16::MAX,
            forall|p: u16| call_requires(port_available, (p,)),
        ensures
            (self.preferred_port <= port <= self.preferred_port + self.max_retry && call_ensures(
                port_available,
                (port,),
                true,
            ) && forall|q: u16|
                self.preferred_port <= q < port ==> call_ensures(port_available, (q,), false)) || (
            port == 0 && forall|q: u16|
                self.preferred_port <= q <= self.preferred_port + self.max_retry ==> call_ensures(
                    port_available,
                    (q,),
                    false,
                )),
    {
        let mut offset: u8 = 0;
        loop
            invariant
                offset <= self.max_retry,
                self.preferred_port + self.max_retry <= u16::MAX,
                forall|p: u16| call_requires(port_available, (p,)),
                forall|q: u16|
                    self.preferred_port <= q < self.preferred_port + offset ==> call_ensures(
                        port_available,
                        (q,),
                        false,
                    ),
            decreases self.max_retry - offset,
        {
            let port = self.preferred_port + offset as u16;
            if port_available(port) {
                return port;
            }
            if offset == self.max_retry {
                return 0;
            }
            offset = offset + 1;
        }
    }
}

/// One satisfiable byte range, inclusive at both ends, of a resource of
/// `total_length` bytes.
#[derive(Debug, Clone, Copy, PartialEq, Eq, Structural)]
pub struct RangeResult {
    pub start: u64,
    pub end: u64,
    pub total_length: u64,
}

/// The ranges of a `Range: bytes=...` request header.
#[derive(Debug, Clone)]
pub struct RangeHeader {
    pub ranges: Vec<RangeResult>,
}

/// A character that `char::is_whitespace` accepts: the Unicode `White_Space` property.
pub open spec fn is_white_space(c: char) -> bool {
    ||| ('\u{9}' <= c && c <= '\u{d}')
    ||| c == ' '
    ||| c == '\u{85}'
    ||| c == '\u{a0}'
    ||| c == '\u{1680}'
    ||| ('\u{2000}' <= c && c <= '\u{200a}')
    ||| c == '\u{2028}'
    ||| c == '\u{2029}'
    ||| c == '\u{202f}'
    ||| c == '\u{205f}'
    ||| c == '\u{3000}'
}

pub(crate) fn is_white_space_exec(c: char) -> (r: bool)
    ensures
        r == is_white_space(c),
{
    ('\u{9}' <= c && c <= '\u{d}') || c == ' ' || c == '\u{85}' || c == '\u{a0}' || c == '\u{1680}'
        || ('\u{2000}' <= c && c <= '\u{200a}') || c == '\u{2028}' || c == '\u{2029}' || c
        == '\u{202f}' || c == '\u{205f}' || c == '\u{3000}'
}

/// The number of leading white-space characters.
pub open spec fn lead_ws(s: Seq<char>) -> nat
    decreases s.len(),
{
    if s.len() > 0 && is_white_space(s[0]) {
        1 + lead_ws(s.drop_first())
    } else {
        0
    }
}

/// The number of trailing white-space characters.
pub open spec fn trail_ws(s: Seq<char>) -> nat
    decreases s.len(),
{
    if s.len() > 0 && is_white_space(s.last()) {
        1 + trail_ws(s.drop_last())
    } else {
        0
    }
}

/// `s` without leading and trailing white space, as `str::trim` gives it.
pub open spec fn trim_spec(s: Seq<char>) -> Seq<char> {
    let t = s.skip(lead_ws(s) as int);
    t.take(t.len() - trail_ws(t))
}

proof fn lemma_lead_ws(s: Seq<char>)
    ensures
        lead_ws(s) <= s.len(),
    decreases s.len(),
{
    if s.len() > 0 && is_white_space(s[0]) {
        lemma_lead_ws(s.drop_first());
    }
}

proof fn lemma_trail_ws(s: Seq<char>)
    ensures
        trail_ws(s) <= s.len(),
    decreases s.len(),
{
    if s.len() > 0 && is_white_space(s.last()) {
        lemma_trail_ws(s.drop_last());
    }
}

/// The bounds, in `cs`, of `cs[from..to]` without leading and trailing white space.
pub(crate) fn trim_bounds(cs: &[char], from: usize, to: usize) -> (r: (usize, usize))
    requires
        from <= to <= cs@.len(),
    ensures
        from <= r.0 <= r.1 <= to,
        cs@.subrange(r.0 as int, r.1 as int) == trim_spec(cs@.subrange(from as int, to as int)),
{
    let ghost s = cs@.subrange(from as int, to as int);
    let mut a = from;
    while a < to && is_white_space_exec(cs[a])
        invariant
            from <= a <= to <= cs@.len(),
            s == cs@.subrange(from as int, to as int),
            lead_ws(s) == (a - from) + lead_ws(cs@.subrange(a as int, to as int)),
        decreases to - a,
    {
        proof {
            let t = cs@.subrange(a as int, to as int);
            assert(t.drop_first() =~= cs@.subrange(a + 1, to as int));
        }
        a = a + 1;
    }
    proof {
        let t = cs@.subrange(a as int, to as int);
        assert(lead_ws(t) == 0);
        assert(s.skip(lead_ws(s) as int) =~= t);
    }
    let ghost t = cs@.subrange(a as int, to as int);
    let mut b = to;
    while b > a && is_white_space_exec(cs[b - 1])
        invariant
            from <= a <= b <= to <= cs@.len(),
            t == cs@.subrange(a as int, to as int),
            trail_ws(t) == (to - b) + trail_ws(cs@.subrange(a as int, b as int)),
        decreases b - a,
    {
        proof {
            let u = cs@.subrange(a as int, b as int);
            assert(u.drop_last() =~= cs@.subrange(a as int, b - 1));
        }
        b = b - 1;
    }
    proof {
        let u = cs@.subrange(a as int, b as int);
        assert(trail_ws(u) == 0);
        assert(t.take(t.len() - trail_ws(t)) =~= u);
    }
    (a, b)
}

/// What one range spec (`a-b`, `a-` or `-n`) means for a resource of `total` bytes.
pub open spec fn spec_parse_range(part: Seq<char>, total: u64) -> Option<RangeResult> {
    if total == 0 {
        None
    } else {
        match seq_find(part, '-') {
            None => None,
            Some(d) => {
                let start_text = part.take(d);
                let end_text = part.skip(d + 1);
                if start_text.len() == 0 {
                    match parse_unsigned(encode_utf8(end_text), u64::MAX as nat) {
                        Err(_) => None,
                        Ok(suffix) => if suffix == 0 {
                            None
                        } else {
                            Some(
                                RangeResult {
                                    start: if suffix >= total { 0 } else { (total - suffix) as u64 },
                                    end: (total - 1) as u64,
                                    total_length: total,
                                },
                            )
                        },
                    }
                } else {
                    match parse_unsigned(encode_utf8(start_text), u64::MAX as nat) {
                        Err(_) => None,
                        Ok(start) => if end_text.len() == 0 {
                            Some(RangeResult { start: start as u64, end: (total - 1) as u64, total_length: total })
                        } else {
                            match parse_unsigned(encode_utf8(end_text), u64::MAX as nat) {
                                Err(_) => None,
                                Ok(end) => Some(
                                    RangeResult {
                                        start: start as u64,
                                        end: if end <= total - 1 { end as u64 } else { (total - 1) as u64 },
                                        total_length: total,
                                    },
                                ),
                            }
                        },
                    }
                }
            },
        }
    }
}

/// The ranges that the comma-separated parts give, skipping those that mean nothing.
pub open spec fn ranges_of(parts: Seq<Seq<char>>, total: u64) -> Seq<RangeResult>
    decreases parts.len(),
{
    if parts.len() == 0 {
        Seq::empty()
    } else {
        match spec_parse_range(trim_spec(parts.last()), total) {
            Some(r) => ranges_of(parts.drop_last(), total).push(r),
            None => ranges_of(parts.drop_last(), total),
        }
    }
}

/// What parsing a range header gives: the ranges it names, or nothing when it
/// does not start with `bytes=` or names no usable range.
pub open spec fn spec_parse_range_header(header: Seq<char>, total: u64) -> Option<Seq<RangeResult>> {
    if !starts_with(header, "bytes="@) {
        None
    } else {
        let rs = ranges_of(split_on(header.skip("bytes="@.len() as int), ','), total);
        if rs.len() == 0 {
            None
        } else {
            Some(rs)
        }
    }
}

impl RangeHeader {
    fn parse_range(header: &str, cs: &[char], from: usize, to: usize, total_length: u64) -> (r: Option<RangeResult>)
        requires
            cs@ == header@,
            from <= to <= cs@.len(),
        ensures
            r == spec_parse_range(cs@.subrange(from as int, to as int), total_length),
    {
        if total_length == 0 {
            return None;
        }
        let ghost part = cs@.subrange(from as int, to as int);
        let mut d = from;
        while d < to && cs[d] != '-'
            invariant
                from <= d <= to <= cs@.len(),
                part == cs@.subrange(from as int, to as int),
                forall|j: int| from <= j < d ==> cs@[j] != '-',
            decreases to - d,
        {
            d = d + 1;
        }
        proof {
            lemma_seq_find(part, '-');
            if d < to {
                assert(part[d - from] == '-');
                match seq_find(part, '-') {
                    Some(p) => {
                        assert(!(p < d - from)) by {
                            if p < d - from {
                                assert(part[p] == cs@[from + p]);
                            }
                        }
                    },
                    None => {},
                }
            } else {
                assert forall|j: int| 0 <= j < part.len() implies part[j] != '-' by {
                    assert(part[j] == cs@[from + j]);
                }
            }
        }
        if d == to {
            return None;
        }
        assert(part.take(d - from) =~= cs@.subrange(from as int, d as int));
        assert(part.skip(d - from + 1) =~= cs@.subrange(d + 1, to as int));
        let start_text = header.substring_char(from, d);
        let end_text = header.substring_char(d + 1, to);
        if d == from {
            match parse_u64_bytes(end_text.as_bytes()) {
                Err(_) => None,
                Ok(suffix) => {
                    if suffix == 0 {
                        None
                    } else {
                        let start = if suffix >= total_length { 0 } else { total_length - suffix };
                        Some(RangeResult { start, end: total_length - 1, total_length })
                    }
                },
            }
        } else {
            match parse_u64_bytes(start_text.as_bytes()) {
                Err(_) => None,
                Ok(start) => {
                    if d + 1 == to {
                        Some(RangeResult { start, end: total_length - 1, total_length })
                    } else {
                        match parse_u64_bytes(end_text.as_bytes()) {
                            Err(_) => None,
                            Ok(end) => {
                                let end = if end <= total_length - 1 { end } else { total_length - 1 };
                                Some(RangeResult { start, end, total_length })
                            },
                        }
                    }
                },
            }
        }
    }

    /// Parses `bytes=<range>[,<range>...]`; parts that mean nothing are skipped.
    pub fn parse(header: &str, total_length: u64) -> (r: Option<RangeHeader>)
        ensures
            match spec_parse_range_header(header@, total_length) {
                Some(rs) => r matches Some(h) && h.ranges@ == rs,
                None => r is None,
            },
    {
        let cs = str_chars(header);
        let prefix = str_chars("bytes=");
        if !chars_start_with(cs.as_slice(), prefix.as_slice()) {
            return None;
        }
        let parts = split_ranges(cs.as_slice(), prefix.len(), cs.len(), ',');
        let ghost pieces = split_on(cs@.subrange(prefix@.len() as int, cs@.len() as int), ',');
        proof {
            assert(cs@.subrange(prefix@.len() as int, cs@.len() as int) =~= header@.skip(
                "bytes="@.len() as int,
            ));
        }
        let mut ranges: Vec<RangeResult> = Vec::new();
        let mut k: usize = 0;
        while k < parts.len()
            invariant
                k <= parts@.len(),
                cs@ == header@,
                parts@.len() == pieces.len(),
                forall|i: int|
                    0 <= i < parts@.len() ==> (#[trigger] parts@[i]).0 <= parts@[i].1 <= cs@.len()
                        && cs@.subrange(parts@[i].0 as int, parts@[i].1 as int) == pieces[i],
                ranges@ == ranges_of(pieces.take(k as int), total_length),
            decreases parts@.len() - k,
        {
            let (a, b) = parts[k];
            let (ta, tb) = trim_bounds(cs.as_slice(), a, b);
            let r = RangeHeader::parse_range(header, cs.as_slice(), ta, tb, total_length);
            proof {
                assert(pieces.take(k + 1).drop_last() =~= pieces.take(k as int));
                assert(pieces.take(k + 1).last() == pieces[k as int]);
            }
            match r {
                Some(x) => {
                    ranges.push(x);
                },
                None => {},
            }
            k += 1;
        }
        proof {
            assert(pieces.take(parts@.len() as int) =~= pieces);
        }
        if ranges.len() == 0 {
            return None;
        }
        Some(RangeHeader { ranges })
    }

    /// `bytes <start>-<end>/<total>` for the first range; empty without one.
    pub fn content_range(&self) -> (s: String)
        ensures
            self.ranges@.len() == 0 ==> s@.len() == 0,
            self.ranges@.len() > 0 ==> s@ == "bytes "@ + ascii_chars(dec_nat(self.ranges@[0].start as nat))
                + "-"@ + ascii_chars(dec_nat(self.ranges@[0].end as nat)) + "/"@ + ascii_chars(
                dec_nat(self.ranges@[0].total_length as nat),
            ),
    {
        if self.ranges.len() == 0 {
            return String::new();
        }
        let r = self.ranges[0];
        let mut s = String::from_str("bytes ");
        let a = decimal_string(r.start);
        push_str(&mut s, a.as_str());
        push_str(&mut s, "-");
        let b = decimal_string(r.end);
        push_str(&mut s, b.as_str());
        push_str(&mut s, "/");
        let c = decimal_string(r.total_length);
        push_str(&mut s, c.as_str());
        s
    }
}

} // verus!
