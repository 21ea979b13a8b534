//! The text of an IP address, as the standard library writes it: dotted
//! decimal for version 4; for version 6, lowercase hexadecimal groups with the
//! first longest run of two or more zero groups written `::`, and addresses
//! that map a version-4 address written `::ffff:` and dotted decimal.
use vstd::prelude::*;

use crate::text::{dec_nat, hex_digit, hex_digit_exec, u64_to_decimal};
use crate::types::IpAddress;

verus! {

/// Lowercase hexadecimal digits of `n`, without leading zeros.
pub open spec fn hex_nat(n: nat) -> Seq<u8>
    decreases n,
{
    if n < 16 {
        seq![hex_digit(n as int)]
    } else {
        hex_nat(n / 16).push(hex_digit((n % 16) as int))
    }
}

/// Dotted decimal text of four bytes.
pub open spec fn ipv4_text(o: Seq<u8>) -> Seq<u8> {
    dec_nat(o[0] as nat) + seq![46u8] + dec_nat(o[1] as nat) + seq![46u8] + dec_nat(o[2] as nat)
        + seq![46u8] + dec_nat(o[3] as nat)
}

/// The eight 16-bit groups of a version-6 address, most significant first.
pub open spec fn groups(o: Seq<u8>) -> Seq<nat> {
    Seq::new(8, |i: int| (o[2 * i] * 256 + o[2 * i + 1]) as nat)
}

/// Groups in hexadecimal, separated by colons.
pub open spec fn join_groups(s: Seq<nat>) -> Seq<u8>
    decreases s.len(),
{
    if s.len() == 0 {
        Seq::empty()
    } else if s.len() == 1 {
        hex_nat(s[0])
    } else {
        join_groups(s.drop_last()) + seq![58u8] + hex_nat(s.last())
    }
}

/// Number of consecutive zero groups from `i` on.
pub open spec fn zero_run(s: Seq<nat>, i: int) -> nat
    decreases s.len() - i,
{
    if 0 <= i < s.len() && s[i] == 0 {
        1 + zero_run(s, i + 1)
    } else {
        0
    }
}

/// `st` starts the first of the longest runs of zero groups.
pub open spec fn is_longest_run(s: Seq<nat>, st: int) -> bool {
    &&& 0 <= st < s.len()
    &&& forall|i: int| 0 <= i < s.len() ==> #[trigger] zero_run(s, i) <= zero_run(s, st)
    &&& forall|i: int| 0 <= i < st ==> #[trigger] zero_run(s, i) < zero_run(s, st)
}

/// Where the first of the longest runs of zero groups starts.
pub open spec fn longest_run_start(s: Seq<nat>) -> int {
    choose|st: int| is_longest_run(s, st)
}

/// Text of a version-6 address given as sixteen bytes.
pub open spec fn ipv6_text(o: Seq<u8>) -> Seq<u8> {
    let g = groups(o);
    if g[0] == 0 && g[1] == 0 && g[2] == 0 && g[3] == 0 && g[4] == 0 && g[5] == 0xffff {
        seq![58u8, 58u8, 102u8, 102u8, 102u8, 102u8, 58u8] + ipv4_text(o.subrange(12, 16))
    } else {
        let st = longest_run_start(g);
        let ln = zero_run(g, st);
        if ln > 1 {
            join_groups(g.subrange(0, st)) + seq![58u8, 58u8] + join_groups(g.subrange(st + ln, 8))
        } else {
            join_groups(g)
        }
    }
}

/// Text of an IP address.
pub open spec fn ip_text(ip: IpAddress) -> Seq<u8> {
    match ip {
        IpAddress::V4(o) => ipv4_text(o@),
        IpAddress::V6(o) => ipv6_text(o@),
    }
}

/// Appends the bytes of `src` to `dst`.
pub fn append_bytes(dst: &mut Vec<u8>, src: &[u8])
    ensures
        final(dst)@ == old(dst)@ + src@,
{
    let ghost d0 = dst@;
    let mut i: usize = 0;
    while i < src.len()
        invariant
            i <= src@.len(),
            dst@ == d0 + src@.take(i as int),
        decreases src@.len() - i,
    {
        dst.push(src[i]);
        assert(src@.take(i + 1) =~= src@.take(i as int).push(src@[i as int]));
        i += 1;
    }
    assert(src@.take(src@.len() as int) =~= src@);
}

/// Hexadecimal digits of a 16-bit group.
fn hex_group(n: u16) -> (v: Vec<u8>)
    ensures
        v@ == hex_nat(n as nat),
    decreases n,
{
    if n < 16 {
        let mut v: Vec<u8> = Vec::new();
        v.push(hex_digit_exec(n as u8));
        assert(v@ =~= seq![hex_digit(n as int)]);
        v
    } else {
        let mut v = hex_group(n / 16);
        v.push(hex_digit_exec((n % 16) as u8));
        v
    }
}

/// Dotted decimal text of four bytes.
pub fn ipv4_text_exec(o: &[u8; 4]) -> (v: Vec<u8>)
    ensures
        v@ == ipv4_text(o@),
{
    let mut v = u64_to_decimal(o[0] as u64);
    v.push(46u8);
    append_bytes(&mut v, u64_to_decimal(o[1] as u64).as_slice());
    v.push(46u8);
    append_bytes(&mut v, u64_to_decimal(o[2] as u64).as_slice());
    v.push(46u8);
    append_bytes(&mut v, u64_to_decimal(o[3] as u64).as_slice());
    assert(v@ =~= ipv4_text(o@));
    v
}

/// Groups `s[from..to]` in hexadecimal, separated by colons.
fn join_groups_exec(s: &[u16; 8], from: usize, to: usize) -> (v: Vec<u8>)
    requires
        from <= to <= 8,
    ensures
        v@ == join_groups(s@.map_values(|x: u16| x as nat).subrange(from as int, to as int)),
{
    let ghost g = s@.map_values(|x: u16| x as nat);
    let mut v: Vec<u8> = Vec::new();
    let mut i: usize = from;
    assert(g.subrange(from as int, from as int) =~= Seq::<nat>::empty());
    while i < to
        invariant
            from <= i <= to <= 8,
            g == s@.map_values(|x: u16| x as nat),
            v@ == join_groups(g.subrange(from as int, i as int)),
        decreases to - i,
    {
        let h = hex_group(s[i]);
        let ghost prev = g.subrange(from as int, i as int);
        let ghost next = g.subrange(from as int, i + 1);
        assert(next.drop_last() =~= prev);
        assert(next.last() == s[i as int] as nat);
        if i > from {
            v.push(58u8);
        } else {
            assert(next =~= seq![g[i as int]]);
        }
        append_bytes(&mut v, h.as_slice());
        i += 1;
    }
    v
}

/// With all groups of `s[i..j]` zero, the run from `i` is those plus the run from `j`.
proof fn lemma_zero_run_span(s: Seq<nat>, i: int, j: int)
    requires
        0 <= i <= j <= s.len(),
        forall|k: int| i <= k < j ==> s[k] == 0,
    ensures
        zero_run(s, i) == (j - i) + zero_run(s, j),
    decreases j - i,
{
    if i < j {
        lemma_zero_run_span(s, i + 1, j);
    }
}

/// Where the first of the longest runs of zero groups starts, computed.
fn longest_run_exec(s: &[u16; 8]) -> (r: (usize, usize))
    ensures
        r.0 as int == longest_run_start(s@.map_values(|x: u16| x as nat)),
        r.1 as int == zero_run(s@.map_values(|x: u16| x as nat), r.0 as int),
        r.0 < 8,
        r.1 <= 8 - r.0,
{
    let ghost g = s@.map_values(|x: u16| x as nat);
    let mut best_start: usize = 0;
    let mut best_len: usize = 0;
    let mut i: usize = 0;
    while i < 8
        invariant
            i <= 8,
            g == s@.map_values(|x: u16| x as nat),
            best_start < 8,
            i > 0 ==> best_start < i,
            i > 0 ==> best_len == zero_run(g, best_start as int),
            i > 0 ==> best_len <= 8 - best_start,
            forall|k: int| 0 <= k < i ==> #[trigger] zero_run(g, k) <= best_len,
            i > 0 ==> forall|k: int| 0 <= k < best_start ==> #[trigger] zero_run(g, k) < best_len,
            i == 0 ==> best_start == 0,
        decreases 8 - i,
    {
        let mut j: usize = i;
        while j < 8 && s[j] == 0
            invariant
                i <= j <= 8,
                g == s@.map_values(|x: u16| x as nat),
                forall|k: int| i <= k < j ==> g[k] == 0,
            decreases 8 - j,
        {
            j += 1;
        }
        proof {
            lemma_zero_run_span(g, i as int, j as int);
            if j < 8 {
                assert(g[j as int] != 0);
            }
        }
        let run = j - i;
        if i == 0 || run > best_len {
            proof {
                if i == 0 {
                    lemma_zero_run_span(g, 0, 0);
                }
            }
            best_start = i;
            best_len = run;
        }
        i += 1;
    }
    proof {
        assert(is_longest_run(g, best_start as int));
        let c = longest_run_start(g);
        assert(is_longest_run(g, c));
        if c < best_start {
            assert(zero_run(g, c) < zero_run(g, best_start as int));
        } else if c > best_start {
            assert(zero_run(g, best_start as int) < zero_run(g, c));
        }
    }
    (best_start, best_len)
}

/// Text of a version-6 address given as sixteen bytes.
pub fn ipv6_text_exec(o: &[u8; 16]) -> (v: Vec<u8>)
    ensures
        v@ == ipv6_text(o@),
{
    let mut s: [u16; 8] = [0u16; 8];
    let mut i: usize = 0;
    while i < 8
        invariant
            i <= 8,
            forall|k: int| 0 <= k < i ==> s@[k] as int == o@[2 * k] * 256 + o@[2 * k + 1],
        decreases 8 - i,
    {
        s[i] = (o[2 * i] as u16) * 256 + (o[2 * i + 1] as u16);
        i += 1;
    }
    let ghost g = s@.map_values(|x: u16| x as nat);
    assert(g =~= groups(o@));
    if s[0] == 0 && s[1] == 0 && s[2] == 0 && s[3] == 0 && s[4] == 0 && s[5] == 0xffff {
        let mut v: Vec<u8> = Vec::new();
        v.push(58u8);
        v.push(58u8);
        v.push(102u8);
        v.push(102u8);
        v.push(102u8);
        v.push(102u8);
        v.push(58u8);
        let tail: [u8; 4] = [o[12], o[13], o[14], o[15]];
        assert(tail@ =~= o@.subrange(12, 16));
        append_bytes(&mut v, ipv4_text_exec(&tail).as_slice());
        assert(v@ =~= ipv6_text(o@));
        v
    } else {
        let (st, ln) = longest_run_exec(&s);
        if ln > 1 {
            let mut v = join_groups_exec(&s, 0, st);
            v.push(58u8);
            v.push(58u8);
            append_bytes(&mut v, join_groups_exec(&s, st + ln, 8).as_slice());
            assert(v@ =~= ipv6_text(o@));
            v
        } else {
            let v = join_groups_exec(&s, 0, 8);
            assert(g.subrange(0, 8) =~= g);
            v
        }
    }
}

/// Text of an IP address.
pub fn ip_text_exec(ip: &IpAddress) -> (v: Vec<u8>)
    ensures
        v@ == ip_text(*ip),
{
    match ip {
        IpAddress::V4(o) => ipv4_text_exec(o),
        IpAddress::V6(o) => ipv6_text_exec(o),
    }
}

} // verus!
