//! Searching and splitting sequences, and the text operations built on them.
use vstd::prelude::*;
use vstd::std_specs::iter::IteratorSpec;

verus! {

/// The first position of `x` in `s`.
pub open spec fn seq_find<A>(s: Seq<A>, x: A) -> Option<int>
    decreases s.len(),
{
    if s.len() == 0 {
        None
    } else if s[0] == x {
        Some(0)
    } else {
        match seq_find(s.drop_first(), x) {
            Some(k) => Some(k + 1),
            None => None,
        }
    }
}

/// `s` cut at every `x`, as `str::split` cuts: one more piece than there are
/// separators, empty pieces included.
pub open spec fn split_on<A>(s: Seq<A>, x: A) -> Seq<Seq<A>>
    decreases s.len(),
{
    match seq_find(s, x) {
        Some(p) => if 0 <= p < s.len() {
            seq![s.take(p)] + split_on(s.skip(p + 1), x)
        } else {
            seq![s]
        },
        None => seq![s],
    }
}

/// What follows the last `x` in `s`, or all of `s` when there is none.
pub open spec fn after_last<A>(s: Seq<A>, x: A) -> Seq<A> {
    split_on(s, x).last()
}

/// `s` begins with `p`.
pub open spec fn starts_with<A>(s: Seq<A>, p: Seq<A>) -> bool {
    s.len() >= p.len() && s.take(p.len() as int) == p
}

/// Where `seq_find` stops: at the first `x`, after elements that are not `x`.
pub proof fn lemma_seq_find<A>(s: Seq<A>, x: A)
    ensures
        seq_find(s, x) is None <==> (forall|j: int| 0 <= j < s.len() ==> s[j] != x),
        seq_find(s, x) matches Some(p) ==> 0 <= p < s.len() && s[p] == x && (forall|j: int|
            0 <= j < p ==> s[j] != x),
    decreases s.len(),
{
    if s.len() > 0 {
        lemma_seq_find(s.drop_first(), x);
        if s[0] != x {
            if exists|j: int| 0 <= j < s.len() - 1 && s.drop_first()[j] == x {
                let j = choose|j: int| 0 <= j < s.len() - 1 && s.drop_first()[j] == x;
                assert(s[j + 1] == x);
            }
            if seq_find(s, x) is None {
                assert forall|j: int| 0 <= j < s.len() implies s[j] != x by {
                    if j > 0 {
                        assert(s[j] == s.drop_first()[j - 1]);
                    }
                }
            }
            match seq_find(s.drop_first(), x) {
                Some(p) => {
                    assert forall|j: int| 0 <= j < p + 1 implies s[j] != x by {
                        if j > 0 {
                            assert(s[j] == s.drop_first()[j - 1]);
                        }
                    }
                },
                None => {},
            }
        }
    }
}

/// The first `x` is at `p` exactly when it is there and nowhere before.
pub proof fn lemma_seq_find_at<A>(s: Seq<A>, x: A, p: int)
    requires
        0 <= p < s.len(),
        s[p] == x,
        forall|j: int| 0 <= j < p ==> s[j] != x,
    ensures
        seq_find(s, x) == Some(p),
{
    lemma_seq_find(s, x);
    match seq_find(s, x) {
        Some(q) => {
            assert(!(q < p));
            assert(!(p < q));
        },
        None => {
            assert(s[p] == x);
        },
    }
}

/// Splitting where the first separator is at `p`.
pub proof fn lemma_split_at<A>(s: Seq<A>, x: A, p: int)
    requires
        0 <= p < s.len(),
        s[p] == x,
        forall|j: int| 0 <= j < p ==> s[j] != x,
    ensures
        split_on(s, x) == seq![s.take(p)] + split_on(s.skip(p + 1), x),
{
    lemma_seq_find_at(s, x, p);
}

/// Splitting a sequence without separators gives it whole.
pub proof fn lemma_split_none<A>(s: Seq<A>, x: A)
    requires
        forall|j: int| 0 <= j < s.len() ==> s[j] != x,
    ensures
        split_on(s, x) == seq![s],
{
    lemma_seq_find(s, x);
}

/// Splitting `a`, a separator, then `b`, when `a` holds none.
pub proof fn lemma_split_concat<A>(a: Seq<A>, x: A, b: Seq<A>)
    requires
        forall|j: int| 0 <= j < a.len() ==> a[j] != x,
    ensures
        split_on(a + seq![x] + b, x) == seq![a] + split_on(b, x),
{
    let s = a + seq![x] + b;
    assert forall|j: int| 0 <= j < a.len() implies s[j] != x by {
        assert(s[j] == a[j]);
    }
    lemma_split_at(s, x, a.len() as int);
    assert(s.take(a.len() as int) =~= a);
    assert(s.skip(a.len() as int + 1) =~= b);
}

/// Splitting never gives no pieces.
pub proof fn lemma_split_nonempty<A>(s: Seq<A>, x: A)
    ensures
        split_on(s, x).len() >= 1,
    decreases s.len(),
{
    match seq_find(s, x) {
        Some(p) => if 0 <= p < s.len() {
            lemma_split_nonempty(s.skip(p + 1), x);
        },
        None => {},
    }
}

/// The characters of a string, in order.
pub fn str_chars(s: &str) -> (v: Vec<char>)
    ensures
        v@ == s@,
{
    broadcast use vstd::string::axiom_spec_iter, vstd::string::next_postcondition;

    let mut it = s.chars();
    let mut v: Vec<char> = Vec::new();
    loop
        invariant
            v@ + it.remaining() == s@,
            it.obeys_prophetic_iter_laws(),
            it.decrease() is Some,
        decreases it.decrease()->0,
    {
        let ghost before = it.remaining();
        match it.next() {
            Some(c) => {
                v.push(c);
                assert(v@ + it.remaining() =~= s@) by {
                    assert(before =~= seq![c] + it.remaining());
                }
            },
            None => {
                assert(v@ =~= s@);
                return v;
            },
        }
    }
}

/// `s` begins with `p`.
pub fn chars_start_with(s: &[char], p: &[char]) -> (r: bool)
    ensures
        r == starts_with(s@, p@),
{
    if s.len() < p.len() {
        return false;
    }
    let mut i: usize = 0;
    while i < p.len()
        invariant
            i <= p@.len(),
            p@.len() <= s@.len(),
            forall|j: int| 0 <= j < i ==> s@[j] == p@[j],
        decreases p@.len() - i,
    {
        if s[i] != p[i] {
            assert(s@.take(p@.len() as int)[i as int] != p@[i as int]);
            return false;
        }
        i += 1;
    }
    assert(s@.take(p@.len() as int) =~= p@);
    true
}

/// The bounds of the pieces of `s[from..to]` cut at every `x`, as positions in `s`.
pub fn split_ranges(s: &[char], from: usize, to: usize, x: char) -> (r: Vec<(usize, usize)>)
    requires
        from <= to <= s@.len(),
    ensures
        r@.len() == split_on(s@.subrange(from as int, to as int), x).len(),
        forall|k: int|
            0 <= k < r@.len() ==> from <= (#[trigger] r@[k]).0 <= r@[k].1 <= to && s@.subrange(
                r@[k].0 as int,
                r@[k].1 as int,
            ) == split_on(s@.subrange(from as int, to as int), x)[k],
{
    let ghost whole = s@.subrange(from as int, to as int);
    let ghost mut done: Seq<Seq<char>> = Seq::empty();
    let mut r: Vec<(usize, usize)> = Vec::new();
    let mut seg: usize = from;
    let mut i: usize = from;
    while i < to
        invariant
            from <= seg <= i <= to <= s@.len(),
            whole == s@.subrange(from as int, to as int),
            split_on(whole, x) == done + split_on(s@.subrange(seg as int, to as int), x),
            r@.len() == done.len(),
            forall|k: int|
                0 <= k < r@.len() ==> from <= (#[trigger] r@[k]).0 <= r@[k].1 <= to && s@.subrange(
                    r@[k].0 as int,
                    r@[k].1 as int,
                ) == done[k],
            forall|j: int| seg <= j < i ==> s@[j] != x,
        decreases to - i,
    {
        if s[i] == x {
            proof {
                let t = s@.subrange(seg as int, to as int);
                let p = i - seg;
                assert forall|j: int| 0 <= j < p implies t[j] != x by {
                    assert(t[j] == s@[seg + j]);
                }
                lemma_split_at(t, x, p);
                assert(t.take(p) =~= s@.subrange(seg as int, i as int));
                assert(t.skip(p + 1) =~= s@.subrange(i + 1, to as int));
                done = done.push(s@.subrange(seg as int, i as int));
                assert(split_on(whole, x) =~= done + split_on(s@.subrange(i + 1, to as int), x));
            }
            r.push((seg, i));
            seg = i + 1;
        }
        i += 1;
    }
    proof {
        let t = s@.subrange(seg as int, to as int);
        assert forall|j: int| 0 <= j < t.len() implies t[j] != x by {
            assert(t[j] == s@[seg + j]);
        }
        lemma_split_none(t, x);
        done = done.push(t);
        assert(split_on(whole, x) =~= done);
    }
    r.push((seg, to));
    r
}

} // verus!
