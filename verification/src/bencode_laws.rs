//! What bencode promises as a whole: decoding what was encoded gives the value
//! back, with whatever followed it left over.
use vstd::prelude::*;

use crate::bencode::{
    dict_insert, dict_lookup, enc, enc_bytes, enc_dict, enc_list, find_first, lemma_find_first, lemma_lex_asymmetric,
    lex_lt, sorted_keys, spec_decode, spec_decode_bytes, spec_decode_dict, spec_decode_list, Bencode,
    BencodeValue,
};
use crate::strings::{all_ascii, lemma_ascii_utf8};
use crate::text::{dec_int, dec_nat, is_digit, lemma_dec_nat_digits, lemma_parse_dec_int, lemma_parse_dec_nat};

verus! {

/// A value that the encoding can carry: integers fit in `i64`, byte strings
/// fit in memory, and every dictionary has its keys in order.
pub open spec fn wf_value(v: Bencode) -> bool
    decreases v,
{
    match v {
        Bencode::Int(i) => i64::MIN <= i <= i64::MAX,
        Bencode::Str(s) => s.len() <= usize::MAX,
        Bencode::List(items) => forall|i: int| 0 <= i < items.len() ==> wf_value(#[trigger] items[i]),
        Bencode::Dict(es) => sorted_keys(es) && forall|i: int|
            0 <= i < es.len() ==> (#[trigger] es[i]).0.len() <= usize::MAX && wf_value(es[i].1),
    }
}

/// The first occurrence of `b` in `a + [b] + c`, when `a` has none, is right after `a`.
proof fn lemma_find_after(a: Seq<u8>, b: u8, c: Seq<u8>)
    requires
        forall|j: int| 0 <= j < a.len() ==> a[j] != b,
    ensures
        find_first(a + seq![b] + c, b) == Some(a.len() as int),
{
    let s = a + seq![b] + c;
    lemma_find_first(s, b);
    assert(s[a.len() as int] == b);
    match find_first(s, b) {
        Some(p) => {
            if p < a.len() {
                assert(s[p] == a[p]);
            }
        },
        None => {},
    }
}

/// Decimal text is ASCII and holds neither `e` nor `:`.
proof fn lemma_dec_nat_plain(n: nat)
    ensures
        all_ascii(dec_nat(n)),
        forall|j: int| 0 <= j < dec_nat(n).len() ==> #[trigger] dec_nat(n)[j] != 101u8 && dec_nat(n)[j] != 58u8,
        dec_nat(n).len() >= 1,
        is_digit(dec_nat(n)[0]),
{
    lemma_dec_nat_digits(n);
}

proof fn lemma_dec_int_plain(i: int)
    ensures
        all_ascii(dec_int(i)),
        forall|j: int| 0 <= j < dec_int(i).len() ==> #[trigger] dec_int(i)[j] != 101u8,
{
    if i < 0 {
        lemma_dec_nat_plain((-i) as nat);
        let d = dec_int(i);
        assert forall|j: int| 0 <= j < d.len() implies d[j] < 128 && #[trigger] d[j] != 101u8 by {
            if j > 0 {
                assert(d[j] == dec_nat((-i) as nat)[j - 1]);
            }
        }
    } else {
        lemma_dec_nat_plain(i as nat);
    }
}

/// A byte string's encoding decodes to it.
pub proof fn lemma_decode_bytes_enc(s: Seq<u8>, suffix: Seq<u8>)
    requires
        s.len() <= usize::MAX,
    ensures
        spec_decode_bytes(enc_bytes(s) + suffix) == Ok::<(Seq<u8>, Seq<u8>), Seq<char>>((s, suffix)),
        enc_bytes(s).len() > 0,
        is_digit(enc_bytes(s)[0]),
{
    let n = s.len();
    let ds = dec_nat(n);
    lemma_dec_nat_plain(n);
    let d = enc_bytes(s) + suffix;
    assert(d =~= ds + seq![58u8] + (s + suffix));
    lemma_find_after(ds, 58u8, s + suffix);
    assert(d.subrange(0, ds.len() as int) =~= ds);
    lemma_ascii_utf8(ds);
    lemma_parse_dec_nat(n, usize::MAX as nat);
    let start = ds.len() + 1;
    assert(d.subrange(start as int, (start + n) as int) =~= s);
    assert(d.subrange((start + n) as int, d.len() as int) =~= suffix);
    assert(enc_bytes(s)[0] == ds[0]);
}

/// The encoding of a value is not empty and does not start with `e`.
proof fn lemma_enc_head(v: Bencode)
    ensures
        enc(v).len() > 0,
        enc(v)[0] != 101u8,
{
    match v {
        Bencode::Str(s) => {
            lemma_dec_nat_plain(s.len());
            assert(enc(v)[0] == dec_nat(s.len())[0]);
        },
        _ => {},
    }
}

/// Encoding a list from the front: the first item, then the rest.
proof fn lemma_enc_list_cons(items: Seq<Bencode>)
    requires
        items.len() > 0,
    ensures
        enc_list(items) == enc(items[0]) + enc_list(items.drop_first()),
    decreases items.len(),
{
    if items.len() == 1 {
        assert(items.drop_first().len() == 0);
        assert(enc_list(items.drop_last()) == Seq::<u8>::empty());
        assert(enc_list(items) =~= enc(items[0]) + enc_list(items.drop_first()));
    } else {
        let p = items.drop_last();
        lemma_enc_list_cons(p);
        assert(items.drop_first().drop_last() =~= p.drop_first());
        assert(items.drop_first().last() == items.last());
        assert(enc_list(items) =~= enc(items[0]) + enc_list(items.drop_first()));
    }
}

/// Encoding dictionary entries from the front.
proof fn lemma_enc_dict_cons(es: Seq<(Seq<u8>, Bencode)>)
    requires
        es.len() > 0,
    ensures
        enc_dict(es) == enc_bytes(es[0].0) + enc(es[0].1) + enc_dict(es.drop_first()),
    decreases es.len(),
{
    if es.len() == 1 {
        assert(es.drop_first().len() == 0);
        assert(enc_dict(es.drop_last()) == Seq::<u8>::empty());
        assert(enc_dict(es) =~= enc_bytes(es[0].0) + enc(es[0].1) + enc_dict(es.drop_first()));
    } else {
        let p = es.drop_last();
        lemma_enc_dict_cons(p);
        assert(es.drop_first().drop_last() =~= p.drop_first());
        assert(es.drop_first().last() == es.last());
        assert(enc_dict(es) =~= enc_bytes(es[0].0) + enc(es[0].1) + enc_dict(es.drop_first()));
    }
}

/// Inserting a key above every key present appends it.
proof fn lemma_dict_insert_append(acc: Seq<(Seq<u8>, Bencode)>, k: Seq<u8>, v: Bencode)
    requires
        forall|j: int| 0 <= j < acc.len() ==> lex_lt(#[trigger] acc[j].0, k),
    ensures
        dict_insert(acc, k, v) == acc.push((k, v)),
    decreases acc.len(),
{
    if acc.len() == 0 {
        assert(dict_insert(acc, k, v) =~= acc.push((k, v)));
    } else {
        lemma_lex_asymmetric(acc[0].0, k);
        let t = acc.drop_first();
        assert forall|j: int| 0 <= j < t.len() implies lex_lt(#[trigger] t[j].0, k) by {
            assert(t[j] == acc[j + 1]);
        }
        lemma_dict_insert_append(t, k, v);
        assert(dict_insert(acc, k, v) =~= acc.push((k, v)));
    }
}

/// Decoding what `encode` wrote gives the value back and leaves what followed.
pub proof fn lemma_roundtrip(v: Bencode, suffix: Seq<u8>)
    requires
        wf_value(v),
    ensures
        spec_decode(enc(v) + suffix) == Ok::<(Bencode, Seq<u8>), Seq<char>>((v, suffix)),
    decreases v, 1nat,
{
    let d = enc(v) + suffix;
    match v {
        Bencode::Int(i) => {
            let di = dec_int(i);
            lemma_dec_int_plain(i);
            assert(d =~= seq![105u8] + (di + seq![101u8] + suffix));
            assert(d.drop_first() =~= di + seq![101u8] + suffix);
            lemma_find_after(di, 101u8, suffix);
            let end = di.len() + 1;
            assert(d.subrange(1, end as int) =~= di);
            lemma_ascii_utf8(di);
            lemma_parse_dec_int(i);
            assert(d.subrange((end + 1) as int, d.len() as int) =~= suffix);
        },
        Bencode::Str(s) => {
            lemma_decode_bytes_enc(s, suffix);
        },
        Bencode::List(items) => {
            assert(d.drop_first() =~= enc_list(items) + seq![101u8] + suffix);
            lemma_roundtrip_list(items, Seq::empty(), suffix);
            assert(Seq::<Bencode>::empty() + items =~= items);
        },
        Bencode::Dict(es) => {
            assert(d.drop_first() =~= enc_dict(es) + seq![101u8] + suffix);
            assert(Seq::<(Seq<u8>, Bencode)>::empty() + es =~= es);
            lemma_roundtrip_dict(es, Seq::empty(), suffix);
        },
    }
}

/// Decoding encoded list items after `acc`, then the closing `e`.
proof fn lemma_roundtrip_list(items: Seq<Bencode>, acc: Seq<Bencode>, suffix: Seq<u8>)
    requires
        forall|i: int| 0 <= i < items.len() ==> wf_value(#[trigger] items[i]),
    ensures
        spec_decode_list(enc_list(items) + seq![101u8] + suffix, acc) == Ok::<(Bencode, Seq<u8>), Seq<char>>(
            (Bencode::List(acc + items), suffix),
        ),
    decreases items, 0nat,
{
    let rest = enc_list(items) + seq![101u8] + suffix;
    if items.len() == 0 {
        assert(rest =~= seq![101u8] + suffix);
        assert(acc + items =~= acc);
        assert(rest.drop_first() =~= suffix);
    } else {
        let tail = items.drop_first();
        lemma_enc_list_cons(items);
        lemma_enc_head(items[0]);
        let r2 = enc_list(tail) + seq![101u8] + suffix;
        assert(rest =~= enc(items[0]) + r2);
        assert(decreases_to!(items => items[0]));
        lemma_roundtrip(items[0], r2);
        assert(rest[0] == enc(items[0])[0]);
        assert forall|i: int| 0 <= i < tail.len() implies wf_value(#[trigger] tail[i]) by {
            assert(tail[i] == items[i + 1]);
        }
        assert(tail =~= items.subrange(1, items.len() as int));
        assert(decreases_to!(items => tail));
        lemma_roundtrip_list(tail, acc.push(items[0]), suffix);
        assert(acc.push(items[0]) + tail =~= acc + items);
    }
}

/// Decoding encoded dictionary entries into `acc`, whose keys all come before them.
proof fn lemma_roundtrip_dict(es: Seq<(Seq<u8>, Bencode)>, acc: Seq<(Seq<u8>, Bencode)>, suffix: Seq<u8>)
    requires
        sorted_keys(acc + es),
        forall|i: int| 0 <= i < es.len() ==> (#[trigger] es[i]).0.len() <= usize::MAX && wf_value(es[i].1),
    ensures
        spec_decode_dict(enc_dict(es) + seq![101u8] + suffix, acc) == Ok::<(Bencode, Seq<u8>), Seq<char>>(
            (Bencode::Dict(acc + es), suffix),
        ),
    decreases es, 0nat,
{
    let rest = enc_dict(es) + seq![101u8] + suffix;
    if es.len() == 0 {
        assert(rest =~= seq![101u8] + suffix);
        assert(acc + es =~= acc);
        assert(rest.drop_first() =~= suffix);
    } else {
        let tail = es.drop_first();
        let (k, val) = es[0];
        lemma_enc_dict_cons(es);
        let r2 = enc_dict(tail) + seq![101u8] + suffix;
        let r1 = enc(val) + r2;
        assert(rest =~= enc_bytes(k) + r1);
        lemma_decode_bytes_enc(k, r1);
        assert(rest[0] == enc_bytes(k)[0]);
        lemma_enc_head(val);
        assert(decreases_to!(es => es[0]));
        assert(decreases_to!(es[0] => es[0].1));
        lemma_roundtrip(val, r2);
        let all = acc + es;
        assert forall|j: int| 0 <= j < acc.len() implies lex_lt(#[trigger] acc[j].0, k) by {
            assert(all[j] == acc[j]);
            assert(all[acc.len() as int] == es[0]);
        }
        lemma_dict_insert_append(acc, k, val);
        assert forall|i: int| 0 <= i < tail.len() implies (#[trigger] tail[i]).0.len() <= usize::MAX && wf_value(tail[i].1) by {
            assert(tail[i] == es[i + 1]);
        }
        assert(acc.push(es[0]) + tail =~= acc + es);
        assert(tail =~= es.subrange(1, es.len() as int));
        assert(decreases_to!(es => tail));
        lemma_roundtrip_dict(tail, acc.push((k, val)), suffix);
    }
}

/// Decoding the bytes that `encode` gives back for a value yields that value,
/// and whatever bytes followed the encoding are handed back untouched.
pub proof fn law_decode_encode(v: BencodeValue, suffix: Seq<u8>)
    requires
        wf_value(v.model()),
    ensures
        spec_decode(enc(v.model()) + suffix) == Ok::<(Bencode, Seq<u8>), Seq<char>>((v.model(), suffix)),
{
    lemma_roundtrip(v.model(), suffix);
}

} // verus!

verus! {

/// A property every entry has after inserting, when the new entry and all old
/// ones have it.
pub proof fn lemma_dict_insert_all(
    es: Seq<(Seq<u8>, Bencode)>,
    k: Seq<u8>,
    v: Bencode,
    p: spec_fn((Seq<u8>, Bencode)) -> bool,
)
    requires
        p((k, v)),
        forall|j: int| 0 <= j < es.len() ==> p(#[trigger] es[j]),
    ensures
        forall|i: int| 0 <= i < dict_insert(es, k, v).len() ==> p(#[trigger] dict_insert(es, k, v)[i]),
    decreases es.len(),
{
    let out = dict_insert(es, k, v);
    if es.len() == 0 {
    } else if es[0].0 == k {
        assert forall|i: int| 0 <= i < out.len() implies p(#[trigger] out[i]) by {
            if i > 0 {
                assert(out[i] == es[i]);
            }
        }
    } else if lex_lt(k, es[0].0) {
        assert forall|i: int| 0 <= i < out.len() implies p(#[trigger] out[i]) by {
            if i > 0 {
                assert(out[i] == es[i - 1]);
            }
        }
    } else {
        let t = es.drop_first();
        assert forall|j: int| 0 <= j < t.len() implies p(#[trigger] t[j]) by {
            assert(t[j] == es[j + 1]);
        }
        lemma_dict_insert_all(t, k, v, p);
        assert forall|i: int| 0 <= i < out.len() implies p(#[trigger] out[i]) by {
            if i > 0 {
                assert(out[i] == dict_insert(t, k, v)[i - 1]);
            }
        }
    }
}

/// Looking up a key just inserted finds the inserted value.
pub proof fn lemma_lookup_insert_same(es: Seq<(Seq<u8>, Bencode)>, k: Seq<u8>, v: Bencode)
    ensures
        dict_lookup(dict_insert(es, k, v), k) == Some(v),
    decreases es.len(),
{
    if es.len() > 0 && es[0].0 != k && !lex_lt(k, es[0].0) {
        lemma_lookup_insert_same(es.drop_first(), k, v);
        assert((seq![es[0]] + dict_insert(es.drop_first(), k, v)).drop_first() =~= dict_insert(
            es.drop_first(),
            k,
            v,
        ));
    }
}

/// Inserting one key leaves the lookup of another unchanged.
pub proof fn lemma_lookup_insert_other(es: Seq<(Seq<u8>, Bencode)>, k: Seq<u8>, v: Bencode, k2: Seq<u8>)
    requires
        k2 != k,
    ensures
        dict_lookup(dict_insert(es, k, v), k2) == dict_lookup(es, k2),
    decreases es.len(),
{
    let out = dict_insert(es, k, v);
    if es.len() == 0 {
        assert(out =~= seq![(k, v)]);
        assert(out.drop_first().len() == 0);
        assert(dict_lookup(out, k2) == dict_lookup(out.drop_first(), k2));
    } else if es[0].0 == k {
        assert(out =~= seq![(k, v)] + es.drop_first());
        assert(out[0].0 == k);
        assert(out.drop_first() =~= es.drop_first());
        assert(dict_lookup(out, k2) == dict_lookup(out.drop_first(), k2));
    } else if lex_lt(k, es[0].0) {
        assert(out[0].0 == k);
        assert(out.drop_first() =~= es);
        assert(dict_lookup(out, k2) == dict_lookup(out.drop_first(), k2));
    } else {
        lemma_lookup_insert_other(es.drop_first(), k, v, k2);
        assert(out[0] == es[0]);
        assert(out.drop_first() =~= dict_insert(es.drop_first(), k, v));
    }
}

} // verus!
