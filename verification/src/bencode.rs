//! Bencode: integers, byte strings, lists and dictionaries, as written by
//! BitTorrent-style protocols.
use vstd::prelude::*;
use vstd::utf8::{decode_utf8, valid_utf8};

use crate::bencode_laws::{lemma_roundtrip, wf_value};
use crate::error::QvodError;
use crate::strings::{ascii_chars, ascii_to_string, push_str, str_from_utf8};
use crate::text::{dec_int, dec_nat, hex_bytes, hex_lower, is_digit, parse_i64_bytes, parse_i64_spec, parse_unsigned, parse_usize_bytes, i64_to_decimal, u64_to_decimal, lemma_hex_lower_ascii};

verus! {

broadcast use vstd::std_specs::vec::group_vec_axioms;

/// A bencode value as mathematics sees it.
pub enum Bencode {
    Int(int),
    Str(Seq<u8>),
    List(Seq<Bencode>),
    Dict(Seq<(Seq<u8>, Bencode)>),
}

/// A bencode value.
#[derive(Debug, PartialEq)]
pub enum BencodeValue {
    Int(i64),
    Str(Vec<u8>),
    List(Vec<BencodeValue>),
    Dict(BencodeDict),
}

/// A bencode dictionary: entries ordered by key, bytewise, each key once, as
/// `insert` keeps them.
#[derive(Debug, PartialEq)]
pub struct BencodeDict {
    entries: Vec<(Vec<u8>, BencodeValue)>,
}

/// A copy of some bytes.
pub fn clone_bytes(s: &Vec<u8>) -> (c: Vec<u8>)
    ensures
        c@ == s@,
{
    vstd::slice::slice_to_vec(s.as_slice())
}

impl View for BencodeDict {
    type V = Seq<(Seq<u8>, Bencode)>;

    /// The entries as mathematics sees them.
    closed spec fn view(&self) -> Seq<(Seq<u8>, Bencode)>
        decreases self,
    {
        model_dict(self.entries@)
    }
}

impl BencodeDict {
    /// Keys strictly increase.
    #[verifier::type_invariant]
    spec fn keys_ordered(self) -> bool {
        sorted_keys(model_dict(self.entries@))
    }
}

impl BencodeValue {
    /// The mathematical value.
    pub open spec fn model(self) -> Bencode
        decreases self,
    {
        match self {
            BencodeValue::Int(i) => Bencode::Int(i as int),
            BencodeValue::Str(s) => Bencode::Str(s@),
            BencodeValue::List(items) => Bencode::List(model_list(items@)),
            BencodeValue::Dict(d) => Bencode::Dict(d@),
        }
    }
}

/// The mathematical values of a sequence of values.
pub open spec fn model_list(s: Seq<BencodeValue>) -> Seq<Bencode>
    decreases s,
{
    if s.len() == 0 {
        Seq::empty()
    } else {
        model_list(s.drop_last()).push(s.last().model())
    }
}

/// The mathematical entries of a dictionary.
pub open spec fn model_dict(s: Seq<(Vec<u8>, BencodeValue)>) -> Seq<(Seq<u8>, Bencode)>
    decreases s,
{
    if s.len() == 0 {
        Seq::empty()
    } else {
        model_dict(s.drop_last()).push((s.last().0@, s.last().1.model()))
    }
}

pub proof fn lemma_model_list(s: Seq<BencodeValue>)
    ensures
        model_list(s).len() == s.len(),
        forall|i: int| 0 <= i < s.len() ==> #[trigger] model_list(s)[i] == s[i].model(),
    decreases s.len(),
{
    if s.len() > 0 {
        lemma_model_list(s.drop_last());
    }
}

pub proof fn lemma_model_dict(s: Seq<(Vec<u8>, BencodeValue)>)
    ensures
        model_dict(s).len() == s.len(),
        forall|i: int|
            0 <= i < s.len() ==> #[trigger] model_dict(s)[i] == (s[i].0@, s[i].1.model()),
    decreases s.len(),
{
    if s.len() > 0 {
        lemma_model_dict(s.drop_last());
    }
}

/// Bytewise lexicographic order, a proper prefix first: the order of `Vec<u8>` keys.
pub open spec fn lex_lt(a: Seq<u8>, b: Seq<u8>) -> bool
    decreases a.len(),
{
    if a.len() == 0 {
        b.len() > 0
    } else if b.len() == 0 {
        false
    } else if a[0] != b[0] {
        a[0] < b[0]
    } else {
        lex_lt(a.drop_first(), b.drop_first())
    }
}

pub proof fn lemma_lex_irreflexive(a: Seq<u8>)
    ensures
        !lex_lt(a, a),
    decreases a.len(),
{
    if a.len() > 0 {
        lemma_lex_irreflexive(a.drop_first());
    }
}

pub proof fn lemma_lex_transitive(a: Seq<u8>, b: Seq<u8>, c: Seq<u8>)
    requires
        lex_lt(a, b),
        lex_lt(b, c),
    ensures
        lex_lt(a, c),
    decreases a.len(),
{
    if a.len() > 0 && b.len() > 0 && c.len() > 0 && a[0] == b[0] && b[0] == c[0] {
        lemma_lex_transitive(a.drop_first(), b.drop_first(), c.drop_first());
    }
}

pub proof fn lemma_lex_total(a: Seq<u8>, b: Seq<u8>)
    ensures
        lex_lt(a, b) || lex_lt(b, a) || a == b,
    decreases a.len(),
{
    if a.len() > 0 && b.len() > 0 && a[0] == b[0] {
        lemma_lex_total(a.drop_first(), b.drop_first());
        if a.drop_first() == b.drop_first() {
            assert(a =~= seq![a[0]] + a.drop_first());
            assert(b =~= seq![b[0]] + b.drop_first());
        }
    } else if a.len() == 0 && b.len() == 0 {
        assert(a =~= b);
    }
}

pub proof fn lemma_lex_asymmetric(a: Seq<u8>, b: Seq<u8>)
    requires
        lex_lt(a, b),
    ensures
        !lex_lt(b, a),
        a != b,
    decreases a.len(),
{
    if a.len() > 0 && b.len() > 0 && a[0] == b[0] {
        lemma_lex_asymmetric(a.drop_first(), b.drop_first());
    }
    if a == b {
        lemma_lex_irreflexive(a);
    }
}

/// Entries whose keys strictly increase.
pub open spec fn sorted_keys(es: Seq<(Seq<u8>, Bencode)>) -> bool {
    forall|i: int, j: int| 0 <= i < j < es.len() ==> lex_lt(#[trigger] es[i].0, #[trigger] es[j].0)
}

/// Inserting into a sorted dictionary: the value replaces the one under an
/// equal key, or goes in before the first larger key.
pub open spec fn dict_insert(es: Seq<(Seq<u8>, Bencode)>, k: Seq<u8>, v: Bencode) -> Seq<
    (Seq<u8>, Bencode),
>
    decreases es.len(),
{
    if es.len() == 0 {
        seq![(k, v)]
    } else if es[0].0 == k {
        seq![(k, v)] + es.drop_first()
    } else if lex_lt(k, es[0].0) {
        seq![(k, v)] + es
    } else {
        seq![es[0]] + dict_insert(es.drop_first(), k, v)
    }
}

/// The value under key `k`, if any.
pub open spec fn dict_lookup(es: Seq<(Seq<u8>, Bencode)>, k: Seq<u8>) -> Option<Bencode>
    decreases es.len(),
{
    if es.len() == 0 {
        None
    } else if es[0].0 == k {
        Some(es[0].1)
    } else {
        dict_lookup(es.drop_first(), k)
    }
}

/// The encoding of a byte string: its length in decimal, a colon, the bytes.
pub open spec fn enc_bytes(s: Seq<u8>) -> Seq<u8> {
    dec_nat(s.len()) + seq![58u8] + s
}

/// The bencode encoding of a value.
pub open spec fn enc(v: Bencode) -> Seq<u8>
    decreases v,
{
    match v {
        Bencode::Int(i) => seq![105u8] + dec_int(i) + seq![101u8],
        Bencode::Str(s) => enc_bytes(s),
        Bencode::List(items) => seq![108u8] + enc_list(items) + seq![101u8],
        Bencode::Dict(es) => seq![100u8] + enc_dict(es) + seq![101u8],
    }
}

/// The encodings of list items, one after another.
pub open spec fn enc_list(items: Seq<Bencode>) -> Seq<u8>
    decreases items,
{
    if items.len() == 0 {
        Seq::empty()
    } else {
        enc_list(items.drop_last()) + enc(items.last())
    }
}

/// The encodings of dictionary entries, key then value, one after another.
pub open spec fn enc_dict(es: Seq<(Seq<u8>, Bencode)>) -> Seq<u8>
    decreases es,
{
    if es.len() == 0 {
        Seq::empty()
    } else {
        enc_dict(es.drop_last()) + enc_bytes(es.last().0) + enc(es.last().1)
    }
}

/// The first position of byte `b` in `s`.
pub open spec fn find_first(s: Seq<u8>, b: u8) -> Option<int>
    decreases s.len(),
{
    if s.len() == 0 {
        None
    } else if s[0] == b {
        Some(0)
    } else {
        match find_first(s.drop_first(), b) {
            Some(k) => Some(k + 1),
            None => None,
        }
    }
}

/// The text of a byte as two lowercase hexadecimal digits.
pub open spec fn hex2(c: u8) -> Seq<char> {
    ascii_chars(hex_lower(seq![c]))
}

/// Decoding an integer `i<digits>e`: the text up to the first `e` must be UTF-8
/// and an `i64` as the standard parser reads it.
pub open spec fn spec_decode_int(d: Seq<u8>) -> Result<(Bencode, Seq<u8>), Seq<char>> {
    if d.len() == 0 || d[0] != 105u8 {
        Err("expected integer"@)
    } else {
        match find_first(d.drop_first(), 101u8) {
            None => Err("unterminated integer"@),
            Some(p) => {
                let end = p + 1;
                let num = d.subrange(1, end);
                if !valid_utf8(num) {
                    Err("invalid integer utf-8"@)
                } else {
                    match parse_i64_spec(num) {
                        Err(e) => Err("invalid integer: "@ + e.spec_message()),
                        Ok(v) => Ok((Bencode::Int(v), d.subrange(end + 1, d.len() as int))),
                    }
                }
            },
        }
    }
}

/// Decoding a byte string `<len>:<bytes>`: the length is the text before the
/// first colon, read as a `usize`; the bytes must all be there.
pub open spec fn spec_decode_bytes(d: Seq<u8>) -> Result<(Seq<u8>, Seq<u8>), Seq<char>> {
    match find_first(d, 58u8) {
        None => Err("unterminated string length"@),
        Some(c) => {
            let ls = d.subrange(0, c);
            if !valid_utf8(ls) {
                Err("invalid string length utf-8"@)
            } else {
                match parse_unsigned(ls, usize::MAX as nat) {
                    Err(e) => Err("invalid string length: "@ + e.spec_message()),
                    Ok(n) => {
                        let start = c + 1;
                        if start + n > d.len() {
                            Err("string data truncated"@)
                        } else {
                            Ok(
                                (
                                    d.subrange(start, start + n),
                                    d.subrange(start + n, d.len() as int),
                                ),
                            )
                        }
                    },
                }
            }
        },
    }
}

/// Decoding one value from the front of `d`, with the rest of `d` after it.
pub open spec fn spec_decode(d: Seq<u8>) -> Result<(Bencode, Seq<u8>), Seq<char>>
    decreases d.len(), 0nat,
{
    if d.len() == 0 {
        Err("empty data"@)
    } else if d[0] == 105u8 {
        spec_decode_int(d)
    } else if is_digit(d[0]) {
        match spec_decode_bytes(d) {
            Ok((s, rest)) => Ok((Bencode::Str(s), rest)),
            Err(e) => Err(e),
        }
    } else if d[0] == 108u8 {
        spec_decode_list(d.drop_first(), Seq::empty())
    } else if d[0] == 100u8 {
        spec_decode_dict(d.drop_first(), Seq::empty())
    } else {
        Err("unexpected byte: 0x"@ + hex2(d[0]))
    }
}

/// Decoding list items after `acc` until an `e`.
pub open spec fn spec_decode_list(rest: Seq<u8>, acc: Seq<Bencode>) -> Result<
    (Bencode, Seq<u8>),
    Seq<char>,
>
    decreases rest.len(), 1nat,
{
    if rest.len() == 0 {
        Err("unterminated list"@)
    } else if rest[0] == 101u8 {
        Ok((Bencode::List(acc), rest.drop_first()))
    } else {
        match spec_decode(rest) {
            Err(e) => Err(e),
            Ok((v, r2)) => if r2.len() < rest.len() {
                spec_decode_list(r2, acc.push(v))
            } else {
                Err(Seq::empty())
            },
        }
    }
}

/// Decoding dictionary entries, inserted into `acc`, until an `e`.
pub open spec fn spec_decode_dict(rest: Seq<u8>, acc: Seq<(Seq<u8>, Bencode)>) -> Result<
    (Bencode, Seq<u8>),
    Seq<char>,
>
    decreases rest.len(), 1nat,
{
    if rest.len() == 0 {
        Err("unterminated dict"@)
    } else if rest[0] == 101u8 {
        Ok((Bencode::Dict(acc), rest.drop_first()))
    } else {
        match spec_decode_bytes(rest) {
            Err(e) => Err(e),
            Ok((k, r1)) => if r1.len() < rest.len() {
                match spec_decode(r1) {
                    Err(e) => Err(e),
                    Ok((v, r2)) => if r2.len() < r1.len() {
                        spec_decode_dict(r2, dict_insert(acc, k, v))
                    } else {
                        Err(Seq::empty())
                    },
                }
            } else {
                Err(Seq::empty())
            },
        }
    }
}

} // verus!

verus! {

impl BencodeValue {
    /// The bencode encoding of this value. A dictionary writes its entries in
    /// the order it holds them.
    pub fn encode(&self) -> (out: Vec<u8>)
        ensures
            out@ == enc(self.model()),
            wf_value(self.model()),
            forall|suffix: Seq<u8>|
                #[trigger] spec_decode(out@ + suffix) == Ok::<(Bencode, Seq<u8>), Seq<char>>((self.model(), suffix)),
    {
        let out = self.encode_value();
        proof {
            assert forall|suffix: Seq<u8>|
                #[trigger] spec_decode(out@ + suffix) == Ok::<(Bencode, Seq<u8>), Seq<char>>((self.model(), suffix)) by {
                lemma_roundtrip(self.model(), suffix);
            }
        }
        out
    }

    /// The bytes of the value, and the fact that the value is one the encoding carries.
    fn encode_value(&self) -> (out: Vec<u8>)
        ensures
            out@ == enc(self.model()),
            wf_value(self.model()),
        decreases self.model(),
    {
        match self {
            BencodeValue::Int(i) => {
                let mut buf: Vec<u8> = Vec::new();
                buf.push(105u8);
                let mut digits = i64_to_decimal(*i);
                buf.append(&mut digits);
                buf.push(101u8);
                buf
            },
            BencodeValue::Str(s) => {
                let len: usize = s.len();
                assert(s@.len() == len);
                encode_bytes(s.as_slice())
            },
            BencodeValue::List(items) => {
                let mut buf: Vec<u8> = Vec::new();
                buf.push(108u8);
                let mut k: usize = 0;
                proof {
                    lemma_model_list(items@);
                }
                while k < items.len()
                    invariant
                        k <= items@.len(),
                        self.model() == Bencode::List(model_list(items@)),
                        model_list(items@).len() == items@.len(),
                        forall|j: int| 0 <= j < items@.len() ==> #[trigger] model_list(items@)[j] == items@[j].model(),
                        forall|j: int| 0 <= j < k ==> wf_value(#[trigger] model_list(items@)[j]),
                        buf@ == seq![108u8] + enc_list(model_list(items@).take(k as int)),
                    decreases items@.len() - k,
                {
                    proof {
                        let m = self.model();
                        assert(decreases_to!(m => m->List_0));
                        assert(decreases_to!(m->List_0 => m->List_0[k as int]));
                    }
                    let mut e = items[k].encode_value();
                    buf.append(&mut e);
                    proof {
                        let m = model_list(items@);
                        assert(m.take(k + 1).drop_last() =~= m.take(k as int));
                        assert(m.take(k + 1).last() == items@[k as int].model());
                    }
                    k += 1;
                }
                buf.push(101u8);
                proof {
                    assert(model_list(items@).take(items@.len() as int) =~= model_list(items@));
                }
                buf
            },
            BencodeValue::Dict(d) => {
                let mut buf: Vec<u8> = Vec::new();
                buf.push(100u8);
                let mut k: usize = 0;
                proof {
                    lemma_model_dict(d.entries@);
                    use_type_invariant(d);
                }
                while k < d.entries.len()
                    invariant
                        k <= d.entries@.len(),
                        self.model() == Bencode::Dict(model_dict(d.entries@)),
                        model_dict(d.entries@).len() == d.entries@.len(),
                        forall|j: int| 0 <= j < d.entries@.len() ==> #[trigger] model_dict(d.entries@)[j] == (d.entries@[j].0@, d.entries@[j].1.model()),
                        forall|j: int| 0 <= j < k ==> (#[trigger] model_dict(d.entries@)[j]).0.len() <= usize::MAX && wf_value(model_dict(d.entries@)[j].1),
                        sorted_keys(model_dict(d.entries@)),
                        buf@ == seq![100u8] + enc_dict(model_dict(d.entries@).take(k as int)),
                    decreases d.entries@.len() - k,
                {
                    proof {
                        let m = self.model();
                        assert(decreases_to!(m => m->Dict_0));
                        assert(decreases_to!(m->Dict_0 => m->Dict_0[k as int]));
                        assert(decreases_to!(m->Dict_0[k as int] => m->Dict_0[k as int].1));
                    }
                    let key_len: usize = d.entries[k].0.len();
                    assert(d.entries@[k as int].0@.len() == key_len);
                    let mut ek = encode_bytes(d.entries[k].0.as_slice());
                    buf.append(&mut ek);
                    let mut ev = d.entries[k].1.encode_value();
                    buf.append(&mut ev);
                    proof {
                        let m = model_dict(d.entries@);
                        assert(m.take(k + 1).drop_last() =~= m.take(k as int));
                        assert(m.take(k + 1).last() == (d.entries@[k as int].0@, d.entries@[k as int].1.model()));
                    }
                    k += 1;
                }
                buf.push(101u8);
                proof {
                    assert(model_dict(d.entries@).take(d.entries@.len() as int) =~= model_dict(d.entries@));
                }
                buf
            },
        }
    }
}

/// The encoding of a byte string.
pub fn encode_bytes(s: &[u8]) -> (out: Vec<u8>)
    ensures
        out@ == enc_bytes(s@),
{
    let mut buf = u64_to_decimal(s.len() as u64);
    buf.push(58u8);
    let mut k: usize = 0;
    while k < s.len()
        invariant
            k <= s@.len(),
            buf@ == dec_nat(s@.len()) + seq![58u8] + s@.take(k as int),
        decreases s@.len() - k,
    {
        buf.push(s[k]);
        proof {
            assert(s@.take(k + 1) =~= s@.take(k as int).push(s@[k as int]));
        }
        k += 1;
    }
    proof {
        assert(s@.take(s@.len() as int) =~= s@);
    }
    buf
}

} // verus!

verus! {

/// Where `find_first` stops: at the first `b`, after bytes that are not `b`.
pub proof fn lemma_find_first(s: Seq<u8>, b: u8)
    ensures
        find_first(s, b) is None <==> (forall|j: int| 0 <= j < s.len() ==> s[j] != b),
        find_first(s, b) matches Some(p) ==> 0 <= p < s.len() && s[p] == b && (forall|j: int|
            0 <= j < p ==> s[j] != b),
    decreases s.len(),
{
    if s.len() > 0 {
        lemma_find_first(s.drop_first(), b);
        if s[0] != b {
            assert forall|j: int| 0 <= j < s.len() && (forall|i: int| 0 <= i < s.len() - 1 ==> s.drop_first()[i] != b) implies s[j] != b by {
                if j > 0 {
                    assert(s[j] == s.drop_first()[j - 1]);
                }
            }
            if find_first(s, b) is None {
                assert forall|j: int| 0 <= j < s.len() implies s[j] != b by {
                    if j > 0 {
                        assert(s[j] == s.drop_first()[j - 1]);
                    }
                }
            }
            if exists|j: int| 0 <= j < s.len() - 1 && s.drop_first()[j] == b {
                let j = choose|j: int| 0 <= j < s.len() - 1 && s.drop_first()[j] == b;
                assert(s[j + 1] == b);
            }
            match find_first(s.drop_first(), b) {
                Some(p) => {
                    assert forall|j: int| 0 <= j < p + 1 implies s[j] != b by {
                        if j > 0 {
                            assert(s[j] == s.drop_first()[j - 1]);
                        }
                    }
                },
                None => {},
            }
        }
    }
}

/// The position of the first `b` in `s`.
pub fn find_byte(s: &[u8], b: u8) -> (r: Option<usize>)
    ensures
        match r {
            Some(p) => find_first(s@, b) == Some(p as int),
            None => find_first(s@, b) is None,
        },
{
    proof {
        lemma_find_first(s@, b);
    }
    let mut i: usize = 0;
    while i < s.len()
        invariant
            i <= s@.len(),
            forall|j: int| 0 <= j < i ==> s@[j] != b,
        decreases s@.len() - i,
    {
        if s[i] == b {
            proof {
                lemma_find_first(s@, b);
                match find_first(s@, b) {
                    Some(p) => {
                        assert(!(p < i));
                        assert(!(i < p));
                    },
                    None => {},
                }
            }
            return Some(i);
        }
        i += 1;
    }
    proof {
        lemma_find_first(s@, b);
    }
    None
}

/// A bencode error with the given text.
fn bencode_error(msg: &str) -> (e: QvodError)
    ensures
        e matches QvodError::Bencode(m) && m@ == msg@,
{
    QvodError::Bencode(String::from_str(msg))
}

/// A bencode error whose text is `prefix` then `detail`.
fn bencode_error_with(prefix: &str, detail: &str) -> (e: QvodError)
    ensures
        e matches QvodError::Bencode(m) && m@ == prefix@ + detail@,
{
    let mut m = String::from_str(prefix);
    push_str(&mut m, detail);
    QvodError::Bencode(m)
}

/// What a decoding result is, seen as the result of `spec_decode`.
pub open spec fn decode_outcome(r: Result<(BencodeValue, &[u8]), QvodError>) -> Result<
    (Bencode, Seq<u8>),
    Seq<char>,
> {
    match r {
        Ok((v, rest)) => Ok((v.model(), rest@)),
        Err(QvodError::Bencode(m)) => Err(m@),
        Err(_) => Err("not a bencode error"@),
    }
}

/// Decodes a byte string `<len>:<bytes>` from the front of `data`.
pub fn decode_bytes(data: &[u8]) -> (r: Result<(Vec<u8>, &[u8]), QvodError>)
    ensures
        match r {
            Ok((s, rest)) => spec_decode_bytes(data@) == Ok::<(Seq<u8>, Seq<u8>), Seq<char>>((s@, rest@)),
            Err(e) => e matches QvodError::Bencode(m) && spec_decode_bytes(data@) == Err::<(Seq<u8>, Seq<u8>), Seq<char>>(m@),
        },
{
    let colon = match find_byte(data, 58u8) {
        Some(c) => c,
        None => {
            return Err(bencode_error("unterminated string length"));
        },
    };
    proof {
        lemma_find_first(data@, 58u8);
        assert(colon < data@.len());
        assert(colon < data.len());
    }
    let len_text = &data[0..colon];
    if str_from_utf8(len_text).is_none() {
        return Err(bencode_error("invalid string length utf-8"));
    }
    let len = match parse_usize_bytes(len_text) {
        Ok(n) => n,
        Err(e) => {
            let msg = e.message();
            return Err(bencode_error_with("invalid string length: ", msg.as_str()));
        },
    };
    let start = colon + 1;
    if len > data.len() - start {
        return Err(bencode_error("string data truncated"));
    }
    let bytes = vstd::slice::slice_to_vec(&data[start..start + len]);
    Ok((bytes, &data[start + len..data.len()]))
}

impl BencodeValue {
    /// Decodes one value from the front of `data`, returning it with the bytes after it.
    pub fn decode(data: &[u8]) -> (r: Result<(BencodeValue, &[u8]), QvodError>)
        ensures
            decode_outcome(r) == spec_decode(data@),
            r matches Ok((_, rest)) ==> rest@.len() < data@.len(),
            r matches Err(e) ==> e is Bencode,
        decreases data@.len(), 0nat,
    {
        if data.len() == 0 {
            return Err(bencode_error("empty data"));
        }
        let c = data[0];
        if c == 105u8 {
            Self::decode_int(data)
        } else if 48u8 <= c && c <= 57u8 {
            proof {
                lemma_decode_bytes_shrinks(data@);
            }
            match decode_bytes(data) {
                Ok((s, rest)) => Ok((BencodeValue::Str(s), rest)),
                Err(e) => Err(e),
            }
        } else if c == 108u8 {
            Self::decode_list_items(&data[1..data.len()])
        } else if c == 100u8 {
            Self::decode_dict_items(&data[1..data.len()])
        } else {
            let mut one: Vec<u8> = Vec::new();
            one.push(c);
            let hex = hex_bytes(one.as_slice());
            proof {
                assert(one@ =~= seq![c]);
                lemma_hex_lower_ascii(one@);
            }
            let text = ascii_to_string(hex.as_slice());
            Err(bencode_error_with("unexpected byte: 0x", text.as_str()))
        }
    }

    fn decode_int(data: &[u8]) -> (r: Result<(BencodeValue, &[u8]), QvodError>)
        ensures
            decode_outcome(r) == spec_decode_int(data@),
            r matches Ok((_, rest)) ==> rest@.len() < data@.len(),
            r matches Err(e) ==> e is Bencode,
    {
        if data.len() == 0 || data[0] != 105u8 {
            return Err(bencode_error("expected integer"));
        }
        let tail = &data[1..data.len()];
        assert(tail@ =~= data@.drop_first());
        let p = match find_byte(tail, 101u8) {
            Some(p) => p,
            None => {
                return Err(bencode_error("unterminated integer"));
            },
        };
        proof {
            lemma_find_first(tail@, 101u8);
        }
        let end = p + 1;
        let num = &data[1..end];
        if str_from_utf8(num).is_none() {
            return Err(bencode_error("invalid integer utf-8"));
        }
        match parse_i64_bytes(num) {
            Ok(v) => Ok((BencodeValue::Int(v), &data[end + 1..data.len()])),
            Err(e) => {
                let msg = e.message();
                Err(bencode_error_with("invalid integer: ", msg.as_str()))
            },
        }
    }

    fn decode_list_items(rest: &[u8]) -> (r: Result<(BencodeValue, &[u8]), QvodError>)
        ensures
            decode_outcome(r) == spec_decode_list(rest@, Seq::empty()),
            r matches Ok((_, after)) ==> after@.len() < rest@.len(),
            r matches Err(e) ==> e is Bencode,
        decreases rest@.len(), 1nat,
    {
        let mut cur: &[u8] = rest;
        let mut items: Vec<BencodeValue> = Vec::new();
        assert(model_list(items@) =~= Seq::<Bencode>::empty());
        while cur.len() > 0 && cur[0] != 101u8
            invariant
                cur@.len() <= rest@.len(),
                spec_decode_list(cur@, model_list(items@)) == spec_decode_list(rest@, Seq::empty()),
            decreases cur@.len(),
        {
            match Self::decode(cur) {
                Ok((v, after)) => {
                    proof {
                        assert(items@.push(v).drop_last() =~= items@);
                    }
                    items.push(v);
                    cur = after;
                },
                Err(e) => {
                    return Err(e);
                },
            }
        }
        if cur.len() == 0 {
            return Err(bencode_error("unterminated list"));
        }
        Ok((BencodeValue::List(items), &cur[1..cur.len()]))
    }

    fn decode_dict_items(rest: &[u8]) -> (r: Result<(BencodeValue, &[u8]), QvodError>)
        ensures
            decode_outcome(r) == spec_decode_dict(rest@, Seq::empty()),
            r matches Ok((_, after)) ==> after@.len() < rest@.len(),
            r matches Err(e) ==> e is Bencode,
        decreases rest@.len(), 1nat,
    {
        let mut cur: &[u8] = rest;
        let mut dict = BencodeDict::new();
        while cur.len() > 0 && cur[0] != 101u8
            invariant
                cur@.len() <= rest@.len(),
                spec_decode_dict(cur@, dict@) == spec_decode_dict(rest@, Seq::empty()),
            decreases cur@.len(),
        {
            match decode_bytes(cur) {
                Ok((key, after_key)) => {
                    proof {
                        lemma_decode_bytes_shrinks(cur@);
                    }
                    match Self::decode(after_key) {
                        Ok((v, after)) => {
                            dict.insert(key, v);
                            cur = after;
                        },
                        Err(e) => {
                            return Err(e);
                        },
                    }
                },
                Err(e) => {
                    return Err(e);
                },
            }
        }
        if cur.len() == 0 {
            return Err(bencode_error("unterminated dict"));
        }
        Ok((BencodeValue::Dict(dict), &cur[1..cur.len()]))
    }
}

/// A decoded byte string always leaves less than it was given.
pub proof fn lemma_decode_bytes_shrinks(d: Seq<u8>)
    ensures
        spec_decode_bytes(d) matches Ok((_, rest)) ==> rest.len() < d.len(),
{
    lemma_find_first(d, 58u8);
}

} // verus!

verus! {

/// `a` before `b` in bytewise order.
pub fn bytes_lt(a: &[u8], b: &[u8]) -> (r: bool)
    ensures
        r == lex_lt(a@, b@),
    decreases a@.len(),
{
    if a.len() == 0 {
        b.len() > 0
    } else if b.len() == 0 {
        false
    } else if a[0] != b[0] {
        a[0] < b[0]
    } else {
        let a1 = &a[1..a.len()];
        let b1 = &b[1..b.len()];
        assert(a1@ =~= a@.drop_first());
        assert(b1@ =~= b@.drop_first());
        bytes_lt(a1, b1)
    }
}

/// The same bytes.
pub fn bytes_eq(a: &[u8], b: &[u8]) -> (r: bool)
    ensures
        r == (a@ == b@),
{
    if a.len() != b.len() {
        return false;
    }
    let mut i: usize = 0;
    while i < a.len()
        invariant
            i <= a@.len(),
            a@.len() == b@.len(),
            forall|j: int| 0 <= j < i ==> a@[j] == b@[j],
        decreases a@.len() - i,
    {
        if a[i] != b[i] {
            return false;
        }
        i += 1;
    }
    assert(a@ =~= b@);
    true
}

/// Inserting after a prefix whose keys are all smaller than `k` keeps that prefix.
pub proof fn lemma_dict_insert_skip(es: Seq<(Seq<u8>, Bencode)>, i: int, k: Seq<u8>, v: Bencode)
    requires
        0 <= i <= es.len(),
        forall|j: int| 0 <= j < i ==> es[j].0 != k && !lex_lt(k, #[trigger] es[j].0),
    ensures
        dict_insert(es, k, v) == es.take(i) + dict_insert(es.skip(i), k, v),
    decreases i,
{
    if i == 0 {
        assert(es.skip(0) =~= es);
        assert(es.take(0) + dict_insert(es, k, v) =~= dict_insert(es, k, v));
    } else {
        let t = es.drop_first();
        assert forall|j: int| 0 <= j < i - 1 implies t[j].0 != k && !lex_lt(k, #[trigger] t[j].0) by {
            assert(t[j] == es[j + 1]);
        }
        lemma_dict_insert_skip(t, i - 1, k, v);
        assert(t.skip(i - 1) =~= es.skip(i));
        assert(es.take(i) =~= seq![es[0]] + t.take(i - 1));
        assert(dict_insert(es, k, v) == seq![es[0]] + dict_insert(t, k, v));
    }
}

/// Looking up past a prefix that does not hold `k`.
pub proof fn lemma_dict_lookup_skip(es: Seq<(Seq<u8>, Bencode)>, i: int, k: Seq<u8>)
    requires
        0 <= i <= es.len(),
        forall|j: int| 0 <= j < i ==> (#[trigger] es[j]).0 != k,
    ensures
        dict_lookup(es, k) == dict_lookup(es.skip(i), k),
    decreases i,
{
    if i == 0 {
        assert(es.skip(0) =~= es);
    } else {
        let t = es.drop_first();
        assert forall|j: int| 0 <= j < i - 1 implies (#[trigger] t[j]).0 != k by {
            assert(t[j] == es[j + 1]);
        }
        lemma_dict_lookup_skip(t, i - 1, k);
        assert(t.skip(i - 1) =~= es.skip(i));
    }
}

impl BencodeDict {
    /// An empty dictionary.
    pub fn new() -> (d: BencodeDict)
        ensures
            d@ == Seq::<(Seq<u8>, Bencode)>::empty(),
    {
        assert(model_dict(Seq::<(Vec<u8>, BencodeValue)>::empty()) =~= Seq::<(Seq<u8>, Bencode)>::empty());
        let d = BencodeDict { entries: Vec::new() };
        assert(d@ =~= Seq::<(Seq<u8>, Bencode)>::empty());
        d
    }

    /// The number of entries.
    pub fn len(&self) -> (n: usize)
        ensures
            n == self@.len(),
    {
        proof {
            lemma_model_dict(self.entries@);
        }
        self.entries.len()
    }

    /// No entries.
    pub fn is_empty(&self) -> (b: bool)
        ensures
            b == (self@.len() == 0),
    {
        proof {
            lemma_model_dict(self.entries@);
        }
        self.entries.len() == 0
    }

    /// The value under `key`.
    pub fn get(&self, key: &[u8]) -> (r: Option<&BencodeValue>)
        ensures
            match r {
                Some(v) => dict_lookup(self@, key@) == Some(v.model()),
                None => dict_lookup(self@, key@) is None,
            },
    {
        proof {
            use_type_invariant(self);
            lemma_model_dict(self.entries@);
        }
        let ghost m = self@;
        let mut i: usize = 0;
        while i < self.entries.len()
            invariant
                i <= self.entries@.len(),
                m == self@,
                m.len() == self.entries@.len(),
                forall|j: int| 0 <= j < self.entries@.len() ==> #[trigger] m[j] == (self.entries@[j].0@, self.entries@[j].1.model()),
                forall|j: int| 0 <= j < i ==> (#[trigger] m[j]).0 != key@,
            decreases self.entries@.len() - i,
        {
            if bytes_eq(self.entries[i].0.as_slice(), key) {
                proof {
                    lemma_dict_lookup_skip(m, i as int, key@);
                    assert(m.skip(i as int)[0] == m[i as int]);
                }
                return Some(&self.entries[i].1);
            }
            i += 1;
        }
        proof {
            lemma_dict_lookup_skip(m, i as int, key@);
            assert(m.skip(i as int).len() == 0);
        }
        None
    }

    /// Puts `value` under `key`, in key order, replacing and returning what was there.
    pub fn insert(&mut self, key: Vec<u8>, value: BencodeValue) -> (prev: Option<BencodeValue>)
        ensures
            final(self)@ == dict_insert(old(self)@, key@, value.model()),
            match prev {
                Some(v) => dict_lookup(old(self)@, key@) == Some(v.model()),
                None => dict_lookup(old(self)@, key@) is None,
            },
    {
        proof {
            use_type_invariant(&*self);
            lemma_model_dict(self.entries@);
        }
        let ghost m = self@;
        let ghost kv = (key@, value.model());
        let mut entries: Vec<(Vec<u8>, BencodeValue)> = Vec::new();
        std::mem::swap(&mut entries, &mut self.entries);
        proof {
            lemma_dict_insert_sorted(m, key@, value.model());
        }
        let mut i: usize = 0;
        while i < entries.len()
            invariant
                i <= entries@.len(),
                m == old(self)@,
                sorted_keys(m),
                sorted_keys(dict_insert(m, key@, value.model())),
                kv == (key@, value.model()),
                m.len() == entries@.len(),
                forall|j: int| 0 <= j < entries@.len() ==> #[trigger] m[j] == (entries@[j].0@, entries@[j].1.model()),
                forall|j: int| 0 <= j < i ==> (#[trigger] m[j]).0 != key@ && !lex_lt(key@, m[j].0),
            decreases entries@.len() - i,
        {
            let same = bytes_eq(entries[i].0.as_slice(), key.as_slice());
            let before = bytes_lt(key.as_slice(), entries[i].0.as_slice());
            if same || before {
                proof {
                    lemma_dict_insert_skip(m, i as int, key@, value.model());
                    lemma_dict_lookup_skip(m, i as int, key@);
                    assert(m.skip(i as int)[0] == m[i as int]);
                    assert(m.skip(i as int).drop_first() =~= m.skip(i + 1));
                }
                if same {
                    let (_, old_value) = entries.remove(i);
                    entries.insert(i, (key, value));
                    proof {
                        lemma_model_dict(entries@);
                        assert(model_dict(entries@) =~= m.take(i as int) + (seq![kv] + m.skip(i + 1)));
                    }
                    self.entries = entries;
                    return Some(old_value);
                } else {
                    proof {
                        lemma_lookup_sorted_absent(m, i as int, key@);
                    }
                    entries.insert(i, (key, value));
                    proof {
                        lemma_model_dict(entries@);
                        assert(model_dict(entries@) =~= m.take(i as int) + (seq![kv] + m.skip(i as int)));
                    }
                    self.entries = entries;
                    return None;
                }
            }
            i += 1;
        }
        proof {
            lemma_dict_insert_skip(m, i as int, key@, value.model());
            lemma_dict_lookup_skip(m, i as int, key@);
            assert(m.skip(i as int).len() == 0);
        }
        entries.push((key, value));
        proof {
            lemma_model_dict(entries@);
            assert(model_dict(entries@) =~= m.take(i as int) + seq![kv]);
        }
        self.entries = entries;
        None
    }

    /// The entries, in key order.
    pub fn entries(&self) -> (r: &[(Vec<u8>, BencodeValue)])
        ensures
            model_dict(r@) == self@,
            sorted_keys(self@),
    {
        proof {
            use_type_invariant(self);
        }
        self.entries.as_slice()
    }
}

/// In a sorted dictionary, a key below the one at `i` is not found from `i` on.
pub proof fn lemma_lookup_sorted_absent(m: Seq<(Seq<u8>, Bencode)>, i: int, key: Seq<u8>)
    requires
        sorted_keys(m),
        0 <= i < m.len(),
        lex_lt(key, m[i].0),
    ensures
        dict_lookup(m.skip(i), key) is None,
{
    let s = m.skip(i);
    assert forall|j: int| 0 <= j < s.len() implies (#[trigger] s[j]).0 != key by {
        assert(s[j] == m[i + j]);
        if j == 0 {
            lemma_lex_asymmetric(key, m[i].0);
        } else {
            lemma_lex_transitive(key, m[i].0, m[i + j].0);
            lemma_lex_asymmetric(key, m[i + j].0);
        }
    }
    lemma_dict_lookup_skip(s, s.len() as int, key);
    assert(s.skip(s.len() as int).len() == 0);
}

/// Every key after inserting stays above a bound that `k` and all old keys are above.
proof fn lemma_dict_insert_bound(es: Seq<(Seq<u8>, Bencode)>, k: Seq<u8>, v: Bencode, b: Seq<u8>)
    requires
        lex_lt(b, k),
        forall|j: int| 0 <= j < es.len() ==> lex_lt(b, #[trigger] es[j].0),
    ensures
        forall|j: int| 0 <= j < dict_insert(es, k, v).len() ==> lex_lt(b, #[trigger] dict_insert(es, k, v)[j].0),
    decreases es.len(),
{
    if es.len() > 0 && es[0].0 != k && !lex_lt(k, es[0].0) {
        let t = es.drop_first();
        assert forall|j: int| 0 <= j < t.len() implies lex_lt(b, #[trigger] t[j].0) by {
            assert(t[j] == es[j + 1]);
        }
        lemma_dict_insert_bound(t, k, v, b);
        let r = dict_insert(es, k, v);
        assert forall|j: int| 0 <= j < r.len() implies lex_lt(b, #[trigger] r[j].0) by {
            if j > 0 {
                assert(r[j] == dict_insert(t, k, v)[j - 1]);
            }
        }
    }
}

/// Inserting keeps the keys sorted.
pub proof fn lemma_dict_insert_sorted(es: Seq<(Seq<u8>, Bencode)>, k: Seq<u8>, v: Bencode)
    requires
        sorted_keys(es),
    ensures
        sorted_keys(dict_insert(es, k, v)),
        dict_insert(es, k, v).len() <= es.len() + 1,
    decreases es.len(),
{
    let r = dict_insert(es, k, v);
    if es.len() == 0 {
    } else if es[0].0 == k {
        assert forall|i: int, j: int| 0 <= i < j < r.len() implies lex_lt(#[trigger] r[i].0, #[trigger] r[j].0) by {
            assert(r[j] == es[j]);
            if i > 0 {
                assert(r[i] == es[i]);
            }
        }
    } else if lex_lt(k, es[0].0) {
        assert forall|i: int, j: int| 0 <= i < j < r.len() implies lex_lt(#[trigger] r[i].0, #[trigger] r[j].0) by {
            assert(r[j] == es[j - 1]);
            if i > 0 {
                assert(r[i] == es[i - 1]);
            } else if j > 1 {
                lemma_lex_transitive(k, es[0].0, es[j - 1].0);
            }
        }
    } else {
        let t = es.drop_first();
        assert forall|i: int, j: int| 0 <= i < j < t.len() implies lex_lt(#[trigger] t[i].0, #[trigger] t[j].0) by {
            assert(t[i] == es[i + 1]);
            assert(t[j] == es[j + 1]);
        }
        lemma_dict_insert_sorted(t, k, v);
        lemma_lex_total(es[0].0, k);
        assert forall|j: int| 0 <= j < t.len() implies lex_lt(es[0].0, #[trigger] t[j].0) by {
            assert(t[j] == es[j + 1]);
        }
        lemma_dict_insert_bound(t, k, v, es[0].0);
        let rt = dict_insert(t, k, v);
        assert forall|i: int, j: int| 0 <= i < j < r.len() implies lex_lt(#[trigger] r[i].0, #[trigger] r[j].0) by {
            assert(r[j] == rt[j - 1]);
            if i > 0 {
                assert(r[i] == rt[i - 1]);
            }
        }
    }
}

} // verus!

verus! {

impl BencodeValue {
    /// The integer, if this is one.
    pub fn as_int(&self) -> (r: Option<i64>)
        ensures
            r == (match self {
                BencodeValue::Int(i) => Some(*i),
                _ => None::<i64>,
            }),
    {
        match self {
            BencodeValue::Int(i) => Some(*i),
            _ => None,
        }
    }

    /// The bytes, if this is a byte string.
    pub fn as_str_bytes(&self) -> (r: Option<&[u8]>)
        ensures
            match self {
                BencodeValue::Str(s) => r matches Some(b) && b@ == s@,
                _ => r is None,
            },
    {
        match self {
            BencodeValue::Str(s) => Some(s.as_slice()),
            _ => None,
        }
    }

    /// The text, if this is a byte string holding UTF-8.
    pub fn as_str(&self) -> (r: Option<&str>)
        ensures
            match self {
                BencodeValue::Str(s) => match r {
                    Some(t) => valid_utf8(s@) && t@ == decode_utf8(s@),
                    None => !valid_utf8(s@),
                },
                _ => r is None,
            },
    {
        match self.as_str_bytes() {
            Some(b) => str_from_utf8(b),
            None => None,
        }
    }

    /// The items, if this is a list.
    pub fn as_list(&self) -> (r: Option<&Vec<BencodeValue>>)
        ensures
            match self {
                BencodeValue::List(items) => r == Some(items),
                _ => r is None,
            },
    {
        match self {
            BencodeValue::List(items) => Some(items),
            _ => None,
        }
    }

    /// The dictionary, if this is one.
    pub fn as_dict(&self) -> (r: Option<&BencodeDict>)
        ensures
            match self {
                BencodeValue::Dict(d) => r == Some(d),
                _ => r is None,
            },
    {
        match self {
            BencodeValue::Dict(d) => Some(d),
            _ => None,
        }
    }

    /// The value under `key`, if this is a dictionary that has one.
    pub fn dict_get(&self, key: &[u8]) -> (r: Option<&BencodeValue>)
        ensures
            match self {
                BencodeValue::Dict(d) => match r {
                    Some(v) => dict_lookup(d@, key@) == Some(v.model()),
                    None => dict_lookup(d@, key@) is None,
                },
                _ => r is None,
            },
    {
        match self {
            BencodeValue::Dict(d) => d.get(key),
            _ => None,
        }
    }
}

} // verus!
