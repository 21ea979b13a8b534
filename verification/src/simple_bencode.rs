//! The tracker's own bencode reader: the same values, read with its own error
//! texts, and dictionary keys decoded as whole values.
use vstd::prelude::*;
use vstd::utf8::{decode_utf8, valid_utf8};

use crate::bencode::{
    bytes_eq, bytes_lt, dict_insert, dict_lookup, lemma_dict_insert_skip, lemma_dict_insert_sorted,
    lemma_dict_lookup_skip, lemma_lookup_sorted_absent, lex_lt, sorted_keys, Bencode,
};
use crate::bencode::{find_byte, find_first, lemma_find_first};
use crate::strings::{ascii_chars, decimal_string, push_str, str_from_utf8};
use crate::text::{dec_nat, is_digit, parse_i64_bytes, parse_i64_spec, parse_unsigned, parse_usize_bytes};

verus! {

broadcast use vstd::std_specs::vec::group_vec_axioms;

/// A bencode value, as the tracker parser reads it.
#[derive(Debug, PartialEq)]
pub enum SimpleBencode {
    Int(i64),
    Str(Vec<u8>),
    List(Vec<SimpleBencode>),
    Dict(SimpleDict),
}

/// A dictionary read by the tracker parser: entries ordered by key, bytewise, each key once, as
/// `insert` keeps them.
#[derive(Debug, PartialEq)]
pub struct SimpleDict {
    entries: Vec<(Vec<u8>, SimpleBencode)>,
}


impl View for SimpleDict {
    type V = Seq<(Seq<u8>, Bencode)>;

    /// The entries as mathematics sees them.
    closed spec fn view(&self) -> Seq<(Seq<u8>, Bencode)>
        decreases self,
    {
        smodel_dict(self.entries@)
    }
}

impl SimpleDict {
    /// Keys strictly increase.
    #[verifier::type_invariant]
    spec fn keys_ordered(self) -> bool {
        sorted_keys(smodel_dict(self.entries@))
    }
}

impl SimpleBencode {
    /// The mathematical value.
    pub open spec fn model(self) -> Bencode
        decreases self,
    {
        match self {
            SimpleBencode::Int(i) => Bencode::Int(i as int),
            SimpleBencode::Str(s) => Bencode::Str(s@),
            SimpleBencode::List(items) => Bencode::List(smodel_list(items@)),
            SimpleBencode::Dict(d) => Bencode::Dict(d@),
        }
    }
}

/// The mathematical values of a sequence of values.
pub open spec fn smodel_list(s: Seq<SimpleBencode>) -> Seq<Bencode>
    decreases s,
{
    if s.len() == 0 {
        Seq::empty()
    } else {
        smodel_list(s.drop_last()).push(s.last().model())
    }
}

/// The mathematical entries of a dictionary.
pub open spec fn smodel_dict(s: Seq<(Vec<u8>, SimpleBencode)>) -> Seq<(Seq<u8>, Bencode)>
    decreases s,
{
    if s.len() == 0 {
        Seq::empty()
    } else {
        smodel_dict(s.drop_last()).push((s.last().0@, s.last().1.model()))
    }
}

pub proof fn lemma_smodel_list(s: Seq<SimpleBencode>)
    ensures
        smodel_list(s).len() == s.len(),
        forall|i: int| 0 <= i < s.len() ==> #[trigger] smodel_list(s)[i] == s[i].model(),
    decreases s.len(),
{
    if s.len() > 0 {
        lemma_smodel_list(s.drop_last());
    }
}

pub proof fn lemma_smodel_dict(s: Seq<(Vec<u8>, SimpleBencode)>)
    ensures
        smodel_dict(s).len() == s.len(),
        forall|i: int|
            0 <= i < s.len() ==> #[trigger] smodel_dict(s)[i] == (s[i].0@, s[i].1.model()),
    decreases s.len(),
{
    if s.len() > 0 {
        lemma_smodel_dict(s.drop_last());
    }
}

impl SimpleDict {
    /// An empty dictionary.
    pub fn new() -> (d: SimpleDict)
        ensures
            d@ == Seq::<(Seq<u8>, Bencode)>::empty(),
    {
        assert(smodel_dict(Seq::<(Vec<u8>, SimpleBencode)>::empty()) =~= Seq::<(Seq<u8>, Bencode)>::empty());
        let d = SimpleDict { entries: Vec::new() };
        assert(d@ =~= Seq::<(Seq<u8>, Bencode)>::empty());
        d
    }

    /// The number of entries.
    pub fn len(&self) -> (n: usize)
        ensures
            n == self@.len(),
    {
        proof {
            lemma_smodel_dict(self.entries@);
        }
        self.entries.len()
    }

    /// No entries.
    pub fn is_empty(&self) -> (b: bool)
        ensures
            b == (self@.len() == 0),
    {
        proof {
            lemma_smodel_dict(self.entries@);
        }
        self.entries.len() == 0
    }

    /// The value under `key`.
    pub fn get(&self, key: &[u8]) -> (r: Option<&SimpleBencode>)
        ensures
            match r {
                Some(v) => dict_lookup(self@, key@) == Some(v.model()),
                None => dict_lookup(self@, key@) is None,
            },
    {
        proof {
            use_type_invariant(self);
            lemma_smodel_dict(self.entries@);
        }
        let ghost m = self@;
        let mut i: usize = 0;
        while i < self.entries.len()
            invariant
                i <= self.entries@.len(),
                m == self@,
                m.len() == self.entries@.len(),
                forall|j: int| 0 <= j < self.entries@.len() ==> #[trigger] m[j] == (self.entries@[j].0@, self.entries@[j].1.model()),
                forall|j: int| 0 <= j < i ==> (#[trigger] m[j]).0 != key@,
            decreases self.entries@.len() - i,
        {
            if bytes_eq(self.entries[i].0.as_slice(), key) {
                proof {
                    lemma_dict_lookup_skip(m, i as int, key@);
                    assert(m.skip(i as int)[0] == m[i as int]);
                }
                return Some(&self.entries[i].1);
            }
            i += 1;
        }
        proof {
            lemma_dict_lookup_skip(m, i as int, key@);
            assert(m.skip(i as int).len() == 0);
        }
        None
    }

    /// Puts `value` under `key`, in key order, replacing and returning what was there.
    pub fn insert(&mut self, key: Vec<u8>, value: SimpleBencode) -> (prev: Option<SimpleBencode>)
        ensures
            final(self)@ == dict_insert(old(self)@, key@, value.model()),
            match prev {
                Some(v) => dict_lookup(old(self)@, key@) == Some(v.model()),
                None => dict_lookup(old(self)@, key@) is None,
            },
    {
        proof {
            use_type_invariant(&*self);
            lemma_smodel_dict(self.entries@);
        }
        let ghost m = self@;
        let ghost kv = (key@, value.model());
        let mut entries: Vec<(Vec<u8>, SimpleBencode)> = Vec::new();
        std::mem::swap(&mut entries, &mut self.entries);
        proof {
            lemma_dict_insert_sorted(m, key@, value.model());
        }
        let mut i: usize = 0;
        while i < entries.len()
            invariant
                i <= entries@.len(),
                m == old(self)@,
                sorted_keys(m),
                sorted_keys(dict_insert(m, key@, value.model())),
                kv == (key@, value.model()),
                m.len() == entries@.len(),
                forall|j: int| 0 <= j < entries@.len() ==> #[trigger] m[j] == (entries@[j].0@, entries@[j].1.model()),
                forall|j: int| 0 <= j < i ==> (#[trigger] m[j]).0 != key@ && !lex_lt(key@, m[j].0),
            decreases entries@.len() - i,
        {
            let same = bytes_eq(entries[i].0.as_slice(), key.as_slice());
            let before = bytes_lt(key.as_slice(), entries[i].0.as_slice());
            if same || before {
                proof {
                    lemma_dict_insert_skip(m, i as int, key@, value.model());
                    lemma_dict_lookup_skip(m, i as int, key@);
                    assert(m.skip(i as int)[0] == m[i as int]);
                    assert(m.skip(i as int).drop_first() =~= m.skip(i + 1));
                }
                if same {
                    let (_, old_value) = entries.remove(i);
                    entries.insert(i, (key, value));
                    proof {
                        lemma_smodel_dict(entries@);
                        assert(smodel_dict(entries@) =~= m.take(i as int) + (seq![kv] + m.skip(i + 1)));
                    }
                    self.entries = entries;
                    return Some(old_value);
                } else {
                    proof {
                        lemma_lookup_sorted_absent(m, i as int, key@);
                    }
                    entries.insert(i, (key, value));
                    proof {
                        lemma_smodel_dict(entries@);
                        assert(smodel_dict(entries@) =~= m.take(i as int) + (seq![kv] + m.skip(i as int)));
                    }
                    self.entries = entries;
                    return None;
                }
            }
            i += 1;
        }
        proof {
            lemma_dict_insert_skip(m, i as int, key@, value.model());
            lemma_dict_lookup_skip(m, i as int, key@);
            assert(m.skip(i as int).len() == 0);
        }
        entries.push((key, value));
        proof {
            lemma_smodel_dict(entries@);
            assert(smodel_dict(entries@) =~= m.take(i as int) + seq![kv]);
        }
        self.entries = entries;
        None
    }

    /// The entries, in key order.
    pub fn entries(&self) -> (r: &[(Vec<u8>, SimpleBencode)])
        ensures
            smodel_dict(r@) == self@,
            sorted_keys(self@),
    {
        proof {
            use_type_invariant(self);
        }
        self.entries.as_slice()
    }
}

impl SimpleBencode {
    /// The integer, if this is one.
    pub fn as_int(&self) -> (r: Option<i64>)
        ensures
            r == (match self {
                SimpleBencode::Int(i) => Some(*i),
                _ => None::<i64>,
            }),
    {
        match self {
            SimpleBencode::Int(i) => Some(*i),
            _ => None,
        }
    }

    /// The bytes, if this is a byte string.
    pub fn as_str_bytes(&self) -> (r: Option<&[u8]>)
        ensures
            match self {
                SimpleBencode::Str(s) => r matches Some(b) && b@ == s@,
                _ => r is None,
            },
    {
        match self {
            SimpleBencode::Str(s) => Some(s.as_slice()),
            _ => None,
        }
    }

    /// The text, if this is a byte string holding UTF-8.
    pub fn as_str(&self) -> (r: Option<&str>)
        ensures
            match self {
                SimpleBencode::Str(s) => match r {
                    Some(t) => valid_utf8(s@) && t@ == decode_utf8(s@),
                    None => !valid_utf8(s@),
                },
                _ => r is None,
            },
    {
        match self.as_str_bytes() {
            Some(b) => str_from_utf8(b),
            None => None,
        }
    }

    /// The items, if this is a list.
    pub fn as_list(&self) -> (r: Option<&Vec<SimpleBencode>>)
        ensures
            match self {
                SimpleBencode::List(items) => r == Some(items),
                _ => r is None,
            },
    {
        match self {
            SimpleBencode::List(items) => Some(items),
            _ => None,
        }
    }

    /// The dictionary, if this is one.
    pub fn as_dict(&self) -> (r: Option<&SimpleDict>)
        ensures
            match self {
                SimpleBencode::Dict(d) => r == Some(d),
                _ => r is None,
            },
    {
        match self {
            SimpleBencode::Dict(d) => Some(d),
            _ => None,
        }
    }

    /// The value under `key`, if this is a dictionary that has one.
    pub fn dict_get(&self, key: &[u8]) -> (r: Option<&SimpleBencode>)
        ensures
            match self {
                SimpleBencode::Dict(d) => match r {
                    Some(v) => dict_lookup(d@, key@) == Some(v.model()),
                    None => dict_lookup(d@, key@) is None,
                },
                _ => r is None,
            },
    {
        match self {
            SimpleBencode::Dict(d) => d.get(key),
            _ => None,
        }
    }
}


} // verus!

verus! {

/// What the tracker parser makes of the front of `d`: a value and the rest,
/// or why it refuses.
pub open spec fn spec_simple_decode(d: Seq<u8>) -> Result<(Bencode, Seq<u8>), Seq<char>>
    decreases d.len(), 0nat,
{
    if d.len() == 0 {
        Err("empty data"@)
    } else if d[0] == 105u8 {
        match find_first(d.drop_first(), 101u8) {
            None => Err("unterminated int"@),
            Some(p) => {
                let num = d.subrange(1, 1 + p);
                if !valid_utf8(num) {
                    Err("invalid int"@)
                } else {
                    match parse_i64_spec(num) {
                        Err(_) => Err("bad int"@),
                        Ok(v) => Ok((Bencode::Int(v), d.subrange(2 + p, d.len() as int))),
                    }
                }
            },
        }
    } else if is_digit(d[0]) {
        match find_first(d, 58u8) {
            None => Err("no colon"@),
            Some(c) => {
                let ls = d.subrange(0, c);
                if !valid_utf8(ls) {
                    Err("invalid len"@)
                } else {
                    match parse_unsigned(ls, usize::MAX as nat) {
                        Err(_) => Err("bad len"@),
                        Ok(n) => if c + 1 + n > d.len() {
                            Err("truncated string"@)
                        } else {
                            Ok(
                                (
                                    Bencode::Str(d.subrange(c + 1, c + 1 + n)),
                                    d.subrange(c + 1 + n, d.len() as int),
                                ),
                            )
                        },
                    }
                }
            },
        }
    } else if d[0] == 108u8 {
        spec_simple_list(d.drop_first(), Seq::empty())
    } else if d[0] == 100u8 {
        spec_simple_dict(d.drop_first(), Seq::empty())
    } else {
        Err("unexpected byte: "@ + ascii_chars(dec_nat(d[0] as nat)))
    }
}

/// List items after `acc` until an `e`.
pub open spec fn spec_simple_list(rest: Seq<u8>, acc: Seq<Bencode>) -> Result<(Bencode, Seq<u8>), Seq<char>>
    decreases rest.len(), 1nat,
{
    if rest.len() == 0 {
        Err("unterminated list"@)
    } else if rest[0] == 101u8 {
        Ok((Bencode::List(acc), rest.drop_first()))
    } else {
        match spec_simple_decode(rest) {
            Err(e) => Err(e),
            Ok((v, r2)) => if r2.len() < rest.len() {
                spec_simple_list(r2, acc.push(v))
            } else {
                Err(Seq::empty())
            },
        }
    }
}

/// Dictionary entries, inserted into `acc`, until an `e`; each key is read as
/// a whole value and must be a byte string.
pub open spec fn spec_simple_dict(rest: Seq<u8>, acc: Seq<(Seq<u8>, Bencode)>) -> Result<
    (Bencode, Seq<u8>),
    Seq<char>,
>
    decreases rest.len(), 1nat,
{
    if rest.len() == 0 {
        Err("unterminated dict"@)
    } else if rest[0] == 101u8 {
        Ok((Bencode::Dict(acc), rest.drop_first()))
    } else {
        match spec_simple_decode(rest) {
            Err(e) => Err(e),
            Ok((k, r1)) => if r1.len() < rest.len() {
                match k {
                    Bencode::Str(kb) => match spec_simple_decode(r1) {
                        Err(e) => Err(e),
                        Ok((v, r2)) => if r2.len() < r1.len() {
                            spec_simple_dict(r2, dict_insert(acc, kb, v))
                        } else {
                            Err(Seq::empty())
                        },
                    },
                    _ => Err("dict key not string"@),
                }
            } else {
                Err(Seq::empty())
            },
        }
    }
}

/// What a decoding result is, seen as the result of `spec_simple_decode`.
pub open spec fn simple_outcome(r: Result<(SimpleBencode, &[u8]), String>) -> Result<
    (Bencode, Seq<u8>),
    Seq<char>,
> {
    match r {
        Ok((v, rest)) => Ok((v.model(), rest@)),
        Err(m) => Err(m@),
    }
}

/// Reads one value from the front of `data`, returning it with the bytes after it.
pub fn simple_bencode_decode(data: &[u8]) -> (r: Result<(SimpleBencode, &[u8]), String>)
    ensures
        simple_outcome(r) == spec_simple_decode(data@),
        r matches Ok((_, rest)) ==> rest@.len() < data@.len(),
    decreases data@.len(), 0nat,
{
    if data.len() == 0 {
        return Err(String::from_str("empty data"));
    }
    let c = data[0];
    if c == 105u8 {
        let tail = &data[1..data.len()];
        assert(tail@ =~= data@.drop_first());
        let p = match find_byte(tail, 101u8) {
            Some(p) => p,
            None => {
                return Err(String::from_str("unterminated int"));
            },
        };
        proof {
            lemma_find_first(tail@, 101u8);
        }
        let num = &data[1..1 + p];
        if str_from_utf8(num).is_none() {
            return Err(String::from_str("invalid int"));
        }
        match parse_i64_bytes(num) {
            Ok(v) => Ok((SimpleBencode::Int(v), &data[2 + p..data.len()])),
            Err(_) => Err(String::from_str("bad int")),
        }
    } else if 48u8 <= c && c <= 57u8 {
        let colon = match find_byte(data, 58u8) {
            Some(c) => c,
            None => {
                return Err(String::from_str("no colon"));
            },
        };
        proof {
            lemma_find_first(data@, 58u8);
        }
        assert(colon < data.len());
        let len_text = &data[0..colon];
        if str_from_utf8(len_text).is_none() {
            return Err(String::from_str("invalid len"));
        }
        let len = match parse_usize_bytes(len_text) {
            Ok(n) => n,
            Err(_) => {
                return Err(String::from_str("bad len"));
            },
        };
        let start = colon + 1;
        if len > data.len() - start {
            return Err(String::from_str("truncated string"));
        }
        let bytes = vstd::slice::slice_to_vec(&data[start..start + len]);
        Ok((SimpleBencode::Str(bytes), &data[start + len..data.len()]))
    } else if c == 108u8 {
        simple_decode_list(&data[1..data.len()])
    } else if c == 100u8 {
        simple_decode_dict(&data[1..data.len()])
    } else {
        let mut m = String::from_str("unexpected byte: ");
        let n = decimal_string(c as u64);
        push_str(&mut m, n.as_str());
        Err(m)
    }
}

fn simple_decode_list(rest: &[u8]) -> (r: Result<(SimpleBencode, &[u8]), String>)
    ensures
        simple_outcome(r) == spec_simple_list(rest@, Seq::empty()),
        r matches Ok((_, after)) ==> after@.len() < rest@.len(),
    decreases rest@.len(), 1nat,
{
    let mut cur: &[u8] = rest;
    let mut items: Vec<SimpleBencode> = Vec::new();
    assert(smodel_list(items@) =~= Seq::<Bencode>::empty());
    while cur.len() > 0 && cur[0] != 101u8
        invariant
            cur@.len() <= rest@.len(),
            spec_simple_list(cur@, smodel_list(items@)) == spec_simple_list(rest@, Seq::empty()),
        decreases cur@.len(),
    {
        match simple_bencode_decode(cur) {
            Ok((v, after)) => {
                proof {
                    assert(items@.push(v).drop_last() =~= items@);
                }
                items.push(v);
                cur = after;
            },
            Err(e) => {
                return Err(e);
            },
        }
    }
    if cur.len() == 0 {
        return Err(String::from_str("unterminated list"));
    }
    Ok((SimpleBencode::List(items), &cur[1..cur.len()]))
}

fn simple_decode_dict(rest: &[u8]) -> (r: Result<(SimpleBencode, &[u8]), String>)
    ensures
        simple_outcome(r) == spec_simple_dict(rest@, Seq::empty()),
        r matches Ok((_, after)) ==> after@.len() < rest@.len(),
    decreases rest@.len(), 1nat,
{
    let mut cur: &[u8] = rest;
    let mut dict = SimpleDict::new();
    while cur.len() > 0 && cur[0] != 101u8
        invariant
            cur@.len() <= rest@.len(),
            spec_simple_dict(cur@, dict@) == spec_simple_dict(rest@, Seq::empty()),
        decreases cur@.len(),
    {
        match simple_bencode_decode(cur) {
            Ok((key, after_key)) => {
                match key {
                    SimpleBencode::Str(k) => {
                        match simple_bencode_decode(after_key) {
                            Ok((v, after)) => {
                                dict.insert(k, v);
                                cur = after;
                            },
                            Err(e) => {
                                return Err(e);
                            },
                        }
                    },
                    _ => {
                        return Err(String::from_str("dict key not string"));
                    },
                }
            },
            Err(e) => {
                return Err(e);
            },
        }
    }
    if cur.len() == 0 {
        return Err(String::from_str("unterminated dict"));
    }
    Ok((SimpleBencode::Dict(dict), &cur[1..cur.len()]))
}

/// The peers of a list of `{ip, port}` dictionaries: entries that are not
/// dictionaries, lack a byte-string `ip` or an integer `port`, or whose port is
/// outside 0..=65535, are skipped.
pub open spec fn dict_peer(v: Bencode) -> Option<(Seq<u8>, u16)> {
    match v {
        Bencode::Dict(es) => match (dict_lookup(es, seq![105u8, 112u8]), dict_lookup(es, seq![112u8, 111u8, 114u8, 116u8])) {
            (Some(Bencode::Str(ip)), Some(Bencode::Int(p))) => if 0 <= p <= u16::MAX {
                Some((ip, p as u16))
            } else {
                None
            },
            _ => None,
        },
        _ => None,
    }
}

/// The peers the entries give, in order.
pub open spec fn dict_peers(items: Seq<Bencode>) -> Seq<(Seq<u8>, u16)>
    decreases items.len(),
{
    if items.len() == 0 {
        Seq::empty()
    } else {
        match dict_peer(items.last()) {
            Some(p) => dict_peers(items.drop_last()).push(p),
            None => dict_peers(items.drop_last()),
        }
    }
}

/// The peers of a list of `{ip, port}` dictionaries.
pub fn parse_dict_peers(list: &[SimpleBencode]) -> (peers: Vec<(Vec<u8>, u16)>)
    ensures
        peers@.len() == dict_peers(smodel_list(list@)).len(),
        forall|i: int|
            0 <= i < peers@.len() ==> (#[trigger] peers@[i]).0@ == dict_peers(smodel_list(list@))[i].0
                && peers@[i].1 == dict_peers(smodel_list(list@))[i].1,
{
    let ip_key: [u8; 2] = [105u8, 112u8];
    let port_key: [u8; 4] = [112u8, 111u8, 114u8, 116u8];
    assert(ip_key@ =~= seq![105u8, 112u8]);
    assert(port_key@ =~= seq![112u8, 111u8, 114u8, 116u8]);
    proof {
        lemma_smodel_list(list@);
    }
    let mut peers: Vec<(Vec<u8>, u16)> = Vec::new();
    let mut k: usize = 0;
    while k < list.len()
        invariant
            k <= list@.len(),
            ip_key@ == seq![105u8, 112u8],
            port_key@ == seq![112u8, 111u8, 114u8, 116u8],
            smodel_list(list@).len() == list@.len(),
            forall|j: int| 0 <= j < list@.len() ==> #[trigger] smodel_list(list@)[j] == list@[j].model(),
            peers@.len() == dict_peers(smodel_list(list@).take(k as int)).len(),
            forall|i: int|
                0 <= i < peers@.len() ==> (#[trigger] peers@[i]).0@ == dict_peers(
                    smodel_list(list@).take(k as int),
                )[i].0 && peers@[i].1 == dict_peers(smodel_list(list@).take(k as int))[i].1,
        decreases list@.len() - k,
    {
        let ghost m = smodel_list(list@);
        proof {
            assert(m.take(k + 1).drop_last() =~= m.take(k as int));
            assert(m.take(k + 1).last() == list@[k as int].model());
        }
        let entry = &list[k];
        let mut found: Option<(Vec<u8>, u16)> = None;
        if let Some(d) = entry.as_dict() {
            if let (Some(ipv), Some(portv)) = (d.get(&ip_key), d.get(&port_key)) {
                if let (Some(ip), Some(p)) = (ipv.as_str_bytes(), portv.as_int()) {
                    if 0 <= p && p <= 65535 {
                        found = Some((vstd::slice::slice_to_vec(ip), p as u16));
                    }
                }
            }
        }
        match found {
            Some(x) => {
                peers.push(x);
            },
            None => {},
        }
        k += 1;
    }
    proof {
        assert(smodel_list(list@).take(list@.len() as int) =~= smodel_list(list@));
    }
    peers
}

} // verus!
