//! The `.qvs` file: a bencoded dictionary describing a shared file.
use vstd::prelude::*;
use vstd::utf8::{decode_utf8, encode_utf8, valid_utf8};

use crate::bencode::{dict_insert, dict_lookup, enc, spec_decode, Bencode, BencodeDict, BencodeValue};
use crate::error::QvodError;
use crate::strings::{str_from_utf8, string_bytes};
use crate::bencode::lemma_dict_insert_sorted;
use crate::bencode_laws::{lemma_dict_insert_all, lemma_lookup_insert_other, lemma_lookup_insert_same, lemma_roundtrip, wf_value};
use crate::types::InfoHash;

verus! {

broadcast use vstd::std_specs::vec::group_vec_axioms;

/// A `.qvs` file.
#[derive(Debug, Clone)]
pub struct QvsFile {
    pub info_hash: InfoHash,
    pub filename: String,
    pub file_size: u64,
    pub piece_length: u64,
    pub pieces: Vec<[u8; 20]>,
    pub trackers: Vec<String>,
    pub keyframe_index: Option<Vec<u8>>,
}

/// A `.qvs` file as mathematics sees it.
pub struct QvsModel {
    pub info_hash: Seq<u8>,
    pub filename: Seq<char>,
    pub file_size: u64,
    pub piece_length: u64,
    pub pieces: Seq<Seq<u8>>,
    pub trackers: Seq<Seq<char>>,
    pub keyframe_index: Option<Seq<u8>>,
}

impl QvsFile {
    pub open spec fn model(&self) -> QvsModel {
        QvsModel {
            info_hash: self.info_hash.0@,
            filename: self.filename@,
            file_size: self.file_size,
            piece_length: self.piece_length,
            pieces: Seq::new(self.pieces@.len(), |i: int| self.pieces@[i]@),
            trackers: Seq::new(self.trackers@.len(), |i: int| self.trackers@[i]@),
            keyframe_index: match self.keyframe_index {
                Some(k) => Some(k@),
                None => None,
            },
        }
    }
}

/// The bytes of a dictionary key.
pub open spec fn key(k: Seq<char>) -> Seq<u8> {
    encode_utf8(k)
}

/// Pieces one after another.
pub open spec fn flatten(ps: Seq<Seq<u8>>) -> Seq<u8>
    decreases ps.len(),
{
    if ps.len() == 0 {
        Seq::empty()
    } else {
        flatten(ps.drop_last()) + ps.last()
    }
}

/// Bytes cut in 20-byte pieces.
pub open spec fn chunks20(b: Seq<u8>) -> Seq<Seq<u8>> {
    Seq::new(b.len() / 20, |i: int| b.subrange(20 * i, 20 * i + 20))
}

/// Tracker texts as byte strings.
pub open spec fn tracker_values(ts: Seq<Seq<char>>) -> Seq<Bencode> {
    Seq::new(ts.len(), |i: int| Bencode::Str(encode_utf8(ts[i])))
}

/// The dictionary a file is written as.
pub open spec fn qvs_dict(q: QvsModel) -> Seq<(Seq<u8>, Bencode)> {
    let d = dict_insert(Seq::empty(), key("info_hash"@), Bencode::Str(q.info_hash));
    let d = dict_insert(d, key("filename"@), Bencode::Str(encode_utf8(q.filename)));
    let d = dict_insert(d, key("file_size"@), Bencode::Int((q.file_size as i64) as int));
    let d = dict_insert(d, key("piece_length"@), Bencode::Int((q.piece_length as i64) as int));
    let d = dict_insert(d, key("pieces"@), Bencode::Str(flatten(q.pieces)));
    let d = dict_insert(d, key("trackers"@), Bencode::List(tracker_values(q.trackers)));
    match q.keyframe_index {
        Some(k) => dict_insert(d, key("keyframe_index"@), Bencode::Str(k)),
        None => d,
    }
}

/// The texts of the byte strings among `items` that are UTF-8.
pub open spec fn utf8_texts(items: Seq<Bencode>) -> Seq<Seq<char>>
    decreases items.len(),
{
    if items.len() == 0 {
        Seq::empty()
    } else {
        match items.last() {
            Bencode::Str(b) => if valid_utf8(b) {
                utf8_texts(items.drop_last()).push(decode_utf8(b))
            } else {
                utf8_texts(items.drop_last())
            },
            _ => utf8_texts(items.drop_last()),
        }
    }
}

/// Reading a file from its dictionary.
pub open spec fn qvs_from_dict(es: Seq<(Seq<u8>, Bencode)>) -> Result<QvsModel, Seq<char>> {
    match dict_lookup(es, key("info_hash"@)) {
        Some(Bencode::Str(ih)) => if ih.len() != 20 {
            Err("info_hash must be 20 bytes"@)
        } else {
            match dict_lookup(es, key("filename"@)) {
                Some(Bencode::Str(fb)) => if !valid_utf8(fb) {
                    Err("invalid filename utf-8"@)
                } else {
                    match dict_lookup(es, key("file_size"@)) {
                        Some(Bencode::Int(fs)) => match dict_lookup(es, key("piece_length"@)) {
                            Some(Bencode::Int(pl)) => match dict_lookup(es, key("pieces"@)) {
                                Some(Bencode::Str(pb)) => if pb.len() % 20 != 0 {
                                    Err("pieces length not multiple of 20"@)
                                } else {
                                    Ok(
                                        QvsModel {
                                            info_hash: ih,
                                            filename: decode_utf8(fb),
                                            file_size: (fs as i64) as u64,
                                            piece_length: (pl as i64) as u64,
                                            pieces: chunks20(pb),
                                            trackers: match dict_lookup(es, key("trackers"@)) {
                                                Some(Bencode::List(items)) => utf8_texts(items),
                                                _ => Seq::empty(),
                                            },
                                            keyframe_index: match dict_lookup(es, key("keyframe_index"@)) {
                                                Some(Bencode::Str(k)) => Some(k),
                                                _ => None,
                                            },
                                        },
                                    )
                                },
                                _ => Err("missing pieces"@),
                            },
                            _ => Err("missing piece_length"@),
                        },
                        _ => Err("missing file_size"@),
                    }
                },
                _ => Err("missing filename"@),
            }
        },
        _ => Err("missing info_hash"@),
    }
}

/// What reading a `.qvs` file gives.
pub open spec fn spec_decode_qvs(d: Seq<u8>) -> Result<QvsModel, Seq<char>> {
    match spec_decode(d) {
        Err(e) => Err(e),
        Ok((Bencode::Dict(es), _)) => qvs_from_dict(es),
        Ok(_) => Err("expected dict"@),
    }
}

} // verus!

verus! {

/// 20 bytes of `d` from `off`.
fn bytes20_at(d: &[u8], off: usize) -> (a: [u8; 20])
    requires
        off + 20 <= d@.len(),
    ensures
        a@ == d@.subrange(off as int, off + 20),
{
    let mut a = [0u8; 20];
    let mut i: usize = 0;
    assert(d@.len() == d.len());
    while i < 20
        invariant
            i <= 20,
            off + 20 <= d@.len(),
            d@.len() == d.len(),
            forall|k: int| 0 <= k < i ==> a@[k] == d@[off + k],
        decreases 20 - i,
    {
        a[i] = d[off + i];
        i += 1;
    }
    assert(a@ =~= d@.subrange(off as int, off + 20));
    a
}

impl QvsFile {
    /// The file as a bencoded dictionary.
    pub fn encode(&self) -> (r: Result<Vec<u8>, QvodError>)
        ensures
            r matches Ok(b) && b@ == enc(Bencode::Dict(qvs_dict(self.model()))),
            r matches Ok(b) && spec_decode_qvs(b@) == Ok::<QvsModel, Seq<char>>(self.model()),
            r matches Ok(b) && spec_decode(b@) == Ok::<(Bencode, Seq<u8>), Seq<char>>(
                (Bencode::Dict(qvs_dict(self.model())), Seq::empty()),
            ),
    {
        let ghost q = self.model();
        let mut dict = BencodeDict::new();
        dict.insert(string_bytes("info_hash"), BencodeValue::Str(vstd::slice::slice_to_vec(&self.info_hash.0)));
        let name = string_bytes(self.filename.as_str());
        let name_len: usize = name.len();
        assert(encode_utf8(q.filename).len() == name_len);
        dict.insert(string_bytes("filename"), BencodeValue::Str(name));
        dict.insert(string_bytes("file_size"), BencodeValue::Int(self.file_size as i64));
        dict.insert(string_bytes("piece_length"), BencodeValue::Int(self.piece_length as i64));
        let mut concat: Vec<u8> = Vec::new();
        let mut k: usize = 0;
        while k < self.pieces.len()
            invariant
                k <= self.pieces@.len(),
                q == self.model(),
                concat@ == flatten(q.pieces.take(k as int)),
            decreases self.pieces@.len() - k,
        {
            let mut j: usize = 0;
            let ghost before = concat@;
            while j < 20
                invariant
                    j <= 20,
                    k < self.pieces@.len(),
                    concat@ == before + self.pieces@[k as int]@.take(j as int),
                decreases 20 - j,
            {
                concat.push(self.pieces[k][j]);
                proof {
                    assert(self.pieces@[k as int]@.take(j + 1) =~= self.pieces@[k as int]@.take(j as int).push(
                        self.pieces@[k as int]@[j as int],
                    ));
                }
                j += 1;
            }
            proof {
                assert(self.pieces@[k as int]@.take(20) =~= self.pieces@[k as int]@);
                assert(q.pieces.take(k + 1).drop_last() =~= q.pieces.take(k as int));
                assert(q.pieces.take(k + 1).last() == self.pieces@[k as int]@);
            }
            k += 1;
        }
        proof {
            assert(q.pieces.take(self.pieces@.len() as int) =~= q.pieces);
            assert forall|i: int| 0 <= i < q.pieces.len() implies (#[trigger] q.pieces[i]).len() == 20 by {}
            lemma_chunks_flatten(q.pieces);
        }
        let concat_len: usize = concat.len();
        assert(20 * self.pieces@.len() == concat_len);
        dict.insert(string_bytes("pieces"), BencodeValue::Str(concat));
        let mut list: Vec<BencodeValue> = Vec::new();
        let mut t: usize = 0;
        while t < self.trackers.len()
            invariant
                t <= self.trackers@.len(),
                q == self.model(),
                list@.len() == t,
                forall|i: int| 0 <= i < t ==> (#[trigger] list@[i]).model() == tracker_values(q.trackers)[i],
                forall|i: int| 0 <= i < t ==> encode_utf8(#[trigger] self.trackers@[i]@).len() <= usize::MAX,
            decreases self.trackers@.len() - t,
        {
            let text = string_bytes(self.trackers[t].as_str());
            let text_len: usize = text.len();
            assert(encode_utf8(self.trackers@[t as int]@).len() == text_len);
            list.push(BencodeValue::Str(text));
            t += 1;
        }
        proof {
            crate::bencode::lemma_model_list(list@);
            assert(crate::bencode::model_list(list@) =~= tracker_values(q.trackers));
        }
        dict.insert(string_bytes("trackers"), BencodeValue::List(list));
        match &self.keyframe_index {
            Some(kf) => {
                let kf_len: usize = kf.len();
                assert(kf@.len() == kf_len);
                dict.insert(string_bytes("keyframe_index"), BencodeValue::Str(vstd::slice::slice_to_vec(kf.as_slice())));
            },
            None => {},
        }
        proof {
            law_decode_encode(*self);
        }
        let out = BencodeValue::Dict(dict).encode();
        proof {
            assert(out@ + Seq::<u8>::empty() =~= out@);
        }
        Ok(out)
    }
}

} // verus!

verus! {

/// A bencode error with the given text.
fn format_error(msg: &str) -> (e: QvodError)
    ensures
        e matches QvodError::Bencode(m) && m@ == msg@,
{
    QvodError::Bencode(String::from_str(msg))
}

/// The byte-string value under `k`, if there is one.
fn str_field<'a>(d: &'a BencodeDict, k: &str) -> (r: Option<&'a [u8]>)
    ensures
        match dict_lookup(d@, encode_utf8(k@)) {
            Some(Bencode::Str(b)) => r matches Some(x) && x@ == b,
            _ => r is None,
        },
{
    match d.get(k.as_bytes()) {
        Some(v) => v.as_str_bytes(),
        None => None,
    }
}

/// The integer value under `k`, if there is one.
fn int_field(d: &BencodeDict, k: &str) -> (r: Option<i64>)
    ensures
        match dict_lookup(d@, encode_utf8(k@)) {
            Some(Bencode::Int(i)) => r == Some(i as i64),
            _ => r is None,
        },
{
    match d.get(k.as_bytes()) {
        Some(v) => v.as_int(),
        None => None,
    }
}

impl QvsFile {
    /// Reads a `.qvs` file. Trackers that are not UTF-8 text are skipped; a
    /// missing tracker list or key frame index reads as empty.
    pub fn decode(data: &[u8]) -> (r: Result<QvsFile, QvodError>)
        ensures
            match spec_decode_qvs(data@) {
                Ok(m) => r matches Ok(f) && f.model() == m,
                Err(e) => r matches Err(QvodError::Bencode(t)) && t@ == e,
            },
    {
        let (val, _) = match BencodeValue::decode(data) {
            Ok(v) => v,
            Err(e) => {
                return Err(e);
            },
        };
        let dict = match val.as_dict() {
            Some(d) => d,
            None => {
                return Err(format_error("expected dict"));
            },
        };
        let ih = match str_field(dict, "info_hash") {
            Some(b) => b,
            None => {
                return Err(format_error("missing info_hash"));
            },
        };
        if ih.len() != 20 {
            return Err(format_error("info_hash must be 20 bytes"));
        }
        let info_hash = InfoHash(bytes20_at(ih, 0));
        assert(ih@.subrange(0, 20) =~= ih@);
        let fb = match str_field(dict, "filename") {
            Some(b) => b,
            None => {
                return Err(format_error("missing filename"));
            },
        };
        let filename = match str_from_utf8(fb) {
            Some(s) => s.to_owned(),
            None => {
                return Err(format_error("invalid filename utf-8"));
            },
        };
        let file_size = match int_field(dict, "file_size") {
            Some(i) => i as u64,
            None => {
                return Err(format_error("missing file_size"));
            },
        };
        let piece_length = match int_field(dict, "piece_length") {
            Some(i) => i as u64,
            None => {
                return Err(format_error("missing piece_length"));
            },
        };
        let pb = match str_field(dict, "pieces") {
            Some(b) => b,
            None => {
                return Err(format_error("missing pieces"));
            },
        };
        if pb.len() % 20 != 0 {
            return Err(format_error("pieces length not multiple of 20"));
        }
        let mut pieces: Vec<[u8; 20]> = Vec::new();
        let n = pb.len() / 20;
        let mut k: usize = 0;
        assert(pb@.len() == pb.len());
        while k < n
            invariant
                k <= n,
                n == pb@.len() / 20,
                pb@.len() == pb.len(),
                pieces@.len() == k,
                forall|i: int| 0 <= i < k ==> (#[trigger] pieces@[i])@ == chunks20(pb@)[i],
            decreases n - k,
        {
            assert(20 * k + 20 <= pb@.len()) by (nonlinear_arith)
                requires
                    k < n,
                    n == pb@.len() / 20,
            ;
            pieces.push(bytes20_at(pb, 20 * k));
            k += 1;
        }
        let mut trackers: Vec<String> = Vec::new();
        let ghost tv = match dict_lookup(dict@, key("trackers"@)) {
            Some(Bencode::List(items)) => items,
            _ => Seq::empty(),
        };
        match dict.get("trackers".as_bytes()) {
            Some(BencodeValue::List(items)) => {
                proof {
                    crate::bencode::lemma_model_list(items@);
                }
                let mut t: usize = 0;
                while t < items.len()
                    invariant
                        t <= items@.len(),
                        tv == crate::bencode::model_list(items@),
                        tv.len() == items@.len(),
                        forall|i: int| 0 <= i < items@.len() ==> #[trigger] tv[i] == items@[i].model(),
                        trackers@.len() == utf8_texts(tv.take(t as int)).len(),
                        forall|i: int|
                            0 <= i < trackers@.len() ==> (#[trigger] trackers@[i])@ == utf8_texts(
                                tv.take(t as int),
                            )[i],
                    decreases items@.len() - t,
                {
                    proof {
                        assert(tv.take(t + 1).drop_last() =~= tv.take(t as int));
                        assert(tv.take(t + 1).last() == items@[t as int].model());
                    }
                    match &items[t] {
                        BencodeValue::Str(b) => match str_from_utf8(b.as_slice()) {
                            Some(s) => {
                                trackers.push(s.to_owned());
                            },
                            None => {},
                        },
                        _ => {},
                    }
                    t += 1;
                }
                proof {
                    assert(tv.take(items@.len() as int) =~= tv);
                }
            },
            _ => {},
        }
        let keyframe_index = match str_field(dict, "keyframe_index") {
            Some(b) => Some(vstd::slice::slice_to_vec(b)),
            None => None,
        };
        let f = QvsFile { info_hash, filename, file_size, piece_length, pieces, trackers, keyframe_index };
        proof {
            assert(f.model().pieces =~= chunks20(pb@));
            assert(f.model().trackers =~= utf8_texts(tv));
        }
        Ok(f)
    }
}

} // verus!

verus! {

/// Twenty-byte pieces laid end to end cut back into the same pieces.
proof fn lemma_chunks_flatten(ps: Seq<Seq<u8>>)
    requires
        forall|i: int| 0 <= i < ps.len() ==> (#[trigger] ps[i]).len() == 20,
    ensures
        flatten(ps).len() == 20 * ps.len(),
        chunks20(flatten(ps)) == ps,
    decreases ps.len(),
{
    if ps.len() > 0 {
        let p = ps.drop_last();
        lemma_chunks_flatten(p);
        let f = flatten(ps);
        let fp = flatten(p);
        assert((20 * ps.len()) / 20 == ps.len()) by (nonlinear_arith);
        assert((20 * p.len()) / 20 == p.len()) by (nonlinear_arith);
        assert forall|i: int| 0 <= i < ps.len() implies #[trigger] chunks20(f)[i] == ps[i] by {
            if i < p.len() {
                assert(20 * i + 20 <= fp.len()) by (nonlinear_arith)
                    requires
                        i < p.len(),
                        fp.len() == 20 * p.len(),
                ;
                assert(f.subrange(20 * i, 20 * i + 20) =~= fp.subrange(20 * i, 20 * i + 20));
                assert(chunks20(fp)[i] == p[i]);
            } else {
                assert(20 * i == fp.len());
                assert(f.subrange(20 * i, 20 * i + 20) =~= ps.last());
            }
        }
        assert(chunks20(f) =~= ps);
    }
}

/// The texts of tracker byte strings read back as the texts.
proof fn lemma_tracker_texts(ts: Seq<Seq<char>>)
    ensures
        utf8_texts(tracker_values(ts)) == ts,
    decreases ts.len(),
{
    broadcast use vstd::utf8::encode_utf8_valid_utf8, vstd::utf8::encode_utf8_decode_utf8;

    if ts.len() > 0 {
        lemma_tracker_texts(ts.drop_last());
        assert(tracker_values(ts).drop_last() =~= tracker_values(ts.drop_last()));
        assert(ts.drop_last().push(ts.last()) =~= ts);
    }
}

/// An ASCII key is as long in bytes as in characters.
proof fn lemma_ascii_key(k: Seq<char>)
    requires
        vstd::utf8::is_ascii_chars(k),
    ensures
        key(k).len() == k.len(),
{
    vstd::utf8::is_ascii_chars_encode_utf8(k);
}

/// Different texts make different keys.
proof fn lemma_keys_differ(a: Seq<char>, b: Seq<char>)
    requires
        a != b,
    ensures
        key(a) != key(b),
{
    vstd::utf8::encode_utf8_decode_utf8(a);
    vstd::utf8::encode_utf8_decode_utf8(b);
}

/// Writing a file puts each field under its own key: the hash under
/// `info_hash`, the name's UTF-8 bytes under `filename`, the size under
/// `file_size`, the piece length under `piece_length`, the hashes one after
/// another under `pieces`, the trackers under `trackers`, and the key-frame
/// index, when there is one, under `keyframe_index`.
pub proof fn law_encode_writes_fields_by_key(m: QvsModel)
    ensures
        dict_lookup(qvs_dict(m), encode_utf8("info_hash"@)) == Some(Bencode::Str(m.info_hash)),
        dict_lookup(qvs_dict(m), encode_utf8("filename"@)) == Some(Bencode::Str(encode_utf8(m.filename))),
        dict_lookup(qvs_dict(m), encode_utf8("file_size"@)) == Some(Bencode::Int((m.file_size as i64) as int)),
        dict_lookup(qvs_dict(m), encode_utf8("piece_length"@)) == Some(Bencode::Int((m.piece_length as i64) as int)),
        dict_lookup(qvs_dict(m), encode_utf8("pieces"@)) == Some(Bencode::Str(flatten(m.pieces))),
        dict_lookup(qvs_dict(m), encode_utf8("trackers"@)) == Some(Bencode::List(tracker_values(m.trackers))),
        dict_lookup(qvs_dict(m), encode_utf8("keyframe_index"@)) == match m.keyframe_index {
            Some(k) => Some(Bencode::Str(k)),
            None => None::<Bencode>,
        },
{
    reveal_strlit("info_hash");
    reveal_strlit("filename");
    reveal_strlit("file_size");
    reveal_strlit("piece_length");
    reveal_strlit("pieces");
    reveal_strlit("trackers");
    reveal_strlit("keyframe_index");
    let k1 = "info_hash"@;
    let k2 = "filename"@;
    let k3 = "file_size"@;
    let k4 = "piece_length"@;
    let k5 = "pieces"@;
    let k6 = "trackers"@;
    let k7 = "keyframe_index"@;
    assert(k1 != k3) by {
        assert(k1[1] != k3[1]);
    }
    assert(k2 != k6) by {
        assert(k2[0] != k6[0]);
    }
    lemma_keys_differ(k1, k2);
    lemma_keys_differ(k1, k3);
    lemma_keys_differ(k1, k4);
    lemma_keys_differ(k1, k5);
    lemma_keys_differ(k1, k6);
    lemma_keys_differ(k1, k7);
    lemma_keys_differ(k2, k3);
    lemma_keys_differ(k2, k4);
    lemma_keys_differ(k2, k5);
    lemma_keys_differ(k2, k6);
    lemma_keys_differ(k2, k7);
    lemma_keys_differ(k3, k4);
    lemma_keys_differ(k3, k5);
    lemma_keys_differ(k3, k6);
    lemma_keys_differ(k3, k7);
    lemma_keys_differ(k4, k5);
    lemma_keys_differ(k4, k6);
    lemma_keys_differ(k4, k7);
    lemma_keys_differ(k5, k6);
    lemma_keys_differ(k5, k7);
    lemma_keys_differ(k6, k7);
    let v1 = Bencode::Str(m.info_hash);
    let v2 = Bencode::Str(encode_utf8(m.filename));
    let v3 = Bencode::Int((m.file_size as i64) as int);
    let v4 = Bencode::Int((m.piece_length as i64) as int);
    let v5 = Bencode::Str(flatten(m.pieces));
    let v6 = Bencode::List(tracker_values(m.trackers));
    let d0 = Seq::<(Seq<u8>, Bencode)>::empty();
    let d1 = dict_insert(d0, key(k1), v1);
    let d2 = dict_insert(d1, key(k2), v2);
    let d3 = dict_insert(d2, key(k3), v3);
    let d4 = dict_insert(d3, key(k4), v4);
    let d5 = dict_insert(d4, key(k5), v5);
    let d6 = dict_insert(d5, key(k6), v6);
    lemma_lookup_insert_same(d0, key(k1), v1);
    lemma_lookup_insert_same(d1, key(k2), v2);
    lemma_lookup_insert_same(d2, key(k3), v3);
    lemma_lookup_insert_same(d3, key(k4), v4);
    lemma_lookup_insert_same(d4, key(k5), v5);
    lemma_lookup_insert_same(d5, key(k6), v6);
    lemma_lookup_insert_other(d1, key(k2), v2, key(k1));
    lemma_lookup_insert_other(d2, key(k3), v3, key(k1));
    lemma_lookup_insert_other(d2, key(k3), v3, key(k2));
    lemma_lookup_insert_other(d3, key(k4), v4, key(k1));
    lemma_lookup_insert_other(d3, key(k4), v4, key(k2));
    lemma_lookup_insert_other(d3, key(k4), v4, key(k3));
    lemma_lookup_insert_other(d4, key(k5), v5, key(k1));
    lemma_lookup_insert_other(d4, key(k5), v5, key(k2));
    lemma_lookup_insert_other(d4, key(k5), v5, key(k3));
    lemma_lookup_insert_other(d4, key(k5), v5, key(k4));
    lemma_lookup_insert_other(d5, key(k6), v6, key(k1));
    lemma_lookup_insert_other(d5, key(k6), v6, key(k2));
    lemma_lookup_insert_other(d5, key(k6), v6, key(k3));
    lemma_lookup_insert_other(d5, key(k6), v6, key(k4));
    lemma_lookup_insert_other(d5, key(k6), v6, key(k5));
    assert(dict_lookup(d0, key(k7)) is None);
    lemma_lookup_insert_other(d0, key(k1), v1, key(k7));
    lemma_lookup_insert_other(d1, key(k2), v2, key(k7));
    lemma_lookup_insert_other(d2, key(k3), v3, key(k7));
    lemma_lookup_insert_other(d3, key(k4), v4, key(k7));
    lemma_lookup_insert_other(d4, key(k5), v5, key(k7));
    lemma_lookup_insert_other(d5, key(k6), v6, key(k7));
    match m.keyframe_index {
        Some(kf) => {
            let v7 = Bencode::Str(kf);
            lemma_lookup_insert_same(d6, key(k7), v7);
            lemma_lookup_insert_other(d6, key(k7), v7, key(k1));
            lemma_lookup_insert_other(d6, key(k7), v7, key(k2));
            lemma_lookup_insert_other(d6, key(k7), v7, key(k3));
            lemma_lookup_insert_other(d6, key(k7), v7, key(k4));
            lemma_lookup_insert_other(d6, key(k7), v7, key(k5));
            lemma_lookup_insert_other(d6, key(k7), v7, key(k6));
        },
        None => {},
    }
}

/// Reading a file takes each field from its own key: when the bytes read as a
/// file, they hold a dictionary whose `info_hash` entry is the hash, whose
/// `filename` entry is the UTF-8 of the name, whose `file_size` and
/// `piece_length` entries are the integers that give the size and the piece
/// length, and whose `pieces` entry is the hashes one after another.
pub proof fn law_decode_reads_fields_by_key(data: Seq<u8>)
    requires
        spec_decode_qvs(data) is Ok,
    ensures
        spec_decode(data) matches Ok((Bencode::Dict(es), _)) && {
            let q = spec_decode_qvs(data)->Ok_0;
            &&& dict_lookup(es, encode_utf8("info_hash"@)) == Some(Bencode::Str(q.info_hash))
            &&& dict_lookup(es, encode_utf8("filename"@)) matches Some(Bencode::Str(fb)) && valid_utf8(fb)
                && q.filename == decode_utf8(fb)
            &&& dict_lookup(es, encode_utf8("file_size"@)) matches Some(Bencode::Int(fs)) && q.file_size == (fs as i64) as u64
            &&& dict_lookup(es, encode_utf8("piece_length"@)) matches Some(Bencode::Int(pl)) && q.piece_length == (pl as i64) as u64
            &&& dict_lookup(es, encode_utf8("pieces"@)) matches Some(Bencode::Str(pb)) && pb.len() % 20 == 0
                && q.pieces == chunks20(pb)
        },
{
}

/// Reading back what `encode` writes gives the file back, for files whose
/// texts and byte strings fit in memory.
pub proof fn law_decode_encode(q: QvsFile)
    requires
        encode_utf8(q.filename@).len() <= usize::MAX,
        20 * q.pieces@.len() <= usize::MAX,
        forall|i: int| 0 <= i < q.trackers@.len() ==> encode_utf8(#[trigger] q.trackers@[i]@).len() <= usize::MAX,
        q.keyframe_index matches Some(k) ==> k@.len() <= usize::MAX,
    ensures
        spec_decode_qvs(enc(Bencode::Dict(qvs_dict(q.model())))) == Ok::<QvsModel, Seq<char>>(q.model()),
{
    broadcast use vstd::utf8::encode_utf8_valid_utf8, vstd::utf8::encode_utf8_decode_utf8;

    let m = q.model();
    reveal_strlit("info_hash");
    reveal_strlit("filename");
    reveal_strlit("file_size");
    reveal_strlit("piece_length");
    reveal_strlit("pieces");
    reveal_strlit("trackers");
    reveal_strlit("keyframe_index");
    let k1 = "info_hash"@;
    let k2 = "filename"@;
    let k3 = "file_size"@;
    let k4 = "piece_length"@;
    let k5 = "pieces"@;
    let k6 = "trackers"@;
    let k7 = "keyframe_index"@;
    lemma_ascii_key(k1);
    lemma_ascii_key(k2);
    lemma_ascii_key(k3);
    lemma_ascii_key(k4);
    lemma_ascii_key(k5);
    lemma_ascii_key(k6);
    lemma_ascii_key(k7);
    assert(k1 != k3) by {
        assert(k1[1] != k3[1]);
    }
    assert(k2 != k6) by {
        assert(k2[0] != k6[0]);
    }
    lemma_keys_differ(k1, k2);
    lemma_keys_differ(k1, k3);
    lemma_keys_differ(k1, k4);
    lemma_keys_differ(k1, k5);
    lemma_keys_differ(k1, k6);
    lemma_keys_differ(k1, k7);
    lemma_keys_differ(k2, k3);
    lemma_keys_differ(k2, k4);
    lemma_keys_differ(k2, k5);
    lemma_keys_differ(k2, k6);
    lemma_keys_differ(k2, k7);
    lemma_keys_differ(k3, k4);
    lemma_keys_differ(k3, k5);
    lemma_keys_differ(k3, k6);
    lemma_keys_differ(k3, k7);
    lemma_keys_differ(k4, k5);
    lemma_keys_differ(k4, k6);
    lemma_keys_differ(k4, k7);
    lemma_keys_differ(k5, k6);
    lemma_keys_differ(k5, k7);
    lemma_keys_differ(k6, k7);
    let v1 = Bencode::Str(m.info_hash);
    let v2 = Bencode::Str(encode_utf8(m.filename));
    let v3 = Bencode::Int((m.file_size as i64) as int);
    let v4 = Bencode::Int((m.piece_length as i64) as int);
    let v5 = Bencode::Str(flatten(m.pieces));
    let v6 = Bencode::List(tracker_values(m.trackers));
    let d0 = Seq::<(Seq<u8>, Bencode)>::empty();
    let d1 = dict_insert(d0, key(k1), v1);
    let d2 = dict_insert(d1, key(k2), v2);
    let d3 = dict_insert(d2, key(k3), v3);
    let d4 = dict_insert(d3, key(k4), v4);
    let d5 = dict_insert(d4, key(k5), v5);
    let d6 = dict_insert(d5, key(k6), v6);
    let d = qvs_dict(m);
    // The dictionary is one the encoding carries.
    assert forall|i: int| 0 <= i < m.pieces.len() implies (#[trigger] m.pieces[i]).len() == 20 by {
    }
    lemma_chunks_flatten(m.pieces);
    let p = |e: (Seq<u8>, Bencode)| e.0.len() <= usize::MAX && wf_value(e.1);
    assert(p((key(k1), v1)));
    assert(p((key(k2), v2)));
    assert(p((key(k3), v3)));
    assert(p((key(k4), v4)));
    assert(p((key(k5), v5)));
    assert(p((key(k6), v6))) by {
        assert forall|i: int| 0 <= i < tracker_values(m.trackers).len() implies wf_value(
            #[trigger] tracker_values(m.trackers)[i],
        ) by {
            assert(m.trackers[i] == q.trackers@[i]@);
        }
    }
    lemma_dict_insert_all(d0, key(k1), v1, p);
    lemma_dict_insert_all(d1, key(k2), v2, p);
    lemma_dict_insert_all(d2, key(k3), v3, p);
    lemma_dict_insert_all(d3, key(k4), v4, p);
    lemma_dict_insert_all(d4, key(k5), v5, p);
    lemma_dict_insert_all(d5, key(k6), v6, p);
    lemma_dict_insert_sorted(d0, key(k1), v1);
    lemma_dict_insert_sorted(d1, key(k2), v2);
    lemma_dict_insert_sorted(d2, key(k3), v3);
    lemma_dict_insert_sorted(d3, key(k4), v4);
    lemma_dict_insert_sorted(d4, key(k5), v5);
    lemma_dict_insert_sorted(d5, key(k6), v6);
    match m.keyframe_index {
        Some(kf) => {
            let v7 = Bencode::Str(kf);
            assert(p((key(k7), v7)));
            lemma_dict_insert_all(d6, key(k7), v7, p);
            lemma_dict_insert_sorted(d6, key(k7), v7);
        },
        None => {},
    }
    assert forall|i: int| 0 <= i < d.len() implies (#[trigger] d[i]).0.len() <= usize::MAX && wf_value(d[i].1) by {
        assert(p(d[i]));
    }
    assert(wf_value(Bencode::Dict(d)));
    lemma_roundtrip(Bencode::Dict(d), Seq::empty());
    assert(enc(Bencode::Dict(d)) + Seq::<u8>::empty() =~= enc(Bencode::Dict(d)));
    // Each field is found under its key.
    lemma_lookup_insert_same(d0, key(k1), v1);
    lemma_lookup_insert_same(d1, key(k2), v2);
    lemma_lookup_insert_same(d2, key(k3), v3);
    lemma_lookup_insert_same(d3, key(k4), v4);
    lemma_lookup_insert_same(d4, key(k5), v5);
    lemma_lookup_insert_same(d5, key(k6), v6);
    lemma_lookup_insert_other(d1, key(k2), v2, key(k1));
    lemma_lookup_insert_other(d2, key(k3), v3, key(k1));
    lemma_lookup_insert_other(d2, key(k3), v3, key(k2));
    lemma_lookup_insert_other(d3, key(k4), v4, key(k1));
    lemma_lookup_insert_other(d3, key(k4), v4, key(k2));
    lemma_lookup_insert_other(d3, key(k4), v4, key(k3));
    lemma_lookup_insert_other(d4, key(k5), v5, key(k1));
    lemma_lookup_insert_other(d4, key(k5), v5, key(k2));
    lemma_lookup_insert_other(d4, key(k5), v5, key(k3));
    lemma_lookup_insert_other(d4, key(k5), v5, key(k4));
    lemma_lookup_insert_other(d5, key(k6), v6, key(k1));
    lemma_lookup_insert_other(d5, key(k6), v6, key(k2));
    lemma_lookup_insert_other(d5, key(k6), v6, key(k3));
    lemma_lookup_insert_other(d5, key(k6), v6, key(k4));
    lemma_lookup_insert_other(d5, key(k6), v6, key(k5));
    assert(dict_lookup(d0, key(k7)) is None);
    lemma_lookup_insert_other(d0, key(k1), v1, key(k7));
    lemma_lookup_insert_other(d1, key(k2), v2, key(k7));
    lemma_lookup_insert_other(d2, key(k3), v3, key(k7));
    lemma_lookup_insert_other(d3, key(k4), v4, key(k7));
    lemma_lookup_insert_other(d4, key(k5), v5, key(k7));
    lemma_lookup_insert_other(d5, key(k6), v6, key(k7));
    match m.keyframe_index {
        Some(kf) => {
            let v7 = Bencode::Str(kf);
            lemma_lookup_insert_same(d6, key(k7), v7);
            lemma_lookup_insert_other(d6, key(k7), v7, key(k1));
            lemma_lookup_insert_other(d6, key(k7), v7, key(k2));
            lemma_lookup_insert_other(d6, key(k7), v7, key(k3));
            lemma_lookup_insert_other(d6, key(k7), v7, key(k4));
            lemma_lookup_insert_other(d6, key(k7), v7, key(k5));
            lemma_lookup_insert_other(d6, key(k7), v7, key(k6));
        },
        None => {},
    }
    // And reads back as it was written.
    let x = q.file_size;
    let y = q.piece_length;
    assert((x as i64) as u64 == x) by (bit_vector);
    assert((y as i64) as u64 == y) by (bit_vector);
    lemma_tracker_texts(m.trackers);
    assert(20 * m.pieces.len() % 20 == 0) by (nonlinear_arith);
}

} // verus!
