//! Media links: `qvod://` links, web addresses and local files.
use vstd::prelude::*;
use vstd::utf8::encode_utf8;

use crate::error::QvodError;
use crate::seqs::{after_last, chars_start_with, lemma_split_concat, lemma_split_none, lemma_split_nonempty, split_on, split_ranges, starts_with, str_chars};
use crate::strings::{all_ascii, ascii_chars, decimal_string, lemma_ascii_boundaries, lemma_ascii_utf8, push_str};
use crate::text::{dec_nat, hex_digit, hex_lower, is_digit, lemma_dec_nat_digits, lemma_decode_hex_lower, lemma_hex_lower_ascii, lemma_parse_dec_nat, parse_u64_bytes, parse_unsigned};
use crate::types::{hex_cuts_on_boundaries, hex_cuts_on_boundaries_exec, lemma_boundaries_give_cuts, parse_info_hash_spec, InfoHash};
use crate::util::{sha1_hash, sha1_of};

verus! {

broadcast use vstd::utf8::encode_utf8_valid_utf8;

/// A `qvod://` link as mathematics sees it.
pub struct QvodUriModel {
    pub info_hash: Seq<u8>,
    pub filename: Seq<char>,
    pub filesize: u64,
    pub format: Seq<char>,
}

/// A `qvod://` link: `qvod://<hash>|<file name>|<size>|<format>|`.
#[derive(Debug, Clone)]
pub struct QvodUri {
    pub info_hash: InfoHash,
    pub filename: String,
    pub filesize: u64,
    pub format: String,
}

impl QvodUri {
    pub open spec fn model(&self) -> QvodUriModel {
        QvodUriModel {
            info_hash: self.info_hash.0@,
            filename: self.filename@,
            filesize: self.filesize,
            format: self.format@,
        }
    }

    /// A link from its four fields.
    pub fn new(info_hash: InfoHash, filename: String, filesize: u64, format: String) -> (u: QvodUri)
        ensures
            u.info_hash == info_hash,
            u.filename == filename,
            u.filesize == filesize,
            u.format == format,
    {
        QvodUri { info_hash, filename, filesize, format }
    }
}

/// What follows the `qvod://` (or bare `qvod:`) prefix.
pub open spec fn qvod_body(s: Seq<char>) -> Option<Seq<char>> {
    if starts_with(s, "qvod://"@) {
        Some(s.skip("qvod://"@.len() as int))
    } else if starts_with(s, "qvod:"@) {
        Some(s.skip("qvod:"@.len() as int))
    } else {
        None
    }
}

/// The pipe-separated fields of a link whose body ends with a pipe.
pub open spec fn qvod_fields(body: Seq<char>) -> Seq<Seq<char>> {
    split_on(body.drop_last(), '|')
}

/// The hash field, where parsing reaches it, can be cut in two-byte pieces,
/// up to the first that is not a pair of hexadecimal digits, without splitting
/// a character.
pub open spec fn qvod_hash_splittable(s: Seq<char>) -> bool {
    match qvod_body(s) {
        Some(body) => (body.len() > 0 && body.last() == '|' && qvod_fields(body).len() >= 4
            && encode_utf8(qvod_fields(body)[0]).len() == 40) ==> hex_cuts_on_boundaries(
            encode_utf8(qvod_fields(body)[0]),
            0,
        ),
        None => true,
    }
}

/// What parsing a `qvod://` link gives: its fields, or the reason it is refused.
pub open spec fn spec_parse_qvod(s: Seq<char>) -> Result<QvodUriModel, Seq<char>> {
    match qvod_body(s) {
        None => Err("missing qvod:// prefix"@),
        Some(body) => if body.len() == 0 || body.last() != '|' {
            Err("URI must end with trailing pipe '|'"@)
        } else {
            let parts = qvod_fields(body);
            if parts.len() < 4 {
                Err("expected at least 4 pipe-delimited parts, got "@ + ascii_chars(dec_nat(parts.len())))
            } else if encode_utf8(parts[0]).len() != 40 {
                Err("info_hash must be 40 hex chars, got "@ + ascii_chars(
                    dec_nat(encode_utf8(parts[0]).len()),
                ))
            } else {
                match parse_info_hash_spec(encode_utf8(parts[0])) {
                    Err(m) => Err(m),
                    Ok(h) => if parts[1].len() == 0 {
                        Err("filename cannot be empty"@)
                    } else {
                        match parse_unsigned(encode_utf8(parts[2]), u64::MAX as nat) {
                            Err(e) => Err("invalid filesize: "@ + e.spec_message()),
                            Ok(n) => if parts[3].len() == 0 {
                                Err("format cannot be empty"@)
                            } else {
                                Ok(
                                    QvodUriModel {
                                        info_hash: h,
                                        filename: parts[1],
                                        filesize: n as u64,
                                        format: parts[3],
                                    },
                                )
                            },
                        }
                    },
                }
            }
        },
    }
}

/// The text of a link: `qvod://`, then hash, file name, size and format, each followed by a pipe.
pub open spec fn qvod_text(m: QvodUriModel) -> Seq<char> {
    "qvod://"@ + ascii_chars(hex_lower(m.info_hash)) + "|"@ + m.filename + "|"@ + ascii_chars(
        dec_nat(m.filesize as nat),
    ) + "|"@ + m.format + "|"@
}

/// An `InvalidUri` error with the given text.
fn invalid_uri(msg: &str) -> (e: QvodError)
    ensures
        e matches QvodError::InvalidUri(m) && m@ == msg@,
{
    QvodError::InvalidUri(String::from_str(msg))
}

/// An `InvalidUri` error whose text is `prefix` then `detail`.
fn invalid_uri_with(prefix: &str, detail: &str) -> (e: QvodError)
    ensures
        e matches QvodError::InvalidUri(m) && m@ == prefix@ + detail@,
{
    let mut m = String::from_str(prefix);
    push_str(&mut m, detail);
    QvodError::InvalidUri(m)
}

/// The length of the `qvod://` or `qvod:` prefix of `cs`, if it has one.
fn qvod_prefix_len(cs: &[char]) -> (r: Option<usize>)
    ensures
        match qvod_body(cs@) {
            Some(b) => r matches Some(n) && n <= cs@.len() && b == cs@.skip(n as int),
            None => r is None,
        },
{
    let p1 = str_chars("qvod://");
    if chars_start_with(cs, p1.as_slice()) {
        return Some(p1.len());
    }
    let p2 = str_chars("qvod:");
    if chars_start_with(cs, p2.as_slice()) {
        return Some(p2.len());
    }
    None
}

/// Where the fields of a link lie in its characters, if it has the prefix and
/// the closing pipe.
fn qvod_field_ranges(cs: &[char]) -> (r: Result<Vec<(usize, usize)>, QvodError>)
    ensures
        match qvod_body(cs@) {
            None => r matches Err(QvodError::InvalidUri(m)) && m@ == "missing qvod:// prefix"@,
            Some(body) => if body.len() == 0 || body.last() != '|' {
                r matches Err(QvodError::InvalidUri(m)) && m@ == "URI must end with trailing pipe '|'"@
            } else {
                r matches Ok(v) && v@.len() == qvod_fields(body).len() && forall|k: int|
                    0 <= k < v@.len() ==> (#[trigger] v@[k]).0 <= v@[k].1 <= cs@.len() && cs@.subrange(
                        v@[k].0 as int,
                        v@[k].1 as int,
                    ) == qvod_fields(body)[k]
            },
        },
{
    let start = match qvod_prefix_len(cs) {
        Some(n) => n,
        None => {
            return Err(invalid_uri("missing qvod:// prefix"));
        },
    };
    if cs.len() == start || cs[cs.len() - 1] != '|' {
        return Err(invalid_uri("URI must end with trailing pipe '|'"));
    }
    let end = cs.len() - 1;
    proof {
        let body = cs@.skip(start as int);
        assert(body.drop_last() =~= cs@.subrange(start as int, end as int));
    }
    Ok(split_ranges(cs, start, end, '|'))
}

impl QvodUri {
    /// Parses `qvod://<hash>|<file name>|<size>|<format>|`; fields after the
    /// fourth are ignored.
    pub fn parse(s: &str) -> (r: Result<QvodUri, QvodError>)
        requires
            qvod_hash_splittable(s@),
        ensures
            match spec_parse_qvod(s@) {
                Ok(m) => r matches Ok(u) && u.model() == m,
                Err(e) => r matches Err(QvodError::InvalidUri(t)) && t@ == e,
            },
    {
        let cs = str_chars(s);
        let parts = match qvod_field_ranges(cs.as_slice()) {
            Ok(p) => p,
            Err(e) => {
                return Err(e);
            },
        };
        let ghost body = qvod_body(s@)->0;
        let ghost fields = qvod_fields(body);
        if parts.len() < 4 {
            let n = decimal_string(parts.len() as u64);
            return Err(invalid_uri_with("expected at least 4 pipe-delimited parts, got ", n.as_str()));
        }
        let hash_text = s.substring_char(parts[0].0, parts[0].1);
        assert(hash_text@ == fields[0]);
        let hash_len = hash_text.as_bytes().len();
        if hash_len != 40 {
            let n = decimal_string(hash_len as u64);
            return Err(invalid_uri_with("info_hash must be 40 hex chars, got ", n.as_str()));
        }
        let info_hash = match InfoHash::from_str(hash_text) {
            Ok(h) => h,
            Err(e) => {
                return Err(e);
            },
        };
        if parts[1].0 == parts[1].1 {
            return Err(invalid_uri("filename cannot be empty"));
        }
        let filename = String::from_str(s.substring_char(parts[1].0, parts[1].1));
        let size_text = s.substring_char(parts[2].0, parts[2].1);
        let filesize = match parse_u64_bytes(size_text.as_bytes()) {
            Ok(n) => n,
            Err(e) => {
                let msg = e.message();
                return Err(invalid_uri_with("invalid filesize: ", msg.as_str()));
            },
        };
        if parts[3].0 == parts[3].1 {
            return Err(invalid_uri("format cannot be empty"));
        }
        let format = String::from_str(s.substring_char(parts[3].0, parts[3].1));
        Ok(QvodUri { info_hash, filename, filesize, format })
    }

    /// Whether `parse` can take `s`: the hash field, where parsing reaches it,
    /// cuts into two-byte pieces, up to the first that is not a pair of
    /// hexadecimal digits, without splitting a character.
    pub fn hash_splittable(s: &str) -> (r: bool)
        ensures
            r == qvod_hash_splittable(s@),
    {
        let cs = str_chars(s);
        let parts = match qvod_field_ranges(cs.as_slice()) {
            Ok(p) => p,
            Err(_) => {
                return true;
            },
        };
        if parts.len() < 4 {
            return true;
        }
        let hash_text = s.substring_char(parts[0].0, parts[0].1);
        assert(hash_text@ == qvod_fields(qvod_body(s@)->0)[0]);
        if hash_text.as_bytes().len() != 40 {
            return true;
        }
        hex_cuts_on_boundaries_exec(hash_text.as_bytes())
    }

    /// The text of the link.
    pub fn to_string(&self) -> (s: String)
        ensures
            s@ == qvod_text(self.model()),
    {
        let mut out = String::from_str("qvod://");
        let hex = self.info_hash.to_hex();
        push_str(&mut out, hex.as_str());
        push_str(&mut out, "|");
        push_str(&mut out, self.filename.as_str());
        push_str(&mut out, "|");
        let size = decimal_string(self.filesize);
        push_str(&mut out, size.as_str());
        push_str(&mut out, "|");
        push_str(&mut out, self.format.as_str());
        push_str(&mut out, "|");
        out
    }
}

impl core::str::FromStr for QvodUri {
    type Err = QvodError;

    /// `parse`, where it can take the text; otherwise the hash is refused as
    /// having an invalid digit.
    fn from_str(s: &str) -> (r: Result<QvodUri, QvodError>)
        ensures
            qvod_hash_splittable(s@) ==> match spec_parse_qvod(s@) {
                Ok(m) => r matches Ok(u) && u.model() == m,
                Err(e) => r matches Err(QvodError::InvalidUri(t)) && t@ == e,
            },
            !qvod_hash_splittable(s@) ==> (r matches Err(QvodError::InvalidUri(t)) && t@
                == "hex decode: invalid digit found in string"@),
    {
        if QvodUri::hash_splittable(s) {
            QvodUri::parse(s)
        } else {
            Err(invalid_uri("hex decode: invalid digit found in string"))
        }
    }
}

} // verus!

verus! {

/// A web address and the file name taken from it.
#[derive(Debug, Clone)]
pub struct HttpUrl {
    pub url: String,
    pub filename: String,
}

/// Where a media stream comes from.
#[derive(Debug, Clone)]
pub enum MediaUri {
    Qvod(QvodUri),
    Http(HttpUrl),
    /// Local file path (`file://` scheme or bare absolute path).
    File(String),
}

/// A media link as mathematics sees it.
pub enum MediaUriModel {
    Qvod(QvodUriModel),
    Http(Seq<char>, Seq<char>),
    File(Seq<char>),
}

/// An ASCII letter.
pub open spec fn is_ascii_letter(c: char) -> bool {
    ('a' <= c && c <= 'z') || ('A' <= c && c <= 'Z')
}

/// An absolute path: `/...`, `\\...`, or a drive letter, a colon and a slash of either kind.
pub open spec fn is_abs_path(s: Seq<char>) -> bool {
    ||| starts_with(s, "/"@)
    ||| starts_with(s, "\\\\"@)
    ||| (s.len() >= 3 && is_ascii_letter(s[0]) && s[1] == ':' && (s[2] == '\\' || s[2] == '/'))
}

/// What parsing a media link gives.
pub open spec fn spec_parse_media(s: Seq<char>) -> Result<MediaUriModel, Seq<char>> {
    if qvod_body(s) is Some {
        match spec_parse_qvod(s) {
            Ok(m) => Ok(MediaUriModel::Qvod(m)),
            Err(e) => Err(e),
        }
    } else if starts_with(s, "http://"@) || starts_with(s, "https://"@) {
        let last = after_last(s, '/');
        Ok(MediaUriModel::Http(s, if last.len() == 0 { "stream"@ } else { last }))
    } else if starts_with(s, "file://"@) {
        Ok(MediaUriModel::File(s.skip("file://"@.len() as int)))
    } else if is_abs_path(s) {
        Ok(MediaUriModel::File(s))
    } else {
        Err("unsupported URI scheme (expected qvod://, http(s)://, file://, or a local file path)"@)
    }
}

/// The file name shown for a link.
pub open spec fn media_filename(m: MediaUriModel) -> Seq<char> {
    match m {
        MediaUriModel::Qvod(u) => u.filename,
        MediaUriModel::Http(_, f) => f,
        MediaUriModel::File(p) => after_last(after_last(p, '/'), '\\'),
    }
}

/// The text of a link.
pub open spec fn media_text(m: MediaUriModel) -> Seq<char> {
    match m {
        MediaUriModel::Qvod(u) => qvod_text(u),
        MediaUriModel::Http(url, _) => url,
        MediaUriModel::File(p) => "file://"@ + p,
    }
}

impl MediaUri {
    pub open spec fn model(&self) -> MediaUriModel {
        match self {
            MediaUri::Qvod(u) => MediaUriModel::Qvod(u.model()),
            MediaUri::Http(h) => MediaUriModel::Http(h.url@, h.filename@),
            MediaUri::File(p) => MediaUriModel::File(p@),
        }
    }

    /// Parses a `qvod://` link, an `http(s)://` address, a `file://` address or
    /// an absolute path.
    pub fn parse(s: &str) -> (r: Result<MediaUri, QvodError>)
        requires
            qvod_hash_splittable(s@),
        ensures
            match spec_parse_media(s@) {
                Ok(m) => r matches Ok(u) && u.model() == m,
                Err(e) => r matches Err(QvodError::InvalidUri(t)) && t@ == e,
            },
    {
        let cs = str_chars(s);
        if qvod_prefix_len(cs.as_slice()).is_some() {
            return match QvodUri::parse(s) {
                Ok(u) => Ok(MediaUri::Qvod(u)),
                Err(e) => Err(e),
            };
        }
        let http = str_chars("http://");
        let https = str_chars("https://");
        if chars_start_with(cs.as_slice(), http.as_slice()) || chars_start_with(
            cs.as_slice(),
            https.as_slice(),
        ) {
            let ranges = split_ranges(cs.as_slice(), 0, cs.len(), '/');
            proof {
                assert(cs@.subrange(0, cs@.len() as int) =~= cs@);
                lemma_split_nonempty(cs@, '/');
            }
            let (a, b) = ranges[ranges.len() - 1];
            let filename = if a == b {
                String::from_str("stream")
            } else {
                String::from_str(s.substring_char(a, b))
            };
            return Ok(MediaUri::Http(HttpUrl { url: String::from_str(s), filename }));
        }
        let file = str_chars("file://");
        if chars_start_with(cs.as_slice(), file.as_slice()) {
            let path = String::from_str(s.substring_char(file.len(), cs.len()));
            proof {
                assert(s@.subrange(file@.len() as int, s@.len() as int) =~= s@.skip(file@.len() as int));
            }
            return Ok(MediaUri::File(path));
        }
        if is_abs_path_chars(cs.as_slice()) {
            return Ok(MediaUri::File(String::from_str(s)));
        }
        Err(
            invalid_uri(
                "unsupported URI scheme (expected qvod://, http(s)://, file://, or a local file path)",
            ),
        )
    }

    /// The file name: the link's own for `qvod://`, the last path piece for web
    /// addresses (or `stream`), and what follows the last slash of either kind
    /// for files.
    pub fn filename(&self) -> (f: &str)
        ensures
            f@ == media_filename(self.model()),
    {
        match self {
            MediaUri::Qvod(u) => u.filename.as_str(),
            MediaUri::Http(h) => h.filename.as_str(),
            MediaUri::File(path) => {
                let p = path.as_str();
                let cs = str_chars(p);
                let ranges = split_ranges(cs.as_slice(), 0, cs.len(), '/');
                proof {
                    assert(cs@.subrange(0, cs@.len() as int) =~= cs@);
                    lemma_split_nonempty(cs@, '/');
                }
                let (a, b) = ranges[ranges.len() - 1];
                let inner = split_ranges(cs.as_slice(), a, b, '\\');
                proof {
                    lemma_split_nonempty(cs@.subrange(a as int, b as int), '\\');
                }
                let (c, d) = inner[inner.len() - 1];
                p.substring_char(c, d)
            },
        }
    }

    /// The size the link announces; 0 for web addresses and files.
    pub fn filesize(&self) -> (n: u64)
        ensures
            n == (match self {
                MediaUri::Qvod(u) => u.filesize,
                _ => 0u64,
            }),
    {
        match self {
            MediaUri::Qvod(u) => u.filesize,
            _ => 0,
        }
    }

    /// The hash that names the stream: the link's own, or the SHA-1 of the
    /// address or path text.
    pub fn info_hash(&self) -> (h: InfoHash)
        ensures
            match self {
                MediaUri::Qvod(u) => h == u.info_hash,
                MediaUri::Http(x) => h.0@ == sha1_of(encode_utf8(x.url@)),
                MediaUri::File(p) => h.0@ == sha1_of(encode_utf8(p@)),
            },
    {
        match self {
            MediaUri::Qvod(u) => u.info_hash,
            MediaUri::Http(x) => InfoHash(sha1_hash(x.url.as_str().as_bytes())),
            MediaUri::File(p) => InfoHash(sha1_hash(p.as_str().as_bytes())),
        }
    }

    /// The text of the link.
    pub fn to_string(&self) -> (s: String)
        ensures
            s@ == media_text(self.model()),
    {
        match self {
            MediaUri::Qvod(u) => u.to_string(),
            MediaUri::Http(h) => String::from_str(h.url.as_str()),
            MediaUri::File(p) => {
                let mut out = String::from_str("file://");
                push_str(&mut out, p.as_str());
                out
            },
        }
    }
}

/// Whether the characters form an absolute path.
fn is_abs_path_chars(cs: &[char]) -> (r: bool)
    ensures
        r == is_abs_path(cs@),
{
    let slash = str_chars("/");
    let unc = str_chars("\\\\");
    if chars_start_with(cs, slash.as_slice()) || chars_start_with(cs, unc.as_slice()) {
        return true;
    }
    cs.len() >= 3 && (('a' <= cs[0] && cs[0] <= 'z') || ('A' <= cs[0] && cs[0] <= 'Z')) && cs[1]
        == ':' && (cs[2] == '\\' || cs[2] == '/')
}

impl core::str::FromStr for MediaUri {
    type Err = QvodError;

    /// `parse`, where it can take the text; otherwise the hash is refused as
    /// having an invalid digit.
    fn from_str(s: &str) -> (r: Result<MediaUri, QvodError>)
        ensures
            qvod_hash_splittable(s@) ==> match spec_parse_media(s@) {
                Ok(m) => r matches Ok(u) && u.model() == m,
                Err(e) => r matches Err(QvodError::InvalidUri(t)) && t@ == e,
            },
            !qvod_hash_splittable(s@) ==> (r matches Err(QvodError::InvalidUri(t)) && t@
                == "hex decode: invalid digit found in string"@),
    {
        if QvodUri::hash_splittable(s) {
            MediaUri::parse(s)
        } else {
            Err(invalid_uri("hex decode: invalid digit found in string"))
        }
    }
}

} // verus!

verus! {

/// The characters contain no pipe.
pub open spec fn pipe_free(s: Seq<char>) -> bool {
    forall|i: int| 0 <= i < s.len() ==> s[i] != '|'
}

/// Reading back the text of a link gives the link, when its hash has 20 bytes
/// and its file name and format are not empty and hold no pipe; and that text
/// is one that `QvodUri::parse` takes.
pub proof fn law_qvod_text_parses_back(u: QvodUri)
    requires
        u.filename@.len() > 0,
        u.format@.len() > 0,
        pipe_free(u.filename@),
        pipe_free(u.format@),
    ensures
        spec_parse_qvod(qvod_text(u.model())) == Ok::<QvodUriModel, Seq<char>>(u.model()),
        qvod_hash_splittable(qvod_text(u.model())),
{
    let m = u.model();
    let t = qvod_text(m);
    reveal_strlit("qvod://");
    reveal_strlit("qvod:");
    reveal_strlit("|");
    let hb = hex_lower(m.info_hash);
    let h = ascii_chars(hb);
    let d = ascii_chars(dec_nat(m.filesize as nat));
    lemma_hex_lower_ascii(m.info_hash);
    lemma_dec_nat_digits(m.filesize as nat);
    let p = "qvod://"@;
    let bar = seq!['|'];
    assert("|"@ =~= bar);
    assert(t =~= p + (h + bar + m.filename + bar + d + bar + m.format + bar));
    assert(t.take(p.len() as int) =~= p);
    let body = t.skip(p.len() as int);
    assert(body =~= h + bar + m.filename + bar + d + bar + m.format + bar);
    assert(body.drop_last() =~= h + bar + (m.filename + bar + (d + bar + m.format)));
    assert forall|i: int| 0 <= i < h.len() implies h[i] != '|' by {
        assert(hb[i] < 128);
        assert(hb[i] == hex_digit((m.info_hash[i / 2] / 16) as int) || hb[i] == hex_digit((m.info_hash[i / 2] % 16) as int));
    }
    assert forall|i: int| 0 <= i < d.len() implies d[i] != '|' by {
        assert(is_digit(dec_nat(m.filesize as nat)[i]));
    }
    lemma_split_concat(h, '|', m.filename + bar + (d + bar + m.format));
    lemma_split_concat(m.filename, '|', d + bar + m.format);
    lemma_split_concat(d, '|', m.format);
    lemma_split_none(m.format, '|');
    let fields = qvod_fields(body);
    assert(fields =~= seq![h, m.filename, d, m.format]);
    assert(all_ascii(hb));
    lemma_ascii_utf8(hb);
    lemma_decode_hex_lower(m.info_hash);
    assert(all_ascii(dec_nat(m.filesize as nat)));
    lemma_ascii_utf8(dec_nat(m.filesize as nat));
    lemma_parse_dec_nat(m.filesize as nat, u64::MAX as nat);
    lemma_ascii_boundaries(hb);
    lemma_boundaries_give_cuts(hb, 0);
}

} // verus!

verus! {

/// A web address reads back as itself.
pub proof fn law_http_text_roundtrip(s: Seq<char>)
    requires
        starts_with(s, "http://"@) || starts_with(s, "https://"@),
    ensures
        spec_parse_media(s) matches Ok(m) && media_text(m) == s,
{
    reveal_strlit("http://");
    reveal_strlit("https://");
    reveal_strlit("qvod://");
    reveal_strlit("qvod:");
    if starts_with(s, "qvod:"@) {
        assert(s[0] == "qvod:"@[0]);
        assert(s[0] == 'h');
    }
    if starts_with(s, "qvod://"@) {
        assert(s[0] == "qvod://"@[0]);
        assert(s[0] == 'h');
    }
}

/// The text of a `qvod://` media link parses back to the same link.
pub proof fn law_media_qvod_roundtrip(u: QvodUri)
    requires
        u.filename@.len() > 0,
        u.format@.len() > 0,
        pipe_free(u.filename@),
        pipe_free(u.format@),
    ensures
        spec_parse_media(media_text(MediaUriModel::Qvod(u.model()))) == Ok::<MediaUriModel, Seq<char>>(
            MediaUriModel::Qvod(u.model()),
        ),
{
    law_qvod_text_parses_back(u);
}

} // verus!
