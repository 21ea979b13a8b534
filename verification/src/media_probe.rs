//! What `ffmpeg -i` prints about a media file, read line by line: the
//! duration, the bit rate, the picture size, the codecs and the frame rate.
//! The seconds of the duration and the frame rate are decimal texts that the
//! caller reads as it needs; everything else is read here.
use vstd::prelude::*;
use vstd::utf8::encode_utf8;

use crate::seqs::{split_on, split_ranges, starts_with, str_chars};
use crate::server::{is_white_space_exec, lead_ws, trim_bounds, trim_spec};
use crate::text::{parse_unsigned, parse_unsigned_bytes};

verus! {

/// `p` occurs in `s` at position `i`.
pub open spec fn occurs_at(s: Seq<char>, p: Seq<char>, i: int) -> bool {
    0 <= i && i + p.len() <= s.len() && s.subrange(i, i + p.len()) == p
}

/// Where `p` first occurs in `s`, as `str::find` finds it.
#[verifier::opaque]
pub open spec fn find_sub(s: Seq<char>, p: Seq<char>) -> Option<int> {
    if exists|i: int| occurs_at(s, p, i) {
        Some(choose|i: int| occurs_at(s, p, i) && forall|j: int| 0 <= j < i ==> !occurs_at(s, p, j))
    } else {
        None
    }
}

/// `s` ends with `p`.
pub open spec fn ends_with(s: Seq<char>, p: Seq<char>) -> bool {
    s.len() >= p.len() && s.skip(s.len() - p.len()) == p
}

/// An ASCII decimal digit.
pub open spec fn is_digit_char(c: char) -> bool {
    '0' <= c && c <= '9'
}

/// The number of ASCII digits `s` starts with.
pub open spec fn digit_run(s: Seq<char>) -> nat
    decreases s.len(),
{
    if s.len() > 0 && is_digit_char(s[0]) {
        1 + digit_run(s.drop_first())
    } else {
        0
    }
}

/// The value `str::parse` reads from `s` for a type whose largest value is
/// `limit`, or 0 when it reads none.
pub open spec fn parse_or_zero(s: Seq<char>, limit: nat) -> nat {
    match parse_unsigned(encode_utf8(s), limit) {
        Ok(v) => v,
        Err(_) => 0,
    }
}

/// `s` without every repetition of the suffix `p`, as `str::trim_end_matches` leaves it.
pub open spec fn strip_suffixes(s: Seq<char>, p: Seq<char>) -> Seq<char>
    decreases s.len(),
{
    if p.len() > 0 && ends_with(s, p) {
        strip_suffixes(s.take(s.len() - p.len()), p)
    } else {
        s
    }
}

/// Every character of `s` is an ASCII digit.
pub open spec fn all_digits(s: Seq<char>) -> bool {
    digit_run(s) == s.len()
}

/// What a report says, as far as it has been read: the hours, minutes and
/// seconds text of the duration, the bit rate in bits per second, the picture
/// size, the codecs, whether the video line was read, and the frame-rate text.
pub struct ReportModel {
    pub duration: Option<(nat, nat, Seq<char>)>,
    pub bitrate: nat,
    pub width: nat,
    pub height: nat,
    pub video_codec: Seq<char>,
    pub audio_codec: Seq<char>,
    pub found_video: bool,
    pub fps_text: Option<Seq<char>>,
}

/// Nothing read yet.
pub open spec fn empty_report() -> ReportModel {
    ReportModel {
        duration: None,
        bitrate: 0,
        width: 0,
        height: 0,
        video_codec: Seq::empty(),
        audio_codec: Seq::empty(),
        found_video: false,
        fps_text: None,
    }
}

/// The text between the first occurrence of `p` in `s` and the next one, or
/// the end: the second piece `str::split` cuts.
pub open spec fn section_after(s: Seq<char>, p: Seq<char>) -> Seq<char> {
    match find_sub(s, p) {
        Some(i) => {
            let t = s.skip(i + p.len());
            match find_sub(t, p) {
                Some(j) => t.take(j),
                None => t,
            }
        },
        None => Seq::empty(),
    }
}

/// The text of `s` before its first `c`, or all of it.
pub open spec fn before_first(s: Seq<char>, c: Seq<char>) -> Seq<char> {
    match find_sub(s, c) {
        Some(i) => s.take(i),
        None => s,
    }
}

/// A codec's name in a stream section: up to the first comma, trimmed, without
/// the details in brackets that follow a space.
pub open spec fn codec_of(section: Seq<char>) -> Seq<char> {
    let c = trim_spec(before_first(section, ","@));
    before_first(c, " ("@)
}

/// The picture size a token gives: digits, an `x`, then digits (anything may
/// follow them); each side 0 when it does not fit in 32 bits.
pub open spec fn token_size(t: Seq<char>) -> Option<(nat, nat)> {
    match find_sub(t, "x"@) {
        Some(xp) => {
            let left = t.take(xp);
            let rest = t.skip(xp + 1);
            let right = rest.take(digit_run(rest) as int);
            if xp > 0 && all_digits(left) && right.len() > 0 {
                Some((parse_or_zero(left, u32::MAX as nat), parse_or_zero(right, u32::MAX as nat)))
            } else {
                None
            }
        },
        None => None,
    }
}

/// The frame-rate text a token gives: what precedes ` fps`, trimmed.
pub open spec fn token_fps(t: Seq<char>) -> Option<Seq<char>> {
    if ends_with(t, " fps"@) || ends_with(t, " fps,"@) {
        Some(trim_spec(strip_suffixes(strip_suffixes(t, " fps"@), " fps,"@)))
    } else {
        None
    }
}

/// After reading one token of the video line: a picture size and a frame
/// rate it gives are taken.
pub open spec fn read_token(t: Seq<char>, m: ReportModel) -> ReportModel {
    let m1 = match token_size(t) {
        Some(wh) => ReportModel { width: wh.0, height: wh.1, ..m },
        None => m,
    };
    match token_fps(t) {
        Some(f) => ReportModel { fps_text: Some(f), ..m1 },
        None => m1,
    }
}

/// After reading the comma-separated tokens of the video line, each trimmed:
/// the last size and the last frame rate found win.
pub open spec fn read_tokens(toks: Seq<Seq<char>>, m: ReportModel) -> ReportModel
    decreases toks.len(),
{
    if toks.len() == 0 {
        m
    } else {
        read_token(trim_spec(toks.last()), read_tokens(toks.drop_last(), m))
    }
}

/// The bit rate in kilobits per second that the text after the time of a
/// duration line gives, if it names one (0 when its digits do not fit in 64 bits).
pub open spec fn rest_bitrate(rest: Seq<char>) -> Option<nat> {
    match find_sub(rest, "bitrate: "@) {
        Some(p) => {
            let t = rest.skip(p + "bitrate: "@.len());
            Some(parse_or_zero(t.take(digit_run(t) as int), u64::MAX as nat))
        },
        None => None,
    }
}

/// The bit rate a line gives in kilobits per second, if it is a duration line that names one.
pub open spec fn line_bitrate(raw: Seq<char>) -> Option<nat> {
    let line = raw.skip(lead_ws(raw) as int);
    if starts_with(line, "Duration: "@) {
        let d = line.skip("Duration: "@.len() as int);
        match find_sub(d, ","@) {
            Some(c) => rest_bitrate(d.skip(c + 1)),
            None => None,
        }
    } else {
        None
    }
}

/// After reading the time of a duration line: the duration when it has three
/// parts, hours, minutes and seconds.
pub open spec fn read_time(time: Seq<char>, m: ReportModel) -> ReportModel {
    let hms = split_on(trim_spec(time), ':');
    if hms.len() == 3 {
        ReportModel {
            duration: Some((parse_or_zero(hms[0], u64::MAX as nat), parse_or_zero(hms[1], u64::MAX as nat), hms[2])),
            ..m
        }
    } else {
        m
    }
}

/// After reading what follows the first comma of a duration line: the bit
/// rate, when it names one.
pub open spec fn read_rest(d: Seq<char>, m: ReportModel) -> ReportModel {
    match find_sub(d, ","@) {
        Some(c) => match rest_bitrate(d.skip(c + 1)) {
            Some(v) => ReportModel { bitrate: v * 1000, ..m },
            None => m,
        },
        None => m,
    }
}

/// After reading the rest of a duration line (after `Duration: `).
pub open spec fn read_duration(d: Seq<char>, m: ReportModel) -> ReportModel {
    read_rest(d, read_time(before_first(d, ","@), m))
}

/// After reading one line, its leading white space skipped: a duration line,
/// the first video stream line and the first audio stream line that names a
/// codec are read.
pub open spec fn read_line(m: ReportModel, raw: Seq<char>) -> ReportModel {
    let line = raw.skip(lead_ws(raw) as int);
    let m1 = if starts_with(line, "Duration: "@) {
        read_duration(line.skip("Duration: "@.len() as int), m)
    } else {
        m
    };
    let m2 = if find_sub(line, ": Video: "@) is Some && !m1.found_video {
        read_tokens(
            split_on(line, ','),
            ReportModel { found_video: true, video_codec: codec_of(section_after(line, ": Video: "@)), ..m1 },
        )
    } else {
        m1
    };
    if find_sub(line, ": Audio: "@) is Some && m2.audio_codec.len() == 0 {
        ReportModel { audio_codec: codec_of(section_after(line, ": Audio: "@)), ..m2 }
    } else {
        m2
    }
}

/// The lines of a text, as `str::lines` gives them: cut at each line feed, a
/// carriage return before a line feed dropped, no line after a final line feed.
pub open spec fn text_lines(s: Seq<char>) -> Seq<Seq<char>> {
    let pieces = split_on(s, '\n');
    let n = pieces.len();
    let lines = Seq::new(
        n,
        |i: int|
            if i < n - 1 && pieces[i].len() > 0 && pieces[i].last() == '\r' {
                pieces[i].drop_last()
            } else {
                pieces[i]
            },
    );
    if n > 0 && pieces[n - 1].len() == 0 {
        lines.drop_last()
    } else {
        lines
    }
}

/// After reading the lines `ls` in order.
pub open spec fn read_lines(ls: Seq<Seq<char>>) -> ReportModel
    decreases ls.len(),
{
    if ls.len() == 0 {
        empty_report()
    } else {
        read_line(read_lines(ls.drop_last()), ls.last())
    }
}

/// Every bit rate the text names, in bits per second, fits in 64 bits.
pub open spec fn bitrates_fit(s: Seq<char>) -> bool {
    forall|i: int|
        0 <= i < text_lines(s).len() ==> (#[trigger] line_bitrate(text_lines(s)[i]) matches Some(v) ==> v * 1000
            <= u64::MAX)
}

/// What a report says, read line by line.
#[derive(Debug, Clone)]
pub struct FfmpegReport {
    pub duration: Option<(u64, u64, String)>,
    pub bitrate: u64,
    pub width: u32,
    pub height: u32,
    pub video_codec: String,
    pub audio_codec: String,
    pub found_video: bool,
    pub fps_text: Option<String>,
}

impl View for FfmpegReport {
    type V = ReportModel;

    open spec fn view(&self) -> ReportModel {
        ReportModel {
            duration: match self.duration {
                Some(d) => Some((d.0 as nat, d.1 as nat, d.2@)),
                None => None,
            },
            bitrate: self.bitrate as nat,
            width: self.width as nat,
            height: self.height as nat,
            video_codec: self.video_codec@,
            audio_codec: self.audio_codec@,
            found_video: self.found_video,
            fps_text: match self.fps_text {
                Some(f) => Some(f@),
                None => None,
            },
        }
    }
}

/// `str::parse` on `text[x..y]` (in characters), 0 when it fails.
fn parse_piece(text: &str, x: usize, y: usize, limit: u64) -> (v: u64)
    requires
        x <= y <= text@.len(),
    ensures
        v == parse_or_zero(text@.subrange(x as int, y as int), limit as nat),
        v <= limit,
{
    let piece = text.substring_char(x, y);
    match parse_unsigned_bytes(piece.as_bytes(), limit) {
        Ok(v) => v,
        Err(_) => 0,
    }
}

/// Reads the time of a duration line, `cs[a..b]`.
fn read_time_exec(m: &mut FfmpegReport, text: &str, cs: &[char], a: usize, b: usize)
    requires
        cs@ == text@,
        a <= b <= cs@.len(),
    ensures
        final(m)@ == read_time(cs@.subrange(a as int, b as int), old(m)@),
{
    let (ta, tb) = trim_bounds(cs, a, b);
    let parts = split_ranges(cs, ta, tb, ':');
    if parts.len() == 3 {
        let hours = parse_piece(text, parts[0].0, parts[0].1, u64::MAX);
        let minutes = parse_piece(text, parts[1].0, parts[1].1, u64::MAX);
        let secs = String::from_str(text.substring_char(parts[2].0, parts[2].1));
        m.duration = Some((hours, minutes, secs));
    }
}

/// Reads what follows the first comma, if any, of the duration line rest `cs[a..b]`.
fn read_rest_exec(m: &mut FfmpegReport, text: &str, cs: &[char], a: usize, b: usize, comma: Option<usize>)
    requires
        cs@ == text@,
        a <= b <= cs@.len(),
        comma matches Some(c) ==> a + c < b && find_sub(cs@.subrange(a as int, b as int), ","@) == Some(c as int),
        comma is None ==> find_sub(cs@.subrange(a as int, b as int), ","@) is None,
        comma matches Some(c) ==> (rest_bitrate(cs@.subrange(a as int, b as int).skip(c + 1)) matches Some(v)
            ==> v * 1000 <= u64::MAX),
    ensures
        final(m)@ == read_rest(cs@.subrange(a as int, b as int), old(m)@),
{
    match comma {
        Some(c) => {
            let r = a + c + 1;
            proof {
                assert(cs@.subrange(a as int, b as int).skip(c + 1) =~= cs@.subrange(r as int, b as int));
            }
            let label = str_chars("bitrate: ");
            match find_in(cs, r, b, label.as_slice()) {
                Some(q) => {
                    let t = r + q + label.len();
                    let n = digit_run_in(cs, t, b);
                    proof {
                        let rest = cs@.subrange(r as int, b as int);
                        assert(rest.skip(q + "bitrate: "@.len()) =~= cs@.subrange(t as int, b as int));
                        assert(cs@.subrange(t as int, b as int).take(n as int) =~= cs@.subrange(t as int, (t + n) as int));
                    }
                    let v = parse_piece(text, t, t + n, u64::MAX);
                    m.bitrate = v * 1000;
                },
                None => {},
            }
        },
        None => {},
    }
}

/// Reads the rest of a duration line, `cs[a..b]`.
fn read_duration_exec(m: &mut FfmpegReport, text: &str, cs: &[char], a: usize, b: usize)
    requires
        cs@ == text@,
        a <= b <= cs@.len(),
        find_sub(cs@.subrange(a as int, b as int), ","@) matches Some(c) ==> (rest_bitrate(
            cs@.subrange(a as int, b as int).skip(c + 1),
        ) matches Some(v) ==> v * 1000 <= u64::MAX),
    ensures
        final(m)@ == read_duration(cs@.subrange(a as int, b as int), old(m)@),
{
    let comma = str_chars(",");
    let found = find_in(cs, a, b, comma.as_slice());
    let time_end = match found {
        Some(c) => a + c,
        None => b,
    };
    proof {
        reveal_strlit(",");
        let d = cs@.subrange(a as int, b as int);
        assert(before_first(d, ","@) =~= cs@.subrange(a as int, time_end as int));
    }
    read_time_exec(m, text, cs, a, time_end);
    read_rest_exec(m, text, cs, a, b, found);
}

/// Whether `cs[a..b]` ends with `p`.
fn ends_with_in(cs: &[char], a: usize, b: usize, p: &[char]) -> (r: bool)
    requires
        a <= b <= cs@.len(),
    ensures
        r == ends_with(cs@.subrange(a as int, b as int), p@),
{
    if b - a < p.len() {
        return false;
    }
    let r = matches_at(cs, b - p.len(), p);
    proof {
        assert(cs@.subrange(a as int, b as int).skip((b - a) - p@.len()) =~= cs@.subrange(
            b - p@.len(),
            b as int,
        ));
    }
    r
}

/// The end of `cs[a..b]` once every repetition of the suffix `p` is removed.
fn strip_suffixes_in(cs: &[char], a: usize, b: usize, p: &[char]) -> (e: usize)
    requires
        a <= b <= cs@.len(),
    ensures
        a <= e <= b,
        cs@.subrange(a as int, e as int) == strip_suffixes(cs@.subrange(a as int, b as int), p@),
{
    if p.len() == 0 {
        return b;
    }
    let mut e = b;
    while ends_with_in(cs, a, e, p)
        invariant
            a <= e <= b <= cs@.len(),
            p@.len() > 0,
            strip_suffixes(cs@.subrange(a as int, b as int), p@) == strip_suffixes(
                cs@.subrange(a as int, e as int),
                p@,
            ),
        decreases e - a,
    {
        proof {
            let t = cs@.subrange(a as int, e as int);
            assert(t.take(t.len() - p@.len()) =~= cs@.subrange(a as int, e - p@.len()));
        }
        e = e - p.len();
    }
    e
}

/// Reads one token, `cs[a..b]`, of the video line.
fn read_token_exec(m: &mut FfmpegReport, text: &str, cs: &[char], a: usize, b: usize)
    requires
        cs@ == text@,
        a <= b <= cs@.len(),
    ensures
        final(m)@ == read_token(cs@.subrange(a as int, b as int), old(m)@),
{
    let ghost t = cs@.subrange(a as int, b as int);
    let x = str_chars("x");
    proof {
        reveal_strlit("x");
    }
    match find_in(cs, a, b, x.as_slice()) {
        Some(xp) => {
            if xp > 0 {
                let left_digits = digit_run_in(cs, a, a + xp);
                let r0 = a + xp + 1;
                let n = digit_run_in(cs, r0, b);
                proof {
                    assert(t.take(xp as int) =~= cs@.subrange(a as int, (a + xp) as int));
                    assert(t.skip(xp + 1) =~= cs@.subrange(r0 as int, b as int));
                    assert(cs@.subrange(r0 as int, b as int).take(n as int) =~= cs@.subrange(r0 as int, (r0 + n) as int));
                }
                if left_digits == xp && n > 0 {
                    let w = parse_piece(text, a, a + xp, u32::MAX as u64);
                    let h = parse_piece(text, r0, r0 + n, u32::MAX as u64);
                    m.width = w as u32;
                    m.height = h as u32;
                }
            }
        },
        None => {},
    }
    let fps = str_chars(" fps");
    let fps_comma = str_chars(" fps,");
    if ends_with_in(cs, a, b, fps.as_slice()) || ends_with_in(cs, a, b, fps_comma.as_slice()) {
        let e1 = strip_suffixes_in(cs, a, b, fps.as_slice());
        let e2 = strip_suffixes_in(cs, a, e1, fps_comma.as_slice());
        let (f0, f1) = trim_bounds(cs, a, e2);
        m.fps_text = Some(String::from_str(text.substring_char(f0, f1)));
    }
}

/// Reads the comma-separated tokens of `cs[a..b]`, each trimmed.
fn read_tokens_exec(m: &mut FfmpegReport, text: &str, cs: &[char], a: usize, b: usize)
    requires
        cs@ == text@,
        a <= b <= cs@.len(),
    ensures
        final(m)@ == read_tokens(split_on(cs@.subrange(a as int, b as int), ','), old(m)@),
{
    let ghost toks = split_on(cs@.subrange(a as int, b as int), ',');
    let ranges = split_ranges(cs, a, b, ',');
    let mut k: usize = 0;
    while k < ranges.len()
        invariant
            cs@ == text@,
            a <= b <= cs@.len(),
            toks == split_on(cs@.subrange(a as int, b as int), ','),
            ranges@.len() == toks.len(),
            forall|j: int|
                0 <= j < ranges@.len() ==> a <= (#[trigger] ranges@[j]).0 <= ranges@[j].1 <= b && cs@.subrange(
                    ranges@[j].0 as int,
                    ranges@[j].1 as int,
                ) == toks[j],
            k <= ranges@.len(),
            m@ == read_tokens(toks.take(k as int), old(m)@),
        decreases ranges@.len() - k,
    {
        let (x, y) = ranges[k];
        let (ta, tb) = trim_bounds(cs, x, y);
        read_token_exec(m, text, cs, ta, tb);
        proof {
            assert(toks.take(k + 1).drop_last() =~= toks.take(k as int));
            assert(toks.take(k + 1).last() == toks[k as int]);
        }
        k = k + 1;
    }
    proof {
        assert(toks.take(ranges@.len() as int) =~= toks);
    }
}

/// The bounds of the codec name in the section after the first `p` of `cs[a..b]`.
fn codec_range(cs: &[char], a: usize, b: usize, p: &[char]) -> (r: (usize, usize))
    requires
        a <= b <= cs@.len(),
        find_sub(cs@.subrange(a as int, b as int), p@) is Some,
    ensures
        r.0 <= r.1 <= cs@.len(),
        cs@.subrange(r.0 as int, r.1 as int) == codec_of(section_after(cs@.subrange(a as int, b as int), p@)),
{
    let ghost line = cs@.subrange(a as int, b as int);
    let i = match find_in(cs, a, b, p) {
        Some(i) => i,
        None => {
            return (0, 0);
        },
    };
    let s0 = a + i + p.len();
    proof {
        assert(line.skip(i + p@.len()) =~= cs@.subrange(s0 as int, b as int));
    }
    let s1 = match find_in(cs, s0, b, p) {
        Some(j) => s0 + j,
        None => b,
    };
    proof {
        assert(section_after(line, p@) =~= cs@.subrange(s0 as int, s1 as int));
    }
    let comma = str_chars(",");
    proof {
        reveal_strlit(",");
    }
    let cend = match find_in(cs, s0, s1, comma.as_slice()) {
        Some(c) => s0 + c,
        None => s1,
    };
    proof {
        assert(before_first(cs@.subrange(s0 as int, s1 as int), ","@) =~= cs@.subrange(s0 as int, cend as int));
    }
    let (c0, c1) = trim_bounds(cs, s0, cend);
    let paren = str_chars(" (");
    let end = match find_in(cs, c0, c1, paren.as_slice()) {
        Some(k) => c0 + k,
        None => c1,
    };
    proof {
        assert(before_first(cs@.subrange(c0 as int, c1 as int), " ("@) =~= cs@.subrange(c0 as int, end as int));
    }
    (c0, end)
}

/// Reads one line, `cs[a..b]`.
fn read_line_exec(m: &mut FfmpegReport, text: &str, cs: &[char], a: usize, b: usize)
    requires
        cs@ == text@,
        a <= b <= cs@.len(),
        line_bitrate(cs@.subrange(a as int, b as int)) matches Some(v) ==> v * 1000 <= u64::MAX,
    ensures
        final(m)@ == read_line(old(m)@, cs@.subrange(a as int, b as int)),
{
    let ghost raw = cs@.subrange(a as int, b as int);
    let la = skip_white_space(cs, a, b);
    let ghost line = cs@.subrange(la as int, b as int);
    let label = str_chars("Duration: ");
    if b - la >= label.len() && matches_at(cs, la, label.as_slice()) {
        let d0 = la + label.len();
        proof {
            assert(line.take("Duration: "@.len() as int) =~= cs@.subrange(la as int, d0 as int));
            assert(starts_with(line, "Duration: "@));
            assert(line.skip("Duration: "@.len() as int) =~= cs@.subrange(d0 as int, b as int));
        }
        read_duration_exec(m, text, cs, d0, b);
    } else {
        proof {
            if starts_with(line, "Duration: "@) {
                assert(cs@.subrange(la as int, la + "Duration: "@.len()) =~= line.take("Duration: "@.len() as int));
            }
        }
    }
    let video = str_chars(": Video: ");
    if find_in(cs, la, b, video.as_slice()).is_some() && !m.found_video {
        let (c0, c1) = codec_range(cs, la, b, video.as_slice());
        m.found_video = true;
        m.video_codec = String::from_str(text.substring_char(c0, c1));
        read_tokens_exec(m, text, cs, la, b);
    }
    let audio = str_chars(": Audio: ");
    if find_in(cs, la, b, audio.as_slice()).is_some() && m.audio_codec.as_str().unicode_len() == 0 {
        let (c0, c1) = codec_range(cs, la, b, audio.as_slice());
        m.audio_codec = String::from_str(text.substring_char(c0, c1));
    }
}

/// The bit rate, in kilobits per second, that the line `cs[a..b]` names, if
/// it is a duration line that names one.
fn line_bitrate_exec(text: &str, cs: &[char], a: usize, b: usize) -> (r: Option<u64>)
    requires
        cs@ == text@,
        a <= b <= cs@.len(),
    ensures
        r matches Some(v) ==> line_bitrate(cs@.subrange(a as int, b as int)) == Some(v as nat),
        r is None ==> line_bitrate(cs@.subrange(a as int, b as int)) is None,
{
    let ghost raw = cs@.subrange(a as int, b as int);
    let la = skip_white_space(cs, a, b);
    let ghost line = cs@.subrange(la as int, b as int);
    let label = str_chars("Duration: ");
    if !(b - la >= label.len() && matches_at(cs, la, label.as_slice())) {
        proof {
            if starts_with(line, "Duration: "@) {
                assert(cs@.subrange(la as int, la + "Duration: "@.len()) =~= line.take("Duration: "@.len() as int));
            }
        }
        return None;
    }
    let d0 = la + label.len();
    proof {
        assert(line.take("Duration: "@.len() as int) =~= cs@.subrange(la as int, d0 as int));
        assert(line.skip("Duration: "@.len() as int) =~= cs@.subrange(d0 as int, b as int));
    }
    let comma = str_chars(",");
    proof {
        reveal_strlit(",");
    }
    let c = match find_in(cs, d0, b, comma.as_slice()) {
        Some(c) => c,
        None => {
            return None;
        },
    };
    let r0 = d0 + c + 1;
    proof {
        assert(cs@.subrange(d0 as int, b as int).skip(c + 1) =~= cs@.subrange(r0 as int, b as int));
    }
    let bitrate = str_chars("bitrate: ");
    match find_in(cs, r0, b, bitrate.as_slice()) {
        Some(q) => {
            let t = r0 + q + bitrate.len();
            let n = digit_run_in(cs, t, b);
            proof {
                let rest = cs@.subrange(r0 as int, b as int);
                assert(rest.skip(q + "bitrate: "@.len()) =~= cs@.subrange(t as int, b as int));
                assert(cs@.subrange(t as int, b as int).take(n as int) =~= cs@.subrange(t as int, (t + n) as int));
            }
            Some(parse_piece(text, t, t + n, u64::MAX))
        },
        None => None,
    }
}

/// Whether every bit rate `stderr` names, in bits per second, fits in 64 bits.
pub fn bitrates_fit_in(stderr: &str) -> (b: bool)
    ensures
        b == bitrates_fit(stderr@),
{
    let ghost lines = text_lines(stderr@);
    let cs = str_chars(stderr);
    proof {
        assert(cs@.subrange(0, cs@.len() as int) =~= cs@);
    }
    let pieces = split_ranges(cs.as_slice(), 0, cs.len(), '\n');
    let ghost ps = split_on(cs@, '\n');
    proof {
        crate::seqs::lemma_split_nonempty(cs@, '\n');
    }
    let n = pieces.len();
    let count = if pieces[n - 1].0 == pieces[n - 1].1 { n - 1 } else { n };
    proof {
        assert(lines.len() == count);
    }
    let mut k: usize = 0;
    while k < count
        invariant
            cs@ == stderr@,
            lines == text_lines(stderr@),
            ps == split_on(cs@, '\n'),
            n == ps.len(),
            pieces@.len() == n,
            forall|j: int|
                0 <= j < n ==> (#[trigger] pieces@[j]).0 <= pieces@[j].1 <= cs@.len() && cs@.subrange(
                    pieces@[j].0 as int,
                    pieces@[j].1 as int,
                ) == ps[j],
            count == lines.len(),
            count <= n,
            k <= count,
            forall|j: int|
                0 <= j < k ==> (#[trigger] line_bitrate(lines[j]) matches Some(v) ==> v * 1000 <= u64::MAX),
        decreases count - k,
    {
        let (pa, pb) = pieces[k];
        let pb2 = if k + 1 < n && pb > pa && cs[pb - 1] == '\r' { pb - 1 } else { pb };
        proof {
            assert(cs@.subrange(pa as int, pb2 as int) == lines[k as int]) by {
                if k + 1 < n && pb > pa && cs@[pb - 1] == '\r' {
                    assert(ps[k as int].last() == cs@[pb - 1]);
                    assert(cs@.subrange(pa as int, pb2 as int) =~= ps[k as int].drop_last());
                }
            }
        }
        match line_bitrate_exec(stderr, cs.as_slice(), pa, pb2) {
            Some(v) => {
                if v > 18446744073709551 {
                    proof {
                        assert(v * 1000 > u64::MAX) by (nonlinear_arith)
                            requires
                                v > 18446744073709551u64,
                        ;
                        assert(line_bitrate(lines[k as int]) == Some(v as nat));
                    }
                    return false;
                }
                proof {
                    assert(v * 1000 <= u64::MAX) by (nonlinear_arith)
                        requires
                            v <= 18446744073709551u64,
                    ;
                }
            },
            None => {},
        }
        k = k + 1;
    }
    true
}

impl FfmpegReport {
    /// Reads what `ffmpeg -i` printed, line by line.
    pub fn read(stderr: &str) -> (r: FfmpegReport)
        requires
            bitrates_fit(stderr@),
        ensures
            r@ == read_lines(text_lines(stderr@)),
    {
        let ghost lines = text_lines(stderr@);
        let cs = str_chars(stderr);
        proof {
            assert(cs@.subrange(0, cs@.len() as int) =~= cs@);
        }
        let pieces = split_ranges(cs.as_slice(), 0, cs.len(), '\n');
        let ghost ps = split_on(cs@, '\n');
        proof {
            crate::seqs::lemma_split_nonempty(cs@, '\n');
        }
        let n = pieces.len();
        let count = if pieces[n - 1].0 == pieces[n - 1].1 { n - 1 } else { n };
        proof {
            assert(lines.len() == count);
        }
        let mut m = FfmpegReport {
            duration: None,
            bitrate: 0,
            width: 0,
            height: 0,
            video_codec: String::new(),
            audio_codec: String::new(),
            found_video: false,
            fps_text: None,
        };
        proof {
            assert(m@ =~= empty_report());
            assert(lines.take(0) =~= Seq::<Seq<char>>::empty());
        }
        let mut k: usize = 0;
        while k < count
            invariant
                cs@ == stderr@,
                lines == text_lines(stderr@),
                ps == split_on(cs@, '\n'),
                n == ps.len(),
                pieces@.len() == n,
                forall|j: int|
                    0 <= j < n ==> (#[trigger] pieces@[j]).0 <= pieces@[j].1 <= cs@.len() && cs@.subrange(
                        pieces@[j].0 as int,
                        pieces@[j].1 as int,
                    ) == ps[j],
                count == lines.len(),
                count <= n,
                k <= count,
                bitrates_fit(stderr@),
                m@ == read_lines(lines.take(k as int)),
            decreases count - k,
        {
            let (pa, pb) = pieces[k];
            let pb2 = if k + 1 < n && pb > pa && cs[pb - 1] == '\r' { pb - 1 } else { pb };
            proof {
                assert(cs@.subrange(pa as int, pb2 as int) == lines[k as int]) by {
                    if k + 1 < n && pb > pa && cs@[pb - 1] == '\r' {
                        assert(ps[k as int].last() == cs@[pb - 1]);
                        assert(cs@.subrange(pa as int, pb2 as int) =~= ps[k as int].drop_last());
                    }
                }
                assert(line_bitrate(lines[k as int]) matches Some(v) ==> v * 1000 <= u64::MAX);
            }
            read_line_exec(&mut m, stderr, cs.as_slice(), pa, pb2);
            proof {
                assert(lines.take(k + 1).drop_last() =~= lines.take(k as int));
                assert(lines.take(k + 1).last() == lines[k as int]);
            }
            k = k + 1;
        }
        proof {
            assert(lines.take(count as int) =~= lines);
        }
        m
    }
}

/// Where the first occurrence of `p` in `cs[from..to]` starts, counted from `from`.
fn find_in(cs: &[char], from: usize, to: usize, p: &[char]) -> (r: Option<usize>)
    requires
        from <= to <= cs@.len(),
    ensures
        r matches Some(i) ==> find_sub(cs@.subrange(from as int, to as int), p@) == Some(i as int) && occurs_at(
            cs@.subrange(from as int, to as int),
            p@,
            i as int,
        ),
        r is None ==> find_sub(cs@.subrange(from as int, to as int), p@) is None,
{
    let ghost s = cs@.subrange(from as int, to as int);
    reveal(find_sub);
    if p.len() > to - from {
        assert forall|i: int| !occurs_at(s, p@, i) by {}
        return None;
    }
    if p.len() == 0 {
        proof {
            assert(s.subrange(0, 0) =~= p@);
            assert(occurs_at(s, p@, 0));
            let k = choose|k: int| occurs_at(s, p@, k) && forall|j: int| 0 <= j < k ==> !occurs_at(s, p@, j);
            assert(k == 0);
        }
        return Some(0);
    }
    let last = to - from - p.len();
    let mut i: usize = 0;
    while i <= last
        invariant
            s == cs@.subrange(from as int, to as int),
            from <= to <= cs@.len(),
            last == to - from - p@.len(),
            p@.len() > 0,
            i <= last + 1,
            forall|j: int| 0 <= j < i ==> !occurs_at(s, p@, j),
        decreases last + 1 - i,
    {
        if matches_at(cs, from + i, p) {
            proof {
                reveal(find_sub);
                assert(cs@.subrange(from + i, from + i + p@.len()) =~= s.subrange(i as int, i + p@.len()));
                assert(occurs_at(s, p@, i as int));
                let k = choose|k: int| occurs_at(s, p@, k) && forall|j: int| 0 <= j < k ==> !occurs_at(s, p@, j);
                assert(k == i);
            }
            return Some(i);
        }
        proof {
            assert(cs@.subrange(from + i, from + i + p@.len()) =~= s.subrange(i as int, i + p@.len()));
        }
        i = i + 1;
    }
    assert forall|j: int| !occurs_at(s, p@, j) by {
        if 0 <= j < i {
        }
    }
    proof {
        reveal(find_sub);
    }
    None
}

/// `p` occurs in `cs` at `at`.
fn matches_at(cs: &[char], at: usize, p: &[char]) -> (r: bool)
    requires
        at + p@.len() <= cs@.len(),
    ensures
        r == (cs@.subrange(at as int, at + p@.len()) == p@),
{
    let n = cs.len();
    let mut k: usize = 0;
    while k < p.len()
        invariant
            k <= p@.len(),
            n == cs@.len(),
            at + p@.len() <= cs@.len(),
            forall|j: int| 0 <= j < k ==> cs@[at + j] == p@[j],
        decreases p@.len() - k,
    {
        if cs[at + k] != p[k] {
            assert(cs@.subrange(at as int, at + p@.len())[k as int] != p@[k as int]);
            return false;
        }
        k = k + 1;
    }
    assert(cs@.subrange(at as int, at + p@.len()) =~= p@);
    true
}

/// The length of the run of ASCII digits at the start of `cs[from..to]`.
fn digit_run_in(cs: &[char], from: usize, to: usize) -> (n: usize)
    requires
        from <= to <= cs@.len(),
    ensures
        n == digit_run(cs@.subrange(from as int, to as int)),
        from + n <= to,
{
    let mut i = from;
    while i < to && '0' <= cs[i] && cs[i] <= '9'
        invariant
            from <= i <= to <= cs@.len(),
            digit_run(cs@.subrange(from as int, to as int)) == (i - from) + digit_run(cs@.subrange(i as int, to as int)),
        decreases to - i,
    {
        proof {
            assert(cs@.subrange(i as int, to as int).drop_first() =~= cs@.subrange(i + 1, to as int));
        }
        i = i + 1;
    }
    i - from
}

/// The position in `cs[from..to]` after its leading white space.
fn skip_white_space(cs: &[char], from: usize, to: usize) -> (a: usize)
    requires
        from <= to <= cs@.len(),
    ensures
        from <= a <= to,
        cs@.subrange(a as int, to as int) == cs@.subrange(from as int, to as int).skip(
            lead_ws(cs@.subrange(from as int, to as int)) as int,
        ),
{
    let ghost s = cs@.subrange(from as int, to as int);
    let mut a = from;
    while a < to && is_white_space_exec(cs[a])
        invariant
            from <= a <= to <= cs@.len(),
            s == cs@.subrange(from as int, to as int),
            lead_ws(s) == (a - from) + lead_ws(cs@.subrange(a as int, to as int)),
        decreases to - a,
    {
        proof {
            assert(cs@.subrange(a as int, to as int).drop_first() =~= cs@.subrange(a + 1, to as int));
        }
        a = a + 1;
    }
    proof {
        assert(lead_ws(cs@.subrange(a as int, to as int)) == 0);
        assert(s.skip(lead_ws(s) as int) =~= cs@.subrange(a as int, to as int));
    }
    a
}

} // verus!
