//! The decisions of the local HTTP server's endpoints: the stream a play
//! request opens, where it starts, the window a segment request reads, and what
//! a control request does and answers.
use vstd::prelude::*;

use crate::error::QvodError;
use crate::gui::ControlResponse;
use crate::playback::StreamState;
use crate::server::RangeHeader;
use crate::strings::{ascii_chars, decimal_string, push_str};
use crate::text::{dec_nat, parse_u64_bytes, parse_unsigned};
use crate::types::{hex_cuts_on_boundaries, parse_info_hash_spec, InfoHash};

verus! {

/// The query of a play or status request.
#[derive(Debug, Clone)]
pub struct PlayParams {
    pub hash: String,
    pub name: Option<String>,
    pub size: Option<u64>,
}

/// The query of a segment request.
#[derive(Debug, Clone)]
pub struct SegmentParams {
    pub hash: String,
    pub offset: Option<u64>,
    pub length: Option<u64>,
    pub index: Option<u32>,
}

/// The body of a control request.
#[derive(Debug, Clone)]
pub struct ControlParams {
    pub action: String,
    pub hash: Option<String>,
    pub value: Option<String>,
}

/// Bytes sent per chunk of a play response.
pub const CHUNK_SIZE: u64 = 65536;

/// The stream a play request opens: `qvod://<hash>|<name>|<size>|mp4|`, the
/// name `stream` and the size 0 when the request gives none.
pub open spec fn play_uri_text(p: PlayParams) -> Seq<char> {
    "qvod://"@ + p.hash@ + "|"@ + match p.name {
        Some(n) => n@,
        None => "stream"@,
    } + "|"@ + ascii_chars(dec_nat(
        match p.size {
            Some(s) => s as nat,
            None => 0,
        },
    )) + "|mp4|"@
}

/// The stream a play request opens.
pub fn play_uri(params: &PlayParams) -> (u: String)
    ensures
        u@ == play_uri_text(*params),
{
    let mut u = String::from_str("qvod://");
    push_str(&mut u, params.hash.as_str());
    push_str(&mut u, "|");
    match &params.name {
        Some(n) => push_str(&mut u, n.as_str()),
        None => push_str(&mut u, "stream"),
    }
    push_str(&mut u, "|");
    let size = match params.size {
        Some(s) => s,
        None => 0,
    };
    let digits = decimal_string(size);
    push_str(&mut u, digits.as_str());
    push_str(&mut u, "|mp4|");
    proof {
        reveal_strlit("qvod://");
        reveal_strlit("|");
        reveal_strlit("stream");
        reveal_strlit("|mp4|");
    }
    assert(u@ =~= play_uri_text(*params));
    u
}

/// Where a play response starts: at the first requested range, else at 0.
pub fn play_start(range: &Option<RangeHeader>) -> (start: u64)
    ensures
        start == match range {
            Some(h) => if h.ranges@.len() > 0 {
                h.ranges@[0].start
            } else {
                0
            },
            None => 0,
        },
{
    match range {
        Some(h) => {
            if h.ranges.len() > 0 {
                h.ranges[0].start
            } else {
                0
            }
        },
        None => 0,
    }
}

/// What the sender of a play response does next.
#[derive(Debug, Clone, Copy, PartialEq, Eq, Structural)]
pub enum PlayStep {
    /// Send the chunk read and go on after it.
    Send,
    /// Send the chunk read, then stop.
    SendAndStop,
    /// Stop.
    Stop,
    /// Wait a moment and try again.
    Wait,
}

/// What to do given the stream's state (None when it is gone) and the length
/// of the chunk read at the current position (None when nothing could be read):
/// a gone stream stops; an ended one sends what is left and stops; otherwise a
/// chunk is sent, and without one the sender waits.
pub fn play_step(state: Option<StreamState>, chunk_len: Option<usize>) -> (s: PlayStep)
    ensures
        s == match state {
            None => PlayStep::Stop,
            Some(StreamState::Ended) => match chunk_len {
                Some(n) => if n > 0 {
                    PlayStep::SendAndStop
                } else {
                    PlayStep::Stop
                },
                None => PlayStep::Stop,
            },
            Some(_) => match chunk_len {
                Some(n) => if n > 0 {
                    PlayStep::Send
                } else {
                    PlayStep::Wait
                },
                None => PlayStep::Wait,
            },
        },
{
    match state {
        None => PlayStep::Stop,
        Some(StreamState::Ended) => match chunk_len {
            Some(n) => if n > 0 {
                PlayStep::SendAndStop
            } else {
                PlayStep::Stop
            },
            None => PlayStep::Stop,
        },
        Some(_) => match chunk_len {
            Some(n) => if n > 0 {
                PlayStep::Send
            } else {
                PlayStep::Wait
            },
            None => PlayStep::Wait,
        },
    }
}

/// The bytes a segment request reads: from `offset` (0 by default), `length`
/// of them (65536 by default).
pub fn segment_window(params: &SegmentParams) -> (w: (u64, u64))
    ensures
        w.0 == match params.offset {
            Some(o) => o,
            None => 0,
        },
        w.1 == match params.length {
            Some(l) => l,
            None => CHUNK_SIZE,
        },
{
    let offset = match params.offset {
        Some(o) => o,
        None => 0,
    };
    let length = match params.length {
        Some(l) => l,
        None => CHUNK_SIZE,
    };
    (offset, length)
}

/// What a control request does.
#[derive(Debug, Clone)]
pub enum ControlStep {
    Pause,
    Resume,
    Stop(InfoHash),
    Seek(u64),
    Status,
    /// Nothing to do but answer.
    Reply(ControlResponse),
}

/// A reply.
pub open spec fn reply(r: ControlResponse, success: bool, message: Seq<char>) -> bool {
    r.success == success && r.message@ == message
}

/// Whether a text can be read as an info hash without cutting a character in two.
pub open spec fn hash_text_ok(s: Seq<char>) -> bool {
    vstd::utf8::encode_utf8(s).len() == 40 ==> hex_cuts_on_boundaries(vstd::utf8::encode_utf8(s), 0)
}

/// What a control request does: pause, resume, stop a stream, seek, or report
/// status; a stop needs a valid hash and a seek a timestamp in milliseconds,
/// and an unknown action is refused.
pub fn plan_control(params: &ControlParams) -> (step: ControlStep)
    requires
        params.action@ == "stop"@ ==> (params.hash matches Some(h) ==> hash_text_ok(h@)),
    ensures
        params.action@ == "pause"@ ==> step is Pause,
        params.action@ == "resume"@ ==> step is Resume,
        params.action@ == "status"@ ==> step is Status,
        params.action@ == "stop"@ ==> match params.hash {
            None => step matches ControlStep::Reply(r) && reply(r, false, "hash required"@),
            Some(h) => match parse_info_hash_spec(vstd::utf8::encode_utf8(h@)) {
                Ok(v) => step matches ControlStep::Stop(ih) && ih.0@ == v,
                Err(m) => step matches ControlStep::Reply(r) && reply(
                    r,
                    false,
                    "invalid hash: "@ + "无效 URI: "@ + m,
                ),
            },
        },
        params.action@ == "seek"@ ==> match params.value {
            None => step matches ControlStep::Reply(r) && reply(r, false, "value required"@),
            Some(v) => match parse_unsigned(vstd::utf8::encode_utf8(v@), u64::MAX as nat) {
                Ok(ms) => step matches ControlStep::Seek(t) && t == ms,
                Err(_) => step matches ControlStep::Reply(r) && reply(r, false, "invalid timestamp"@),
            },
        },
        params.action@ != "pause"@ && params.action@ != "resume"@ && params.action@ != "status"@
            && params.action@ != "stop"@ && params.action@ != "seek"@ ==> (step matches ControlStep::Reply(r)
            && reply(r, false, "unknown action: "@ + params.action@)),
{
    proof {
        reveal_strlit("pause");
        reveal_strlit("resume");
        reveal_strlit("status");
        reveal_strlit("stop");
        reveal_strlit("seek");
        assert("pause"@.len() == 5 && "resume"@.len() == 6 && "stop"@.len() == 4 && "seek"@.len() == 4
            && "status"@.len() == 6);
        assert("stop"@[1] != "seek"@[1]);
        assert("status"@[0] != "resume"@[0]);
    }
    let a = params.action.as_str();
    if str_eq(a, "pause") {
        ControlStep::Pause
    } else if str_eq(a, "resume") {
        ControlStep::Resume
    } else if str_eq(a, "stop") {
        match &params.hash {
            Some(h) => match InfoHash::from_str(h.as_str()) {
                Ok(ih) => ControlStep::Stop(ih),
                Err(e) => {
                    let mut m = String::from_str("invalid hash: ");
                    let em = e.message();
                    push_str(&mut m, em.as_str());
                    proof {
                        reveal_strlit("invalid hash: ");
                        assert(m@ == "invalid hash: "@ + e.spec_message());
                        let x = parse_info_hash_spec(vstd::utf8::encode_utf8(h@))->Err_0;
                        assert(m@ =~= "invalid hash: "@ + "无效 URI: "@ + x);
                    }
                    ControlStep::Reply(ControlResponse { success: false, message: m })
                },
            },
            None => ControlStep::Reply(ControlResponse { success: false, message: String::from_str("hash required") }),
        }
    } else if str_eq(a, "seek") {
        match &params.value {
            Some(v) => match parse_u64_bytes(v.as_str().as_bytes()) {
                Ok(ms) => ControlStep::Seek(ms),
                Err(_) => ControlStep::Reply(ControlResponse { success: false, message: String::from_str("invalid timestamp") }),
            },
            None => ControlStep::Reply(ControlResponse { success: false, message: String::from_str("value required") }),
        }
    } else if str_eq(a, "status") {
        ControlStep::Status
    } else {
        let mut m = String::from_str("unknown action: ");
        push_str(&mut m, a);
        proof {
            reveal_strlit("unknown action: ");
        }
        ControlStep::Reply(ControlResponse { success: false, message: m })
    }
}

/// Whether two texts are equal.
pub fn str_eq(a: &str, b: &str) -> (r: bool)
    ensures
        r == (a@ == b@),
{
    let ac = crate::seqs::str_chars(a);
    let bc = crate::seqs::str_chars(b);
    if ac.len() != bc.len() {
        return false;
    }
    let mut i: usize = 0;
    while i < ac.len()
        invariant
            ac@ == a@,
            bc@ == b@,
            ac@.len() == bc@.len(),
            i <= ac@.len(),
            forall|k: int| 0 <= k < i ==> ac@[k] == bc@[k],
        decreases ac@.len() - i,
    {
        if ac[i] != bc[i] {
            return false;
        }
        i += 1;
    }
    assert(a@ =~= b@);
    true
}

/// The answer after a pause.
pub fn paused_reply() -> (r: ControlResponse)
    ensures
        reply(r, true, "paused"@),
{
    ControlResponse { success: true, message: String::from_str("paused") }
}

/// The answer after a resume.
pub fn resumed_reply() -> (r: ControlResponse)
    ensures
        reply(r, true, "resumed"@),
{
    ControlResponse { success: true, message: String::from_str("resumed") }
}

/// The answer after a stop.
pub fn stopped_reply() -> (r: ControlResponse)
    ensures
        reply(r, true, "stopped"@),
{
    ControlResponse { success: true, message: String::from_str("stopped") }
}

/// The answer after a seek to `ms`: `seeked to <ms>ms`, or the error's text.
pub fn seek_reply(ms: u64, outcome: Result<(), QvodError>) -> (r: ControlResponse)
    ensures
        match outcome {
            Ok(()) => reply(r, true, "seeked to "@ + ascii_chars(dec_nat(ms as nat)) + "ms"@),
            Err(e) => reply(r, false, e.spec_message()),
        },
{
    match outcome {
        Ok(()) => {
            let mut m = String::from_str("seeked to ");
            let d = decimal_string(ms);
            push_str(&mut m, d.as_str());
            push_str(&mut m, "ms");
            proof {
                reveal_strlit("seeked to ");
                reveal_strlit("ms");
            }
            ControlResponse { success: true, message: m }
        },
        Err(e) => ControlResponse { success: false, message: e.message() },
    }
}

/// The answer to a status request given the report lines: the lines, or
/// `no active streams` when there are none.
pub fn status_reply(report: String) -> (r: ControlResponse)
    ensures
        report@.len() == 0 ==> reply(r, true, "no active streams"@),
        report@.len() > 0 ==> reply(r, true, report@),
{
    if report.as_str().unicode_len() == 0 {
        ControlResponse { success: true, message: String::from_str("no active streams") }
    } else {
        ControlResponse { success: true, message: report }
    }
}

} // verus!
