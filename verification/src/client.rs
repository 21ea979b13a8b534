//! The addresses the player asks a streaming server for, and what it makes of
//! the server's control replies.
use vstd::prelude::*;

use crate::error::QvodError;
use crate::gui::ControlResponse;
use crate::strings::{ascii_chars, decimal_string, push_str};
use crate::text::dec_nat;
use crate::tracker::{url_encode, url_encode_bytes};

verus! {

/// A query value percent-encoded: letters, digits and `-_.~` stay, every other
/// byte becomes `%` and two uppercase hexadecimal digits.
pub fn urlencoding(s: &str) -> (e: String)
    ensures
        e@ == ascii_chars(url_encode_bytes(vstd::utf8::encode_utf8(s@))),
{
    url_encode(s.as_bytes())
}

/// The address that streams a file: `<base>/play?hash=<hash, encoded>`.
pub fn play_url(base_url: &str, hash: &str) -> (u: String)
    ensures
        u@ == base_url@ + "/play?hash="@ + ascii_chars(url_encode_bytes(vstd::utf8::encode_utf8(hash@))),
{
    let mut u = String::from_str(base_url);
    push_str(&mut u, "/play?hash=");
    let e = urlencoding(hash);
    push_str(&mut u, e.as_str());
    u
}

/// The address of a segment: `<base>/segment?hash=<hash, encoded>&index=<index>`.
pub fn segment_url(base_url: &str, hash: &str, index: u32) -> (u: String)
    ensures
        u@ == base_url@ + "/segment?hash="@ + ascii_chars(url_encode_bytes(vstd::utf8::encode_utf8(hash@)))
            + "&index="@ + ascii_chars(dec_nat(index as nat)),
{
    let mut u = String::from_str(base_url);
    push_str(&mut u, "/segment?hash=");
    let e = urlencoding(hash);
    push_str(&mut u, e.as_str());
    push_str(&mut u, "&index=");
    let d = decimal_string(index as u64);
    push_str(&mut u, d.as_str());
    u
}

/// The server's address of an endpoint: `<base>/<endpoint>`.
pub fn endpoint_url(base_url: &str, endpoint: &str) -> (u: String)
    ensures
        u@ == base_url@ + "/"@ + endpoint@,
{
    let mut u = String::from_str(base_url);
    push_str(&mut u, "/");
    push_str(&mut u, endpoint);
    u
}

/// What a control reply means: done, or refused with the server's message.
pub fn control_outcome(reply: ControlResponse) -> (r: Result<(), QvodError>)
    ensures
        reply.success ==> r is Ok,
        !reply.success ==> (r matches Err(QvodError::Protocol(m)) && m@ == reply.message@),
{
    if reply.success {
        Ok(())
    } else {
        Err(QvodError::Protocol(reply.message))
    }
}

} // verus!
