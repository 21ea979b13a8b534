//! Announce tokens: a short hash of the asking address and a secret that is
//! replaced every ten minutes; a token made with the previous secret still holds.
use vstd::prelude::*;

use crate::address::{append_bytes, ip_text, ip_text_exec};
use crate::text::{dec_nat, u64_to_decimal};
use crate::types::SocketAddress;
use crate::util::{current_time_millis, sha1_hash, sha1_of};

verus! {

/// Milliseconds a secret is used before it is replaced.
pub const ROTATION_INTERVAL_MS: u64 = 600_000;

/// Sixteen random bytes.
///
/// Trusted: this calls `rand::Rng::fill` with `rand::thread_rng()`; nothing is
/// claimed about the bytes.
#[verifier::external_body]
fn random_secret() -> (s: [u8; 16]) {
    let mut s = [0u8; 16];
    rand::Rng::fill(&mut rand::thread_rng(), &mut s);
    s
}

/// The bytes hashed into a token: the address's IP text, `:`, its port in
/// decimal, `:`, and the secret.
pub open spec fn token_message(addr: SocketAddress, secret: Seq<u8>) -> Seq<u8> {
    ip_text(addr.ip) + seq![58u8] + dec_nat(addr.port as nat) + seq![58u8] + secret
}

/// The token for `addr` under `secret`: the first four bytes of the SHA-1 digest
/// of `token_message`.
pub open spec fn token_for(addr: SocketAddress, secret: Seq<u8>) -> Seq<u8> {
    sha1_of(token_message(addr, secret)).take(4)
}

/// The current secret, the previous one, and when they last changed.
pub struct TokenModel {
    pub secret_a: Seq<u8>,
    pub secret_b: Seq<u8>,
    pub last_rotation: u64,
}

/// Whether a token is the one for `addr` under the current or the previous secret.
pub open spec fn token_valid(m: TokenModel, addr: SocketAddress, token: Seq<u8>) -> bool {
    token == token_for(addr, m.secret_a) || token == token_for(addr, m.secret_b)
}

/// The state after replacing the secret by `fresh` at `now`: the current secret
/// becomes the previous one.
pub open spec fn rotated(m: TokenModel, fresh: Seq<u8>, now: u64) -> TokenModel {
    TokenModel { secret_a: fresh, secret_b: m.secret_a, last_rotation: now }
}

/// Whether the secret is due for replacement at `now`: ten minutes or more have passed.
pub open spec fn rotation_due(m: TokenModel, now: u64) -> bool {
    now >= m.last_rotation + ROTATION_INTERVAL_MS
}

/// Makes and checks announce tokens.
pub struct TokenManager {
    secret_a: [u8; 16],
    secret_b: [u8; 16],
    last_rotation_ms: u64,
}

impl View for TokenManager {
    type V = TokenModel;

    closed spec fn view(&self) -> TokenModel {
        TokenModel { secret_a: self.secret_a@, secret_b: self.secret_b@, last_rotation: self.last_rotation_ms }
    }
}

impl TokenManager {
    /// A manager with the given secrets, last changed at `now`.
    pub fn from_secrets(secret_a: [u8; 16], secret_b: [u8; 16], now: u64) -> (t: TokenManager)
        ensures
            t@ == (TokenModel { secret_a: secret_a@, secret_b: secret_b@, last_rotation: now }),
    {
        TokenManager { secret_a, secret_b, last_rotation_ms: now }
    }

    /// A manager with two fresh random secrets.
    pub fn new() -> (t: TokenManager)
        ensures
            t@.secret_a.len() == 16,
            t@.secret_b.len() == 16,
    {
        let a = random_secret();
        let b = random_secret();
        TokenManager::from_secrets(a, b, current_time_millis())
    }

    /// The token for `addr` under `secret`.
    fn generate_with_secret(&self, addr: &SocketAddress, secret: &[u8; 16]) -> (t: [u8; 4])
        ensures
            t@ == token_for(*addr, secret@),
    {
        let mut msg = ip_text_exec(&addr.ip);
        msg.push(58u8);
        append_bytes(&mut msg, u64_to_decimal(addr.port as u64).as_slice());
        msg.push(58u8);
        append_bytes(&mut msg, secret.as_slice());
        assert(msg@ =~= token_message(*addr, secret@));
        let digest = sha1_hash(msg.as_slice());
        let t: [u8; 4] = [digest[0], digest[1], digest[2], digest[3]];
        assert(t@ =~= token_for(*addr, secret@));
        t
    }

    /// The token to hand to `addr`, under the current secret.
    pub fn generate_token(&self, addr: &SocketAddress) -> (t: [u8; 4])
        ensures
            t@ == token_for(*addr, self@.secret_a),
    {
        self.generate_with_secret(addr, &self.secret_a)
    }

    /// Whether `token` is the one for `addr` under the current or the previous secret.
    pub fn verify_token(&self, addr: &SocketAddress, token: &[u8; 4]) -> (ok: bool)
        ensures
            ok == token_valid(self@, *addr, token@),
    {
        let current = self.generate_token(addr);
        if same_token(&current, token) {
            return true;
        }
        let previous = self.generate_with_secret(addr, &self.secret_b);
        same_token(&previous, token)
    }

    /// Replaces the secret by `fresh` at `now`; the current one becomes the previous one.
    pub fn rotate_with(&mut self, fresh: [u8; 16], now: u64)
        ensures
            final(self)@ == rotated(old(self)@, fresh@, now),
    {
        self.secret_b = self.secret_a;
        self.secret_a = fresh;
        self.last_rotation_ms = now;
    }

    /// Replaces the secret by a fresh random one; the current one becomes the previous one.
    pub fn rotate_secret(&mut self)
        ensures
            exists|fresh: Seq<u8>, now: u64|
                fresh.len() == 16 && final(self)@ == #[trigger] rotated(old(self)@, fresh, now),
    {
        let fresh = random_secret();
        let now = current_time_millis();
        self.rotate_with(fresh, now);
        assert(fresh@.len() == 16 && self@ == rotated(old(self)@, fresh@, now));
    }

    /// Replaces the secret by `fresh` if ten minutes have passed since the last change at `now`.
    pub fn check_rotation_with(&mut self, fresh: [u8; 16], now: u64)
        ensures
            rotation_due(old(self)@, now) ==> final(self)@ == rotated(old(self)@, fresh@, now),
            !rotation_due(old(self)@, now) ==> final(self)@ == old(self)@,
    {
        if now >= self.last_rotation_ms && now - self.last_rotation_ms >= ROTATION_INTERVAL_MS {
            self.rotate_with(fresh, now);
        }
    }

    /// Replaces the secret by a fresh random one if ten minutes have passed since the last change.
    pub fn check_rotation(&mut self)
        ensures
            exists|now: u64|
                #![trigger rotation_due(old(self)@, now)]
                (rotation_due(old(self)@, now) ==> final(self)@.secret_b == old(self)@.secret_a
                    && final(self)@.last_rotation == now && final(self)@.secret_a.len() == 16)
                && (!rotation_due(old(self)@, now) ==> final(self)@ == old(self)@),
    {
        let now = current_time_millis();
        if now >= self.last_rotation_ms && now - self.last_rotation_ms >= ROTATION_INTERVAL_MS {
            let fresh = random_secret();
            self.rotate_with(fresh, now);
        }
        assert(rotation_due(old(self)@, now) ==> self@.secret_b == old(self)@.secret_a
            && self@.last_rotation == now && self@.secret_a.len() == 16);
        assert(!rotation_due(old(self)@, now) ==> self@ == old(self)@);
    }
}

/// Whether two tokens are equal.
fn same_token(a: &[u8; 4], b: &[u8; 4]) -> (r: bool)
    ensures
        r == (a@ == b@),
{
    let r = a[0] == b[0] && a[1] == b[1] && a[2] == b[2] && a[3] == b[3];
    if r {
        assert(a@ =~= b@);
    }
    r
}

/// A token the manager hands out is one it accepts.
pub proof fn law_generated_token_verifies(m: TokenModel, addr: SocketAddress)
    ensures
        token_valid(m, addr, token_for(addr, m.secret_a)),
{
}

/// After the secret is replaced, a token handed out before is still accepted.
pub proof fn law_token_survives_rotation(m: TokenModel, addr: SocketAddress, fresh: Seq<u8>, now: u64)
    ensures
        token_valid(rotated(m, fresh, now), addr, token_for(addr, m.secret_a)),
{
}

} // verus!
