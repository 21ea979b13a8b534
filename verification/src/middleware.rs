//! Rate limiting of the local server: at most so many requests per address
//! within a sliding window.
use vstd::prelude::*;

use crate::types::IpAddress;
use crate::util::current_time_millis;

verus! {

/// Whether a request at `t` is still inside the window of `window_secs` seconds
/// ending at `now` (times in milliseconds; a request after `now` counts as just made).
pub open spec fn in_window(t: u64, now: u64, window_secs: u64) -> bool {
    (if now >= t { now - t } else { 0 }) < window_secs * 1000
}

/// The requests of `ts` still inside the window, in order.
pub open spec fn recent(ts: Seq<u64>, now: u64, window_secs: u64) -> Seq<u64>
    decreases ts.len(),
{
    if ts.len() == 0 {
        ts
    } else {
        let r = recent(ts.drop_last(), now, window_secs);
        if in_window(ts.last(), now, window_secs) {
            r.push(ts.last())
        } else {
            r
        }
    }
}

/// The request times recorded for `ip`.
pub open spec fn requests_for(rs: Seq<(IpAddress, Seq<u64>)>, ip: IpAddress) -> Seq<u64> {
    if exists|i: int| 0 <= i < rs.len() && (#[trigger] rs[i]).0 == ip {
        rs[choose|i: int| 0 <= i < rs.len() && (#[trigger] rs[i]).0 == ip].1
    } else {
        Seq::empty()
    }
}

/// The request times per address, the limit, and the window in seconds.
pub struct LimiterModel {
    pub requests: Seq<(IpAddress, Seq<u64>)>,
    pub max_requests: nat,
    pub window_secs: u64,
}

/// Each address recorded once, never with more than the limit of times.
pub open spec fn limiter_ok(m: LimiterModel) -> bool {
    &&& forall|i: int, j: int| 0 <= i < j < m.requests.len() ==> (#[trigger] m.requests[i]).0 != (#[trigger] m.requests[j]).0
    &&& forall|i: int| 0 <= i < m.requests.len() ==> (#[trigger] m.requests[i]).1.len() <= m.max_requests
}

/// What deciding on a request from `ip` at `now` does to the state `pre`, giving
/// `post` and the answer `allowed`: the request is allowed when fewer than the limit
/// of the times recorded for `ip` are inside the window; the times kept for `ip` are
/// those inside the window, with `now` added when allowed; every other address, the
/// limit and the window stay as they were.
pub open spec fn checked_at(pre: LimiterModel, post: LimiterModel, ip: IpAddress, now: u64, allowed: bool) -> bool {
    let kept = recent(requests_for(pre.requests, ip), now, pre.window_secs);
    &&& post.max_requests == pre.max_requests
    &&& post.window_secs == pre.window_secs
    &&& allowed == (kept.len() < pre.max_requests)
    &&& requests_for(post.requests, ip) == if allowed { kept.push(now) } else { kept }
    &&& forall|other: IpAddress|
        other != ip ==> #[trigger] requests_for(post.requests, other) == requests_for(pre.requests, other)
}

/// Allows at most `max_requests` requests per address within a window.
pub struct RateLimiter {
    requests: Vec<(IpAddress, Vec<u64>)>,
    max_requests: usize,
    window_secs: u64,
}

impl View for RateLimiter {
    type V = LimiterModel;

    closed spec fn view(&self) -> LimiterModel {
        LimiterModel {
            requests: self.requests@.map_values(|p: (IpAddress, Vec<u64>)| (p.0, p.1@)),
            max_requests: self.max_requests as nat,
            window_secs: self.window_secs,
        }
    }
}

/// Whether two addresses are the same.
pub fn same_ip(a: &IpAddress, b: &IpAddress) -> (r: bool)
    ensures
        r == (*a == *b),
{
    let sa = crate::types::SocketAddress { ip: *a, port: 0 };
    let sb = crate::types::SocketAddress { ip: *b, port: 0 };
    crate::krpc::same_addr(&sa, &sb)
}

/// The times of `ts` still inside the window.
fn keep_recent(ts: &Vec<u64>, now: u64, window_secs: u64) -> (r: Vec<u64>)
    ensures
        r@ == recent(ts@, now, window_secs),
        r@.len() <= ts@.len(),
{
    let mut r: Vec<u64> = Vec::new();
    let mut i: usize = 0;
    while i < ts.len()
        invariant
            i <= ts@.len(),
            r@ == recent(ts@.take(i as int), now, window_secs),
            r@.len() <= i,
        decreases ts@.len() - i,
    {
        let t = ts[i];
        proof {
            assert(ts@.take(i + 1).drop_last() =~= ts@.take(i as int));
            assert(ts@.take(i + 1).last() == t);
        }
        let age: u64 = if now >= t { now - t } else { 0 };
        if (age as u128) < (window_secs as u128) * 1000 {
            r.push(t);
        }
        i += 1;
    }
    assert(ts@.take(ts@.len() as int) =~= ts@);
    r
}

impl RateLimiter {
    /// A limiter of `max_requests` per `window_secs` seconds with no request seen.
    pub fn new(max_requests: usize, window_secs: u64) -> (l: RateLimiter)
        ensures
            l@ == (LimiterModel { requests: Seq::empty(), max_requests: max_requests as nat, window_secs }),
            limiter_ok(l@),
    {
        let l = RateLimiter { requests: Vec::new(), max_requests, window_secs };
        assert(l@.requests =~= Seq::<(IpAddress, Seq<u64>)>::empty());
        l
    }

    /// Decides on a request from `ip` at `now`: the times of `ip` outside the
    /// window are forgotten; the request is allowed, and its time recorded, when
    /// fewer than the limit remain.
    pub fn check_at(&mut self, ip: IpAddress, now: u64) -> (allowed: bool)
        requires
            limiter_ok(old(self)@),
        ensures
            limiter_ok(final(self)@),
            final(self)@.max_requests == old(self)@.max_requests,
            final(self)@.window_secs == old(self)@.window_secs,
            ({
                let kept = recent(requests_for(old(self)@.requests, ip), now, old(self)@.window_secs);
                &&& allowed == (kept.len() < old(self)@.max_requests)
                &&& requests_for(final(self)@.requests, ip) == if allowed { kept.push(now) } else { kept }
            }),
            forall|other: IpAddress|
                other != ip ==> #[trigger] requests_for(final(self)@.requests, other) == requests_for(
                    old(self)@.requests,
                    other,
                ),
    {
        let ghost rs = self@.requests;
        let mut i: usize = 0;
        let mut found = false;
        while i < self.requests.len() && !found
            invariant
                i <= rs.len(),
                self@ == old(self)@,
                rs == self@.requests,
                limiter_ok(self@),
                found ==> i < rs.len() && rs[i as int].0 == ip,
                forall|j: int| 0 <= j < i ==> (#[trigger] rs[j]).0 != ip,
            decreases rs.len() - i + (if found { 0int } else { 1int }),
        {
            if same_ip(&self.requests[i].0, &ip) {
                found = true;
            } else {
                i += 1;
            }
        }
        if found {
            proof {
                let c = choose|j: int| 0 <= j < rs.len() && (#[trigger] rs[j]).0 == ip;
                assert(c == i) by {
                    if c < i {
                        assert(rs[c].0 != ip);
                    } else if c > i {
                        assert(rs[i as int].0 != rs[c].0);
                    }
                };
            }
            let (key, ts) = self.requests.remove(i);
            let mut kept = keep_recent(&ts, now, self.window_secs);
            let allowed = kept.len() < self.max_requests;
            if allowed {
                kept.push(now);
            }
            let ghost newlist = kept@;
            self.requests.insert(i, (key, kept));
            proof {
                let q = self@.requests;
                assert(q =~= rs.update(i as int, (ip, newlist)));
                assert forall|g: IpAddress| #[trigger] requests_for(q, g) == (if g == ip { newlist } else { requests_for(rs, g) }) by {
                    if g == ip {
                        let c = choose|j: int| 0 <= j < q.len() && (#[trigger] q[j]).0 == g;
                        assert(q[i as int].0 == g);
                        if c != i {
                            if c < i {
                                assert(rs[c].0 != rs[i as int].0);
                            } else {
                                assert(rs[i as int].0 != rs[c].0);
                            }
                        }
                    } else {
                        if exists|j: int| 0 <= j < rs.len() && (#[trigger] rs[j]).0 == g {
                            let c = choose|j: int| 0 <= j < rs.len() && (#[trigger] rs[j]).0 == g;
                            assert(q[c].0 == g);
                            let d = choose|j: int| 0 <= j < q.len() && (#[trigger] q[j]).0 == g;
                            if d != c {
                                if d < c {
                                    assert(rs[d].0 != rs[c].0);
                                } else {
                                    assert(rs[c].0 != rs[d].0);
                                }
                            }
                        } else {
                            assert forall|j: int| 0 <= j < q.len() implies (#[trigger] q[j]).0 != g by {
                                assert(rs[j].0 != g);
                            }
                        }
                    }
                }
                assert forall|a: int, b: int| 0 <= a < b < q.len() implies (#[trigger] q[a]).0 != (#[trigger] q[b]).0 by {
                    assert(q[a].0 == rs[a].0 && q[b].0 == rs[b].0);
                }
                assert forall|a: int| 0 <= a < q.len() implies (#[trigger] q[a]).1.len() <= self.max_requests by {
                    if a != i {
                        assert(rs[a].1.len() <= self.max_requests);
                    } else {
                        lemma_recent_len(rs[a].1, now, self.window_secs);
                    }
                }
            }
            allowed
        } else {
            let kept: Vec<u64> = Vec::new();
            let allowed = 0 < self.max_requests;
            let mut list = kept;
            if allowed {
                list.push(now);
            }
            let ghost newlist = list@;
            self.requests.push((ip, list));
            proof {
                let q = self@.requests;
                assert(q =~= rs.push((ip, newlist)));
                assert(recent(Seq::<u64>::empty(), now, self.window_secs) =~= Seq::<u64>::empty());
                assert(requests_for(rs, ip) =~= Seq::<u64>::empty());
                assert forall|g: IpAddress| #[trigger] requests_for(q, g) == (if g == ip { newlist } else { requests_for(rs, g) }) by {
                    if g == ip {
                        assert(q[rs.len() as int].0 == g);
                        let c = choose|j: int| 0 <= j < q.len() && (#[trigger] q[j]).0 == g;
                        if c < rs.len() {
                            assert(rs[c].0 != g);
                        }
                    } else {
                        if exists|j: int| 0 <= j < rs.len() && (#[trigger] rs[j]).0 == g {
                            let c = choose|j: int| 0 <= j < rs.len() && (#[trigger] rs[j]).0 == g;
                            assert(q[c].0 == g);
                            let d = choose|j: int| 0 <= j < q.len() && (#[trigger] q[j]).0 == g;
                            if d != c {
                                if d < c {
                                    assert(rs[d].0 != rs[c].0);
                                } else if d < rs.len() {
                                    assert(rs[c].0 != rs[d].0);
                                }
                            }
                        } else {
                            assert forall|j: int| 0 <= j < q.len() implies (#[trigger] q[j]).0 != g by {
                                if j < rs.len() {
                                    assert(rs[j].0 != g);
                                }
                            }
                        }
                    }
                }
                assert forall|a: int, b: int| 0 <= a < b < q.len() implies (#[trigger] q[a]).0 != (#[trigger] q[b]).0 by {
                    if b == rs.len() {
                        assert(rs[a].0 != ip);
                    } else {
                        assert(q[a].0 == rs[a].0 && q[b].0 == rs[b].0);
                    }
                }
                assert forall|a: int| 0 <= a < q.len() implies (#[trigger] q[a]).1.len() <= self.max_requests by {
                    if a < rs.len() {
                        assert(rs[a].1.len() <= self.max_requests);
                    }
                }
            }
            allowed
        }
    }

    /// Decides on a request from `ip` now; see `check_at`.
    pub fn check(&mut self, ip: IpAddress) -> (allowed: bool)
        requires
            limiter_ok(old(self)@),
        ensures
            limiter_ok(final(self)@),
            exists|now: u64| checked_at(old(self)@, final(self)@, ip, now, allowed),
    {
        let now = current_time_millis();
        let allowed = self.check_at(ip, now);
        assert(checked_at(old(self)@, self@, ip, now, allowed));
        allowed
    }
}

/// Forgetting old times never adds any.
pub proof fn lemma_recent_len(ts: Seq<u64>, now: u64, window_secs: u64)
    ensures
        recent(ts, now, window_secs).len() <= ts.len(),
    decreases ts.len(),
{
    if ts.len() > 0 {
        lemma_recent_len(ts.drop_last(), now, window_secs);
    }
}

/// Within any window, an address is allowed no more than the limit of requests:
/// the times recorded for it after a check, all inside the window, number at
/// most the limit, and a refused request records nothing new.
pub proof fn law_rate_limit_bound(m: LimiterModel, ip: IpAddress, now: u64)
    requires
        limiter_ok(m),
    ensures
        ({
            let kept = recent(requests_for(m.requests, ip), now, m.window_secs);
            let allowed = kept.len() < m.max_requests;
            let after = if allowed { kept.push(now) } else { kept };
            &&& after.len() <= m.max_requests
            &&& !allowed ==> after == kept
        }),
{
    let rs = m.requests;
    if exists|i: int| 0 <= i < rs.len() && (#[trigger] rs[i]).0 == ip {
        let c = choose|i: int| 0 <= i < rs.len() && (#[trigger] rs[i]).0 == ip;
        lemma_recent_len(rs[c].1, now, m.window_secs);
    } else {
        lemma_recent_len(Seq::empty(), now, m.window_secs);
    }
}

} // verus!
