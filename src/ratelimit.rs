use vstd::prelude::*;
use vstd::string::StrSliceExecFns;

use crate::header::Header;

verus! {

/// The abstract state of a limiter: its configuration, the start of the
/// current window and the number of requests each client made in it.
pub struct LimiterState {
    pub limit: nat,
    pub window: nat,
    pub window_start: nat,
    pub counts: Map<Seq<char>, nat>,
}

impl LimiterState {
    /// Requests made by `key` in the current window.
    pub open spec fn count(self, key: Seq<char>) -> nat {
        if self.counts.contains_key(key) {
            self.counts[key]
        } else {
            0
        }
    }

    /// The window has run out at time `now`.
    pub open spec fn expired(self, now: nat) -> bool {
        self.window_start + self.window <= now
    }

    /// The state after the window check at time `now`: a new, empty window
    /// starting at `now` if the current one has run out.
    pub open spec fn reset(self, now: nat) -> LimiterState {
        if self.expired(now) {
            LimiterState {
                limit: self.limit,
                window: self.window,
                window_start: now,
                counts: Map::empty(),
            }
        } else {
            self
        }
    }

    /// `key` has used up its requests for the current window.
    pub open spec fn over_limit(self, key: Seq<char>) -> bool {
        self.count(key) >= self.limit
    }

    /// The state with one more request counted for `key`.
    pub open spec fn record(self, key: Seq<char>) -> LimiterState {
        LimiterState {
            limit: self.limit,
            window: self.window,
            window_start: self.window_start,
            counts: self.counts.insert(key, self.count(key) + 1),
        }
    }

    /// One request of `key` at time `now`: the next state and whether the
    /// request is admitted.
    pub open spec fn request(self, now: nat, key: Seq<char>) -> (LimiterState, bool) {
        let s = self.reset(now);
        if s.over_limit(key) {
            (s, false)
        } else {
            (s.record(key), true)
        }
    }
}

/// The key used for requests whose address gives no host.
pub open spec fn fallback_key() -> Seq<char> {
    seq!['n', 'u', 'l', 'l']
}

/// The part of an address before its first colon.
pub open spec fn host_part(a: Seq<char>) -> Seq<char>
    decreases a.len(),
{
    if a.len() == 0 {
        a
    } else if a[0] == ':' {
        Seq::empty()
    } else {
        seq![a[0]] + host_part(a.drop_first())
    }
}

/// The client key of a request: the host of its address, or the fallback
/// key when the address is absent or its host is empty.
pub open spec fn key_of(address: Option<&str>) -> Seq<char> {
    match address {
        Some(a) => if host_part(a@).len() > 0 {
            host_part(a@)
        } else {
            fallback_key()
        },
        None => fallback_key(),
    }
}

/// A response that the limiter hands back instead of the requested one.
#[derive(Debug)]
pub struct Response {
    pub status: u16,
    pub reason: String,
    pub headers: Vec<Header>,
    pub body: String,
}

impl Response {
    /// This is the limiter's rejection: `429 Too Many Requests` with a plain
    /// text content type.
    pub open spec fn is_rejection(&self) -> bool {
        &&& self.status == 429
        &&& self.reason@ == "Too Many Requests"@
        &&& self.headers@.len() == 1
        &&& self.headers@[0].name_view() == "Content-Type"@
        &&& self.headers@[0].value_view() == "text/plain"@
        &&& self.body@ == "Too Many Requests"@
    }

    /// The response for a client that is over its limit.
    pub fn too_many_requests() -> (r: Response)
        ensures
            r.is_rejection(),
    {
        let headers = vec![Header::new("Content-Type", "text/plain")];
        Response {
            status: 429,
            reason: "Too Many Requests".to_owned(),
            headers,
            body: "Too Many Requests".to_owned(),
        }
    }
}

proof fn lemma_host_part(a: Seq<char>, p: int)
    requires
        0 <= p <= a.len(),
        forall|j: int| 0 <= j < p ==> a[j] != ':',
        p == a.len() || a[p] == ':',
    ensures
        host_part(a) == a.take(p),
    decreases a.len(),
{
    if a.len() > 0 && a[0] != ':' {
        lemma_host_part(a.drop_first(), p - 1);
        assert(seq![a[0]] + a.drop_first().take(p - 1) =~= a.take(p));
    } else {
        assert(a.take(p) =~= Seq::<char>::empty());
    }
}

/// The client key of a request with the given peer address: its host,
/// without the port, or `"null"` when there is no address or no host.
pub fn client_key(address: Option<&str>) -> (r: String)
    ensures
        r@ == key_of(address),
{
    proof {
        reveal_strlit("null");
    }
    match address {
        None => "null".to_owned(),
        Some(a) => {
            let n = a.unicode_len();
            let mut p: usize = 0;
            while p < n && a.get_char(p) != ':'
                invariant
                    n == a@.len(),
                    p <= n,
                    forall|j: int| 0 <= j < p ==> a@[j] != ':',
                decreases n - p,
            {
                p = p + 1;
            }
            proof {
                lemma_host_part(a@, p as int);
            }
            if p == 0 {
                "null".to_owned()
            } else {
                let host = a.substring_char(0, p);
                assert(host@ =~= a@.take(p as int));
                host.to_owned()
            }
        },
    }
}

/// A fixed-window rate limiter: each client may make `req_limit` requests in
/// a window of `req_timeout` seconds; all clients share one window.
pub struct RateLimiter {
    req_limit: u64,
    last_reset: u64,
    req_timeout: u64,
    /// The clients seen in the current window, each once, with their counts.
    requests: Vec<(String, u64)>,
    counts: Ghost<Map<Seq<char>, nat>>,
}

impl View for RateLimiter {
    type V = LimiterState;

    closed spec fn view(&self) -> LimiterState {
        LimiterState {
            limit: self.req_limit as nat,
            window: self.req_timeout as nat,
            window_start: self.last_reset as nat,
            counts: self.counts@,
        }
    }
}

impl RateLimiter {
    /// The table holds each client once, and its counts are the model's.
    pub closed spec fn wf(&self) -> bool {
        &&& forall|i: int|
            0 <= i < self.requests@.len() ==> {
                &&& #[trigger] self.counts@.contains_key(self.requests@[i].0@)
                &&& self.counts@[self.requests@[i].0@] == self.requests@[i].1 as nat
            }
        &&& forall|i: int, j: int|
            0 <= i < j < self.requests@.len() ==> self.requests@[i].0@ != self.requests@[j].0@
        &&& forall|k: Seq<char>|
            #[trigger] self.counts@.contains_key(k) ==> exists|i: int|
                0 <= i < self.requests@.len() && self.requests@[i].0@ == k
    }

    /// Makes a limiter with an empty table and a window that started at time 0.
    pub fn new(req_limit: u64, req_timeout: u64) -> (r: RateLimiter)
        ensures
            r.wf(),
            r@ == (LimiterState {
                limit: req_limit as nat,
                window: req_timeout as nat,
                window_start: 0,
                counts: Map::empty(),
            }),
    {
        RateLimiter {
            req_limit,
            last_reset: 0,
            req_timeout,
            requests: Vec::new(),
            counts: Ghost(Map::empty()),
        }
    }

    /// The index of `key` in the table, if it is there.
    fn position(&self, key: &String) -> (r: Option<usize>)
        requires
            self.wf(),
        ensures
            r matches Some(i) ==> i < self.requests@.len() && self.requests@[i as int].0@
                == key@,
            r is None ==> !self.counts@.contains_key(key@),
    {
        let mut i: usize = 0;
        while i < self.requests.len()
            invariant
                self.wf(),
                i <= self.requests@.len(),
                forall|j: int| 0 <= j < i ==> self.requests@[j].0@ != key@,
            decreases self.requests@.len() - i,
        {
            if self.requests[i].0 == *key {
                return Some(i);
            }
            i = i + 1;
        }
        None
    }

    /// Counts one more request of `ip`.
    pub fn add_request(&mut self, ip: String)
        requires
            old(self).wf(),
            old(self)@.count(ip@) < u64::MAX,
        ensures
            final(self).wf(),
            final(self)@ == old(self)@.record(ip@),
    {
        let ghost key = ip@;
        match self.position(&ip) {
            Some(i) => {
                let c = self.requests[i].1;
                assert(self.counts@.contains_key(self.requests@[i as int].0@));
                let c1 = c + 1;
                self.requests.set(i, (ip, c1));
                self.counts = Ghost(self.counts@.insert(key, c1 as nat));
                assert forall|k: Seq<char>| #[trigger]
                    self.counts@.contains_key(k) implies exists|j: int|
                    0 <= j < self.requests@.len() && self.requests@[j].0@ == k by {
                    if k != key {
                        let j = choose|j: int|
                            0 <= j < old(self).requests@.len() && old(self).requests@[j].0@ == k;
                        assert(self.requests@[j].0@ == k);
                    } else {
                        assert(self.requests@[i as int].0@ == k);
                    }
                }
            },
            None => {
                self.requests.push((ip, 1));
                self.counts = Ghost(self.counts@.insert(key, 1nat));
                assert forall|k: Seq<char>| #[trigger]
                    self.counts@.contains_key(k) implies exists|j: int|
                    0 <= j < self.requests@.len() && self.requests@[j].0@ == k by {
                    if k != key {
                        let j = choose|j: int|
                            0 <= j < old(self).requests@.len() && old(self).requests@[j].0@ == k;
                        assert(self.requests@[j].0@ == k);
                    } else {
                        assert(self.requests@[self.requests@.len() - 1].0@ == k);
                    }
                }
            },
        }
        assert(self@.counts =~= old(self)@.record(key).counts);
    }

    /// Starts a new, empty window at `now` if the current one has run out.
    pub fn check_reset(&mut self, now: u64)
        requires
            old(self).wf(),
        ensures
            final(self).wf(),
            final(self)@ == old(self)@.reset(now as nat),
    {
        if self.req_timeout <= now && self.last_reset <= now - self.req_timeout {
            self.requests = Vec::new();
            self.counts = Ghost(Map::empty());
            self.last_reset = now;
        }
    }

    /// Whether `ip` has used up its requests for the current window.
    pub fn is_over_limit(&self, ip: String) -> (r: bool)
        requires
            self.wf(),
        ensures
            r == self@.over_limit(ip@),
    {
        match self.position(&ip) {
            Some(i) => self.requests[i].1 >= self.req_limit,
            None => 0 >= self.req_limit,
        }
    }

    /// Handles one request of `ip` at time `now`: checks the window, then
    /// lets through and counts the request unless `ip` is over its limit.
    /// Returns whether the request was let through.
    pub fn allow(&mut self, now: u64, ip: String) -> (r: bool)
        requires
            old(self).wf(),
        ensures
            final(self).wf(),
            (final(self)@, r) == old(self)@.request(now as nat, ip@),
    {
        self.check_reset(now);
        if self.is_over_limit(ip.clone()) {
            false
        } else {
            self.add_request(ip);
            true
        }
    }

    /// Handles one request from the peer `address` at time `now`. Returns
    /// the rejection to send, or `None` when the request may go on.
    pub fn handle_request(&mut self, now: u64, address: Option<&str>) -> (r: Option<Response>)
        requires
            old(self).wf(),
        ensures
            final(self).wf(),
            final(self)@ == old(self)@.request(now as nat, key_of(address)).0,
            r is None <==> old(self)@.request(now as nat, key_of(address)).1,
            r matches Some(resp) ==> resp.is_rejection(),
    {
        let key = client_key(address);
        if self.allow(now, key) {
            None
        } else {
            Some(Response::too_many_requests())
        }
    }
}

/// The state after requests of `key` at the given times, one after another.
pub open spec fn run(s: LimiterState, times: Seq<nat>, key: Seq<char>) -> LimiterState
    decreases times.len(),
{
    if times.len() == 0 {
        s
    } else {
        run(s, times.drop_last(), key).request(times.last(), key).0
    }
}

/// How many of the requests of `key` at the given times are let through.
pub open spec fn allowed_count(s: LimiterState, times: Seq<nat>, key: Seq<char>) -> nat
    decreases times.len(),
{
    if times.len() == 0 {
        0
    } else {
        allowed_count(s, times.drop_last(), key) + if run(s, times.drop_last(), key).request(
            times.last(),
            key,
        ).1 {
            1nat
        } else {
            0nat
        }
    }
}

/// Within one window, a client with no requests yet is let through exactly
/// `limit` times: of its requests the first `limit` pass and every later
/// one is refused; the window itself does not move.
pub proof fn lemma_window_admission(s: LimiterState, times: Seq<nat>, key: Seq<char>)
    requires
        s.count(key) == 0,
        forall|i: int| 0 <= i < times.len() ==> !s.expired(#[trigger] times[i]),
    ensures
        allowed_count(s, times, key) == if times.len() <= s.limit {
            times.len()
        } else {
            s.limit
        },
        run(s, times, key).count(key) == allowed_count(s, times, key),
        run(s, times, key).limit == s.limit,
        run(s, times, key).window == s.window,
        run(s, times, key).window_start == s.window_start,
        times.len() > 0 ==> (run(s, times.drop_last(), key).request(times.last(), key).1 <==> times.len()
            <= s.limit),
    decreases times.len(),
{
    if times.len() > 0 {
        let t = times.drop_last();
        assert forall|i: int| 0 <= i < t.len() implies !s.expired(#[trigger] t[i]) by {
            assert(t[i] == times[i]);
        }
        lemma_window_admission(s, t, key);
        assert(!s.expired(times[times.len() - 1]));
    }
}

/// Once the window has run out, every client starts again from nothing: its
/// next request opens a new window and is let through unless the limit is 0.
pub proof fn lemma_window_reset(s: LimiterState, now: nat, key: Seq<char>)
    requires
        s.expired(now),
    ensures
        s.reset(now).count(key) == 0,
        s.request(now, key).1 <==> s.limit > 0,
        s.request(now, key).0.window_start == now,
        s.request(now, key).0.count(key) == if s.limit > 0 {
            1nat
        } else {
            0nat
        },
{
}

/// A request of one client changes neither the count nor the standing of
/// another: only the window check at that time can.
pub proof fn lemma_client_isolation(s: LimiterState, now: nat, a: Seq<char>, b: Seq<char>)
    requires
        a != b,
    ensures
        s.request(now, a).0.count(b) == s.reset(now).count(b),
        s.request(now, a).0.over_limit(b) == s.reset(now).over_limit(b),
        !s.expired(now) ==> s.request(now, a).0.count(b) == s.count(b),
{
}

} // verus!
