//! Routes: which backends serve a host and path prefix, how long to wait
//! for them, and the round-robin choice among the backends that are up.

use vstd::prelude::*;
use vstd::utf8::encode_utf8;
use std::sync::atomic::AtomicUsize;
use std::sync::atomic::Ordering;

verus! {

/// How long to wait for a backend when the route does not say, in milliseconds.
pub const DEFAULT_TIMEOUT_MS: u64 = 10_000;

/// A route as written in the configuration file.
#[derive(Debug)]
pub struct RouteConfig {
    pub host: String,
    pub path: String,
    pub backends: Vec<String>,
    pub timeout: Option<u64>,
}

/// A route: requests whose `Host` is `host` and whose path starts with
/// `path` go to one of `backends`, with `timeout` milliseconds to answer.
#[derive(Debug)]
pub struct Route {
    pub host: Vec<u8>,
    pub path: Vec<u8>,
    pub backends: Vec<String>,
    pub timeout: Option<u64>,
    /// Round-robin position, advanced once per backend handed out.
    pub counter: AtomicUsize,
}

/// `s` as an owned byte vector.
fn owned_bytes(s: &str) -> (r: Vec<u8>)
    ensures
        r@ == encode_utf8(s@),
{
    vstd::slice::slice_to_vec(s.as_bytes())
}

/// The backend that the round-robin position `ticket` selects among `active`.
pub open spec fn round_robin_pick(active: Seq<String>, ticket: usize) -> Option<Seq<char>> {
    if active.len() == 0 {
        None
    } else {
        Some(active[(ticket as int) % (active.len() as int)]@)
    }
}

impl Route {
    /// The route that a configuration entry describes, its position at zero.
    pub fn from_config(value: RouteConfig) -> (r: Route)
        ensures
            r.host@ == encode_utf8(value.host@),
            r.path@ == encode_utf8(value.path@),
            r.backends@ == value.backends@,
            r.timeout == value.timeout,
    {
        let host = owned_bytes(value.host.as_str());
        let path = owned_bytes(value.path.as_str());
        Route {
            host,
            path,
            backends: value.backends,
            timeout: value.timeout,
            counter: AtomicUsize::new(0),
        }
    }

    /// How long to wait for the backend, in milliseconds.
    pub open spec fn spec_timeout_ms(&self) -> u64 {
        match self.timeout {
            Some(t) => t,
            None => DEFAULT_TIMEOUT_MS,
        }
    }

    /// How long to wait for the backend, in milliseconds.
    pub fn timeout_ms(&self) -> (r: u64)
        ensures
            r == self.spec_timeout_ms(),
    {
        match self.timeout {
            Some(t) => t,
            None => DEFAULT_TIMEOUT_MS,
        }
    }

    /// The backend that round-robin position `ticket` selects among `active`.
    pub fn pick(active: &[String], ticket: usize) -> (r: Option<String>)
        ensures
            match (r, round_robin_pick(active@, ticket)) {
                (Some(s), Some(t)) => s@ == t,
                (None, None) => true,
                _ => false,
            },
    {
        if active.len() == 0 {
            return None;
        }
        let i = ticket % active.len();
        Some(active[i].clone())
    }

    /// The next backend to send a request to, taken in turn from `active`,
    /// the backends of this route currently up. `None` when the route has
    /// no backends or none is up.
    pub fn next_addr(&self, active: &[String]) -> (r: Option<String>)
        ensures
            r is None <==> (self.backends@.len() == 0 || active@.len() == 0),
            r matches Some(s) ==> exists|i: int| 0 <= i < active@.len() && s@ == active@[i]@,
    {
        if self.backends.len() == 0 {
            return None;
        }
        if active.len() == 0 {
            return None;
        }
        let ticket = self.counter.fetch_add(1, Ordering::SeqCst);
        Self::pick(active, ticket)
    }
}

/// Round robin visits every live backend: among any `n` consecutive
/// positions, where `n` backends are live, each of them is picked once.
pub proof fn law_round_robin_visits_all(active: Seq<String>, ticket: usize, j: int)
    requires
        0 <= j < active.len(),
        ticket + active.len() <= usize::MAX,
    ensures
        exists|d: int|
            0 <= d < active.len() && #[trigger] round_robin_pick(active, (ticket + d) as usize) == Some(
                active[j]@,
            ),
{
    let n = active.len() as int;
    let r = (ticket as int) % n;
    let d = if j >= r {
        j - r
    } else {
        j - r + n
    };
    assert(0 <= d < n);
    vstd::arithmetic::div_mod::lemma_add_mod_noop(ticket as int, d, n);
    vstd::arithmetic::div_mod::lemma_small_mod(d as nat, n as nat);
    if j >= r {
        vstd::arithmetic::div_mod::lemma_small_mod(j as nat, n as nat);
    } else {
        vstd::arithmetic::div_mod::lemma_mod_add_multiples_vanish(j, n);
        vstd::arithmetic::div_mod::lemma_small_mod(j as nat, n as nat);
    }
    assert((ticket + d) % n == j);
    assert(round_robin_pick(active, (ticket + d) as usize) == Some(active[j]@));
}

/// The backend picked at a position is always one of the live backends.
pub proof fn law_round_robin_picks_live(active: Seq<String>, ticket: usize)
    requires
        active.len() > 0,
    ensures
        exists|i: int| 0 <= i < active.len() && round_robin_pick(active, ticket) == Some(active[i]@),
{
    let i = (ticket as int) % (active.len() as int);
    assert(round_robin_pick(active, ticket) == Some(active[i]@));
}

/// The timeout a route gives its backend is exactly its configured timeout
/// when it has one, and `DEFAULT_TIMEOUT_MS` (10 seconds) only when it has
/// none; routes with different configured timeouts give different timeouts.
pub proof fn law_timeout_is_configured(route: Route, other: Route)
    ensures
        route.timeout matches Some(t) ==> route.spec_timeout_ms() == t,
        route.timeout is None ==> route.spec_timeout_ms() == 10_000,
        (route.timeout matches Some(t) && other.timeout matches Some(u) && t != u)
            ==> route.spec_timeout_ms() != other.spec_timeout_ms(),
{
}

} // verus!
