//! The proxy's configuration and the access checks it drives: the client
//! address whitelist, API keys, HTTP Basic credentials, and the choice of
//! route for a request.

use vstd::prelude::*;
use vstd::utf8::{decode_utf8, encode_utf8, valid_utf8};
use base64::Engine;
use base64::prelude::BASE64_STANDARD;
use crate::bytes::{
    eq_ignore_ascii_case, eq_ignore_case, find_byte, first_index, lemma_first_index_unique, lower,
    starts_with, trim_start,
    trim_start_at, bytes_eq, COLON,
};
use crate::http::{header_block, header_map, head_lines, request_line, HeaderKey, Request, StatusCode};
use crate::routing::Route;

verus! {

broadcast use {
    vstd::utf8::encode_utf8_valid_utf8,
    vstd::utf8::encode_utf8_decode_utf8,
    vstd::utf8::decode_utf8_encode_utf8,
};

/// A client address, as `std::net::IpAddr` holds it: an IPv4 address as its
/// 32 bits, an IPv6 address as its 128 bits.
#[derive(Debug, Clone, Copy, PartialEq, Eq, Structural, Hash)]
pub enum IpAddress {
    V4(u32),
    V6(u128),
}

impl IpAddress {
    /// The IPv4 address `a.b.c.d`.
    pub fn v4(a: u8, b: u8, c: u8, d: u8) -> (r: IpAddress)
        ensures
            r == IpAddress::V4((a * 0x1000000 + b * 0x10000 + c * 0x100 + d) as u32),
    {
        IpAddress::V4((a as u32) * 0x1000000 + (b as u32) * 0x10000 + (c as u32) * 0x100 + (d as u32))
    }
}

/// The result that `base64::engine::general_purpose::STANDARD` gives when
/// decoding `input`: the decoded bytes, or `None` where it reports an error.
pub uninterp spec fn base64_standard_decode(input: Seq<u8>) -> Option<Seq<u8>>;

/// `base64::DecodeError`, the error that `decode_base64` hands back; opaque here.
#[verifier::external_type_specification]
#[verifier::external_body]
pub struct ExDecodeError(base64::DecodeError);

/// Calls `Engine::decode` of `base64::prelude::BASE64_STANDARD` (standard
/// alphabet, canonical padding) on `input`. The contract only ties the result
/// to the name `base64_standard_decode`: `Ok` with the decoded bytes exactly
/// when the name gives `Some`; what the decoding computes is not stated.
#[verifier::external_body]
fn decode_base64(input: &[u8]) -> (r: Result<Vec<u8>, base64::DecodeError>)
    ensures
        match r {
            Ok(v) => base64_standard_decode(input@) == Some(v@),
            Err(_) => base64_standard_decode(input@) is None,
        },
{
    BASE64_STANDARD.decode(input)
}

/// The map a sequence of (user, password) insertions produces; a later
/// insertion for a user replaces an earlier one.
pub open spec fn users_map(es: Seq<(Seq<char>, Seq<char>)>) -> Map<Seq<char>, Seq<char>>
    decreases es.len(),
{
    if es.len() == 0 {
        Map::empty()
    } else {
        users_map(es.drop_last()).insert(es.last().0, es.last().1)
    }
}

proof fn lemma_users_map_tail(es: Seq<(Seq<char>, Seq<char>)>, m: int, k: Seq<char>)
    requires
        0 <= m <= es.len(),
        forall|t: int| m <= t < es.len() ==> #[trigger] es[t].0 != k,
    ensures
        users_map(es).contains_key(k) == users_map(es.take(m)).contains_key(k),
        users_map(es).contains_key(k) ==> users_map(es)[k] == users_map(es.take(m))[k],
    decreases es.len(),
{
    if es.len() > m {
        assert(es.drop_last().take(m) =~= es.take(m));
        lemma_users_map_tail(es.drop_last(), m, k);
    } else {
        assert(es.take(m) =~= es);
    }
}

/// User names and their passwords for HTTP Basic authentication.
#[derive(Debug)]
pub struct UserTable {
    entries: Vec<(String, String)>,
}

impl UserTable {
    pub closed spec fn log(&self) -> Seq<(Seq<char>, Seq<char>)> {
        self.entries@.map_values(|e: (String, String)| (e.0@, e.1@))
    }
}

impl View for UserTable {
    /// User name to password.
    type V = Map<Seq<char>, Seq<char>>;

    closed spec fn view(&self) -> Map<Seq<char>, Seq<char>> {
        users_map(self.log())
    }
}

impl UserTable {
    pub fn new() -> (r: Self)
        ensures
            r@ == Map::<Seq<char>, Seq<char>>::empty(),
    {
        let r = UserTable { entries: Vec::new() };
        assert(r.log() =~= Seq::<(Seq<char>, Seq<char>)>::empty());
        r
    }

    /// Sets the password of `user`.
    pub fn insert(&mut self, user: String, password: String)
        ensures
            final(self)@ == old(self)@.insert(user@, password@),
    {
        let ghost k = user@;
        let ghost v = password@;
        self.entries.push((user, password));
        proof {
            assert(self.log().drop_last() =~= old(self).log());
            assert(self.log().last() == (k, v));
        }
    }

    /// The (user, password) pairs in the order they were set; later pairs
    /// override earlier ones for the same user.
    pub fn pairs(&self) -> (r: Vec<(String, String)>)
        ensures
            users_map(r@.map_values(|e: (String, String)| (e.0@, e.1@))) == self@,
    {
        let mut out: Vec<(String, String)> = Vec::new();
        let mut i: usize = 0;
        while i < self.entries.len()
            invariant
                i <= self.entries@.len(),
                out@.map_values(|e: (String, String)| (e.0@, e.1@)) == self.log().take(i as int),
            decreases self.entries@.len() - i,
        {
            let e = &self.entries[i];
            let user = e.0.clone();
            let password = e.1.clone();
            let ghost before = out@;
            out.push((user, password));
            proof {
                assert(self.log()[i as int] == (e.0@, e.1@));
                assert(out@ == before.push((user, password)));
                assert(out@.map_values(|e: (String, String)| (e.0@, e.1@)) =~= before.map_values(
                    |e: (String, String)| (e.0@, e.1@),
                ).push((user@, password@)));
                assert(self.log().take(i + 1) =~= self.log().take(i as int).push(self.log()[i as int]));
            }
            i = i + 1;
        }
        proof {
            assert(self.log().take(i as int) =~= self.log());
        }
        out
    }

    /// The password of the user whose name, encoded in UTF-8, is `user`.
    pub fn password_of(&self, user: &[u8]) -> (r: Option<&String>)
        ensures
            r matches Some(p) ==> valid_utf8(user@) && self@.contains_key(decode_utf8(user@))
                && p@ == self@[decode_utf8(user@)],
            r is None ==> !(valid_utf8(user@) && self@.contains_key(decode_utf8(user@))),
    {
        let ghost es = self.log();
        let mut i = self.entries.len();
        while i > 0
            invariant
                i <= self.entries@.len(),
                es == self.log(),
                forall|t: int| i <= t < es.len() ==> encode_utf8(#[trigger] es[t].0) != user@,
            decreases i,
        {
            let e = &self.entries[i - 1];
            let same = bytes_eq(e.0.as_str().as_bytes(), user);
            proof {
                assert(es[i - 1] == (e.0@, e.1@));
            }
            if same {
                proof {
                    let j = i - 1;
                    let k = decode_utf8(user@);
                    assert(k == e.0@);
                    assert forall|t: int| i <= t < es.len() implies #[trigger] es[t].0 != k by {
                        if es[t].0 == k {
                            assert(encode_utf8(es[t].0) == user@);
                        }
                    }
                    lemma_users_map_tail(es, i as int, k);
                    assert(es.take(i as int).drop_last() =~= es.take(j as int));
                }
                return Some(&e.1);
            }
            i = i - 1;
        }
        proof {
            if valid_utf8(user@) {
                let k = decode_utf8(user@);
                assert forall|t: int| 0 <= t < es.len() implies #[trigger] es[t].0 != k by {
                    if es[t].0 == k {
                        assert(encode_utf8(es[t].0) == user@);
                    }
                }
                lemma_users_map_tail(es, 0, k);
                assert(es.take(0) =~= Seq::<(Seq<char>, Seq<char>)>::empty());
            }
        }
        None
    }
}

/// `keys` holds a key whose UTF-8 encoding is `key`.
pub open spec fn key_listed(keys: Seq<String>, key: Seq<u8>) -> bool {
    valid_utf8(key) && exists|i: int| 0 <= i < keys.len() && keys[i]@ == decode_utf8(key)
}

/// Whether `keys` holds a key whose UTF-8 encoding is `key`.
pub fn api_key_listed(keys: &Vec<String>, key: &[u8]) -> (r: bool)
    ensures
        r == key_listed(keys@, key@),
{
    let mut i: usize = 0;
    while i < keys.len()
        invariant
            i <= keys@.len(),
            forall|t: int| 0 <= t < i ==> encode_utf8(#[trigger] keys@[t]@) != key@,
        decreases keys@.len() - i,
    {
        if bytes_eq(keys[i].as_str().as_bytes(), key) {
            proof {
                assert(decode_utf8(key@) == keys@[i as int]@);
            }
            return true;
        }
        i = i + 1;
    }
    proof {
        if key_listed(keys@, key@) {
            let t = choose|t: int| 0 <= t < keys@.len() && keys@[t]@ == decode_utf8(key@);
            assert(encode_utf8(keys@[t]@) == key@);
        }
    }
    false
}

/// Whether `ips` lists `peer`.
pub fn address_listed(ips: &Vec<IpAddress>, peer: IpAddress) -> (r: bool)
    ensures
        r == ips@.contains(peer),
{
    let mut i: usize = 0;
    while i < ips.len()
        invariant
            i <= ips@.len(),
            forall|t: int| 0 <= t < i ==> ips@[t] != peer,
        decreases ips@.len() - i,
    {
        if ips[i] == peer {
            proof {
                assert(ips@[i as int] == peer);
            }
            return true;
        }
        i = i + 1;
    }
    false
}

/// Credentials for HTTP Basic authentication and API keys.
#[derive(Debug)]
pub struct Auth {
    pub users: Option<UserTable>,
    pub api_keys: Option<Vec<String>>,
}

/// Who may use the proxy.
#[derive(Debug)]
pub struct AccessControl {
    pub whitelist: Option<Vec<IpAddress>>,
    pub auth: Option<Auth>,
}

/// The proxy's configuration.
#[derive(Debug)]
pub struct Config {
    pub listen: String,
    pub routes: Vec<Route>,
    pub access: Option<AccessControl>,
}

/// The bytes of `Basic`.
pub open spec fn basic_scheme() -> Seq<u8> {
    seq![66u8, 97u8, 115u8, 105u8, 99u8]
}

/// The bytes of `host`.
pub open spec fn host_field() -> Seq<u8> {
    seq![104u8, 111u8, 115u8, 116u8]
}

/// The bytes of `authorization`.
pub open spec fn authorization_field() -> Seq<u8> {
    seq![97u8, 117u8, 116u8, 104u8, 111u8, 114u8, 105u8, 122u8, 97u8, 116u8, 105u8, 111u8, 110u8]
}

/// The bytes of `x-api-key`.
pub open spec fn api_key_field() -> Seq<u8> {
    seq![120u8, 45u8, 97u8, 112u8, 105u8, 45u8, 107u8, 101u8, 121u8]
}

/// Decoded Basic credentials `user:password` name a user of `users`, valid
/// UTF-8, whose password encodes to the bytes after the first colon.
pub open spec fn credentials_match(users: Map<Seq<char>, Seq<char>>, decoded: Seq<u8>) -> bool {
    let i = first_index(decoded, COLON);
    let user = decoded.take(i);
    &&& i < decoded.len()
    &&& valid_utf8(user)
    &&& users.contains_key(decode_utf8(user))
    &&& encode_utf8(users[decode_utf8(user)]) == decoded.skip(i + 1)
}

/// An `Authorization` value is `Basic` (in any case), then the base64 of
/// credentials that `credentials_match` accepts.
pub open spec fn basic_auth_ok(users: Map<Seq<char>, Seq<char>>, header: Seq<u8>) -> bool {
    &&& header.len() > 5
    &&& eq_ignore_case(header.take(5), basic_scheme())
    &&& match base64_standard_decode(trim_start(header.skip(5))) {
        Some(decoded) => credentials_match(users, decoded),
        None => false,
    }
}

/// A route serves a request whose `Host` field is its host and whose path
/// starts with its path.
pub open spec fn route_matches(route: Route, headers: Map<Seq<u8>, Seq<u8>>, path: Seq<u8>) -> bool {
    &&& headers.contains_key(host_field())
    &&& headers[host_field()] == route.host@
    &&& route.path@.len() <= path.len()
    &&& path.take(route.path@.len() as int) == route.path@
}

/// The position of the first of `routes` that serves a request with
/// `headers` and `path`.
pub open spec fn first_match(routes: Seq<Route>, headers: Map<Seq<u8>, Seq<u8>>, path: Seq<u8>) -> Option<int>
    decreases routes.len(),
{
    if routes.len() == 0 {
        None
    } else if route_matches(routes[0], headers, path) {
        Some(0)
    } else {
        match first_match(routes.drop_first(), headers, path) {
            Some(i) => Some(i + 1),
            None => None,
        }
    }
}

/// `first_match` is the least matching position, `None` when none matches.
pub proof fn lemma_first_match_at(routes: Seq<Route>, headers: Map<Seq<u8>, Seq<u8>>, path: Seq<u8>, i: int)
    requires
        0 <= i <= routes.len(),
        forall|j: int| 0 <= j < i ==> !route_matches(#[trigger] routes[j], headers, path),
        i < routes.len() ==> route_matches(routes[i], headers, path),
    ensures
        first_match(routes, headers, path) == (if i < routes.len() {
            Some(i)
        } else {
            None
        }),
    decreases routes.len(),
{
    if routes.len() > 0 && i > 0 {
        assert forall|j: int| 0 <= j < i - 1 implies !route_matches(
            #[trigger] routes.drop_first()[j],
            headers,
            path,
        ) by {
            assert(routes.drop_first()[j] == routes[j + 1]);
        }
        lemma_first_match_at(routes.drop_first(), headers, path, i - 1);
    }
}

/// Whether decoded Basic credentials `user:password` match `users`.
pub fn check_credentials(users: &UserTable, decoded: &[u8]) -> (r: bool)
    ensures
        r == credentials_match(users@, decoded@),
{
    let c = find_byte(decoded, 0, decoded.len(), COLON);
    proof {
        assert(decoded@.subrange(0, decoded@.len() as int) =~= decoded@);
    }
    if c == decoded.len() {
        return false;
    }
    let user = &decoded[0..c];
    let password = &decoded[c + 1..decoded.len()];
    proof {
        assert(user@ =~= decoded@.take(c as int));
        assert(password@ =~= decoded@.skip(c + 1));
    }
    match users.password_of(user) {
        Some(p) => bytes_eq(p.as_str().as_bytes(), password),
        None => false,
    }
}

impl Config {
    /// The users table, when Basic authentication is configured.
    pub open spec fn users(&self) -> Option<UserTable> {
        match self.access {
            Some(acc) => match acc.auth {
                Some(auth) => auth.users,
                None => None,
            },
            None => None,
        }
    }

    pub open spec fn spec_permit_addr(&self, peer: IpAddress) -> bool {
        match self.access {
            None => true,
            Some(acc) => match acc.whitelist {
                None => true,
                Some(ips) => ips@.contains(peer),
            },
        }
    }

    pub open spec fn spec_permit_api_key(&self, api_key: Seq<u8>) -> bool {
        match self.access {
            None => true,
            Some(acc) => match acc.auth {
                None => true,
                Some(auth) => match auth.api_keys {
                    None => false,
                    Some(keys) => key_listed(keys@, api_key),
                },
            },
        }
    }

    pub open spec fn spec_permit_user(&self, header: Seq<u8>) -> bool {
        match self.users() {
            None => true,
            Some(users) => basic_auth_ok(users@, header),
        }
    }

    pub open spec fn spec_is_proxy_private(&self) -> bool {
        match self.access {
            Some(acc) => acc.auth is Some,
            None => false,
        }
    }

    /// Appends `routes` to the configured routes.
    pub fn add_routes(&mut self, routes: Vec<Route>)
        ensures
            final(self).routes@ == old(self).routes@ + routes@,
            final(self).listen == old(self).listen,
            final(self).access == old(self).access,
    {
        let mut routes = routes;
        self.routes.append(&mut routes);
    }

    /// Whether a client at `peer` may connect: there is no whitelist, or it lists `peer`.
    pub fn permit_addr(&self, peer: IpAddress) -> (r: bool)
        ensures
            r == self.spec_permit_addr(peer),
    {
        match &self.access {
            None => true,
            Some(acc) => match &acc.whitelist {
                None => true,
                Some(ips) => address_listed(ips, peer),
            },
        }
    }

    /// Whether an `X-Api-Key` value is accepted: without authentication
    /// configured every key is; with it, only a listed key is.
    pub fn permit_api_key(&self, api_key: &[u8]) -> (r: bool)
        ensures
            r == self.spec_permit_api_key(api_key@),
    {
        match &self.access {
            None => true,
            Some(acc) => match &acc.auth {
                None => true,
                Some(auth) => match &auth.api_keys {
                    None => false,
                    Some(keys) => api_key_listed(keys, api_key),
                },
            },
        }
    }

    /// Whether an `Authorization` value is accepted: without users
    /// configured every value is; with them, only Basic credentials of a user.
    pub fn permit_user(&self, header: &[u8]) -> (r: bool)
        ensures
            r == self.spec_permit_user(header@),
    {
        let users = match &self.access {
            Some(acc) => match &acc.auth {
                Some(auth) => match &auth.users {
                    Some(users) => users,
                    None => return true,
                },
                None => return true,
            },
            None => return true,
        };
        if header.len() <= 5 {
            return false;
        }
        let scheme: [u8; 5] = [66, 97, 115, 105, 99];
        proof {
            assert(scheme@ =~= basic_scheme());
        }
        if !eq_ignore_ascii_case(&header[0..5], scheme.as_slice()) {
            proof {
                assert(header@.subrange(0, 5) =~= header@.take(5));
            }
            return false;
        }
        let start = trim_start_at(header, 5, header.len());
        let encoded = &header[start..header.len()];
        proof {
            assert(header@.subrange(0, 5) =~= header@.take(5));
            assert(header@.subrange(5, header@.len() as int) =~= header@.skip(5));
        }
        match decode_base64(encoded) {
            Ok(decoded) => check_credentials(users, decoded.as_slice()),
            Err(_) => false,
        }
    }

    /// The position of the first route that serves `request`.
    pub fn route_index(&self, request: &Request) -> (r: Option<usize>)
        ensures
            match r {
                Some(i) => first_match(self.routes@, request.headers@, request.path@) == Some(i as int)
                    && i < self.routes@.len(),
                None => first_match(self.routes@, request.headers@, request.path@) is None,
            },
    {
        let name: [u8; 4] = [104, 111, 115, 116];
        proof {
            assert(name@ =~= host_field());
            assert(lower(host_field()) =~= host_field());
        }
        let host = request.headers.get(&HeaderKey(name.as_slice()));
        let mut i: usize = 0;
        while i < self.routes.len()
            invariant
                i <= self.routes@.len(),
                host matches Some(h) ==> request.headers@.contains_key(host_field()) && h@
                    == request.headers@[host_field()],
                host is None ==> !request.headers@.contains_key(host_field()),
                forall|j: int|
                    0 <= j < i ==> !route_matches(
                        #[trigger] self.routes@[j],
                        request.headers@,
                        request.path@,
                    ),
            decreases self.routes@.len() - i,
        {
            let route = &self.routes[i];
            let host_ok = match host {
                Some(h) => bytes_eq(h, route.host.as_slice()),
                None => false,
            };
            if host_ok && starts_with(request.path, route.path.as_slice()) {
                proof {
                    lemma_first_match_at(self.routes@, request.headers@, request.path@, i as int);
                }
                return Some(i);
            }
            i = i + 1;
        }
        proof {
            lemma_first_match_at(self.routes@, request.headers@, request.path@, i as int);
        }
        None
    }

    /// The first route that serves `request`.
    pub fn select_upstream(&self, request: &Request) -> (r: Option<&Route>)
        ensures
            match first_match(self.routes@, request.headers@, request.path@) {
                Some(i) => r == Some(&self.routes@[i as int]),
                None => r is None,
            },
    {
        match self.route_index(request) {
            Some(i) => Some(&self.routes[i]),
            None => None,
        }
    }

    /// Whether the authentication headers of a request (with `headers`)
    /// let it through, and if not, the `401` to answer with. An
    /// `Authorization` field counts only where users are configured, so a
    /// private proxy lets a request through only on a credential checked
    /// against configured users or keys.
    pub open spec fn spec_authorize(&self, headers: Map<Seq<u8>, Seq<u8>>) -> Result<(), StatusCode> {
        let basic = if self.users() is Some && headers.contains_key(authorization_field()) {
            Some(self.spec_permit_user(headers[authorization_field()]))
        } else {
            None
        };
        let key = if headers.contains_key(api_key_field()) {
            Some(self.spec_permit_api_key(headers[api_key_field()]))
        } else {
            None
        };
        match (basic, key) {
            (Some(false), _) => Err(StatusCode::Unauthorized(true)),
            (_, Some(false)) => Err(StatusCode::Unauthorized(false)),
            (None, None) => if self.spec_is_proxy_private() {
                Err(StatusCode::Unauthorized(false))
            } else {
                Ok(())
            },
            _ => Ok(()),
        }
    }

    /// Whether a users table for Basic authentication is configured.
    pub fn has_users(&self) -> (r: bool)
        ensures
            r == self.users() is Some,
    {
        match &self.access {
            Some(acc) => match &acc.auth {
                Some(auth) => auth.users.is_some(),
                None => false,
            },
            None => false,
        }
    }

    /// Checks the `Authorization` and `X-Api-Key` fields of a request: a
    /// rejected Basic credential is answered with a challenge, a rejected key
    /// without one, and a private proxy refuses a request that has neither
    /// (an `Authorization` field counts only where users are configured).
    pub fn authorize(&self, request: &Request) -> (r: Result<(), StatusCode>)
        ensures
            r == self.spec_authorize(request.headers@),
    {
        let authorization: [u8; 13] = [97, 117, 116, 104, 111, 114, 105, 122, 97, 116, 105, 111, 110];
        let api_key: [u8; 9] = [120, 45, 97, 112, 105, 45, 107, 101, 121];
        proof {
            assert(authorization@ =~= authorization_field());
            assert(lower(authorization_field()) =~= authorization_field());
            assert(api_key@ =~= api_key_field());
            assert(lower(api_key_field()) =~= api_key_field());
        }
        let basic = if self.has_users() {
            match request.headers.get(&HeaderKey(authorization.as_slice())) {
                Some(v) => Some(self.permit_user(v)),
                None => None,
            }
        } else {
            None
        };
        let key = match request.headers.get(&HeaderKey(api_key.as_slice())) {
            Some(v) => Some(self.permit_api_key(v)),
            None => None,
        };
        match (basic, key) {
            (Some(false), _) => Err(StatusCode::Unauthorized(true)),
            (_, Some(false)) => Err(StatusCode::Unauthorized(false)),
            (None, None) => if self.is_proxy_private() {
                Err(StatusCode::Unauthorized(false))
            } else {
                Ok(())
            },
            _ => Ok(()),
        }
    }

    /// What a request head decides before a backend is chosen: the position
    /// of the route to use, or the status to answer with.
    pub open spec fn spec_route_request(&self, head: Seq<u8>) -> Result<int, StatusCode> {
        match request_line(head_lines(head)[0]) {
            None => Err(StatusCode::BadRequest),
            Some((method, path)) => {
                let headers = header_map(header_block(head_lines(head)));
                match self.spec_authorize(headers) {
                    Err(code) => Err(code),
                    Ok(_) => match first_match(self.routes@, headers, path) {
                        Some(i) => Ok(i),
                        None => Err(StatusCode::NotFound),
                    },
                }
            },
        }
    }

    /// Parses a request head, checks its credentials and picks its route.
    pub fn route_request(&self, head: &[u8]) -> (r: Result<usize, StatusCode>)
        ensures
            match (r, self.spec_route_request(head@)) {
                (Ok(i), Ok(j)) => i == j && i < self.routes@.len(),
                (Err(a), Err(b)) => a == b,
                _ => false,
            },
    {
        let request = match Request::new(head) {
            Some(req) => req,
            None => return Err(StatusCode::BadRequest),
        };
        match self.authorize(&request) {
            Err(code) => return Err(code),
            Ok(()) => {},
        }
        match self.route_index(&request) {
            Some(i) => Ok(i),
            None => Err(StatusCode::NotFound),
        }
    }

    /// Whether clients must authenticate: authentication is configured.
    pub fn is_proxy_private(&self) -> (r: bool)
        ensures
            r == self.spec_is_proxy_private(),
    {
        match &self.access {
            Some(acc) => acc.auth.is_some(),
            None => false,
        }
    }
}

/// The languages a configuration file may be written in.
#[derive(Debug, Clone, Copy, PartialEq, Eq, Structural)]
pub enum ConfigFormat {
    Toml,
    Yaml,
}

/// Why a configuration file's name does not tell its language.
#[derive(Debug, Clone, Copy, PartialEq, Eq, Structural)]
pub enum FormatError {
    /// The file name has no extension.
    MissingExtension,
    /// The extension is none of `toml`, `yaml`, `yml`.
    UnsupportedExtension,
}

/// The bytes of `toml`.
pub open spec fn toml_ext() -> Seq<u8> {
    seq![116u8, 111u8, 109u8, 108u8]
}

/// The bytes of `yaml`.
pub open spec fn yaml_ext() -> Seq<u8> {
    seq![121u8, 97u8, 109u8, 108u8]
}

/// The bytes of `yml`.
pub open spec fn yml_ext() -> Seq<u8> {
    seq![121u8, 109u8, 108u8]
}

/// The language of a configuration file with extension `ext`, ASCII case ignored.
pub open spec fn spec_config_format(ext: Option<Seq<u8>>) -> Result<ConfigFormat, FormatError> {
    match ext {
        None => Err(FormatError::MissingExtension),
        Some(e) => if lower(e) == toml_ext() {
            Ok(ConfigFormat::Toml)
        } else if lower(e) == yaml_ext() || lower(e) == yml_ext() {
            Ok(ConfigFormat::Yaml)
        } else {
            Err(FormatError::UnsupportedExtension)
        },
    }
}

/// The language of a configuration file, from its extension (`None`: it has none).
pub fn config_format(extension: Option<&[u8]>) -> (r: Result<ConfigFormat, FormatError>)
    ensures
        r == spec_config_format(
            match extension {
                Some(e) => Some(e@),
                None => None,
            },
        ),
{
    let e = match extension {
        None => return Err(FormatError::MissingExtension),
        Some(e) => e,
    };
    let toml: [u8; 4] = [116, 111, 109, 108];
    let yaml: [u8; 4] = [121, 97, 109, 108];
    let yml: [u8; 3] = [121, 109, 108];
    proof {
        assert(toml@ =~= toml_ext());
        assert(yaml@ =~= yaml_ext());
        assert(yml@ =~= yml_ext());
        assert(lower(toml_ext()) =~= toml_ext());
        assert(lower(yaml_ext()) =~= yaml_ext());
        assert(lower(yml_ext()) =~= yml_ext());
    }
    if eq_ignore_ascii_case(e, toml.as_slice()) {
        Ok(ConfigFormat::Toml)
    } else if eq_ignore_ascii_case(e, yaml.as_slice()) || eq_ignore_ascii_case(e, yml.as_slice()) {
        Ok(ConfigFormat::Yaml)
    } else {
        Err(FormatError::UnsupportedExtension)
    }
}

/// Without access control every client address, API key and
/// `Authorization` value is accepted, and every request is let through.
pub proof fn law_open_proxy_admits_all(
    config: Config,
    peer: IpAddress,
    key: Seq<u8>,
    header: Seq<u8>,
    headers: Map<Seq<u8>, Seq<u8>>,
)
    requires
        config.access is None,
    ensures
        config.spec_permit_addr(peer),
        config.spec_permit_api_key(key),
        config.spec_permit_user(header),
        config.spec_authorize(headers) == Ok::<(), StatusCode>(()),
{
}

/// With access control but no authentication section, every API key and
/// `Authorization` value is accepted and every request is let through.
pub proof fn law_no_auth_admits_all_credentials(
    config: Config,
    key: Seq<u8>,
    header: Seq<u8>,
    headers: Map<Seq<u8>, Seq<u8>>,
)
    requires
        config.access matches Some(acc) && acc.auth is None,
    ensures
        config.spec_permit_api_key(key),
        config.spec_permit_user(header),
        config.spec_authorize(headers) == Ok::<(), StatusCode>(()),
{
}

/// A client whose address is missing from a configured whitelist is refused.
pub proof fn law_whitelist_refuses_unlisted(config: Config, peer: IpAddress)
    requires
        config.access matches Some(acc) && acc.whitelist matches Some(ips) && !ips@.contains(peer),
    ensures
        !config.spec_permit_addr(peer),
{
}

/// With authentication configured but no API keys, no API key is accepted.
pub proof fn law_no_keys_accepts_no_key(config: Config, key: Seq<u8>)
    requires
        config.access matches Some(acc) && acc.auth matches Some(auth) && auth.api_keys is None,
    ensures
        !config.spec_permit_api_key(key),
{
}

/// A private proxy answers a request carrying neither `Authorization` nor
/// `X-Api-Key` with `401`, without a Basic challenge.
pub proof fn law_private_proxy_requires_credentials(config: Config, headers: Map<Seq<u8>, Seq<u8>>)
    requires
        config.spec_is_proxy_private(),
        !headers.contains_key(authorization_field()),
        !headers.contains_key(api_key_field()),
    ensures
        config.spec_authorize(headers) == Err::<(), StatusCode>(StatusCode::Unauthorized(false)),
{
}

/// Where users are configured, refused Basic credentials are answered with
/// a `401` that carries a Basic challenge; a refused API key (with
/// acceptable or uncounted Basic credentials) with a `401` that does not.
pub proof fn law_refusals_are_unauthorized(config: Config, headers: Map<Seq<u8>, Seq<u8>>)
    ensures
        config.users() is Some && headers.contains_key(authorization_field())
            && !config.spec_permit_user(headers[authorization_field()]) ==> config.spec_authorize(
            headers,
        ) == Err::<(), StatusCode>(StatusCode::Unauthorized(true)),
        !(config.users() is Some && headers.contains_key(authorization_field())
            && !config.spec_permit_user(headers[authorization_field()])) && headers.contains_key(
            api_key_field(),
        ) && !config.spec_permit_api_key(headers[api_key_field()]) ==> config.spec_authorize(
            headers,
        ) == Err::<(), StatusCode>(StatusCode::Unauthorized(false)),
{
}

/// A private proxy lets a request through only if it carries a credential
/// checked against the configuration: Basic credentials of a configured
/// user, or a configured API key. Any other request is answered with `401`.
pub proof fn law_private_proxy_admits_only_checked_credentials(
    config: Config,
    headers: Map<Seq<u8>, Seq<u8>>,
)
    requires
        config.spec_is_proxy_private(),
    ensures
        config.spec_authorize(headers) is Ok <==> ({
            let auth = config.access->Some_0.auth->Some_0;
            &&& !(auth.users matches Some(users) && headers.contains_key(authorization_field())
                && !basic_auth_ok(users@, headers[authorization_field()]))
            &&& !(headers.contains_key(api_key_field()) && !config.spec_permit_api_key(
                headers[api_key_field()],
            ))
            &&& ((auth.users matches Some(users) && headers.contains_key(authorization_field())
                && basic_auth_ok(users@, headers[authorization_field()])) || (
            auth.api_keys matches Some(keys) && headers.contains_key(api_key_field())
                && key_listed(keys@, headers[api_key_field()])))
        }),
        config.spec_authorize(headers) is Err ==> (config.spec_authorize(headers)->Err_0 matches StatusCode::Unauthorized(_)),
{
}

/// A request head is routed to a backend only if it parses, its
/// credentials are accepted, and the route chosen is the first that serves
/// its `Host` and path.
pub proof fn law_routed_requests_are_authorized(config: Config, head: Seq<u8>)
    requires
        config.spec_route_request(head) is Ok,
    ensures
        ({
            let i = config.spec_route_request(head)->Ok_0;
            let headers = header_map(header_block(head_lines(head)));
            &&& request_line(head_lines(head)[0]) is Some
            &&& config.spec_authorize(headers) == Ok::<(), StatusCode>(())
            &&& 0 <= i < config.routes@.len()
            &&& route_matches(config.routes@[i], headers, request_line(head_lines(head)[0])->Some_0.1)
            &&& forall|j: int|
                0 <= j < i ==> !route_matches(
                    #[trigger] config.routes@[j],
                    headers,
                    request_line(head_lines(head)[0])->Some_0.1,
                )
        }),
{
    let (method, path) = request_line(head_lines(head)[0])->Some_0;
    let headers = header_map(header_block(head_lines(head)));
    lemma_first_match_facts(config.routes@, headers, path);
}

/// What `first_match` finds matches, and nothing before it does.
pub proof fn lemma_first_match_facts(routes: Seq<Route>, headers: Map<Seq<u8>, Seq<u8>>, path: Seq<u8>)
    ensures
        first_match(routes, headers, path) matches Some(i) ==> 0 <= i < routes.len() && route_matches(
            routes[i],
            headers,
            path,
        ) && forall|j: int| 0 <= j < i ==> !route_matches(#[trigger] routes[j], headers, path),
        first_match(routes, headers, path) is None ==> forall|j: int|
            0 <= j < routes.len() ==> !route_matches(#[trigger] routes[j], headers, path),
    decreases routes.len(),
{
    if routes.len() > 0 && !route_matches(routes[0], headers, path) {
        let rest = routes.drop_first();
        lemma_first_match_facts(rest, headers, path);
        match first_match(rest, headers, path) {
            Some(k) => {
                assert(routes[k + 1] == rest[k]);
                assert forall|j: int| 0 <= j < k + 1 implies !route_matches(
                    #[trigger] routes[j],
                    headers,
                    path,
                ) by {
                    if j > 0 {
                        assert(routes[j] == rest[j - 1]);
                    }
                }
            },
            None => {
                assert forall|j: int| 0 <= j < routes.len() implies !route_matches(
                    #[trigger] routes[j],
                    headers,
                    path,
                ) by {
                    if j > 0 {
                        assert(routes[j] == rest[j - 1]);
                    }
                }
            },
        }
    }
}

/// A user whose password was set is found by the UTF-8 bytes of its name,
/// with that password; other users keep theirs.
pub proof fn law_user_set_then_lookup(
    before: Map<Seq<char>, Seq<char>>,
    user: Seq<char>,
    password: Seq<char>,
    other: Seq<char>,
)
    ensures
        valid_utf8(encode_utf8(user)),
        before.insert(user, password).contains_key(decode_utf8(encode_utf8(user))),
        before.insert(user, password)[decode_utf8(encode_utf8(user))] == password,
        other != user ==> before.insert(user, password).contains_key(other) == before.contains_key(
            other,
        ),
        other != user && before.contains_key(other) ==> before.insert(user, password)[other]
            == before[other],
{
}

/// With a whitelist configured, an address is admitted exactly when it is
/// listed at some position: every listed address is admitted, whatever its
/// position, and no other.
pub proof fn law_whitelist_admits_exactly_listed(config: Config, peer: IpAddress)
    requires
        config.access matches Some(acc) && acc.whitelist is Some,
    ensures
        ({
            let ips = config.access->Some_0.whitelist->Some_0;
            &&& config.spec_permit_addr(peer) <==> exists|i: int| 0 <= i < ips@.len() && ips@[i] == peer
            &&& forall|i: int| 0 <= i < ips@.len() ==> config.spec_permit_addr(#[trigger] ips@[i])
        }),
{
    let ips = config.access->Some_0.whitelist->Some_0;
    assert forall|i: int| 0 <= i < ips@.len() implies config.spec_permit_addr(#[trigger] ips@[i]) by {
        assert(ips@.contains(ips@[i]));
    }
}

/// With API keys configured, a key value is accepted exactly when it is the
/// UTF-8 encoding of a configured key: the encoding of every configured key
/// is accepted, whatever its position, and nothing else is.
pub proof fn law_api_keys_accept_exactly_configured(config: Config, key: Seq<u8>)
    requires
        config.access matches Some(acc) && acc.auth matches Some(auth) && auth.api_keys is Some,
    ensures
        ({
            let keys = config.access->Some_0.auth->Some_0.api_keys->Some_0;
            &&& config.spec_permit_api_key(key) <==> exists|i: int|
                0 <= i < keys@.len() && encode_utf8(keys@[i]@) == key
            &&& forall|i: int|
                0 <= i < keys@.len() ==> config.spec_permit_api_key(encode_utf8(#[trigger] keys@[i]@))
        }),
{
    let keys = config.access->Some_0.auth->Some_0.api_keys->Some_0;
    if config.spec_permit_api_key(key) {
        let i = choose|i: int| 0 <= i < keys@.len() && keys@[i]@ == decode_utf8(key);
        assert(encode_utf8(keys@[i]@) == key);
    }
    if exists|i: int| 0 <= i < keys@.len() && encode_utf8(keys@[i]@) == key {
        let i = choose|i: int| 0 <= i < keys@.len() && encode_utf8(keys@[i]@) == key;
        assert(decode_utf8(key) == keys@[i]@);
    }
    assert forall|i: int| 0 <= i < keys@.len() implies config.spec_permit_api_key(
        encode_utf8(#[trigger] keys@[i]@),
    ) by {
        assert(decode_utf8(encode_utf8(keys@[i]@)) == keys@[i]@);
    }
}

/// Decoded credentials `user:password`, where `user` holds no colon and
/// names a configured user, are accepted exactly when the password bytes
/// equal, byte for byte, the UTF-8 encoding of that user's password; so two
/// accepted passwords for one user are the same bytes.
pub proof fn law_credentials_need_exact_password(
    users: Map<Seq<char>, Seq<char>>,
    user: Seq<u8>,
    password: Seq<u8>,
    other: Seq<u8>,
)
    requires
        forall|j: int| 0 <= j < user.len() ==> user[j] != COLON,
        valid_utf8(user),
        users.contains_key(decode_utf8(user)),
    ensures
        credentials_match(users, user + seq![COLON] + password) <==> password == encode_utf8(
            users[decode_utf8(user)],
        ),
        credentials_match(users, user + seq![COLON] + password) && credentials_match(
            users,
            user + seq![COLON] + other,
        ) ==> password == other,
{
    assert forall|p: Seq<u8>| #![trigger (user + seq![COLON] + p)]
        credentials_match(users, user + seq![COLON] + p) <==> p == encode_utf8(
            users[decode_utf8(user)],
        ) by {
        let d = user + seq![COLON] + p;
        assert(d[user.len() as int] == COLON);
        assert(forall|j: int| 0 <= j < user.len() ==> d[j] == user[j]);
        lemma_first_index_unique(d, COLON, user.len() as int);
        assert(d.take(user.len() as int) =~= user);
        assert(d.skip(user.len() as int + 1) =~= p);
    }
}

} // verus!
