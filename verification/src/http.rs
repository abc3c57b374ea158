//! HTTP/1.1 request heads: collecting the head from the client, parsing the
//! request line and header fields, case-insensitive header lookup, the
//! canned error responses and the head forwarded to a backend.

use vstd::prelude::*;
use vstd::std_specs::cmp::PartialEqSpecImpl;
use vstd::utf8::encode_utf8;
use crate::bytes::{
    eq_ignore_ascii_case, eq_ignore_case, find_byte, first_index, lemma_first_index,
    lemma_first_index_unique,
    lower, split_on, trim, trim_end, trim_end_at, trim_start_at, COLON, CR, LF, SPACE,
};

verus! {

/// The size at which a request head that has not ended is refused.
pub const MAX_HEAD_LEN: usize = 65536;

/// Why a request head could not be collected.
#[derive(Debug, Clone, Copy, PartialEq, Eq, Structural)]
pub enum HeadersParseError {
    /// The head reached `MAX_HEAD_LEN` bytes without ending.
    TooLarge,
    /// The client closed the connection (or the read failed) before the head ended.
    Invalid,
}

/// The responses the proxy itself sends when it does not forward a request.
#[derive(Debug, Clone, Copy, PartialEq, Eq, Structural)]
pub enum StatusCode {
    BadRequest,
    /// `401`; the flag says whether to send a Basic authentication challenge.
    Unauthorized(bool),
    Forbidden,
    NotFound,
    RequestTimeout,
    HeadersTooLarge,
    BadGateway,
    GatewayTimeout,
}

/// The status a head-collection failure is answered with.
pub open spec fn status_for_error(e: HeadersParseError) -> StatusCode {
    match e {
        HeadersParseError::TooLarge => StatusCode::HeadersTooLarge,
        HeadersParseError::Invalid => StatusCode::BadRequest,
    }
}

/// The full response text sent for each status.
pub open spec fn response_text(code: StatusCode) -> Seq<char> {
    match code {
        StatusCode::BadRequest => "HTTP/1.1 400 Bad Request\r\nContent-Length: 0\r\nConnection: close\r\n\r\n"@,
        StatusCode::Unauthorized(true) => "HTTP/1.1 401 Unauthorized\r\nWWW-Authenticate: Basic realm=\"Proxy\"\r\nContent-Length: 0\r\nConnection: close\r\n\r\n"@,
        StatusCode::Unauthorized(false) => "HTTP/1.1 401 Unauthorized\r\nContent-Length: 0\r\nConnection: close\r\n\r\n"@,
        StatusCode::Forbidden => "HTTP/1.1 403 Forbidden\r\nContent-Length: 0\r\nConnection: close\r\n\r\n"@,
        StatusCode::NotFound => "HTTP/1.1 404 Not Found\r\nContent-Length: 0\r\nConnection: close\r\n\r\n"@,
        StatusCode::RequestTimeout => "HTTP/1.1 408 Request Timeout\r\nContent-Length: 0\r\nConnection: close\r\n\r\n"@,
        StatusCode::HeadersTooLarge => "HTTP/1.1 431 Request Header Fields Too Large\r\nContent-Length: 0\r\nConnection: close\r\n\r\n"@,
        StatusCode::BadGateway => "HTTP/1.1 502 Bad Gateway\r\nContent-Length: 0\r\nConnection: close\r\n\r\n"@,
        StatusCode::GatewayTimeout => "HTTP/1.1 504 Gateway Timeout\r\nContent-Length: 0\r\nConnection: close\r\n\r\n"@,
    }
}

impl HeadersParseError {
    pub fn to_status_code(&self) -> (r: StatusCode)
        ensures
            r == status_for_error(*self),
    {
        match self {
            HeadersParseError::TooLarge => StatusCode::HeadersTooLarge,
            HeadersParseError::Invalid => StatusCode::BadRequest,
        }
    }

    /// A short description of the failure.
    pub fn message(&self) -> (r: &'static str)
        ensures
            r@ == (match *self {
                HeadersParseError::TooLarge => "Header Fields Too Large"@,
                HeadersParseError::Invalid => "Bad Request"@,
            }),
    {
        match self {
            HeadersParseError::TooLarge => "Header Fields Too Large",
            HeadersParseError::Invalid => "Bad Request",
        }
    }
}

impl StatusCode {
    /// The bytes of the complete response for this status.
    pub fn as_bytes(&self) -> (r: &'static [u8])
        ensures
            r@ == encode_utf8(response_text(*self)),
    {
        match self {
            StatusCode::BadRequest => "HTTP/1.1 400 Bad Request\r\nContent-Length: 0\r\nConnection: close\r\n\r\n".as_bytes(),
            StatusCode::Unauthorized(true) => "HTTP/1.1 401 Unauthorized\r\nWWW-Authenticate: Basic realm=\"Proxy\"\r\nContent-Length: 0\r\nConnection: close\r\n\r\n".as_bytes(),
            StatusCode::Unauthorized(false) => "HTTP/1.1 401 Unauthorized\r\nContent-Length: 0\r\nConnection: close\r\n\r\n".as_bytes(),
            StatusCode::Forbidden => "HTTP/1.1 403 Forbidden\r\nContent-Length: 0\r\nConnection: close\r\n\r\n".as_bytes(),
            StatusCode::NotFound => "HTTP/1.1 404 Not Found\r\nContent-Length: 0\r\nConnection: close\r\n\r\n".as_bytes(),
            StatusCode::RequestTimeout => "HTTP/1.1 408 Request Timeout\r\nContent-Length: 0\r\nConnection: close\r\n\r\n".as_bytes(),
            StatusCode::HeadersTooLarge => "HTTP/1.1 431 Request Header Fields Too Large\r\nContent-Length: 0\r\nConnection: close\r\n\r\n".as_bytes(),
            StatusCode::BadGateway => "HTTP/1.1 502 Bad Gateway\r\nContent-Length: 0\r\nConnection: close\r\n\r\n".as_bytes(),
            StatusCode::GatewayTimeout => "HTTP/1.1 504 Gateway Timeout\r\nContent-Length: 0\r\nConnection: close\r\n\r\n".as_bytes(),
        }
    }
}


/// A header name; two names are equal when they differ at most in ASCII case.
#[derive(Debug)]
pub struct HeaderKey<'a>(pub &'a [u8]);

impl<'a> PartialEq for HeaderKey<'a> {
    fn eq(&self, other: &Self) -> (r: bool) {
        eq_ignore_ascii_case(self.0, other.0)
    }
}

impl<'a> PartialEqSpecImpl for HeaderKey<'a> {
    open spec fn obeys_eq_spec() -> bool {
        true
    }

    open spec fn eq_spec(&self, other: &Self) -> bool {
        eq_ignore_case(self.0@, other.0@)
    }
}

impl<'a> Eq for HeaderKey<'a> {}

/// The map that a sequence of (name, value) insertions produces, names
/// folded to lower case; a later insertion under a name replaces an earlier one.
pub open spec fn fields_map(es: Seq<(Seq<u8>, Seq<u8>)>) -> Map<Seq<u8>, Seq<u8>>
    decreases es.len(),
{
    if es.len() == 0 {
        Map::empty()
    } else {
        fields_map(es.drop_last()).insert(lower(es.last().0), es.last().1)
    }
}

/// Past the last entry named `k`, the fold no longer changes what `k` maps to.
proof fn lemma_fields_map_tail(es: Seq<(Seq<u8>, Seq<u8>)>, m: int, k: Seq<u8>)
    requires
        0 <= m <= es.len(),
        forall|t: int| m <= t < es.len() ==> lower(#[trigger] es[t].0) != k,
    ensures
        fields_map(es).contains_key(k) == fields_map(es.take(m)).contains_key(k),
        fields_map(es).contains_key(k) ==> fields_map(es)[k] == fields_map(es.take(m))[k],
    decreases es.len(),
{
    if es.len() > m {
        assert(es.drop_last().take(m) =~= es.take(m));
        lemma_fields_map_tail(es.drop_last(), m, k);
    } else {
        assert(es.take(m) =~= es);
    }
}

/// Header fields keyed by name, compared without regard to ASCII case.
#[derive(Debug)]
pub struct HeaderMap<'a> {
    entries: Vec<(HeaderKey<'a>, &'a [u8])>,
}

impl<'a> View for HeaderMap<'a> {
    /// Lower-cased name to value.
    type V = Map<Seq<u8>, Seq<u8>>;

    closed spec fn view(&self) -> Map<Seq<u8>, Seq<u8>> {
        fields_map(self.log())
    }
}

impl<'a> HeaderMap<'a> {
    /// The insertions made so far, in order, as byte strings.
    pub closed spec fn log(&self) -> Seq<(Seq<u8>, Seq<u8>)> {
        self.entries@.map_values(|e: (HeaderKey<'a>, &'a [u8])| (e.0.0@, e.1@))
    }

    pub fn new() -> (r: Self)
        ensures
            r@ == Map::<Seq<u8>, Seq<u8>>::empty(),
    {
        let r = HeaderMap { entries: Vec::new() };
        assert(r.log() =~= Seq::<(Seq<u8>, Seq<u8>)>::empty());
        r
    }

    /// Sets the value of `key`, replacing any value under a name equal to it.
    pub fn insert(&mut self, key: HeaderKey<'a>, value: &'a [u8])
        ensures
            final(self)@ == old(self)@.insert(lower(key.0@), value@),
    {
        let ghost k = key.0@;
        let ghost v = value@;
        self.entries.push((key, value));
        proof {
            assert(self.log().drop_last() =~= old(self).log());
            assert(self.log().last() == (k, v));
        }
    }

    /// The value stored under a name equal to `key`.
    pub fn get(&self, key: &HeaderKey) -> (r: Option<&'a [u8]>)
        ensures
            r matches Some(v) ==> self@.contains_key(lower(key.0@)) && v@ == self@[lower(key.0@)],
            r is None ==> !self@.contains_key(lower(key.0@)),
    {
        let ghost k = lower(key.0@);
        let ghost es = self.log();
        let mut i = self.entries.len();
        while i > 0
            invariant
                i <= self.entries@.len(),
                es == self.log(),
                k == lower(key.0@),
                forall|t: int| i <= t < es.len() ==> lower(#[trigger] es[t].0) != k,
            decreases i,
        {
            let e = &self.entries[i - 1];
            if eq_ignore_ascii_case(e.0.0, key.0) {
                proof {
                    let j = i - 1;
                    assert(es[j as int] == (e.0.0@, e.1@));
                    lemma_fields_map_tail(es, i as int, k);
                    assert(es.take(i as int).drop_last() =~= es.take(j as int));
                }
                return Some(e.1);
            }
            proof {
                assert(es[i - 1] == (e.0.0@, e.1@));
            }
            i = i - 1;
        }
        proof {
            lemma_fields_map_tail(es, 0, k);
            assert(es.take(0) =~= Seq::<(Seq<u8>, Seq<u8>)>::empty());
        }
        None
    }
}


/// The lines of a request head: `buf` split at line feeds, each line
/// without its trailing whitespace (so a `\r` before the `\n` goes too).
pub open spec fn head_lines(buf: Seq<u8>) -> Seq<Seq<u8>> {
    split_on(buf, LF).map_values(|l: Seq<u8>| trim_end(l))
}

/// Method and target of a request line: its first two space-separated
/// pieces; `None` when the line has no space.
pub open spec fn request_line(line: Seq<u8>) -> Option<(Seq<u8>, Seq<u8>)> {
    let parts = split_on(line, SPACE);
    if parts.len() >= 2 {
        Some((parts[0], parts[1]))
    } else {
        None
    }
}

/// `lines` without its leading blank lines.
pub open spec fn skip_blank(lines: Seq<Seq<u8>>) -> Seq<Seq<u8>>
    decreases lines.len(),
{
    if lines.len() > 0 && lines[0].len() == 0 {
        skip_blank(lines.drop_first())
    } else {
        lines
    }
}

/// The lines of `lines` before its first blank one.
pub open spec fn take_filled(lines: Seq<Seq<u8>>) -> Seq<Seq<u8>>
    decreases lines.len(),
{
    if lines.len() == 0 || lines[0].len() == 0 {
        Seq::empty()
    } else {
        seq![lines[0]] + take_filled(lines.drop_first())
    }
}

/// The header lines of a head: after the request line, past blank lines,
/// up to the next blank line.
pub open spec fn header_block(lines: Seq<Seq<u8>>) -> Seq<Seq<u8>> {
    take_filled(skip_blank(lines.drop_first()))
}

/// Name and value of a header line, split at its first colon and trimmed;
/// `None` for a line without a colon.
pub open spec fn header_field(line: Seq<u8>) -> Option<(Seq<u8>, Seq<u8>)> {
    let i = first_index(line, COLON);
    if i < line.len() {
        Some((trim(line.take(i)), trim(line.skip(i + 1))))
    } else {
        None
    }
}

/// The header map built from header lines in order; lines without a colon
/// are passed over and a later field replaces an earlier one of the same name.
pub open spec fn header_map(lines: Seq<Seq<u8>>) -> Map<Seq<u8>, Seq<u8>>
    decreases lines.len(),
{
    if lines.len() == 0 {
        Map::empty()
    } else {
        let m = header_map(lines.drop_last());
        match header_field(lines.last()) {
            Some((name, value)) => m.insert(lower(name), value),
            None => m,
        }
    }
}

/// `split_on` always yields a first piece: the bytes before the first separator.
pub proof fn lemma_split_first(s: Seq<u8>, sep: u8)
    ensures
        split_on(s, sep).len() >= 1,
        split_on(s, sep)[0] == s.take(first_index(s, sep)),
        (split_on(s, sep).len() >= 2) == (first_index(s, sep) < s.len()),
    decreases s.len(),
{
    lemma_first_index(s, sep);
    let i = first_index(s, sep);
    if i < s.len() {
        lemma_split_first(s.skip(i + 1), sep);
    } else {
        assert(s.take(i) =~= s);
    }
}

/// A request line, method and target borrowed from the head they were parsed from.
#[derive(Debug)]
pub struct Request<'a> {
    pub method: &'a [u8],
    pub path: &'a [u8],
    pub headers: HeaderMap<'a>,
}


/// `r[i]` is a range of `buf` holding `ls[i]`, for every `i`.
pub open spec fn ranges_hold(buf: Seq<u8>, r: Seq<(usize, usize)>, ls: Seq<Seq<u8>>) -> bool {
    &&& r.len() == ls.len()
    &&& forall|i: int|
        #![trigger r[i]]
        0 <= i < r.len() ==> r[i].0 <= r[i].1 <= buf.len() && buf.subrange(r[i].0 as int, r[i].1 as int)
            == ls[i]
}

/// The ranges of `buf` that hold the lines of the head, each without its
/// trailing whitespace.
fn line_ranges(buf: &[u8]) -> (r: Vec<(usize, usize)>)
    ensures
        ranges_hold(buf@, r@, head_lines(buf@)),
{
    let mut lines: Vec<(usize, usize)> = Vec::new();
    let ghost mut pieces: Seq<Seq<u8>> = Seq::empty();
    let mut p: usize = 0;
    let mut done = false;
    assert(buf@.subrange(0, buf@.len() as int) =~= buf@);
    while !done
        invariant
            p <= buf@.len(),
            !done ==> split_on(buf@, LF) == pieces + split_on(
                buf@.subrange(p as int, buf@.len() as int),
                LF,
            ),
            done ==> split_on(buf@, LF) == pieces,
            ranges_hold(buf@, lines@, pieces.map_values(|l: Seq<u8>| trim_end(l))),
        decreases buf@.len() + 1 - p - (if done {
            1int
        } else {
            0int
        }),
    {
        let e = find_byte(buf, p, buf.len(), LF);
        let t = trim_end_at(buf, p, e);
        proof {
            let rest = buf@.subrange(p as int, buf@.len() as int);
            let piece = buf@.subrange(p as int, e as int);
            assert(rest.take(e - p) =~= piece);
            if e < buf@.len() {
                let tail = buf@.subrange(e + 1, buf@.len() as int);
                assert(rest.skip(e - p + 1) =~= tail);
                assert(pieces + split_on(rest, LF) =~= pieces.push(piece) + split_on(tail, LF));
            } else {
                assert(rest =~= piece);
                assert(pieces + split_on(rest, LF) =~= pieces.push(piece));
            }
            assert(pieces.push(piece).map_values(|l: Seq<u8>| trim_end(l)) =~= pieces.map_values(
                |l: Seq<u8>| trim_end(l),
            ).push(trim_end(piece)));
            pieces = pieces.push(piece);
        }
        lines.push((p, t));
        if e < buf.len() {
            p = e + 1;
        } else {
            done = true;
        }
    }
    lines
}

/// The ranges of the trimmed name and value of the header line `buf[a..t]`.
fn field_ranges(buf: &[u8], a: usize, t: usize) -> (r: Option<((usize, usize), (usize, usize))>)
    requires
        a <= t <= buf@.len(),
    ensures
        match (r, header_field(buf@.subrange(a as int, t as int))) {
            (Some(((ns, ne), (vs, ve))), Some((name, value))) => {
                &&& ns <= ne <= buf@.len()
                &&& vs <= ve <= buf@.len()
                &&& buf@.subrange(ns as int, ne as int) == name
                &&& buf@.subrange(vs as int, ve as int) == value
            },
            (None, None) => true,
            _ => false,
        },
{
    let c = find_byte(buf, a, t, COLON);
    if c == t {
        return None;
    }
    let ne = trim_end_at(buf, a, c);
    let ns = trim_start_at(buf, a, ne);
    let ve = trim_end_at(buf, c + 1, t);
    let vs = trim_start_at(buf, c + 1, ve);
    proof {
        let l = buf@.subrange(a as int, t as int);
        assert(l.take(c - a) =~= buf@.subrange(a as int, c as int));
        assert(l.skip(c - a + 1) =~= buf@.subrange(c + 1, t as int));
    }
    Some(((ns, ne), (vs, ve)))
}

impl<'a> Request<'a> {
    /// Parses a request head. `None` when the request line has no space;
    /// header lines without a colon are passed over.
    pub fn new(buf: &'a [u8]) -> (r: Option<Request<'a>>)
        ensures
            head_lines(buf@).len() >= 1,
            match r {
                None => request_line(head_lines(buf@)[0]) is None,
                Some(req) => {
                    &&& request_line(head_lines(buf@)[0]) == Some((req.method@, req.path@))
                    &&& req.headers@ == header_map(header_block(head_lines(buf@)))
                },
            },
    {
        let lines = line_ranges(buf);
        let ghost ls = head_lines(buf@);
        proof {
            lemma_split_first(buf@, LF);
        }
        let (a0, t0) = lines[0];
        let i1 = find_byte(buf, a0, t0, SPACE);
        let ghost l0 = buf@.subrange(a0 as int, t0 as int);
        proof {
            assert(ls[0] == l0);
            lemma_split_first(l0, SPACE);
        }
        if i1 == t0 {
            return None;
        }
        let i2 = find_byte(buf, i1 + 1, t0, SPACE);
        proof {
            let rest = l0.skip(i1 - a0 + 1);
            assert(rest =~= buf@.subrange(i1 + 1, t0 as int));
            lemma_split_first(rest, SPACE);
            assert(l0.take(i1 - a0) =~= buf@.subrange(a0 as int, i1 as int));
            assert(rest.take(i2 - (i1 + 1)) =~= buf@.subrange(i1 + 1, i2 as int));
            assert(split_on(l0, SPACE)[1] == split_on(rest, SPACE)[0]);
        }
        let method = &buf[a0..i1];
        let path = &buf[i1 + 1..i2];

        let n = lines.len();
        let mut k: usize = 1;
        assert(ls.drop_first() =~= ls.skip(1));
        while k < n && lines[k].0 == lines[k].1
            invariant
                1 <= k <= n,
                n == lines@.len() == ls.len(),
                ls == head_lines(buf@),
                ranges_hold(buf@, lines@, ls),
                skip_blank(ls.drop_first()) == skip_blank(ls.skip(k as int)),
            decreases n - k,
        {
            proof {
                assert(ls[k as int].len() == 0);
                assert(ls.skip(k as int).drop_first() =~= ls.skip(k + 1));
            }
            k = k + 1;
        }
        proof {
            if k < n {
                assert(ls.skip(k as int)[0] == ls[k as int]);
            }
        }
        let k0 = k;
        let mut headers = HeaderMap::new();
        assert(ls.subrange(k0 as int, k0 as int) =~= Seq::<Seq<u8>>::empty());
        while k < n && lines[k].0 < lines[k].1
            invariant
                k0 <= k <= n,
                n == lines@.len() == ls.len(),
                ls == head_lines(buf@),
                ranges_hold(buf@, lines@, ls),
                take_filled(ls.skip(k0 as int)) == ls.subrange(k0 as int, k as int) + take_filled(
                    ls.skip(k as int),
                ),
                headers@ == header_map(ls.subrange(k0 as int, k as int)),
            decreases n - k,
        {
            let (a, t) = lines[k];
            let f = field_ranges(buf, a, t);
            proof {
                let sub = ls.subrange(k0 as int, k + 1);
                assert(sub.drop_last() =~= ls.subrange(k0 as int, k as int));
                assert(sub.last() == ls[k as int]);
                assert(ls.skip(k as int)[0] == ls[k as int]);
                assert(ls.skip(k as int).drop_first() =~= ls.skip(k + 1));
                assert(ls.subrange(k0 as int, k as int) + (seq![ls[k as int]] + take_filled(
                    ls.skip(k + 1),
                )) =~= sub + take_filled(ls.skip(k + 1)));
            }
            match f {
                Some(((ns, ne), (vs, ve))) => {
                    headers.insert(HeaderKey(&buf[ns..ne]), &buf[vs..ve]);
                },
                None => {},
            }
            k = k + 1;
        }
        proof {
            if k < n {
                assert(ls.skip(k as int)[0] == ls[k as int]);
            }
            assert(take_filled(ls.skip(k as int)) =~= Seq::<Seq<u8>>::empty());
            assert(ls.subrange(k0 as int, k as int) + Seq::<Seq<u8>>::empty() =~= ls.subrange(
                k0 as int,
                k as int,
            ));
        }
        Some(Request { method, path, headers })
    }
}


/// A request head ends at `i`: the bytes `\r\n\r\n` start there.
pub open spec fn head_end_at(s: Seq<u8>, i: int) -> bool {
    &&& 0 <= i
    &&& i + 4 <= s.len()
    &&& s[i] == CR
    &&& s[i + 1] == LF
    &&& s[i + 2] == CR
    &&& s[i + 3] == LF
}

/// What scanning the bytes received so far tells: the head is too large,
/// it ends (and where its blank line ends), or more bytes are needed.
pub open spec fn scan_outcome(s: Seq<u8>, r: Result<Option<usize>, HeadersParseError>) -> bool {
    if s.len() >= MAX_HEAD_LEN {
        r == Err::<Option<usize>, HeadersParseError>(HeadersParseError::TooLarge)
    } else {
        match r {
            Ok(Some(e)) => {
                &&& 4 <= e <= s.len()
                &&& head_end_at(s, e - 4)
                &&& forall|j: int| 0 <= j < e - 4 ==> !head_end_at(s, j)
            },
            Ok(None) => forall|j: int| !head_end_at(s, j),
            Err(_) => false,
        }
    }
}

/// Scans received bytes for the end of the request head.
pub fn scan_head(s: &[u8]) -> (r: Result<Option<usize>, HeadersParseError>)
    ensures
        scan_outcome(s@, r),
{
    if s.len() >= MAX_HEAD_LEN {
        return Err(HeadersParseError::TooLarge);
    }
    let mut i: usize = 0;
    while i + 4 <= s.len()
        invariant
            s@.len() < MAX_HEAD_LEN,
            i <= s@.len(),
            forall|j: int| 0 <= j < i ==> !head_end_at(s@, j),
        decreases s@.len() - i,
    {
        if s[i] == CR && s[i + 1] == LF && s[i + 2] == CR && s[i + 3] == LF {
            return Ok(Some(i + 4));
        }
        i = i + 1;
    }
    Ok(None)
}

/// The bytes of a request head received so far.
pub struct HeadBuffer {
    bytes: Vec<u8>,
}

impl View for HeadBuffer {
    type V = Seq<u8>;

    closed spec fn view(&self) -> Seq<u8> {
        self.bytes@
    }
}

/// `v` followed by `s`.
fn push_all(v: &mut Vec<u8>, s: &[u8])
    ensures
        final(v)@ == old(v)@ + s@,
{
    let mut i: usize = 0;
    while i < s.len()
        invariant
            i <= s@.len(),
            v@ == old(v)@ + s@.take(i as int),
        decreases s@.len() - i,
    {
        v.push(s[i]);
        proof {
            assert(s@.take(i + 1) =~= s@.take(i as int).push(s@[i as int]));
        }
        i = i + 1;
    }
    assert(s@.take(s@.len() as int) =~= s@);
}

impl HeadBuffer {
    pub fn new() -> (r: Self)
        ensures
            r@ == Seq::<u8>::empty(),
    {
        HeadBuffer { bytes: Vec::new() }
    }

    /// Takes the next chunk read from the client. An empty chunk means the
    /// client closed the connection before the head ended.
    pub fn receive(&mut self, chunk: &[u8]) -> (r: Result<Option<usize>, HeadersParseError>)
        ensures
            chunk@.len() == 0 ==> r == Err::<Option<usize>, HeadersParseError>(
                HeadersParseError::Invalid,
            ) && final(self)@ == old(self)@,
            chunk@.len() > 0 ==> final(self)@ == old(self)@ + chunk@ && scan_outcome(final(self)@, r),
    {
        if chunk.len() == 0 {
            return Err(HeadersParseError::Invalid);
        }
        push_all(&mut self.bytes, chunk);
        scan_head(self.bytes.as_slice())
    }

    /// The bytes received so far.
    pub fn as_slice(&self) -> (r: &[u8])
        ensures
            r@ == self@,
    {
        self.bytes.as_slice()
    }

    pub fn into_bytes(self) -> (r: Vec<u8>)
        ensures
            r@ == self@,
    {
        self.bytes
    }
}

/// The head forwarded to a backend: the client's head up to and including
/// the line break of its last header line, then an `X-Request-ID` field and
/// the blank line.
pub open spec fn upstream_head_bytes(head: Seq<u8>, end: int, request_id: Seq<char>) -> Seq<u8> {
    head.take(end - 2) + encode_utf8("X-Request-ID: "@) + encode_utf8(request_id) + encode_utf8(
        "\r\n\r\n"@,
    )
}

/// Builds the head sent to the backend from `head[..end]`, the client's head
/// through its blank line.
pub fn upstream_head(head: &[u8], end: usize, request_id: &str) -> (r: Vec<u8>)
    requires
        2 <= end <= head@.len(),
    ensures
        r@ == upstream_head_bytes(head@, end as int, request_id@),
{
    let mut out: Vec<u8> = Vec::new();
    push_all(&mut out, &head[0..end - 2]);
    push_all(&mut out, "X-Request-ID: ".as_bytes());
    push_all(&mut out, request_id.as_bytes());
    push_all(&mut out, "\r\n\r\n".as_bytes());
    proof {
        assert(head@.subrange(0, end - 2) =~= head@.take(end - 2));
    }
    out
}

/// Reading a header after setting it gives back the value set, under any
/// name equal to the one set up to ASCII case; every other name keeps its value.
pub proof fn law_header_set_then_get(
    before: Map<Seq<u8>, Seq<u8>>,
    name: Seq<u8>,
    value: Seq<u8>,
    probe: Seq<u8>,
)
    ensures
        eq_ignore_case(name, probe) ==> before.insert(lower(name), value).contains_key(lower(probe))
            && before.insert(lower(name), value)[lower(probe)] == value,
        !eq_ignore_case(name, probe) ==> before.insert(lower(name), value).contains_key(lower(probe))
            == before.contains_key(lower(probe)) && (before.contains_key(lower(probe)) ==> before.insert(
            lower(name),
            value,
        )[lower(probe)] == before[lower(probe)]),
{
}

/// Once the end of a request head has been found, bytes received after it
/// do not move it (while the head stays under the size limit).
pub proof fn law_head_end_is_stable(s: Seq<u8>, more: Seq<u8>, e: usize)
    requires
        scan_outcome(s, Ok(Some(e))),
        s.len() + more.len() < MAX_HEAD_LEN,
    ensures
        scan_outcome(s + more, Ok(Some(e))),
{
    let t = s + more;
    assert forall|j: int| 0 <= j < e - 4 implies !head_end_at(t, j) by {
        assert(!head_end_at(s, j));
        assert(t[j] == s[j] && t[j + 1] == s[j + 1] && t[j + 2] == s[j + 2] && t[j + 3] == s[j + 3]);
    }
    let k = e - 4;
    assert(t[k] == s[k] && t[k + 1] == s[k + 1] && t[k + 2] == s[k + 2] && t[k + 3] == s[k + 3]);
}

/// `s` with every `\r\n` replaced by `\n`.
pub open spec fn crlf_to_lf(s: Seq<u8>) -> Seq<u8>
    decreases s.len(),
{
    if s.len() == 0 {
        s
    } else if s.len() >= 2 && s[0] == CR && s[1] == LF {
        seq![LF] + crlf_to_lf(s.skip(2))
    } else {
        seq![s[0]] + crlf_to_lf(s.drop_first())
    }
}

/// `p` without a final `\r`.
pub open spec fn drop_final_cr(p: Seq<u8>) -> Seq<u8> {
    if p.len() > 0 && p.last() == CR {
        p.drop_last()
    } else {
        p
    }
}

proof fn lemma_crlf_without_lf(s: Seq<u8>)
    requires
        forall|j: int| 0 <= j < s.len() ==> s[j] != LF,
    ensures
        crlf_to_lf(s) == s,
    decreases s.len(),
{
    if s.len() > 0 {
        lemma_crlf_without_lf(s.drop_first());
        assert(seq![s[0]] + s.drop_first() =~= s);
    }
}

/// Rewriting a line `p`, its line feed and the rest `r` drops a `\r` that
/// ends `p` and rewrites `r`.
proof fn lemma_crlf_line(p: Seq<u8>, r: Seq<u8>)
    requires
        forall|j: int| 0 <= j < p.len() ==> p[j] != LF,
    ensures
        crlf_to_lf(p + seq![LF] + r) == drop_final_cr(p) + seq![LF] + crlf_to_lf(r),
    decreases p.len(),
{
    let s = p + seq![LF] + r;
    if p.len() == 0 {
        assert(s.drop_first() =~= r);
        assert(s[0] == LF);
        assert(drop_final_cr(p) =~= p);
        assert(seq![LF] + crlf_to_lf(r) =~= drop_final_cr(p) + seq![LF] + crlf_to_lf(r));
    } else if p[0] == CR && p.len() == 1 {
        assert(s[1] == LF);
        assert(s.skip(2) =~= r);
        assert(drop_final_cr(p) =~= Seq::<u8>::empty());
        assert(seq![LF] + crlf_to_lf(r) =~= drop_final_cr(p) + seq![LF] + crlf_to_lf(r));
    } else {
        let q = p.drop_first();
        assert(forall|j: int| 0 <= j < q.len() ==> q[j] == p[j + 1]);
        lemma_crlf_line(q, r);
        assert(s.drop_first() =~= q + seq![LF] + r);
        if p.len() >= 2 {
            assert(s[1] == p[1]);
            assert(drop_final_cr(p) =~= seq![p[0]] + drop_final_cr(q));
        } else {
            assert(s[1] == LF);
            assert(q =~= Seq::<u8>::empty());
            assert(drop_final_cr(p) =~= seq![p[0]] + drop_final_cr(q));
        }
        assert(seq![p[0]] + (drop_final_cr(q) + seq![LF] + crlf_to_lf(r)) =~= drop_final_cr(p) + seq![
            LF,
        ] + crlf_to_lf(r));
    }
}

proof fn lemma_crlf_pieces(s: Seq<u8>)
    ensures
        split_on(crlf_to_lf(s), LF).map_values(|l: Seq<u8>| trim_end(l)) == split_on(s, LF).map_values(
            |l: Seq<u8>| trim_end(l),
        ),
    decreases s.len(),
{
    lemma_first_index(s, LF);
    let i = first_index(s, LF);
    if i < s.len() {
        let p = s.take(i);
        let r = s.skip(i + 1);
        assert(s =~= p + seq![LF] + r);
        assert(forall|j: int| 0 <= j < p.len() ==> p[j] != LF);
        lemma_crlf_line(p, r);
        let q = drop_final_cr(p);
        let t = crlf_to_lf(s);
        assert(t == q + seq![LF] + crlf_to_lf(r));
        assert(forall|j: int| 0 <= j < q.len() ==> q[j] == p[j]);
        assert(t[q.len() as int] == LF);
        assert(forall|j: int| 0 <= j < q.len() ==> t[j] == q[j]);
        lemma_first_index_unique(t, LF, q.len() as int);
        assert(t.take(q.len() as int) =~= q);
        assert(t.skip(q.len() as int + 1) =~= crlf_to_lf(r));
        lemma_crlf_pieces(r);
        if p.len() > 0 && p.last() == CR {
            assert(trim_end(p) == trim_end(p.drop_last()));
        }
        assert(trim_end(q) == trim_end(p));
        let f = |l: Seq<u8>| trim_end(l);
        assert((seq![q] + split_on(crlf_to_lf(r), LF)).map_values(f) =~= seq![trim_end(q)]
            + split_on(crlf_to_lf(r), LF).map_values(f));
        assert((seq![p] + split_on(r, LF)).map_values(f) =~= seq![trim_end(p)] + split_on(
            r,
            LF,
        ).map_values(f));
    } else {
        lemma_crlf_without_lf(s);
    }
}

/// A head with `\r\n` line ends parses as the same head with `\n` line
/// ends: the same lines, so the same request line and the same header map.
pub proof fn law_crlf_same_as_lf(buf: Seq<u8>)
    ensures
        head_lines(crlf_to_lf(buf)) == head_lines(buf),
        request_line(head_lines(crlf_to_lf(buf))[0]) == request_line(head_lines(buf)[0]),
        header_map(header_block(head_lines(crlf_to_lf(buf)))) == header_map(
            header_block(head_lines(buf)),
        ),
{
    lemma_crlf_pieces(buf);
}

} // verus!
