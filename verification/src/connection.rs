//! The decisions taken for one client connection, as a state machine: the
//! caller performs each action (reading, choosing a backend, connecting,
//! writing a response) and reports back what came of it.

use vstd::prelude::*;
use crate::config::{Config, IpAddress};
use crate::http::{
    status_for_error, upstream_head, upstream_head_bytes, HeadersParseError, StatusCode,
};

verus! {

/// Where a connection stands.
#[derive(Debug, Clone, Copy, PartialEq, Eq, Structural)]
pub enum Stage {
    /// The client's address is to be checked.
    CheckPeer,
    /// The request head is being read.
    ReadHead,
    /// A backend of the chosen route is to be picked.
    PickBackend,
    /// The request is being forwarded to a backend.
    Forward,
    /// Nothing more is to be done.
    Closed,
}

/// How reading the request head ended.
#[derive(Debug)]
pub enum HeadRead {
    /// The head arrived; `end` is the position just past its blank line.
    Complete(Vec<u8>, usize),
    /// The head could not be collected.
    Failed(HeadersParseError),
    /// The client took too long.
    TimedOut,
}

/// The kind of I/O error that ended the exchange with a backend, as far as
/// the answer to the client depends on it.
#[derive(Debug, Clone, Copy, PartialEq, Eq, Structural)]
pub enum UpstreamError {
    ConnectionRefused,
    AddrNotAvailable,
    Other,
    TimedOut,
    /// Any other kind.
    Unclassified,
}

/// How the exchange with the backend ended.
#[derive(Debug, Clone, Copy, PartialEq, Eq, Structural)]
pub enum UpstreamOutcome {
    /// Both directions were copied to the end.
    Done,
    /// An I/O error.
    Failed(UpstreamError),
    /// The route's timeout passed.
    TimedOut,
}

/// What the caller is to do next.
#[derive(Debug)]
pub enum Action {
    /// Read the request head.
    ReadHead,
    /// Pick a backend of the route at this position among its live backends.
    PickBackend(usize),
    /// Connect to `backend`, send `head`, then `body` (the bytes that
    /// arrived after the head in the same reads), then copy bytes both
    /// ways, all within `timeout_ms` milliseconds.
    Connect { backend: String, timeout_ms: u64, head: Vec<u8>, body: Vec<u8> },
    /// Send this response and close the connection with an error.
    Reply(StatusCode),
    /// The connection is done.
    Finish,
}

/// The status a failed exchange with the backend is answered with.
pub open spec fn status_for_upstream(outcome: UpstreamOutcome) -> Option<StatusCode> {
    match outcome {
        UpstreamOutcome::Done => None,
        UpstreamOutcome::Failed(e) => Some(
            match e {
                UpstreamError::ConnectionRefused => StatusCode::BadGateway,
                UpstreamError::AddrNotAvailable => StatusCode::BadGateway,
                UpstreamError::Other => StatusCode::BadGateway,
                UpstreamError::TimedOut => StatusCode::GatewayTimeout,
                UpstreamError::Unclassified => StatusCode::BadRequest,
            },
        ),
        UpstreamOutcome::TimedOut => Some(StatusCode::GatewayTimeout),
    }
}

/// One client connection.
#[derive(Debug)]
pub struct Session {
    stage: Stage,
    request_id: String,
    route: usize,
    timeout_ms: u64,
    head: Vec<u8>,
    body: Vec<u8>,
}

impl Session {
    pub closed spec fn stage(&self) -> Stage {
        self.stage
    }

    /// The identifier sent to the backend in `X-Request-ID`.
    pub closed spec fn request_id(&self) -> Seq<char> {
        self.request_id@
    }

    /// The position of the chosen route.
    pub closed spec fn route(&self) -> usize {
        self.route
    }

    /// The time the chosen route gives its backend, in milliseconds.
    pub closed spec fn timeout_ms(&self) -> u64 {
        self.timeout_ms
    }

    /// The head to send to the backend.
    pub closed spec fn head(&self) -> Seq<u8> {
        self.head@
    }

    /// The bytes received after the head, to send to the backend after it.
    pub closed spec fn body(&self) -> Seq<u8> {
        self.body@
    }

    /// A new connection whose request carries `request_id`.
    pub fn new(request_id: String) -> (r: Session)
        ensures
            r.stage() == Stage::CheckPeer,
            r.request_id() == request_id@,
    {
        Session {
            stage: Stage::CheckPeer,
            request_id,
            route: 0,
            timeout_ms: 0,
            head: Vec::new(),
            body: Vec::new(),
        }
    }

    /// Where the connection stands.
    pub fn current_stage(&self) -> (r: Stage)
        ensures
            r == self.stage(),
    {
        self.stage
    }

    /// The client's address is known (`None`: it could not be had). Only
    /// whitelisted clients go on to have their head read.
    pub fn on_peer(&mut self, config: &Config, peer: Option<IpAddress>) -> (r: Action)
        requires
            old(self).stage() == Stage::CheckPeer,
        ensures
            final(self).request_id() == old(self).request_id(),
            match peer {
                None => r == Action::Reply(StatusCode::BadRequest) && final(self).stage()
                    == Stage::Closed,
                Some(ip) => if config.spec_permit_addr(ip) {
                    r == Action::ReadHead && final(self).stage() == Stage::ReadHead
                } else {
                    r == Action::Reply(StatusCode::Forbidden) && final(self).stage()
                        == Stage::Closed
                },
            },
    {
        match peer {
            None => {
                self.stage = Stage::Closed;
                Action::Reply(StatusCode::BadRequest)
            },
            Some(ip) => {
                if config.permit_addr(ip) {
                    self.stage = Stage::ReadHead;
                    Action::ReadHead
                } else {
                    self.stage = Stage::Closed;
                    Action::Reply(StatusCode::Forbidden)
                }
            },
        }
    }

    /// Reading the head ended. A complete head is parsed, its credentials
    /// checked and its route chosen; the head for the backend is prepared.
    pub fn on_head(&mut self, config: &Config, read: HeadRead) -> (r: Action)
        requires
            old(self).stage() == Stage::ReadHead,
            read matches HeadRead::Complete(bytes, end) ==> 2 <= end <= bytes@.len(),
        ensures
            final(self).request_id() == old(self).request_id(),
            match read {
                HeadRead::TimedOut => r == Action::Reply(StatusCode::RequestTimeout) && final(self).stage() == Stage::Closed,
                HeadRead::Failed(e) => r == Action::Reply(status_for_error(e)) && final(self).stage() == Stage::Closed,
                HeadRead::Complete(bytes, end) => match config.spec_route_request(
                    bytes@.take(end as int),
                ) {
                    Err(code) => r == Action::Reply(code) && final(self).stage() == Stage::Closed,
                    Ok(i) => {
                        &&& r == Action::PickBackend(i as usize)
                        &&& final(self).stage() == Stage::PickBackend
                        &&& final(self).route() == i
                        &&& i < config.routes@.len()
                        &&& final(self).timeout_ms() == config.routes@[i].spec_timeout_ms()
                        &&& final(self).head() == upstream_head_bytes(
                            bytes@,
                            end as int,
                            old(self).request_id(),
                        )
                        &&& final(self).body() == bytes@.skip(end as int)
                    },
                },
            },
    {
        match read {
            HeadRead::TimedOut => {
                self.stage = Stage::Closed;
                Action::Reply(StatusCode::RequestTimeout)
            },
            HeadRead::Failed(e) => {
                self.stage = Stage::Closed;
                Action::Reply(e.to_status_code())
            },
            HeadRead::Complete(bytes, end) => {
                let head = &bytes[0..end];
                proof {
                    assert(head@ =~= bytes@.take(end as int));
                }
                match config.route_request(head) {
                    Err(code) => {
                        self.stage = Stage::Closed;
                        Action::Reply(code)
                    },
                    Ok(i) => {
                        self.head = upstream_head(bytes.as_slice(), end, self.request_id.as_str());
                        self.body = vstd::slice::slice_to_vec(&bytes[end..bytes.len()]);
                        proof {
                            assert(self.body@ =~= bytes@.skip(end as int));
                        }
                        self.timeout_ms = config.routes[i].timeout_ms();
                        self.route = i;
                        self.stage = Stage::PickBackend;
                        Action::PickBackend(i)
                    },
                }
            },
        }
    }

    /// A backend was picked (`None`: the route has none up).
    pub fn on_backend(&mut self, backend: Option<String>) -> (r: Action)
        requires
            old(self).stage() == Stage::PickBackend,
        ensures
            final(self).request_id() == old(self).request_id(),
            match backend {
                None => r == Action::Reply(StatusCode::BadGateway) && final(self).stage()
                    == Stage::Closed,
                Some(b) => final(self).stage() == Stage::Forward && (match r {
                    Action::Connect { backend, timeout_ms, head, body } => backend == b
                        && timeout_ms == old(self).timeout_ms() && head@ == old(self).head() && body@
                        == old(self).body(),
                    _ => false,
                }),
            },
    {
        match backend {
            None => {
                self.stage = Stage::Closed;
                Action::Reply(StatusCode::BadGateway)
            },
            Some(b) => {
                let mut head: Vec<u8> = Vec::new();
                std::mem::swap(&mut head, &mut self.head);
                let mut body: Vec<u8> = Vec::new();
                std::mem::swap(&mut body, &mut self.body);
                self.stage = Stage::Forward;
                Action::Connect { backend: b, timeout_ms: self.timeout_ms, head, body }
            },
        }
    }

    /// The exchange with the backend ended.
    pub fn on_upstream(&mut self, outcome: UpstreamOutcome) -> (r: Action)
        requires
            old(self).stage() == Stage::Forward,
        ensures
            final(self).request_id() == old(self).request_id(),
            final(self).stage() == Stage::Closed,
            match status_for_upstream(outcome) {
                None => r == Action::Finish,
                Some(code) => r == Action::Reply(code),
            },
    {
        self.stage = Stage::Closed;
        match outcome {
            UpstreamOutcome::Done => Action::Finish,
            UpstreamOutcome::Failed(e) => Action::Reply(
                match e {
                    UpstreamError::ConnectionRefused => StatusCode::BadGateway,
                    UpstreamError::AddrNotAvailable => StatusCode::BadGateway,
                    UpstreamError::Other => StatusCode::BadGateway,
                    UpstreamError::TimedOut => StatusCode::GatewayTimeout,
                    UpstreamError::Unclassified => StatusCode::BadRequest,
                },
            ),
            UpstreamOutcome::TimedOut => Action::Reply(StatusCode::GatewayTimeout),
        }
    }
}

} // verus!
