use base64::prelude::BASE64_STANDARD;
use base64::Engine;
use rproxy::config::{AccessControl, Auth, Config, IpAddress, UserTable};
use rproxy::connection::{Action, HeadRead, Session, Stage, UpstreamError, UpstreamOutcome};
use rproxy::http::{HeadBuffer, HeadersParseError, StatusCode};
use rproxy::routing::Route;
use std::sync::atomic::AtomicUsize;

fn localhost() -> IpAddress {
    IpAddress::v4(127, 0, 0, 1)
}

fn config(routes: Vec<Route>, access: Option<AccessControl>) -> Config {
    Config { listen: "127.0.0.1:0".to_string(), routes, access }
}

fn target_route(host: &str, backend: &str, timeout: Option<u64>) -> Route {
    Route {
        host: host.as_bytes().to_vec(),
        path: "/target".as_bytes().to_vec(),
        backends: vec![backend.to_string()],
        timeout,
        counter: AtomicUsize::new(0),
    }
}

/// Admits the client, feeds `request` as one chunk (then end of stream if
/// the head is incomplete) and returns the action taken on the head.
fn send_head(session: &mut Session, config: &Config, request: &[u8]) -> Action {
    assert!(matches!(session.on_peer(config, Some(localhost())), Action::ReadHead));
    let mut buf = HeadBuffer::new();
    let read = match buf.receive(request) {
        Ok(Some(end)) => HeadRead::Complete(buf.into_bytes(), end),
        Ok(None) => match buf.receive(b"") {
            Err(e) => HeadRead::Failed(e),
            Ok(_) => unreachable!(),
        },
        Err(e) => HeadRead::Failed(e),
    };
    session.on_head(config, read)
}

fn reply_text(action: &Action) -> String {
    match action {
        Action::Reply(code) => String::from_utf8(code.as_bytes().to_vec()).unwrap(),
        other => panic!("expected a reply, got {:?}", other),
    }
}

/// Picks the backend and connects; returns the backend, timeout, head and
/// the bytes that followed the head.
fn forward(session: &mut Session, config: &Config, route: usize) -> (String, u64, Vec<u8>, Vec<u8>) {
    let r = &config.routes[route];
    let backend = r.next_addr(&r.backends);
    match session.on_backend(backend) {
        Action::Connect { backend, timeout_ms, head, body } => (backend, timeout_ms, head, body),
        other => panic!("expected a connection, got {:?}", other),
    }
}

#[test]
fn forwards_request_to_backend() {
    let c = config(vec![target_route("localhost:8080", "127.0.0.1:9000", None)], None);
    let mut s = Session::new("req-1".to_string());
    let action = send_head(&mut s, &c, b"GET /target HTTP/1.1\r\nHost: localhost:8080\r\n\r\n");
    assert!(matches!(action, Action::PickBackend(0)));
    let (backend, timeout, head, body) = forward(&mut s, &c, 0);
    assert_eq!(backend, "127.0.0.1:9000");
    assert_eq!(timeout, 10_000);
    assert!(body.is_empty());
    assert_eq!(
        head,
        b"GET /target HTTP/1.1\r\nHost: localhost:8080\r\nX-Request-ID: req-1\r\n\r\n".to_vec()
    );
    assert!(matches!(s.on_upstream(UpstreamOutcome::Done), Action::Finish));
    assert_eq!(s.current_stage(), Stage::Closed);
}

#[test]
fn forwards_request_with_api_key() {
    let access = AccessControl {
        whitelist: None,
        auth: Some(Auth { users: None, api_keys: Some(vec!["api_key1".to_string()]) }),
    };
    let c = config(vec![target_route("localhost:8080", "127.0.0.1:9000", None)], Some(access));
    let mut s = Session::new("r".to_string());
    let action = send_head(
        &mut s,
        &c,
        b"GET /target HTTP/1.1\r\nHost: localhost:8080\r\nX-Api-Key: api_key1\r\n\r\n",
    );
    assert!(matches!(action, Action::PickBackend(0)));
    let (backend, _, _, _) = forward(&mut s, &c, 0);
    assert_eq!(backend, "127.0.0.1:9000");
}

#[test]
fn forwards_request_with_basic_auth() {
    let mut users = UserTable::new();
    users.insert("admin".to_string(), "password".to_string());
    let access = AccessControl {
        whitelist: None,
        auth: Some(Auth { users: Some(users), api_keys: None }),
    };
    let c = config(vec![target_route("localhost:8080", "127.0.0.1:9000", None)], Some(access));
    let encoded = BASE64_STANDARD.encode("admin:password");
    let mut s = Session::new("r".to_string());
    let request = format!(
        "GET /target HTTP/1.1\r\nHost: localhost:8080\r\nAuthorization: Basic {encoded}\r\n\r\n"
    );
    let action = send_head(&mut s, &c, request.as_bytes());
    assert!(matches!(action, Action::PickBackend(0)));
}

#[test]
fn test_400_on_missing_headers_delimiter() {
    let c = config(vec![], None);
    let mut s = Session::new("r".to_string());
    let action = send_head(&mut s, &c, b"GET /buba HTTP/1.1\r\nHost: localhost:8080\r\n");
    assert!(reply_text(&action).contains("400 Bad Request"));
}

#[test]
fn test_400_on_malformed_request_line() {
    let c = config(vec![], None);
    let mut s = Session::new("r".to_string());
    let action = send_head(&mut s, &c, b"xxx\r\n\r\n");
    assert!(reply_text(&action).contains("400 Bad Request"));
}

#[test]
fn test_401_on_invalid_basic_auth() {
    let encoded = BASE64_STANDARD.encode("admin:password1");
    let mut users = UserTable::new();
    users.insert("admin".to_string(), "password".to_string());
    let access = AccessControl {
        whitelist: None,
        auth: Some(Auth { users: Some(users), api_keys: None }),
    };
    let c = config(vec![], Some(access));
    let mut s = Session::new("r".to_string());
    let request =
        format!("GET / HTTP/1.1\r\nHost: localhost:8080\r\nAuthorization: Basic {encoded}\r\n\r\n");
    let res = reply_text(&send_head(&mut s, &c, request.as_bytes()));
    assert!(res.contains("401 Unauthorized"));
    assert!(res.contains("WWW-Authenticate: Basic realm=\"Proxy\""));
}

#[test]
fn test_401_on_invalid_api_key() {
    let access = AccessControl {
        whitelist: None,
        auth: Some(Auth { users: None, api_keys: Some(vec!["api_key1".to_string()]) }),
    };
    let c = config(vec![], Some(access));
    let mut s = Session::new("r".to_string());
    let res = reply_text(&send_head(
        &mut s,
        &c,
        b"GET / HTTP/1.1\r\nHost: localhost:8080\r\nX-Api-Key: api_key2\r\n\r\n",
    ));
    assert!(res.contains("401 Unauthorized"));
    assert!(!res.contains("WWW-Authenticate: Basic realm=\"Proxy\""));
}

#[test]
fn private_proxy_refuses_request_without_credentials() {
    let access = AccessControl {
        whitelist: None,
        auth: Some(Auth { users: None, api_keys: Some(vec!["k".to_string()]) }),
    };
    let c = config(vec![target_route("localhost:8080", "b:1", None)], Some(access));
    let mut s = Session::new("r".to_string());
    let action = send_head(&mut s, &c, b"GET /target HTTP/1.1\r\nHost: localhost:8080\r\n\r\n");
    assert!(matches!(action, Action::Reply(StatusCode::Unauthorized(false))));
}

#[test]
fn test_403_on_non_whitelisted_ip() {
    let access = AccessControl { whitelist: Some(vec![IpAddress::v4(1, 1, 1, 1)]), auth: None };
    let c = config(vec![], Some(access));
    let mut s = Session::new("r".to_string());
    let res = reply_text(&s.on_peer(&c, Some(localhost())));
    assert!(res.contains("403 Forbidden"));
    assert_eq!(s.current_stage(), Stage::Closed);
}

#[test]
fn unknown_peer_is_a_bad_request() {
    let c = config(vec![], None);
    let mut s = Session::new("r".to_string());
    assert!(matches!(s.on_peer(&c, None), Action::Reply(StatusCode::BadRequest)));
}

#[test]
fn test_404_on_missing_route() {
    let c = config(vec![], None);
    let mut s = Session::new("r".to_string());
    let res = reply_text(&send_head(&mut s, &c, b"GET /buba HTTP/1.1\r\nHost: localhost:8080\r\n\r\n"));
    assert!(res.contains("404 Not Found"));
}

#[test]
fn route_needs_host_and_path_prefix() {
    let c = config(vec![target_route("localhost:8080", "b:1", None)], None);
    let mut s = Session::new("r".to_string());
    let action = send_head(&mut s, &c, b"GET /targe HTTP/1.1\r\nHost: localhost:8080\r\n\r\n");
    assert!(matches!(action, Action::Reply(StatusCode::NotFound)));
    let mut s = Session::new("r".to_string());
    let action = send_head(&mut s, &c, b"GET /target/x HTTP/1.1\r\nhost: LOCALHOST:8080\r\n\r\n");
    assert!(matches!(action, Action::Reply(StatusCode::NotFound)));
    let mut s = Session::new("r".to_string());
    let action = send_head(&mut s, &c, b"GET /target/x HTTP/1.1\r\nhOST: localhost:8080\r\n\r\n");
    assert!(matches!(action, Action::PickBackend(0)));
}

#[test]
fn head_timeout_and_oversize() {
    let c = config(vec![], None);
    let mut s = Session::new("r".to_string());
    assert!(matches!(s.on_peer(&c, Some(localhost())), Action::ReadHead));
    assert!(matches!(s.on_head(&c, HeadRead::TimedOut), Action::Reply(StatusCode::RequestTimeout)));
    let mut s = Session::new("r".to_string());
    s.on_peer(&c, Some(localhost()));
    let action = s.on_head(&c, HeadRead::Failed(HeadersParseError::TooLarge));
    assert!(reply_text(&action).contains("431"));
}

#[test]
fn no_live_backend_is_a_bad_gateway() {
    let c = config(vec![target_route("h", "b:1", None)], None);
    let mut s = Session::new("r".to_string());
    assert!(matches!(send_head(&mut s, &c, b"GET /target HTTP/1.1\r\nHost: h\r\n\r\n"), Action::PickBackend(0)));
    let live: Vec<String> = vec![];
    let backend = c.routes[0].next_addr(&live);
    assert!(matches!(s.on_backend(backend), Action::Reply(StatusCode::BadGateway)));
}

#[test]
fn test_502_on_invalid_gateway() {
    let c = config(vec![target_route("localhost:54322", "localhost:54321", None)], None);
    let mut s = Session::new("r".to_string());
    let action = send_head(&mut s, &c, b"GET /target HTTP/1.1\r\nHost: localhost:54322\r\n\r\n");
    assert!(matches!(action, Action::PickBackend(0)));
    forward(&mut s, &c, 0);
    let res = reply_text(&s.on_upstream(UpstreamOutcome::Failed(UpstreamError::ConnectionRefused)));
    assert!(res.contains("502 Bad Gateway"));
}

#[test]
fn test_504_on_upstream_timeout() {
    let c = config(vec![target_route("localhost:8080", "127.0.0.1:9000", Some(100))], None);
    let mut s = Session::new("r".to_string());
    let action = send_head(&mut s, &c, b"GET /target HTTP/1.1\r\nHost: localhost:8080\r\n\r\n");
    assert!(matches!(action, Action::PickBackend(0)));
    let (_, timeout, _, _) = forward(&mut s, &c, 0);
    assert_eq!(timeout, 100);
    let res = reply_text(&s.on_upstream(UpstreamOutcome::TimedOut));
    assert!(res.contains("504 Gateway Timeout"));
}

#[test]
fn upstream_error_kinds() {
    let cases = [
        (UpstreamError::AddrNotAvailable, StatusCode::BadGateway),
        (UpstreamError::Other, StatusCode::BadGateway),
        (UpstreamError::TimedOut, StatusCode::GatewayTimeout),
        (UpstreamError::Unclassified, StatusCode::BadRequest),
    ];
    for (err, code) in cases {
        let c = config(vec![target_route("h", "b:1", None)], None);
        let mut s = Session::new("r".to_string());
        send_head(&mut s, &c, b"GET /target HTTP/1.1\r\nHost: h\r\n\r\n");
        forward(&mut s, &c, 0);
        match s.on_upstream(UpstreamOutcome::Failed(err)) {
            Action::Reply(got) => assert_eq!(got, code),
            other => panic!("unexpected {:?}", other),
        }
    }
}

#[test]
fn body_read_with_the_head_is_forwarded() {
    let c = config(vec![target_route("h", "b:1", None)], None);
    let mut s = Session::new("id".to_string());
    let action = send_head(
        &mut s,
        &c,
        b"POST /target HTTP/1.1\r\nHost: h\r\nContent-Length: 5\r\n\r\nHello",
    );
    assert!(matches!(action, Action::PickBackend(0)));
    let (_, _, head, body) = forward(&mut s, &c, 0);
    assert_eq!(
        head,
        b"POST /target HTTP/1.1\r\nHost: h\r\nContent-Length: 5\r\nX-Request-ID: id\r\n\r\n".to_vec()
    );
    assert_eq!(body, b"Hello".to_vec());
}

#[test]
fn private_proxy_with_keys_only_ignores_authorization() {
    let access = AccessControl {
        whitelist: None,
        auth: Some(Auth { users: None, api_keys: Some(vec!["k".to_string()]) }),
    };
    let c = config(vec![target_route("h", "b:1", None)], Some(access));
    let mut s = Session::new("r".to_string());
    let action = send_head(&mut s, &c, b"GET /target HTTP/1.1\r\nHost: h\r\nAuthorization: x\r\n\r\n");
    assert!(matches!(action, Action::Reply(StatusCode::Unauthorized(false))));
    let mut s = Session::new("r".to_string());
    let action = send_head(
        &mut s,
        &c,
        b"GET /target HTTP/1.1\r\nHost: h\r\nAuthorization: x\r\nX-Api-Key: k\r\n\r\n",
    );
    assert!(matches!(action, Action::PickBackend(0)));
}

#[test]
fn open_proxy_ignores_authorization() {
    let c = config(vec![target_route("h", "b:1", None)], None);
    let mut s = Session::new("r".to_string());
    let action = send_head(&mut s, &c, b"GET /target HTTP/1.1\r\nHost: h\r\nAuthorization: x\r\n\r\n");
    assert!(matches!(action, Action::PickBackend(0)));
}
