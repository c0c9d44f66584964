use ip_proxy_pool::handshake::HandshakeStep;
use ip_proxy_pool::http::{parse_host_port, HttpAction, HttpError, HttpProxyServer, HttpSession, HttpStep};
use ip_proxy_pool::pool::{IpPool, IDLE_LIMIT};
use ip_proxy_pool::rotation::FetchStep;
use ip_proxy_pool::BypassList;

const BAD_GATEWAY: &[u8] = b"HTTP/1.1 502 Bad Gateway\r\n\r\n";
const ESTABLISHED: &[u8] = b"HTTP/1.1 200 Connection Established\r\n\r\n";

fn pool_with(port: u16, address: Option<&str>) -> IpPool {
    let mut pool = IpPool::new(
        (port, port),
        "http://127.0.0.1:1/x".to_string(),
        60,
        60,
        String::new(),
        String::new(),
    );
    if let Some(address) = address {
        pool.set_proxy_address(port, address.to_string());
    }
    pool
}

fn bypassing(host: &str) -> BypassList {
    let mut bypass = BypassList::new();
    bypass.insert(host.to_string());
    bypass
}

/// A session beside port 10000 that has read these lines.
fn after(lines: &[&str]) -> (HttpSession, HttpStep) {
    let (mut session, mut step) = HttpProxyServer::new(10000).accept();
    for line in lines {
        assert!(matches!(step.action, HttpAction::ReadLine));
        assert!(step.send.is_empty());
        step = session.received_line(line.to_string());
    }
    (session, step)
}

fn address_of(step: HttpStep) -> String {
    match step.action {
        HttpAction::Connect { address } => address,
        _ => panic!("an address is to be connected to"),
    }
}

fn request_of(step: HttpStep) -> String {
    assert!(step.send.is_empty());
    match step.action {
        HttpAction::Forward { request } => String::from_utf8(request).unwrap(),
        _ => panic!("a request is to be passed on"),
    }
}

#[test]
fn test_parse_host_port_with_port() {
    let (host, port) = parse_host_port("example.com:8080", 80).unwrap();
    assert_eq!(host, "example.com");
    assert_eq!(port, 8080);
}

#[test]
fn test_parse_host_port_without_port() {
    let (host, port) = parse_host_port("example.com", 443).unwrap();
    assert_eq!(host, "example.com");
    assert_eq!(port, 443);
}

#[test]
fn test_parse_host_port_with_scheme() {
    let (host, port) = parse_host_port("http://example.com:8080/path", 80).unwrap();
    assert_eq!(host, "example.com");
    assert_eq!(port, 8080);
}

#[test]
fn targets_of_other_forms() {
    let cases = [
        ("https://example.com/a:b", 443, "example.com", 443),
        ("http://http://https://h:1", 80, "h", 1),
        ("h:65535", 80, "h", 65535),
        ("h:65536", 80, "h", 80),
        ("h:+81", 80, "h", 81),
        ("h:", 80, "h", 80),
        ("h:x", 80, "h", 80),
        ("http://h:x/p:1", 80, "h", 80),
        ("https://a:b:/p", 443, "a:b", 443),
        ("http:/p", 80, "http", 80),
        ("[::1]:8080/", 80, "[::1]", 8080),
        ("a:b:5", 80, "a:b", 5),
        ("", 80, "", 80),
        ("/path", 80, "", 80),
        ("https://http://h", 80, "http", 80),
        ("b\u{fc}cher:8", 80, "b\u{fc}cher", 8),
    ];
    for (target, default_port, host, port) in cases {
        assert_eq!(parse_host_port(target, default_port), Ok((host.to_string(), port)));
    }
}

#[test]
fn a_request_line_needs_a_method_and_a_target() {
    for line in ["", "\r\n", "\r\n\r\n"] {
        let (_, step) = after(&[line]);
        assert!(matches!(step.action, HttpAction::Close { error: HttpError::EmptyRequestLine }));
        assert!(step.send.is_empty());
    }
    for line in ["GET\r\n", "  \r\n", "\n"] {
        let (_, step) = after(&[line]);
        assert!(matches!(step.action, HttpAction::Close { error: HttpError::MalformedRequestLine }));
        assert!(step.send.is_empty());
    }
}

#[test]
fn a_tunnel_by_the_upstream_proxy() {
    let (mut session, step) = after(&["connect example.com:8443 HTTP/1.1\r\n", "Host: x\r\n", "\r\n"]);
    assert!(matches!(step.action, HttpAction::Route));
    let mut pool = pool_with(10000, Some("127.0.0.1:40001"));
    let step = session.route(&BypassList::new(), &mut pool);
    assert_eq!(address_of(step), "127.0.0.1:40001");
    let step = session.connected(true);
    assert!(matches!(step.action, HttpAction::Handshake));
    let (mut handshake, step) = session.socks5_handshake(&pool);
    assert!(matches!(step, HandshakeStep::Exchange { read: 2, .. }));
    match handshake.next(&vec![5, 0]) {
        HandshakeStep::Exchange { send, read } => {
            let mut expected = vec![5, 1, 0, 3, 11];
            expected.extend_from_slice(b"example.com");
            expected.extend_from_slice(&8443u16.to_be_bytes());
            assert_eq!(send, expected);
            assert_eq!(read, 4);
        }
        _ => panic!("the request is to be sent"),
    }
    let step = session.handshaken(true);
    assert_eq!(step.send, ESTABLISHED);
    assert!(!step.insist);
    assert!(matches!(step.action, HttpAction::Relay));
}

#[test]
fn a_request_by_the_upstream_proxy_counts_as_use() {
    let idle = IDLE_LIMIT + 100;
    let route = |bypass: &BypassList| {
        let mut pool = pool_with(10000, Some("127.0.0.1:40001"));
        let (mut session, _) = after(&["GET http://h/ HTTP/1.1\r\n", "\r\n"]);
        session.route_at(bypass, &mut pool, 100);
        pool.fetch_and_assign_at(&vec![(10000, idle)])
    };
    assert!(matches!(route(&BypassList::new()), FetchStep::AskApi { recipient: None }));
    assert!(matches!(route(&bypassing("h")), FetchStep::AskApi { recipient: Some(10000) }));
}

#[test]
fn a_tunnel_has_the_port_of_https_by_default() {
    let (mut session, _) = after(&["CONNECT example.com HTTP/1.1\r\n", ""]);
    let mut pool = pool_with(10000, None);
    let step = session.route(&bypassing("example.com"), &mut pool);
    assert_eq!(address_of(step), "example.com:443");
    let step = session.connected(true);
    assert_eq!(step.send, ESTABLISHED);
    assert!(matches!(step.action, HttpAction::Relay));
}

#[test]
fn a_line_feed_alone_does_not_end_the_headers() {
    let (_, step) = after(&["CONNECT example.com HTTP/1.1\r\n", "\n"]);
    assert!(matches!(step.action, HttpAction::ReadLine));
    let (_, step) = after(&["GET http://h/ HTTP/1.1\r\n", "\n"]);
    assert!(matches!(step.action, HttpAction::ReadLine));
}

#[test]
fn a_plain_request_is_passed_on_with_its_path() {
    let (mut session, step) = after(&[
        "GET http://example.com:81/a/b?c=http://d HTTP/1.0\r\n",
        "Host: example.com\r\n",
        "X: y\n",
        "\r\n",
    ]);
    assert!(matches!(step.action, HttpAction::Route));
    let mut pool = pool_with(10000, None);
    let step = session.route(&bypassing("example.com"), &mut pool);
    assert_eq!(address_of(step), "example.com:81");
    let step = session.connected(true);
    assert!(step.insist);
    assert_eq!(
        request_of(step),
        "GET /a/b?c=http://d HTTP/1.1\r\nHost: example.com\r\nX: y\n\r\n"
    );
}

#[test]
fn a_plain_request_goes_by_the_upstream_proxy() {
    let (mut session, _) = after(&["GET http://example.com HTTP/1.1\r\n", "\r\n"]);
    let mut pool = pool_with(10000, Some("127.0.0.1:40001"));
    let step = session.route(&BypassList::new(), &mut pool);
    assert_eq!(address_of(step), "127.0.0.1:40001");
    session.connected(true);
    let (mut handshake, _) = session.socks5_handshake(&pool);
    match handshake.next(&vec![5, 0]) {
        HandshakeStep::Exchange { send, .. } => assert_eq!(send[send.len() - 2..], [0, 80]),
        _ => panic!("the request is to be sent"),
    }
    assert_eq!(request_of(session.handshaken(true)), "GET / HTTP/1.1\r\n\r\n");
}

#[test]
fn a_target_without_a_host_is_a_path() {
    let (mut session, _) = after(&["GET /index.html HTTP/1.1\r\n", ""]);
    let mut pool = pool_with(10000, None);
    let step = session.route(&bypassing(""), &mut pool);
    assert_eq!(address_of(step), ":80");
    assert_eq!(request_of(session.connected(true)), "GET /index.html HTTP/1.1\r\n\r\n");
}

#[test]
fn a_body_is_read_and_passed_on() {
    let (mut session, step) = after(&[
        "POST http://h/p HTTP/1.1\r\n",
        "Content-Length: 99\r\n",
        "content-length: 7\r\n",
        "Content-Length:  5 \r\n",
        "\r\n",
    ]);
    assert!(matches!(step.action, HttpAction::ReadBody { count: 5 }));
    let step = session.received_body(b"hello".to_vec());
    assert!(matches!(step.action, HttpAction::Route));
    let mut pool = pool_with(10000, None);
    session.route(&bypassing("h"), &mut pool);
    assert_eq!(
        request_of(session.connected(true)),
        "POST /p HTTP/1.1\r\nContent-Length: 99\r\ncontent-length: 7\r\nContent-Length:  5 \r\n\r\nhello"
    );
}

#[test]
fn a_length_that_is_none_counts_as_zero() {
    for line in ["Content-Length: x\r\n", "Content-Length:\r\n", "Content-Length: -1\r\n", "Content-Length: 99999999999999999999\r\n"] {
        let (_, step) = after(&["POST http://h/p HTTP/1.1\r\n", "Content-Length: 3\r\n", line, "\r\n"]);
        assert!(matches!(step.action, HttpAction::Route));
    }
}

#[test]
fn a_missing_upstream_proxy_is_a_bad_gateway() {
    let mut pool = pool_with(10000, None);
    let (mut session, _) = after(&["CONNECT example.com HTTP/1.1\r\n", "\r\n"]);
    let step = session.route(&BypassList::new(), &mut pool);
    assert_eq!(step.send, BAD_GATEWAY);
    assert!(!step.insist);
    assert!(matches!(
        step.action,
        HttpAction::GiveUp { port: 10000, error: HttpError::NoProxy { port: 10000 } }
    ));
    let (mut session, _) = after(&["GET http://example.com/ HTTP/1.1\r\n", "\r\n"]);
    let step = session.route(&BypassList::new(), &mut pool);
    assert_eq!(step.send, BAD_GATEWAY);
    assert!(step.insist);
    assert!(matches!(
        step.action,
        HttpAction::GiveUp { port: 10000, error: HttpError::NoProxy { port: 10000 } }
    ));
}

#[test]
fn an_upstream_proxy_that_is_not_reached_is_given_up() {
    let mut pool = pool_with(10000, Some("127.0.0.1:19998"));
    let (mut session, _) = after(&["CONNECT example.com HTTP/1.1\r\n", "\r\n"]);
    session.route(&BypassList::new(), &mut pool);
    let step = session.connected(false);
    assert_eq!(step.send, BAD_GATEWAY);
    assert!(matches!(
        step.action,
        HttpAction::GiveUp { port: 10000, error: HttpError::UpstreamConnectFailed }
    ));
}

#[test]
fn a_destination_that_is_not_reached_directly_is_a_bad_gateway() {
    let mut pool = pool_with(10000, Some("127.0.0.1:40001"));
    let (mut session, _) = after(&["GET http://h/ HTTP/1.1\r\n", "\r\n"]);
    session.route(&bypassing("h"), &mut pool);
    let step = session.connected(false);
    assert_eq!(step.send, BAD_GATEWAY);
    assert!(matches!(step.action, HttpAction::Close { error: HttpError::DirectConnectFailed }));
}

#[test]
fn a_failed_exchange_ends_the_session_without_an_answer() {
    let mut pool = pool_with(10000, Some("127.0.0.1:40001"));
    let (mut session, _) = after(&["GET http://h/ HTTP/1.1\r\n", "\r\n"]);
    session.route(&BypassList::new(), &mut pool);
    session.connected(true);
    let step = session.handshaken(false);
    assert!(step.send.is_empty());
    assert!(matches!(step.action, HttpAction::Close { error: HttpError::UpstreamHandshakeFailed }));
}
