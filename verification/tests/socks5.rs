use ip_proxy_pool::handshake::{Handshake, HandshakeError, HandshakeStep};
use ip_proxy_pool::pool::{IpPool, IDLE_LIMIT};
use ip_proxy_pool::rotation::FetchStep;
use ip_proxy_pool::socks5::{
    Socks5Action, Socks5Error, Socks5Server, Socks5Session, Socks5Step, SOCKS5_ATYP_DOMAIN,
    SOCKS5_ATYP_IPV4, SOCKS5_CMD_CONNECT, SOCKS5_NO_AUTH, SOCKS5_REP_FAILURE,
    SOCKS5_REP_HOST_UNREACHABLE, SOCKS5_REP_SUCCESS, SOCKS5_USERPASS_AUTH, SOCKS5_VERSION,
};
use ip_proxy_pool::{http_port, AuthConfig, BypassList};

const UPSTREAM: &str = "127.0.0.1:40001";

fn pool_with(port: u16, address: Option<&str>) -> IpPool {
    let mut pool = IpPool::new(
        (port, port),
        "http://127.0.0.1:1/x".to_string(),
        60,
        60,
        String::new(),
        String::new(),
    );
    if let Some(address) = address {
        pool.set_proxy_address(port, address.to_string());
    }
    pool
}

fn open_server() -> Socks5Server {
    Socks5Server::new(AuthConfig { username: String::new(), password: String::new() })
}

fn guarded_server() -> Socks5Server {
    Socks5Server::new(AuthConfig { username: "user".to_string(), password: "SECRET-REDACTED".to_string() })
}

/// Lets a session read as long as it wants to and there are bytes; gives all that it sent, its
/// last step, and how many bytes it left.
fn drive(session: &mut Socks5Session, first: Socks5Step, input: &[u8]) -> (Vec<u8>, Socks5Step, usize) {
    let mut sent = first.send.clone();
    let mut step = first;
    let mut at = 0;
    loop {
        match step.action {
            Socks5Action::Read { count } if count <= input.len() - at => {
                step = session.received(input[at..at + count].to_vec());
                sent.extend_from_slice(&step.send);
                at += count;
            }
            _ => return (sent, step, input.len() - at),
        }
    }
}

/// Runs an exchange against an upstream proxy that sends `replies`; gives what it was sent and
/// whether it is connected.
fn shake_hands(start: (Handshake, HandshakeStep), replies: &[u8]) -> (Vec<u8>, Result<usize, Option<HandshakeError>>) {
    let (mut handshake, mut step) = start;
    let mut sent = Vec::new();
    let mut at = 0;
    loop {
        match step {
            HandshakeStep::Exchange { send, read } => {
                sent.extend_from_slice(&send);
                if at + read > replies.len() {
                    return (sent, Err(None));
                }
                step = handshake.next(&replies[at..at + read].to_vec());
                at += read;
            }
            HandshakeStep::Established => return (sent, Ok(replies.len() - at)),
            HandshakeStep::Failed { error } => return (sent, Err(Some(error))),
        }
    }
}

fn connect_request(atyp: u8, addr_bytes: &[u8], port: u16) -> Vec<u8> {
    let mut req = vec![SOCKS5_VERSION, SOCKS5_CMD_CONNECT, 0x00, atyp];
    req.extend_from_slice(addr_bytes);
    req.extend_from_slice(&port.to_be_bytes());
    req
}

const GRANTED: [u8; 12] = [0x05, 0x00, 0x05, 0x00, 0x00, 0x01, 0, 0, 0, 0, 0, 0];

/// A client that asks for `request` through the upstream proxy of `port`.
fn end_to_end(port: u16, atyp: u8, addr_bytes: &[u8], dest_port: u16) {
    let mut pool = pool_with(port, Some(UPSTREAM));
    let bypass = BypassList::new();
    let (mut session, step) = open_server().accept(port);
    let mut input = vec![SOCKS5_VERSION, 0x01, SOCKS5_NO_AUTH];
    let request = connect_request(atyp, addr_bytes, dest_port);
    input.extend_from_slice(&request);
    let (sent, step, left) = drive(&mut session, step, &input);
    assert_eq!(sent, vec![SOCKS5_VERSION, SOCKS5_NO_AUTH]);
    assert_eq!(left, 0);
    assert!(matches!(step.action, Socks5Action::Route));
    let step = session.route(&bypass, &mut pool);
    assert!(step.send.is_empty());
    match step.action {
        Socks5Action::Connect { address } => assert_eq!(address, UPSTREAM),
        _ => panic!("the upstream proxy is to be connected to"),
    }
    let step = session.connected(true);
    assert!(matches!(step.action, Socks5Action::Handshake));
    let (asked, outcome) = shake_hands(session.upstream_handshake(&pool), &GRANTED);
    let mut expected = vec![0x05, 0x02, 0x00, 0x02];
    expected.extend_from_slice(&request);
    assert_eq!(asked, expected);
    assert_eq!(outcome, Ok(0));
    let step = session.handshaken(true);
    assert_eq!(step.send, vec![0x05, 0x00, 0x00, 0x01, 0, 0, 0, 0, 0, 0]);
    assert!(matches!(step.action, Socks5Action::Relay));
}

#[test]
fn test_socks5_server_connect_ipv4_and_echo() {
    end_to_end(20001, SOCKS5_ATYP_IPV4, &[10, 0, 0, 1], 80);
}

#[test]
fn test_socks5_server_connect_domain_and_echo() {
    let domain = b"example.com";
    let mut addr_bytes = vec![domain.len() as u8];
    addr_bytes.extend_from_slice(domain);
    end_to_end(20002, SOCKS5_ATYP_DOMAIN, &addr_bytes, 443);
}

#[test]
fn test_socks5_server_no_upstream_returns_host_unreachable() {
    let mut pool = pool_with(20003, None);
    let (mut session, step) = open_server().accept(20003);
    let (reply, step, _) = drive(&mut session, step, &[SOCKS5_VERSION, 0x01, SOCKS5_NO_AUTH]);
    assert_eq!(reply, [SOCKS5_VERSION, SOCKS5_NO_AUTH]);

    let req = vec![SOCKS5_VERSION, SOCKS5_CMD_CONNECT, 0x00, SOCKS5_ATYP_IPV4, 10, 0, 0, 1, 0x00, 0x50];
    let (_, step, _) = drive(&mut session, Socks5Step { send: vec![], action: step.action }, &req);
    assert!(matches!(step.action, Socks5Action::Route));
    let step = session.route(&BypassList::new(), &mut pool);
    let connect_reply = step.send;
    assert_eq!(connect_reply.len(), 10);
    assert_eq!(connect_reply[1], SOCKS5_REP_HOST_UNREACHABLE);
    assert!(matches!(step.action, Socks5Action::Close { error: Socks5Error::NoProxy { port: 20003 } }));
}

#[test]
fn test_socks5_server_unsupported_version() {
    let (mut session, step) = open_server().accept(20004);
    let (sent, step, _) = drive(&mut session, step, &[0x04, 0x01, 0x00]);
    assert!(sent.is_empty());
    assert!(matches!(
        step.action,
        Socks5Action::Close { error: Socks5Error::UnsupportedVersion { version: 4 } }
    ));
}

#[test]
fn test_socks5_server_unsupported_command_returns_failure() {
    let (mut session, step) = open_server().accept(20005);
    let (_, step, _) = drive(&mut session, step, &[SOCKS5_VERSION, 0x01, SOCKS5_NO_AUTH]);
    let req = vec![SOCKS5_VERSION, 0x02, 0x00, SOCKS5_ATYP_IPV4, 10, 0, 0, 1, 0x00, 0x50];
    let (connect_reply, step, _) = drive(&mut session, Socks5Step { send: vec![], action: step.action }, &req);
    assert_eq!(connect_reply.len(), 10);
    assert_eq!(connect_reply[1], SOCKS5_REP_FAILURE);
    assert!(matches!(
        step.action,
        Socks5Action::Close { error: Socks5Error::UnsupportedCommand { command: 2 } }
    ));
}

#[test]
fn test_socks5_server_unsupported_atyp_returns_failure() {
    let (mut session, step) = open_server().accept(20006);
    let (_, step, _) = drive(&mut session, step, &[SOCKS5_VERSION, 0x01, SOCKS5_NO_AUTH]);
    let req = vec![SOCKS5_VERSION, SOCKS5_CMD_CONNECT, 0x00, 0x04];
    let (connect_reply, step, _) = drive(&mut session, Socks5Step { send: vec![], action: step.action }, &req);
    assert_eq!(connect_reply.len(), 10);
    assert_eq!(connect_reply[1], SOCKS5_REP_FAILURE);
    assert!(matches!(
        step.action,
        Socks5Action::Close { error: Socks5Error::UnsupportedAddressType { kind: 4 } }
    ));
}

#[test]
fn test_protocol_constants() {
    assert_eq!(SOCKS5_VERSION, 0x05);
    assert_eq!(SOCKS5_NO_AUTH, 0x00);
    assert_eq!(SOCKS5_CMD_CONNECT, 0x01);
    assert_eq!(SOCKS5_ATYP_IPV4, 0x01);
    assert_eq!(SOCKS5_ATYP_DOMAIN, 0x03);
    assert_eq!(SOCKS5_REP_SUCCESS, 0x00);
    assert_eq!(SOCKS5_REP_FAILURE, 0x01);
    assert_eq!(SOCKS5_REP_HOST_UNREACHABLE, 0x04);
    assert_eq!(SOCKS5_USERPASS_AUTH, 0x02);
}

/// An upstream proxy made of the server here, which reaches `host` directly.
fn upstream_for(host: &str, input: &[u8]) -> Vec<u8> {
    let mut bypass = BypassList::new();
    bypass.insert(host.to_string());
    let mut pool = pool_with(1, None);
    let (mut session, step) = open_server().accept(1);
    let (mut sent, step, left) = drive(&mut session, step, input);
    assert_eq!(left, 0);
    assert!(matches!(step.action, Socks5Action::Route));
    let step = session.route(&bypass, &mut pool);
    assert!(matches!(step.action, Socks5Action::Connect { .. }));
    let step = session.connected(true);
    assert!(matches!(step.action, Socks5Action::Relay));
    sent.extend_from_slice(&step.send);
    sent
}

#[test]
fn test_mock_upstream_ipv4_handshake() {
    let mut input = vec![0x05, 0x01, 0x00];
    input.extend_from_slice(&[0x05, 0x01, 0x00, 0x01, 10, 0, 0, 1]);
    input.extend_from_slice(&80u16.to_be_bytes());
    let sent = upstream_for("10.0.0.1", &input);
    assert_eq!(sent[..2], [0x05, 0x00]);
    let connect_reply = &sent[2..];
    assert_eq!(connect_reply.len(), 10);
    assert_eq!(connect_reply[1], 0x00);
}

#[test]
fn test_mock_upstream_domain_handshake() {
    let domain = b"example.com";
    let mut input = vec![0x05, 0x01, 0x00];
    input.extend_from_slice(&[0x05, 0x01, 0x00, 0x03, domain.len() as u8]);
    input.extend_from_slice(domain);
    input.extend_from_slice(&443u16.to_be_bytes());
    let sent = upstream_for("example.com", &input);
    assert_eq!(sent[..2], [0x05, 0x00]);
    let connect_reply = &sent[2..];
    assert_eq!(connect_reply.len(), 10);
    assert_eq!(connect_reply[1], 0x00);
}

#[test]
fn test_socks5_end_to_end_with_mock_upstream() {
    let host = b"test.example.com";
    let mut addr_bytes = vec![host.len() as u8];
    addr_bytes.extend_from_slice(host);
    end_to_end(40080, SOCKS5_ATYP_DOMAIN, &addr_bytes, 80);
}

#[test]
fn test_socks5_end_to_end_unavailable_upstream() {
    let port = 40081;
    let mut pool = pool_with(port, Some("127.0.0.1:19998"));
    let (mut session, step) = open_server().accept(port);
    let mut input = vec![0x05, 0x01, 0x00, 0x05, 0x01, 0x00, 0x03, 16];
    input.extend_from_slice(b"test.example.com");
    input.extend_from_slice(&80u16.to_be_bytes());
    let (_, step, _) = drive(&mut session, step, &input);
    assert!(matches!(step.action, Socks5Action::Route));
    let step = session.route(&BypassList::new(), &mut pool);
    assert!(matches!(step.action, Socks5Action::Connect { .. }));
    let step = session.connected(false);
    assert_eq!(step.send[1], SOCKS5_REP_HOST_UNREACHABLE);
    assert!(matches!(
        step.action,
        Socks5Action::Close { error: Socks5Error::UpstreamConnectFailed }
    ));
    // One failure does not take the port out: that is left to the health check.
    let addr = pool.get_proxy_address(port);
    assert!(addr.is_some());
}

#[test]
fn a_failed_exchange_is_answered_and_leaves_the_port_in() {
    let port = 40082;
    let mut pool = pool_with(port, Some(UPSTREAM));
    let (mut session, step) = open_server().accept(port);
    let (_, step, _) = drive(&mut session, step, &[5, 1, 0, 5, 1, 0, 1, 10, 0, 0, 1, 0, 80]);
    assert!(matches!(step.action, Socks5Action::Route));
    session.route(&BypassList::new(), &mut pool);
    session.connected(true);
    let step = session.handshaken(false);
    assert_eq!(step.send, vec![5, SOCKS5_REP_HOST_UNREACHABLE, 0, 1, 0, 0, 0, 0, 0, 0]);
    assert!(matches!(
        step.action,
        Socks5Action::Close { error: Socks5Error::UpstreamHandshakeFailed }
    ));
    assert!(pool.get_proxy_address(port).is_some());
}

#[test]
fn a_bypassed_destination_needs_no_upstream_proxy() {
    let mut bypass = BypassList::new();
    bypass.insert("10.0.0.1".to_string());
    let mut pool = pool_with(1, Some(UPSTREAM));
    let (mut session, step) = open_server().accept(1);
    drive(&mut session, step, &[5, 1, 0, 5, 1, 0, 1, 10, 0, 0, 1, 0x1F, 0x90]);
    let step = session.route(&bypass, &mut pool);
    match step.action {
        Socks5Action::Connect { address } => assert_eq!(address, "10.0.0.1:8080"),
        _ => panic!("the destination is to be connected to"),
    }
    let step = session.connected(false);
    assert_eq!(step.send[1], SOCKS5_REP_HOST_UNREACHABLE);
    assert!(matches!(
        step.action,
        Socks5Action::Close { error: Socks5Error::DirectConnectFailed }
    ));
}

#[test]
fn routing_by_the_upstream_proxy_counts_as_use() {
    let idle = IDLE_LIMIT + 100;
    let route = |bypass: &BypassList| {
        let mut pool = pool_with(1, Some(UPSTREAM));
        let (mut session, step) = open_server().accept(1);
        drive(&mut session, step, &[5, 1, 0, 5, 1, 0, 1, 10, 0, 0, 1, 0, 80]);
        session.route_at(bypass, &mut pool, 100);
        pool.fetch_and_assign_at(&vec![(1, idle)])
    };
    let mut bypass = BypassList::new();
    assert!(matches!(route(&bypass), FetchStep::AskApi { recipient: None }));
    bypass.insert("10.0.0.1".to_string());
    assert!(matches!(route(&bypass), FetchStep::AskApi { recipient: Some(1) }));
}

#[test]
fn name_and_password_let_a_client_pass() {
    let (mut session, step) = guarded_server().accept(1);
    let mut input = vec![5, 2, 0, 2, 1, 4];
    input.extend_from_slice(b"user");
    input.push(15);
    input.extend_from_slice(b"SECRET-REDACTED");
    input.extend_from_slice(&[5, 1, 0, 1, 10, 0, 0, 1, 0, 80, 99]);
    let (sent, step, left) = drive(&mut session, step, &input);
    assert_eq!(sent, vec![5, 2, 1, 0]);
    assert!(matches!(step.action, Socks5Action::Route));
    assert_eq!(left, 1);
}

#[test]
fn a_wrong_password_is_refused() {
    let (mut session, step) = guarded_server().accept(1);
    let mut input = vec![5, 2, 0, 2, 1, 4];
    input.extend_from_slice(b"user");
    input.push(3);
    input.extend_from_slice(b"bad");
    let (sent, step, _) = drive(&mut session, step, &input);
    assert_eq!(sent, vec![5, 2, 1, 1]);
    assert!(matches!(step.action, Socks5Action::Close { error: Socks5Error::AuthFailed }));
}

#[test]
fn a_name_that_is_not_utf8_counts_as_none() {
    // With an empty password set, a password that is no text passes as one.
    let server = Socks5Server::new(AuthConfig { username: "u".to_string(), password: String::new() });
    let (mut session, step) = server.accept(1);
    let (sent, step, _) = drive(&mut session, step, &[5, 1, 2, 1, 1, b'u', 1, 0xFF]);
    assert_eq!(sent, vec![5, 2, 1, 0]);
    assert!(matches!(step.action, Socks5Action::Read { count: 4 }));
    let (mut session, step) = server.accept(1);
    let (sent, step, _) = drive(&mut session, step, &[5, 1, 2, 1, 1, 0xFF, 0]);
    assert_eq!(sent, vec![5, 2, 1, 1]);
    assert!(matches!(step.action, Socks5Action::Close { error: Socks5Error::AuthFailed }));
}

#[test]
fn a_client_without_name_and_password_is_refused() {
    let (mut session, step) = guarded_server().accept(1);
    let (sent, step, _) = drive(&mut session, step, &[5, 1, 0]);
    assert_eq!(sent, vec![5, 0xFF]);
    assert!(matches!(step.action, Socks5Action::Close { error: Socks5Error::NoAcceptableMethod }));
    let (mut session, step) = guarded_server().accept(1);
    let (sent, step, _) = drive(&mut session, step, &[5, 0]);
    assert_eq!(sent, vec![5, 0xFF]);
    assert!(matches!(step.action, Socks5Action::Close { error: Socks5Error::NoAcceptableMethod }));
}

#[test]
fn an_unknown_form_of_authentication_is_refused() {
    let (mut session, step) = guarded_server().accept(1);
    let (sent, step, _) = drive(&mut session, step, &[5, 1, 2, 5]);
    assert_eq!(sent, vec![5, 2]);
    assert!(matches!(
        step.action,
        Socks5Action::Close { error: Socks5Error::UnsupportedAuthVersion { version: 5 } }
    ));
}

#[test]
fn a_request_of_another_version_gets_no_reply() {
    let (mut session, step) = open_server().accept(1);
    let (sent, step, _) = drive(&mut session, step, &[5, 0, 4, 1, 0, 1]);
    assert_eq!(sent, vec![5, 0]);
    assert!(matches!(
        step.action,
        Socks5Action::Close { error: Socks5Error::InvalidRequestVersion { version: 4 } }
    ));
}

#[test]
fn a_domain_that_is_not_utf8_gets_no_reply() {
    let (mut session, step) = open_server().accept(1);
    let (sent, step, left) = drive(&mut session, step, &[5, 0, 5, 1, 0, 3, 2, 0xC3, 0x28, 0, 80]);
    assert_eq!(sent, vec![5, 0]);
    assert_eq!(left, 2);
    assert!(matches!(step.action, Socks5Action::Close { error: Socks5Error::InvalidDomain }));
}

#[test]
fn no_step_reads_more_than_it_needs() {
    let (mut session, step) = open_server().accept(1);
    let (sent, step, left) = drive(&mut session, step, &[5]);
    assert!(sent.is_empty());
    assert_eq!(left, 1);
    assert!(matches!(step.action, Socks5Action::Read { count: 2 }));
}

fn start(addr: &str, username: &str, password: &str) -> (Handshake, HandshakeStep) {
    Handshake::start(addr, 443, username, password)
}

#[test]
fn an_exchange_gives_name_and_password_when_asked() {
    let mut replies = vec![5, 2, 1, 0, 5, 0, 0, 3, 4];
    replies.extend_from_slice(b"host");
    replies.extend_from_slice(&[0, 80, 7, 7]);
    let (sent, outcome) = shake_hands(start("example.com", "us\u{e9}r", "pw"), &replies);
    let mut expected = vec![5, 2, 0, 2, 1, 5];
    expected.extend_from_slice("us\u{e9}r".as_bytes());
    expected.extend_from_slice(&[2, b'p', b'w', 5, 1, 0, 3, 11]);
    expected.extend_from_slice(b"example.com");
    expected.extend_from_slice(&[1, 187]);
    assert_eq!(sent, expected);
    assert_eq!(outcome, Ok(2));
}

#[test]
fn name_and_password_are_kept_until_asked_for() {
    let (sent, outcome) = shake_hands(start("10.0.0.1", "user", "SECRET-REDACTED"), &GRANTED);
    assert_eq!(sent, vec![5, 2, 0, 2, 5, 1, 0, 1, 10, 0, 0, 1, 1, 187]);
    assert_eq!(outcome, Ok(0));
}

#[test]
fn an_exchange_fails_for_each_reason() {
    let cases: Vec<(Vec<u8>, &str, HandshakeError)> = vec![
        (vec![4, 0], "u", HandshakeError::VersionMismatch),
        (vec![5, 2], "", HandshakeError::NoCredentials),
        (vec![5, 2, 1, 7], "u", HandshakeError::AuthRejected { status: 7 }),
        (vec![5, 2, 5, 0], "u", HandshakeError::AuthRejected { status: 0 }),
        (vec![5, 0xFF], "u", HandshakeError::UnsupportedMethod { method: 0xFF }),
        (vec![5, 0, 5, 4, 0, 1], "u", HandshakeError::ConnectFailed { reply: 4 }),
        (vec![5, 0, 5, 0, 0, 4], "u", HandshakeError::UnsupportedBoundAddress),
    ];
    for (replies, username, error) in cases {
        let (_, outcome) = shake_hands(start("10.0.0.1", username, "p"), &replies);
        assert_eq!(outcome, Err(Some(error)));
    }
}

#[test]
fn an_exchange_does_not_look_at_the_version_of_the_answer() {
    let (_, outcome) = shake_hands(start("10.0.0.1", "", ""), &[5, 0, 9, 0, 9, 1, 1, 2, 3, 4, 5, 6]);
    assert_eq!(outcome, Ok(0));
}

#[test]
fn only_dotted_decimal_goes_as_an_address() {
    let (sent, _) = shake_hands(start("255.0.10.9", "", ""), &[5, 0]);
    assert_eq!(sent[4..], [5, 1, 0, 1, 255, 0, 10, 9, 1, 187]);
    for name in ["256.0.0.1", "1.2.3", "01.2.3.4", "1.2.3.4.5", "1.2.3.4 ", "::1"] {
        let (sent, _) = shake_hands(start(name, "", ""), &[5, 0]);
        assert_eq!(sent[7], 3);
        assert_eq!(sent[8] as usize, name.len());
        assert_eq!(&sent[9..sent.len() - 2], name.as_bytes());
    }
}

#[test]
fn the_count_of_a_long_name_wraps() {
    let name = "x".repeat(300);
    let (sent, _) = shake_hands(start(&name, "", ""), &[5, 0]);
    assert_eq!(sent[7..9], [3, 44]);
    assert_eq!(sent.len(), 4 + 3 + 1 + 1 + 300 + 2);
}

#[test]
fn client_and_server_understand_each_other() {
    let mut bypass = BypassList::new();
    bypass.insert("b\u{fc}cher.example".to_string());
    let mut pool = pool_with(1, None);
    let server = guarded_server();
    let (mut session, mut server_step) = server.accept(1);
    let (mut client, mut client_step) = start("b\u{fc}cher.example", "user", "SECRET-REDACTED");
    let mut to_server: Vec<u8> = Vec::new();
    let mut to_client: Vec<u8> = Vec::new();
    let mut connected_to = String::new();
    loop {
        match client_step {
            HandshakeStep::Exchange { send, read } => {
                to_server.extend_from_slice(&send);
                loop {
                    match server_step.action {
                        Socks5Action::Read { count } if count <= to_server.len() => {
                            let rest = to_server.split_off(count);
                            server_step = session.received(to_server);
                            to_server = rest;
                        }
                        Socks5Action::Route => server_step = session.route(&bypass, &mut pool),
                        Socks5Action::Connect { ref address } => {
                            connected_to = address.clone();
                            server_step = session.connected(true);
                        }
                        _ => break,
                    }
                    to_client.extend_from_slice(&server_step.send);
                }
                assert!(to_client.len() >= read);
                let rest = to_client.split_off(read);
                client_step = client.next(&to_client);
                to_client = rest;
            }
            HandshakeStep::Established => break,
            HandshakeStep::Failed { .. } => panic!("the client is to be let pass"),
        }
    }
    assert_eq!(connected_to, "b\u{fc}cher.example:443");
    assert!(matches!(server_step.action, Socks5Action::Relay));
    assert!(to_client.is_empty());
    assert!(to_server.is_empty());
}

#[test]
fn authentication_is_required_where_a_name_is_set() {
    let none = AuthConfig { username: String::new(), password: "p".to_string() };
    assert!(!none.is_required());
    let some = AuthConfig { username: "u".to_string(), password: String::new() };
    assert!(some.is_required());
    let copy = some.clone();
    assert_eq!(copy.username, "u");
    assert_eq!(copy.password, "");
}

#[test]
fn http_is_served_a_thousand_ports_above() {
    assert_eq!(http_port(10000), Some(11000));
    assert_eq!(http_port(64535), Some(65535));
    assert_eq!(http_port(64536), None);
}
