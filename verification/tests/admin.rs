use ip_proxy_pool::admin::{handle, list_response, parse_request, AdminCommand};
use ip_proxy_pool::BypassList;

fn ask(bypass: &mut BypassList, request: &str) -> String {
    handle(&request.as_bytes().to_vec(), bypass)
}

fn ok(body: &str) -> String {
    format!(
        "HTTP/1.1 200 OK\r\nContent-Type: application/json\r\nContent-Length: {}\r\n\r\n{}",
        body.len(),
        body
    )
}

#[test]
fn domains_are_added_shown_and_removed() {
    let mut bypass = BypassList::new();
    assert_eq!(ask(&mut bypass, "GET /bypass HTTP/1.1\r\n\r\n"), ok("[]"));
    assert_eq!(
        ask(&mut bypass, "POST /bypass/example.com HTTP/1.1\r\n\r\n"),
        ok("{\"added\":\"example.com\"}")
    );
    assert!(bypass.contains("example.com"));
    assert_eq!(
        ask(&mut bypass, "POST /bypass/b.org HTTP/1.1\r\n\r\n"),
        "HTTP/1.1 200 OK\r\nContent-Type: application/json\r\nContent-Length: 17\r\n\r\n{\"added\":\"b.org\"}"
    );
    assert_eq!(
        ask(&mut bypass, "GET /bypass HTTP/1.1\r\n\r\n"),
        ok("[\"example.com\",\"b.org\"]")
    );
    assert_eq!(
        ask(&mut bypass, "DELETE /bypass/example.com HTTP/1.1\r\n\r\n"),
        ok("{\"removed\":true}")
    );
    assert_eq!(
        ask(&mut bypass, "DELETE /bypass/example.com HTTP/1.1\r\n\r\n"),
        ok("{\"removed\":false}")
    );
    assert!(!bypass.contains("example.com"));
    assert_eq!(ask(&mut bypass, "GET /bypass"), ok("[\"b.org\"]"));
}

#[test]
fn adding_twice_lists_once() {
    let mut bypass = BypassList::new();
    ask(&mut bypass, "POST /bypass/a HTTP/1.1\r\n");
    ask(&mut bypass, "POST /bypass/a HTTP/1.1\r\n");
    assert_eq!(bypass.domains().len(), 1);
    assert!(!bypass.insert("a".to_string()));
    assert!(bypass.insert("b".to_string()));
    assert!(bypass.remove("a"));
    assert!(!bypass.remove("a"));
    assert_eq!(bypass.domains(), &vec!["b".to_string()]);
}

#[test]
fn an_empty_domain_is_refused() {
    let mut bypass = BypassList::new();
    assert_eq!(
        ask(&mut bypass, "POST /bypass/ HTTP/1.1\r\n\r\n"),
        "HTTP/1.1 400 Bad Request\r\n\r\n{\"error\":\"empty domain\"}"
    );
    assert!(bypass.domains().is_empty());
    assert_eq!(ask(&mut bypass, "DELETE /bypass/ HTTP/1.1\r\n\r\n"), ok("{\"removed\":false}"));
}

#[test]
fn a_request_without_a_path_is_bad() {
    let mut bypass = BypassList::new();
    for request in ["GET", "\n\nGET /bypass", "   ", "GET\n/bypass"] {
        assert_eq!(ask(&mut bypass, request), "HTTP/1.1 400 Bad Request\r\n\r\n");
    }
}

#[test]
fn other_requests_are_not_found() {
    let mut bypass = BypassList::new();
    for request in [
        "GET /bypass/ HTTP/1.1",
        "POST /bypass HTTP/1.1",
        "get /bypass HTTP/1.1",
        "GET / HTTP/1.1",
        "PUT /bypass/a HTTP/1.1",
        "DELETE /bypassa HTTP/1.1",
    ] {
        assert_eq!(ask(&mut bypass, request), "HTTP/1.1 404 Not Found\r\n\r\n");
    }
    assert!(bypass.domains().is_empty());
}

#[test]
fn only_the_first_line_counts() {
    assert!(matches!(parse_request("GET /bypass\nPOST /bypass/a"), AdminCommand::Show));
    match parse_request("POST   /bypass/a\r\nHost: b\r\n") {
        AdminCommand::Add { domain } => assert_eq!(domain, "a"),
        _ => panic!("a domain is to be added"),
    }
    match parse_request("DELETE /bypass/a/b") {
        AdminCommand::Remove { domain } => assert_eq!(domain, "a/b"),
        _ => panic!("a domain is to be removed"),
    }
    assert!(matches!(parse_request("PATCH /x"), AdminCommand::Unknown));
    assert!(matches!(parse_request(""), AdminCommand::Malformed));
}

#[test]
fn json_escapes_what_it_must() {
    let mut bypass = BypassList::new();
    bypass.insert("a\"b\\c".to_string());
    bypass.insert("\u{1}".to_string());
    assert_eq!(ask(&mut bypass, "GET /bypass"), ok("[\"a\\\"b\\\\c\",\"\\u0001\"]"));
}

#[test]
fn json_has_short_escapes_and_long_ones() {
    let mut bypass = BypassList::new();
    for n in 0..0x20u8 {
        bypass.insert((n as char).to_string());
    }
    bypass.insert("\u{7f}\u{e9}/ ".to_string());
    let shown: Vec<&str> = vec![
        "\\u0000", "\\u0001", "\\u0002", "\\u0003", "\\u0004", "\\u0005", "\\u0006", "\\u0007", "\\b",
        "\\t", "\\n", "\\u000b", "\\f", "\\r", "\\u000e", "\\u000f", "\\u0010", "\\u0011", "\\u0012",
        "\\u0013", "\\u0014", "\\u0015", "\\u0016", "\\u0017", "\\u0018", "\\u0019", "\\u001a",
        "\\u001b", "\\u001c", "\\u001d", "\\u001e", "\\u001f", "\u{7f}\u{e9}/ ",
    ];
    let body = format!("[\"{}\"]", shown.join("\",\""));
    assert_eq!(ask(&mut bypass, "GET /bypass"), ok(&body));
}

#[test]
fn the_length_is_counted_in_bytes() {
    let mut bypass = BypassList::new();
    assert_eq!(
        ask(&mut bypass, "POST /bypass/b\u{fc} HTTP/1.1"),
        "HTTP/1.1 200 OK\r\nContent-Type: application/json\r\nContent-Length: 15\r\n\r\n{\"added\":\"b\u{fc}\"}"
    );
}

#[test]
fn bytes_that_are_not_utf8_are_replaced() {
    let mut bypass = BypassList::new();
    let answer = handle(&b"POST /bypass/a\xFF HTTP/1.1".to_vec(), &mut bypass);
    assert_eq!(answer, ok("{\"added\":\"a\u{fffd}\"}"));
    assert!(bypass.contains("a\u{fffd}"));
}

#[test]
fn a_list_without_json_is_shown_empty() {
    assert_eq!(list_response(None), ok("[]"));
    assert_eq!(list_response(Some("[1]".to_string())), ok("[1]"));
}
