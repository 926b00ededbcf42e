use simple_proxy::forward::Forward;
use simple_proxy::plan::{
    detect_protocol, plan_connect, plan_http, plan_http_text, plan_tls, plan_tls_text, ConnectPlan,
    HttpPlan, Protocol, TlsPlan, BAD_REQUEST,
};
use simple_proxy::request::{cut_body, RequestLine};

fn sent(data: &[u8]) -> (RequestLine, Forward) {
    match plan_http(data) {
        HttpPlan::Forward(request, f) => (request, f),
        other => panic!("{:?}", other),
    }
}

fn sent_tls(data: &[u8]) -> (RequestLine, Forward) {
    match plan_tls(data) {
        TlsPlan::Forward(request, f) => (request, f),
        other => panic!("{:?}", other),
    }
}

#[test]
fn protocols() {
    assert_eq!(detect_protocol(None, true), Protocol::Closed);
    assert_eq!(detect_protocol(Some(0x16), true), Protocol::Tls);
    assert_eq!(detect_protocol(Some(0x16), false), Protocol::Http);
    assert_eq!(detect_protocol(Some(b'G'), true), Protocol::Http);
}

#[test]
fn get_is_sent_on() {
    let (request, f) = sent(
        b"GET http://example.com:8080/a?b HTTP/1.1\r\nHost: example.com\r\nProxy-Connection: keep-alive\r\nAccept: */*\r\n\r\n",
    );
    assert_eq!(request.method, "GET");
    assert_eq!(request.url, "http://example.com:8080/a?b");
    assert_eq!(request.version, "HTTP/1.1");
    assert_eq!(f.host, "example.com");
    assert_eq!(f.port, 8080);
    assert_eq!(f.path, "/a?b");
    assert_eq!(f.address, "example.com:8080");
    assert_eq!(f.head, "GET /a?b HTTP/1.1\r\nHost: example.com\r\nAccept: */*\r\n\r\n");
    assert_eq!(f.body, Some(vec![]));
}

#[test]
fn proxy_headers_stay_behind_in_any_case() {
    let (_, f) = sent(
        b"GET http://h/ HTTP/1.1\r\nPROXY-Authorization: x\r\nproxy-foo: y\r\nPrOxY-Bar\r\nProxy: z\r\n Proxy-: w\r\nX: 1\r\n\r\n",
    );
    assert_eq!(f.head, "GET / HTTP/1.1\r\nProxy: z\r\n Proxy-: w\r\nX: 1\r\n\r\n");
}

#[test]
fn headers_beyond_ascii_are_kept() {
    let data = "GET http://h/ HTTP/1.1\r\nX-Name: \u{c4}\u{df}\r\n\u{212a}: k\r\n\r\n";
    let (_, f) = sent(data.as_bytes());
    assert_eq!(f.head, "GET / HTTP/1.1\r\nX-Name: \u{c4}\u{df}\r\n\u{212a}: k\r\n\r\n");
}

#[test]
fn body_is_unchanged_even_if_it_is_not_text() {
    let mut data = b"POST http://h/p HTTP/1.0\r\nContent-Length: 6\r\n\r\n".to_vec();
    let body = vec![0u8, 0xff, 0xfe, b'\r', b'\n', 0x80];
    data.extend_from_slice(&body);
    let (_, f) = sent(&data);
    assert_eq!(f.head, "POST /p HTTP/1.0\r\nContent-Length: 6\r\n\r\n");
    assert_eq!(f.body, Some(body));
}

#[test]
fn body_of_utf8_head() {
    let mut data = "POST http://h/p HTTP/1.0\r\nX: \u{20ac}\u{1f600}\u{e9}\r\n\r\n".as_bytes().to_vec();
    data.extend_from_slice(b"body");
    let (_, f) = sent(&data);
    assert_eq!(f.body, Some(b"body".to_vec()));
}

#[test]
fn broken_head_shifts_the_body() {
    // Two bytes that are not UTF-8 read as two characters of three bytes each.
    let (_, f) = sent(b"POST http://h/ HTTP/1.0\r\nX: \xff\xff\r\n\r\n0123456789");
    assert_eq!(f.head, "POST / HTTP/1.0\r\nX: \u{fffd}\u{fffd}\r\n\r\n");
    assert_eq!(f.body, Some(b"456789".to_vec()));
}

#[test]
fn broken_head_can_claim_too_much() {
    let (_, f) = sent(b"POST http://h/ HTTP/1.0\r\nX: \xff\xff\r\n\r\n012");
    assert_eq!(f.body, None);
    let (_, f) = sent(b"POST http://h/ HTTP/1.0\r\nX: \xff\xff\r\n\r\n0123");
    assert_eq!(f.body, Some(vec![]));
}

#[test]
fn bodies_from_text_and_data() {
    assert_eq!(cut_body("a\r\n\r\nb", b"a\r\n\r\nb"), Some(b"b".to_vec()));
    assert_eq!(cut_body("a\r\nb", b"a\r\nb"), Some(vec![]));
    assert_eq!(cut_body("\u{e9}\r\n\r\n", b"x"), None);
    assert_eq!(cut_body("", b"xyz"), Some(vec![]));
}

#[test]
fn request_without_headers_or_end() {
    let (_, f) = sent(b"GET http://h/ HTTP/1.0");
    assert_eq!(f.head, "GET / HTTP/1.0\r\n\r\n");
    assert_eq!(f.body, Some(vec![]));
}

#[test]
fn requests_with_bare_line_feeds() {
    let (_, f) = sent(b"GET http://h/x HTTP/1.1\nA: 1\n\nrest");
    assert_eq!(f.head, "GET /x HTTP/1.1\r\nA: 1\r\n\r\n");
    assert_eq!(f.body, Some(vec![]));
}

#[test]
fn more_than_three_words() {
    let (request, f) = sent(b"  GET \t /x   HTTP/1.1 and more\r\n\r\n");
    assert_eq!(request.version, "HTTP/1.1");
    assert_eq!(f.address, "localhost:80");
    assert_eq!(f.head, "GET /x HTTP/1.1\r\n\r\n");
}

#[test]
fn empty_and_malformed_requests() {
    assert!(matches!(plan_http(b""), HttpPlan::Empty));
    assert!(matches!(plan_tls(b""), TlsPlan::Empty));
    match plan_http(b"GET /x\r\nHost: h\r\n\r\n") {
        HttpPlan::Malformed(line) => assert_eq!(line, "GET /x"),
        other => panic!("{:?}", other),
    }
    match plan_tls(b"\r\nGET /x HTTP/1.1\r\n\r\n") {
        TlsPlan::Malformed(line) => assert_eq!(line, ""),
        other => panic!("{:?}", other),
    }
}

#[test]
fn sent_head_reads_back() {
    let (request, f) = sent(b"PUT https://h:9/p HTTP/1.1\r\nA: 1\r\nProxy-B: 2\r\nC\r\n\r\nbody");
    assert_eq!(f.address, "h:9");
    let (again, g) = sent(f.head.as_bytes());
    assert_eq!(again.method, request.method);
    assert_eq!(again.url, f.path);
    assert_eq!(again.version, request.version);
    assert_eq!(g.head, f.head);
}

#[test]
fn text_decides_what_is_planned() {
    let data = b"x";
    assert!(matches!(plan_http_text("", data), HttpPlan::Malformed(_)));
    match plan_http_text("CONNECT h:1 HTTP/1.1", data) {
        HttpPlan::Tunnel(request) => assert_eq!(request.url, "h:1"),
        other => panic!("{:?}", other),
    }
    assert!(matches!(plan_http_text("connect h:1 HTTP/1.1", data), HttpPlan::Forward(_, _)));
    assert!(matches!(plan_tls_text("GET / HTTP/1.1", data), TlsPlan::NoTarget));
}

#[test]
fn tunnels() {
    match plan_connect("example.com:443") {
        ConnectPlan::Dial { host, port, address } => {
            assert_eq!(host, "example.com");
            assert_eq!(port, 443);
            assert_eq!(address, "example.com:443");
        }
        other => panic!("{:?}", other),
    }
    match plan_connect("example.com:https") {
        ConnectPlan::Dial { address, .. } => assert_eq!(address, "example.com:443"),
        other => panic!("{:?}", other),
    }
    match plan_connect(":22") {
        ConnectPlan::Dial { address, .. } => assert_eq!(address, ":22"),
        other => panic!("{:?}", other),
    }
}

#[test]
fn tunnels_refused() {
    for url in ["", "example.com", "[::1]:443", "a:b:c", "http://h:80"] {
        let plan = plan_connect(url);
        assert!(matches!(plan, ConnectPlan::Refuse), "{}", url);
        assert_eq!(plan.answer(), Some("HTTP/1.1 400 Bad Request\r\n\r\n"));
    }
    assert_eq!(plan_connect("h:1").answer(), None);
}

#[test]
fn host_header_comes_before_a_bare_path() {
    let (request, f) = sent_tls(b"GET /x HTTP/1.1\r\nHost: example.com\r\nProxy-A: b\r\n\r\n");
    assert_eq!(request.url, "https://example.com/x");
    assert_eq!(f.address, "example.com:443");
    assert_eq!(f.head, "GET /x HTTP/1.1\r\nHost: example.com\r\n\r\n");
}

#[test]
fn host_header_replaces_the_host_of_the_url() {
    let (request, f) = sent_tls(b"GET https://127.0.0.1/x?y HTTP/1.1\r\n  hOsT:\texample.com:8443 \r\n\r\nbody");
    assert_eq!(request.url, "https://example.com:8443/x?y");
    assert_eq!(f.host, "example.com");
    assert_eq!(f.port, 8443);
    assert_eq!(f.path, "/x?y");
    assert_eq!(f.body, Some(b"body".to_vec()));
    let (request, _) = sent_tls(b"GET http://127.0.0.1 HTTP/1.1\r\nHost: example.com\r\n\r\n");
    assert_eq!(request.url, "https://example.com/");
}

#[test]
fn sent_head_reads_back_through_tls() {
    let (request, f) = sent_tls(b"GET /x HTTP/1.1\r\nHost: h\r\nProxy-B: 2\r\nC: d\r\n\r\n");
    let (again, g) = sent_tls(f.head.as_bytes());
    assert_eq!(again.method, request.method);
    assert_eq!(again.url, "https://h/x");
    assert_eq!(again.version, request.version);
    assert_eq!(g.head, f.head);
    // White space from the header reaches the path of the request line.
    let (_, f) = sent_tls(b"GET /x HTTP/1.1\r\nHost: a/b c\r\n\r\n");
    assert_eq!(f.head, "GET /b c/x HTTP/1.1\r\nHost: a/b c\r\n\r\n");
}

#[test]
fn first_host_header_counts() {
    let (_, f) = sent_tls(b"GET /x HTTP/1.1\r\nA: b\r\nHost: one\r\nHost: two\r\n\r\n");
    assert_eq!(f.address, "one:443");
    let (_, f) = sent_tls(b"GET /x HTTP/1.1\r\nHost:\r\nHost: two\r\n\r\n");
    assert_eq!(f.address, "localhost:80");
    assert!(matches!(plan_tls(b"GET /x HTTP/1.1\r\n\r\nHost: late\r\n\r\n"), TlsPlan::NoTarget));
}

#[test]
fn other_urls_go_unchanged_through_tls() {
    let (request, f) = sent_tls(b"GET example.org:81/x HTTP/1.1\r\nHost: h\r\n\r\n");
    assert_eq!(request.url, "example.org:81/x");
    assert_eq!(f.address, "example.org:81");
    let (request, f) = sent_tls(b"GET http://example.org/x HTTP/1.1\r\n\r\n");
    assert_eq!(request.url, "http://example.org/x");
    assert_eq!(f.address, "example.org:80");
}

#[test]
fn requests_without_target_are_refused() {
    for data in [
        "GET /x HTTP/1.1\r\n\r\n",
        "GET https://127.0.0.1/x HTTP/1.1\r\nA: b\r\n\r\n",
        "CONNECT 127.0.0.1:443 HTTP/1.1\r\n\r\n",
    ] {
        let plan = plan_tls(data.as_bytes());
        assert!(matches!(plan, TlsPlan::NoTarget), "{}", data);
        assert_eq!(plan.answer(), Some(BAD_REQUEST));
    }
}

#[test]
fn own_address_counts_as_host_only() {
    for (url, address) in [
        ("http://example.com/?ip=127.0.0.1", "example.com:80"),
        ("https://example.com/127.0.0.1", "example.com:443"),
        ("http://127.0.0.1.example.com/", "127.0.0.1.example.com:80"),
        ("http://1127.0.0.1:81/", "1127.0.0.1:81"),
        ("http://example.com#127.0.0.1", "example.com#127.0.0.1:80"),
        ("http://example.com?u=@127.0.0.1", "example.com?u=@127.0.0.1:80"),
        ("http://127.0.0.1@example.com/", "127.0.0.1@example.com:80"),
    ] {
        let data = format!("GET {} HTTP/1.1\r\n\r\n", url);
        let (request, f) = sent_tls(data.as_bytes());
        assert_eq!(request.url, url);
        assert_eq!(f.address, address);
    }
    for url in [
        "http://127.0.0.1",
        "https://127.0.0.1:8080/x",
        "127.0.0.1/x",
        "http://[127.0.0.1]/",
        "http://127.0.0.1:99999/x",
        "http://127.0.0.1:/x",
        "http://u@127.0.0.1/",
        "http://u:p@127.0.0.1:80/",
        "http://u@[127.0.0.1]:80/",
        "http://127.0.0.1?x",
        "http://127.0.0.1#x",
        "http://127.0.0.1?u=@example.com",
        "HTTP://127.0.0.1/",
        "ftp://127.0.0.1/x",
    ] {
        let data = format!("GET {} HTTP/1.1\r\n\r\n", url);
        assert!(matches!(plan_tls(data.as_bytes()), TlsPlan::NoTarget), "{}", url);
    }
}

#[test]
fn tunnels_inside_tls_are_not_served() {
    let plan = plan_tls(b"CONNECT example.com:443 HTTP/1.1\r\nHost: example.com:443\r\n\r\n");
    assert!(matches!(plan, TlsPlan::Connect(_)));
    assert_eq!(plan.answer(), None);
}
