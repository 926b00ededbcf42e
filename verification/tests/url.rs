use simple_proxy::number::{decimal_chars, parse_port};
use simple_proxy::text::{char_is_white, split_lines, split_words, to_chars, trimmed};
use simple_proxy::url::{parse_url, socket_address};

fn parts(url: &str) -> (String, u16, String) {
    parse_url(url)
}

fn expect(url: &str, host: &str, port: u16, path: &str) {
    assert_eq!(parts(url), (host.to_string(), port, path.to_string()), "{}", url);
}

#[test]
fn url_with_scheme_and_default_port() {
    expect("http://example.com/index.html", "example.com", 80, "/index.html");
    expect("https://example.com/index.html", "example.com", 443, "/index.html");
    expect("http://example.com", "example.com", 80, "/");
    expect("https://example.com", "example.com", 443, "/");
}

#[test]
fn url_with_port() {
    expect("http://example.com:8080/a/b?c=d", "example.com", 8080, "/a/b?c=d");
    expect("https://example.com:8443", "example.com", 8443, "/");
    expect("example.com:81/x", "example.com", 81, "/x");
    expect("http://h:0/", "h", 0, "/");
    expect("http://h:+80/", "h", 80, "/");
    expect("http://h:00080/", "h", 80, "/");
    expect("http://h:65535/", "h", 65535, "/");
}

#[test]
fn url_with_what_is_no_port() {
    expect("http://h:65536/", "h:65536", 80, "/");
    expect("http://h:/", "h:", 80, "/");
    expect("http://h:+/", "h:+", 80, "/");
    expect("http://h:x/", "h:x", 80, "/");
    expect("https://h:-1/", "h:-1", 443, "/");
}

#[test]
fn url_with_ipv6_address() {
    expect("http://[::1]:8080/x", "::1", 8080, "/x");
    expect("http://[::1]/x", "::1", 80, "/x");
    expect("https://[2001:db8::1]", "2001:db8::1", 443, "/");
    expect("http://[::1", "[:", 1, "/");
    expect("http://[]/", "localhost", 80, "/");
    expect("http://[]:9/", "localhost", 9, "/");
}

#[test]
fn url_without_host() {
    expect("/index.html", "localhost", 80, "/index.html");
    expect("https:///x", "localhost", 80, "/x");
    expect("http://:8080/x", "localhost", 8080, "/x");
    expect("", "localhost", 80, "/");
    expect("http://", "localhost", 80, "/");
}

#[test]
fn url_beyond_ascii() {
    expect("http://b\u{fc}cher.example:7/\u{e4}", "b\u{fc}cher.example", 7, "/\u{e4}");
    expect("HTTP://h/x", "HTTP:", 80, "//h/x");
}

#[test]
fn url_parts_are_never_empty() {
    for url in ["", ":", "[]", "http://:", "//", "https://[]:1"] {
        let (host, _, path) = parts(url);
        assert!(!host.is_empty());
        assert!(!host.contains('/'));
        assert!(path.starts_with('/'));
    }
}

#[test]
fn missing_scheme_is_the_plain_one() {
    assert_eq!(parts("h:81/x"), parts("http://h:81/x"));
    assert_eq!(parts("h"), parts("http://h"));
}

#[test]
fn missing_path_is_the_root() {
    assert_eq!(parts("http://h:81"), parts("http://h:81/"));
    assert_eq!(parts("https://h"), parts("https://h/"));
}

#[test]
fn ports_read_back() {
    for n in [0u16, 7, 10, 80, 443, 8080, 65535] {
        let d = decimal_chars(n);
        let s: String = d.iter().collect();
        assert_eq!(s, n.to_string());
        assert_eq!(parse_port(&d), Some(n));
    }
}

#[test]
fn ports_read_as_the_standard_library_reads_them() {
    for s in [
        "", "+", "-", "0", "+0", "++1", "-0", "65535", "65536", "000000065535", "99999999999999", "1 ",
        " 1", "1_0", "0x1", "\u{664}",
    ] {
        assert_eq!(parse_port(&to_chars(s)), s.parse::<u16>().ok(), "{:?}", s);
    }
}

#[test]
fn addresses_join_host_and_port() {
    assert_eq!(socket_address("example.com", 443), "example.com:443");
    assert_eq!(socket_address("::1", 80), "::1:80");
}

#[test]
fn white_space_is_that_of_the_standard_library() {
    for u in 0..=0x10ffffu32 {
        if let Some(c) = char::from_u32(u) {
            assert_eq!(char_is_white(c), c.is_whitespace(), "{:x}", u);
        }
    }
}

#[test]
fn text_splits_as_in_the_standard_library() {
    for s in [
        "", "a", "a b", "  a\tb \u{a0}c\u{3000}", "\n", "a\nb", "a\r\nb\r\n", "\r\n\r\n", "a\r", "a\r\r\nb",
        "\ra\n\n", "x\u{2028}y", " \u{200b} ",
    ] {
        let chars = to_chars(s);
        let lines: Vec<String> = split_lines(&chars).iter().map(|l| l.iter().collect()).collect();
        let expected: Vec<String> = s.lines().map(|l| l.to_string()).collect();
        assert_eq!(lines, expected, "{:?}", s);
        let words: Vec<String> = split_words(&chars).iter().map(|l| l.iter().collect()).collect();
        let expected: Vec<String> = s.split_whitespace().map(|l| l.to_string()).collect();
        assert_eq!(words, expected, "{:?}", s);
        let trim: String = trimmed(&chars).iter().collect();
        assert_eq!(trim, s.trim(), "{:?}", s);
    }
}
