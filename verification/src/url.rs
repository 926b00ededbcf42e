//! Request URLs, and the host, port and path that they name.

use crate::number::{
    decimal, decimal_chars, is_digit, law_port_holds_digits_alone, law_port_reads_back,
    parse_port, port_number, unsigned_part,
};
use crate::text::{
    ends_in, find_char, find_last_char, from_index, has_prefix, is_text, push_all, starts_with,
    to_chars, to_text,
};
use vstd::prelude::*;
use vstd::slice::{slice_subrange, slice_to_vec};

verus! {

/// `url` names the plain scheme.
pub open spec fn is_http(url: Seq<char>) -> bool {
    starts_with(url, "http://"@)
}

/// `url` names the secure scheme.
pub open spec fn is_https(url: Seq<char>) -> bool {
    starts_with(url, "https://"@)
}

/// What follows the scheme of `url`: all of it where it names none.
pub open spec fn after_scheme(url: Seq<char>) -> Seq<char> {
    if is_http(url) {
        url.subrange("http://"@.len() as int, url.len() as int)
    } else if is_https(url) {
        url.subrange("https://"@.len() as int, url.len() as int)
    } else {
        url
    }
}

/// The port that stands in for one that `url` does not name.
pub open spec fn default_port(url: Seq<char>) -> u16 {
    if is_https(url) {
        443
    } else {
        80
    }
}

/// The part of `rest` before its first slash: host and port.
pub open spec fn authority_of(rest: Seq<char>) -> Seq<char> {
    match rest.index_of_first('/') {
        Some(i) => rest.subrange(0, i),
        None => rest,
    }
}

/// The part of `rest` from its first slash on: the path, `/` where there is none.
pub open spec fn path_of(rest: Seq<char>) -> Seq<char> {
    match rest.index_of_first('/') {
        Some(i) => rest.subrange(i, rest.len() as int),
        None => "/"@,
    }
}

/// The port behind the last colon of `authority`, if a port stands there. The colons
/// inside the brackets of an IPv6 address are not followed by one.
pub open spec fn named_port(authority: Seq<char>) -> Option<u16> {
    match authority.index_of_last(':') {
        Some(i) => if ends_in(authority, ']') {
            None
        } else {
            port_number(authority.subrange(i + 1, authority.len() as int))
        },
        None => None,
    }
}

/// The part of `authority` before the port, if it names one.
pub open spec fn named_host(authority: Seq<char>) -> Seq<char> {
    match named_port(authority) {
        Some(_) => authority.subrange(0, authority.index_of_last(':').unwrap()),
        None => authority,
    }
}

/// `host` without brackets around it.
pub open spec fn unbracketed(host: Seq<char>) -> Seq<char> {
    if host.len() > 0 && host[0] == '[' && host.last() == ']' {
        host.subrange(1, host.len() - 1)
    } else {
        host
    }
}

/// `host`, or `localhost` where it is empty.
pub open spec fn or_localhost(host: Seq<char>) -> Seq<char> {
    if host.len() == 0 {
        "localhost"@
    } else {
        host
    }
}

/// The host, the port and the path that `url` names. A URL without host and port is a bare
/// path on port 80 of the local host.
pub open spec fn url_parts(url: Seq<char>) -> (Seq<char>, u16, Seq<char>) {
    let rest = after_scheme(url);
    let authority = authority_of(rest);
    if authority.len() == 0 {
        ("localhost"@, 80, path_of(rest))
    } else {
        (
            or_localhost(unbracketed(named_host(authority))),
            match named_port(authority) {
                Some(port) => port,
                None => default_port(url),
            },
            path_of(rest),
        )
    }
}

/// The part of `s` before its first `c`.
pub open spec fn before_first(s: Seq<char>, c: char) -> Seq<char> {
    match s.index_of_first(c) {
        Some(i) => s.subrange(0, i),
        None => s,
    }
}

/// The part of `s` behind its last `c`.
pub open spec fn behind_last(s: Seq<char>, c: char) -> Seq<char> {
    match s.index_of_last(c) {
        Some(i) => s.subrange(i + 1, s.len() as int),
        None => s,
    }
}

/// What follows the scheme of `url`, be it known or not: all of it where it names none. A
/// query or a fragment is no scheme.
pub open spec fn after_any_scheme(url: Seq<char>) -> Seq<char> {
    match url.index_of_first('/') {
        Some(i) => if 0 < i < url.len() - 1 && url[i - 1] == ':' && url[i + 1] == '/'
            && !url.subrange(0, i).contains('?') && !url.subrange(0, i).contains('#') {
            url.subrange(i + 2, url.len() as int)
        } else {
            url
        },
        None => url,
    }
}

/// The domain in `authority`: what is left of it without query and fragment, without a user
/// before an at sign, without what follows a colon, be it a port or not, and without brackets.
pub open spec fn domain_of(authority: Seq<char>) -> Seq<char> {
    let address = before_first(before_first(authority, '?'), '#');
    unbracketed(before_first(behind_last(address, '@'), ':'))
}

/// The domain in `url` is 127.0.0.1, whether its scheme is known or not.
pub open spec fn is_own(url: Seq<char>) -> bool {
    ||| domain_of(authority_of(after_scheme(url))) == "127.0.0.1"@
    ||| domain_of(authority_of(after_any_scheme(url))) == "127.0.0.1"@
}

/// What follows the scheme of `url`.
pub fn strip_scheme(url: &[char]) -> (rest: &[char])
    ensures
        rest@ == after_scheme(url@),
{
    proof {
        reveal_strlit("http://");
        reveal_strlit("https://");
    }
    if has_prefix(url, "http://") {
        from_index(url, 7)
    } else if has_prefix(url, "https://") {
        from_index(url, 8)
    } else {
        url
    }
}

/// The host and port in `rest`.
pub fn authority_chars(rest: &[char]) -> (authority: &[char])
    ensures
        authority@ == authority_of(rest@),
{
    match find_char(rest, '/') {
        Some(i) => slice_subrange(rest, 0, i),
        None => rest,
    }
}

/// The part of `s` before its first `c`.
fn cut_before(s: &[char], c: char) -> (r: &[char])
    ensures
        r@ == before_first(s@, c),
{
    match find_char(s, c) {
        Some(i) => slice_subrange(s, 0, i),
        None => s,
    }
}

/// The part of `s` behind its last `c`.
fn cut_behind(s: &[char], c: char) -> (r: &[char])
    ensures
        r@ == behind_last(s@, c),
{
    match find_last_char(s, c) {
        Some(i) => from_index(s, i + 1),
        None => s,
    }
}

/// `host` without brackets around it.
fn strip_brackets(host: &[char]) -> (r: &[char])
    ensures
        r@ == unbracketed(host@),
{
    if host.len() > 0 && host[0] == '[' && host[host.len() - 1] == ']' {
        slice_subrange(host, 1, host.len() - 1)
    } else {
        host
    }
}

/// The domain in `authority`.
pub fn domain_chars(authority: &[char]) -> (domain: &[char])
    ensures
        domain@ == domain_of(authority@),
{
    let address = cut_before(cut_before(authority, '?'), '#');
    strip_brackets(cut_before(cut_behind(address, '@'), ':'))
}

/// What follows the scheme of `url`, be it known or not.
pub fn strip_any_scheme(url: &[char]) -> (rest: &[char])
    ensures
        rest@ == after_any_scheme(url@),
{
    if let Some(i) = find_char(url, '/') {
        proof {
            url@.index_of_first_ensures('/');
        }
        if 0 < i && i < url.len() - 1 && url[i - 1] == ':' && url[i + 1] == '/' {
            let scheme = slice_subrange(url, 0, i);
            let query = find_char(scheme, '?');
            let fragment = find_char(scheme, '#');
            proof {
                scheme@.index_of_first_ensures('?');
                scheme@.index_of_first_ensures('#');
            }
            if query.is_none() && fragment.is_none() {
                return from_index(url, i + 2);
            }
        }
    }
    url
}

/// Tells whether the domain in `url` is 127.0.0.1.
pub fn names_own(url: &[char]) -> (r: bool)
    ensures
        r == is_own(url@),
{
    is_text(domain_chars(authority_chars(strip_scheme(url))), "127.0.0.1") || is_text(
        domain_chars(authority_chars(strip_any_scheme(url))),
        "127.0.0.1",
    )
}

/// The path in `rest`.
pub fn path_chars(rest: &[char]) -> (path: Vec<char>)
    ensures
        path@ == path_of(rest@),
{
    match find_char(rest, '/') {
        Some(i) => slice_to_vec(from_index(rest, i)),
        None => to_chars("/"),
    }
}

/// The host, the port and the path that `url` names.
pub fn parse_url(url: &str) -> (parts: (String, u16, String))
    ensures
        (parts.0@, parts.1, parts.2@) == url_parts(url@),
{
    let url_chars = to_chars(url);
    let url = url_chars.as_slice();
    let rest = strip_scheme(url);
    let path = path_chars(rest);
    let authority = authority_chars(rest);
    if authority.len() == 0 {
        return ("localhost".to_string(), 80, to_text(path.as_slice()));
    }
    let mut host: &[char] = authority;
    let mut port: u16 = if has_prefix(url, "https://") {
        443
    } else {
        80
    };
    if let Some(i) = find_last_char(authority, ':') {
        if authority[authority.len() - 1] != ']' {
            if let Some(p) = parse_port(from_index(authority, i + 1)) {
                port = p;
                host = slice_subrange(authority, 0, i);
            }
        }
    }
    assert(host@ == named_host(authority@));
    let host = strip_brackets(host);
    let host = if host.len() == 0 {
        "localhost".to_string()
    } else {
        to_text(host)
    };
    (host, port, to_text(path.as_slice()))
}

/// `host` and `port` as a dialler takes them: with a colon between.
pub open spec fn address(host: Seq<char>, port: u16) -> Seq<char> {
    host + ":"@ + decimal(port as int)
}

/// The address of `port` at `host`.
pub fn socket_address(host: &str, port: u16) -> (a: String)
    ensures
        a@ == address(host@, port),
{
    let mut a: String = String::new();
    let h = to_chars(host);
    push_all(&mut a, h.as_slice());
    a.push(':');
    let d = decimal_chars(port);
    push_all(&mut a, d.as_slice());
    proof {
        reveal_strlit(":");
        assert(":"@ == seq![':']);
        assert(a@ == address(host@, port));
    }
    a
}

proof fn lemma_first_index(s: Seq<char>, c: char, i: int)
    requires
        0 <= i < s.len(),
        s[i] == c,
        forall|j: int| 0 <= j < i ==> s[j] != c,
    ensures
        s.index_of_first(c) == Some(i),
{
    s.index_of_first_ensures(c);
    assert(s.contains(c));
}

proof fn lemma_last_index(s: Seq<char>, c: char, i: int)
    requires
        0 <= i < s.len(),
        s[i] == c,
        forall|j: int| i < j < s.len() ==> s[j] != c,
    ensures
        s.index_of_last(c) == Some(i),
{
    s.index_of_last_ensures(c);
    assert(s.contains(c));
}

pub(crate) proof fn lemma_scheme(url: Seq<char>, rest: Seq<char>)
    ensures
        url == "http://"@ + rest ==> after_scheme(url) == rest && default_port(url) == 80,
        url == "https://"@ + rest ==> after_scheme(url) == rest && default_port(url) == 443,
{
    reveal_strlit("http://");
    reveal_strlit("https://");
    let plain = "http://"@ + rest;
    let secure = "https://"@ + rest;
    assert("http://"@[4] == ':' && plain[4] == "http://"@[4]);
    assert("https://"@[4] == 's' && secure[4] == "https://"@[4]);
    assert(is_http(plain)) by {
        assert("http://"@ =~= plain.subrange(0, 7));
    }
    assert(!is_https(plain)) by {
        if is_https(plain) {
            assert(plain.subrange(0, 8)[4] == plain[4]);
        }
    }
    assert(is_https(secure)) by {
        assert("https://"@ =~= secure.subrange(0, 8));
    }
    assert(!is_http(secure)) by {
        if is_http(secure) {
            assert(secure.subrange(0, 7)[4] == secure[4]);
        }
    }
    assert(plain.subrange(7, plain.len() as int) =~= rest);
    assert(secure.subrange(8, secure.len() as int) =~= rest);
}

pub(crate) proof fn lemma_split_at_path(authority: Seq<char>, path: Seq<char>)
    requires
        !authority.contains('/'),
        path.len() > 0,
        path[0] == '/',
    ensures
        authority_of(authority + path) == authority,
        path_of(authority + path) == path,
{
    let rest = authority + path;
    let n = authority.len() as int;
    assert forall|j: int| 0 <= j < n implies rest[j] != '/' by {
        assert(rest[j] == authority[j]);
    }
    lemma_first_index(rest, '/', n);
    assert(rest.subrange(0, n) =~= authority);
    assert(rest.subrange(n, rest.len() as int) =~= path);
}

/// A URL made of a scheme, a host, a port and a path names just these: whatever the host
/// is, as long as no slash is in it. Brackets around the host are taken off, and an empty
/// host stands for the local one.
pub proof fn law_url_with_port(host: Seq<char>, port: u16, path: Seq<char>)
    requires
        !host.contains('/'),
        path.len() > 0,
        path[0] == '/',
    ensures
        url_parts("http://"@ + (address(host, port) + path)) == (
            or_localhost(unbracketed(host)),
            port,
            path,
        ),
        url_parts("https://"@ + (address(host, port) + path)) == (
            or_localhost(unbracketed(host)),
            port,
            path,
        ),
{
    let d = decimal(port as int);
    let a = address(host, port);
    let n = host.len() as int;
    reveal_strlit(":");
    law_port_reads_back(port);
    assert(d.len() > 0);
    assert forall|j: int| n < j < a.len() implies a[j] != ':' && a[j] != '/' && a[j] != ']' by {
        assert(a[j] == d[j - n - 1]);
        assert(is_digit(d[j - n - 1]));
    }
    assert(a[n] == ':');
    assert(!a.contains('/')) by {
        if a.contains('/') {
            let k = choose|k: int| 0 <= k < a.len() && a[k] == '/';
            assert(k < n);
            assert(a[k] == host[k]);
        }
    }
    lemma_last_index(a, ':', n);
    assert(a.subrange(n + 1, a.len() as int) =~= d);
    assert(a.subrange(0, n) =~= host);
    assert(a.last() != ']');
    lemma_split_at_path(a, path);
    lemma_scheme("http://"@ + (a + path), a + path);
    lemma_scheme("https://"@ + (a + path), a + path);
}

/// A URL made of a scheme, a host without port and a path names the port of its scheme.
/// A host without port is one without colon, or an address in brackets.
pub proof fn law_url_without_port(host: Seq<char>, path: Seq<char>)
    requires
        host.len() > 0,
        !host.contains('/'),
        !host.contains(':') || ends_in(host, ']'),
        path.len() > 0,
        path[0] == '/',
    ensures
        url_parts("http://"@ + (host + path)) == (or_localhost(unbracketed(host)), 80u16, path),
        url_parts("https://"@ + (host + path)) == (or_localhost(unbracketed(host)), 443u16, path),
{
    host.index_of_last_ensures(':');
    lemma_split_at_path(host, path);
    lemma_scheme("http://"@ + (host + path), host + path);
    lemma_scheme("https://"@ + (host + path), host + path);
}

/// A URL that is a bare path names that path on port 80 of the local host.
pub proof fn law_bare_path(path: Seq<char>)
    requires
        path.len() > 0,
        path[0] == '/',
    ensures
        url_parts(path) == ("localhost"@, 80u16, path),
{
    reveal_strlit("http://");
    reveal_strlit("https://");
    assert("http://"@[0] == 'h' && "https://"@[0] == 'h');
    if is_http(path) {
        assert(path.subrange(0, 7)[0] == path[0]);
    }
    if is_https(path) {
        assert(path.subrange(0, 8)[0] == path[0]);
    }
    let none = Seq::<char>::empty();
    assert(none + path =~= path);
    lemma_split_at_path(none, path);
}

/// A URL without a slash behind its scheme names the path `/`, and otherwise what it names
/// with that slash at its end.
pub proof fn law_missing_path(authority: Seq<char>)
    requires
        !authority.contains('/'),
    ensures
        url_parts("http://"@ + authority) == url_parts("http://"@ + (authority + "/"@)),
        url_parts("https://"@ + authority) == url_parts("https://"@ + (authority + "/"@)),
        url_parts("http://"@ + authority).2 == "/"@,
{
    reveal_strlit("/");
    authority.index_of_first_ensures('/');
    lemma_split_at_path(authority, "/"@);
    lemma_scheme("http://"@ + authority, authority);
    lemma_scheme("https://"@ + authority, authority);
    lemma_scheme("http://"@ + (authority + "/"@), authority + "/"@);
    lemma_scheme("https://"@ + (authority + "/"@), authority + "/"@);
}

/// A URL without scheme names what it names behind the plain scheme.
pub proof fn law_missing_scheme(url: Seq<char>)
    requires
        !is_http(url),
        !is_https(url),
    ensures
        url_parts(url) == url_parts("http://"@ + url),
{
    lemma_scheme("http://"@ + url, url);
}

/// Every URL names a host that is not empty and holds no slash, and a path that begins with
/// one.
pub proof fn law_url_is_complete(url: Seq<char>)
    ensures
        url_parts(url).0.len() > 0,
        !url_parts(url).0.contains('/'),
        url_parts(url).2.len() > 0,
        url_parts(url).2[0] == '/',
{
    reveal_strlit("localhost");
    reveal_strlit("/");
    let rest = after_scheme(url);
    let authority = authority_of(rest);
    rest.index_of_first_ensures('/');
    authority.index_of_last_ensures(':');
    let host = url_parts(url).0;
    assert forall|i: int| 0 <= i < host.len() implies host[i] != '/' by {
        if host != "localhost"@ {
            let named = named_host(authority);
            let k = if unbracketed(named) == named {
                i
            } else {
                i + 1
            };
            assert(host[i] == authority[k]);
            assert(authority[k] == rest[k]);
        }
    }
}

proof fn lemma_nothing_to_cut(s: Seq<char>, c: char)
    requires
        forall|i: int| 0 <= i < s.len() ==> s[i] != c,
    ensures
        before_first(s, c) == s,
        behind_last(s, c) == s,
{
    s.index_of_first_ensures(c);
    s.index_of_last_ensures(c);
}

/// A URL that leads to the host 127.0.0.1 has that domain, whatever port it names.
pub proof fn law_own_host_is_own_domain(url: Seq<char>)
    requires
        url_parts(url).0 == "127.0.0.1"@,
    ensures
        is_own(url),
{
    reveal_strlit("127.0.0.1");
    reveal_strlit("localhost");
    let own = "127.0.0.1"@;
    assert(own[0] == '1' && "localhost"@[0] == 'l');
    let a = authority_of(after_scheme(url));
    let h = named_host(a);
    assert(unbracketed(h) == own);
    a.index_of_last_ensures(':');
    assert forall|i: int| 0 <= i < h.len() implies h[i] != '?' && h[i] != '#' && h[i] != '@'
        && h[i] != ':' by {
        if h == own {
            assert(own[i] == h[i]);
        } else if 0 < i < h.len() - 1 {
            assert(h[i] == own[i - 1]);
        }
    }
    assert forall|i: int| 0 <= i < a.len() implies a[i] != '?' && a[i] != '#' && a[i] != '@' by {
        if i < h.len() {
            assert(a[i] == h[i]);
        } else if i > h.len() {
            let p = a.subrange(h.len() as int + 1, a.len() as int);
            let d = unsigned_part(p);
            assert(port_number(p) is Some);
            if p[0] == '+' {
                if i > h.len() + 1 {
                    assert(a[i] == d[i - h.len() - 2]);
                    assert(is_digit(d[i - h.len() - 2]));
                }
            } else {
                assert(a[i] == d[i - h.len() - 1]);
                assert(is_digit(d[i - h.len() - 1]));
            }
        }
    }
    lemma_nothing_to_cut(a, '?');
    lemma_nothing_to_cut(a, '#');
    lemma_nothing_to_cut(a, '@');
    if a == h {
        lemma_nothing_to_cut(a, ':');
    } else {
        assert forall|j: int| 0 <= j < h.len() implies a[j] != ':' by {
            assert(a[j] == h[j]);
        }
        lemma_first_index(a, ':', h.len() as int);
    }
    assert(before_first(a, ':') == h);
}

proof fn lemma_authority(authority: Seq<char>, path: Seq<char>)
    requires
        authority.len() > 0,
        !authority.contains('/'),
        path.len() > 0,
        path[0] == '/',
    ensures
        url_parts("http://"@ + (authority + path)) == (
            or_localhost(unbracketed(named_host(authority))),
            match named_port(authority) {
                Some(port) => port,
                None => 80u16,
            },
            path,
        ),
        url_parts("https://"@ + (authority + path)) == (
            or_localhost(unbracketed(named_host(authority))),
            match named_port(authority) {
                Some(port) => port,
                None => 443u16,
            },
            path,
        ),
{
    lemma_split_at_path(authority, path);
    lemma_scheme("http://"@ + (authority + path), authority + path);
    lemma_scheme("https://"@ + (authority + path), authority + path);
}

proof fn lemma_host_and_port(host: Seq<char>, port: Seq<char>)
    requires
        !host.contains('/'),
        port_number(port) is Some,
    ensures
        named_port(host + ":"@ + port) == port_number(port),
        named_host(host + ":"@ + port) == host,
        !(host + ":"@ + port).contains('/'),
        (host + ":"@ + port).len() > 0,
{
    reveal_strlit(":");
    let a = host + ":"@ + port;
    let n = host.len() as int;
    law_port_holds_digits_alone(port);
    assert forall|j: int| n < j < a.len() implies a[j] != ':' && a[j] != '/' && a[j] != ']' by {
        assert(a[j] == port[j - n - 1]);
    }
    assert(a[n] == ':');
    if a.contains('/') {
        let k = choose|k: int| 0 <= k < a.len() && a[k] == '/';
        assert(a[k] == host[k]);
    }
    lemma_last_index(a, ':', n);
    assert(a.subrange(n + 1, a.len() as int) =~= port);
    assert(a.subrange(0, n) =~= host);
    assert(a.last() != ']');
}

/// A URL names as its host just what stands between its scheme and the colon before its port,
/// as its port just the number behind that colon, and as its path the rest: for every host that
/// is not in brackets, whatever it begins with.
pub proof fn law_url_names_host_port_and_path(
    host: Seq<char>,
    port: Seq<char>,
    path: Seq<char>,
)
    requires
        host.len() > 0,
        !host.contains('/'),
        host[0] != '[' || host.last() != ']',
        port_number(port) is Some,
        path.len() > 0,
        path[0] == '/',
    ensures
        url_parts("http://"@ + (host + ":"@ + port + path)) == (
            host,
            port_number(port).unwrap(),
            path,
        ),
        url_parts("https://"@ + (host + ":"@ + port + path)) == (
            host,
            port_number(port).unwrap(),
            path,
        ),
{
    lemma_host_and_port(host, port);
    lemma_authority(host + ":"@ + port, path);
}

/// A URL without port names as its host all that stands between its scheme and its path, and
/// the port of its scheme: for every host that holds no colon, and for one that ends in a
/// bracket without beginning in one.
pub proof fn law_url_names_host_and_path(host: Seq<char>, path: Seq<char>)
    requires
        host.len() > 0,
        !host.contains('/'),
        !host.contains(':') || host.last() == ']',
        host[0] != '[' || host.last() != ']',
        path.len() > 0,
        path[0] == '/',
    ensures
        url_parts("http://"@ + (host + path)) == (host, 80u16, path),
        url_parts("https://"@ + (host + path)) == (host, 443u16, path),
{
    host.index_of_last_ensures(':');
    lemma_authority(host, path);
}

/// Brackets around a host are not part of it, with a port behind them or without.
pub proof fn law_url_names_host_in_brackets(host: Seq<char>, port: Seq<char>, path: Seq<char>)
    requires
        host.len() > 0,
        !host.contains('/'),
        port_number(port) is Some,
        path.len() > 0,
        path[0] == '/',
    ensures
        url_parts("http://"@ + ("["@ + host + "]"@ + path)) == (host, 80u16, path),
        url_parts("https://"@ + ("["@ + host + "]"@ + path)) == (host, 443u16, path),
        url_parts("http://"@ + ("["@ + host + "]:"@ + port + path)) == (
            host,
            port_number(port).unwrap(),
            path,
        ),
        url_parts("https://"@ + ("["@ + host + "]:"@ + port + path)) == (
            host,
            port_number(port).unwrap(),
            path,
        ),
{
    lemma_brackets(host);
    let boxed = "["@ + host + "]"@;
    reveal_strlit("]");
    reveal_strlit(":");
    reveal_strlit("]:");
    assert(boxed + ":"@ =~= "["@ + host + "]:"@);
    boxed.index_of_last_ensures(':');
    lemma_authority(boxed, path);
    lemma_host_and_port(boxed, port);
    lemma_authority(boxed + ":"@ + port, path);
}

proof fn lemma_brackets(host: Seq<char>)
    requires
        !host.contains('/'),
    ensures
        unbracketed("["@ + host + "]"@) == host,
        ends_in("["@ + host + "]"@, ']'),
        !("["@ + host + "]"@).contains('/'),
{
    reveal_strlit("[");
    reveal_strlit("]");
    let boxed = "["@ + host + "]"@;
    assert(boxed.subrange(1, boxed.len() - 1) =~= host);
    if boxed.contains('/') {
        let k = choose|k: int| 0 <= k < boxed.len() && boxed[k] == '/';
        assert(0 < k < boxed.len() - 1);
        assert(boxed[k] == host[k - 1]);
    }
}

/// What stands behind the last colon and is no port number is a part of the host.
pub proof fn law_url_with_bad_port(host: Seq<char>, port: Seq<char>, path: Seq<char>)
    requires
        !host.contains('/'),
        !port.contains('/'),
        !port.contains(':'),
        port.len() == 0 || port.last() != ']',
        port_number(port) is None,
        path.len() > 0,
        path[0] == '/',
    ensures
        url_parts("http://"@ + (host + ":"@ + port + path)) == (host + ":"@ + port, 80u16, path),
        url_parts("https://"@ + (host + ":"@ + port + path)) == (host + ":"@ + port, 443u16, path),
{
    reveal_strlit(":");
    let a = host + ":"@ + port;
    let n = host.len() as int;
    assert(a[n] == ':');
    assert forall|j: int| n < j < a.len() implies a[j] != ':' by {
        assert(a[j] == port[j - n - 1]);
    }
    lemma_last_index(a, ':', n);
    assert(a.subrange(n + 1, a.len() as int) =~= port);
    if a.contains('/') {
        let k = choose|k: int| 0 <= k < a.len() && a[k] == '/';
        if k < n {
            assert(a[k] == host[k]);
        } else {
            assert(a[k] == port[k - n - 1]);
        }
    }
    assert(a.last() != ']');
    lemma_authority(a, path);
}

/// An empty host stands for the local one: on port 80 where nothing stands before the path,
/// and else on the port that is named, or on that of the scheme.
pub proof fn law_url_without_host(port: Seq<char>, path: Seq<char>)
    requires
        port_number(port) is Some,
        path.len() > 0,
        path[0] == '/',
    ensures
        url_parts("http://"@ + path) == ("localhost"@, 80u16, path),
        url_parts("https://"@ + path) == ("localhost"@, 80u16, path),
        url_parts("http://"@ + (":"@ + port + path)) == (
            "localhost"@,
            port_number(port).unwrap(),
            path,
        ),
        url_parts("https://"@ + (":"@ + port + path)) == (
            "localhost"@,
            port_number(port).unwrap(),
            path,
        ),
        url_parts("http://"@ + ("[]"@ + path)) == ("localhost"@, 80u16, path),
        url_parts("https://"@ + ("[]"@ + path)) == ("localhost"@, 443u16, path),
        url_parts("http://"@ + ("[]:"@ + port + path)) == (
            "localhost"@,
            port_number(port).unwrap(),
            path,
        ),
        url_parts("https://"@ + ("[]:"@ + port + path)) == (
            "localhost"@,
            port_number(port).unwrap(),
            path,
        ),
{
    reveal_strlit(":");
    reveal_strlit("[");
    reveal_strlit("]");
    reveal_strlit("[]");
    reveal_strlit("[]:");
    let none = Seq::<char>::empty();
    assert(none + path =~= path);
    lemma_split_at_path(none, path);
    lemma_scheme("http://"@ + path, path);
    lemma_scheme("https://"@ + path, path);
    lemma_host_and_port(none, port);
    assert(none + ":"@ + port =~= ":"@ + port);
    lemma_authority(":"@ + port, path);
    lemma_brackets(none);
    let boxed = "["@ + none + "]"@;
    assert(boxed =~= "[]"@);
    assert(boxed + ":"@ =~= "[]:"@);
    boxed.index_of_last_ensures(':');
    assert(unbracketed(boxed).len() == 0);
    lemma_authority(boxed, path);
    lemma_host_and_port(boxed, port);
    lemma_authority(boxed + ":"@ + port, path);
}

/// A URL that begins with neither scheme, letter for letter, names what it names behind the
/// plain one.
pub proof fn law_url_without_scheme(url: Seq<char>)
    requires
        !"http://"@.is_prefix_of(url),
        !"https://"@.is_prefix_of(url),
    ensures
        url_parts(url) == url_parts("http://"@ + url),
{
    law_missing_scheme(url);
}

/// An address is the host, a colon and the port in decimal.
pub proof fn law_address(host: Seq<char>, port: u16)
    ensures
        address(host, port) == host + seq![':'] + decimal(port as int),
{
    reveal_strlit(":");
    assert(":"@ =~= seq![':']);
}

/// `s` holds none of the characters that end an authority.
pub open spec fn holds_no_mark(s: Seq<char>) -> bool {
    !s.contains('/') && !s.contains('?') && !s.contains('#')
}

/// `url` is `scheme`, `user`, the address 127.0.0.1, perhaps in brackets, `port` and `more`.
/// Each of the others may be empty. A scheme ends in a colon and two slashes, a user in an at
/// sign; a port begins with a colon, and the rest with a slash, a question mark or a hash.
pub open spec fn is_own_url(
    url: Seq<char>,
    scheme: Seq<char>,
    user: Seq<char>,
    port: Seq<char>,
    more: Seq<char>,
) -> bool {
    &&& url == scheme + (user + "127.0.0.1"@ + port + more) || url == scheme + (user
        + "[127.0.0.1]"@ + port + more)
    &&& scheme.len() == 0 || (exists|name: Seq<char>|
        holds_no_mark(name) && scheme == #[trigger] (name + "://"@))
    &&& user.len() == 0 || user.last() == '@'
    &&& holds_no_mark(user)
    &&& port.len() == 0 || port[0] == ':'
    &&& holds_no_mark(port) && !port.contains('@')
    &&& more.len() == 0 || more[0] == '/' || more[0] == '?' || more[0] == '#'
}

proof fn lemma_before_first(s: Seq<char>, c: char, rest: Seq<char>)
    requires
        !s.contains(c),
        rest.len() == 0 || rest[0] == c,
    ensures
        before_first(s + rest, c) == s,
{
    let all = s + rest;
    let n = s.len() as int;
    assert forall|j: int| 0 <= j < n implies all[j] != c by {
        assert(all[j] == s[j]);
    }
    if rest.len() == 0 {
        lemma_nothing_to_cut(all, c);
        assert(all =~= s);
    } else {
        lemma_first_index(all, c, n);
        assert(all.subrange(0, n) =~= s);
    }
}

proof fn lemma_behind_last(user: Seq<char>, rest: Seq<char>, c: char)
    requires
        user.len() == 0 || user.last() == c,
        !rest.contains(c),
    ensures
        behind_last(user + rest, c) == rest,
{
    let all = user + rest;
    let n = user.len() as int;
    assert forall|j: int| n <= j < all.len() implies all[j] != c by {
        assert(all[j] == rest[j - n]);
    }
    if n == 0 {
        lemma_nothing_to_cut(all, c);
        assert(all =~= rest);
    } else {
        assert(all[n - 1] == user[n - 1]);
        lemma_last_index(all, c, n - 1);
        assert(all.subrange(n, all.len() as int) =~= rest);
    }
}

proof fn lemma_sum_holds(a: Seq<char>, b: Seq<char>, c: char)
    requires
        !a.contains(c),
        !b.contains(c),
    ensures
        !(a + b).contains(c),
{
    let s = a + b;
    if s.contains(c) {
        let k = choose|k: int| 0 <= k < s.len() && s[k] == c;
        if k < a.len() {
            assert(s[k] == a[k]);
        } else {
            assert(s[k] == b[k - a.len()]);
        }
    }
}

proof fn lemma_own_core(core: Seq<char>)
    requires
        core == "127.0.0.1"@ || core == "[127.0.0.1]"@,
    ensures
        unbracketed(core) == "127.0.0.1"@,
        holds_no_mark(core),
        !core.contains('@'),
        !core.contains(':'),
        core.len() >= 9,
{
    reveal_strlit("127.0.0.1");
    reveal_strlit("[127.0.0.1]");
    assert("[127.0.0.1]"@.subrange(1, 10) =~= "127.0.0.1"@);
    assert("127.0.0.1"@[0] == '1');
}

proof fn lemma_own_domain(user: Seq<char>, core: Seq<char>, port: Seq<char>, more: Seq<char>)
    requires
        core == "127.0.0.1"@ || core == "[127.0.0.1]"@,
        user.len() == 0 || user.last() == '@',
        holds_no_mark(user),
        port.len() == 0 || port[0] == ':',
        holds_no_mark(port) && !port.contains('@'),
        more.len() == 0 || more[0] == '/' || more[0] == '?' || more[0] == '#',
    ensures
        domain_of(authority_of(user + core + port + more)) == "127.0.0.1"@,
{
    lemma_own_core(core);
    let plain = user + core + port;
    lemma_sum_holds(user, core, '/');
    lemma_sum_holds(user + core, port, '/');
    lemma_sum_holds(user, core, '?');
    lemma_sum_holds(user + core, port, '?');
    lemma_sum_holds(user, core, '#');
    lemma_sum_holds(user + core, port, '#');
    // The authority, and what the query and the fragment leave of it.
    let rest = plain + more;
    let m = lemma_authority_before(plain, more);
    lemma_marks_cut(plain, m);
    lemma_sum_holds(core, port, '@');
    assert(plain =~= user + (core + port));
    lemma_behind_last(user, core + port, '@');
    lemma_before_first(core, ':', port);
}

proof fn lemma_authority_before(plain: Seq<char>, more: Seq<char>) -> (m: Seq<char>)
    requires
        !plain.contains('/'),
        more.len() == 0 || more[0] == '/' || more[0] == '?' || more[0] == '#',
    ensures
        authority_of(plain + more) == plain + m,
        m.len() == 0 || m[0] == '?' || m[0] == '#',
{
    let m = before_first(more, '/');
    let rest = plain + more;
    let n = plain.len() as int;
    more.index_of_first_ensures('/');
    rest.index_of_first_ensures('/');
    assert forall|j: int| 0 <= j < n implies rest[j] != '/' by {
        assert(rest[j] == plain[j]);
    }
    match more.index_of_first('/') {
        Some(i) => {
            assert forall|j: int| 0 <= j < n + i implies rest[j] != '/' by {
                if j >= n {
                    assert(rest[j] == more[j - n]);
                }
            }
            assert(rest[n + i] == more[i]);
            lemma_first_index(rest, '/', n + i);
            assert(rest.subrange(0, n + i) =~= plain + m);
        },
        None => {
            if rest.contains('/') {
                let k = choose|k: int| 0 <= k < rest.len() && rest[k] == '/';
                assert(rest[k] == more[k - n]);
            }
        },
    }
    m
}

proof fn lemma_marks_cut(plain: Seq<char>, m: Seq<char>)
    requires
        !plain.contains('?'),
        !plain.contains('#'),
        m.len() == 0 || m[0] == '?' || m[0] == '#',
    ensures
        before_first(before_first(plain + m, '?'), '#') == plain,
{
    let all = plain + m;
    let n = plain.len() as int;
    if m.len() == 0 || m[0] == '?' {
        lemma_before_first(plain, '?', m);
        let none = Seq::<char>::empty();
        lemma_before_first(plain, '#', none);
        assert(plain + none =~= plain);
    } else {
        let cut = before_first(all, '?');
        all.index_of_first_ensures('?');
        let k = cut.len() as int;
        assert(k > n) by {
            if all.contains('?') {
                let i = all.index_of_first('?').unwrap();
                if i < n {
                    assert(all[i] == plain[i]);
                } else if i == n {
                    assert(all[i] == m[0]);
                }
            }
        }
        assert(cut =~= plain + m.subrange(0, k - n));
        lemma_before_first(plain, '#', m.subrange(0, k - n));
    }
}

proof fn lemma_cut_before(s: Seq<char>, c: char) -> (rest: Seq<char>)
    ensures
        s == before_first(s, c) + rest,
        !before_first(s, c).contains(c),
        rest.len() == 0 || rest[0] == c,
{
    s.index_of_first_ensures(c);
    match s.index_of_first(c) {
        Some(i) => {
            let rest = s.subrange(i, s.len() as int);
            assert(s =~= s.subrange(0, i) + rest);
            rest
        },
        None => {
            assert(s =~= s + Seq::<char>::empty());
            Seq::empty()
        },
    }
}

proof fn lemma_part_holds(a: Seq<char>, b: Seq<char>, c: char)
    requires
        !(a + b).contains(c),
    ensures
        !a.contains(c),
        !b.contains(c),
{
    let s = a + b;
    if a.contains(c) {
        let k = choose|k: int| 0 <= k < a.len() && a[k] == c;
        assert(s[k] == c);
    }
    if b.contains(c) {
        let k = choose|k: int| 0 <= k < b.len() && b[k] == c;
        assert(s[a.len() + k] == c);
    }
}

proof fn lemma_own_in_brackets(e: Seq<char>)
    requires
        unbracketed(e) == "127.0.0.1"@,
    ensures
        e == "127.0.0.1"@ || e == "[127.0.0.1]"@,
{
    reveal_strlit("127.0.0.1");
    reveal_strlit("[127.0.0.1]");
    let own = "127.0.0.1"@;
    if e != own {
        assert(e.subrange(1, e.len() - 1) == own);
        assert(e.len() >= 2);
        assert(e.len() == 11);
        assert forall|i: int| 0 < i < 10 implies e[i] == own[i - 1] by {
            assert(e.subrange(1, 10)[i - 1] == e[i]);
        }
        assert(e =~= "[127.0.0.1]"@);
    }
}

proof fn lemma_own_parts(rest: Seq<char>, scheme: Seq<char>)
    requires
        domain_of(authority_of(rest)) == "127.0.0.1"@,
        scheme.len() == 0 || (exists|name: Seq<char>|
            holds_no_mark(name) && scheme == #[trigger] (name + "://"@)),
    ensures
        exists|user: Seq<char>, port: Seq<char>, more: Seq<char>|
            is_own_url(scheme + rest, scheme, user, port, more),
{
    let a = authority_of(rest);
    let r1 = lemma_cut_before(rest, '/');
    assert(a == before_first(rest, '/'));
    let b = before_first(a, '?');
    let r2 = lemma_cut_before(a, '?');
    let c = before_first(b, '#');
    let r3 = lemma_cut_before(b, '#');
    lemma_part_holds(b, r2, '/');
    lemma_part_holds(c, r3, '/');
    lemma_part_holds(c, r3, '?');
    let d = behind_last(c, '@');
    c.index_of_last_ensures('@');
    let user = c.subrange(0, c.len() - d.len());
    assert(c =~= user + d);
    lemma_part_holds(user, d, '/');
    lemma_part_holds(user, d, '?');
    lemma_part_holds(user, d, '#');
    assert(!d.contains('@')) by {
        if d.contains('@') {
            let k = choose|k: int| 0 <= k < d.len() && d[k] == '@';
            assert(c[c.len() - d.len() + k] == '@');
        }
    }
    let e = before_first(d, ':');
    let port = lemma_cut_before(d, ':');
    lemma_part_holds(e, port, '/');
    lemma_part_holds(e, port, '?');
    lemma_part_holds(e, port, '#');
    lemma_part_holds(e, port, '@');
    lemma_own_in_brackets(e);
    let more = r3 + r2 + r1;
    assert(rest =~= user + e + port + more);
    assert(is_own_url(scheme + rest, scheme, user, port, more));
}

proof fn lemma_own_url_is_own(
    url: Seq<char>,
    scheme: Seq<char>,
    user: Seq<char>,
    port: Seq<char>,
    more: Seq<char>,
)
    requires
        is_own_url(url, scheme, user, port, more),
    ensures
        is_own(url),
{
    let core = if url == scheme + (user + "127.0.0.1"@ + port + more) {
        "127.0.0.1"@
    } else {
        "[127.0.0.1]"@
    };
    let rest = user + core + port + more;
    assert(url == scheme + rest);
    lemma_own_domain(user, core, port, more);
    if scheme.len() == 0 {
        assert(url =~= rest);
        let lead = user + core;
        lemma_own_core(core);
        lemma_sum_holds(user, core, '/');
        lemma_no_scheme(url, lead);
    } else {
        let name = choose|name: Seq<char>|
            holds_no_mark(name) && scheme == #[trigger] (name + "://"@);
        lemma_any_scheme(name, rest);
    }
}

proof fn lemma_no_scheme(url: Seq<char>, lead: Seq<char>)
    requires
        lead.is_prefix_of(url),
        lead.len() >= 9,
        !lead.contains('/'),
    ensures
        after_scheme(url) == url,
{
    reveal_strlit("http://");
    reveal_strlit("https://");
    assert(lead == url.subrange(0, lead.len() as int));
    assert(lead[5] != '/' && lead[6] != '/');
    assert(url[5] == lead[5] && url[6] == lead[6]);
    if is_http(url) {
        assert(url.subrange(0, 7)[5] == '/');
    }
    if is_https(url) {
        assert(url.subrange(0, 8)[6] == '/');
    }
}

proof fn lemma_any_scheme(name: Seq<char>, rest: Seq<char>)
    requires
        holds_no_mark(name),
    ensures
        after_any_scheme(name + "://"@ + rest) == rest,
{
    reveal_strlit("://");
    let url = name + "://"@ + rest;
    let n = name.len() as int;
    assert forall|j: int| 0 <= j < n + 1 implies url[j] != '/' && url[j] != '?' && url[j]
        != '#' by {
        if j < n {
            assert(url[j] == name[j]);
        }
    }
    assert(url[n] == ':' && url[n + 1] == '/' && url[n + 2] == '/');
    lemma_first_index(url, '/', n + 1);
    let before = url.subrange(0, n + 1);
    assert(!before.contains('?') && !before.contains('#'));
    assert(url.subrange(n + 3, url.len() as int) =~= rest);
}

proof fn lemma_own_is_own_url(url: Seq<char>)
    requires
        is_own(url),
    ensures
        exists|scheme: Seq<char>, user: Seq<char>, port: Seq<char>, more: Seq<char>|
            is_own_url(url, scheme, user, port, more),
{
    let none = Seq::<char>::empty();
    assert(none + url =~= url);
    if domain_of(authority_of(after_scheme(url))) == "127.0.0.1"@ {
        let rest = after_scheme(url);
        let scheme = if is_http(url) {
            "http://"@
        } else if is_https(url) {
            "https://"@
        } else {
            none
        };
        assert(url =~= scheme + rest);
        lemma_known_schemes();
        lemma_own_parts(rest, scheme);
    } else {
        let rest = after_any_scheme(url);
        url.index_of_first_ensures('/');
        if rest == url {
            lemma_own_parts(rest, none);
        } else {
            reveal_strlit("://");
            let i = url.index_of_first('/').unwrap();
            let name = url.subrange(0, i - 1);
            let scheme = name + "://"@;
            assert(url =~= scheme + rest);
            assert(url.subrange(0, i) =~= name + seq![':']);
            lemma_part_holds(name, seq![':'], '?');
            lemma_part_holds(name, seq![':'], '#');
            assert(!name.contains('/'));
            lemma_own_parts(rest, scheme);
        }
    }
}

proof fn lemma_known_schemes()
    ensures
        exists|name: Seq<char>| holds_no_mark(name) && "http://"@ == #[trigger] (name + "://"@),
        exists|name: Seq<char>| holds_no_mark(name) && "https://"@ == #[trigger] (name + "://"@),
{
    reveal_strlit("http://");
    reveal_strlit("https://");
    reveal_strlit("://");
    reveal_strlit("http");
    reveal_strlit("https");
    assert("http://"@ =~= "http"@ + "://"@);
    assert("https://"@ =~= "https"@ + "://"@);
    assert(holds_no_mark("http"@) && holds_no_mark("https"@));
}

/// The domain in a URL is 127.0.0.1 just where the URL is that address with nothing around it
/// but a scheme, a user, a port, and a path, a query or a fragment.
pub proof fn law_own_domain(url: Seq<char>)
    ensures
        is_own(url) <==> exists|
            scheme: Seq<char>,
            user: Seq<char>,
            port: Seq<char>,
            more: Seq<char>,
        | is_own_url(url, scheme, user, port, more),
{
    if exists|scheme: Seq<char>, user: Seq<char>, port: Seq<char>, more: Seq<char>|
        is_own_url(url, scheme, user, port, more) {
        let (scheme, user, port, more) = choose|
            scheme: Seq<char>,
            user: Seq<char>,
            port: Seq<char>,
            more: Seq<char>,
        | is_own_url(url, scheme, user, port, more);
        lemma_own_url_is_own(url, scheme, user, port, more);
    }
    if is_own(url) {
        lemma_own_is_own_url(url);
    }
}

} // verus!
