//! What the proxy does with the first bytes of a connection.

use crate::forward::{cases_known, forward, forwarded, Forward, ForwardModel};
use crate::number::{parse_port, port_number};
use crate::request::{
    find_host, first_line, header_lines, host_cases_known, host_value, parse_request_line,
    request_line,
    split_headers, RequestLine, RequestLineModel,
};
use crate::text::{
    find_char, find_last_char, from_index, has_prefix, is_text, to_chars, to_text,
};
use crate::unicode::{decode_lossy, lossy_text, reads_as};
use crate::url::{
    address, after_scheme, is_http, is_https, is_own, names_own, path_chars, path_of,
    socket_address, strip_scheme,
};
use vstd::prelude::*;
use vstd::slice::slice_subrange;

verus! {

/// How many bytes are read at a time.
pub const BUFFER_SIZE: usize = 8192;

/// The byte that opens a TLS handshake.
pub const TLS_HANDSHAKE: u8 = 0x16;

/// The answer to a request that cannot be served.
pub const BAD_REQUEST: &'static str = "HTTP/1.1 400 Bad Request\r\n\r\n";

/// The answer where the target cannot be reached.
pub const BAD_GATEWAY: &'static str = "HTTP/1.1 502 Bad Gateway\r\n\r\n";

/// The answer that opens a tunnel.
pub const ESTABLISHED: &'static str = "HTTP/1.1 200 Connection Established\r\n\r\n";

/// What a client speaks.
#[derive(Debug, Clone, Copy, PartialEq, Eq, Structural)]
pub enum Protocol {
    /// Nothing: it closed the connection.
    Closed,
    /// TLS, with the proxy's requests inside.
    Tls,
    /// Plain HTTP.
    Http,
}

/// What a client speaks whose first byte is `first`. TLS is spoken only where the proxy has
/// a certificate.
pub fn detect_protocol(first: Option<u8>, tls_ready: bool) -> (p: Protocol)
    ensures
        p == match first {
            None => Protocol::Closed,
            Some(b) => if b == TLS_HANDSHAKE && tls_ready {
                Protocol::Tls
            } else {
                Protocol::Http
            },
        },
{
    match first {
        None => Protocol::Closed,
        Some(b) => if b == TLS_HANDSHAKE && tls_ready {
            Protocol::Tls
        } else {
            Protocol::Http
        },
    }
}

/// What to do with a plain request.
#[verifier::ext_equal]
pub enum HttpPlanModel {
    Empty,
    Malformed(Seq<char>),
    Tunnel(RequestLineModel),
    Forward(RequestLineModel, ForwardModel),
}

/// What to do with a plain request.
#[derive(Debug)]
pub enum HttpPlan {
    /// Nothing was sent: close.
    Empty,
    /// The first line is no request line: close without an answer.
    Malformed(String),
    /// Open a tunnel to what the URL names.
    Tunnel(RequestLine),
    /// Send the request on.
    Forward(RequestLine, Forward),
}

impl View for HttpPlan {
    type V = HttpPlanModel;

    open spec fn view(&self) -> HttpPlanModel {
        match self {
            HttpPlan::Empty => HttpPlanModel::Empty,
            HttpPlan::Malformed(line) => HttpPlanModel::Malformed(line@),
            HttpPlan::Tunnel(request) => HttpPlanModel::Tunnel(request@),
            HttpPlan::Forward(request, f) => HttpPlanModel::Forward(request@, f@),
        }
    }
}

/// What to do with the plain request `data`, which reads as `text`.
pub open spec fn http_plan(text: Seq<char>, data: Seq<u8>) -> HttpPlanModel {
    if data.len() == 0 {
        HttpPlanModel::Empty
    } else {
        match request_line(text) {
            None => HttpPlanModel::Malformed(first_line(text)),
            Some(request) => if request.method == "CONNECT"@ {
                HttpPlanModel::Tunnel(request)
            } else {
                HttpPlanModel::Forward(request, forwarded(request, text, data))
            },
        }
    }
}

/// What to do with the plain request `data`.
pub fn plan_http(data: &[u8]) -> (plan: HttpPlan)
    ensures
        plan@ == http_plan(lossy_text(data@), data@),
        reads_as(data@, lossy_text(data@)),
        plan@ is Forward ==> cases_known(header_lines(lossy_text(data@))),
{
    let text = decode_lossy(data);
    plan_http_text(text.as_str(), data)
}

/// What to do with the plain request `data`, which reads as `text`.
pub fn plan_http_text(text: &str, data: &[u8]) -> (plan: HttpPlan)
    ensures
        plan@ == http_plan(text@, data@),
        plan@ is Forward ==> cases_known(header_lines(text@)),
{
    if data.len() == 0 {
        return HttpPlan::Empty;
    }
    let chars = to_chars(text);
    match parse_request_line(chars.as_slice()) {
        Err(line) => HttpPlan::Malformed(line),
        Ok(request) => {
            let method = to_chars(request.method.as_str());
            if is_text(method.as_slice(), "CONNECT") {
                HttpPlan::Tunnel(request)
            } else {
                let f = forward(&request, text, data);
                HttpPlan::Forward(request, f)
            }
        },
    }
}

/// What to do with a request to open a tunnel.
#[verifier::ext_equal]
pub enum ConnectPlanModel {
    Refuse,
    Dial { host: Seq<char>, port: u16, address: Seq<char> },
}

/// What to do with a request to open a tunnel.
#[derive(Debug)]
pub enum ConnectPlan {
    /// Answer `BAD_REQUEST` and close.
    Refuse,
    /// Dial the address.
    Dial { host: String, port: u16, address: String },
}

impl View for ConnectPlan {
    type V = ConnectPlanModel;

    open spec fn view(&self) -> ConnectPlanModel {
        match self {
            ConnectPlan::Refuse => ConnectPlanModel::Refuse,
            ConnectPlan::Dial { host, port, address } => ConnectPlanModel::Dial {
                host: host@,
                port: *port,
                address: address@,
            },
        }
    }
}

impl ConnectPlan {
    /// What the client is told before anything is dialled.
    pub fn answer(&self) -> (a: Option<&'static str>)
        ensures
            a == match self@ {
                ConnectPlanModel::Refuse => Some(BAD_REQUEST),
                ConnectPlanModel::Dial { .. } => None,
            },
    {
        match self {
            ConnectPlan::Refuse => Some(BAD_REQUEST),
            ConnectPlan::Dial { .. } => None,
        }
    }
}

/// What to do with a request to open a tunnel to `url`: it holds exactly one colon, with the
/// host before it and the port behind it. What is no port stands for 443.
pub open spec fn connect_plan(url: Seq<char>) -> ConnectPlanModel {
    match url.index_of_first(':') {
        Some(i) => if url.index_of_last(':') == Some(i) {
            let host = url.subrange(0, i);
            let port = match port_number(url.subrange(i + 1, url.len() as int)) {
                Some(port) => port,
                None => 443,
            };
            ConnectPlanModel::Dial { host, port, address: address(host, port) }
        } else {
            ConnectPlanModel::Refuse
        },
        None => ConnectPlanModel::Refuse,
    }
}

/// What to do with a request to open a tunnel to `url`.
pub fn plan_connect(url: &str) -> (plan: ConnectPlan)
    ensures
        plan@ == connect_plan(url@),
{
    let chars = to_chars(url);
    let url = chars.as_slice();
    match find_char(url, ':') {
        None => ConnectPlan::Refuse,
        Some(i) => {
            match find_last_char(url, ':') {
                Some(j) => if i == j {
                    let host = to_text(slice_subrange(url, 0, i));
                    let port: u16 = match parse_port(from_index(url, i + 1)) {
                        Some(port) => port,
                        None => 443,
                    };
                    let address = socket_address(host.as_str(), port);
                    ConnectPlan::Dial { host, port, address }
                } else {
                    ConnectPlan::Refuse
                },
                None => ConnectPlan::Refuse,
            }
        },
    }
}

/// What to do with a request that came through TLS.
#[verifier::ext_equal]
pub enum TlsPlanModel {
    Empty,
    Malformed(Seq<char>),
    NoTarget,
    Connect(RequestLineModel),
    Forward(RequestLineModel, ForwardModel),
}

/// What to do with a request that came through TLS. The request lines hold the URL after
/// the `Host` header was put into it.
#[derive(Debug)]
pub enum TlsPlan {
    /// Nothing was sent: close.
    Empty,
    /// The first line is no request line: close without an answer.
    Malformed(String),
    /// Neither header nor URL says where to go: answer `BAD_REQUEST` and close.
    NoTarget,
    /// A tunnel inside TLS is not served: close without an answer.
    Connect(RequestLine),
    /// Send the request on.
    Forward(RequestLine, Forward),
}

impl View for TlsPlan {
    type V = TlsPlanModel;

    open spec fn view(&self) -> TlsPlanModel {
        match self {
            TlsPlan::Empty => TlsPlanModel::Empty,
            TlsPlan::Malformed(line) => TlsPlanModel::Malformed(line@),
            TlsPlan::NoTarget => TlsPlanModel::NoTarget,
            TlsPlan::Connect(request) => TlsPlanModel::Connect(request@),
            TlsPlan::Forward(request, f) => TlsPlanModel::Forward(request@, f@),
        }
    }
}

impl TlsPlan {
    /// What the client is told before anything is dialled.
    pub fn answer(&self) -> (a: Option<&'static str>)
        ensures
            a == match self@ {
                TlsPlanModel::NoTarget => Some(BAD_REQUEST),
                _ => None,
            },
    {
        match self {
            TlsPlan::NoTarget => Some(BAD_REQUEST),
            _ => None,
        }
    }
}

/// `url` begins with a slash.
pub open spec fn is_path(url: Seq<char>) -> bool {
    url.len() > 0 && url[0] == '/'
}

/// The URL to go by where a request through TLS gave `url` and the header `host`. The header
/// takes the place of the host in a URL with a scheme, and comes before a bare path. Without
/// header a bare path leads nowhere, and so does a URL whose domain is 127.0.0.1; any other is
/// gone by as it is, also one that holds that address elsewhere.
pub open spec fn secure_url(url: Seq<char>, host: Option<Seq<char>>) -> Option<Seq<char>> {
    match host {
        Some(host) => Some(
            if is_path(url) {
                "https://"@ + host + url
            } else if is_http(url) || is_https(url) {
                "https://"@ + host + path_of(after_scheme(url))
            } else {
                url
            },
        ),
        None => if is_path(url) || is_own(url) {
            None
        } else {
            Some(url)
        },
    }
}

/// What to do with the request `data` that came through TLS and reads as `text`.
pub open spec fn tls_plan(text: Seq<char>, data: Seq<u8>) -> TlsPlanModel {
    if data.len() == 0 {
        TlsPlanModel::Empty
    } else {
        match request_line(text) {
            None => TlsPlanModel::Malformed(first_line(text)),
            Some(given) => match secure_url(given.url, host_value(header_lines(text))) {
                None => TlsPlanModel::NoTarget,
                Some(url) => {
                    let request = RequestLineModel { url, ..given };
                    if given.method == "CONNECT"@ {
                        TlsPlanModel::Connect(request)
                    } else {
                        TlsPlanModel::Forward(request, forwarded(request, text, data))
                    }
                },
            },
        }
    }
}

/// The URL to go by where a request through TLS gave `url` and the header `host`.
pub fn rewrite_url(url: &str, host: Option<String>) -> (r: Option<String>)
    ensures
        match r {
            Some(new) => secure_url(
                url@,
                match host {
                    Some(host) => Some(host@),
                    None => None,
                },
            ) == Some(new@),
            None => secure_url(
                url@,
                match host {
                    Some(host) => Some(host@),
                    None => None,
                },
            ) is None,
        },
{
    let chars = to_chars(url);
    let bare = chars.len() > 0 && chars[0] == '/';
    match host {
        Some(host) => {
            let mut new = "https://".to_string();
            if bare {
                new.append(host.as_str());
                new.append(url);
                Some(new)
            } else if has_prefix(chars.as_slice(), "http://") || has_prefix(
                chars.as_slice(),
                "https://",
            ) {
                new.append(host.as_str());
                let path = path_chars(strip_scheme(chars.as_slice()));
                new.append(to_text(path.as_slice()).as_str());
                Some(new)
            } else {
                Some(url.to_string())
            }
        },
        None => {
            if bare || names_own(chars.as_slice()) {
                None
            } else {
                Some(url.to_string())
            }
        },
    }
}

/// What to do with the request `data` that came through TLS.
pub fn plan_tls(data: &[u8]) -> (plan: TlsPlan)
    ensures
        plan@ == tls_plan(lossy_text(data@), data@),
        reads_as(data@, lossy_text(data@)),
        plan@ is Forward ==> cases_known(header_lines(lossy_text(data@))),
        !(plan@ is Empty) && !(plan@ is Malformed) ==> host_cases_known(
            header_lines(lossy_text(data@)),
        ),
{
    let text = decode_lossy(data);
    plan_tls_text(text.as_str(), data)
}

/// What to do with the request `data` that came through TLS and reads as `text`.
pub fn plan_tls_text(text: &str, data: &[u8]) -> (plan: TlsPlan)
    ensures
        plan@ == tls_plan(text@, data@),
        plan@ is Forward ==> cases_known(header_lines(text@)),
        !(plan@ is Empty) && !(plan@ is Malformed) ==> host_cases_known(header_lines(text@)),
{
    if data.len() == 0 {
        return TlsPlan::Empty;
    }
    let chars = to_chars(text);
    match parse_request_line(chars.as_slice()) {
        Err(line) => TlsPlan::Malformed(line),
        Ok(given) => {
            let headers = split_headers(chars.as_slice());
            let host = find_host(&headers);
            match rewrite_url(given.url.as_str(), host) {
                None => TlsPlan::NoTarget,
                Some(url) => {
                    let request = RequestLine { method: given.method, url, version: given.version };
                    let method = to_chars(request.method.as_str());
                    if is_text(method.as_slice(), "CONNECT") {
                        TlsPlan::Connect(request)
                    } else {
                        let f = forward(&request, text, data);
                        TlsPlan::Forward(request, f)
                    }
                },
            }
        },
    }
}

} // verus!
