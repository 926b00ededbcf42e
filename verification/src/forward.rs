//! The request as the proxy sends it on.

use crate::request::{
    cut_body, header_lines, is_proxy_line, proxy_line, request_body, split_headers, RequestLine,
    RequestLineModel,
};
use crate::text::{push_all, to_chars, views};
use crate::unicode::{lowercase, lowers_ascii};
use crate::url::{address, parse_url, socket_address, url_parts};
use vstd::prelude::*;

verus! {

/// A request to send on: where to, the head to write there, and the body behind it.
#[verifier::ext_equal]
pub struct ForwardModel {
    pub host: Seq<char>,
    pub port: u16,
    pub path: Seq<char>,
    pub address: Seq<char>,
    pub head: Seq<char>,
    pub body: Option<Seq<u8>>,
}

/// A request to send on: where to, the head to write there, and the body behind it. There is
/// no body, not even an empty one, where the head claims more bytes than were received.
#[derive(Debug)]
pub struct Forward {
    pub host: String,
    pub port: u16,
    pub path: String,
    pub address: String,
    pub head: String,
    pub body: Option<Vec<u8>>,
}

impl View for Forward {
    type V = ForwardModel;

    open spec fn view(&self) -> ForwardModel {
        ForwardModel {
            host: self.host@,
            port: self.port,
            path: self.path@,
            address: self.address@,
            head: self.head@,
            body: match self.body {
                Some(body) => Some(body@),
                None => None,
            },
        }
    }
}

/// The headers among `headers` that are sent on.
pub open spec fn kept_headers(headers: Seq<Seq<char>>) -> Seq<Seq<char>> {
    headers.filter(|line: Seq<char>| !is_proxy_line(line))
}

/// `list`, each line with its ending.
pub open spec fn join_lines(list: Seq<Seq<char>>) -> Seq<char>
    decreases list.len(),
{
    if list.len() == 0 {
        Seq::empty()
    } else {
        join_lines(list.drop_last()) + list.last() + "\r\n"@
    }
}

/// The line that asks for `path` with the method and the version of `request`.
pub open spec fn request_text(request: RequestLineModel, path: Seq<char>) -> Seq<char> {
    request.method + " "@ + path + " "@ + request.version
}

/// The head of a request: its first line, its headers, and an empty line.
pub open spec fn head_text(first: Seq<char>, headers: Seq<Seq<char>>) -> Seq<char> {
    first + "\r\n"@ + join_lines(headers) + "\r\n"@
}

/// What is sent on of `request`, which came in `data` and reads as `text`.
pub open spec fn forwarded(
    request: RequestLineModel,
    text: Seq<char>,
    data: Seq<u8>,
) -> ForwardModel {
    let (host, port, path) = url_parts(request.url);
    ForwardModel {
        host,
        port,
        path,
        address: address(host, port),
        head: head_text(request_text(request, path), kept_headers(header_lines(text))),
        body: request_body(text, data),
    }
}

/// The lower case of each line is that of its ASCII characters as far as these go.
pub open spec fn cases_known(headers: Seq<Seq<char>>) -> bool {
    forall|i: int|
        0 <= i < headers.len() ==> lowers_ascii(#[trigger] headers[i], lowercase(headers[i]))
}

/// What is sent on of `request`, which came in `data` and reads as `text`.
pub fn forward(request: &RequestLine, text: &str, data: &[u8]) -> (f: Forward)
    ensures
        f@ == forwarded(request@, text@, data@),
        cases_known(header_lines(text@)),
{
    let (host, port, path) = parse_url(request.url.as_str());
    let address = socket_address(host.as_str(), port);
    let chars = to_chars(text);
    let headers = split_headers(chars.as_slice());
    let mut head = String::new();
    head.append(request.method.as_str());
    head.append(" ");
    head.append(path.as_str());
    head.append(" ");
    head.append(request.version.as_str());
    let ghost first = head@;
    assert(first == request_text(request@, path@));
    head.append("\r\n");
    let ghost all = views(headers@);
    let ghost keep = |line: Seq<char>| !is_proxy_line(line);
    proof {
        assert(all.subrange(0, 0).filter(keep) == Seq::<Seq<char>>::empty()) by {
            reveal(Seq::filter);
        }
        assert(head@ + Seq::<char>::empty() == head@);
    }
    for i in 0..headers.len()
        invariant
            all == views(headers@),
            keep == (|line: Seq<char>| !is_proxy_line(line)),
            head@ == first + "\r\n"@ + join_lines(all.subrange(0, i as int).filter(keep)),
            cases_known(all.subrange(0, i as int)),
    {
        let line = headers[i];
        let ghost upto = all.subrange(0, i as int);
        let ghost next = all.subrange(0, i + 1);
        proof {
            reveal(Seq::filter);
            assert(next.drop_last() == upto);
            assert(next.last() == line@);
        }
        if !proxy_line(line) {
            let ghost kept = upto.filter(keep);
            push_all(&mut head, line);
            head.append("\r\n");
            proof {
                assert(kept.push(line@).drop_last() == kept);
                assert(next.filter(keep) == kept.push(line@));
                assert(first + "\r\n"@ + join_lines(kept) + line@ + "\r\n"@ == first + "\r\n"@ + (
                join_lines(kept) + line@ + "\r\n"@));
            }
        }
        proof {
            assert forall|j: int| 0 <= j < next.len() implies lowers_ascii(
                #[trigger] next[j],
                lowercase(next[j]),
            ) by {
                if j < i {
                    assert(next[j] == upto[j]);
                }
            }
        }
    }
    assert(all.subrange(0, all.len() as int) == all);
    head.append("\r\n");
    let body = cut_body(text, data);
    let f = Forward { host, port, path, address, head, body };
    assert(f@ == forwarded(request@, text@, data@));
    f
}

} // verus!
