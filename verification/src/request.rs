//! HTTP requests as they arrive: request line, header lines and body.

use crate::text::{
    find_part, find_text, from_index, has_prefix, lines, split_lines, split_words, starts_with,
    to_chars, to_text, trim, trimmed, views, words,
};
use crate::unicode::{lowercase, lowers_ascii};
use vstd::prelude::*;
use vstd::slice::{slice_subrange, slice_to_vec};
use vstd::utf8::{encode_scalar, encode_utf8, is_ascii_chars};

verus! {

/// A request line: method, URL and protocol version.
#[verifier::ext_equal]
pub struct RequestLineModel {
    pub method: Seq<char>,
    pub url: Seq<char>,
    pub version: Seq<char>,
}

/// A request line: method, URL and protocol version.
#[derive(Debug)]
pub struct RequestLine {
    pub method: String,
    pub url: String,
    pub version: String,
}

impl View for RequestLine {
    type V = RequestLineModel;

    open spec fn view(&self) -> RequestLineModel {
        RequestLineModel { method: self.method@, url: self.url@, version: self.version@ }
    }
}

/// The first line of `text`.
pub open spec fn first_line(text: Seq<char>) -> Seq<char> {
    if lines(text).len() > 0 {
        lines(text)[0]
    } else {
        Seq::empty()
    }
}

/// The request line of `text`: the first three words of its first line.
pub open spec fn request_line(text: Seq<char>) -> Option<RequestLineModel> {
    let w = words(first_line(text));
    if w.len() < 3 {
        None
    } else {
        Some(RequestLineModel { method: w[0], url: w[1], version: w[2] })
    }
}

/// The leading lines of `list` that are not empty.
pub open spec fn until_blank(list: Seq<Seq<char>>) -> Seq<Seq<char>>
    decreases list.len(),
{
    if list.len() == 0 || list[0].len() == 0 {
        Seq::empty()
    } else {
        seq![list[0]] + until_blank(list.drop_first())
    }
}

/// The header lines of `text`: those behind the first line, up to an empty one.
pub open spec fn header_lines(text: Seq<char>) -> Seq<Seq<char>> {
    if lines(text).len() == 0 {
        Seq::empty()
    } else {
        until_blank(lines(text).drop_first())
    }
}

/// `line` is a header that is meant for the proxy alone.
pub open spec fn is_proxy_line(line: Seq<char>) -> bool {
    starts_with(lowercase(line), "proxy-"@)
}

/// `line` is a `Host` header.
pub open spec fn is_host_line(line: Seq<char>) -> bool {
    starts_with(lowercase(trim(line)), "host:"@)
}

/// What is left of `s` behind the characters that UTF-8 encodes in its first `n` bytes;
/// nothing where `s` is shorter, or where a character lies across that point.
pub open spec fn after_bytes(s: Seq<char>, n: int) -> Option<Seq<char>>
    decreases s.len(),
{
    if n == 0 {
        Some(s)
    } else if n < 0 || s.len() == 0 {
        None
    } else {
        after_bytes(s.drop_first(), n - encode_scalar(s[0] as u32).len())
    }
}

/// The value of the first `Host` header among `headers`: what stands behind its colon, with
/// no white space around it.
pub open spec fn host_value(headers: Seq<Seq<char>>) -> Option<Seq<char>>
    decreases headers.len(),
{
    if headers.len() == 0 {
        None
    } else if is_host_line(headers[0]) {
        match after_bytes(trim(headers[0]), "host:"@.len() as int) {
            Some(value) => Some(trim(value)),
            None => None,
        }
    } else {
        host_value(headers.drop_first())
    }
}

/// The lower case of each line, up to the first `Host` header, is that of its ASCII characters
/// as far as these go.
pub open spec fn host_cases_known(headers: Seq<Seq<char>>) -> bool
    decreases headers.len(),
{
    headers.len() > 0 ==> {
        &&& lowers_ascii(trim(headers[0]), lowercase(trim(headers[0])))
        &&& !is_host_line(headers[0]) ==> host_cases_known(headers.drop_first())
    }
}

/// How many bytes the UTF-8 encoding of `text` has up to and with the first empty line.
pub open spec fn head_bytes(text: Seq<char>) -> Option<int> {
    match find_text(text, "\r\n\r\n"@) {
        Some(i) => Some((encode_utf8(text.subrange(0, i)).len() + "\r\n\r\n"@.len()) as int),
        None => None,
    }
}

/// The body of the request `data`, whose text is `text`: what follows as many bytes of `data`
/// as the head takes in the encoding of `text`. Nothing comes of it where `data` has fewer
/// bytes, which takes a head that is not UTF-8.
pub open spec fn request_body(text: Seq<char>, data: Seq<u8>) -> Option<Seq<u8>> {
    match head_bytes(text) {
        Some(n) => if n <= data.len() {
            Some(data.subrange(n, data.len() as int))
        } else {
            None
        },
        None => Some(Seq::empty()),
    }
}

/// The request line of `text`, or its first line where that holds fewer than three words.
pub fn parse_request_line(text: &[char]) -> (r: Result<RequestLine, String>)
    ensures
        match r {
            Ok(request) => request_line(text@) == Some(request@),
            Err(line) => request_line(text@) is None && line@ == first_line(text@),
        },
{
    let all = split_lines(text);
    let none: Vec<char> = Vec::new();
    let line: &[char] = if all.len() > 0 {
        all[0]
    } else {
        none.as_slice()
    };
    proof {
        if all.len() > 0 {
            assert(views(all@)[0] == all@[0]@);
        }
        assert(line@ == first_line(text@));
    }
    let w = split_words(line);
    if w.len() < 3 {
        return Err(to_text(line));
    }
    proof {
        assert(views(w@)[0] == w@[0]@);
        assert(views(w@)[1] == w@[1]@);
        assert(views(w@)[2] == w@[2]@);
    }
    Ok(RequestLine { method: to_text(w[0]), url: to_text(w[1]), version: to_text(w[2]) })
}

/// The header lines of `text`.
pub fn split_headers(text: &[char]) -> (out: Vec<&[char]>)
    ensures
        views(out@) == header_lines(text@),
{
    let all = split_lines(text);
    let mut out: Vec<&[char]> = Vec::new();
    if all.len() == 0 {
        assert(views(out@) == header_lines(text@));
        return out;
    }
    let ghost tail = views(all@).drop_first();
    let mut i: usize = 1;
    proof {
        assert(tail.subrange(0, tail.len() as int) == tail);
        assert(views(out@) + until_blank(tail) == until_blank(tail));
    }
    while i < all.len() && all[i].len() > 0
        invariant
            1 <= i <= all@.len(),
            tail == views(all@).drop_first(),
            until_blank(tail) == views(out@) + until_blank(
                tail.subrange(i - 1, tail.len() as int),
            ),
        decreases all@.len() - i,
    {
        let ghost done = views(out@);
        let ghost rest = tail.subrange(i - 1, tail.len() as int);
        out.push(all[i]);
        proof {
            assert(rest[0] == all@[i as int]@);
            assert(rest.drop_first() == tail.subrange(i as int, tail.len() as int));
            assert(views(out@) == done.push(rest[0]));
            assert(done.push(rest[0]) + until_blank(rest.drop_first()) == done + (seq![rest[0]]
                + until_blank(rest.drop_first())));
        }
        i = i + 1;
    }
    proof {
        let rest = tail.subrange(i - 1, tail.len() as int);
        if i < all@.len() {
            assert(rest[0] == all@[i as int]@);
        }
        assert(views(out@) + Seq::<Seq<char>>::empty() == views(out@));
    }
    out
}

/// Tells whether `line` is a header that is meant for the proxy alone.
pub fn proxy_line(line: &[char]) -> (r: bool)
    ensures
        r == is_proxy_line(line@),
        lowers_ascii(line@, lowercase(line@)),
{
    let text = to_text(line);
    let lower = to_chars(text.as_str().to_lowercase().as_str());
    has_prefix(lower.as_slice(), "proxy-")
}

/// Tells whether `line` is a `Host` header.
pub fn host_line(line: &[char]) -> (r: bool)
    ensures
        r == is_host_line(line@),
        lowers_ascii(trim(line@), lowercase(trim(line@))),
{
    let text = to_text(trimmed(line));
    let lower = to_chars(text.as_str().to_lowercase().as_str());
    has_prefix(lower.as_slice(), "host:")
}

/// How many bytes UTF-8 takes for `c`.
pub fn encoded_len(c: char) -> (n: usize)
    ensures
        n == encode_scalar(c as u32).len(),
        1 <= n <= 4,
{
    if c <= '\u{7f}' {
        1
    } else if c <= '\u{7ff}' {
        2
    } else if c <= '\u{ffff}' {
        3
    } else {
        4
    }
}

/// What is left of `s` behind its first `n` bytes.
pub fn skip_bytes(s: &[char], n: usize) -> (r: Option<&[char]>)
    ensures
        match r {
            Some(rest) => after_bytes(s@, n as int) == Some(rest@),
            None => after_bytes(s@, n as int) is None,
        },
{
    let mut rest: &[char] = s;
    let mut left: usize = n;
    while left > 0
        invariant
            after_bytes(s@, n as int) == after_bytes(rest@, left as int),
        decreases left,
    {
        if rest.len() == 0 {
            return None;
        }
        let w = encoded_len(rest[0]);
        if w > left {
            assert(after_bytes(rest@.drop_first(), left - w) is None);
            return None;
        }
        left = left - w;
        rest = from_index(rest, 1);
    }
    Some(rest)
}

/// The value of the first `Host` header among `headers`.
pub fn find_host(headers: &Vec<&[char]>) -> (r: Option<String>)
    ensures
        match r {
            Some(host) => host_value(views(headers@)) == Some(host@),
            None => host_value(views(headers@)) is None,
        },
        host_cases_known(views(headers@)),
{
    let ghost all = views(headers@);
    assert(all.subrange(0, all.len() as int) == all);
    for i in 0..headers.len()
        invariant
            all == views(headers@),
            host_value(all) == host_value(all.subrange(i as int, all.len() as int)),
            host_cases_known(all.subrange(i as int, all.len() as int)) ==> host_cases_known(all),
    {
        let line = headers[i];
        let ghost rest = all.subrange(i as int, all.len() as int);
        proof {
            reveal_strlit("host:");
            assert(rest[0] == line@);
            assert(rest.drop_first() == all.subrange(i + 1, all.len() as int));
        }
        if host_line(line) {
            return match skip_bytes(trimmed(line), 5) {
                Some(value) => Some(to_text(trimmed(value))),
                None => None,
            };
        }
    }
    None
}

pub(crate) proof fn lemma_encode_concat(a: Seq<char>, b: Seq<char>)
    ensures
        encode_utf8(a + b) == encode_utf8(a) + encode_utf8(b),
    decreases a.len(),
{
    if a.len() == 0 {
        assert(a + b == b);
        assert(encode_utf8(a) + encode_utf8(b) == encode_utf8(b));
    } else {
        lemma_encode_concat(a.drop_first(), b);
        assert((a + b).drop_first() == a.drop_first() + b);
        assert((a + b)[0] == a[0]);
        let w = encode_scalar(a[0] as u32);
        assert(w + (encode_utf8(a.drop_first()) + encode_utf8(b)) == (w + encode_utf8(
            a.drop_first(),
        )) + encode_utf8(b));
    }
}

pub(crate) proof fn lemma_encode_blank_line()
    ensures
        "\r\n\r\n"@.len() == 4,
        encode_utf8("\r\n\r\n"@).len() == 4,
{
    reveal_strlit("\r\n\r\n");
    assert(is_ascii_chars("\r\n\r\n"@));
    vstd::utf8::is_ascii_chars_encode_utf8("\r\n\r\n"@);
}

/// How many bytes the encoding of `text` has up to and with the first empty line.
pub fn count_head_bytes(text: &str) -> (r: Option<usize>)
    ensures
        match r {
            Some(n) => head_bytes(text@) == Some(n as int) && n <= encode_utf8(text@).len(),
            None => head_bytes(text@) is None,
        },
{
    let chars = to_chars(text);
    let bytes = text.as_bytes();
    let total: usize = bytes.len();
    let ghost s = text@;
    proof {
        lemma_encode_blank_line();
    }
    match find_part(chars.as_slice(), "\r\n\r\n") {
        None => None,
        Some(i) => {
            proof {
                crate::text::lemma_find_text(s, "\r\n\r\n"@, i as int);
                assert(s == s.subrange(0, i as int) + "\r\n\r\n"@ + s.subrange(
                    i + 4,
                    s.len() as int,
                ));
                lemma_encode_concat(
                    s.subrange(0, i as int) + "\r\n\r\n"@,
                    s.subrange(i + 4, s.len() as int),
                );
                lemma_encode_concat(s.subrange(0, i as int), "\r\n\r\n"@);
            }
            let mut n: usize = 0;
            for k in 0..i
                invariant
                    chars@ == s,
                    i <= s.len(),
                    n == encode_utf8(s.subrange(0, k as int)).len(),
                    encode_utf8(s.subrange(0, i as int)).len() + 4 <= total,
            {
                proof {
                    let upto = s.subrange(0, k as int);
                    lemma_encode_concat(upto, seq![s[k as int]]);
                    assert(upto + seq![s[k as int]] == s.subrange(0, k + 1));
                    lemma_encode_concat(s.subrange(0, k + 1), s.subrange(k + 1, i as int));
                    assert(s.subrange(0, k + 1) + s.subrange(k + 1, i as int) == s.subrange(
                        0,
                        i as int,
                    ));
                    let one = seq![s[k as int]];
                    assert(one.drop_first() == Seq::<char>::empty());
                    assert(encode_utf8(one.drop_first()).len() == 0);
                }
                n = n + encoded_len(chars[k]);
            }
            Some(n + 4)
        },
    }
}

/// The body of the request `data`, whose text is `text`.
pub fn cut_body(text: &str, data: &[u8]) -> (r: Option<Vec<u8>>)
    ensures
        match r {
            Some(body) => request_body(text@, data@) == Some(body@),
            None => request_body(text@, data@) is None,
        },
{
    match count_head_bytes(text) {
        Some(n) => if n <= data.len() {
            Some(slice_to_vec(slice_subrange(data, n, data.len())))
        } else {
            None
        },
        None => {
            let none: Vec<u8> = Vec::new();
            Some(none)
        },
    }
}

} // verus!
