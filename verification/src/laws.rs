//! What holds of requests on their way through the proxy.

use crate::forward::{
    cases_known, forwarded, head_text, join_lines, kept_headers, request_text, Forward,
    ForwardModel,
};
use crate::number::{decimal, law_port_holds_digits_alone, port_number};
use crate::plan::{
    connect_plan, detect_protocol, http_plan, is_path, secure_url, tls_plan, ConnectPlan,
    ConnectPlanModel, HttpPlan, HttpPlanModel, Protocol, TlsPlan, TlsPlanModel, BUFFER_SIZE,
};
use crate::request::{
    after_bytes, first_line, header_lines, host_cases_known, host_value, is_proxy_line,
    lemma_encode_blank_line, lemma_encode_concat, request_body, request_line, until_blank,
    RequestLine, RequestLineModel,
};
use crate::text::{
    all_white, ends_in, find_text, first_occurs_at, is_white, law_find_text, law_lines, law_trim,
    law_words, lemma_find_text, lemma_trim_start_len, lemma_word_len, lines, no_white, occurs_at,
    starts_with, strip_cr, trim, trim_start, word_len, words,
};
use crate::unicode::{ascii_lower, ascii_lowercase, lowercase, lowers_ascii, reads_as};
use crate::url::{
    address, after_scheme, is_http, is_https, is_own, is_own_url, law_address, law_bare_path,
    law_own_domain, law_own_host_is_own_domain, law_url_is_complete, law_url_names_host_and_path,
    law_url_names_host_port_and_path, law_url_with_port, law_url_without_port, lemma_scheme,
    lemma_split_at_path, or_localhost, path_of, unbracketed, url_parts,
};
use vstd::prelude::*;
use vstd::utf8::{
    decode_utf8_encode_utf8, encode_scalar, encode_utf8, encode_utf8_decode_utf8,
    encode_utf8_valid_utf8, is_ascii_chars, valid_utf8,
};

verus! {

/// `s` can stand in a request line: it is not empty and holds no white space.
pub open spec fn is_word(s: Seq<char>) -> bool {
    s.len() > 0 && no_white(s)
}

/// `s` can stand as a header line: it is not empty and holds no line feed.
pub open spec fn is_header(s: Seq<char>) -> bool {
    s.len() > 0 && !s.contains('\n')
}

/// Each of `list` can stand as a header line.
pub open spec fn all_headers(list: Seq<Seq<char>>) -> bool {
    forall|i: int| 0 <= i < list.len() ==> is_header(#[trigger] list[i])
}

proof fn lemma_lines_join(list: Seq<Seq<char>>, rest: Seq<char>)
    requires
        forall|i: int| 0 <= i < list.len() ==> !(#[trigger] list[i]).contains('\n'),
    ensures
        lines(join_lines(list) + rest) == list + lines(rest),
    decreases list.len(),
{
    if list.len() == 0 {
        assert(join_lines(list) + rest =~= rest);
        assert(list + lines(rest) =~= lines(rest));
    } else {
        let init = list.drop_last();
        let l = list.last();
        assert forall|i: int| 0 <= i < init.len() implies !(#[trigger] init[i]).contains('\n') by {
            assert(init[i] == list[i]);
        }
        lemma_lines_join(init, l + "\r\n"@ + rest);
        law_lines(l, rest);
        assert(join_lines(list) + rest =~= join_lines(init) + (l + "\r\n"@ + rest));
        assert(init + (seq![l] + lines(rest)) =~= list + lines(rest));
    }
}

proof fn lemma_until_blank(headers: Seq<Seq<char>>, more: Seq<Seq<char>>)
    requires
        all_headers(headers),
    ensures
        until_blank(headers + (seq![Seq::<char>::empty()] + more)) == headers,
    decreases headers.len(),
{
    let list = headers + (seq![Seq::<char>::empty()] + more);
    if headers.len() == 0 {
        assert(list[0] == Seq::<char>::empty());
        assert(until_blank(list) =~= headers);
    } else {
        let rest = headers.drop_first();
        assert forall|i: int| 0 <= i < rest.len() implies is_header(#[trigger] rest[i]) by {
            assert(rest[i] == headers[i + 1]);
        }
        lemma_until_blank(rest, more);
        assert(is_header(headers[0]));
        assert(list[0] == headers[0]);
        assert(list.drop_first() =~= rest + (seq![Seq::<char>::empty()] + more));
        assert(seq![headers[0]] + rest =~= headers);
    }
}

proof fn lemma_join_front(first: Seq<char>, headers: Seq<Seq<char>>)
    ensures
        head_text(first, headers) == join_lines(seq![first] + headers) + "\r\n"@,
    decreases headers.len(),
{
    let all = seq![first] + headers;
    if headers.len() == 0 {
        assert(all.drop_last() =~= Seq::<Seq<char>>::empty());
        assert(join_lines(all.drop_last()) =~= Seq::<char>::empty());
        assert(head_text(first, headers) =~= join_lines(all) + "\r\n"@);
    } else {
        let init = headers.drop_last();
        lemma_join_front(first, init);
        assert(all.drop_last() =~= seq![first] + init);
        assert(head_text(first, init).len() == (first + "\r\n"@ + join_lines(init)).len()
            + "\r\n"@.len());
        assert(first + "\r\n"@ + join_lines(init) =~= join_lines(seq![first] + init)) by {
            let a = first + "\r\n"@ + join_lines(init);
            let b = join_lines(seq![first] + init);
            assert(a + "\r\n"@ == b + "\r\n"@);
            assert((a + "\r\n"@).subrange(0, a.len() as int) =~= a);
            assert((b + "\r\n"@).subrange(0, b.len() as int) =~= b);
        }
        assert(head_text(first, headers) =~= join_lines(all) + "\r\n"@);
    }
}

proof fn lemma_words_one(a: Seq<char>, rest: Seq<char>)
    requires
        is_word(a),
        rest.len() > 0 ==> is_white(rest[0]),
    ensures
        words(a + rest) == seq![a] + words(rest),
{
    let s = a + rest;
    assert(s[0] == a[0]);
    lemma_word_len(s);
    let k = word_len(s) as int;
    assert(k == a.len()) by {
        if k < a.len() {
            assert(s[k] == a[k]);
        } else if k > a.len() {
            assert(s[a.len() as int] == rest[0]);
        }
    }
    assert(s.subrange(0, k) =~= a);
    assert(s.subrange(k, s.len() as int) =~= rest);
}

proof fn lemma_words_space(s: Seq<char>)
    ensures
        words(" "@ + s) == words(s),
        " "@.len() == 1,
        is_white((" "@ + s)[0]),
{
    reveal_strlit(" ");
    assert((" "@ + s).drop_first() =~= s);
}

proof fn lemma_request_words(request: RequestLineModel, path: Seq<char>)
    requires
        is_word(request.method),
        is_word(path),
        is_word(request.version),
    ensures
        words(request_text(request, path)) == seq![request.method, path, request.version],
{
    let m = request.method;
    let v = request.version;
    let none = Seq::<char>::empty();
    assert(request_text(request, path) =~= m + (" "@ + (path + (" "@ + (v + none)))));
    assert(words(none) =~= Seq::<Seq<char>>::empty());
    lemma_words_one(v, none);
    lemma_words_space(v + none);
    lemma_words_one(path, " "@ + (v + none));
    lemma_words_space(path + (" "@ + (v + none)));
    lemma_words_one(m, " "@ + (path + (" "@ + (v + none))));
    assert(seq![m] + (seq![path] + (seq![v] + Seq::<Seq<char>>::empty())) =~= seq![m, path, v]);
}

proof fn lemma_word_is_line(s: Seq<char>)
    requires
        no_white(s),
    ensures
        !s.contains('\n'),
{
    if s.contains('\n') {
        let i = choose|i: int| 0 <= i < s.len() && s[i] == '\n';
        assert(!is_white(s[i]));
    }
}

proof fn lemma_request_is_line(request: RequestLineModel, path: Seq<char>)
    requires
        is_word(request.method),
        is_word(path),
        is_word(request.version),
    ensures
        is_header(request_text(request, path)),
{
    reveal_strlit(" ");
    let t = request_text(request, path);
    let a = request.method.len() as int;
    let b = a + 1 + path.len();
    lemma_word_is_line(request.method);
    lemma_word_is_line(path);
    lemma_word_is_line(request.version);
    if t.contains('\n') {
        let i = choose|i: int| 0 <= i < t.len() && t[i] == '\n';
        if i < a {
            assert(t[i] == request.method[i]);
        } else if i == a {
            assert(t[i] == ' ');
        } else if i < b {
            assert(t[i] == path[i - a - 1]);
        } else if i == b {
            assert(t[i] == ' ');
        } else {
            assert(t[i] == request.version[i - b - 1]);
        }
    }
}

/// A request is read as it was written: its request line gives its method, its URL and its
/// version, and its header lines come out one by one, whatever follows the empty line.
pub proof fn law_request_reads_back(
    request: RequestLineModel,
    headers: Seq<Seq<char>>,
    rest: Seq<char>,
)
    requires
        is_word(request.method),
        is_word(request.url),
        is_word(request.version),
        all_headers(headers),
    ensures
        request_line(head_text(request_text(request, request.url), headers) + rest) == Some(
            request,
        ),
        header_lines(head_text(request_text(request, request.url), headers) + rest) == headers,
{
    let first = request_text(request, request.url);
    let text = head_text(first, headers) + rest;
    let all = seq![first] + headers;
    lemma_request_is_line(request, request.url);
    lemma_request_words(request, request.url);
    lemma_join_front(first, headers);
    assert forall|i: int| 0 <= i < all.len() implies !(#[trigger] all[i]).contains('\n') by {
        if i > 0 {
            assert(all[i] == headers[i - 1]);
            assert(is_header(headers[i - 1]));
        }
    }
    let none = Seq::<char>::empty();
    lemma_lines_join(all, "\r\n"@ + rest);
    assert(text =~= join_lines(all) + ("\r\n"@ + rest));
    law_lines(none, rest);
    assert(none + "\r\n"@ + rest =~= "\r\n"@ + rest);
    let found = lines(text);
    assert(found == all + (seq![none] + lines(rest)));
    assert(found[0] == first);
    assert(found.drop_first() =~= headers + (seq![none] + lines(rest)));
    lemma_until_blank(headers, lines(rest));
}

proof fn lemma_lines_hold_no_line_feed(s: Seq<char>)
    ensures
        forall|i: int| 0 <= i < lines(s).len() ==> !(#[trigger] lines(s)[i]).contains('\n'),
    decreases s.len(),
{
    if s.len() > 0 {
        s.index_of_first_ensures('\n');
        match s.index_of_first('\n') {
            Some(k) => {
                let rest = s.subrange(k + 1, s.len() as int);
                let l = strip_cr(s.subrange(0, k));
                lemma_lines_hold_no_line_feed(rest);
                assert(!l.contains('\n')) by {
                    if l.contains('\n') {
                        let j = choose|j: int| 0 <= j < l.len() && l[j] == '\n';
                        assert(l[j] == s[j]);
                    }
                }
                assert forall|i: int| 0 <= i < lines(s).len() implies !(
                #[trigger] lines(s)[i]).contains('\n') by {
                    if i > 0 {
                        assert(lines(s)[i] == lines(rest)[i - 1]);
                    }
                }
            },
            None => {},
        }
    }
}

proof fn lemma_until_blank_holds(list: Seq<Seq<char>>)
    requires
        forall|i: int| 0 <= i < list.len() ==> !(#[trigger] list[i]).contains('\n'),
    ensures
        all_headers(until_blank(list)),
    decreases list.len(),
{
    if list.len() > 0 && list[0].len() > 0 {
        let rest = list.drop_first();
        assert forall|i: int| 0 <= i < rest.len() implies !(#[trigger] rest[i]).contains('\n') by {
            assert(rest[i] == list[i + 1]);
        }
        lemma_until_blank_holds(rest);
        let u = until_blank(list);
        assert forall|i: int| 0 <= i < u.len() implies is_header(#[trigger] u[i]) by {
            if i > 0 {
                assert(u[i] == until_blank(rest)[i - 1]);
            } else {
                assert(!list[0].contains('\n'));
            }
        }
    }
}

proof fn lemma_header_lines_are_headers(text: Seq<char>)
    ensures
        all_headers(header_lines(text)),
{
    if lines(text).len() > 0 {
        lemma_lines_hold_no_line_feed(text);
        let rest = lines(text).drop_first();
        assert forall|i: int| 0 <= i < rest.len() implies !(#[trigger] rest[i]).contains('\n') by {
            assert(rest[i] == lines(text)[i + 1]);
        }
        lemma_until_blank_holds(rest);
    }
}

proof fn lemma_kept_are_headers(headers: Seq<Seq<char>>)
    requires
        all_headers(headers),
    ensures
        all_headers(kept_headers(headers)),
{
    let keep = |line: Seq<char>| !is_proxy_line(line);
    let kept = kept_headers(headers);
    assert forall|i: int| 0 <= i < kept.len() implies is_header(#[trigger] kept[i]) by {
        assert(kept.contains(kept[i]));
        headers.lemma_filter_contains_rev(keep, kept[i]);
        let j = choose|j: int| 0 <= j < headers.len() && headers[j] == kept[i];
        assert(is_header(headers[j]));
    }
}

proof fn lemma_words_are_words(s: Seq<char>)
    ensures
        forall|i: int| 0 <= i < words(s).len() ==> is_word(#[trigger] words(s)[i]),
    decreases s.len(),
{
    let t = trim_start(s);
    lemma_trim_start_len(s);
    if t.len() > 0 {
        lemma_word_len(t);
        let k = word_len(t) as int;
        let rest = t.subrange(k, t.len() as int);
        lemma_words_are_words(rest);
        assert(is_word(t.subrange(0, k)));
        assert forall|i: int| 0 <= i < words(s).len() implies is_word(#[trigger] words(s)[i]) by {
            if i > 0 {
                assert(words(s)[i] == words(rest)[i - 1]);
            }
        }
    }
}

proof fn lemma_path_is_word(url: Seq<char>)
    requires
        no_white(url),
    ensures
        is_word(url_parts(url).2),
{
    reveal_strlit("http://");
    reveal_strlit("https://");
    reveal_strlit("/");
    law_url_is_complete(url);
    after_scheme(url).index_of_first_ensures('/');
}

/// The head that is sent on reads as the request it stands for: the same method and version,
/// the path in place of the URL, and the headers that are kept, in their order.
pub proof fn law_sent_head_reads_back(request: RequestLineModel, text: Seq<char>, data: Seq<u8>)
    requires
        is_word(request.method),
        no_white(request.url),
        is_word(request.version),
    ensures
        request_line(forwarded(request, text, data).head) == Some(
            (RequestLineModel { url: url_parts(request.url).2, ..request }),
        ),
        header_lines(forwarded(request, text, data).head) == kept_headers(header_lines(text)),
{
    let path = url_parts(request.url).2;
    let sent = RequestLineModel { url: path, ..request };
    let head = forwarded(request, text, data).head;
    lemma_path_is_word(request.url);
    lemma_header_lines_are_headers(text);
    lemma_kept_are_headers(header_lines(text));
    law_request_reads_back(sent, kept_headers(header_lines(text)), Seq::empty());
    assert(head + Seq::<char>::empty() =~= head);
    assert(request_text(sent, path) == request_text(request, path));
}

/// Whatever plain request is sent on, its head reads as the request it stands for.
pub proof fn law_plain_head_reads_back(text: Seq<char>, data: Seq<u8>)
    requires
        http_plan(text, data) is Forward,
    ensures
        http_plan(text, data) matches HttpPlanModel::Forward(request, f) ==> {
            &&& request_line(text) == Some(request)
            &&& request_line(f.head) == Some((RequestLineModel { url: f.path, ..request }))
            &&& header_lines(f.head) == kept_headers(header_lines(text))
        },
{
    let request = request_line(text).unwrap();
    let w = words(first_line(text));
    lemma_words_are_words(first_line(text));
    assert(is_word(w[0]) && is_word(w[1]) && is_word(w[2]));
    law_sent_head_reads_back(request, text, data);
}

/// Whatever request through TLS is sent on, its head reads as the request it stands for, unless
/// white space got into the URL from the `Host` header.
pub proof fn law_tls_head_reads_back(text: Seq<char>, data: Seq<u8>)
    requires
        tls_plan(text, data) matches TlsPlanModel::Forward(request, _) && no_white(request.url),
    ensures
        tls_plan(text, data) matches TlsPlanModel::Forward(request, f) ==> {
            &&& request_line(f.head) == Some((RequestLineModel { url: f.path, ..request }))
            &&& header_lines(f.head) == kept_headers(header_lines(text))
        },
{
    let w = words(first_line(text));
    lemma_words_are_words(first_line(text));
    assert(is_word(w[0]) && is_word(w[2]));
    if let TlsPlanModel::Forward(request, _) = tls_plan(text, data) {
        law_sent_head_reads_back(request, text, data);
    }
}

/// `line` begins with `name` in capital or small ASCII letters.
pub open spec fn begins_in_any_case(line: Seq<char>, name: Seq<char>) -> bool {
    &&& name.len() <= line.len()
    &&& is_ascii_chars(line.subrange(0, name.len() as int))
    &&& ascii_lowercase(line.subrange(0, name.len() as int)) == name
}

/// The first `n` characters of `line`, or all of it where it is shorter, are ASCII.
pub open spec fn ascii_lead(line: Seq<char>, n: int) -> bool {
    if n <= line.len() {
        is_ascii_chars(line.subrange(0, n))
    } else {
        is_ascii_chars(line)
    }
}

proof fn lemma_prefix_in_any_case(line: Seq<char>, name: Seq<char>)
    requires
        lowers_ascii(line, lowercase(line)),
    ensures
        begins_in_any_case(line, name) ==> starts_with(lowercase(line), name),
        ascii_lead(line, name.len() as int) ==> starts_with(lowercase(line), name)
            == begins_in_any_case(line, name),
{
    let n = name.len() as int;
    if ascii_lead(line, n) && n <= line.len() {
        let lead = line.subrange(0, n);
        assert(ascii_lowercase(lead).is_prefix_of(lowercase(line)));
        assert(ascii_lowercase(lead).len() == n);
    }
}

proof fn lemma_kept_in_order(headers: Seq<Seq<char>>)
    requires
        cases_known(headers),
        forall|i: int| 0 <= i < headers.len() ==> ascii_lead(#[trigger] headers[i], 6),
    ensures
        kept_headers(headers) == headers.filter(
            |line: Seq<char>| !begins_in_any_case(line, "proxy-"@),
        ),
    decreases headers.len(),
{
    reveal(Seq::filter);
    reveal_strlit("proxy-");
    if headers.len() > 0 {
        let before = headers.drop_last();
        let n = headers.len() - 1;
        assert forall|i: int| 0 <= i < before.len() implies lowers_ascii(
            #[trigger] before[i],
            lowercase(before[i]),
        ) && ascii_lead(before[i], 6) by {
            assert(before[i] == headers[i]);
        }
        lemma_kept_in_order(before);
        assert(lowers_ascii(headers[n], lowercase(headers[n])) && ascii_lead(headers[n], 6));
        lemma_prefix_in_any_case(headers[n], "proxy-"@);
    }
}

/// A header whose name begins with `Proxy-`, in capital or small letters, is not sent on;
/// every other header that begins in ASCII is. Where all headers begin so, those that are sent
/// on are just the others, in the order in which they came.
pub proof fn law_proxy_headers_stay_behind(headers: Seq<Seq<char>>)
    requires
        cases_known(headers),
    ensures
        forall|i: int|
            0 <= i < kept_headers(headers).len() ==> !begins_in_any_case(
                #[trigger] kept_headers(headers)[i],
                "proxy-"@,
            ),
        forall|i: int|
            0 <= i < headers.len() && ascii_lead(#[trigger] headers[i], 6) && !begins_in_any_case(
                headers[i],
                "proxy-"@,
            ) ==> kept_headers(headers).contains(headers[i]),
        (forall|i: int| 0 <= i < headers.len() ==> ascii_lead(#[trigger] headers[i], 6))
            ==> kept_headers(headers) == headers.filter(
            |line: Seq<char>| !begins_in_any_case(line, "proxy-"@),
        ),
{
    reveal_strlit("proxy-");
    if forall|i: int| 0 <= i < headers.len() ==> ascii_lead(#[trigger] headers[i], 6) {
        lemma_kept_in_order(headers);
    }
    let keep = |line: Seq<char>| !is_proxy_line(line);
    let kept = kept_headers(headers);
    assert forall|i: int| 0 <= i < kept.len() implies !begins_in_any_case(
        #[trigger] kept[i],
        "proxy-"@,
    ) by {
        assert(kept.contains(kept[i]));
        headers.lemma_filter_contains_rev(keep, kept[i]);
        let j = choose|j: int| 0 <= j < headers.len() && headers[j] == kept[i];
        assert(lowers_ascii(headers[j], lowercase(headers[j])));
        lemma_prefix_in_any_case(headers[j], "proxy-"@);
        headers.lemma_filter_pred(keep, i);
    }
    assert forall|i: int|
        0 <= i < headers.len() && ascii_lead(#[trigger] headers[i], 6) && !begins_in_any_case(
            headers[i],
            "proxy-"@,
        ) implies kept.contains(headers[i]) by {
        assert(lowers_ascii(headers[i], lowercase(headers[i])));
        lemma_prefix_in_any_case(headers[i], "proxy-"@);
        headers.lemma_filter_contains(keep, i);
    }
}

proof fn lemma_no_blank_line(list: Seq<Seq<char>>)
    requires
        all_headers(list),
    ensures
        forall|i: int| !#[trigger] occurs_at(join_lines(list), "\r\n\r\n"@, i),
    decreases list.len(),
{
    reveal_strlit("\r\n\r\n");
    reveal_strlit("\r\n");
    let blank = "\r\n\r\n"@;
    let all = join_lines(list);
    if list.len() > 0 {
        let init = list.drop_last();
        let l = list.last();
        let before = join_lines(init);
        assert forall|i: int| 0 <= i < init.len() implies is_header(#[trigger] init[i]) by {
            assert(init[i] == list[i]);
        }
        lemma_no_blank_line(init);
        assert(is_header(list[list.len() - 1]));
        assert forall|i: int| !#[trigger] occurs_at(all, blank, i) by {
            if occurs_at(all, blank, i) {
                assert(all.subrange(i, i + 4)[1] == '\n');
                assert(all.subrange(i, i + 4)[3] == '\n');
                assert(all[i + 1] == '\n' && all[i + 3] == '\n');
                if i + 4 <= before.len() {
                    assert(before.subrange(i, i + 4) =~= all.subrange(i, i + 4));
                    assert(occurs_at(before, blank, i));
                } else {
                    assert(i + 3 == all.len() - 1) by {
                        if i + 3 < before.len() + l.len() {
                            assert(all[i + 3] == l[i + 3 - before.len()]);
                            assert(l.contains('\n'));
                        }
                    }
                    assert(all[i + 1] == l[i + 1 - before.len()]);
                    assert(l.contains('\n'));
                }
            }
        }
    }
}

proof fn lemma_head_ends_once(first: Seq<char>, headers: Seq<Seq<char>>)
    requires
        is_header(first),
        all_headers(headers),
    ensures
        first_occurs_at(
            head_text(first, headers),
            "\r\n\r\n"@,
            head_text(first, headers).len() - 4,
        ),
{
    reveal_strlit("\r\n\r\n");
    reveal_strlit("\r\n");
    let blank = "\r\n\r\n"@;
    let list = seq![first] + headers;
    let before = join_lines(list);
    let head = head_text(first, headers);
    lemma_join_front(first, headers);
    assert forall|i: int| 0 <= i < list.len() implies is_header(#[trigger] list[i]) by {
        if i > 0 {
            assert(list[i] == headers[i - 1]);
        }
    }
    lemma_no_blank_line(list);
    assert(before =~= join_lines(list.drop_last()) + list.last() + "\r\n"@);
    let n = head.len() as int;
    assert(head.subrange(n - 4, n) =~= blank);
    assert forall|j: int| 0 <= j < n - 4 implies !#[trigger] occurs_at(head, blank, j) by {
        if occurs_at(head, blank, j) {
            assert(head.subrange(j, j + 4)[3] == '\n');
            if j + 4 <= before.len() {
                assert(before.subrange(j, j + 4) =~= head.subrange(j, j + 4));
                assert(occurs_at(before, blank, j));
            } else {
                assert(head[j + 3] == '\r');
            }
        }
    }
}

/// The body of a request is what follows its head, byte for byte, wherever the head is UTF-8:
/// `data` is the encoding of `head`, which ends at its first empty line, and `body`. The body
/// may be any bytes.
pub proof fn law_body_unchanged(head: Seq<char>, body: Seq<u8>, text: Seq<char>)
    requires
        first_occurs_at(head, "\r\n\r\n"@, head.len() - 4),
        reads_as(encode_utf8(head) + body, text),
    ensures
        request_body(text, encode_utf8(head) + body) == Some(body),
        head.is_prefix_of(text),
{
    let blank = "\r\n\r\n"@;
    let coded = encode_utf8(head);
    let data = coded + body;
    let n = head.len() as int;
    lemma_encode_blank_line();
    encode_utf8_valid_utf8(head);
    encode_utf8_decode_utf8(head);
    assert(data.subrange(0, coded.len() as int) =~= coded);
    assert(head.is_prefix_of(text));
    assert(head == text.subrange(0, n));
    assert(head == head.subrange(0, n - 4) + blank);
    lemma_encode_concat(head.subrange(0, n - 4), blank);
    assert(first_occurs_at(text, blank, n - 4)) by {
        assert(text.subrange(n - 4, n) =~= head.subrange(n - 4, n));
        assert forall|j: int| 0 <= j < n - 4 implies !#[trigger] occurs_at(text, blank, j) by {
            assert(text.subrange(j, j + 4) =~= head.subrange(j, j + 4));
            assert(!occurs_at(head, blank, j));
        }
    }
    lemma_find_text(text, blank, n - 4);
    assert(text.subrange(0, n - 4) =~= head.subrange(0, n - 4));
    assert(data.subrange(coded.len() as int, data.len() as int) =~= body);
}

/// A request that is UTF-8 throughout always has a body, be it empty.
pub proof fn law_utf8_request_has_body(data: Seq<u8>, text: Seq<char>)
    requires
        valid_utf8(data),
        reads_as(data, text),
    ensures
        request_body(text, data) is Some,
{
    let blank = "\r\n\r\n"@;
    decode_utf8_encode_utf8(data);
    match find_text(text, blank) {
        Some(i) => {
            lemma_find_text(text, blank, i);
            lemma_encode_blank_line();
            let rest = text.subrange(i + 4, text.len() as int);
            assert(text == text.subrange(0, i) + blank + rest);
            lemma_encode_concat(text.subrange(0, i) + blank, rest);
            lemma_encode_concat(text.subrange(0, i), blank);
        },
        None => {},
    }
}

/// A plain request with a head in UTF-8 is sent to the host and port that its URL names, with
/// the path in place of the URL, without the headers that are meant for the proxy, and with
/// its body unchanged.
pub proof fn law_plain_request_is_sent_on(
    request: RequestLineModel,
    headers: Seq<Seq<char>>,
    body: Seq<u8>,
    text: Seq<char>,
)
    requires
        is_word(request.method),
        is_word(request.url),
        is_word(request.version),
        request.method != "CONNECT"@,
        all_headers(headers),
        reads_as(
            encode_utf8(head_text(request_text(request, request.url), headers)) + body,
            text,
        ),
    ensures
        http_plan(
            text,
            encode_utf8(head_text(request_text(request, request.url), headers)) + body,
        ) matches HttpPlanModel::Forward(r, f) && {
            &&& r == request
            &&& (f.host, f.port, f.path) == url_parts(request.url)
            &&& f.address == address(f.host, f.port)
            &&& f.head == head_text(request_text(request, f.path), kept_headers(headers))
            &&& f.body == Some(body)
        },
{
    lemma_written_request(request, headers, body, text);
}

proof fn lemma_written_request(
    request: RequestLineModel,
    headers: Seq<Seq<char>>,
    body: Seq<u8>,
    text: Seq<char>,
)
    requires
        is_word(request.method),
        is_word(request.url),
        is_word(request.version),
        all_headers(headers),
        reads_as(
            encode_utf8(head_text(request_text(request, request.url), headers)) + body,
            text,
        ),
    ensures
        (encode_utf8(head_text(request_text(request, request.url), headers)) + body).len() > 0,
        request_line(text) == Some(request),
        header_lines(text) == headers,
        request_body(
            text,
            encode_utf8(head_text(request_text(request, request.url), headers)) + body,
        ) == Some(body),
{
    let first = request_text(request, request.url);
    let head = head_text(first, headers);
    let data = encode_utf8(head) + body;
    lemma_request_is_line(request, request.url);
    lemma_head_ends_once(first, headers);
    law_body_unchanged(head, body, text);
    let rest = text.subrange(head.len() as int, text.len() as int);
    assert(text =~= head + rest);
    law_request_reads_back(request, headers, rest);
    assert(data.len() > 0) by {
        lemma_encode_blank_line();
        let n = head.len() as int;
        assert(head == head.subrange(0, n - 4) + "\r\n\r\n"@);
        lemma_encode_concat(head.subrange(0, n - 4), "\r\n\r\n"@);
    }
}

/// A tunnel to a host without colon and a port leads to just that address.
pub proof fn law_tunnel_leads_to_address(host: Seq<char>, port: u16)
    requires
        !host.contains(':'),
    ensures
        connect_plan(address(host, port)) == (ConnectPlanModel::Dial {
            host,
            port,
            address: address(host, port),
        }),
{
    let d = crate::number::decimal(port as int);
    let a = address(host, port);
    let n = host.len() as int;
    reveal_strlit(":");
    crate::number::law_port_reads_back(port);
    assert forall|j: int| 0 <= j < a.len() && j != n implies a[j] != ':' by {
        if j < n {
            assert(a[j] == host[j]);
        } else {
            assert(a[j] == d[j - n - 1]);
            assert(crate::number::is_digit(d[j - n - 1]));
        }
    }
    assert(a[n] == ':');
    assert(a.contains(':'));
    a.index_of_first_ensures(':');
    a.index_of_last_ensures(':');
    assert(a.subrange(n + 1, a.len() as int) =~= d);
    assert(a.subrange(0, n) =~= host);
}

/// `c` stands in `s` at position `i` and nowhere else.
pub open spec fn only_at(s: Seq<char>, c: char, i: int) -> bool {
    &&& 0 <= i < s.len()
    &&& s[i] == c
    &&& forall|j: int| 0 <= j < s.len() && j != i ==> #[trigger] s[j] != c
}

/// A tunnel is refused just where the URL does not hold exactly one colon.
pub proof fn law_tunnel_refused(url: Seq<char>)
    ensures
        connect_plan(url) is Refuse <==> !exists|i: int| only_at(url, ':', i),
{
    url.index_of_first_ensures(':');
    url.index_of_last_ensures(':');
    if connect_plan(url) is Dial {
        let i = url.index_of_first(':').unwrap();
        assert(only_at(url, ':', i));
    }
    if exists|i: int| only_at(url, ':', i) {
        let i = choose|i: int| only_at(url, ':', i);
        assert(url[i] == ':');
        assert(url.contains(':'));
    }
}

proof fn lemma_after_ascii_bytes(s: Seq<char>, n: int)
    requires
        0 <= n <= s.len(),
        is_ascii_chars(s.subrange(0, n)),
    ensures
        after_bytes(s, n) == Some(s.subrange(n, s.len() as int)),
    decreases n,
{
    if n == 0 {
        assert(s.subrange(0, s.len() as int) =~= s);
    } else {
        let rest = s.drop_first();
        let lead = s.subrange(0, n);
        assert(lead[0] == s[0]);
        assert forall|i: int| 0 <= i < n - 1 implies '\0' <= #[trigger] rest.subrange(0, n - 1)[i]
            <= '\u{7f}' by {
            assert(rest.subrange(0, n - 1)[i] == lead[i + 1]);
        }
        lemma_after_ascii_bytes(rest, n - 1);
        assert(rest.subrange(n - 1, rest.len() as int) =~= s.subrange(n, s.len() as int));
    }
}

/// The first header that begins with `Host:`, in capital or small letters and perhaps behind
/// white space, gives its value: what follows the colon, without white space around it.
pub proof fn law_host_header_is_found(headers: Seq<Seq<char>>, i: int)
    requires
        host_cases_known(headers),
        0 <= i < headers.len(),
        begins_in_any_case(trim(headers[i]), "host:"@),
        forall|j: int|
            0 <= j < i ==> ascii_lead(trim(#[trigger] headers[j]), 5) && !begins_in_any_case(
                trim(headers[j]),
                "host:"@,
            ),
    ensures
        host_value(headers) == Some(
            trim(trim(headers[i]).subrange(5, trim(headers[i]).len() as int)),
        ),
    decreases i,
{
    reveal_strlit("host:");
    lemma_prefix_in_any_case(trim(headers[0]), "host:"@);
    if i == 0 {
        lemma_after_ascii_bytes(trim(headers[0]), 5);
    } else {
        let rest = headers.drop_first();
        assert(rest[i - 1] == headers[i]);
        assert forall|j: int| 0 <= j < i - 1 implies ascii_lead(trim(#[trigger] rest[j]), 5)
            && !begins_in_any_case(trim(rest[j]), "host:"@) by {
            assert(rest[j] == headers[j + 1]);
        }
        assert(ascii_lead(trim(headers[0]), 5));
        law_host_header_is_found(rest, i - 1);
    }
}

/// Through TLS the `Host` header alone decides where a request goes: to the port that it
/// names, or else to that of the secure scheme, whatever host stood in the URL. The path is
/// that of the URL.
pub proof fn law_host_header_decides(url: Seq<char>, host: Seq<char>, port: u16)
    requires
        is_path(url) || is_http(url) || is_https(url),
        !host.contains('/'),
    ensures
        secure_url(url, Some(address(host, port))) matches Some(u) && url_parts(u) == (
            or_localhost(unbracketed(host)),
            port,
            url_parts(url).2,
        ),
        host.len() > 0 && (!host.contains(':') || ends_in(host, ']')) ==> (secure_url(
            url,
            Some(host),
        ) matches Some(u) && url_parts(u) == (
            or_localhost(unbracketed(host)),
            443u16,
            url_parts(url).2,
        )),
{
    let path = path_of(after_scheme(url));
    law_url_is_complete(url);
    if is_path(url) {
        law_bare_path(url);
    }
    law_url_with_port(host, port, path);
    assert("https://"@ + address(host, port) + path =~= "https://"@ + (address(host, port) + path));
    assert("https://"@ + host + path =~= "https://"@ + (host + path));
    if host.len() > 0 && (!host.contains(':') || ends_in(host, ']')) {
        law_url_without_port(host, path);
    }
}

/// A request through TLS with a head in UTF-8 is sent where its URL, after the `Host` header
/// was put into it, says; with the path in place of the URL, without the headers that are
/// meant for the proxy, and with its body unchanged.
pub proof fn law_tls_request_is_sent_on(
    request: RequestLineModel,
    headers: Seq<Seq<char>>,
    body: Seq<u8>,
    text: Seq<char>,
)
    requires
        is_word(request.method),
        is_word(request.url),
        is_word(request.version),
        request.method != "CONNECT"@,
        all_headers(headers),
        secure_url(request.url, host_value(headers)) is Some,
        reads_as(
            encode_utf8(head_text(request_text(request, request.url), headers)) + body,
            text,
        ),
    ensures
        tls_plan(
            text,
            encode_utf8(head_text(request_text(request, request.url), headers)) + body,
        ) matches TlsPlanModel::Forward(r, f) && {
            &&& Some(r.url) == secure_url(request.url, host_value(headers))
            &&& r.method == request.method
            &&& r.version == request.version
            &&& (f.host, f.port, f.path) == url_parts(r.url)
            &&& f.address == address(f.host, f.port)
            &&& f.head == head_text(request_text(request, f.path), kept_headers(headers))
            &&& f.body == Some(body)
        },
{
    lemma_written_request(request, headers, body, text);
}

/// A request through TLS is refused just where it has no `Host` header and its URL is a bare
/// path or has the domain 127.0.0.1, whatever its method; so no request without header goes to
/// that host. The address elsewhere in the URL does not count.
pub proof fn law_tls_request_refused(text: Seq<char>, data: Seq<u8>)
    requires
        data.len() > 0,
        request_line(text) is Some,
    ensures
        tls_plan(text, data) is NoTarget <==> {
            let url = request_line(text).unwrap().url;
            &&& host_value(header_lines(text)) is None
            &&& is_path(url) || is_own(url)
        },
        host_value(header_lines(text)) is None ==> (tls_plan(
            text,
            data,
        ) matches TlsPlanModel::Forward(_, f) ==> f.host != "127.0.0.1"@),
{
    let url = request_line(text).unwrap().url;
    if url_parts(url).0 == "127.0.0.1"@ {
        law_own_host_is_own_domain(url);
    }
}

/// The first line of a text ends at its first line feed, or at the carriage return before that;
/// a text without line feed is one line, and an empty text has an empty one.
pub proof fn law_first_line(line: Seq<char>, rest: Seq<char>)
    requires
        !line.contains('\n'),
    ensures
        first_line(line + "\r\n"@ + rest) == line,
        line.len() == 0 || line.last() != '\r' ==> first_line(line + "\n"@ + rest) == line,
        first_line(line) == line,
{
    law_lines(line, rest);
    assert((seq![line] + lines(rest))[0] == line);
    if line.len() == 0 {
        assert(line =~= Seq::<char>::empty());
    }
}

/// The request line of a text is made of the first three words of its first line, whatever
/// white space stands before, between and behind them, and whatever follows.
pub proof fn law_request_line(
    text: Seq<char>,
    request: RequestLineModel,
    lead: Seq<char>,
    gap: Seq<char>,
    other_gap: Seq<char>,
    rest: Seq<char>,
)
    requires
        is_word(request.method),
        is_word(request.url),
        is_word(request.version),
        all_white(lead),
        all_white(gap) && gap.len() > 0,
        all_white(other_gap) && other_gap.len() > 0,
        rest.len() > 0 ==> is_white(rest[0]),
        first_line(text) == lead + request.method + gap + request.url + other_gap
            + request.version + rest,
    ensures
        request_line(text) == Some(request),
{
    let last = other_gap + request.version + rest;
    let more = gap + request.url + last;
    assert(is_white(gap[0]) && is_white(other_gap[0]));
    assert(more[0] == gap[0] && last[0] == other_gap[0]);
    law_words(other_gap, request.version, rest);
    law_words(gap, request.url, last);
    law_words(lead, request.method, more);
    assert(first_line(text) =~= lead + request.method + more);
    let w = words(first_line(text));
    assert(w == seq![request.method] + (seq![request.url] + (seq![request.version] + words(
        rest,
    ))));
    assert(w[0] == request.method && w[1] == request.url && w[2] == request.version);
}

/// A first line with fewer than three words, none among them too, is no request line.
pub proof fn law_no_request_line(
    text: Seq<char>,
    lead: Seq<char>,
    word: Seq<char>,
    gap: Seq<char>,
    other: Seq<char>,
    trail: Seq<char>,
)
    requires
        is_word(word),
        is_word(other),
        all_white(lead),
        all_white(gap) && gap.len() > 0,
        all_white(trail),
        ({
            ||| first_line(text) == lead
            ||| first_line(text) == lead + word + trail
            ||| first_line(text) == lead + word + gap + other + trail
        }),
    ensures
        request_line(text) is None,
{
    law_words(trail, word, Seq::empty());
    assert(trail.len() > 0 ==> is_white(trail[0]));
    law_words(lead, word, trail);
    law_words(gap, other, trail);
    let more = gap + other + trail;
    assert(is_white(gap[0]));
    assert(more[0] == gap[0]);
    law_words(lead, word, more);
    assert(lead + word + gap + other + trail =~= lead + word + more);
}

proof fn lemma_blank_ends(list: Seq<Seq<char>>) -> (k: int)
    ensures
        0 <= k <= list.len(),
        until_blank(list) == list.take(k),
        forall|i: int| 0 <= i < k ==> #[trigger] list[i].len() > 0,
        k == list.len() || list[k].len() == 0,
    decreases list.len(),
{
    if list.len() == 0 || list[0].len() == 0 {
        assert(list.take(0) =~= Seq::<Seq<char>>::empty());
        0
    } else {
        let rest = list.drop_first();
        let k = lemma_blank_ends(rest);
        assert(seq![list[0]] + rest.take(k) =~= list.take(k + 1));
        assert forall|i: int| 0 <= i < k + 1 implies #[trigger] list[i].len() > 0 by {
            if i > 0 {
                assert(list[i] == rest[i - 1]);
            }
        }
        if k < rest.len() {
            assert(list[k + 1] == rest[k]);
        }
        k + 1
    }
}

/// The header lines of a text are its lines behind the first, all of them, up to an empty line
/// or to the end.
pub proof fn law_header_lines(text: Seq<char>)
    ensures
        lines(text).len() == 0 ==> header_lines(text).len() == 0,
        lines(text).len() > 0 ==> exists|k: int|
            {
                &&& 1 <= k <= lines(text).len()
                &&& header_lines(text) == #[trigger] lines(text).subrange(1, k)
                &&& forall|i: int| 1 <= i < k ==> #[trigger] lines(text)[i].len() > 0
                &&& k == lines(text).len() || lines(text)[k].len() == 0
            },
{
    let all = lines(text);
    if all.len() > 0 {
        let rest = all.drop_first();
        let k = lemma_blank_ends(rest);
        assert(rest.take(k) =~= all.subrange(1, k + 1));
        assert forall|i: int| 1 <= i < k + 1 implies #[trigger] all[i].len() > 0 by {
            assert(all[i] == rest[i - 1]);
        }
        if k < rest.len() {
            assert(all[k + 1] == rest[k]);
        }
    }
}

/// Skipping bytes skips whole characters, just as many as those bytes encode; where no number
/// of characters takes so many bytes, nothing is left.
pub proof fn law_after_bytes(s: Seq<char>, n: int)
    ensures
        match after_bytes(s, n) {
            Some(rest) => exists|k: int|
                {
                    &&& 0 <= k <= s.len()
                    &&& encode_utf8(#[trigger] s.take(k)).len() == n
                    &&& rest == s.skip(k)
                },
            None => forall|k: int|
                0 <= k <= s.len() ==> encode_utf8(#[trigger] s.take(k)).len() != n,
        },
    decreases s.len(),
{
    assert(s.take(0) =~= Seq::<char>::empty());
    assert(encode_utf8(s.take(0)).len() == 0);
    if n == 0 {
        assert(s.skip(0) =~= s);
    } else if n < 0 || s.len() == 0 {
        assert forall|k: int| 0 <= k <= s.len() implies encode_utf8(#[trigger] s.take(k)).len()
            != n by {
            if s.len() == 0 {
                assert(s.take(k) =~= Seq::<char>::empty());
            }
        }
    } else {
        let rest = s.drop_first();
        let w = encode_scalar(s[0] as u32).len() as int;
        law_after_bytes(rest, n - w);
        assert forall|k: int| 1 <= k <= s.len() implies encode_utf8(#[trigger] s.take(k)).len()
            == w + encode_utf8(rest.take(k - 1)).len() by {
            assert(s.take(k)[0] == s[0]);
            assert(s.take(k).drop_first() =~= rest.take(k - 1));
        }
        match after_bytes(s, n) {
            Some(left) => {
                let k = choose|k: int|
                    {
                        &&& 0 <= k <= rest.len()
                        &&& encode_utf8(#[trigger] rest.take(k)).len() == n - w
                        &&& left == rest.skip(k)
                    };
                assert(encode_utf8(s.take(k + 1)).len() == w + encode_utf8(rest.take(k)).len());
                assert(left =~= s.skip(k + 1));
            },
            None => {
                assert forall|k: int| 0 <= k <= s.len() implies encode_utf8(
                    #[trigger] s.take(k),
                ).len() != n by {
                    if k > 0 {
                        assert(encode_utf8(rest.take(k - 1)).len() != n - w);
                    }
                }
            },
        }
    }
}

/// The `Host` header is the first line that, without white space around it and in lower case,
/// begins with `host:`; its value is what follows these five bytes, without white space around
/// it. Without such a line there is no value.
pub proof fn law_host_value(headers: Seq<Seq<char>>, i: int)
    requires
        0 <= i <= headers.len(),
        forall|j: int|
            0 <= j < i ==> !"host:"@.is_prefix_of(lowercase(trim(#[trigger] headers[j]))),
        i < headers.len() ==> "host:"@.is_prefix_of(lowercase(trim(headers[i]))),
    ensures
        i == headers.len() ==> host_value(headers) is None,
        i < headers.len() ==> host_value(headers) == match after_bytes(trim(headers[i]), 5) {
            Some(value) => Some(trim(value)),
            None => None,
        },
    decreases i,
{
    reveal_strlit("host:");
    if i > 0 {
        let rest = headers.drop_first();
        assert(!"host:"@.is_prefix_of(lowercase(trim(headers[0]))));
        assert forall|j: int| 0 <= j < i - 1 implies !"host:"@.is_prefix_of(
            lowercase(trim(#[trigger] rest[j])),
        ) by {
            assert(rest[j] == headers[j + 1]);
        }
        if i < headers.len() {
            assert(rest[i - 1] == headers[i]);
        }
        law_host_value(rest, i - 1);
    }
}

/// Where no header begins with `Host:`, in capital or small letters and perhaps behind white
/// space, there is no value, as far as the headers begin in ASCII.
pub proof fn law_no_host_header(headers: Seq<Seq<char>>)
    requires
        host_cases_known(headers),
        forall|j: int|
            0 <= j < headers.len() ==> ascii_lead(trim(#[trigger] headers[j]), 5)
                && !begins_in_any_case(trim(headers[j]), "host:"@),
    ensures
        host_value(headers) is None,
    decreases headers.len(),
{
    reveal_strlit("host:");
    if headers.len() > 0 {
        let rest = headers.drop_first();
        assert(ascii_lead(trim(headers[0]), 5));
        lemma_prefix_in_any_case(trim(headers[0]), "host:"@);
        assert forall|j: int| 0 <= j < rest.len() implies ascii_lead(trim(#[trigger] rest[j]), 5)
            && !begins_in_any_case(trim(rest[j]), "host:"@) by {
            assert(rest[j] == headers[j + 1]);
        }
        law_no_host_header(rest);
    }
}

/// The value of a `Host` header is just what stands behind the name, whatever it is made of, as
/// long as no white space is at its ends. The name may be in capital or small letters, and there
/// may be white space around all and behind the colon. Headers behind it do not matter, and
/// neither do others before it.
pub proof fn law_host_header_gives_its_value(
    before: Seq<Seq<char>>,
    lead: Seq<char>,
    name: Seq<char>,
    gap: Seq<char>,
    value: Seq<char>,
    trail: Seq<char>,
    behind: Seq<Seq<char>>,
)
    requires
        host_cases_known(before + seq![lead + name + gap + value + trail] + behind),
        forall|j: int|
            0 <= j < before.len() ==> ascii_lead(trim(#[trigger] before[j]), 5)
                && !begins_in_any_case(trim(before[j]), "host:"@),
        name.len() == 5,
        begins_in_any_case(name, "host:"@),
        all_white(lead),
        all_white(gap),
        all_white(trail),
        value.len() > 0 ==> !is_white(value[0]) && !is_white(value.last()),
    ensures
        host_value(before + seq![lead + name + gap + value + trail] + behind) == Some(value),
{
    reveal_strlit("host:");
    let line = lead + name + gap + value + trail;
    let headers = before + seq![line] + behind;
    let i = before.len() as int;
    let none = Seq::<char>::empty();
    assert(name.subrange(0, 5) =~= name);
    assert(ascii_lowercase(name) == "host:"@);
    assert(ascii_lowercase(name)[0] == 'h' && ascii_lowercase(name)[4] == ':');
    assert(!is_white(name[0]) && !is_white(name[4])) by {
        assert(ascii_lower(name[0]) == 'h');
        assert(ascii_lower(name[4]) == ':');
    }
    let kept = if value.len() == 0 {
        none
    } else {
        gap + value
    };
    let cut = if value.len() == 0 {
        gap + trail
    } else {
        trail
    };
    let field = name + kept;
    assert(line =~= lead + field + cut);
    assert(all_white(cut)) by {
        assert forall|k: int| 0 <= k < cut.len() implies is_white(#[trigger] cut[k]) by {
            if value.len() == 0 {
                if k < gap.len() {
                    assert(cut[k] == gap[k]);
                } else {
                    assert(cut[k] == trail[k - gap.len()]);
                }
            }
        }
    }
    assert(field[0] == name[0]);
    assert(!is_white(field.last())) by {
        if value.len() == 0 {
            assert(field.last() == name[4]);
        } else {
            assert(field.last() == value.last());
        }
    }
    law_trim(lead, field, cut);
    assert(headers[i] == line);
    assert(field.subrange(0, 5) =~= name);
    assert forall|j: int| 0 <= j < i implies ascii_lead(trim(#[trigger] headers[j]), 5)
        && !begins_in_any_case(trim(headers[j]), "host:"@) by {
        assert(headers[j] == before[j]);
    }
    law_host_header_is_found(headers, i);
    assert(field.subrange(5, field.len() as int) =~= kept);
    if value.len() == 0 {
        law_trim(none, none, none);
        assert(none + none + none =~= none);
        assert(value =~= none);
    } else {
        law_trim(gap, value, none);
        assert(gap + value + none =~= kept);
    }
}

/// A line `Host: ` with a value behind it gives just that value, where it comes before any
/// other of its kind.
pub proof fn law_host_line(before: Seq<Seq<char>>, value: Seq<char>, behind: Seq<Seq<char>>)
    requires
        host_cases_known(before + seq!["Host: "@ + value] + behind),
        forall|j: int|
            0 <= j < before.len() ==> ascii_lead(trim(#[trigger] before[j]), 5)
                && !begins_in_any_case(trim(before[j]), "host:"@),
        value.len() > 0 ==> !is_white(value[0]) && !is_white(value.last()),
    ensures
        host_value(before + seq!["Host: "@ + value] + behind) == Some(value),
{
    reveal_strlit("Host: ");
    reveal_strlit("Host:");
    reveal_strlit("host:");
    reveal_strlit(" ");
    let none = Seq::<char>::empty();
    assert(none + "Host:"@ + " "@ + value + none =~= "Host: "@ + value);
    assert("Host:"@.subrange(0, 5) =~= "Host:"@);
    assert(is_ascii_chars("Host:"@));
    assert(ascii_lowercase("Host:"@) =~= "host:"@);
    law_host_header_gives_its_value(before, none, "Host:"@, " "@, value, none, behind);
}

/// The body of a request begins where the first empty line of its text ends, counted in the
/// bytes that the text takes up to there; where the data have fewer bytes, there is no body.
pub proof fn law_body_follows_first_empty_line(before: Seq<char>, behind: Seq<char>, data: Seq<u8>)
    requires
        forall|j: int|
            0 <= j < before.len() ==> !"\r\n\r\n"@.is_prefix_of(
                #[trigger] (before + "\r\n\r\n"@ + behind).skip(j),
            ),
    ensures
        request_body(before + "\r\n\r\n"@ + behind, data) == if encode_utf8(before).len() + 4
            <= data.len() {
            Some(data.skip(encode_utf8(before).len() as int + 4))
        } else {
            None
        },
{
    reveal_strlit("\r\n\r\n");
    let blank = "\r\n\r\n"@;
    let text = before + blank + behind;
    let n = before.len() as int;
    assert(blank.is_prefix_of(text.skip(n))) by {
        assert(text.skip(n).subrange(0, 4) =~= blank);
    }
    law_find_text(text, blank);
    match find_text(text, blank) {
        Some(i) => {
            assert(i == n) by {
                if i < n {
                    assert(!blank.is_prefix_of(text.skip(i)));
                } else if n < i {
                    assert(!blank.is_prefix_of(text.skip(n)));
                }
            }
        },
        None => {},
    }
    assert(text.subrange(0, n) =~= before);
    let k = encode_utf8(before).len() as int + 4;
    if k <= data.len() {
        assert(data.subrange(k, data.len() as int) =~= data.skip(k));
    }
}

/// A request without empty line has an empty body.
pub proof fn law_no_empty_line_no_body(text: Seq<char>, data: Seq<u8>)
    requires
        forall|j: int|
            0 <= j <= text.len() ==> !"\r\n\r\n"@.is_prefix_of(#[trigger] text.skip(j)),
    ensures
        request_body(text, data) == Some(Seq::<u8>::empty()),
{
    law_find_text(text, "\r\n\r\n"@);
}

/// `f` sends `request` on with those of `headers` that are not for the proxy: to the address of
/// the host and the port that its URL names, with a head of one line that holds method, path and
/// version, a line for each header, and an empty line.
pub open spec fn is_sent_as(
    f: ForwardModel,
    request: RequestLineModel,
    headers: Seq<Seq<char>>,
) -> bool {
    &&& (f.host, f.port, f.path) == url_parts(request.url)
    &&& f.address == f.host + seq![':'] + decimal(f.port as int)
    &&& f.head == request.method + seq![' '] + f.path + seq![' '] + request.version + seq![
        '\r',
        '\n',
    ] + headers.filter(|line: Seq<char>| !"proxy-"@.is_prefix_of(lowercase(line))).map_values(
        |line: Seq<char>| line + seq!['\r', '\n'],
    ).flatten() + seq!['\r', '\n']
}

proof fn lemma_join_is_flat(list: Seq<Seq<char>>)
    ensures
        join_lines(list) == list.map_values(
            |line: Seq<char>| line + seq!['\r', '\n'],
        ).flatten(),
    decreases list.len(),
{
    reveal_strlit("\r\n");
    let ended = |line: Seq<char>| line + seq!['\r', '\n'];
    let all = list.map_values(ended);
    if list.len() == 0 {
        assert(all =~= Seq::<Seq<char>>::empty());
    } else {
        let before = list.drop_last();
        lemma_join_is_flat(before);
        assert("\r\n"@ =~= seq!['\r', '\n']);
        assert(all =~= before.map_values(ended).push(ended(list.last())));
        before.map_values(ended).lemma_flatten_push(ended(list.last()));
        assert(join_lines(list) =~= join_lines(before) + ended(list.last()));
    }
}

proof fn lemma_is_sent_as(request: RequestLineModel, text: Seq<char>, data: Seq<u8>)
    ensures
        is_sent_as(forwarded(request, text, data), request, header_lines(text)),
        forwarded(request, text, data).body == request_body(text, data),
{
    reveal_strlit("\r\n");
    reveal_strlit(" ");
    let f = forwarded(request, text, data);
    let headers = header_lines(text);
    let keep = |line: Seq<char>| !"proxy-"@.is_prefix_of(lowercase(line));
    assert(keep =~= (|line: Seq<char>| !is_proxy_line(line)));
    assert(kept_headers(headers) == headers.filter(keep));
    lemma_join_is_flat(kept_headers(headers));
    law_address(f.host, f.port);
    assert("\r\n"@ =~= seq!['\r', '\n']);
    assert(" "@ =~= seq![' ']);
}

/// A plain request opens a tunnel just where its method is `CONNECT`, whatever headers and body
/// follow. Every other request is sent on, as its URL, its headers and its body say.
pub proof fn law_plain_request_plan(text: Seq<char>, data: Seq<u8>, request: RequestLineModel)
    requires
        data.len() > 0,
        request_line(text) == Some(request),
    ensures
        http_plan(text, data) == HttpPlanModel::Tunnel(request) <==> request.method == "CONNECT"@,
        http_plan(text, data) is Tunnel <==> request.method == "CONNECT"@,
        request.method != "CONNECT"@ ==> (http_plan(text, data) matches HttpPlanModel::Forward(
            r,
            f,
        ) && r == request && is_sent_as(f, request, header_lines(text)) && f.body == request_body(
            text,
            data,
        )),
{
    lemma_is_sent_as(request, text, data);
}

/// Nothing is made of no data, and of data without request line only a complaint about their
/// first line; neither comes of a request.
pub proof fn law_plain_data_without_request(text: Seq<char>, data: Seq<u8>)
    ensures
        http_plan(text, data) is Empty <==> data.len() == 0,
        http_plan(text, data) is Malformed <==> data.len() > 0 && request_line(text) is None,
        http_plan(text, data) matches HttpPlanModel::Malformed(line) ==> line == first_line(text),
{
}

/// A request to open a tunnel is read as one, whatever headers and body it comes with, and the
/// request line that it gives is its own.
pub proof fn law_written_connect_opens_tunnel(
    request: RequestLineModel,
    headers: Seq<Seq<char>>,
    body: Seq<u8>,
    text: Seq<char>,
)
    requires
        request.method == "CONNECT"@,
        is_word(request.url),
        is_word(request.version),
        all_headers(headers),
        reads_as(
            encode_utf8(head_text(request_text(request, request.url), headers)) + body,
            text,
        ),
    ensures
        http_plan(
            text,
            encode_utf8(head_text(request_text(request, request.url), headers)) + body,
        ) == HttpPlanModel::Tunnel(request),
{
    reveal_strlit("CONNECT");
    assert(is_word(request.method));
    lemma_written_request(request, headers, body, text);
}

/// A plain request goes to just the host and the port that stand in its URL, asks there for just
/// the path that stands behind them, and brings its body along.
pub proof fn law_plain_request_goes_to_its_url(
    request: RequestLineModel,
    host: Seq<char>,
    port: Seq<char>,
    path: Seq<char>,
    headers: Seq<Seq<char>>,
    body: Seq<u8>,
    text: Seq<char>,
)
    requires
        is_word(request.method),
        request.method != "CONNECT"@,
        is_word(request.version),
        is_word(request.url),
        request.url == "http://"@ + (host + ":"@ + port + path),
        host.len() > 0,
        !host.contains('/'),
        host[0] != '[' || host.last() != ']',
        port_number(port) is Some,
        path.len() > 0,
        path[0] == '/',
        all_headers(headers),
        reads_as(
            encode_utf8(head_text(request_text(request, request.url), headers)) + body,
            text,
        ),
    ensures
        http_plan(
            text,
            encode_utf8(head_text(request_text(request, request.url), headers)) + body,
        ) matches HttpPlanModel::Forward(r, f) && {
            &&& r == request
            &&& f.host == host
            &&& Some(f.port) == port_number(port)
            &&& f.path == path
            &&& is_sent_as(f, request, headers)
            &&& f.body == Some(body)
        },
{
    let data = encode_utf8(head_text(request_text(request, request.url), headers)) + body;
    lemma_written_request(request, headers, body, text);
    law_url_names_host_port_and_path(host, port, path);
    law_plain_request_plan(text, data, request);
}

/// A tunnel to a host and a port with the only colon between them is dialled at just that host
/// and that port; what is no port number stands for 443.
pub proof fn law_tunnel_is_dialled(host: Seq<char>, port: Seq<char>)
    requires
        !host.contains(':'),
        !port.contains(':'),
    ensures
        connect_plan(host + ":"@ + port) matches ConnectPlanModel::Dial {
            host: h,
            port: p,
            address: a,
        } && {
            &&& h == host
            &&& port_number(port) matches Some(n) ==> p == n
            &&& port_number(port) is None ==> p == 443
            &&& a == host + seq![':'] + decimal(p as int)
        },
{
    reveal_strlit(":");
    let a = host + ":"@ + port;
    let n = host.len() as int;
    assert forall|j: int| 0 <= j < a.len() && j != n implies a[j] != ':' by {
        if j < n {
            assert(a[j] == host[j]);
        } else {
            assert(a[j] == port[j - n - 1]);
        }
    }
    assert(a[n] == ':');
    assert(a.contains(':'));
    a.index_of_first_ensures(':');
    a.index_of_last_ensures(':');
    assert(a.subrange(n + 1, a.len() as int) =~= port);
    assert(a.subrange(0, n) =~= host);
    if let ConnectPlanModel::Dial { host: h, port: p, address: _ } = connect_plan(a) {
        law_address(h, p);
    }
}

/// The `Host` header takes the place of all that stands before the path in a URL with scheme,
/// and comes before a URL that is a path; the secure scheme comes before it.
pub proof fn law_host_header_takes_the_place(
    host: Seq<char>,
    authority: Seq<char>,
    path: Seq<char>,
)
    requires
        !authority.contains('/'),
        path.len() > 0,
        path[0] == '/',
    ensures
        secure_url(path, Some(host)) == Some("https://"@ + host + path),
        secure_url("http://"@ + (authority + path), Some(host)) == Some("https://"@ + host + path),
        secure_url("https://"@ + (authority + path), Some(host)) == Some("https://"@ + host + path),
        secure_url("http://"@ + authority, Some(host)) == Some("https://"@ + host + "/"@),
        secure_url("https://"@ + authority, Some(host)) == Some("https://"@ + host + "/"@),
{
    lemma_split_at_path(authority, path);
    lemma_with_scheme(authority + path);
    lemma_with_scheme(authority);
    authority.index_of_first_ensures('/');
}

proof fn lemma_with_scheme(rest: Seq<char>)
    ensures
        is_http("http://"@ + rest) && !is_path("http://"@ + rest),
        is_https("https://"@ + rest) && !is_path("https://"@ + rest),
        after_scheme("http://"@ + rest) == rest,
        after_scheme("https://"@ + rest) == rest,
{
    reveal_strlit("http://");
    reveal_strlit("https://");
    let plain = "http://"@ + rest;
    let secure = "https://"@ + rest;
    lemma_scheme(plain, rest);
    lemma_scheme(secure, rest);
    assert("http://"@[0] == 'h' && "https://"@[0] == 'h');
    assert(plain[0] == 'h' && secure[0] == 'h');
    assert(plain.subrange(0, 7) =~= "http://"@);
    assert(secure.subrange(0, 8) =~= "https://"@);
}

/// A URL that is no path and begins with neither scheme is gone by as it is, with a `Host`
/// header. Without header every URL is gone by as it is, but for a path, and for one whose
/// domain is 127.0.0.1: these lead nowhere.
pub proof fn law_url_is_gone_by_as_it_is(url: Seq<char>, host: Seq<char>)
    ensures
        !"/"@.is_prefix_of(url) && !"http://"@.is_prefix_of(url) && !"https://"@.is_prefix_of(url)
            ==> secure_url(url, Some(host)) == Some(url),
        secure_url(url, None) is None <==> {
            ||| "/"@.is_prefix_of(url)
            ||| exists|scheme: Seq<char>, user: Seq<char>, port: Seq<char>, more: Seq<char>|
                is_own_url(url, scheme, user, port, more)
        },
        secure_url(url, None) matches Some(u) ==> u == url,
{
    reveal_strlit("/");
    assert("/"@.is_prefix_of(url) == is_path(url)) by {
        if url.len() > 0 && url[0] == '/' {
            assert(url.subrange(0, 1) =~= "/"@);
        }
        if "/"@.is_prefix_of(url) {
            assert(url.subrange(0, 1)[0] == '/');
        }
    }
    law_own_domain(url);
}

/// What is done with a request through TLS goes by its URL after the `Host` header was put into
/// it. Where that leads nowhere, it is refused. Else it is not served just where its method is
/// `CONNECT`; every other is sent on, as that URL, its headers and its body say. Method and
/// version stay.
pub proof fn law_tls_request_plan(text: Seq<char>, data: Seq<u8>, given: RequestLineModel)
    requires
        data.len() > 0,
        request_line(text) == Some(given),
    ensures
        secure_url(given.url, host_value(header_lines(text))) is None <==> tls_plan(
            text,
            data,
        ) is NoTarget,
        secure_url(given.url, host_value(header_lines(text))) matches Some(url) ==> {
            let request = RequestLineModel { url, ..given };
            &&& tls_plan(text, data) == TlsPlanModel::Connect(request) <==> given.method
                == "CONNECT"@
            &&& tls_plan(text, data) is Connect <==> given.method == "CONNECT"@
            &&& given.method != "CONNECT"@ ==> (tls_plan(text, data) matches TlsPlanModel::Forward(
                r,
                f,
            ) && r == request && is_sent_as(f, request, header_lines(text)) && f.body
                == request_body(text, data))
        },
{
    if let Some(url) = secure_url(given.url, host_value(header_lines(text))) {
        lemma_is_sent_as(RequestLineModel { url, ..given }, text, data);
    }
}

/// Nothing is made of no data through TLS, and of data without request line only a complaint
/// about their first line; neither comes of a request.
pub proof fn law_tls_data_without_request(text: Seq<char>, data: Seq<u8>)
    ensures
        tls_plan(text, data) is Empty <==> data.len() == 0,
        tls_plan(text, data) is Malformed <==> data.len() > 0 && request_line(text) is None,
        tls_plan(text, data) matches TlsPlanModel::Malformed(line) ==> line == first_line(text),
{
}

/// A request for a path through TLS goes to just the host and the port in its `Host` header, to
/// port 443 where that names none, asks there for just that path, and brings its body along.
pub proof fn law_tls_request_goes_to_its_host(
    request: RequestLineModel,
    before: Seq<Seq<char>>,
    host: Seq<char>,
    port: Seq<char>,
    behind: Seq<Seq<char>>,
    body: Seq<u8>,
    text: Seq<char>,
)
    requires
        is_word(request.method),
        request.method != "CONNECT"@,
        is_word(request.version),
        is_word(request.url),
        request.url[0] == '/',
        host.len() > 0,
        !host.contains('/'),
        host[0] != '[' || host.last() != ']',
        !is_white(host[0]),
        port.len() == 0 ==> !host.contains(':') && !is_white(host.last()),
        port.len() > 0 ==> port[0] == ':' && port_number(port.skip(1)) is Some,
        forall|j: int|
            0 <= j < before.len() ==> ascii_lead(trim(#[trigger] before[j]), 5)
                && !begins_in_any_case(trim(before[j]), "host:"@),
        host_cases_known(before + seq!["Host: "@ + (host + port)] + behind),
        all_headers(before + seq!["Host: "@ + (host + port)] + behind),
        reads_as(
            encode_utf8(
                head_text(
                    request_text(request, request.url),
                    before + seq!["Host: "@ + (host + port)] + behind,
                ),
            ) + body,
            text,
        ),
    ensures
        tls_plan(
            text,
            encode_utf8(
                head_text(
                    request_text(request, request.url),
                    before + seq!["Host: "@ + (host + port)] + behind,
                ),
            ) + body,
        ) matches TlsPlanModel::Forward(r, f) && {
            &&& r.url == "https://"@ + host + port + request.url
            &&& f.host == host
            &&& f.port == if port.len() == 0 {
                443u16
            } else {
                port_number(port.skip(1)).unwrap()
            }
            &&& f.path == request.url
            &&& is_sent_as(f, r, before + seq!["Host: "@ + (host + port)] + behind)
            &&& f.body == Some(body)
        },
{
    let value = host + port;
    let headers = before + seq!["Host: "@ + value] + behind;
    let path = request.url;
    let data = encode_utf8(head_text(request_text(request, path), headers)) + body;
    let none = Seq::<char>::empty();
    lemma_written_request(request, headers, body, text);
    assert(value[0] == host[0]);
    if port.len() == 0 {
        assert(value =~= host);
        law_url_names_host_and_path(host, path);
    } else {
        reveal_strlit(":");
        let number = port.skip(1);
        law_port_holds_digits_alone(number);
        assert(value.last() == number.last());
        assert(value =~= host + ":"@ + number);
        law_url_names_host_port_and_path(host, number, path);
    }
    law_host_line(before, value, behind);
    law_host_header_takes_the_place(value, none, path);
    let url = "https://"@ + value + path;
    assert(url =~= "https://"@ + (value + path));
    assert(url =~= "https://"@ + host + port + path);
    law_tls_request_plan(text, data, request);
}

/// Before anything is dialled, a client that asks for a tunnel is told that its request is bad
/// just where no tunnel can come of it.
pub proof fn law_connect_answers(plan: &ConnectPlan, answer: Option<&'static str>)
    requires
        call_ensures(ConnectPlan::answer, (plan,), answer),
    ensures
        answer is Some <==> plan is Refuse,
        answer matches Some(text) ==> text@ == "HTTP/1.1 400 Bad Request\r\n\r\n"@,
{
}

/// Before anything is dialled, a client that speaks TLS is told that its request is bad just
/// where it leads nowhere.
pub proof fn law_tls_answers(plan: &TlsPlan, answer: Option<&'static str>)
    requires
        call_ensures(TlsPlan::answer, (plan,), answer),
    ensures
        answer is Some <==> plan is NoTarget,
        answer matches Some(text) ==> text@ == "HTTP/1.1 400 Bad Request\r\n\r\n"@,
{
}

/// A client speaks TLS just where its first byte is that of a handshake and the proxy has a
/// certificate; one that sends another byte, or any byte without certificate, speaks HTTP; and
/// one that sends none has closed.
pub proof fn law_protocol(first: Option<u8>, tls_ready: bool, p: Protocol)
    requires
        call_ensures(detect_protocol, (first, tls_ready), p),
    ensures
        p is Closed <==> first is None,
        p is Tls <==> first == Some(0x16u8) && tls_ready,
        p is Http <==> (first matches Some(b) && !(b == 0x16 && tls_ready)),
{
}

/// A request is read in parts of at most 8192 bytes.
pub proof fn law_buffer_size()
    ensures
        BUFFER_SIZE == 8192,
{
}

/// What is said of a plan, of a request line and of a request to send on is said of what their
/// fields hold.
pub proof fn law_plans_are_their_fields(
    request: RequestLine,
    f: Forward,
    http: HttpPlan,
    connect: ConnectPlan,
    tls: TlsPlan,
)
    ensures
        request@.method == request.method@ && request@.url == request.url@ && request@.version
            == request.version@,
        f@.host == f.host@ && f@.port == f.port && f@.path == f.path@,
        f@.address == f.address@ && f@.head == f.head@,
        f@.body is Some <==> f.body is Some,
        f.body matches Some(body) ==> f@.body == Some(body@),
        match http {
            HttpPlan::Empty => http@ is Empty,
            HttpPlan::Malformed(line) => http@ == HttpPlanModel::Malformed(line@),
            HttpPlan::Tunnel(r) => http@ == HttpPlanModel::Tunnel(r@),
            HttpPlan::Forward(r, sent) => http@ == HttpPlanModel::Forward(r@, sent@),
        },
        match connect {
            ConnectPlan::Refuse => connect@ is Refuse,
            ConnectPlan::Dial { host, port, address } => connect@ == (ConnectPlanModel::Dial {
                host: host@,
                port,
                address: address@,
            }),
        },
        match tls {
            TlsPlan::Empty => tls@ is Empty,
            TlsPlan::Malformed(line) => tls@ == TlsPlanModel::Malformed(line@),
            TlsPlan::NoTarget => tls@ is NoTarget,
            TlsPlan::Connect(r) => tls@ == TlsPlanModel::Connect(r@),
            TlsPlan::Forward(r, sent) => tls@ == TlsPlanModel::Forward(r@, sent@),
        },
{
}

} // verus!
