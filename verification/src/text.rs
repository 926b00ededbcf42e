//! Text as a sequence of characters: the searches and cuts that the proxy makes in it.

use vstd::prelude::*;
use vstd::slice::slice_subrange;

verus! {

/// `c` has the Unicode property White_Space.
pub open spec fn is_white(c: char) -> bool {
    let u = c as u32;
    ||| 0x09 <= u <= 0x0d
    ||| u == 0x20
    ||| u == 0x85
    ||| u == 0xa0
    ||| u == 0x1680
    ||| 0x2000 <= u <= 0x200a
    ||| u == 0x2028
    ||| u == 0x2029
    ||| u == 0x202f
    ||| u == 0x205f
    ||| u == 0x3000
}

/// No character of `s` is white space.
pub open spec fn no_white(s: Seq<char>) -> bool {
    forall|i: int| 0 <= i < s.len() ==> !is_white(#[trigger] s[i])
}

/// `s` without the white space at its start.
pub open spec fn trim_start(s: Seq<char>) -> Seq<char>
    decreases s.len(),
{
    if s.len() > 0 && is_white(s[0]) {
        trim_start(s.drop_first())
    } else {
        s
    }
}

/// `s` without the white space at its end.
pub open spec fn trim_end(s: Seq<char>) -> Seq<char>
    decreases s.len(),
{
    if s.len() > 0 && is_white(s.last()) {
        trim_end(s.drop_last())
    } else {
        s
    }
}

/// `s` without the white space at both ends.
pub open spec fn trim(s: Seq<char>) -> Seq<char> {
    trim_end(trim_start(s))
}

/// How many characters `s` has before its first white space.
pub open spec fn word_len(s: Seq<char>) -> nat
    decreases s.len(),
{
    if s.len() > 0 && !is_white(s[0]) {
        1 + word_len(s.drop_first())
    } else {
        0
    }
}

pub(crate) proof fn lemma_trim_start_len(s: Seq<char>)
    ensures
        trim_start(s).len() <= s.len(),
        trim_start(s).len() > 0 ==> !is_white(trim_start(s)[0]),
        trim_start(s) == s.subrange(s.len() - trim_start(s).len(), s.len() as int),
    decreases s.len(),
{
    if s.len() > 0 && is_white(s[0]) {
        lemma_trim_start_len(s.drop_first());
        let t = trim_start(s);
        assert(t =~= s.subrange(s.len() - t.len(), s.len() as int));
    } else {
        assert(s =~= s.subrange(0, s.len() as int));
    }
}

pub(crate) proof fn lemma_word_len(s: Seq<char>)
    ensures
        word_len(s) <= s.len(),
        word_len(s) < s.len() ==> is_white(s[word_len(s) as int]),
        forall|i: int| 0 <= i < word_len(s) ==> !is_white(#[trigger] s[i]),
        s.len() > 0 && !is_white(s[0]) ==> word_len(s) > 0,
    decreases s.len(),
{
    if s.len() > 0 && !is_white(s[0]) {
        let r = s.drop_first();
        lemma_word_len(r);
        assert forall|i: int| 0 <= i < word_len(s) implies !is_white(#[trigger] s[i]) by {
            if i > 0 {
                assert(s[i] == r[i - 1]);
            }
        }
    }
}

/// The words of `s`: its longest runs of characters that are not white space.
pub open spec fn words(s: Seq<char>) -> Seq<Seq<char>>
    decreases s.len(),
    via words_decreases
{
    let t = trim_start(s);
    if t.len() == 0 {
        Seq::empty()
    } else {
        let k = word_len(t) as int;
        seq![t.subrange(0, k)] + words(t.subrange(k, t.len() as int))
    }
}

#[via_fn]
proof fn words_decreases(s: Seq<char>) {
    lemma_trim_start_len(s);
    lemma_word_len(trim_start(s));
}

/// `s` without a carriage return at its end.
pub open spec fn strip_cr(s: Seq<char>) -> Seq<char> {
    if s.len() > 0 && s.last() == '\r' {
        s.drop_last()
    } else {
        s
    }
}

/// The lines of `s`. A line ends at a line feed, or at a carriage return and a line feed;
/// the ending of the last line may be missing.
pub open spec fn lines(s: Seq<char>) -> Seq<Seq<char>>
    decreases s.len(),
{
    if s.len() == 0 {
        Seq::empty()
    } else {
        proof {
            s.index_of_first_ensures('\n');
        }
        match s.index_of_first('\n') {
            Some(k) => seq![strip_cr(s.subrange(0, k))] + lines(
                s.subrange(k + 1, s.len() as int),
            ),
            None => seq![s],
        }
    }
}

/// `s` begins with `prefix`.
pub open spec fn starts_with(s: Seq<char>, prefix: Seq<char>) -> bool {
    prefix.is_prefix_of(s)
}

/// `s` ends with the character `c`.
pub open spec fn ends_in(s: Seq<char>, c: char) -> bool {
    s.len() > 0 && s.last() == c
}

/// `part` stands in `s` at position `i`.
pub open spec fn occurs_at(s: Seq<char>, part: Seq<char>, i: int) -> bool {
    0 <= i && i + part.len() <= s.len() && s.subrange(i, i + part.len()) == part
}

/// `part` stands in `s` at position `i`, and nowhere before.
pub open spec fn first_occurs_at(s: Seq<char>, part: Seq<char>, i: int) -> bool {
    occurs_at(s, part, i) && forall|j: int| 0 <= j < i ==> !#[trigger] occurs_at(s, part, j)
}

/// Where `part` first stands in `s`.
pub open spec fn find_text(s: Seq<char>, part: Seq<char>) -> Option<int> {
    if exists|i: int| first_occurs_at(s, part, i) {
        Some(choose|i: int| first_occurs_at(s, part, i))
    } else {
        None
    }
}

/// Where `part` stands first, there it is found.
pub(crate) proof fn lemma_find_text(s: Seq<char>, part: Seq<char>, i: int)
    ensures
        find_text(s, part) == Some(i) <==> first_occurs_at(s, part, i),
{
    if find_text(s, part) == Some(i) {
        assert(first_occurs_at(s, part, i));
    }
    if first_occurs_at(s, part, i) {
        let k = choose|k: int| first_occurs_at(s, part, k);
        assert(occurs_at(s, part, k) && occurs_at(s, part, i));
    }
}

/// The views of a list of texts.
pub open spec fn views(list: Seq<&[char]>) -> Seq<Seq<char>> {
    list.map_values(|l: &[char]| l@)
}

/// The characters of `s`.
pub fn to_chars(s: &str) -> (v: Vec<char>)
    ensures
        v@ == s@,
{
    let mut v: Vec<char> = Vec::new();
    for c in it: s.chars()
        invariant
            it.seq() == s@,
            v@ == s@.subrange(0, it.index() as int),
    {
        v.push(c);
    }
    v
}

/// The text made of the characters `s`.
pub fn to_text(s: &[char]) -> (t: String)
    ensures
        t@ == s@,
{
    let mut t: String = String::new();
    push_all(&mut t, s);
    t
}

/// Appends the characters `s` to `t`.
pub fn push_all(t: &mut String, s: &[char])
    ensures
        final(t)@ == old(t)@ + s@,
{
    let ghost before = t@;
    for i in 0..s.len()
        invariant
            t@ == before + s@.subrange(0, i as int),
    {
        t.push(s[i]);
    }
}

/// Tells whether `c` is white space.
pub fn char_is_white(c: char) -> (b: bool)
    ensures
        b == is_white(c),
{
    ('\u{9}' <= c && c <= '\u{d}') || c == '\u{20}' || c == '\u{85}' || c == '\u{a0}' || c
        == '\u{1680}' || ('\u{2000}' <= c && c <= '\u{200a}') || c == '\u{2028}' || c == '\u{2029}'
        || c == '\u{202f}' || c == '\u{205f}' || c == '\u{3000}'
}

/// Tells whether two texts are the same.
pub fn same(a: &[char], b: &[char]) -> (r: bool)
    ensures
        r == (a@ == b@),
{
    if a.len() != b.len() {
        return false;
    }
    for i in 0..a.len()
        invariant
            a.len() == b.len(),
            a@.subrange(0, i as int) == b@.subrange(0, i as int),
    {
        if a[i] != b[i] {
            return false;
        }
    }
    assert(a@.subrange(0, a@.len() as int) == a@);
    assert(b@.subrange(0, b@.len() as int) == b@);
    true
}

/// Tells whether `s` is the text `t`.
pub fn is_text(s: &[char], t: &str) -> (r: bool)
    ensures
        r == (s@ == t@),
{
    let t_chars = to_chars(t);
    same(s, t_chars.as_slice())
}

/// Tells whether `s` begins with `prefix`.
pub fn has_prefix(s: &[char], prefix: &str) -> (r: bool)
    ensures
        r == starts_with(s@, prefix@),
{
    let p = to_chars(prefix);
    p.len() <= s.len() && same(slice_subrange(s, 0, p.len()), p.as_slice())
}

/// The part of `s` from position `i` on.
pub fn from_index(s: &[char], i: usize) -> (r: &[char])
    requires
        i <= s@.len(),
    ensures
        r@ == s@.subrange(i as int, s@.len() as int),
{
    slice_subrange(s, i, s.len())
}

/// Where `c` first stands in `s`.
pub fn find_char(s: &[char], c: char) -> (r: Option<usize>)
    ensures
        match r {
            Some(i) => i < s.len() && s@.index_of_first(c) == Some(i as int),
            None => s@.index_of_first(c) is None,
        },
{
    proof {
        s@.index_of_first_ensures(c);
    }
    for i in 0..s.len()
        invariant
            forall|j: int| 0 <= j < i ==> s@[j] != c,
    {
        if s[i] == c {
            proof {
                s@.index_of_first_ensures(c);
                assert(s@.contains(c));
            }
            return Some(i);
        }
    }
    None
}

/// Where `c` last stands in `s`.
pub fn find_last_char(s: &[char], c: char) -> (r: Option<usize>)
    ensures
        match r {
            Some(i) => i < s.len() && s@.index_of_last(c) == Some(i as int),
            None => s@.index_of_last(c) is None,
        },
{
    proof {
        s@.index_of_last_ensures(c);
    }
    let mut i: usize = s.len();
    while i > 0
        invariant
            i <= s@.len(),
            forall|j: int| i <= j < s@.len() ==> s@[j] != c,
        decreases i,
    {
        i = i - 1;
        if s[i] == c {
            proof {
                s@.index_of_last_ensures(c);
                assert(s@.contains(c));
            }
            return Some(i);
        }
    }
    None
}

/// Where `part` first stands in `s`.
pub fn find_part(s: &[char], part: &str) -> (r: Option<usize>)
    ensures
        match r {
            Some(i) => i + part@.len() <= s@.len() && find_text(s@, part@) == Some(i as int),
            None => find_text(s@, part@) is None && forall|i: int|
                !#[trigger] occurs_at(s@, part@, i),
        },
{
    let p = to_chars(part);
    if p.len() > s.len() {
        return None;
    }
    let n: usize = s.len();
    let last: usize = n - p.len();
    let mut i: usize = 0;
    while i <= last
        invariant
            p@ == part@,
            n == s@.len(),
            last + p@.len() == n,
            i <= last + 1,
            forall|j: int| 0 <= j < i ==> !#[trigger] occurs_at(s@, part@, j),
        decreases last + 1 - i,
    {
        if same(slice_subrange(s, i, i + p.len()), p.as_slice()) {
            proof {
                lemma_find_text(s@, part@, i as int);
            }
            return Some(i);
        }
        if i == last {
            return None;
        }
        i = i + 1;
    }
    None
}

/// `s` without the white space at its start.
pub fn without_lead(s: &[char]) -> (r: &[char])
    ensures
        r@ == trim_start(s@),
{
    let n: usize = s.len();
    let mut i: usize = 0;
    assert(s@.subrange(0, n as int) == s@);
    while i < n && char_is_white(s[i])
        invariant
            n == s@.len(),
            i <= n,
            trim_start(s@) == trim_start(s@.subrange(i as int, n as int)),
        decreases n - i,
    {
        assert(s@.subrange(i as int, n as int).drop_first() == s@.subrange(i + 1, n as int));
        i = i + 1;
    }
    from_index(s, i)
}

/// `s` without the white space at its end.
pub fn without_trail(s: &[char]) -> (r: &[char])
    ensures
        r@ == trim_end(s@),
{
    let mut n: usize = s.len();
    assert(s@.subrange(0, n as int) == s@);
    while n > 0 && char_is_white(s[n - 1])
        invariant
            n <= s@.len(),
            trim_end(s@) == trim_end(s@.subrange(0, n as int)),
        decreases n,
    {
        assert(s@.subrange(0, n as int).drop_last() == s@.subrange(0, n - 1));
        n = n - 1;
    }
    slice_subrange(s, 0, n)
}

/// `s` without the white space at both ends.
pub fn trimmed(s: &[char]) -> (r: &[char])
    ensures
        r@ == trim(s@),
{
    without_trail(without_lead(s))
}

/// The words of `s`.
pub fn split_words(s: &[char]) -> (out: Vec<&[char]>)
    ensures
        views(out@) == words(s@),
{
    let mut out: Vec<&[char]> = Vec::new();
    let mut rest: &[char] = without_lead(s);
    proof {
        assert(views(out@) + words(s@) == words(s@));
        lemma_words_trim(s@);
        lemma_trim_start_len(s@);
    }
    while rest.len() > 0
        invariant
            words(s@) == views(out@) + words(rest@),
            trim_start(rest@) == rest@,
        decreases rest@.len(),
    {
        let mut k: usize = 0;
        let n: usize = rest.len();
        assert(rest@.subrange(0, n as int) == rest@);
        while k < n && !char_is_white(rest[k])
            invariant
                n == rest@.len(),
                k <= n,
                word_len(rest@) == k + word_len(rest@.subrange(k as int, n as int)),
            decreases n - k,
        {
            assert(rest@.subrange(k as int, n as int).drop_first() == rest@.subrange(
                k + 1,
                n as int,
            ));
            k = k + 1;
        }
        proof {
            lemma_trim_start_len(rest@);
            lemma_word_len(rest@);
        }
        let word = slice_subrange(rest, 0, k);
        let after = from_index(rest, k);
        let ghost done = views(out@);
        out.push(word);
        rest = without_lead(after);
        proof {
            assert(views(out@) == done.push(word@));
            lemma_words_trim(after@);
            lemma_trim_start_len(after@);
            assert(done.push(word@) + words(after@) == done + (seq![word@] + words(after@)));
        }
    }
    proof {
        assert(views(out@) + Seq::<Seq<char>>::empty() == views(out@));
    }
    out
}

proof fn lemma_words_trim(s: Seq<char>)
    ensures
        words(trim_start(s)) == words(s),
        trim_start(trim_start(s)) == trim_start(s),
{
    lemma_trim_start_len(s);
}

/// The lines of `s`.
pub fn split_lines(s: &[char]) -> (out: Vec<&[char]>)
    ensures
        views(out@) == lines(s@),
{
    let mut out: Vec<&[char]> = Vec::new();
    let mut rest: &[char] = s;
    assert(views(out@) + lines(s@) == lines(s@));
    while rest.len() > 0
        invariant
            lines(s@) == views(out@) + lines(rest@),
        decreases rest@.len(),
    {
        let ghost done = views(out@);
        match find_char(rest, '\n') {
            Some(k) => {
                let line = if k > 0 && rest[k - 1] == '\r' {
                    slice_subrange(rest, 0, k - 1)
                } else {
                    slice_subrange(rest, 0, k)
                };
                assert(line@ == strip_cr(rest@.subrange(0, k as int)));
                out.push(line);
                rest = from_index(rest, k + 1);
                proof {
                    assert(views(out@) == done.push(line@));
                    assert(done.push(line@) + lines(rest@) == done + (seq![line@] + lines(rest@)));
                }
            },
            None => {
                out.push(rest);
                let ghost line = rest@;
                rest = from_index(rest, rest.len());
                proof {
                    assert(views(out@) == done.push(line));
                    assert(done.push(line) + lines(rest@) == done + seq![line]);
                }
            },
        }
    }
    proof {
        assert(views(out@) + Seq::<Seq<char>>::empty() == views(out@));
    }
    out
}

/// Every character of `s` is white space.
pub open spec fn all_white(s: Seq<char>) -> bool {
    forall|i: int| 0 <= i < s.len() ==> is_white(#[trigger] s[i])
}

/// White space is the tab, the line feed, the vertical tab, the form feed, the carriage return,
/// the space, the next line, the no-break space, and the spaces and separators that lie further
/// up; no other character is.
pub proof fn law_white_space(c: char)
    ensures
        is_white(c) <==> {
            ||| c == '\t' || c == '\n' || c == '\u{b}' || c == '\u{c}' || c == '\r' || c == ' '
            ||| c == '\u{85}' || c == '\u{a0}' || c == '\u{1680}' || c == '\u{2000}'
            ||| c == '\u{2001}' || c == '\u{2002}' || c == '\u{2003}' || c == '\u{2004}'
            ||| c == '\u{2005}' || c == '\u{2006}' || c == '\u{2007}' || c == '\u{2008}'
            ||| c == '\u{2009}' || c == '\u{200a}' || c == '\u{2028}' || c == '\u{2029}'
            ||| c == '\u{202f}' || c == '\u{205f}' || c == '\u{3000}'
        },
{
}

/// White space before a text that begins with none is taken off its start, and nothing else.
pub proof fn law_trim_start(lead: Seq<char>, text: Seq<char>)
    requires
        all_white(lead),
        text.len() > 0 ==> !is_white(text[0]),
    ensures
        trim_start(lead + text) == text,
    decreases lead.len(),
{
    if lead.len() == 0 {
        assert(lead + text =~= text);
    } else {
        let rest = lead.drop_first();
        assert(is_white(lead[0]));
        assert forall|i: int| 0 <= i < rest.len() implies is_white(#[trigger] rest[i]) by {
            assert(rest[i] == lead[i + 1]);
        }
        law_trim_start(rest, text);
        assert((lead + text).drop_first() =~= rest + text);
    }
}

proof fn lemma_trim_end(text: Seq<char>, trail: Seq<char>)
    requires
        all_white(trail),
        text.len() > 0 ==> !is_white(text.last()),
    ensures
        trim_end(text + trail) == text,
    decreases trail.len(),
{
    if trail.len() == 0 {
        assert(text + trail =~= text);
    } else {
        let rest = trail.drop_last();
        assert(is_white(trail[trail.len() - 1]));
        assert forall|i: int| 0 <= i < rest.len() implies is_white(#[trigger] rest[i]) by {
            assert(rest[i] == trail[i]);
        }
        lemma_trim_end(text, rest);
        assert((text + trail).drop_last() =~= text + rest);
    }
}

/// A text with white space around it, and none at its own ends, is what trimming leaves: be it
/// empty or not, and whatever it holds inside.
pub proof fn law_trim(lead: Seq<char>, text: Seq<char>, trail: Seq<char>)
    requires
        all_white(lead),
        all_white(trail),
        text.len() > 0 ==> !is_white(text[0]) && !is_white(text.last()),
    ensures
        trim(lead + text + trail) == text,
{
    if text.len() == 0 {
        let gap = lead + trail;
        assert forall|i: int| 0 <= i < gap.len() implies is_white(#[trigger] gap[i]) by {
            if i < lead.len() {
                assert(gap[i] == lead[i]);
            } else {
                assert(gap[i] == trail[i - lead.len()]);
            }
        }
        law_trim_start(gap, text);
        assert(lead + text + trail =~= gap + text);
        assert(trim_end(text) =~= text);
    } else {
        law_trim_start(lead, text + trail);
        assert(lead + text + trail =~= lead + (text + trail));
        lemma_trim_end(text, trail);
    }
}

proof fn lemma_trim_end_cuts(s: Seq<char>) -> (n: int)
    ensures
        0 <= n <= s.len(),
        trim_end(s) == s.subrange(0, n),
        all_white(s.subrange(n, s.len() as int)),
        n > 0 ==> !is_white(s[n - 1]),
    decreases s.len(),
{
    if s.len() > 0 && is_white(s.last()) {
        let n = lemma_trim_end_cuts(s.drop_last());
        let before = s.drop_last().subrange(n, s.len() - 1);
        assert(s.drop_last().subrange(0, n) =~= s.subrange(0, n));
        let cut = s.subrange(n, s.len() as int);
        assert forall|i: int| 0 <= i < cut.len() implies is_white(#[trigger] cut[i]) by {
            if i < before.len() {
                assert(cut[i] == before[i]);
            }
        }
        n
    } else {
        assert(s.subrange(0, s.len() as int) =~= s);
        s.len() as int
    }
}

/// Trimming takes white space off both ends of a text, all that is there, and nothing else.
pub proof fn law_trim_takes_white_space_alone(s: Seq<char>)
    ensures
        exists|i: int, j: int|
            {
                &&& 0 <= i <= j <= s.len()
                &&& trim(s) == #[trigger] s.subrange(i, j)
                &&& all_white(s.subrange(0, i))
                &&& all_white(s.subrange(j, s.len() as int))
            },
        trim(s).len() > 0 ==> !is_white(trim(s)[0]) && !is_white(trim(s).last()),
{
    lemma_trim_start_len(s);
    let t = trim_start(s);
    let i = s.len() - t.len();
    lemma_lead_is_white(s);
    let n = lemma_trim_end_cuts(t);
    assert(t.subrange(0, n) =~= s.subrange(i, i + n));
    assert(t.subrange(n, t.len() as int) =~= s.subrange(i + n, s.len() as int));
}

proof fn lemma_lead_is_white(s: Seq<char>)
    ensures
        trim_start(s).len() <= s.len(),
        all_white(s.subrange(0, s.len() - trim_start(s).len())),
    decreases s.len(),
{
    if s.len() > 0 && is_white(s[0]) {
        let rest = s.drop_first();
        lemma_lead_is_white(rest);
        let n = s.len() - trim_start(s).len();
        let lead = s.subrange(0, n);
        assert forall|i: int| 0 <= i < n implies is_white(#[trigger] lead[i]) by {
            if i > 0 {
                assert(lead[i] == rest.subrange(0, n - 1)[i - 1]);
            }
        }
    }
}

/// The words of a text that begins with a word, perhaps behind white space, are that word and
/// the words of what follows the white space behind it. White space alone holds no word.
pub proof fn law_words(lead: Seq<char>, word: Seq<char>, rest: Seq<char>)
    requires
        all_white(lead),
        word.len() > 0,
        no_white(word),
        rest.len() > 0 ==> is_white(rest[0]),
    ensures
        words(lead + word + rest) == seq![word] + words(rest),
        words(lead).len() == 0,
{
    let none = Seq::<char>::empty();
    law_trim_start(lead, none);
    assert(lead + none =~= lead);
    let t = word + rest;
    assert(!is_white(word[0]));
    law_trim_start(lead, t);
    assert(lead + word + rest =~= lead + t);
    lemma_word_len(t);
    let k = word_len(t) as int;
    assert(k == word.len()) by {
        if k < word.len() {
            assert(t[k] == word[k]);
        } else if k > word.len() {
            assert(t[word.len() as int] == rest[0]);
        }
    }
    assert(t.subrange(0, k) =~= word);
    assert(t.subrange(k, t.len() as int) =~= rest);
}

/// A text that begins with a line and its ending has that line and the lines of what follows.
/// The ending is a line feed, with a carriage return before it or not; the last line needs none.
/// An empty text has no line.
pub proof fn law_lines(line: Seq<char>, rest: Seq<char>)
    requires
        !line.contains('\n'),
    ensures
        lines(line + "\r\n"@ + rest) == seq![line] + lines(rest),
        line.len() == 0 || line.last() != '\r' ==> lines(line + "\n"@ + rest) == seq![line]
            + lines(rest),
        line.len() > 0 ==> lines(line) == seq![line],
        lines(Seq::<char>::empty()) == Seq::<Seq<char>>::empty(),
{
    reveal_strlit("\r\n");
    reveal_strlit("\n");
    let n = line.len() as int;
    let long = line + "\r\n"@ + rest;
    let short = line + "\n"@ + rest;
    long.index_of_first_ensures('\n');
    short.index_of_first_ensures('\n');
    line.index_of_first_ensures('\n');
    assert(long[n + 1] == '\n' && short[n] == '\n');
    assert(long.contains('\n') && short.contains('\n'));
    let i = long.index_of_first('\n').unwrap();
    let j = short.index_of_first('\n').unwrap();
    assert(i == n + 1) by {
        if i < n {
            assert(long[i] == line[i]);
        } else if i == n {
            assert(long[i] == '\r');
        }
    }
    assert(j == n) by {
        if j < n {
            assert(short[j] == line[j]);
        }
    }
    assert(long.subrange(0, n + 1).last() == '\r');
    assert(long.subrange(0, n + 1).drop_last() =~= line);
    assert(long.subrange(n + 2, long.len() as int) =~= rest);
    assert(short.subrange(0, n) =~= line);
    assert(short.subrange(n + 1, short.len() as int) =~= rest);
}

/// A text begins with a prefix just where it is the prefix with something behind it.
pub proof fn law_starts_with(s: Seq<char>, prefix: Seq<char>, rest: Seq<char>)
    ensures
        starts_with(prefix + rest, prefix),
        starts_with(s, prefix) ==> s == prefix + s.skip(prefix.len() as int),
{
    assert((prefix + rest).subrange(0, prefix.len() as int) =~= prefix);
    if starts_with(s, prefix) {
        assert(s =~= prefix + s.skip(prefix.len() as int));
    }
}

proof fn lemma_first_place(s: Seq<char>, part: Seq<char>, i: int)
    requires
        occurs_at(s, part, i),
    ensures
        exists|k: int| first_occurs_at(s, part, k),
    decreases i,
{
    if exists|j: int| 0 <= j < i && #[trigger] occurs_at(s, part, j) {
        let j = choose|j: int| 0 <= j < i && #[trigger] occurs_at(s, part, j);
        lemma_first_place(s, part, j);
    } else {
        assert(first_occurs_at(s, part, i));
    }
}

/// A part is found where it first stands; it is not found just where it stands nowhere.
pub proof fn law_find_text(s: Seq<char>, part: Seq<char>)
    ensures
        match find_text(s, part) {
            Some(i) => {
                &&& 0 <= i <= s.len()
                &&& part.is_prefix_of(s.skip(i))
                &&& forall|j: int| 0 <= j < i ==> !part.is_prefix_of(#[trigger] s.skip(j))
            },
            None => forall|j: int|
                0 <= j <= s.len() ==> !part.is_prefix_of(#[trigger] s.skip(j)),
        },
{
    let n = part.len() as int;
    assert forall|j: int| 0 <= j <= s.len() implies (part.is_prefix_of(#[trigger] s.skip(j))
        == occurs_at(s, part, j)) by {
        if j + n <= s.len() {
            assert(s.skip(j).subrange(0, n) =~= s.subrange(j, j + n));
        }
    }
    match find_text(s, part) {
        Some(i) => {
            assert(first_occurs_at(s, part, i));
            assert(part.is_prefix_of(s.skip(i)) == occurs_at(s, part, i));
        },
        None => {
            assert forall|j: int| 0 <= j <= s.len() implies !part.is_prefix_of(
                #[trigger] s.skip(j),
            ) by {
                if occurs_at(s, part, j) {
                    lemma_first_place(s, part, j);
                }
            }
        },
    }
}

} // verus!
