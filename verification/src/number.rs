//! Port numbers in decimal, read and written.

use crate::text::from_index;
use vstd::prelude::*;

verus! {

/// `c` is a decimal digit.
pub open spec fn is_digit(c: char) -> bool {
    '0' <= c <= '9'
}

/// Every character of `s` is a decimal digit.
pub open spec fn all_digits(s: Seq<char>) -> bool {
    forall|i: int| 0 <= i < s.len() ==> is_digit(#[trigger] s[i])
}

/// The number that the digits `s` write.
pub open spec fn digits_value(s: Seq<char>) -> int
    decreases s.len(),
{
    if s.len() == 0 {
        0
    } else {
        10 * digits_value(s.drop_last()) + (s.last() as int - '0' as int)
    }
}

/// `s` without a plus sign at its start.
pub open spec fn unsigned_part(s: Seq<char>) -> Seq<char> {
    if s.len() > 0 && s[0] == '+' {
        s.subrange(1, s.len() as int)
    } else {
        s
    }
}

/// The port number that `s` writes: digits, perhaps behind a plus sign, whose value is
/// at most the greatest port.
pub open spec fn port_number(s: Seq<char>) -> Option<u16> {
    let d = unsigned_part(s);
    if d.len() > 0 && all_digits(d) && digits_value(d) <= u16::MAX {
        Some(digits_value(d) as u16)
    } else {
        None
    }
}

/// The digit for `n`.
pub open spec fn digit_char(n: int) -> char {
    (('0' as int + n) as u32) as char
}

/// `n` in decimal, without leading zeros.
pub open spec fn decimal(n: int) -> Seq<char>
    decreases n,
{
    if n < 10 {
        seq![digit_char(n)]
    } else {
        decimal(n / 10).push(digit_char(n % 10))
    }
}

proof fn lemma_digits_value_bounds(s: Seq<char>, k: int)
    requires
        all_digits(s),
        0 <= k <= s.len(),
    ensures
        0 <= digits_value(s.subrange(0, k)) <= digits_value(s),
    decreases s.len(),
{
    if k == s.len() {
        assert(s.subrange(0, k) == s);
        if s.len() > 0 {
            lemma_digits_value_bounds(s.drop_last(), s.len() - 1);
            assert(s.drop_last().subrange(0, s.len() - 1) == s.drop_last());
            assert(is_digit(s.last()));
        }
    } else {
        assert(s.drop_last().subrange(0, k) == s.subrange(0, k));
        lemma_digits_value_bounds(s.drop_last(), k);
        assert(is_digit(s.last()));
    }
}

/// Reads a port number.
pub fn parse_port(s: &[char]) -> (r: Option<u16>)
    ensures
        r == port_number(s@),
{
    let d = if s.len() > 0 && s[0] == '+' {
        from_index(s, 1)
    } else {
        s
    };
    assert(d@ == unsigned_part(s@));
    let n: usize = d.len();
    if n == 0 {
        return None;
    }
    let mut value: u32 = 0;
    for i in 0..n
        invariant
            n == d@.len(),
            d@ == unsigned_part(s@),
            value <= u16::MAX,
            all_digits(d@.subrange(0, i as int)),
            value == digits_value(d@.subrange(0, i as int)),
    {
        let c = d[i];
        if !('0' <= c && c <= '9') {
            assert(!is_digit(d@[i as int]));
            return None;
        }
        let ghost upto = d@.subrange(0, i + 1);
        proof {
            assert(upto.drop_last() == d@.subrange(0, i as int));
            assert forall|j: int| 0 <= j < upto.len() implies is_digit(#[trigger] upto[j]) by {
                if j < i {
                    assert(upto[j] == d@.subrange(0, i as int)[j]);
                }
            }
        }
        value = 10 * value + (c as u32 - '0' as u32);
        if value > u16::MAX as u32 {
            proof {
                if all_digits(d@) {
                    lemma_digits_value_bounds(d@, i + 1);
                }
            }
            return None;
        }
    }
    assert(d@.subrange(0, n as int) == d@);
    Some(value as u16)
}

/// Writes a port number in decimal.
pub fn decimal_chars(n: u16) -> (v: Vec<char>)
    ensures
        v@ == decimal(n as int),
    decreases n,
{
    if n < 10 {
        let mut v: Vec<char> = Vec::new();
        v.push(digit_of(n));
        v
    } else {
        let mut v = decimal_chars(n / 10);
        v.push(digit_of(n % 10));
        v
    }
}

fn digit_of(n: u16) -> (c: char)
    requires
        n < 10,
    ensures
        c == digit_char(n as int),
{
    (48u8 + n as u8) as char
}

proof fn lemma_decimal_value(n: int)
    requires
        0 <= n,
    ensures
        decimal(n).len() > 0,
        all_digits(decimal(n)),
        digits_value(decimal(n)) == n,
    decreases n,
{
    if n < 10 {
        let s = decimal(n);
        assert(s.drop_last() == Seq::<char>::empty());
        assert(digits_value(s.drop_last()) == 0);
    } else {
        lemma_decimal_value(n / 10);
        let s = decimal(n);
        assert(s.drop_last() == decimal(n / 10));
        assert forall|i: int| 0 <= i < s.len() implies is_digit(#[trigger] s[i]) by {
            if i < s.len() - 1 {
                assert(s[i] == decimal(n / 10)[i]);
            }
        }
    }
}

/// Reading what was written gives the same port number.
pub proof fn law_port_reads_back(n: u16)
    ensures
        port_number(decimal(n as int)) == Some(n),
        all_digits(decimal(n as int)),
{
    lemma_decimal_value(n as int);
    let s = decimal(n as int);
    assert(is_digit(s[0]));
}

/// One digit writes the port number that it stands for, and a digit behind the digits of a port
/// number makes it ten times as great and adds its own, as long as there is such a port.
pub proof fn law_digit_extends_port(digits: Seq<char>, c: char)
    requires
        '0' <= c <= '9',
    ensures
        port_number(seq![c]) matches Some(n) && n == c as int - '0' as int,
        digits.len() > 0 && digits[0] != '+' ==> match port_number(digits) {
            Some(n) => match port_number(digits.push(c)) {
                Some(m) => m == 10 * n + (c as int - '0' as int),
                None => 10 * n + (c as int - '0' as int) > 65535,
            },
            None => port_number(digits.push(c)) is None,
        },
{
    let one = seq![c];
    assert(one.drop_last() =~= Seq::<char>::empty());
    assert(digits_value(one.drop_last()) == 0);
    assert(is_digit(one[0]));
    assert(all_digits(one));
    let more = digits.push(c);
    if digits.len() > 0 && digits[0] != '+' {
        assert(more.drop_last() =~= digits);
        assert(more[0] == digits[0]);
        if all_digits(digits) {
            lemma_digits_value_bounds(digits, 0);
            assert forall|i: int| 0 <= i < more.len() implies is_digit(#[trigger] more[i]) by {
                if i < digits.len() {
                    assert(more[i] == digits[i]);
                }
            }
        } else {
            let i = choose|i: int| 0 <= i < digits.len() && !is_digit(#[trigger] digits[i]);
            assert(!is_digit(more[i]));
        }
    }
}

/// A plus sign before a number that begins without one changes nothing.
pub proof fn law_plus_sign_changes_nothing(s: Seq<char>)
    requires
        s.len() == 0 || s[0] != '+',
    ensures
        port_number(seq!['+'] + s) == port_number(s),
{
    let signed = seq!['+'] + s;
    assert(signed.subrange(1, signed.len() as int) =~= s);
}

/// What holds a character that is no digit is no port number, unless that is a plus sign at its
/// start; and neither is what holds no digit.
pub proof fn law_port_holds_digits_alone(s: Seq<char>)
    ensures
        port_number(s) is Some ==> {
            &&& s.len() > 0
            &&& forall|i: int| 0 < i < s.len() ==> '0' <= #[trigger] s[i] <= '9'
            &&& s[0] == '+' || '0' <= s[0] <= '9'
            &&& '0' <= s.last() <= '9'
        },
{
    let d = unsigned_part(s);
    if port_number(s) is Some {
        let k = s.len() - d.len();
        assert forall|i: int| k <= i < s.len() implies '0' <= #[trigger] s[i] <= '9' by {
            assert(s[i] == d[i - k]);
            assert(is_digit(d[i - k]));
        }
    }
}

/// A port number is written without sign and without needless zeros.
pub proof fn law_port_is_written_plainly(n: u16)
    ensures
        decimal(n as int).len() > 0,
        forall|i: int|
            0 <= i < decimal(n as int).len() ==> '0' <= #[trigger] decimal(n as int)[i] <= '9',
        decimal(n as int)[0] == '0' ==> n == 0 && decimal(n as int).len() == 1,
{
    lemma_decimal_value(n as int);
    lemma_no_leading_zero(n as int);
    let s = decimal(n as int);
    assert forall|i: int| 0 <= i < s.len() implies '0' <= #[trigger] s[i] <= '9' by {
        assert(is_digit(s[i]));
    }
}

proof fn lemma_no_leading_zero(n: int)
    requires
        0 <= n,
    ensures
        decimal(n).len() > 0,
        decimal(n)[0] == '0' ==> n == 0 && decimal(n).len() == 1,
    decreases n,
{
    if n >= 10 {
        lemma_no_leading_zero(n / 10);
        assert(decimal(n)[0] == decimal(n / 10)[0]);
    }
}

} // verus!
