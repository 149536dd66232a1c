//! Override flags: short strings that pin a routing decision one way or the
//! other.

use vstd::prelude::*;
use vstd::string::StrSliceExecFns;

verus! {

/// The text `"0"`, which switches an override off.
pub open spec fn is_zero_text(s: Seq<char>) -> bool {
    s == seq!['0']
}

/// The text `"1"`, which switches an override on.
pub open spec fn is_one_text(s: Seq<char>) -> bool {
    s == seq!['1']
}

/// The text behind an optional flag.
pub open spec fn flag_text(flag: Option<&str>) -> Option<Seq<char>> {
    match flag {
        Some(v) => Some(v@),
        None => None,
    }
}

/// Whether two texts are equal, character by character.
pub fn text_eq(a: &str, b: &str) -> (r: bool)
    ensures
        r == (a@ == b@),
{
    let n: usize = a.unicode_len();
    if n != b.unicode_len() {
        return false;
    }
    let mut i: usize = 0;
    while i < n
        invariant
            i <= n,
            n == a@.len(),
            n == b@.len(),
            forall|j: int| 0 <= j < i ==> a@[j] == b@[j],
        decreases n - i,
    {
        if a.get_char(i) != b.get_char(i) {
            return false;
        }
        i = i + 1;
    }
    assert(a@ =~= b@);
    true
}

/// Whether the text is `"0"`.
pub fn text_is_zero(s: &str) -> (r: bool)
    ensures
        r == is_zero_text(s@),
        r <==> s@.len() == 1 && s@[0] == '0',
{
    if s.unicode_len() != 1 {
        return false;
    }
    let r: bool = s.get_char(0) == '0';
    assert(r ==> s@ =~= seq!['0']);
    r
}

/// Whether the text is `"1"`.
pub fn text_is_one(s: &str) -> (r: bool)
    ensures
        r == is_one_text(s@),
        r <==> s@.len() == 1 && s@[0] == '1',
{
    if s.unicode_len() != 1 {
        return false;
    }
    let r: bool = s.get_char(0) == '1';
    assert(r ==> s@ =~= seq!['1']);
    r
}

/// Whether a flag is set to `"1"`.
pub open spec fn flag_on(flag: Option<&str>) -> bool {
    flag_text(flag) matches Some(t) && is_one_text(t)
}

/// Whether a flag is set to `"0"`.
pub open spec fn flag_off(flag: Option<&str>) -> bool {
    flag_text(flag) matches Some(t) && is_zero_text(t)
}

/// Whether a flag is set to `"1"`.
pub fn is_flag_on(flag: Option<&str>) -> (r: bool)
    ensures
        r == flag_on(flag),
        r <==> flag is Some && flag->0@ == seq!['1'],
{
    match flag {
        Some(v) => text_is_one(v),
        None => false,
    }
}

/// Whether a flag is set to `"0"`.
pub fn is_flag_off(flag: Option<&str>) -> (r: bool)
    ensures
        r == flag_off(flag),
        r <==> flag is Some && flag->0@ == seq!['0'],
{
    match flag {
        Some(v) => text_is_zero(v),
        None => false,
    }
}

/// The value of a decimal digit.
pub open spec fn digit_value(c: char) -> int {
    c as int - '0' as int
}

/// Whether a character is a decimal digit.
pub open spec fn is_digit(c: char) -> bool {
    '0' <= c && c <= '9'
}

/// The number that a run of decimal digits writes down.
pub open spec fn decimal_value(s: Seq<char>) -> int
    decreases s.len(),
{
    if s.len() == 0 {
        0
    } else {
        decimal_value(s.drop_last()) * 10 + digit_value(s.last())
    }
}

/// The digits of a count: the text without one leading plus sign.
pub open spec fn count_digits(s: Seq<char>) -> Seq<char> {
    if s.len() > 0 && s[0] == '+' {
        s.subrange(1, s.len() as int)
    } else {
        s
    }
}

/// The count that a text writes down: an optional plus sign, then at least one
/// decimal digit and nothing else, with a value that fits a `usize`.
pub open spec fn parsed_count(s: Seq<char>) -> Option<usize> {
    let d = count_digits(s);
    if d.len() > 0 && (forall|i: int| 0 <= i < d.len() ==> is_digit(#[trigger] d[i]))
        && decimal_value(d) <= usize::MAX {
        Some(decimal_value(d) as usize)
    } else {
        None
    }
}

proof fn lemma_decimal_nonneg(s: Seq<char>)
    requires
        forall|i: int| 0 <= i < s.len() ==> is_digit(#[trigger] s[i]),
    ensures
        decimal_value(s) >= 0,
    decreases s.len(),
{
    if s.len() > 0 {
        assert forall|i: int| 0 <= i < s.drop_last().len() implies is_digit(
            #[trigger] s.drop_last()[i],
        ) by {
            assert(s.drop_last()[i] == s[i]);
        }
        lemma_decimal_nonneg(s.drop_last());
        assert(is_digit(s[s.len() - 1]));
    }
}

/// A longer run of digits never writes down a smaller number.
proof fn lemma_decimal_prefix(s: Seq<char>, n: int)
    requires
        0 <= n <= s.len(),
        forall|i: int| 0 <= i < s.len() ==> is_digit(#[trigger] s[i]),
    ensures
        decimal_value(s.take(n)) <= decimal_value(s),
    decreases s.len(),
{
    if n == s.len() {
        assert(s.take(n) =~= s);
    } else {
        let p = s.drop_last();
        assert forall|i: int| 0 <= i < p.len() implies is_digit(#[trigger] p[i]) by {
            assert(p[i] == s[i]);
        }
        lemma_decimal_prefix(p, n);
        assert(p.take(n) =~= s.take(n));
        lemma_decimal_nonneg(p);
        assert(is_digit(s[s.len() - 1]));
    }
}

/// Reads a count from a text, the way an override flag writes one.
pub fn parse_count(s: &str) -> (r: Option<usize>)
    ensures
        r == parsed_count(s@),
{
    let n: usize = s.unicode_len();
    let start: usize = if n > 0 && s.get_char(0) == '+' {
        1
    } else {
        0
    };
    let ghost d = count_digits(s@);
    assert(d.len() == n - start);
    assert(forall|i: int| 0 <= i < d.len() ==> d[i] == s@[i + start]);
    if n == start {
        return None;
    }
    let mut value: usize = 0;
    let mut i: usize = start;
    proof {
        assert(d.take(0) =~= Seq::<char>::empty());
    }
    while i < n
        invariant
            start <= i <= n,
            n == s@.len(),
            start <= 1,
            d == count_digits(s@),
            d.len() == n - start,
            forall|j: int| 0 <= j < d.len() ==> d[j] == s@[j + start],
            forall|j: int| 0 <= j < i - start ==> is_digit(#[trigger] d[j]),
            value == decimal_value(d.take(i - start)),
        decreases n - i,
    {
        let c: char = s.get_char(i);
        let ghost k = i - start;
        assert(d[k] == c);
        if !(c >= '0' && c <= '9') {
            assert(!is_digit(d[k]));
            return None;
        }
        let digit: usize = (c as u32 - '0' as u32) as usize;
        proof {
            assert(d.take(k + 1).drop_last() =~= d.take(k));
            assert(d.take(k + 1).last() == c);
            assert(decimal_value(d.take(k + 1)) == value * 10 + digit);
            if forall|j: int| 0 <= j < d.len() ==> is_digit(#[trigger] d[j]) {
                lemma_decimal_prefix(d, k + 1);
            }
        }
        match value.checked_mul(10) {
            Some(v) => match v.checked_add(digit) {
                Some(w) => {
                    value = w;
                },
                None => {
                    return None;
                },
            },
            None => {
                return None;
            },
        }
        i = i + 1;
    }
    proof {
        assert(d.take(n - start) =~= d);
    }
    Some(value)
}

/// Decimal digits count by position: the digits of `a` stand before those of `b`
/// and are worth ten times as much for each of these. A single digit is worth
/// its place after zero.
pub proof fn lemma_decimal_positions(a: Seq<char>, b: Seq<char>, c: char)
    ensures
        decimal_value(a + b) == decimal_value(a) * vstd::arithmetic::power::pow(10, b.len())
            + decimal_value(b),
        decimal_value(seq![c]) == c as int - 48,
    decreases b.len(),
{
    assert(seq![c].drop_last() =~= Seq::<char>::empty());
    assert(decimal_value(Seq::<char>::empty()) == 0);
    if b.len() == 0 {
        vstd::arithmetic::power::lemma_pow0(10);
        assert(a + b =~= a);
        assert(decimal_value(a) * 1 == decimal_value(a));
    } else {
        let less = b.drop_last();
        lemma_decimal_positions(a, less, c);
        assert((a + b).drop_last() =~= a + less);
        assert((a + b).last() == b.last());
        let p = vstd::arithmetic::power::pow(10, less.len());
        vstd::arithmetic::power::lemma_pow_adds(10, less.len(), 1);
        vstd::arithmetic::power::lemma_pow1(10);
        let v = decimal_value(a);
        assert((v * p) * 10 == v * (p * 10)) by (nonlinear_arith);
    }
}

/// A count is read exactly where a text is digits, with at most one plus sign
/// before them, and its value fits; anything else is no count.
pub proof fn lemma_counts_are_digits(s: Seq<char>, i: int)
    requires
        0 <= i < s.len(),
        i > 0 || s[0] != '+',
        s[i] < '0' || s[i] > '9',
    ensures
        parsed_count(s) is None,
        parsed_count(Seq::empty()) is None,
        parsed_count(seq!['+']) is None,
{
    let d = count_digits(s);
    if s[0] == '+' {
        assert(d[i - 1] == s[i]);
        assert(!is_digit(d[i - 1]));
    } else {
        assert(!is_digit(d[i]));
    }
}

/// A text of digits whose value fits is read as that value, with a plus sign
/// before it and without.
pub proof fn lemma_digits_are_counts(d: Seq<char>)
    requires
        d.len() > 0,
        forall|i: int| 0 <= i < d.len() ==> '0' <= #[trigger] d[i] && d[i] <= '9',
        decimal_value(d) <= usize::MAX,
    ensures
        parsed_count(d) == Some(decimal_value(d) as usize),
        parsed_count(seq!['+'] + d) == Some(decimal_value(d) as usize),
{
    assert(d[0] != '+');
    assert((seq!['+'] + d).subrange(1, d.len() as int + 1) =~= d);
    assert forall|i: int| 0 <= i < d.len() implies is_digit(#[trigger] d[i]) by {}
}

} // verus!
