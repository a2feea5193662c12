//! The two kinds of numeric token: signed decimal integers that fit in
//! sixty-four bits, and decimal floating-point literals.

use vstd::prelude::*;
use vstd::slice::slice_subrange;

verus! {

/// Whether `c` is one of the ten decimal digits.
pub open spec fn is_digit(c: char) -> bool {
    0x30 <= c as u32 <= 0x39
}

/// The number that the decimal digit `c` stands for.
pub open spec fn digit_value(c: char) -> int {
    c as u32 - 0x30
}

/// Whether every character of `s` is a decimal digit.
pub open spec fn all_digits(s: Seq<char>) -> bool {
    forall|i: int| 0 <= i < s.len() ==> is_digit(#[trigger] s[i])
}

/// The number that the digits of `s` write in base ten; 0 for no digits.
pub open spec fn decimal(s: Seq<char>) -> int
    decreases s.len(),
{
    if s.len() == 0 {
        0
    } else {
        decimal(s.drop_last()) * 10 + digit_value(s.last())
    }
}

/// Whether `s` starts with a plus or a minus sign.
pub open spec fn has_sign(s: Seq<char>) -> bool {
    s.len() > 0 && (s[0] == '+' || s[0] == '-')
}

/// `s` without its leading sign, if it has one.
pub open spec fn unsigned_part(s: Seq<char>) -> Seq<char> {
    if has_sign(s) {
        s.drop_first()
    } else {
        s
    }
}

/// The integer that `s` writes, if it writes one: an optional sign, then
/// one or more decimal digits and nothing else, with a value that fits in
/// a signed sixty-four-bit integer.
pub open spec fn integer_of(s: Seq<char>) -> Option<int> {
    let digits = unsigned_part(s);
    let value = if s.len() > 0 && s[0] == '-' {
        -decimal(digits)
    } else {
        decimal(digits)
    };
    if digits.len() > 0 && all_digits(digits) && i64::MIN <= value <= i64::MAX {
        Some(value)
    } else {
        None
    }
}

/// How many decimal digits `s` starts with.
pub open spec fn leading_digits(s: Seq<char>) -> int
    decreases s.len(),
{
    if s.len() > 0 && is_digit(s[0]) {
        1 + leading_digits(s.drop_first())
    } else {
        0
    }
}

/// Whether `s` is an exponent: the letter `e` in either case, an optional
/// sign, then one or more digits.
pub open spec fn is_exponent(s: Seq<char>) -> bool {
    &&& s.len() > 0
    &&& (s[0] == 'e' || s[0] == 'E')
    &&& unsigned_part(s.drop_first()).len() > 0
    &&& all_digits(unsigned_part(s.drop_first()))
}

/// What follows the mantissa of `s`: `s` without its leading digits and,
/// where a point follows them, without the point and the digits after it.
pub open spec fn after_mantissa(s: Seq<char>) -> Seq<char> {
    let rest = s.skip(leading_digits(s));
    if rest.len() > 0 && rest[0] == '.' {
        rest.drop_first().skip(leading_digits(rest.drop_first()))
    } else {
        rest
    }
}

/// How many digits the mantissa of `s` has, before and after the point.
pub open spec fn mantissa_digits(s: Seq<char>) -> int {
    let rest = s.skip(leading_digits(s));
    if rest.len() > 0 && rest[0] == '.' {
        leading_digits(s) + leading_digits(rest.drop_first())
    } else {
        leading_digits(s)
    }
}

/// Whether `s` is an unsigned decimal number: digits with at most one
/// point among them, at least one digit in all, and an optional exponent.
pub open spec fn is_decimal_number(s: Seq<char>) -> bool {
    mantissa_digits(s) > 0 && (after_mantissa(s).len() == 0 || is_exponent(after_mantissa(s)))
}

/// Whether `s` is a floating-point literal: an optional sign followed by a
/// decimal number. Words are no numbers: `inf`, `infinity` and `nan` are no
/// floating-point literals, in any case and with or without a sign.
pub open spec fn is_float_literal(s: Seq<char>) -> bool {
    is_decimal_number(unsigned_part(s))
}

/// The value of a digit string only grows when digits are appended.
pub proof fn lemma_decimal_grows(s: Seq<char>, k: int)
    requires
        0 <= k <= s.len(),
        all_digits(s),
    ensures
        0 <= decimal(s.take(k)) <= decimal(s),
    decreases s.len() - k,
{
    if k == s.len() {
        assert(s.take(k) =~= s);
        lemma_decimal_nonnegative(s);
    } else {
        let t = s.drop_last();
        assert(t.take(k) =~= s.take(k));
        assert forall|i: int| 0 <= i < t.len() implies is_digit(#[trigger] t[i]) by {
            assert(t[i] == s[i]);
        }
        lemma_decimal_grows(t, k);
        assert(is_digit(s[s.len() - 1]));
    }
}

/// A digit string writes a number that is not negative.
pub proof fn lemma_decimal_nonnegative(s: Seq<char>)
    requires
        all_digits(s),
    ensures
        0 <= decimal(s),
    decreases s.len(),
{
    if s.len() > 0 {
        let t = s.drop_last();
        assert forall|i: int| 0 <= i < t.len() implies is_digit(#[trigger] t[i]) by {
            assert(t[i] == s[i]);
        }
        lemma_decimal_nonnegative(t);
        assert(is_digit(s[s.len() - 1]));
    }
}

/// The leading digits of `s` end at `k` when the first `k` characters are
/// digits and the next one, if there is one, is not.
pub proof fn lemma_leading_digits_is(s: Seq<char>, k: int)
    requires
        0 <= k <= s.len(),
        forall|i: int| 0 <= i < k ==> is_digit(s[i]),
        k < s.len() ==> !is_digit(s[k]),
    ensures
        leading_digits(s) == k,
    decreases k,
{
    if k > 0 {
        let t = s.drop_first();
        assert forall|i: int| 0 <= i < k - 1 implies is_digit(t[i]) by {
            assert(t[i] == s[i + 1]);
        }
        if k < s.len() {
            assert(t[k - 1] == s[k]);
        }
        lemma_leading_digits_is(t, k - 1);
    }
}

/// Whether `c` is a decimal digit.
pub fn is_decimal_digit(c: char) -> (b: bool)
    ensures
        b == is_digit(c),
{
    let n: u32 = c as u32;
    0x30 <= n && n <= 0x39
}

/// The index of the first character at or after `from` that is no digit,
/// or the length of `s`.
fn skip_digits(s: &[char], from: usize) -> (to: usize)
    requires
        from <= s@.len(),
    ensures
        from <= to <= s@.len(),
        to - from == leading_digits(s@.skip(from as int)),
        forall|i: int| from <= i < to ==> is_digit(s@[i]),
        to < s@.len() ==> !is_digit(s@[to as int]),
{
    let n: usize = s.len();
    let mut to: usize = from;
    while to < n && is_decimal_digit(s[to])
        invariant
            from <= to <= n,
            n == s@.len(),
            forall|i: int| from <= i < to ==> is_digit(s@[i]),
        decreases n - to,
    {
        to += 1;
    }
    proof {
        let t = s@.skip(from as int);
        assert forall|i: int| 0 <= i < to - from implies is_digit(t[i]) by {
            assert(t[i] == s@[from + i]);
        }
        lemma_leading_digits_is(t, to - from);
    }
    to
}

/// The integer that `s` writes, if it writes one that fits.
pub fn parse_integer(s: &[char]) -> (out: Option<i64>)
    ensures
        match out {
            Some(n) => integer_of(s@) == Some(n as int),
            None => integer_of(s@) is None,
        },
{
    let n: usize = s.len();
    if n == 0 {
        return None;
    }
    let negative: bool = s[0] == '-';
    let start: usize = if s[0] == '-' || s[0] == '+' {
        1
    } else {
        0
    };
    if start == n {
        return None;
    }
    let ghost digits = unsigned_part(s@);
    assert(digits =~= s@.skip(start as int));
    let limit: u64 = 0x8000_0000_0000_0000;
    let mut acc: u64 = 0;
    let mut i: usize = start;
    while i < n
        invariant
            start <= i <= n,
            n == s@.len(),
            digits == s@.skip(start as int),
            digits == unsigned_part(s@),
            digits.len() > 0,
            limit == 0x8000_0000_0000_0000,
            forall|j: int| 0 <= j < i - start ==> is_digit(#[trigger] digits[j]),
            acc == decimal(digits.take(i - start)),
            acc <= limit,
        decreases n - i,
    {
        let c: char = s[i];
        assert(digits[i - start] == c);
        if !is_decimal_digit(c) {
            assert(!is_digit(digits[i - start]));
            return None;
        }
        let d: u64 = (c as u32 - 0x30) as u64;
        let ghost next = digits.take(i - start + 1);
        proof {
            assert(next.drop_last() =~= digits.take(i - start));
            assert(next.last() == c);
            assert(decimal(next) == acc * 10 + d);
        }
        if acc > (limit - d) / 10 {
            proof {
                assert(acc * 10 + d > limit);
                if all_digits(digits) {
                    lemma_decimal_grows(digits, i - start + 1);
                }
                assert(!all_digits(digits) || decimal(digits) > limit);
            }
            return None;
        }
        acc = acc * 10 + d;
        i += 1;
    }
    assert(digits.take(n - start) =~= digits);
    if negative {
        if acc == limit {
            Some(i64::MIN)
        } else {
            Some(-(acc as i64))
        }
    } else if acc == limit {
        None
    } else {
        Some(acc as i64)
    }
}

/// Whether what stands in `s` from `p` on is an exponent.
fn is_exponent_at(s: &[char], p: usize) -> (b: bool)
    requires
        p < s@.len(),
    ensures
        b == is_exponent(s@.skip(p as int)),
{
    let n: usize = s.len();
    let ghost tail = s@.skip(p as int);
    assert(tail[0] == s@[p as int]);
    if s[p] != 'e' && s[p] != 'E' {
        return false;
    }
    let mut q: usize = p + 1;
    assert(tail.drop_first() =~= s@.skip(q as int));
    if q < n && (s[q] == '+' || s[q] == '-') {
        assert(tail.drop_first()[0] == s@[q as int]);
        assert(tail.drop_first().drop_first() =~= s@.skip(q + 1));
        q += 1;
    }
    let ghost exp = unsigned_part(tail.drop_first());
    assert(exp =~= s@.skip(q as int)) by {
        if q == p + 1 && q < n {
            assert(tail.drop_first()[0] == s@[q as int]);
        }
    }
    let end: usize = skip_digits(s, q);
    proof {
        if end == n {
            assert forall|i: int| 0 <= i < exp.len() implies is_digit(#[trigger] exp[i]) by {
                assert(exp[i] == s@[q + i]);
            }
        } else {
            assert(exp[end - q] == s@[end as int]);
            assert(!is_digit(exp[end - q]));
        }
    }
    end == n && q < n
}

/// Whether `s` is an unsigned decimal number.
fn is_number(s: &[char]) -> (b: bool)
    ensures
        b == is_decimal_number(s@),
{
    let n: usize = s.len();
    assert(s@.skip(0) =~= s@);
    let int_end: usize = skip_digits(s, 0);
    let ghost rest = s@.skip(int_end as int);
    let mut digits: usize = int_end;
    let mut p: usize = int_end;
    if p < n && s[p] == '.' {
        assert(rest[0] == s@[p as int]);
        assert(rest.drop_first() =~= s@.skip(int_end + 1));
        p = skip_digits(s, int_end + 1);
        digits = digits + (p - int_end - 1);
        assert(rest.drop_first().skip(leading_digits(rest.drop_first())) =~= s@.skip(p as int));
    } else if p < n {
        assert(rest[0] == s@[p as int]);
    }
    assert(after_mantissa(s@) == s@.skip(p as int));
    assert(mantissa_digits(s@) == digits);
    if digits == 0 {
        false
    } else if p == n {
        true
    } else {
        is_exponent_at(s, p)
    }
}

/// Whether `s` is a floating-point literal.
pub fn is_float(s: &[char]) -> (b: bool)
    ensures
        b == is_float_literal(s@),
{
    let n: usize = s.len();
    let start: usize = if n > 0 && (s[0] == '+' || s[0] == '-') {
        1
    } else {
        0
    };
    let body = slice_subrange(s, start, n);
    assert(body@ =~= unsigned_part(s@));
    is_number(body)
}

/// A floating-point literal starts, after its sign if it has one, with a
/// digit or with the point.
pub proof fn lemma_float_starts_as_number(s: Seq<char>)
    requires
        is_float_literal(s),
    ensures
        unsigned_part(s).len() > 0,
        is_digit(unsigned_part(s)[0]) || unsigned_part(s)[0] == '.',
{
    let body = unsigned_part(s);
    if body.len() == 0 || !is_digit(body[0]) {
        assert(leading_digits(body) == 0);
        assert(body.skip(0) =~= body);
    }
}

} // verus!
