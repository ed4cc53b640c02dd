//! Reading integers from text the way `str::parse` does: an optional sign,
//! then one or more ASCII digits and nothing else, in range for the type.
use vstd::prelude::*;

use crate::text::{chars_of, decimal, digit_char, signed_decimal};

verus! {

pub open spec fn is_digit(c: char) -> bool {
    '0' <= c <= '9'
}

pub open spec fn digit_value(c: char) -> int {
    (c as u32) as int - 48
}

/// Whether `s` is one or more ASCII digits.
pub open spec fn all_digits(s: Seq<char>) -> bool {
    s.len() > 0 && forall|i: int| 0 <= i < s.len() ==> is_digit(#[trigger] s[i])
}

/// The value of a string of digits.
pub open spec fn digits_value(s: Seq<char>) -> int
    decreases s.len(),
{
    if s.len() == 0 {
        0
    } else {
        digits_value(s.drop_last()) * 10 + digit_value(s.last())
    }
}

/// The integer `s` spells, with an optional leading `+` (or `-`, when
/// `signed`), before any range check.
pub open spec fn integer_text(s: Seq<char>, signed: bool) -> Option<int> {
    let (negative, body) = if s.len() > 0 && s[0] == '+' {
        (false, s.drop_first())
    } else if signed && s.len() > 0 && s[0] == '-' {
        (true, s.drop_first())
    } else {
        (false, s)
    };
    if all_digits(body) {
        Some(if negative { -digits_value(body) } else { digits_value(body) })
    } else {
        None
    }
}

/// What parsing `s` gives for a type whose values run from `low` to `high`.
pub open spec fn parsed(s: Seq<char>, signed: bool, low: int, high: int) -> Option<int> {
    match integer_text(s, signed) {
        Some(v) => if low <= v <= high {
            Some(v)
        } else {
            None
        },
        None => None,
    }
}

proof fn lemma_digits_value_nonneg(s: Seq<char>)
    requires
        forall|i: int| 0 <= i < s.len() ==> is_digit(#[trigger] s[i]),
    ensures
        digits_value(s) >= 0,
    decreases s.len(),
{
    if s.len() > 0 {
        lemma_digits_value_nonneg(s.drop_last());
    }
}

/// A longer run of digits is worth at least as much as its prefix.
pub proof fn lemma_digits_value_grows(s: Seq<char>, i: int)
    requires
        0 <= i <= s.len(),
        forall|j: int| 0 <= j < s.len() ==> is_digit(#[trigger] s[j]),
    ensures
        digits_value(s.take(i)) <= digits_value(s),
    decreases s.len() - i,
{
    if i < s.len() {
        lemma_digits_value_grows(s, i + 1);
        assert(s.take(i + 1).drop_last() =~= s.take(i));
        lemma_digits_value_nonneg(s.take(i));
        assert(digits_value(s.take(i + 1)) == digits_value(s.take(i)) * 10 + digit_value(s[i]));
    } else {
        assert(s.take(i) =~= s);
    }
}

/// Parses an integer in `low..=high`.
fn parse_in(s: &str, signed: bool, low: i128, high: i128) -> (r: Option<i128>)
    requires
        -0x1_0000_0000_0000_0000 <= low <= 0,
        0 <= high <= 0x1_0000_0000_0000_0000,
    ensures
        match r {
            Some(v) => parsed(s@, signed, low as int, high as int) == Some(v as int),
            None => parsed(s@, signed, low as int, high as int) is None,
        },
{
    let cs = chars_of(s);
    let n = cs.len();
    let mut negative = false;
    let mut i: usize = 0;
    if n > 0 && cs[0] == '+' {
        i = 1;
    } else if signed && n > 0 && cs[0] == '-' {
        negative = true;
        i = 1;
    }
    let ghost body = s@.skip(i as int);
    proof {
        if i == 1 {
            assert(body =~= s@.drop_first());
        } else {
            assert(body =~= s@);
        }
    }
    if i >= n {
        return None;
    }
    let bound: i128 = if negative { -low } else { high };
    let mut acc: i128 = 0;
    let start = i;
    while i < n
        invariant
            cs@ == s@,
            n == s@.len(),
            start <= i <= n,
            start == (if s@.len() > 0 && s@[0] == '+' || signed && s@.len() > 0 && s@[0] == '-' { 1int } else { 0int }),
            body == s@.skip(start as int),
            0 <= bound <= 0x1_0000_0000_0000_0000,
            negative == (start == 1 && s@[0] == '-'),
            bound == (if negative { -low } else { high as int }),
            -0x1_0000_0000_0000_0000 <= low <= 0,
            0 <= high <= 0x1_0000_0000_0000_0000,
            forall|j: int| start <= j < i ==> is_digit(#[trigger] s@[j]),
            acc == digits_value(body.take(i - start)),
            0 <= acc <= bound,
        decreases n - i,
    {
        let c = cs[i];
        if !('0' <= c && c <= '9') {
            proof {
                assert(body[i - start] == c);
            }
            return None;
        }
        let d = (c as u32 - 48) as i128;
        proof {
            assert(body.take(i - start + 1).drop_last() =~= body.take(i - start));
            assert(body.take(i - start + 1).last() == c);
        }
        acc = acc * 10 + d;
        i = i + 1;
        if acc > bound {
            proof {
                assert(acc == digits_value(body.take(i - start)));
                if start == 1 {
                    assert(body =~= s@.drop_first());
                } else {
                    assert(body =~= s@);
                }
                if all_digits(body) {
                    lemma_digits_value_grows(body, i - start);
                    assert(digits_value(body) > bound);
                    if negative {
                        assert(integer_text(s@, signed) == Some(-digits_value(body)));
                    } else {
                        assert(integer_text(s@, signed) == Some(digits_value(body)));
                    }
                }
            }
            return None;
        }
    }
    proof {
        assert(body.take(i - start) =~= body);
        assert(all_digits(body));
        if start == 1 {
            assert(body =~= s@.drop_first());
        } else {
            assert(body =~= s@);
        }
    }
    if negative {
        Some(-acc)
    } else {
        Some(acc)
    }
}

pub fn parse_u32(s: &str) -> (r: Option<u32>)
    ensures
        match r {
            Some(v) => parsed(s@, false, 0, u32::MAX as int) == Some(v as int),
            None => parsed(s@, false, 0, u32::MAX as int) is None,
        },
{
    match parse_in(s, false, 0, 0xFFFF_FFFF) {
        Some(v) => Some(v as u32),
        None => None,
    }
}

pub fn parse_u64(s: &str) -> (r: Option<u64>)
    ensures
        match r {
            Some(v) => parsed(s@, false, 0, u64::MAX as int) == Some(v as int),
            None => parsed(s@, false, 0, u64::MAX as int) is None,
        },
{
    match parse_in(s, false, 0, 0xFFFF_FFFF_FFFF_FFFF) {
        Some(v) => Some(v as u64),
        None => None,
    }
}

pub fn parse_i32(s: &str) -> (r: Option<i32>)
    ensures
        match r {
            Some(v) => parsed(s@, true, i32::MIN as int, i32::MAX as int) == Some(v as int),
            None => parsed(s@, true, i32::MIN as int, i32::MAX as int) is None,
        },
{
    match parse_in(s, true, -0x8000_0000, 0x7FFF_FFFF) {
        Some(v) => Some(v as i32),
        None => None,
    }
}

pub fn parse_i64(s: &str) -> (r: Option<i64>)
    ensures
        match r {
            Some(v) => parsed(s@, true, i64::MIN as int, i64::MAX as int) == Some(v as int),
            None => parsed(s@, true, i64::MIN as int, i64::MAX as int) is None,
        },
{
    match parse_in(s, true, -0x8000_0000_0000_0000, 0x7FFF_FFFF_FFFF_FFFF) {
        Some(v) => Some(v as i64),
        None => None,
    }
}

/// `n / d` for `n >= 0`, rounded to the nearest integer, half up.
pub open spec fn rounded_up_half(n: int, d: int) -> int {
    n / d + if 2 * (n % d) >= d {
        1int
    } else {
        0
    }
}

/// `n / d` rounded to the nearest integer, half away from zero.
pub open spec fn rounded(n: int, d: int) -> int {
    if n >= 0 {
        rounded_up_half(n, d)
    } else {
        -rounded_up_half(-n, d)
    }
}

/// A rounded non-negative quotient stays within the bound of the quotient.
pub proof fn lemma_rounded_up_half(n: int, d: int, bound: int)
    requires
        0 <= n <= bound * d,
        d > 0,
        bound >= 0,
    ensures
        0 <= rounded_up_half(n, d) <= bound,
{
    assert(0 <= n / d <= bound) by (nonlinear_arith)
        requires
            0 <= n <= bound * d,
            d > 0,
    ;
    assert(n / d == bound ==> n % d == 0) by (nonlinear_arith)
        requires
            0 <= n <= bound * d,
            d > 0,
    ;
}

/// `n / d` rounded to the nearest integer, a tie going to the even one:
/// how a number is rounded when it is written to a fixed number of
/// decimals.
pub open spec fn rounded_even(n: int, d: int) -> int {
    if 2 * (n % d) > d || (2 * (n % d) == d && (n / d) % 2 == 1) {
        n / d + 1
    } else {
        n / d
    }
}

/// Rounding a tie to even never goes past rounding it up.
pub proof fn lemma_rounded_even_bound(n: int, d: int)
    requires
        0 <= n,
        d > 0,
    ensures
        0 <= rounded_even(n, d) <= rounded_up_half(n, d),
{
}

/// `n / d` rounded to the nearest integer, a tie going to the even one.
pub fn round_ratio_even(n: i128, d: i128) -> (r: i128)
    requires
        0 <= n < 0x1_0000_0000_0000_0000_0000_0000,
        0 < d < 0x1_0000_0000_0000_0000_0000_0000,
    ensures
        r == rounded_even(n as int, d as int),
{
    let q = n / d;
    let m = n % d;
    if 2 * m > d || (2 * m == d && q % 2 == 1) {
        q + 1
    } else {
        q
    }
}

/// `n / d` rounded to the nearest integer, half away from zero.
pub fn round_ratio(n: i128, d: i128) -> (r: i128)
    requires
        0 < d < 0x1_0000_0000_0000_0000_0000_0000,
        n > i128::MIN,
    ensures
        r == rounded(n as int, d as int),
{
    let m: i128 = if n >= 0 {
        n
    } else {
        -n
    };
    let q = m / d;
    let rest = m % d;
    assert(q <= m) by (nonlinear_arith)
        requires
            q == m / d,
            m >= 0,
            d > 0,
    ;
    assert(2 * rest >= d ==> q < m) by (nonlinear_arith)
        requires
            q == m / d,
            rest == m % d,
            m >= 0,
            d > 0,
    ;
    let up = q + if 2 * rest >= d {
        1
    } else {
        0
    };
    if n >= 0 {
        up
    } else {
        -up
    }
}


/// A digit written out reads back as itself.
pub(crate) proof fn lemma_digit_char(d: int)
    requires
        0 <= d < 10,
    ensures
        is_digit(digit_char(d)),
        digit_value(digit_char(d)) == d,
{
    let u = (d + 48) as u32;
    assert((u as char) as u32 == u);
}

/// Writing a natural number in decimal and reading the digits back gives
/// the number.
pub proof fn lemma_decimal_reads_back(n: nat)
    ensures
        all_digits(decimal(n)),
        digits_value(decimal(n)) == n,
    decreases n,
{
    if n < 10 {
        lemma_digit_char(n as int);
        assert(decimal(n).drop_last() =~= Seq::<char>::empty());
        assert(digits_value(decimal(n)) == digits_value(decimal(n).drop_last()) * 10 + digit_value(decimal(n).last()));
    } else {
        lemma_decimal_reads_back(n / 10);
        lemma_digit_char((n % 10) as int);
        let s = decimal(n);
        assert(s.drop_last() =~= decimal(n / 10));
        assert(s.last() == digit_char((n % 10) as int));
        assert(digits_value(s) == digits_value(decimal(n / 10)) * 10 + digit_value(s.last()));
        assert((n / 10) * 10 + n % 10 == n);
        assert forall|i: int| 0 <= i < s.len() implies is_digit(#[trigger] s[i]) by {
            if i < s.len() - 1 {
                assert(s[i] == decimal(n / 10)[i]);
            }
        }
    }
}

/// A number written with [`signed_decimal`] parses back to itself.
pub proof fn lemma_signed_decimal_reads_back(n: int)
    ensures
        integer_text(signed_decimal(n), true) == Some(n),
        n >= 0 ==> integer_text(signed_decimal(n), false) == Some(n),
{
    if n < 0 {
        let d = decimal((-n) as nat);
        lemma_decimal_reads_back((-n) as nat);
        let s = seq!['-'] + d;
        assert(s.drop_first() =~= d);
        assert(s[0] == '-');
    } else {
        lemma_decimal_reads_back(n as nat);
        let d = decimal(n as nat);
        assert(is_digit(d[0]));
    }
}
} // verus!
