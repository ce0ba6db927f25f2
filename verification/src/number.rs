//! Numbers as the numeric indexes order them: a decimal literal times one
//! thousand, rounded to the nearest whole number, as an `i64`. A half is
//! rounded away from zero.
//!
//! A literal is an optional sign, digits with an optional decimal point (at
//! least one digit in all), and an optional exponent: `30`, `-2.5`, `.75`,
//! `1e3`, `1.5E-7`. The computation is exact decimal arithmetic: `1.001`
//! gives `1001`, `2.9999` gives `3000`, `0.0005` gives `1`, `0.0004` gives
//! `0`, `1e16` is out of range.

use crate::text::chars_of;
use vstd::arithmetic::div_mod::{
    lemma_basic_div, lemma_div_denominator, lemma_hoist_over_denominator,
};
use vstd::prelude::*;

verus! {

/// A decimal digit.
pub open spec fn is_digit(c: char) -> bool {
    '0' <= c <= '9'
}

/// The number a digit stands for.
pub open spec fn digit_of(c: char) -> nat {
    (c as int - '0' as int) as nat
}

/// Whether a text consists of digits only.
pub open spec fn all_digits(d: Seq<char>) -> bool {
    forall|i: int| 0 <= i < d.len() ==> is_digit(#[trigger] d[i])
}

/// The number that a run of digits spells.
pub open spec fn decimal_value(d: Seq<char>) -> nat
    decreases d.len(),
{
    if d.len() == 0 {
        0
    } else {
        decimal_value(d.drop_last()) * 10 + digit_of(d.last())
    }
}

/// Ten to the power `n`.
pub open spec fn pow10(n: nat) -> nat
    decreases n,
{
    if n == 0 {
        1
    } else {
        10 * pow10((n - 1) as nat)
    }
}

/// Position of the first character at or after `from` that is no digit; the
/// length if there is none.
pub open spec fn digits_end(s: Seq<char>, from: int) -> int
    decreases s.len() - from,
{
    if from < 0 || from >= s.len() {
        s.len() as int
    } else if !is_digit(s[from]) {
        from
    } else {
        digits_end(s, from + 1)
    }
}

/// A decimal literal taken apart: its sign, the digits before and after the
/// point in one run, and the power of ten by which that run is to be
/// multiplied to give one thousand times the literal's value.
pub struct Literal {
    pub negative: bool,
    pub digits: Seq<char>,
    pub shift: int,
}

pub open spec fn is_sign(c: char) -> bool {
    c == '-' || c == '+'
}

/// Reads `s` as a decimal literal.
pub open spec fn literal_of(s: Seq<char>) -> Option<Literal> {
    let signed = s.len() > 0 && is_sign(s[0]);
    let negative = s.len() > 0 && s[0] == '-';
    let whole_at: int = if signed {
        1
    } else {
        0
    };
    let point_at = digits_end(s, whole_at);
    let pointed = point_at < s.len() && s[point_at] == '.';
    let fraction_at = if pointed {
        point_at + 1
    } else {
        point_at
    };
    let mantissa_end = if pointed {
        digits_end(s, fraction_at)
    } else {
        point_at
    };
    let digits = s.subrange(whole_at, point_at) + s.subrange(fraction_at, mantissa_end);
    if digits.len() == 0 {
        None
    } else if mantissa_end == s.len() {
        Some(Literal { negative, digits, shift: 3 - (mantissa_end - fraction_at) })
    } else if s[mantissa_end] == 'e' || s[mantissa_end] == 'E' {
        let sign_at = mantissa_end + 1;
        let power_at = if sign_at < s.len() && is_sign(s[sign_at]) {
            sign_at + 1
        } else {
            sign_at
        };
        if power_at < s.len() && digits_end(s, power_at) == s.len() {
            let e = decimal_value(s.subrange(power_at, s.len() as int)) as int;
            let exponent = if s[sign_at] == '-' {
                -e
            } else {
                e
            };
            Some(Literal { negative, digits, shift: exponent + 3 - (mantissa_end - fraction_at) })
        } else {
            None
        }
    } else {
        None
    }
}

/// One thousand times the literal's absolute value, rounded to the nearest
/// whole number, a half upwards.
pub open spec fn magnitude(l: Literal) -> nat {
    let m = decimal_value(l.digits);
    if l.shift >= 0 {
        m * pow10(l.shift as nat)
    } else {
        let k = (-l.shift) as nat;
        (m + 5 * pow10((k - 1) as nat)) / pow10(k)
    }
}

/// The index key of a numeric text: one thousand times its value, rounded
/// to the nearest whole number, a half away from zero; `None` if the text
/// is no decimal literal or the result is no `i64`.
pub open spec fn normalized(s: Seq<char>) -> Option<i64> {
    match literal_of(s) {
        None => None,
        Some(l) => {
            let n: int = if l.negative {
                -(magnitude(l) as int)
            } else {
                magnitude(l) as int
            };
            if i64::MIN <= n <= i64::MAX {
                Some(n as i64)
            } else {
                None
            }
        },
    }
}

pub proof fn lemma_digits_end(s: Seq<char>, from: int)
    requires
        0 <= from <= s.len(),
    ensures
        from <= digits_end(s, from) <= s.len(),
        digits_end(s, from) < s.len() ==> !is_digit(s[digits_end(s, from)]),
        all_digits(s.subrange(from, digits_end(s, from))),
    decreases s.len() - from,
{
    if from < s.len() && is_digit(s[from]) {
        lemma_digits_end(s, from + 1);
        let e = digits_end(s, from);
        assert forall|i: int| 0 <= i < e - from implies is_digit(
            #[trigger] s.subrange(from, e)[i],
        ) by {
            if i > 0 {
                assert(s.subrange(from, e)[i] == s.subrange(from + 1, e)[i - 1]);
            }
        }
    }
}

pub proof fn lemma_pow10_positive(n: nat)
    ensures
        pow10(n) > 0,
    decreases n,
{
    if n > 0 {
        lemma_pow10_positive((n - 1) as nat);
    }
}

pub proof fn lemma_pow10_monotone(a: nat, b: nat)
    requires
        a <= b,
    ensures
        pow10(a) <= pow10(b),
    decreases b,
{
    if a < b {
        lemma_pow10_monotone(a, (b - 1) as nat);
        lemma_pow10_positive((b - 1) as nat);
    }
}

pub proof fn lemma_pow10_twenty()
    ensures
        pow10(20) == 100_000_000_000_000_000_000nat,
{
    reveal_with_fuel(pow10, 21);
}

/// A run of `n` digits spells a number below ten to the `n`.
pub proof fn lemma_value_bound(d: Seq<char>)
    requires
        all_digits(d),
    ensures
        decimal_value(d) < pow10(d.len()),
    decreases d.len(),
{
    if d.len() > 0 {
        assert(all_digits(d.drop_last())) by {
            assert forall|i: int| 0 <= i < d.drop_last().len() implies is_digit(
                #[trigger] d.drop_last()[i],
            ) by {
                assert(d.drop_last()[i] == d[i]);
            }
        }
        lemma_value_bound(d.drop_last());
        assert(is_digit(d[d.len() - 1]));
    }
}

/// Dropping the last `n - k` digits divides by ten to the `n - k`.
pub proof fn lemma_prefix_div(d: Seq<char>, k: int)
    requires
        all_digits(d),
        0 <= k <= d.len(),
    ensures
        decimal_value(d.take(k)) == decimal_value(d) / pow10((d.len() - k) as nat),
    decreases d.len(),
{
    if k == d.len() {
        assert(d.take(k) =~= d);
        assert(pow10(0) == 1);
        assert(decimal_value(d) / 1 == decimal_value(d));
    } else {
        let front = d.drop_last();
        assert(all_digits(front)) by {
            assert forall|i: int| 0 <= i < front.len() implies is_digit(#[trigger] front[i]) by {
                assert(front[i] == d[i]);
            }
        }
        assert(d.take(k) =~= front.take(k));
        lemma_prefix_div(front, k);
        let x = decimal_value(d) as int;
        let y = decimal_value(front) as int;
        let last = digit_of(d.last()) as int;
        assert(is_digit(d[d.len() - 1]));
        assert(x == y * 10 + last && 0 <= last < 10);
        assert(x / 10 == y) by {
            vstd::arithmetic::div_mod::lemma_fundamental_div_mod_converse(x, 10, y, last);
        }
        let p = pow10((front.len() - k) as nat) as int;
        lemma_pow10_positive((front.len() - k) as nat);
        lemma_div_denominator(x, 10, p);
        assert(pow10((d.len() - k) as nat) == 10 * p) by {
            assert((d.len() - k) as nat - 1 == (front.len() - k) as nat);
        }
        assert(decimal_value(front.take(k)) == y / p);
        assert((x / 10) / p == x / (10 * p));
        assert(decimal_value(d.take(k)) == x / (10 * p));
    }
}

/// A longer prefix of a run of digits spells no smaller a number.
pub proof fn lemma_prefix_monotone(d: Seq<char>, j: int, k: int)
    requires
        0 <= j <= k <= d.len(),
    ensures
        decimal_value(d.take(j)) <= decimal_value(d.take(k)),
    decreases k - j,
{
    if j < k {
        lemma_prefix_monotone(d, j, k - 1);
        assert(d.take(k).drop_last() =~= d.take(k - 1));
    }
}

/// The greatest magnitude that can still give an `i64`: two to the 63.
pub const MAGNITUDE_LIMIT: u128 = 9_223_372_036_854_775_808;

/// Exponents above this bound are only known to be above it.
pub const EXPONENT_LIMIT: u128 = 1_000_000_000_000_000_000_000_000_000_000;

/// Whether a character is a decimal digit.
pub fn is_digit_char(c: char) -> (r: bool)
    ensures
        r == is_digit(c),
{
    c >= '0' && c <= '9'
}

/// The number a digit stands for.
pub fn digit_value(c: char) -> (r: u128)
    requires
        is_digit(c),
    ensures
        r == digit_of(c),
        r < 10,
{
    (c as u32 - '0' as u32) as u128
}

/// Finds the first character at or after `from` that is no digit.
fn digits_end_from(chars: &Vec<char>, from: usize) -> (r: usize)
    requires
        from <= chars.len(),
    ensures
        r == digits_end(chars@, from as int),
        from <= r <= chars.len(),
{
    let mut i: usize = from;
    while i < chars.len() && is_digit_char(chars[i])
        invariant
            from <= i <= chars.len(),
            digits_end(chars@, from as int) == digits_end(chars@, i as int),
        decreases chars.len() - i,
    {
        i = i + 1;
    }
    i
}

/// The number spelled by the first `k` of `digits`, if it is no more than
/// [`MAGNITUDE_LIMIT`].
fn prefix_value(digits: &Vec<char>, k: usize) -> (r: Option<u128>)
    requires
        all_digits(digits@),
        k <= digits.len(),
    ensures
        match r {
            Some(v) => v == decimal_value(digits@.take(k as int)) && v <= MAGNITUDE_LIMIT,
            None => decimal_value(digits@.take(k as int)) > MAGNITUDE_LIMIT,
        },
{
    let mut acc: u128 = 0;
    let mut i: usize = 0;
    assert(digits@.take(0) =~= Seq::<char>::empty());
    while i < k
        invariant
            i <= k <= digits.len(),
            all_digits(digits@),
            acc == decimal_value(digits@.take(i as int)),
            acc <= MAGNITUDE_LIMIT,
        decreases k - i,
    {
        let d = digit_value(digits[i]);
        acc = acc * 10 + d;
        i = i + 1;
        proof {
            assert(digits@.take(i as int).drop_last() =~= digits@.take(i - 1));
        }
        if acc > MAGNITUDE_LIMIT {
            proof {
                lemma_prefix_monotone(digits@, i as int, k as int);
            }
            return None;
        }
    }
    Some(acc)
}

/// `m` times ten to the `shift`, if it is no more than [`MAGNITUDE_LIMIT`].
fn scale_up(m: u128, shift: u128) -> (r: Option<u128>)
    requires
        1 <= m <= MAGNITUDE_LIMIT,
    ensures
        match r {
            Some(v) => v == m * pow10(shift as nat) && v <= MAGNITUDE_LIMIT,
            None => m * pow10(shift as nat) > MAGNITUDE_LIMIT,
        },
{
    if shift > 19 {
        proof {
            lemma_pow10_twenty();
            lemma_pow10_monotone(20, shift as nat);
            assert(m * pow10(shift as nat) >= pow10(shift as nat)) by (nonlinear_arith)
                requires
                    m >= 1,
            ;
        }
        return None;
    }
    let mut acc: u128 = m;
    let mut j: u128 = 0;
    assert(m * pow10(0) == m) by (nonlinear_arith)
        requires
            pow10(0) == 1,
    ;
    while j < shift
        invariant
            j <= shift <= 19,
            acc == m * pow10(j as nat),
            1 <= acc <= MAGNITUDE_LIMIT,
            m >= 1,
        decreases shift - j,
    {
        proof {
            assert(m * pow10((j + 1) as nat) == (m * pow10(j as nat)) * 10) by (nonlinear_arith)
                requires
                    pow10((j + 1) as nat) == 10 * pow10(j as nat),
            ;
        }
        acc = acc * 10;
        j = j + 1;
        if acc > MAGNITUDE_LIMIT {
            proof {
                lemma_pow10_monotone(j as nat, shift as nat);
                assert(m * pow10(j as nat) <= m * pow10(shift as nat)) by (nonlinear_arith)
                    requires
                        pow10(j as nat) <= pow10(shift as nat),
                        m >= 1,
                ;
            }
            return None;
        }
    }
    Some(acc)
}

/// The number spelled by the digits from `from` to the end, or the fact
/// that it is above [`EXPONENT_LIMIT`].
fn exponent_value(chars: &Vec<char>, from: usize) -> (r: Option<u128>)
    requires
        from <= chars.len(),
        all_digits(chars@.subrange(from as int, chars.len() as int)),
    ensures
        match r {
            Some(v) => v == decimal_value(chars@.subrange(from as int, chars.len() as int)) && v
                <= EXPONENT_LIMIT,
            None => decimal_value(chars@.subrange(from as int, chars.len() as int))
                > EXPONENT_LIMIT,
        },
{
    let ghost run = chars@.subrange(from as int, chars.len() as int);
    let mut acc: u128 = 0;
    let mut i: usize = from;
    assert(run.take(0) =~= Seq::<char>::empty());
    while i < chars.len()
        invariant
            from <= i <= chars.len(),
            run == chars@.subrange(from as int, chars.len() as int),
            all_digits(run),
            acc == decimal_value(run.take(i - from)),
            acc <= EXPONENT_LIMIT,
        decreases chars.len() - i,
    {
        assert(chars@[i as int] == run[i - from]);
        let d = digit_value(chars[i]);
        acc = acc * 10 + d;
        i = i + 1;
        proof {
            assert(run.take(i - from).drop_last() =~= run.take(i - from - 1));
        }
        if acc > EXPONENT_LIMIT {
            proof {
                lemma_prefix_monotone(run, i - from, run.len() as int);
                assert(run.take(run.len() as int) =~= run);
            }
            return None;
        }
    }
    assert(run.take(i - from) =~= run);
    Some(acc)
}

/// Puts the sign to a magnitude.
fn signed(negative: bool, mag: u128) -> (r: Option<i64>)
    requires
        mag <= MAGNITUDE_LIMIT,
    ensures
        r == ({
            let n: int = if negative {
                -(mag as int)
            } else {
                mag as int
            };
            if i64::MIN <= n <= i64::MAX {
                Some(n as i64)
            } else {
                None
            }
        }),
{
    if negative {
        if mag == MAGNITUDE_LIMIT {
            Some(i64::MIN)
        } else {
            Some(-(mag as i64))
        }
    } else if mag == MAGNITUDE_LIMIT {
        None
    } else {
        Some(mag as i64)
    }
}

/// An exponent as far as it matters: its value, or the direction in which
/// it lies beyond [`EXPONENT_LIMIT`].
enum Exponent {
    Exact(i128),
    FarUp,
    FarDown,
}

/// A literal taken apart, in machine terms.
struct Parts {
    negative: bool,
    digits: Vec<char>,
    fraction: usize,
    exponent: Exponent,
}

impl Parts {
    /// These parts are the parts of `l`.
    spec fn stands_for(&self, l: Literal) -> bool {
        &&& self.negative == l.negative
        &&& self.digits@ == l.digits
        &&& all_digits(l.digits)
        &&& l.digits.len() > 0
        &&& self.fraction <= usize::MAX
        &&& match self.exponent {
            Exponent::Exact(e) => -EXPONENT_LIMIT <= e <= EXPONENT_LIMIT && l.shift == e + 3
                - self.fraction,
            Exponent::FarUp => l.shift > EXPONENT_LIMIT - self.fraction,
            Exponent::FarDown => l.shift < 3 - EXPONENT_LIMIT,
        }
    }
}

/// Copies the digits before and after the point into one run.
fn mantissa(chars: &Vec<char>, whole_at: usize, point_at: usize, fraction_at: usize, mantissa_end: usize) -> (digits: Vec<char>)
    requires
        whole_at <= point_at <= fraction_at <= mantissa_end <= chars.len(),
    ensures
        digits@ == chars@.subrange(whole_at as int, point_at as int) + chars@.subrange(fraction_at as int, mantissa_end as int),
{
    let mut digits: Vec<char> = Vec::new();
    let mut i: usize = whole_at;
    while i < point_at
        invariant
            whole_at <= i <= point_at <= chars.len(),
            digits@ == chars@.subrange(whole_at as int, i as int),
        decreases point_at - i,
    {
        digits.push(chars[i]);
        i = i + 1;
        assert(digits@ =~= chars@.subrange(whole_at as int, i as int));
    }
    i = fraction_at;
    assert(digits@ =~= chars@.subrange(whole_at as int, point_at as int) + chars@.subrange(
        fraction_at as int,
        i as int,
    ));
    while i < mantissa_end
        invariant
            fraction_at <= i <= mantissa_end <= chars.len(),
            digits@ == chars@.subrange(whole_at as int, point_at as int) + chars@.subrange(fraction_at as int, i as int),
        decreases mantissa_end - i,
    {
        digits.push(chars[i]);
        i = i + 1;
        assert(digits@ =~= chars@.subrange(whole_at as int, point_at as int) + chars@.subrange(
            fraction_at as int,
            i as int,
        ));
    }
    digits
}

/// Reads the exponent part that starts at `mantissa_end`, if the text goes on there.
fn exponent_part(chars: &Vec<char>, mantissa_end: usize) -> (r: Option<Exponent>)
    requires
        mantissa_end <= chars.len(),
    ensures
        ({
            let s = chars@;
            let sign_at = mantissa_end + 1;
            let power_at = if sign_at < s.len() && is_sign(s[sign_at]) {
                sign_at + 1
            } else {
                sign_at
            };
            let fine = mantissa_end == s.len() || ((s[mantissa_end as int] == 'e' || s[mantissa_end as int] == 'E') && power_at
                < s.len() && digits_end(s, power_at) == s.len());
            let e = decimal_value(s.subrange(power_at, s.len() as int)) as int;
            match r {
                None => !fine,
                Some(Exponent::Exact(x)) => fine && -EXPONENT_LIMIT <= x <= EXPONENT_LIMIT && x
                    == (if mantissa_end == s.len() {
                    0
                } else if s[sign_at] == '-' {
                    -e
                } else {
                    e
                }),
                Some(Exponent::FarUp) => fine && mantissa_end < s.len() && s[sign_at] != '-' && e
                    > EXPONENT_LIMIT,
                Some(Exponent::FarDown) => fine && mantissa_end < s.len() && s[sign_at] == '-' && e
                    > EXPONENT_LIMIT,
            }
        }),
{
    let n = chars.len();
    if mantissa_end == n {
        return Some(Exponent::Exact(0));
    }
    if !(chars[mantissa_end] == 'e' || chars[mantissa_end] == 'E') {
        return None;
    }
    let sign_at: usize = mantissa_end + 1;
    let power_at: usize = if sign_at < n && (chars[sign_at] == '-' || chars[sign_at] == '+') {
        sign_at + 1
    } else {
        sign_at
    };
    if power_at >= n {
        return None;
    }
    let power_end = digits_end_from(chars, power_at);
    if power_end != n {
        return None;
    }
    proof {
        lemma_digits_end(chars@, power_at as int);
    }
    let downwards = chars[sign_at] == '-';
    match exponent_value(chars, power_at) {
        Some(e) => Some(
            Exponent::Exact(
                if downwards {
                    -(e as i128)
                } else {
                    e as i128
                },
            ),
        ),
        None => Some(
            if downwards {
                Exponent::FarDown
            } else {
                Exponent::FarUp
            },
        ),
    }
}

/// Takes a text apart as a decimal literal.
fn split(chars: &Vec<char>) -> (r: Option<Parts>)
    ensures
        match r {
            None => literal_of(chars@) is None,
            Some(p) => literal_of(chars@) is Some && p.stands_for(literal_of(chars@)->0),
        },
{
    let n = chars.len();
    let ghost s = chars@;
    let signed_text = n > 0 && (chars[0] == '-' || chars[0] == '+');
    let negative = n > 0 && chars[0] == '-';
    let whole_at: usize = if signed_text {
        1
    } else {
        0
    };
    let point_at = digits_end_from(chars, whole_at);
    let pointed = point_at < n && chars[point_at] == '.';
    let fraction_at: usize = if pointed {
        point_at + 1
    } else {
        point_at
    };
    let mantissa_end: usize = if pointed {
        digits_end_from(chars, fraction_at)
    } else {
        point_at
    };
    proof {
        lemma_digits_end(s, whole_at as int);
        if pointed {
            lemma_digits_end(s, fraction_at as int);
        }
    }
    let digits = mantissa(chars, whole_at, point_at, fraction_at, mantissa_end);
    let ghost ds = s.subrange(whole_at as int, point_at as int) + s.subrange(fraction_at as int, mantissa_end as int);
    assert(all_digits(ds)) by {
        assert forall|k: int| 0 <= k < ds.len() implies is_digit(#[trigger] ds[k]) by {
            if k < point_at - whole_at {
                assert(ds[k] == s.subrange(whole_at as int, point_at as int)[k]);
            } else {
                assert(ds[k] == s.subrange(fraction_at as int, mantissa_end as int)[k - (point_at - whole_at)]);
            }
        }
    }
    if digits.len() == 0 {
        return None;
    }
    match exponent_part(chars, mantissa_end) {
        None => None,
        Some(exponent) => Some(Parts { negative, digits, fraction: mantissa_end - fraction_at, exponent }),
    }
}

/// The magnitude of a literal whose digits are to be multiplied by ten to
/// the `up`; `up` is `None` where it is only known to be above 19.
fn grown(digits: &Vec<char>, up: Option<u128>, Ghost(k): Ghost<nat>) -> (r: Option<u128>)
    requires
        all_digits(digits@),
        match up {
            Some(u) => u == k,
            None => k > 19,
        },
    ensures
        match r {
            Some(v) => v == decimal_value(digits@) * pow10(k) && v <= MAGNITUDE_LIMIT,
            None => decimal_value(digits@) * pow10(k) > MAGNITUDE_LIMIT,
        },
{
    let ghost m0 = decimal_value(digits@);
    proof {
        assert(digits@.take(digits.len() as int) =~= digits@);
        lemma_pow10_positive(k);
    }
    match prefix_value(digits, digits.len()) {
        None => {
            proof {
                assert(m0 * pow10(k) >= m0) by (nonlinear_arith)
                    requires
                        pow10(k) >= 1,
                ;
            }
            None
        },
        Some(m) => {
            if m == 0 {
                proof {
                    assert(0 * pow10(k) == 0) by (nonlinear_arith);
                }
                Some(0)
            } else {
                match up {
                    Some(u) => scale_up(m, u),
                    None => {
                        proof {
                            lemma_pow10_twenty();
                            lemma_pow10_monotone(20, k);
                            assert(m0 * pow10(k) >= pow10(k)) by (nonlinear_arith)
                                requires
                                    m0 >= 1,
                            ;
                        }
                        None
                    },
                }
            }
        },
    }
}

/// Adding half the divisor before dividing by ten times `p` is adding five
/// to the quotient by `p` before dividing by ten.
pub proof fn lemma_round_div(m: int, p: int)
    requires
        0 <= m,
        0 < p,
    ensures
        (m + 5 * p) / (10 * p) == (m / p + 5) / 10,
{
    lemma_hoist_over_denominator(m, 5, p as nat);
    lemma_div_denominator(m + 5 * p, p, 10);
    assert(p * 10 == 10 * p);
}

/// The magnitude of a literal whose digits are to be divided by ten to the
/// `k` and rounded: the number that the digits kept spell, and one more if
/// the first digit dropped is five or more. `keep` is the number of digits
/// kept, `None` where more digits are to be dropped than there are.
fn rounded(digits: &Vec<char>, keep: Option<usize>, Ghost(k): Ghost<nat>) -> (r: Option<u128>)
    requires
        all_digits(digits@),
        k >= 1,
        match keep {
            Some(n) => n + k == digits.len(),
            None => k > digits.len(),
        },
    ensures
        match r {
            Some(v) => v == (decimal_value(digits@) + 5 * pow10((k - 1) as nat)) / pow10(k) && v
                <= MAGNITUDE_LIMIT,
            None => (decimal_value(digits@) + 5 * pow10((k - 1) as nat)) / pow10(k)
                > MAGNITUDE_LIMIT,
        },
{
    let ghost m = decimal_value(digits@) as int;
    let ghost p = pow10((k - 1) as nat) as int;
    proof {
        lemma_value_bound(digits@);
        lemma_pow10_positive((k - 1) as nat);
        assert(pow10(k) == 10 * p);
        lemma_round_div(m, p);
    }
    match keep {
        None => {
            proof {
                lemma_pow10_monotone(digits@.len(), (k - 1) as nat);
                lemma_basic_div(m + 5 * p, 10 * p);
            }
            Some(0)
        },
        Some(n) => {
            let first_dropped = digit_value(digits[n]);
            proof {
                lemma_prefix_div(digits@, n as int);
                lemma_prefix_div(digits@, n + 1);
                assert(digits@.take(n + 1).drop_last() =~= digits@.take(n as int));
                assert(digits@.take(n + 1).last() == digits@[n as int]);
                assert(decimal_value(digits@.take(n + 1)) == decimal_value(digits@.take(n as int))
                    * 10 + first_dropped);
                assert(m / p == decimal_value(digits@.take(n as int)) * 10 + first_dropped);
                assert(m / (10 * p) == decimal_value(digits@.take(n as int)));
            }
            match prefix_value(digits, n) {
                None => None,
                Some(q) => {
                    let v: u128 = if first_dropped >= 5 {
                        q + 1
                    } else {
                        q
                    };
                    if v > MAGNITUDE_LIMIT {
                        None
                    } else {
                        Some(v)
                    }
                },
            }
        },
    }
}

/// The index key of a numeric text.
pub fn normalize(text: &str) -> (r: Option<i64>)
    ensures
        r == normalized(text@),
{
    let chars = chars_of(text);
    let parts = match split(&chars) {
        None => {
            return None;
        },
        Some(p) => p,
    };
    let ghost lit = literal_of(text@)->0;
    let count: i128 = parts.digits.len() as i128;
    let fraction: i128 = parts.fraction as i128;
    let mag = match parts.exponent {
        Exponent::FarUp => grown(&parts.digits, None, Ghost(lit.shift as nat)),
        Exponent::FarDown => rounded(&parts.digits, None, Ghost((-lit.shift) as nat)),
        Exponent::Exact(e) => {
            let shift: i128 = e + 3 - fraction;
            if shift > 19 {
                grown(&parts.digits, None, Ghost(lit.shift as nat))
            } else if shift >= 0 {
                grown(&parts.digits, Some(shift as u128), Ghost(lit.shift as nat))
            } else if count + shift < 0 {
                rounded(&parts.digits, None, Ghost((-lit.shift) as nat))
            } else {
                rounded(&parts.digits, Some((count + shift) as usize), Ghost((-lit.shift) as nat))
            }
        },
    };
    match mag {
        Some(v) => signed(parts.negative, v),
        None => None,
    }
}

} // verus!
