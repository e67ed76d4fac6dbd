//! Exact rational quantities: amounts and share weights.
use num_rational::Ratio;
use num_traits::{CheckedAdd, CheckedDiv, CheckedMul, CheckedSub};
use std::num::ParseIntError;
use crate::decimal::{
    decimal, digit_chars, digit_to_char, digits_val, lemma_digits_val_bounds,
    lemma_digits_val_concat, lemma_digits_val_zero, lemma_nines, lemma_padded_digits,
    lemma_strip_zeros, padded, push_char, push_decimal, small_digits, strip_zeros,
};
use vstd::arithmetic::div_mod::{
    lemma_fundamental_div_mod, lemma_fundamental_div_mod_converse, lemma_small_mod,
};
use vstd::prelude::*;

verus! {

/// std's error for a refused integer text, carried in `ParseRationalError`.
#[verifier::external_type_specification]
#[verifier::external_body]
pub struct ExParseIntError(ParseIntError);

/// Relies on `Clone for ParseIntError`; nothing is claimed of the copy.
pub assume_specification[ <ParseIntError as Clone>::clone ](e: &ParseIntError) -> ParseIntError;

/// Why a decimal text was refused.
#[derive(Debug, Clone, PartialEq)]
pub enum ParseRationalError {
    /// The integer part is not a 64-bit integer.
    NumerError(ParseIntError),
    /// The fractional part is not a 64-bit integer.
    DenomError(ParseIntError),
    /// Nothing but spaces, or no integer part.
    EmptyString,
    /// More than 18 decimals, or a numerator over `10^decimals` that does
    /// not fit in 64 bits.
    Overflow,
}

/// Relies on `Display for ParseIntError`: std's description of the refusal.
/// Nothing is claimed of the text.
#[verifier::external_body]
fn int_error_text(e: &ParseIntError) -> String {
    e.to_string()
}

impl ParseRationalError {
    /// A description of the error, for display.
    pub fn message(&self) -> (r: String)
        ensures
            self is NumerError ==> exists|t: Seq<char>|
                r@ == "Error parsing numerator: "@ + t + "."@,
            self is DenomError ==> exists|t: Seq<char>|
                r@ == "Error parsing denominator: "@ + t + "."@,
            self is EmptyString ==> r@ == "Could not parse empty string as a rational."@,
            self is Overflow ==> r@ == "The rational does not fit in 64-bit parts."@,
    {
        match self {
            ParseRationalError::NumerError(e) => {
                let mut r = String::from_str("Error parsing numerator: ");
                let t = int_error_text(e);
                r.append(t.as_str());
                r.append(".");
                proof {
                    assert(r@ == "Error parsing numerator: "@ + t@ + "."@);
                }
                r
            },
            ParseRationalError::DenomError(e) => {
                let mut r = String::from_str("Error parsing denominator: ");
                let t = int_error_text(e);
                r.append(t.as_str());
                r.append(".");
                proof {
                    assert(r@ == "Error parsing denominator: "@ + t@ + "."@);
                }
                r
            },
            ParseRationalError::EmptyString => String::from_str(
                "Could not parse empty string as a rational.",
            ),
            ParseRationalError::Overflow => String::from_str(
                "The rational does not fit in 64-bit parts.",
            ),
        }
    }
}

/// A fraction as a mathematical value, `num / den`.
pub struct Frac {
    pub num: int,
    pub den: int,
}

impl Frac {
    pub open spec fn of_int(n: int) -> Frac {
        Frac { num: n, den: 1 }
    }

    pub open spec fn plus(self, o: Frac) -> Frac {
        Frac { num: self.num * o.den + o.num * self.den, den: self.den * o.den }
    }

    pub open spec fn minus(self, o: Frac) -> Frac {
        Frac { num: self.num * o.den - o.num * self.den, den: self.den * o.den }
    }

    pub open spec fn times(self, o: Frac) -> Frac {
        Frac { num: self.num * o.num, den: self.den * o.den }
    }

    pub open spec fn over(self, o: Frac) -> Frac {
        Frac { num: self.num * o.den, den: self.den * o.num }
    }

    /// Two fractions denote the same number.
    pub open spec fn equiv(self, o: Frac) -> bool {
        self.num * o.den == o.num * self.den
    }

    pub open spec fn is_zero(self) -> bool {
        self.num == 0
    }
}

pub proof fn lemma_equiv_trans(a: Frac, b: Frac, c: Frac)
    requires
        a.equiv(b),
        b.equiv(c),
        b.den != 0,
    ensures
        a.equiv(c),
{
    assert((a.num * c.den) * b.den == (a.num * b.den) * c.den) by (nonlinear_arith);
    assert((b.num * a.den) * c.den == (b.num * c.den) * a.den) by (nonlinear_arith);
    assert((c.num * b.den) * a.den == (c.num * a.den) * b.den) by (nonlinear_arith);
    assert((a.num * c.den - c.num * a.den) * b.den == 0) by (nonlinear_arith)
        requires
            (a.num * c.den) * b.den == (c.num * a.den) * b.den,
    {}
    assert(a.num * c.den - c.num * a.den == 0) by (nonlinear_arith)
        requires
            (a.num * c.den - c.num * a.den) * b.den == 0,
            b.den != 0,
    {}
}

proof fn lemma_mul4(p: int, q: int, r: int, t: int)
    ensures
        (p * q) * (r * t) == (p * r) * (q * t),
{
    assert((p * q) * (r * t) == (p * r) * (q * t)) by (nonlinear_arith);
}

proof fn lemma_distrib(x: int, y: int, z: int)
    ensures
        (x + y) * z == x * z + y * z,
        (x - y) * z == x * z - y * z,
{
    assert((x + y) * z == x * z + y * z) by (nonlinear_arith);
    assert((x - y) * z == x * z - y * z) by (nonlinear_arith);
}

pub proof fn lemma_plus_equiv(a: Frac, a2: Frac, b: Frac, b2: Frac)
    requires
        a.equiv(a2),
        b.equiv(b2),
    ensures
        a.plus(b).equiv(a2.plus(b2)),
        a.minus(b).equiv(a2.minus(b2)),
{
    lemma_distrib(a.num * b.den, b.num * a.den, a2.den * b2.den);
    lemma_distrib(a2.num * b2.den, b2.num * a2.den, a.den * b.den);
    lemma_mul4(a.num, b.den, a2.den, b2.den);
    lemma_mul4(b.num, a.den, a2.den, b2.den);
    lemma_mul4(a2.num, b2.den, a.den, b.den);
    lemma_mul4(b2.num, a2.den, a.den, b.den);
    assert((a.num * a2.den) * (b.den * b2.den) == (a2.num * a.den) * (b.den * b2.den));
    assert((b.num * a2.den) * (a.den * b2.den) == (b.num * b2.den) * (a.den * a2.den))
        by (nonlinear_arith);
    assert((b2.num * a.den) * (a2.den * b.den) == (b2.num * b.den) * (a.den * a2.den))
        by (nonlinear_arith);
    assert((a2.num * a.den) * (b2.den * b.den) == (a2.num * a.den) * (b.den * b2.den))
        by (nonlinear_arith);
}

pub proof fn lemma_times_equiv(a: Frac, a2: Frac, b: Frac, b2: Frac)
    requires
        a.equiv(a2),
        b.equiv(b2),
    ensures
        a.times(b).equiv(a2.times(b2)),
        a.over(b).equiv(a2.over(b2)),
{
    assert((a.num * b.num) * (a2.den * b2.den) == (a.num * a2.den) * (b.num * b2.den))
        by (nonlinear_arith);
    assert((a2.num * b2.num) * (a.den * b.den) == (a2.num * a.den) * (b2.num * b.den))
        by (nonlinear_arith);
    assert((a.num * b.den) * (a2.den * b2.num) == (a.num * a2.den) * (b2.num * b.den))
        by (nonlinear_arith);
    assert((a2.num * b2.den) * (a.den * b.num) == (a2.num * a.den) * (b.num * b2.den))
        by (nonlinear_arith);
}

/// Equivalent fractions with nonzero denominators are zero together.
pub proof fn lemma_equiv_zero(a: Frac, b: Frac)
    requires
        a.equiv(b),
        a.den != 0,
        b.den != 0,
    ensures
        a.is_zero() <==> b.is_zero(),
{
    if a.num == 0 {
        assert(b.num * a.den == 0);
        assert(b.num == 0) by (nonlinear_arith)
            requires
                b.num * a.den == 0,
                a.den != 0,
        {}
    }
    if b.num == 0 {
        assert(a.num * b.den == 0);
        assert(a.num == 0) by (nonlinear_arith)
            requires
                a.num * b.den == 0,
                b.den != 0,
        {}
    }
}

pub proof fn lemma_nonzero_product(x: int, y: int)
    requires
        x != 0,
        y != 0,
    ensures
        x * y != 0,
{
    assert(x * y != 0) by (nonlinear_arith)
        requires
            x != 0,
            y != 0,
    {}
}

/// The Unicode `White_Space` property.
pub open spec fn is_white(c: char) -> bool {
    let x = c as int;
    (0x9 <= x <= 0xd) || x == 0x20 || x == 0x85 || x == 0xa0 || x == 0x1680 || (0x2000 <= x
        <= 0x200a) || x == 0x2028 || x == 0x2029 || x == 0x202f || x == 0x205f || x == 0x3000
}

pub open spec fn trim_start(s: Seq<char>) -> Seq<char>
    decreases s.len(),
{
    if s.len() > 0 && is_white(s[0]) {
        trim_start(s.drop_first())
    } else {
        s
    }
}

pub open spec fn trim_end(s: Seq<char>) -> Seq<char>
    decreases s.len(),
{
    if s.len() > 0 && is_white(s.last()) {
        trim_end(s.drop_last())
    } else {
        s
    }
}

/// `s` without leading and trailing white space.
pub open spec fn trimmed(s: Seq<char>) -> Seq<char> {
    trim_end(trim_start(s))
}

proof fn lemma_trim_start(s: Seq<char>, i: int)
    requires
        0 <= i <= s.len(),
        forall|j: int| 0 <= j < i ==> is_white(#[trigger] s[j]),
        i == s.len() || !is_white(s[i]),
    ensures
        trim_start(s) == s.subrange(i, s.len() as int),
    decreases i,
{
    if i > 0 {
        assert forall|j: int| 0 <= j < i - 1 implies is_white(#[trigger] s.drop_first()[j]) by {
            assert(s.drop_first()[j] == s[j + 1]);
        }
        lemma_trim_start(s.drop_first(), i - 1);
        assert(s.drop_first().subrange(i - 1, s.len() - 1) =~= s.subrange(i, s.len() as int));
    } else {
        assert(s.subrange(0, s.len() as int) =~= s);
    }
}

proof fn lemma_trim_end(t: Seq<char>, j: int)
    requires
        0 <= j <= t.len(),
        forall|l: int| j <= l < t.len() ==> is_white(#[trigger] t[l]),
        j == 0 || !is_white(t[j - 1]),
    ensures
        trim_end(t) == t.subrange(0, j),
    decreases t.len(),
{
    if t.len() > j {
        assert forall|l: int| j <= l < t.len() - 1 implies is_white(#[trigger] t.drop_last()[l]) by {
            assert(t.drop_last()[l] == t[l]);
        }
        lemma_trim_end(t.drop_last(), j);
        assert(t.drop_last().subrange(0, j) =~= t.subrange(0, j));
    } else {
        assert(t.subrange(0, j) =~= t);
    }
}

fn char_is_white(c: char) -> (r: bool)
    ensures
        r == is_white(c),
{
    let x = c as u32;
    (0x9 <= x && x <= 0xd) || x == 0x20 || x == 0x85 || x == 0xa0 || x == 0x1680 || (0x2000 <= x
        && x <= 0x200a) || x == 0x2028 || x == 0x2029 || x == 0x202f || x == 0x205f || x == 0x3000
}

/// `s` without leading and trailing white space.
fn trim(s: &str) -> (r: &str)
    ensures
        r@ == trimmed(s@),
{
    let n = s.unicode_len();
    let mut i: usize = 0;
    while i < n && char_is_white(s.get_char(i))
        invariant
            n == s@.len(),
            i <= n,
            forall|j: int| 0 <= j < i ==> is_white(#[trigger] s@[j]),
        decreases n - i,
    {
        i = i + 1;
    }
    let mut j: usize = n;
    while j > i && char_is_white(s.get_char(j - 1))
        invariant
            n == s@.len(),
            i <= j <= n,
            forall|l: int| j <= l < n ==> is_white(#[trigger] s@[l]),
        decreases j,
    {
        j = j - 1;
    }
    proof {
        lemma_trim_start(s@, i as int);
        let t = s@.subrange(i as int, n as int);
        assert forall|l: int| j - i <= l < t.len() implies is_white(#[trigger] t[l]) by {
            assert(t[l] == s@[l + i]);
        }
        if j > i {
            assert(t[j - i - 1] == s@[j - 1]);
        }
        lemma_trim_end(t, j - i);
        assert(t.subrange(0, j - i) =~= s@.subrange(i as int, j as int));
    }
    s.substring_char(i, j)
}

pub open spec fn is_digit(c: char) -> bool {
    '0' <= c && c <= '9'
}

pub open spec fn digit_value(c: char) -> int {
    c as int - '0' as int
}

/// The value of a string of decimal digits.
pub open spec fn digits_value(s: Seq<char>) -> int
    decreases s.len(),
{
    if s.len() == 0 {
        0
    } else {
        digits_value(s.drop_last()) * 10 + digit_value(s.last())
    }
}

pub open spec fn all_digits(s: Seq<char>) -> bool {
    forall|i: int| 0 <= i < s.len() ==> is_digit(#[trigger] s[i])
}

/// An optional sign, then at least one decimal digit.
pub open spec fn int_text(s: Seq<char>) -> bool {
    if s.len() > 0 && (s[0] == '+' || s[0] == '-') {
        s.len() > 1 && all_digits(s.drop_first())
    } else {
        s.len() > 0 && all_digits(s)
    }
}

pub open spec fn int_text_value(s: Seq<char>) -> int {
    if s.len() > 0 && s[0] == '-' {
        -digits_value(s.drop_first())
    } else if s.len() > 0 && s[0] == '+' {
        digits_value(s.drop_first())
    } else {
        digits_value(s)
    }
}

/// The text is a 64-bit integer as `i64`'s parser reads it.
pub open spec fn i64_text(s: Seq<char>) -> bool {
    int_text(s) && i64::MIN <= int_text_value(s) <= i64::MAX
}

/// Relies on `str::parse::<i64>`: an optional `+` or `-` and at least one
/// ASCII digit, whose value fits, gives that value; anything else an error.
#[verifier::external_body]
fn parse_i64(s: &str) -> (r: Result<i64, ParseIntError>)
    ensures
        r is Ok <==> i64_text(s@),
        r matches Ok(v) ==> v as int == int_text_value(s@),
{
    s.parse::<i64>()
}

/// The index of the first `.` of `s`, or its length where it holds none.
pub open spec fn dot_index(s: Seq<char>) -> int
    decreases s.len(),
{
    if s.len() == 0 || s[0] == '.' {
        0
    } else {
        1 + dot_index(s.drop_first())
    }
}

pub proof fn lemma_dot_index(s: Seq<char>, i: int)
    requires
        0 <= i <= s.len(),
        forall|j: int| 0 <= j < i ==> s[j] != '.',
        i == s.len() || s[i] == '.',
    ensures
        dot_index(s) == i,
    decreases i,
{
    if i > 0 {
        lemma_dot_index(s.drop_first(), i - 1);
    }
}

pub open spec fn pow10(n: nat) -> int
    decreases n,
{
    if n == 0 {
        1
    } else {
        10 * pow10((n - 1) as nat)
    }
}

/// The part of a decimal text before its first `.`.
pub open spec fn integer_segment(t: Seq<char>) -> Seq<char> {
    t.subrange(0, dot_index(t))
}

pub open spec fn has_fraction(t: Seq<char>) -> bool {
    dot_index(t) < t.len()
}

/// The part after the first `.`, up to a second `.` if any.
pub open spec fn fraction_segment(t: Seq<char>) -> Seq<char> {
    let rest = t.subrange(dot_index(t) + 1, t.len() as int);
    rest.subrange(0, dot_index(rest))
}

/// The value of a decimal text `t` whose segments are read: the sign of the
/// integer part applies to the fraction too.
pub open spec fn decimal_value(t: Seq<char>) -> Frac {
    let i = int_text_value(integer_segment(t));
    if has_fraction(t) {
        let f = fraction_segment(t);
        let fv = int_text_value(f);
        let k = f.len();
        let signed = if integer_segment(t)[0] == '-' {
            -fv
        } else {
            fv
        };
        Frac { num: i * pow10(k) + signed, den: pow10(k) }
    } else {
        Frac::of_int(i)
    }
}

/// The value of `t` fits: at most 18 decimals, and its numerator over
/// `10^decimals` fits in 64 bits.
pub open spec fn decimal_fits(t: Seq<char>) -> bool {
    has_fraction(t) ==> fraction_segment(t).len() <= 18 && i64::MIN <= decimal_value(t).num
        <= i64::MAX
}

/// The text is read as a rational without error.
pub open spec fn decimal_text_ok(s: Seq<char>) -> bool {
    let t = trimmed(s);
    let iseg = integer_segment(t);
    &&& iseg.len() > 0
    &&& i64_text(iseg)
    &&& has_fraction(t) ==> i64_text(fraction_segment(t))
    &&& decimal_fits(t)
}

/// Read a decimal text `<integer>[.<digits>]`, with an optional sign and
/// surrounding white space.
pub fn rational_from_str(rat_str: &str) -> (r: Result<Rational, ParseRationalError>)
    ensures
        r is Ok <==> decimal_text_ok(rat_str@),
        ({
            let t = trimmed(rat_str@);
            let iseg = integer_segment(t);
            &&& (r == Err::<Rational, ParseRationalError>(ParseRationalError::EmptyString)
                <==> iseg.len() == 0)
            &&& (r is Err && r->Err_0 is NumerError <==> iseg.len() > 0 && !i64_text(iseg))
            &&& (r is Err && r->Err_0 is DenomError <==> iseg.len() > 0 && i64_text(iseg)
                && has_fraction(t) && !i64_text(fraction_segment(t)))
            &&& (r == Err::<Rational, ParseRationalError>(ParseRationalError::Overflow) <==> iseg.len()
                > 0 && i64_text(iseg) && (has_fraction(t) ==> i64_text(fraction_segment(t)))
                && !decimal_fits(t))
            &&& (r matches Ok(x) ==> x.wf() && x@.equiv(decimal_value(t)))
        }),
{
    let t = trim(rat_str);
    let n = t.unicode_len();
    let mut d: usize = 0;
    while d < n && t.get_char(d) != '.'
        invariant
            d <= n,
            n == t@.len(),
            forall|j: int| 0 <= j < d ==> t@[j] != '.',
        decreases n - d,
    {
        d = d + 1;
    }
    proof {
        lemma_dot_index(t@, d as int);
    }
    if d == 0 {
        return Err(ParseRationalError::EmptyString);
    }
    let iseg = t.substring_char(0, d);
    let v = match parse_i64(iseg) {
        Ok(v) => v,
        Err(e) => return Err(ParseRationalError::NumerError(e)),
    };
    if d == n {
        return Ok(Rational::from_integer(v));
    }
    let rest = t.substring_char(d + 1, n);
    let rn = rest.unicode_len();
    let mut m: usize = 0;
    while m < rn && rest.get_char(m) != '.'
        invariant
            m <= rn,
            rn == rest@.len(),
            forall|j: int| 0 <= j < m ==> rest@[j] != '.',
        decreases rn - m,
    {
        m = m + 1;
    }
    proof {
        lemma_dot_index(rest@, m as int);
    }
    let fseg = rest.substring_char(0, m);
    let f = match parse_i64(fseg) {
        Ok(f) => f,
        Err(e) => return Err(ParseRationalError::DenomError(e)),
    };
    if m > 18 {
        return Err(ParseRationalError::Overflow);
    }
    let mut pow: i64 = 1;
    let mut j: usize = 0;
    while j < m
        invariant
            j <= m <= 18,
            pow as int == pow10(j as nat),
        decreases m - j,
    {
        proof {
            lemma_pow10_bound(j as nat);
        }
        pow = pow * 10;
        j = j + 1;
    }
    proof {
        lemma_pow10_bound(m as nat);
    }
    let signed: i128 = if iseg.get_char(0) == '-' {
        -(f as i128)
    } else {
        f as i128
    };
    proof {
        assert(-0x8000_0000_0000_0000 * 1_000_000_000_000_000_000 <= v as int * pow as int <= 0x7fff_ffff_ffff_ffff * 1_000_000_000_000_000_000) by (nonlinear_arith)
            requires
                i64::MIN <= v <= i64::MAX,
                1 <= pow <= 1_000_000_000_000_000_000,
        {}
    }
    let num: i128 = (v as i128) * (pow as i128) + signed;
    if num < i64::MIN as i128 || num > i64::MAX as i128 {
        return Err(ParseRationalError::Overflow);
    }
    Ok(Rational::new(num as i64, pow))
}

pub proof fn lemma_pow10_bound(n: nat)
    requires
        n <= 18,
    ensures
        1 <= pow10(n) <= 1_000_000_000_000_000_000,
        n < 18 ==> pow10(n) * 10 <= 1_000_000_000_000_000_000,
    decreases n,
{
    reveal_with_fuel(pow10, 19);
    if n > 0 {
        lemma_pow10_bound((n - 1) as nat);
    }
}

/// `x * 10^n` rounded to the nearest integer, halves away from zero
/// (for a positive denominator).
pub open spec fn round_scaled(x: Frac, n: nat) -> int {
    let a = if x.num < 0 {
        -x.num
    } else {
        x.num
    };
    let q = (2 * a * pow10(n) + x.den) / (2 * x.den);
    if x.num < 0 {
        -q
    } else {
        q
    }
}

/// The decimal text of `x` with at most `n` decimals: the nearest such
/// decimal, halves away from zero, without trailing zero decimals, and with
/// no `.` where no decimal is left.
pub open spec fn decimal_text(x: Frac, n: nat) -> Seq<char> {
    let s = round_scaled(x, n);
    let m = if s < 0 {
        -s
    } else {
        s
    };
    let sign = if s < 0 {
        seq!['-']
    } else {
        Seq::<char>::empty()
    };
    let fr = strip_zeros(padded((m % pow10(n)) as nat, n));
    sign + decimal((m / pow10(n)) as nat) + if fr.len() == 0 {
        Seq::<char>::empty()
    } else {
        seq!['.'] + fr
    }
}

pub proof fn lemma_pow10_positive(n: nat)
    ensures
        pow10(n) > 0,
    decreases n,
{
    if n > 0 {
        lemma_pow10_positive((n - 1) as nat);
    }
}

/// The first `n` decimals of `m / d` (with `m < d`), and the remainder.
fn long_division(m: u64, d: u64, n: usize) -> (r: (Vec<u8>, u64))
    requires
        m < d,
    ensures
        r.0@.len() == n,
        small_digits(r.0@),
        r.1 < d,
        m * pow10(n as nat) == d * digits_val(r.0@) + r.1,
{
    let mut digits: Vec<u8> = Vec::new();
    let mut rem: u64 = m;
    proof {
        assert(digits_val(digits@) == 0);
    }
    while digits.len() < n
        invariant
            d > 0,
            m < d,
            rem < d,
            digits@.len() <= n,
            small_digits(digits@),
            m * pow10(digits@.len()) == d * digits_val(digits@) + rem,
        decreases n - digits@.len(),
    {
        let t: u128 = rem as u128 * 10;
        let q: u128 = t / (d as u128);
        let r2: u128 = t % (d as u128);
        proof {
            assert(q < 10) by (nonlinear_arith)
                requires
                    q == t / (d as u128),
                    t == rem * 10,
                    rem < d,
                    d > 0,
            {}
            lemma_fundamental_div_mod(t as int, d as int);
            let old_digits = digits@;
            assert(old_digits.push(q as u8).drop_last() =~= old_digits);
            assert(digits_val(old_digits.push(q as u8)) == digits_val(old_digits) * 10 + q);
            assert(m * pow10(old_digits.len() + 1) == (m * pow10(old_digits.len())) * 10)
                by (nonlinear_arith)
                requires
                    pow10(old_digits.len() + 1) == 10 * pow10(old_digits.len()),
            {}
            assert((d * digits_val(old_digits) + rem) * 10 == d * (digits_val(old_digits) * 10
                + q) + r2) by (nonlinear_arith)
                requires
                    t == rem * 10,
                    t == d * q + r2,
            {}
        }
        digits.push(q as u8);
        rem = r2 as u64;
    }
    (digits, rem)
}

/// Add one to the number that the digits write; `true` where it carries out
/// of them, leaving them all zero.
fn increment_digits(digits: &mut Vec<u8>) -> (carry: bool)
    requires
        small_digits(old(digits)@),
    ensures
        final(digits)@.len() == old(digits)@.len(),
        small_digits(final(digits)@),
        digits_val(final(digits)@) + if carry {
            pow10(old(digits)@.len())
        } else {
            0
        } == digits_val(old(digits)@) + 1,
{
    let n = digits.len();
    let mut j: usize = n;
    while j > 0 && digits[j - 1] == 9
        invariant
            j <= n,
            n == digits@.len(),
            forall|i: int| j <= i < n ==> digits@[i] == 9,
        decreases j,
    {
        j = j - 1;
    }
    let ghost before = digits@;
    let mut i: usize = j;
    while i < n
        invariant
            j <= i <= n,
            n == digits@.len(),
            n == before.len(),
            digits@.subrange(0, j as int) == before.subrange(0, j as int),
            forall|l: int| j <= l < i ==> digits@[l] == 0,
            forall|l: int| i <= l < n ==> digits@[l] == before[l],
        decreases n - i,
    {
        digits.set(i, 0);
        i = i + 1;
    }
    let ghost nines = Seq::new((n - j) as nat, |l: int| 9u8);
    let ghost zeros = Seq::new((n - j) as nat, |l: int| 0u8);
    proof {
        lemma_nines((n - j) as nat);
        assert(digits@ =~= before.subrange(0, j as int) + zeros);
    }
    if j == 0 {
        proof {
            assert(before =~= nines);
            assert(digits@ =~= zeros);
        }
        return true;
    }
    let x = digits[j - 1];
    digits.set(j - 1, x + 1);
    proof {
        let pre = before.subrange(0, j - 1);
        assert(x == before[j - 1]) by {
            assert(before.subrange(0, j as int)[j - 1] == before[j - 1]);
        }
        assert(before =~= pre + seq![x] + nines);
        assert(digits@ =~= pre + seq![(x + 1) as u8] + zeros);
        lemma_digits_val_concat(pre + seq![(x + 1) as u8], zeros);
        lemma_digits_val_concat(pre, seq![(x + 1) as u8]);
        lemma_digits_val_concat(pre + seq![x], nines);
        lemma_digits_val_concat(pre, seq![x]);
        reveal_with_fuel(pow10, 2);
        assert(digits_val(Seq::<u8>::empty()) == 0);
        assert(seq![(x + 1) as u8].drop_last() =~= Seq::<u8>::empty());
        assert(seq![x].drop_last() =~= Seq::<u8>::empty());
        let pn = pow10((n - j) as nat);
        assert(digits_val(digits@) == (digits_val(pre) * 10 + x + 1) * pn);
        assert(digits_val(before) == (digits_val(pre) * 10 + x) * pn + pn - 1);
        assert(digits_val(digits@) == digits_val(before) + 1) by (nonlinear_arith)
            requires
                digits_val(digits@) == (digits_val(pre) * 10 + x + 1) * pn,
                digits_val(before) == (digits_val(pre) * 10 + x) * pn + pn - 1,
        {}
    }
    false
}

/// `a * 10^n / d` rounded half up, as whole part `i` and `n` decimal digits.
fn scaled_round(a: u64, d: u64, n: usize) -> (r: (u64, Vec<u8>))
    requires
        d > 0,
        a <= 0x8000_0000_0000_0000,
    ensures
        r.1@.len() == n,
        small_digits(r.1@),
        r.0 as int * pow10(n as nat) + digits_val(r.1@) == (2 * a * pow10(n as nat) + d) / (2
            * d),
{
    let int_part: u64 = a / d;
    let m: u64 = a % d;
    let (mut digits, rem) = long_division(m, d, n);
    let ghost v0 = digits_val(digits@);
    let ghost pp = pow10(n as nat);
    proof {
        lemma_digits_val_bounds(digits@);
        lemma_pow10_positive(n as nat);
        lemma_fundamental_div_mod(a as int, d as int);
        assert(a * pp == d * ((a / d) * pp + v0) + rem) by (nonlinear_arith)
            requires
                a == d * (a / d) + m,
                m * pp == d * v0 + rem,
        {}
    }
    let big: Ghost<int> = Ghost(2 * a * pp + d);
    if (rem as u128) * 2 >= d as u128 {
        let carry = increment_digits(&mut digits);
        proof {
            assert(big@ == (((a / d) * pp + v0) + 1) * (2 * d) + (2 * rem - d)) by (nonlinear_arith)
                requires
                    a * pp == d * ((a / d) * pp + v0) + rem,
                    big@ == 2 * a * pp + d,
            {}
            lemma_fundamental_div_mod_converse(big@, 2 * d, (a / d) * pp + v0 + 1, 2 * rem - d);
            assert(int_part < 0x8000_0000_0000_0001) by (nonlinear_arith)
                requires
                    int_part == a / d,
                    a <= 0x8000_0000_0000_0000,
                    d > 0,
            {}
        }
        if carry {
            proof {
                assert((int_part + 1) * pp == int_part * pp + pp) by (nonlinear_arith);
            }
            return (int_part + 1, digits);
        }
        (int_part, digits)
    } else {
        proof {
            assert(big@ == ((a / d) * pp + v0) * (2 * d) + (2 * rem + d)) by (nonlinear_arith)
                requires
                    a * pp == d * ((a / d) * pp + v0) + rem,
                    big@ == 2 * a * pp + d,
            {}
            lemma_fundamental_div_mod_converse(big@, 2 * d, (a / d) * pp + v0, 2 * rem + d);
        }
        (int_part, digits)
    }
}

/// The decimal text of `rat` rounded to at most `nb_max_decimals` decimals.
pub fn rational_to_string(rat: Rational, nb_max_decimals: u8) -> (r: String)
    requires
        rat.wf(),
    ensures
        r@ == decimal_text(rat@, nb_max_decimals as nat),
{
    let neg = rat.numer < 0;
    let a: u64 = if neg {
        (-(rat.numer as i128)) as u64
    } else {
        rat.numer as u64
    };
    let d: u64 = rat.denom as u64;
    let n: usize = nb_max_decimals as usize;
    let (int_part, digits) = scaled_round(a, d, n);
    let ghost vv = digits_val(digits@);
    proof {
        let pp = pow10(n as nat);
        lemma_digits_val_bounds(digits@);
        lemma_pow10_positive(n as nat);
        lemma_fundamental_div_mod_converse(int_part as int * pp + vv, pp, int_part as int, vv);
        lemma_padded_digits(digits@);
    }
    let mut k: usize = n;
    while k > 0 && digits[k - 1] == 0
        invariant
            k <= n,
            n == digits@.len(),
            forall|i: int| k <= i < n ==> digits@[i] == 0,
        decreases k,
    {
        k = k - 1;
    }
    proof {
        let cs = digit_chars(digits@);
        assert forall|i: int| k <= i < n implies cs[i] == '0' by {
            assert(digits@[i] == 0);
        }
        if k > 0 {
            assert(digits@[k - 1] != 0);
            assert(digits@[k - 1] < 10);
            assert(cs[k - 1] != '0');
            if vv == 0 {
                lemma_digits_val_zero(digits@);
            }
        } else {
            assert(digits@ =~= Seq::new(n as nat, |l: int| 0u8));
            lemma_nines(n as nat);
        }
        lemma_strip_zeros(cs, k as int);
    }
    let mut out = String::new();
    if neg && (int_part > 0 || k > 0) {
        push_char(&mut out, '-');
    }
    push_decimal(&mut out, int_part);
    if k > 0 {
        push_char(&mut out, '.');
        let ghost head = out@;
        let mut i: usize = 0;
        while i < k
            invariant
                i <= k <= n,
                n == digits@.len(),
                small_digits(digits@),
                out@ == head + digit_chars(digits@).subrange(0, i as int),
            decreases k - i,
        {
            let c = digit_to_char(digits[i]);
            push_char(&mut out, c);
            proof {
                assert(digit_chars(digits@).subrange(0, i + 1) =~= digit_chars(digits@).subrange(
                    0,
                    i as int,
                ).push(c));
            }
            i = i + 1;
        }
    }
    proof {
        let x = rat@;
        let pp = pow10(n as nat);
        let q = int_part as int * pp + vv;
        assert(x.den == d as int);
        assert(x.num == rat.numer as int);
        assert(round_scaled(x, n as nat) == if neg { -q } else { q });
        assert(vv > 0 <==> k > 0);
        assert(q > 0 <==> (int_part > 0 || k > 0)) by (nonlinear_arith)
            requires
                q == int_part as int * pp + vv,
                pp > 0,
                vv >= 0,
                vv > 0 <==> k > 0,
        {}
        assert(q / pp == int_part as int);
        assert(q % pp == vv);
        assert(out@ =~= decimal_text(rat@, nb_max_decimals as nat));
    }
    out
}

pub open spec fn frac_of(p: (i64, i64)) -> Frac {
    Frac { num: p.0 as int, den: p.1 as int }
}

/// An exact rational number held as a numerator over a positive denominator,
/// both 64-bit, kept in lowest terms (see `wf`).
#[derive(Debug, Clone, Copy, PartialEq, Eq)]
pub struct Rational {
    numer: i64,
    denom: i64,
}

impl View for Rational {
    type V = Frac;

    closed spec fn view(&self) -> Frac {
        Frac { num: self.numer as int, den: self.denom as int }
    }
}

/// Relies on `Ratio::new`: divides both parts by their gcd and moves the sign
/// to the numerator, so the value is kept, in lowest terms, with a positive
/// denominator.
#[verifier::external_body]
fn ratio_new(n: i64, d: i64) -> (r: (i64, i64))
    requires
        d > 0,
    ensures
        r.1 > 0,
        lowest_terms(frac_of(r)),
        frac_of(r).equiv(Frac { num: n as int, den: d as int }),
{
    Ratio::new(n, d).into_raw()
}

/// No integer above 1 divides both parts.
pub closed spec fn lowest_terms(x: Frac) -> bool {
    forall|k: int| k > 1 ==> #[trigger] (x.num % k) != 0 || x.den % k != 0
}

proof fn lemma_integer_lowest_terms(n: int)
    ensures
        lowest_terms(Frac::of_int(n)),
{
    assert forall|k: int| k > 1 implies #[trigger] (n % k) != 0 || 1int % k != 0 by {
        lemma_small_mod(1nat, k as nat);
    }
}

/// The value fits in `i64`.
pub open spec fn fits(x: int) -> bool {
    i64::MIN <= x <= i64::MAX
}

pub open spec fn abs(x: int) -> int {
    if x < 0 {
        -x
    } else {
        x
    }
}

/// The magnitude of `x`: its numerator made nonnegative.
pub open spec fn bound_of(x: Frac) -> Frac {
    Frac { num: abs(x.num), den: x.den }
}

/// Both parts of the bound fit in `i64`.
pub open spec fn fits_frac(b: Frac) -> bool {
    b.num <= i64::MAX && b.den <= i64::MAX
}

/// `x` has a positive denominator, and its parts are no larger than those
/// of the bound `b`.
pub open spec fn within(x: Frac, b: Frac) -> bool {
    abs(x.num) <= b.num && 0 < x.den <= b.den
}

proof fn lemma_abs_mul(x: int, y: int, bx: int, by: int)
    requires
        abs(x) <= bx,
        abs(y) <= by,
    ensures
        abs(x * y) <= bx * by,
        abs(x * y) == abs(x) * abs(y),
{
    assert(abs(x * y) == abs(x) * abs(y)) by (nonlinear_arith);
    assert(abs(x) * abs(y) <= bx * by) by (nonlinear_arith)
        requires
            0 <= abs(x) <= bx,
            0 <= abs(y) <= by,
    ;
}

/// The parts that a sum or a difference of `x` and `y` computes stay within
/// the sum of their bounds.
pub proof fn lemma_plus_within(x: Frac, y: Frac, bx: Frac, by: Frac)
    requires
        within(x, bx),
        within(y, by),
    ensures
        abs(x.num * y.den) + abs(y.num * x.den) <= bx.plus(by).num,
        0 < x.den * y.den <= bx.plus(by).den,
{
    lemma_abs_mul(x.num, y.den, bx.num, by.den);
    lemma_abs_mul(y.num, x.den, by.num, bx.den);
    lemma_abs_mul(x.den, y.den, bx.den, by.den);
    assert(0 < x.den * y.den) by (nonlinear_arith)
        requires
            0 < x.den,
            0 < y.den,
    ;
}

pub proof fn lemma_times_within(x: Frac, y: Frac, bx: Frac, by: Frac)
    requires
        within(x, bx),
        within(y, by),
    ensures
        abs(x.num * y.num) <= bx.times(by).num,
        0 < x.den * y.den <= bx.times(by).den,
{
    lemma_abs_mul(x.num, y.num, bx.num, by.num);
    lemma_abs_mul(x.den, y.den, bx.den, by.den);
    assert(0 < x.den * y.den) by (nonlinear_arith)
        requires
            0 < x.den,
            0 < y.den,
    ;
}

pub proof fn lemma_over_within(x: Frac, y: Frac, bx: Frac, by: Frac)
    requires
        within(x, bx),
        within(y, by),
    ensures
        abs(x.num * y.den) <= bx.over(by).num,
        abs(x.den * y.num) <= bx.over(by).den,
{
    lemma_abs_mul(x.num, y.den, bx.num, by.den);
    lemma_abs_mul(x.den, y.num, bx.den, by.num);
}

/// Relies on `CheckedAdd for Ratio<i64>`: it computes
/// `(lcm / b * a + lcm / d * c) / lcm` with `lcm = lcm(b, d)` by checked
/// operations, so it succeeds where the plain cross products, their sum and
/// the product of the denominators fit; the result is the exact sum, in
/// lowest terms (`Ratio::new` reduces it), with a positive denominator and
/// parts no larger than the plain ones.
#[verifier::external_body]
fn ratio_checked_add(a: &Rational, b: &Rational) -> (r: Option<(i64, i64)>)
    requires
        a.wf(),
        b.wf(),
    ensures
        fits(a@.num * b@.den) && fits(b@.num * a@.den) && fits(a@.den * b@.den) && fits(
            a@.num * b@.den + b@.num * a@.den,
        ) ==> r is Some,
        r matches Some(x) ==> x.1 > 0 && lowest_terms(frac_of(x)) && frac_of(x).equiv(a@.plus(b@)) && abs(x.0 as int) <= abs(
            a@.num * b@.den + b@.num * a@.den,
        ) && x.1 <= a@.den * b@.den,
{
    Ratio::new_raw(a.numer, a.denom).checked_add(&Ratio::new_raw(b.numer, b.denom)).map(
        |x| x.into_raw(),
    )
}

/// Relies on `CheckedSub for Ratio<i64>`: as for the sum, with a difference.
#[verifier::external_body]
fn ratio_checked_sub(a: &Rational, b: &Rational) -> (r: Option<(i64, i64)>)
    requires
        a.wf(),
        b.wf(),
    ensures
        fits(a@.num * b@.den) && fits(b@.num * a@.den) && fits(a@.den * b@.den) && fits(
            a@.num * b@.den - b@.num * a@.den,
        ) ==> r is Some,
        r matches Some(x) ==> x.1 > 0 && lowest_terms(frac_of(x)) && frac_of(x).equiv(a@.minus(b@)) && abs(x.0 as int) <= abs(
            a@.num * b@.den - b@.num * a@.den,
        ) && x.1 <= a@.den * b@.den,
{
    Ratio::new_raw(a.numer, a.denom).checked_sub(&Ratio::new_raw(b.numer, b.denom)).map(
        |x| x.into_raw(),
    )
}

/// Relies on `CheckedMul for Ratio<i64>`: it multiplies the parts after
/// dividing out common factors, by checked operations, so it succeeds where
/// the plain products fit; the result is the exact product, in lowest terms,
/// with a positive denominator and parts no larger than the plain products.
#[verifier::external_body]
fn ratio_checked_mul(a: &Rational, b: &Rational) -> (r: Option<(i64, i64)>)
    requires
        a.wf(),
        b.wf(),
    ensures
        fits(a@.num * b@.num) && fits(a@.den * b@.den) ==> r is Some,
        r matches Some(x) ==> x.1 > 0 && lowest_terms(frac_of(x)) && frac_of(x).equiv(a@.times(b@)) && abs(x.0 as int) <= abs(
            a@.num * b@.num,
        ) && x.1 <= a@.den * b@.den,
{
    Ratio::new_raw(a.numer, a.denom).checked_mul(&Ratio::new_raw(b.numer, b.denom)).map(
        |x| x.into_raw(),
    )
}

/// Relies on `CheckedDiv for Ratio<i64>`: `None` for a zero divisor; it
/// multiplies crosswise after dividing out common factors and negates by a
/// checked product, so it succeeds where the plain cross products have
/// magnitudes that fit; the result is the exact quotient, reduced by its
/// gcd, with a positive denominator and parts no larger than the plain cross
/// products. A zero dividend with divisor `i64::MIN` is left out: its gcd
/// step overflows.
#[verifier::external_body]
fn ratio_checked_div(a: &Rational, b: &Rational) -> (r: Option<(i64, i64)>)
    requires
        a.wf(),
        b.wf(),
        !(a@.num == 0 && b@.num == i64::MIN),
    ensures
        b@.num == 0 ==> r is None,
        b@.num != 0 && abs(a@.num * b@.den) <= i64::MAX && abs(a@.den * b@.num) <= i64::MAX
            ==> r is Some,
        r matches Some(x) ==> x.1 > 0 && lowest_terms(frac_of(x)) && frac_of(x).equiv(a@.over(b@)) && abs(x.0 as int) <= abs(
            a@.num * b@.den,
        ) && x.1 <= abs(a@.den * b@.num),
{
    Ratio::new_raw(a.numer, a.denom).checked_div(&Ratio::new_raw(b.numer, b.denom)).map(
        |x| x.into_raw(),
    )
}

impl Rational {
    /// The denominator is positive.
    pub open spec fn wf(self) -> bool {
        self@.den > 0 && lowest_terms(self@)
    }

    /// The rational `numer / denom`, in lowest terms.
    pub fn new(numer: i64, denom: i64) -> (r: Rational)
        requires
            denom > 0,
        ensures
            r.wf(),
            r@.equiv(Frac { num: numer as int, den: denom as int }),
    {
        let (n, d) = ratio_new(numer, denom);
        Rational { numer: n, denom: d }
    }

    /// The integer `n` as a rational.
    pub fn from_integer(n: i64) -> (r: Rational)
        ensures
            r.wf(),
            r@ == Frac::of_int(n as int),
    {
        proof {
            lemma_integer_lowest_terms(n as int);
        }
        Rational { numer: n, denom: 1 }
    }

    pub fn zero() -> (r: Rational)
        ensures
            r.wf(),
            r@ == Frac::of_int(0),
    {
        proof {
            lemma_integer_lowest_terms(0);
        }
        Rational { numer: 0, denom: 1 }
    }

    pub fn numer(&self) -> (r: i64)
        ensures
            r as int == self@.num,
    {
        self.numer
    }

    pub fn denom(&self) -> (r: i64)
        ensures
            r as int == self@.den,
    {
        self.denom
    }

    pub fn is_zero(&self) -> (r: bool)
        requires
            self.wf(),
        ensures
            r == self@.is_zero(),
    {
        self.numer == 0
    }

    /// Strictly greater than zero.
    pub fn is_positive(&self) -> (r: bool)
        requires
            self.wf(),
        ensures
            r == (self@.num > 0),
    {
        self.numer > 0
    }

    /// The sum; `None` only where a value does not fit in 64-bit parts.
    pub fn checked_add(&self, o: &Rational) -> (r: Option<Rational>)
        requires
            self.wf(),
            o.wf(),
        ensures
            fits(self@.num * o@.den) && fits(o@.num * self@.den) && fits(self@.den * o@.den) && fits(
                self@.num * o@.den + o@.num * self@.den,
            ) ==> r is Some,
            r matches Some(x) ==> x.wf() && x@.equiv(self@.plus(o@)) && abs(x@.num) <= abs(
                self@.num * o@.den + o@.num * self@.den,
            ) && x@.den <= self@.den * o@.den,
    {
        match ratio_checked_add(self, o) {
            Some((n, d)) => Some(Rational { numer: n, denom: d }),
            None => None,
        }
    }

    /// The difference; `None` only where a value does not fit in 64-bit
    /// parts.
    pub fn checked_sub(&self, o: &Rational) -> (r: Option<Rational>)
        requires
            self.wf(),
            o.wf(),
        ensures
            fits(self@.num * o@.den) && fits(o@.num * self@.den) && fits(self@.den * o@.den) && fits(
                self@.num * o@.den - o@.num * self@.den,
            ) ==> r is Some,
            r matches Some(x) ==> x.wf() && x@.equiv(self@.minus(o@)) && abs(x@.num) <= abs(
                self@.num * o@.den - o@.num * self@.den,
            ) && x@.den <= self@.den * o@.den,
    {
        match ratio_checked_sub(self, o) {
            Some((n, d)) => Some(Rational { numer: n, denom: d }),
            None => None,
        }
    }

    /// The product; `None` only where a value does not fit in 64-bit parts.
    pub fn checked_mul(&self, o: &Rational) -> (r: Option<Rational>)
        requires
            self.wf(),
            o.wf(),
        ensures
            fits(self@.num * o@.num) && fits(self@.den * o@.den) ==> r is Some,
            r matches Some(x) ==> x.wf() && x@.equiv(self@.times(o@)) && abs(x@.num) <= abs(
                self@.num * o@.num,
            ) && x@.den <= self@.den * o@.den,
    {
        match ratio_checked_mul(self, o) {
            Some((n, d)) => Some(Rational { numer: n, denom: d }),
            None => None,
        }
    }

    /// The quotient; `None` for a zero divisor, or where a value does not fit
    /// in 64-bit parts.
    pub fn checked_div(&self, o: &Rational) -> (r: Option<Rational>)
        requires
            self.wf(),
            o.wf(),
        ensures
            o@.is_zero() ==> r is None,
            !o@.is_zero() && abs(self@.num * o@.den) <= i64::MAX && abs(self@.den * o@.num)
                <= i64::MAX ==> r is Some,
            r matches Some(x) ==> x.wf() && x@.equiv(self@.over(o@)) && abs(x@.num) <= abs(
                self@.num * o@.den,
            ) && x@.den <= abs(self@.den * o@.num),
    {
        if o.numer == 0 {
            return None;
        }
        if self.numer == 0 {
            proof {
                assert(abs(self@.den * o@.num) >= 1) by (nonlinear_arith)
                    requires
                        self@.den > 0,
                        o@.num != 0,
                ;
                assert(self@.over(o@).num == 0) by (nonlinear_arith)
                    requires
                        self@.num == 0,
                ;
            }
            return Some(Rational::zero());
        }
        match ratio_checked_div(self, o) {
            Some((n, d)) => Some(Rational { numer: n, denom: d }),
            None => None,
        }
    }
}

} // verus!
