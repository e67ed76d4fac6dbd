//! Reading back what the decimal formatter wrote.
use crate::decimal::{decimal, digit_char, padded, strip_zeros};
use crate::rational::{
    all_digits, decimal_fits, decimal_text, decimal_text_ok, decimal_value, digit_value,
    digits_value, dot_index, fraction_segment, has_fraction, i64_text, int_text, int_text_value,
    abs, integer_segment, is_digit, is_white, lemma_equiv_trans, pow10, round_scaled, trim_end,
    trim_start, trimmed, Frac,
};
use vstd::arithmetic::div_mod::{
    lemma_fundamental_div_mod, lemma_fundamental_div_mod_converse, lemma_mod_breakdown,
};
use vstd::prelude::*;

verus! {

proof fn lemma_digit_char(d: int)
    requires
        0 <= d < 10,
    ensures
        is_digit(digit_char(d)),
        digit_value(digit_char(d)) == d,
        digit_char(d) != '.',
        !is_white(digit_char(d)),
        digit_char(d) != '-' && digit_char(d) != '+',
        d != 0 ==> digit_char(d) != '0',
        d == 0 ==> digit_char(d) == '0',
{
}

proof fn lemma_digits_value_push(s: Seq<char>, c: char)
    ensures
        digits_value(s.push(c)) == digits_value(s) * 10 + digit_value(c),
{
    assert(s.push(c).drop_last() =~= s);
}

proof fn lemma_decimal(x: nat)
    ensures
        decimal(x).len() > 0,
        all_digits(decimal(x)),
        digits_value(decimal(x)) == x,
    decreases x,
{
    if x < 10 {
        lemma_digit_char(x as int);
        lemma_digits_value_push(Seq::empty(), digit_char(x as int));
        assert(seq![digit_char(x as int)] =~= Seq::<char>::empty().push(digit_char(x as int)));
    } else {
        lemma_decimal(x / 10);
        lemma_digit_char((x % 10) as int);
        lemma_digits_value_push(decimal(x / 10), digit_char((x % 10) as int));
    }
}

proof fn lemma_padded(f: nat, n: nat)
    ensures
        padded(f, n).len() == n,
        all_digits(padded(f, n)),
        digits_value(padded(f, n)) == (f as int) % pow10(n),
    decreases n,
{
    if n > 0 {
        lemma_padded(f / 10, (n - 1) as nat);
        lemma_digit_char((f % 10) as int);
        lemma_digits_value_push(padded(f / 10, (n - 1) as nat), digit_char((f % 10) as int));
        crate::rational::lemma_pow10_positive((n - 1) as nat);
        lemma_mod_breakdown(f as int, 10, pow10((n - 1) as nat));
    } else {
        assert(f % 1 == 0);
    }
}

/// Stripping trailing zeros divides the value by a power of ten.
proof fn lemma_strip(s: Seq<char>)
    requires
        all_digits(s),
    ensures
        all_digits(strip_zeros(s)),
        strip_zeros(s).len() <= s.len(),
        digits_value(s) == digits_value(strip_zeros(s)) * pow10((s.len() - strip_zeros(s).len()) as nat),
        strip_zeros(s).len() == 0 || strip_zeros(s).last() != '0',
        strip_zeros(s) == s.subrange(0, strip_zeros(s).len() as int),
    decreases s.len(),
{
    if s.len() > 0 && s.last() == '0' {
        let t = s.drop_last();
        assert(all_digits(t));
        lemma_strip(t);
        assert(s =~= t.push('0'));
        lemma_digits_value_push(t, '0');
        let j = (t.len() - strip_zeros(t).len()) as nat;
        assert(digits_value(s) == digits_value(strip_zeros(t)) * pow10(j) * 10);
        assert(pow10(j + 1) == 10 * pow10(j));
        assert(digits_value(strip_zeros(t)) * pow10(j) * 10 == digits_value(strip_zeros(t)) * (10
            * pow10(j))) by (nonlinear_arith);
        assert(strip_zeros(t) == t.subrange(0, strip_zeros(t).len() as int));
        assert(t.subrange(0, strip_zeros(t).len() as int) =~= s.subrange(
            0,
            strip_zeros(t).len() as int,
        ));
    } else {
        assert(s.subrange(0, s.len() as int) =~= s);
    }
}

proof fn lemma_digits_value_nonneg(s: Seq<char>)
    requires
        all_digits(s),
    ensures
        0 <= digits_value(s) < pow10(s.len()),
    decreases s.len(),
{
    if s.len() > 0 {
        let t = s.drop_last();
        assert(all_digits(t));
        lemma_digits_value_nonneg(t);
        assert(is_digit(s.last()));
        assert(digits_value(t) * 10 + digit_value(s.last()) < pow10(s.len())) by (nonlinear_arith)
            requires
                digits_value(t) < pow10(t.len()),
                0 <= digit_value(s.last()) < 10,
                pow10(s.len()) == 10 * pow10(t.len()),
        {}
    }
}

proof fn lemma_pow10_add(a: nat, b: nat)
    ensures
        pow10(a + b) == pow10(a) * pow10(b),
    decreases b,
{
    if b > 0 {
        lemma_pow10_add(a, (b - 1) as nat);
        assert(pow10(a + b) == 10 * pow10((a + b - 1) as nat));
        assert(pow10(a) * (10 * pow10((b - 1) as nat)) == 10 * (pow10(a) * pow10((b - 1) as nat)))
            by (nonlinear_arith);
    }
}

/// Parsing the text that the formatter writes gives the value rounded to
/// `n` decimals, for `n` at most 18 and a rounded value whose numerator over
/// `10^n` fits in 64 bits.
pub proof fn lemma_format_then_parse(x: Frac, n: nat)
    requires
        x.den > 0,
        n <= 18,
        i64::MIN <= round_scaled(x, n) <= i64::MAX,
    ensures
        decimal_text_ok(decimal_text(x, n)),
        decimal_value(trimmed(decimal_text(x, n))).equiv(
            Frac { num: round_scaled(x, n), den: pow10(n) },
        ),
{
    let p = pow10(n);
    crate::rational::lemma_pow10_positive(n);
    let e = round_scaled(x, n);
    let m = if e < 0 { -e } else { e };
    let i = m / p;
    let v = m % p;
    lemma_fundamental_div_mod(m, p);
    assert(0 <= v < p);
    assert(0 <= i <= m) by (nonlinear_arith)
        requires
            i == m / p,
            m >= 0,
            p > 0,
    ;
    let sign = if e < 0 { seq!['-'] } else { Seq::<char>::empty() };
    let digits = decimal(i as nat);
    let pd = padded(v as nat, n);
    let fr = strip_zeros(pd);
    lemma_decimal(i as nat);
    lemma_padded(v as nat, n);
    lemma_fundamental_div_mod_converse(v, p, 0, v);
    lemma_strip(pd);
    let k = fr.len();
    let j = (n - k) as nat;
    lemma_pow10_add(k, j);
    let head = sign + digits;
    let text = decimal_text(x, n);
    assert(text == head + if fr.len() == 0 { Seq::<char>::empty() } else { seq!['.'] + fr });
    // no white space at either end
    lemma_digit_char(0);
    assert(head.len() > 0);
    assert(!is_white(head[0]));
    assert(text[0] == head[0]);
    assert(!is_white(text.last()));
    assert(trim_start(text) == text);
    assert(trim_end(text) == text);
    assert(trimmed(text) == text);
    // the integer segment
    assert forall|l: int| 0 <= l < head.len() implies head[l] != '.' by {
        if e < 0 && l == 0 {
        } else {
            let o = if e < 0 { l - 1 } else { l };
            assert(head[l] == digits[o]);
        }
    }
    assert(digits_value(digits) == i);
    if e < 0 {
        assert(head.drop_first() =~= digits);
    } else {
        assert(head =~= digits);
    }
    assert(int_text(head));
    assert(int_text_value(head) == if e < 0 { -i } else { i });
    assert(i <= m);
    if fr.len() == 0 {
        assert(text =~= head);
        crate::rational::lemma_dot_index(text, text.len() as int);
        assert(integer_segment(text) =~= head);
        assert(!has_fraction(text));
        if v != 0 {
            assert(digits_value(pd) == digits_value(fr) * pow10(j));
            assert(digits_value(fr) == 0);
        }
        assert(v == 0);
        assert(m == p * i + v);
        assert(m == i * p) by (nonlinear_arith)
            requires
                m == p * i + v,
                v == 0,
        ;
        assert(i64_text(head));
        assert(decimal_value(text) == Frac::of_int(int_text_value(head)));
        assert(int_text_value(head) * p == e * 1) by (nonlinear_arith)
            requires
                int_text_value(head) == if e < 0 { -i } else { i },
                m == i * p,
                m == if e < 0 { -e } else { e },
        ;
    } else {
        crate::rational::lemma_dot_index(text, head.len() as int);
        assert(integer_segment(text) =~= head);
        assert(has_fraction(text));
        let rest = text.subrange(head.len() as int + 1, text.len() as int);
        assert(rest =~= fr);
        assert(all_digits(fr));
        crate::rational::lemma_dot_index(fr, fr.len() as int);
        assert(fraction_segment(text) =~= fr);
        let f = digits_value(fr);
        lemma_digits_value_nonneg(fr);
        assert(int_text(fr)) by {
            assert(fr[0] != '+' && fr[0] != '-');
        }
        assert(int_text_value(fr) == f);
        crate::rational::lemma_pow10_bound(k);
        assert(i64_text(fr));
        assert(v == f * pow10(j));
        let signed = if e < 0 { -f } else { f };
        let num = int_text_value(head) * pow10(k) + signed;
        assert(integer_segment(text)[0] == '-' <==> e < 0) by {
            if e >= 0 {
                assert(head[0] == digits[0]);
            }
        }
        assert(decimal_value(text) == Frac { num: num, den: pow10(k) });
        assert(m == (i * pow10(k) + f) * pow10(j)) by (nonlinear_arith)
            requires
                m == p * i + v,
                p == pow10(k) * pow10(j),
                v == f * pow10(j),
        ;
        assert(num == if e < 0 { -(i * pow10(k) + f) } else { i * pow10(k) + f })
            by (nonlinear_arith)
            requires
                num == int_text_value(head) * pow10(k) + signed,
                int_text_value(head) == if e < 0 { -i } else { i },
                signed == if e < 0 { -f } else { f },
        ;
        crate::rational::lemma_pow10_positive(j);
        assert(i * pow10(k) + f <= m) by (nonlinear_arith)
            requires
                m == (i * pow10(k) + f) * pow10(j),
                pow10(j) > 0,
                i >= 0,
                f >= 0,
                pow10(k) > 0,
        ;
        assert(i64_text(head));
        assert(decimal_fits(text));
        assert(num * p == e * pow10(k)) by (nonlinear_arith)
            requires
                num == if e < 0 { -(i * pow10(k) + f) } else { i * pow10(k) + f },
                m == (i * pow10(k) + f) * pow10(j),
                m == if e < 0 { -e } else { e },
                p == pow10(k) * pow10(j),
        ;
    }
}

/// Formatting and then parsing gives back the value itself where it is
/// written exactly with `n` decimals, `n` is at most 18, and the value times
/// `10^n` fits in 64 bits.
pub proof fn lemma_format_parse_round_trip(x: Frac, n: nat)
    requires
        x.den > 0,
        (x.num * pow10(n)) % x.den == 0,
        n <= 18,
        i64::MIN <= x.num * pow10(n) / x.den <= i64::MAX,
    ensures
        decimal_text_ok(decimal_text(x, n)),
        decimal_value(trimmed(decimal_text(x, n))).equiv(x),
{
    let p = pow10(n);
    crate::rational::lemma_pow10_positive(n);
    let e = x.num * p / x.den;
    lemma_fundamental_div_mod(x.num * p, x.den);
    // exact: the rounding changes nothing
    let a = if x.num < 0 { -x.num } else { x.num };
    let m = if e < 0 { -e } else { e };
    assert(a * p == x.den * m) by (nonlinear_arith)
        requires
            x.num * p == x.den * e,
            a == if x.num < 0 { -x.num } else { x.num },
            m == if e < 0 { -e } else { e },
            p > 0,
            x.den > 0,
    ;
    assert(2 * a * p + x.den == m * (2 * x.den) + x.den) by (nonlinear_arith)
        requires
            a * p == x.den * m,
    ;
    lemma_fundamental_div_mod_converse(2 * a * p + x.den, 2 * x.den, m, x.den);
    assert(x.num < 0 <==> e < 0) by (nonlinear_arith)
        requires
            x.num * p == x.den * e,
            p > 0,
            x.den > 0,
    ;
    assert(round_scaled(x, n) == e);
    lemma_format_then_parse(x, n);
    let r = Frac { num: e, den: p };
    assert(r.equiv(x)) by (nonlinear_arith)
        requires
            x.num * p == x.den * e,
            r == (Frac { num: e, den: p }),
    ;
    lemma_equiv_trans(decimal_value(trimmed(decimal_text(x, n))), r, x);
}

/// Rounding to `n` decimals moves a value by at most half of `10^-n`.
pub proof fn lemma_round_scaled_error(x: Frac, n: nat)
    requires
        x.den > 0,
    ensures
        2 * abs(round_scaled(x, n) * x.den - x.num * pow10(n)) <= x.den,
{
    let p = pow10(n);
    crate::rational::lemma_pow10_positive(n);
    let d = x.den;
    let a = if x.num < 0 { -x.num } else { x.num };
    let q = (2 * a * p + d) / (2 * d);
    lemma_fundamental_div_mod(2 * a * p + d, 2 * d);
    let r = (2 * a * p + d) % (2 * d);
    assert(0 <= r < 2 * d);
    assert(2 * (d * q - a * p) == d - r) by (nonlinear_arith)
        requires
            2 * a * p + d == (2 * d) * q + r,
    ;
    let e = round_scaled(x, n);
    assert(e * d - x.num * p == if x.num < 0 { -(q * d - a * p) } else { q * d - a * p })
        by (nonlinear_arith)
        requires
            e == if x.num < 0 { -q } else { q },
            a == if x.num < 0 { -x.num } else { x.num },
    ;
    assert(q * d == d * q) by (nonlinear_arith);
}

/// Formatting to `n` decimals and parsing back loses at most half of
/// `10^-n`: `|v - x| <= 1 / (2 * 10^n)` for the value `v` read back, for `n`
/// at most 18 and a rounded value whose numerator over `10^n` fits in 64
/// bits.
pub proof fn lemma_format_parse_within_rounding(x: Frac, n: nat)
    requires
        x.den > 0,
        n <= 18,
        i64::MIN <= round_scaled(x, n) <= i64::MAX,
    ensures
        decimal_text_ok(decimal_text(x, n)),
        ({
            let v = decimal_value(trimmed(decimal_text(x, n)));
            &&& v.den > 0
            &&& 2 * pow10(n) * abs(v.num * x.den - x.num * v.den) <= x.den * v.den
        }),
{
    lemma_format_then_parse(x, n);
    lemma_round_scaled_error(x, n);
    let v = decimal_value(trimmed(decimal_text(x, n)));
    let p = pow10(n);
    let e = round_scaled(x, n);
    crate::rational::lemma_pow10_positive(n);
    lemma_decimal_value_den(trimmed(decimal_text(x, n)));
    assert(v.num * p == e * v.den);
    assert(p * (v.num * x.den - x.num * v.den) == v.den * (e * x.den - x.num * p))
        by (nonlinear_arith)
        requires
            v.num * p == e * v.den,
    ;
    assert(2 * p * abs(v.num * x.den - x.num * v.den) == v.den * (2 * abs(e * x.den - x.num * p)))
        by (nonlinear_arith)
        requires
            p * (v.num * x.den - x.num * v.den) == v.den * (e * x.den - x.num * p),
            p > 0,
            v.den > 0,
    ;
    assert(v.den * (2 * abs(e * x.den - x.num * p)) <= v.den * x.den) by (nonlinear_arith)
        requires
            2 * abs(e * x.den - x.num * p) <= x.den,
            v.den > 0,
    ;
    assert(v.den * x.den == x.den * v.den) by (nonlinear_arith);
}

proof fn lemma_decimal_value_den(t: Seq<char>)
    ensures
        decimal_value(t).den > 0,
{
    if has_fraction(t) {
        crate::rational::lemma_pow10_positive(fraction_segment(t).len());
    }
}

} // verus!
