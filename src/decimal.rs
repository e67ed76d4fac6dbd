//! Decimal digits: their values, and the text of numbers written with them.
use crate::rational::pow10;
use vstd::arithmetic::div_mod::lemma_fundamental_div_mod_converse;
use vstd::prelude::*;

verus! {

pub open spec fn digit_char(d: int) -> char {
    ('0' as int + d) as char
}

/// The decimal text of a natural number, without leading zeros.
pub open spec fn decimal(x: nat) -> Seq<char>
    decreases x,
{
    if x < 10 {
        seq![digit_char(x as int)]
    } else {
        decimal(x / 10).push(digit_char((x % 10) as int))
    }
}

/// The `n` lowest decimal digits of `f`, zero-padded on the left.
pub open spec fn padded(f: nat, n: nat) -> Seq<char>
    decreases n,
{
    if n == 0 {
        seq![]
    } else {
        padded(f / 10, (n - 1) as nat).push(digit_char((f % 10) as int))
    }
}

/// `s` without its trailing `0` characters.
pub open spec fn strip_zeros(s: Seq<char>) -> Seq<char>
    decreases s.len(),
{
    if s.len() > 0 && s.last() == '0' {
        strip_zeros(s.drop_last())
    } else {
        s
    }
}

/// The value of a sequence of digits, most significant first.
pub open spec fn digits_val(s: Seq<u8>) -> int
    decreases s.len(),
{
    if s.len() == 0 {
        0
    } else {
        digits_val(s.drop_last()) * 10 + s.last() as int
    }
}

pub open spec fn small_digits(s: Seq<u8>) -> bool {
    forall|i: int| 0 <= i < s.len() ==> #[trigger] s[i] < 10
}

pub open spec fn digit_chars(s: Seq<u8>) -> Seq<char> {
    s.map_values(|d: u8| digit_char(d as int))
}

pub proof fn lemma_digits_val_bounds(s: Seq<u8>)
    requires
        small_digits(s),
    ensures
        0 <= digits_val(s) < pow10(s.len()),
    decreases s.len(),
{
    if s.len() > 0 {
        assert(small_digits(s.drop_last()));
        lemma_digits_val_bounds(s.drop_last());
        assert(s.last() < 10);
        assert(digits_val(s.drop_last()) * 10 + s.last() < pow10(s.len())) by (nonlinear_arith)
            requires
                digits_val(s.drop_last()) < pow10(s.drop_last().len()),
                s.last() < 10,
                pow10(s.len()) == 10 * pow10(s.drop_last().len()),
        {}
    }
}

pub proof fn lemma_digits_val_concat(s: Seq<u8>, t: Seq<u8>)
    ensures
        digits_val(s + t) == digits_val(s) * pow10(t.len()) + digits_val(t),
    decreases t.len(),
{
    if t.len() == 0 {
        assert(s + t =~= s);
    } else {
        assert((s + t).drop_last() =~= s + t.drop_last());
        lemma_digits_val_concat(s, t.drop_last());
        assert(digits_val(s + t) == (digits_val(s) * pow10(t.drop_last().len()) + digits_val(
            t.drop_last(),
        )) * 10 + t.last() as int);
        assert((digits_val(s) * pow10(t.drop_last().len()) + digits_val(t.drop_last())) * 10
            + t.last() as int == digits_val(s) * (10 * pow10(t.drop_last().len())) + (
        digits_val(t.drop_last()) * 10 + t.last() as int)) by (nonlinear_arith);
    }
}

pub proof fn lemma_nines(t: nat)
    ensures
        digits_val(Seq::new(t, |i: int| 9u8)) + 1 == pow10(t),
        digits_val(Seq::new(t, |i: int| 0u8)) == 0,
    decreases t,
{
    if t > 0 {
        lemma_nines((t - 1) as nat);
        assert(Seq::new(t, |i: int| 9u8).drop_last() =~= Seq::new((t - 1) as nat, |i: int| 9u8));
        assert(Seq::new(t, |i: int| 0u8).drop_last() =~= Seq::new((t - 1) as nat, |i: int| 0u8));
    }
}

pub proof fn lemma_digits_val_zero(s: Seq<u8>)
    requires
        digits_val(s) == 0,
        small_digits(s),
    ensures
        forall|i: int| 0 <= i < s.len() ==> #[trigger] s[i] == 0,
    decreases s.len(),
{
    if s.len() > 0 {
        assert(small_digits(s.drop_last()));
        lemma_digits_val_bounds(s.drop_last());
        lemma_digits_val_zero(s.drop_last());
        assert(s.drop_last().len() < s.len());
        assert forall|i: int| 0 <= i < s.len() implies #[trigger] s[i] == 0 by {
            if i < s.len() - 1 {
                assert(s.drop_last()[i] == 0);
            }
        }
    }
}

pub proof fn lemma_padded_digits(s: Seq<u8>)
    requires
        small_digits(s),
    ensures
        padded(digits_val(s) as nat, s.len()) == digit_chars(s),
    decreases s.len(),
{
    if s.len() > 0 {
        let p = s.drop_last();
        assert(small_digits(p));
        lemma_padded_digits(p);
        lemma_digits_val_bounds(p);
        assert(s.last() < 10);
        lemma_fundamental_div_mod_converse(digits_val(s), 10, digits_val(p), s.last() as int);
        assert(digit_chars(s) =~= digit_chars(p).push(digit_char(s.last() as int)));
    } else {
        assert(digit_chars(s) =~= seq![]);
    }
}

pub proof fn lemma_strip_zeros(s: Seq<char>, k: int)
    requires
        0 <= k <= s.len(),
        forall|i: int| k <= i < s.len() ==> s[i] == '0',
        k == 0 || s[k - 1] != '0',
    ensures
        strip_zeros(s) == s.subrange(0, k),
    decreases s.len(),
{
    if s.len() > k {
        assert(s.drop_last().subrange(0, k) =~= s.subrange(0, k));
        lemma_strip_zeros(s.drop_last(), k);
    } else {
        assert(s.subrange(0, k) =~= s);
    }
}

/// Relies on `String::push`: appends one character.
#[verifier::external_body]
pub(crate) fn push_char(s: &mut String, c: char)
    ensures
        final(s)@ == old(s)@.push(c),
{
    s.push(c)
}

pub(crate) fn digit_to_char(d: u8) -> (c: char)
    requires
        d < 10,
    ensures
        c == digit_char(d as int),
{
    let c = (48u8 + d) as char;
    c
}

/// Append the decimal text of `x`.
pub(crate) fn push_decimal(s: &mut String, x: u64)
    ensures
        final(s)@ == old(s)@ + decimal(x as nat),
    decreases x,
{
    if x >= 10 {
        push_decimal(s, x / 10);
    }
    push_char(s, digit_to_char((x % 10) as u8));
    proof {
        if x < 10 {
            assert(decimal(x as nat) == seq![digit_char(x as int)]);
        }
        assert(s@ =~= old(s)@ + decimal(x as nat));
    }
}

} // verus!
