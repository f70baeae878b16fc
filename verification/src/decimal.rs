//! Decimal text of natural numbers.

use vstd::prelude::*;
use crate::numeral::{all_digits, digit_value, digits_value, is_digit, lemma_digits_value_push,
    pow10};

verus! {

/// The character that writes the single digit `d`.
pub open spec fn digit_char(d: nat) -> char
    recommends
        d < 10,
{
    ('0' as nat + d) as char
}

/// The decimal numeral of `n`, without sign and without leading zeros.
pub open spec fn decimal_digits(n: nat) -> Seq<char>
    decreases n,
{
    if n < 10 {
        seq![digit_char(n)]
    } else {
        decimal_digits(n / 10).push(digit_char(n % 10))
    }
}

/// `numerator / denominator`, rounded to the nearest natural number; a
/// quotient that lies exactly half way goes to the even neighbour.
pub open spec fn rounded_quotient(numerator: nat, denominator: nat) -> nat
    recommends
        denominator > 0,
{
    let quotient = numerator / denominator;
    let rest = numerator % denominator;
    if 2 * rest > denominator || (2 * rest == denominator && quotient % 2 == 1) {
        quotient + 1
    } else {
        quotient
    }
}

/// The text of `h` hundredths: the whole part, a point, and two digits.
pub open spec fn hundredths_text(h: nat) -> Seq<char> {
    decimal_digits(h / 100) + seq!['.', digit_char((h / 10) % 10), digit_char(h % 10)]
}

/// The one-character text of a digit.
pub(crate) fn digit_text(d: u8) -> (s: &'static str)
    requires
        d < 10,
    ensures
        s@ == seq![digit_char(d as nat)],
{
    let s: &'static str = if d == 0 {
        "0"
    } else if d == 1 {
        "1"
    } else if d == 2 {
        "2"
    } else if d == 3 {
        "3"
    } else if d == 4 {
        "4"
    } else if d == 5 {
        "5"
    } else if d == 6 {
        "6"
    } else if d == 7 {
        "7"
    } else if d == 8 {
        "8"
    } else {
        "9"
    };
    proof {
        reveal_strlit("0");
        reveal_strlit("1");
        reveal_strlit("2");
        reveal_strlit("3");
        reveal_strlit("4");
        reveal_strlit("5");
        reveal_strlit("6");
        reveal_strlit("7");
        reveal_strlit("8");
        reveal_strlit("9");
        assert(s@ =~= seq![digit_char(d as nat)]);
    }
    s
}

/// Appends the decimal numeral of `n` to `out`.
pub fn push_decimal(out: &mut String, n: u128)
    ensures
        final(out)@ == old(out)@ + decimal_digits(n as nat),
    decreases n,
{
    if n >= 10 {
        push_decimal(out, n / 10);
    }
    out.append(digit_text((n % 10) as u8));
    proof {
        let last: Seq<char> = seq![digit_char((n % 10) as nat)];
        if n >= 10 {
            assert(decimal_digits(n as nat) =~= decimal_digits((n / 10) as nat) + last);
            assert(out@ =~= old(out)@ + decimal_digits(n as nat));
        } else {
            assert(decimal_digits(n as nat) =~= last);
        }
    }
}

/// Divides and rounds to the nearest number, half way to the even one.
pub fn round_half_even(numerator: u128, denominator: u128) -> (q: u128)
    requires
        denominator > 0,
    ensures
        q as nat == rounded_quotient(numerator as nat, denominator as nat),
{
    let quotient: u128 = numerator / denominator;
    let rest: u128 = numerator % denominator;
    let gap: u128 = denominator - rest;
    if rest > gap || (rest == gap && quotient % 2 == 1) {
        assert(quotient < u128::MAX) by (nonlinear_arith)
            requires
                rest > 0,
                rest < denominator,
                quotient == numerator / denominator,
                numerator <= u128::MAX,
        {
            assert(denominator >= 2);
            assert(numerator / denominator <= numerator / 2);
        }
        quotient + 1
    } else {
        quotient
    }
}

/// Appends the text of `h` hundredths to `out`.
pub fn push_hundredths(out: &mut String, h: u128)
    ensures
        final(out)@ == old(out)@ + hundredths_text(h as nat),
{
    push_decimal(out, h / 100);
    out.append(".");
    out.append(digit_text(((h / 10) % 10) as u8));
    out.append(digit_text((h % 10) as u8));
    proof {
        reveal_strlit(".");
        assert("."@ =~= seq!['.']);
        assert(out@ =~= old(out)@ + hundredths_text(h as nat));
    }
}

/// The character of a digit is a digit and stands for it.
pub proof fn lemma_digit_char(d: nat)
    requires
        d < 10,
    ensures
        is_digit(digit_char(d)),
        digit_value(digit_char(d)) == d,
{
}

/// The decimal numeral of `n` has digits only, at least one, and writes `n`.
pub proof fn lemma_decimal_digits(n: nat)
    ensures
        decimal_digits(n).len() > 0,
        all_digits(decimal_digits(n)),
        digits_value(decimal_digits(n)) == n,
    decreases n,
{
    if n < 10 {
        lemma_digit_char(n);
        lemma_digits_value_push(Seq::<char>::empty(), digit_char(n));
        assert(decimal_digits(n) =~= Seq::<char>::empty().push(digit_char(n)));
    } else {
        lemma_decimal_digits(n / 10);
        lemma_digit_char(n % 10);
        lemma_digits_value_push(decimal_digits(n / 10), digit_char(n % 10));
    }
}

/// A number below ten to the power of `k` has at most `k` digits.
pub proof fn lemma_decimal_digits_len(n: nat, k: nat)
    requires
        k >= 1,
        n < pow10(k),
    ensures
        decimal_digits(n).len() <= k,
    decreases n,
{
    if n >= 10 {
        if k == 1 {
            assert(pow10(1) == 10) by {
                reveal_with_fuel(pow10, 2);
            }
        } else {
            lemma_decimal_digits_len(n / 10, (k - 1) as nat);
        }
    }
}

} // verus!
