//! Amounts of memory and storage.

use vstd::prelude::*;
use crate::decimal::{decimal_digits, digit_char, digit_text, lemma_digit_char, push_decimal};
use crate::numeral::{all_digits, digits_value, lemma_digits_value_push, pow10};

verus! {

/// The number of millionths in one mebibyte.
pub const MICROS_PER_MEBIBYTE: u64 = 1_000_000;

/// An amount of memory or storage, counted in millionths of a mebibyte.
#[derive(Clone, Copy, Debug, PartialEq, Eq, Structural)]
pub struct Mebibytes {
    /// The amount in millionths of a mebibyte.
    pub micros: u64,
}

/// The `width` last decimal digits of `part`, with leading zeros.
pub open spec fn padded_digits(part: nat, width: nat) -> Seq<char>
    decreases width,
{
    if width == 0 {
        Seq::empty()
    } else {
        padded_digits(part / 10, (width - 1) as nat).push(digit_char(part % 10))
    }
}

/// The digits behind the point of `part / 10^width`, without trailing zeros.
pub open spec fn fraction_text(part: nat, width: nat) -> Seq<char>
    decreases width,
{
    if width == 0 {
        Seq::empty()
    } else if part % 10 == 0 {
        fraction_text(part / 10, (width - 1) as nat)
    } else {
        padded_digits(part, width)
    }
}

/// The shortest decimal text of an amount given in millionths of a mebibyte:
/// the whole mebibytes and, unless it is zero, the fraction behind a point.
pub open spec fn mebibytes_text(micros: nat) -> Seq<char> {
    let whole = decimal_digits(micros / 1_000_000);
    if micros % 1_000_000 == 0 {
        whole
    } else {
        whole + seq!['.'] + fraction_text(micros % 1_000_000, 6)
    }
}

impl Mebibytes {
    /// The amount of `whole` mebibytes.
    pub fn from_whole(whole: u32) -> (amount: Mebibytes)
        ensures
            amount.micros == whole * 1_000_000,
    {
        Mebibytes { micros: (whole as u64) * MICROS_PER_MEBIBYTE }
    }
}

/// Appends the `width` last decimal digits of `part`, with leading zeros.
fn push_padded(out: &mut String, part: u64, width: u8)
    ensures
        final(out)@ == old(out)@ + padded_digits(part as nat, width as nat),
    decreases width,
{
    if width > 0 {
        push_padded(out, part / 10, width - 1);
        out.append(digit_text((part % 10) as u8));
        proof {
            let last: Seq<char> = seq![digit_char((part % 10) as nat)];
            assert(padded_digits(part as nat, width as nat) =~= padded_digits(
                (part / 10) as nat,
                (width - 1) as nat,
            ) + last);
            assert(out@ =~= old(out)@ + padded_digits(part as nat, width as nat));
        }
    } else {
        assert(out@ =~= old(out)@ + padded_digits(part as nat, width as nat));
    }
}

/// Appends the shortest decimal text of `amount` to `out`.
pub fn push_mebibytes(out: &mut String, amount: Mebibytes)
    ensures
        final(out)@ == old(out)@ + mebibytes_text(amount.micros as nat),
{
    let whole: u64 = amount.micros / MICROS_PER_MEBIBYTE;
    let fraction: u64 = amount.micros % MICROS_PER_MEBIBYTE;
    push_decimal(out, whole as u128);
    if fraction != 0 {
        out.append(".");
        let mut part: u64 = fraction;
        let mut width: u8 = 6;
        while width > 0 && part % 10 == 0
            invariant
                width <= 6,
                fraction_text(part as nat, width as nat) == fraction_text(fraction as nat, 6),
            decreases width,
        {
            part = part / 10;
            width = width - 1;
        }
        push_padded(out, part, width);
        proof {
            reveal_strlit(".");
            assert("."@ =~= seq!['.']);
            assert(padded_digits(part as nat, width as nat) == fraction_text(
                part as nat,
                width as nat,
            ));
            assert(out@ =~= old(out)@ + mebibytes_text(amount.micros as nat));
        }
    }
}

/// The `width` last digits of a number below ten to the power of `width`
/// are `width` digits that write the number.
pub proof fn lemma_padded_digits(part: nat, width: nat)
    requires
        part < pow10(width),
    ensures
        padded_digits(part, width).len() == width,
        all_digits(padded_digits(part, width)),
        digits_value(padded_digits(part, width)) == part,
    decreases width,
{
    if width > 0 {
        let less = (width - 1) as nat;
        assert(part / 10 < pow10(less));
        lemma_padded_digits(part / 10, less);
        lemma_digit_char(part % 10);
        lemma_digits_value_push(padded_digits(part / 10, less), digit_char(part % 10));
    }
}

/// The digits behind the point of `part / 10^width` are at most `width`
/// digits, and write `part` once the zeros that were dropped are counted in.
pub proof fn lemma_fraction_text(part: nat, width: nat)
    requires
        part < pow10(width),
    ensures
        fraction_text(part, width).len() <= width,
        all_digits(fraction_text(part, width)),
        digits_value(fraction_text(part, width)) * pow10(
            (width - fraction_text(part, width).len()) as nat,
        ) == part,
        part > 0 <==> fraction_text(part, width).len() > 0,
    decreases width,
{
    let text = fraction_text(part, width);
    let zeros = (width - text.len()) as nat;
    if width == 0 {
        assert(pow10(0) == 1);
    } else if part % 10 == 0 {
        let less = (width - 1) as nat;
        assert(part / 10 < pow10(less));
        lemma_fraction_text(part / 10, less);
        assert(text == fraction_text(part / 10, less));
        let value = digits_value(text);
        let power = pow10((less - text.len()) as nat);
        assert(value * power == part / 10);
        assert(zeros == (less - text.len()) as nat + 1);
        assert(pow10(zeros) == 10 * power);
        assert(value * (10 * power) == 10 * (value * power)) by (nonlinear_arith);
        assert(value * pow10(zeros) == part);
    } else {
        lemma_padded_digits(part, width);
        assert(text == padded_digits(part, width));
        assert(zeros == 0);
        assert(pow10(0) == 1);
        assert(digits_value(text) * 1 == digits_value(text));
    }
}

} // verus!
