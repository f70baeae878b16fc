//! Memory and storage quantities, normalised to mebibytes.

use vstd::prelude::*;
use vstd::arithmetic::div_mod::{lemma_div_denominator, lemma_div_is_ordered,
    lemma_div_is_ordered_by_denominator, lemma_div_multiples_vanish, lemma_hoist_over_denominator};
use crate::decimal::{decimal_digits, lemma_decimal_digits};
use crate::mebibytes::{fraction_text, lemma_fraction_text, mebibytes_text, push_mebibytes,
    Mebibytes};
use crate::numeral::{capped, decimal_mantissa, digits_value, find_mark, fraction_part, is_decimal,
    is_digit, is_mark, lemma_mark_index_is, lemma_number_concat, lemma_number_push, lemma_parts,
    lemma_pow10_adds, lemma_pow10_increases, number, pow10, power, read_decimal, read_integer,
    significand, unsigned, ParseError};
use crate::text::{chars_of, ends_with, ends_with_char, ends_with_pair};

verus! {

/// The unit that a quantity of memory or storage is written in.
#[derive(Clone, Copy, Debug, PartialEq, Eq, Structural)]
pub enum CapacityUnit {
    /// `Ki`: 1024 to the mebibyte.
    Kibi,
    /// `Mi`: the mebibyte.
    Mebi,
    /// `Gi`: 1024 mebibytes.
    Gibi,
    /// `Ti`: 1024 times 1024 mebibytes.
    Tebi,
    /// `m`: 1024 times 1024 times 1024 to the mebibyte.
    Milli,
    /// `k`: a thousandth of 0.953674 mebibytes.
    Kilo,
    /// `M`: 0.953674 mebibytes.
    Mega,
    /// `G`: a thousand times 0.953674 mebibytes.
    Giga,
    /// `T`: a million times 0.953674 mebibytes.
    Tera,
    /// No unit: bytes, 1024 times 1024 to the mebibyte.
    Byte,
}

impl CapacityUnit {
    /// The letters that a quantity in this unit ends with.
    pub open spec fn suffix(self) -> Seq<char> {
        match self {
            CapacityUnit::Kibi => seq!['K', 'i'],
            CapacityUnit::Mebi => seq!['M', 'i'],
            CapacityUnit::Gibi => seq!['G', 'i'],
            CapacityUnit::Tebi => seq!['T', 'i'],
            CapacityUnit::Milli => seq!['m'],
            CapacityUnit::Kilo => seq!['k'],
            CapacityUnit::Mega => seq!['M'],
            CapacityUnit::Giga => seq!['G'],
            CapacityUnit::Tera => seq!['T'],
            CapacityUnit::Byte => Seq::empty(),
        }
    }

    /// The millionths of a mebibyte that `self.per()` of this unit make.
    pub open spec fn micros(self) -> nat {
        match self {
            CapacityUnit::Kibi => 1_000_000,
            CapacityUnit::Mebi => 1_000_000,
            CapacityUnit::Gibi => 1_024_000_000,
            CapacityUnit::Tebi => 1_048_576_000_000,
            CapacityUnit::Milli => 1_000_000,
            CapacityUnit::Kilo => 953_674,
            CapacityUnit::Mega => 953_674,
            CapacityUnit::Giga => 953_674_000,
            CapacityUnit::Tera => 953_674_000_000,
            CapacityUnit::Byte => 1_000_000,
        }
    }

    /// The number of this unit that makes `self.micros()` millionths of a
    /// mebibyte.
    pub open spec fn per(self) -> nat {
        match self {
            CapacityUnit::Kibi => 1024,
            CapacityUnit::Milli => 1_073_741_824,
            CapacityUnit::Kilo => 1000,
            CapacityUnit::Byte => 1_048_576,
            _ => 1,
        }
    }

    /// The scale of this unit: `micros()` and `per()`.
    pub fn scale(self) -> (ratio: (u64, u64))
        ensures
            ratio.0 == self.micros(),
            ratio.1 == self.per(),
    {
        match self {
            CapacityUnit::Kibi => (1_000_000, 1024),
            CapacityUnit::Mebi => (1_000_000, 1),
            CapacityUnit::Gibi => (1_024_000_000, 1),
            CapacityUnit::Tebi => (1_048_576_000_000, 1),
            CapacityUnit::Milli => (1_000_000, 1_073_741_824),
            CapacityUnit::Kilo => (953_674, 1000),
            CapacityUnit::Mega => (953_674, 1),
            CapacityUnit::Giga => (953_674_000, 1),
            CapacityUnit::Tera => (953_674_000_000, 1),
            CapacityUnit::Byte => (1_000_000, 1_048_576),
        }
    }

    /// The number of letters of this unit.
    pub fn suffix_len(self) -> (len: usize)
        ensures
            len == self.suffix().len(),
    {
        match self {
            CapacityUnit::Kibi | CapacityUnit::Mebi | CapacityUnit::Gibi | CapacityUnit::Tebi => 2,
            CapacityUnit::Byte => 0,
            _ => 1,
        }
    }
}

/// The unit of the quantity `s`: the first of `Ki`, `Mi`, `Gi`, `Ti`, `m`,
/// `k`, `M`, `G`, `T` that `s` ends with, or bytes if it ends with none.
pub open spec fn capacity_unit(s: Seq<char>) -> CapacityUnit {
    if ends_with(s, CapacityUnit::Kibi.suffix()) {
        CapacityUnit::Kibi
    } else if ends_with(s, CapacityUnit::Mebi.suffix()) {
        CapacityUnit::Mebi
    } else if ends_with(s, CapacityUnit::Gibi.suffix()) {
        CapacityUnit::Gibi
    } else if ends_with(s, CapacityUnit::Tebi.suffix()) {
        CapacityUnit::Tebi
    } else if ends_with(s, CapacityUnit::Milli.suffix()) {
        CapacityUnit::Milli
    } else if ends_with(s, CapacityUnit::Kilo.suffix()) {
        CapacityUnit::Kilo
    } else if ends_with(s, CapacityUnit::Mega.suffix()) {
        CapacityUnit::Mega
    } else if ends_with(s, CapacityUnit::Giga.suffix()) {
        CapacityUnit::Giga
    } else if ends_with(s, CapacityUnit::Tera.suffix()) {
        CapacityUnit::Tera
    } else {
        CapacityUnit::Byte
    }
}

/// The numeral of the quantity `s`: what stands in front of its unit, without
/// the plus sign that it may begin with.
pub open spec fn capacity_numeral(s: Seq<char>) -> Seq<char> {
    unsigned(s.take(s.len() - capacity_unit(s).suffix().len()))
}

/// An exact amount of memory or storage: a number, a power of ten and a unit.
#[derive(Clone, Debug, PartialEq, Eq)]
pub struct Capacity {
    /// The digits of the number, the most significant first.
    pub digits: Vec<u8>,
    /// The power of ten that the number is multiplied by.
    pub exponent: i128,
    /// The unit that the number counts.
    pub unit: CapacityUnit,
}

/// What a `Capacity` stands for: `mantissa * 10^exponent` of `unit`.
pub ghost struct Amount {
    pub mantissa: nat,
    pub exponent: int,
    pub unit: CapacityUnit,
}

impl Amount {
    /// The numerator of the amount in millionths of a mebibyte.
    pub open spec fn numerator(self) -> nat {
        let up = if self.exponent > 0 {
            self.exponent as nat
        } else {
            0
        };
        self.mantissa * pow10(up) * self.unit.micros()
    }

    /// The denominator of the amount in millionths of a mebibyte.
    pub open spec fn denominator(self) -> nat {
        let down = if self.exponent < 0 {
            (-self.exponent) as nat
        } else {
            0
        };
        pow10(down) * self.unit.per()
    }

    /// The whole millionths of a mebibyte in the amount.
    pub open spec fn whole_micros(self) -> nat {
        self.numerator() / self.denominator()
    }
}

impl View for Capacity {
    type V = Amount;

    open spec fn view(&self) -> Amount {
        Amount { mantissa: number(self.digits@), exponent: self.exponent as int, unit: self.unit }
    }
}

/// The largest power of ten, and the smallest below zero, that a quantity
/// may be written with.
pub const POWER_CAP: u64 = 1_000_000_000_000_000_000;

/// The amount that the quantity `s` stands for: the numeral in front of its
/// unit, counted in that unit.
///
/// The numeral is a decimal numeral of any length, and behind it, if the
/// quantity has one, the letter `e` or `E` and the power of ten that the
/// decimal is multiplied by. The quantity is `Malformed` where no such
/// numeral stands in front of the unit, and `OutOfRange` where the power of
/// ten is written with a number beyond `POWER_CAP`.
///
/// The amount is exact: `numerator()` over `denominator()` is the quotient
/// that the scale of the unit gives, in millionths of a mebibyte.
pub open spec fn capacity_amount(s: Seq<char>) -> Result<Amount, ParseError> {
    let numeral = capacity_numeral(s);
    let decimal = significand(numeral);
    if !is_decimal(decimal) || power(numeral) is None {
        Err(ParseError::Malformed)
    } else if power(numeral)->0 > POWER_CAP || power(numeral)->0 < -(POWER_CAP as int) {
        Err(ParseError::OutOfRange)
    } else {
        Ok(
            Amount {
                mantissa: decimal_mantissa(decimal),
                exponent: power(numeral)->0 - fraction_part(decimal).len(),
                unit: capacity_unit(s),
            },
        )
    }
}

/// Finds the unit that the quantity `text` is written in.
pub(crate) fn unit_of(text: &Vec<char>) -> (unit: CapacityUnit)
    ensures
        unit == capacity_unit(text@),
{
    if ends_with_pair(text, 'K', 'i') {
        CapacityUnit::Kibi
    } else if ends_with_pair(text, 'M', 'i') {
        CapacityUnit::Mebi
    } else if ends_with_pair(text, 'G', 'i') {
        CapacityUnit::Gibi
    } else if ends_with_pair(text, 'T', 'i') {
        CapacityUnit::Tebi
    } else if ends_with_char(text, 'm') {
        CapacityUnit::Milli
    } else if ends_with_char(text, 'k') {
        CapacityUnit::Kilo
    } else if ends_with_char(text, 'M') {
        CapacityUnit::Mega
    } else if ends_with_char(text, 'G') {
        CapacityUnit::Giga
    } else if ends_with_char(text, 'T') {
        CapacityUnit::Tera
    } else {
        CapacityUnit::Byte
    }
}

/// Normalises a quantity of memory or storage: reads its numeral, whatever
/// its length, and its unit. The amount that comes back is exact.
///
/// Returns `Malformed` where what stands in front of the unit is no numeral,
/// and `OutOfRange` where the power of ten that the numeral is written with
/// is beyond `POWER_CAP`.
pub fn parse_capacity_requests(mem: String) -> (r: Result<Capacity, ParseError>)
    ensures
        match r {
            Ok(capacity) => capacity_amount(mem@) == Ok::<Amount, ParseError>(capacity@),
            Err(e) => capacity_amount(mem@) == Err::<Amount, ParseError>(e),
        },
{
    let text: Vec<char> = chars_of(mem.as_str());
    let unit: CapacityUnit = unit_of(&text);
    let len: usize = text.len() - unit.suffix_len();
    let start: usize = if len > 0 && text[0] == '+' {
        1
    } else {
        0
    };
    let mark: usize = find_mark(&text, start, len);
    proof {
        let numeral = capacity_numeral(mem@);
        assert(numeral =~= text@.subrange(start as int, len as int));
        assert(unsigned(text@.take(mark as int)) =~= significand(numeral));
        if mark < len {
            assert(numeral.skip(mark - start + 1) =~= text@.subrange(mark + 1, len as int));
        }
    }
    match read_decimal(&text, mark) {
        Some((digits, places)) => {
            if mark == len {
                Ok(Capacity { digits, exponent: -(places as i128), unit })
            } else {
                match read_integer(&text, mark + 1, len, POWER_CAP) {
                    Ok(power) => Ok(Capacity { digits, exponent: power - places as i128, unit }),
                    Err(e) => Err(e),
                }
            }
        },
        None => Err(ParseError::Malformed),
    }
}

/// The largest whole part that is read in full: any larger one is more than
/// 64 bits of millionths in every unit.
const WHOLE_CAP: u128 = 0x1000_0000_0000_0000_0000;

/// Dividing by ten once more, digit by digit: the whole of `a` times a
/// number with one more leading digit, over one more power of ten.
proof fn lemma_floor_step(a: nat, d: nat, t: nat, n: nat)
    requires
        t > 0,
    ensures
        (a * (d * t + n)) / (t * 10) == (a * d + (a * n) / t) / 10,
{
    let x = a * (d * t + n);
    assert(x == a * n + (a * d) * t) by (nonlinear_arith)
        requires
            x == a * (d * t + n),
    ;
    lemma_hoist_over_denominator((a * n) as int, (a * d) as int, t);
    lemma_div_denominator(x as int, t as int, 10);
}

/// A number with a whole part `i` and `f` behind it, times `a`, has the
/// whole of `i * a` and of what `f` adds.
proof fn lemma_whole_and_part(i: nat, f: nat, t: nat, a: nat)
    requires
        t > 0,
    ensures
        ((i * t + f) * a) / t == i * a + (a * f) / t,
{
    let x = (i * t + f) * a;
    assert(x == a * f + (i * a) * t) by (nonlinear_arith)
        requires
            x == (i * t + f) * a,
    ;
    lemma_hoist_over_denominator((a * f) as int, (i * a) as int, t);
}

/// A whole part above the cap is too large in every unit.
proof fn lemma_too_large(whole: nat, part: nat, micros: nat, per: nat)
    requires
        whole > WHOLE_CAP,
        micros >= 953_674,
        0 < per <= 1_073_741_824,
    ensures
        (whole * micros + part) / per > u64::MAX,
{
    let bound: nat = 0x1_0000_0000_0000_0000;
    assert(whole * micros + part >= bound * per) by (nonlinear_arith)
        requires
            whole > 0x1000_0000_0000_0000_0000,
            micros >= 953_674,
            per <= 1_073_741_824,
            bound == 0x1_0000_0000_0000_0000,
    {
        assert(whole * micros >= 0x1000_0000_0000_0000_0000 * 953_674);
        assert(bound * per <= 0x1_0000_0000_0000_0000 * 1_073_741_824);
    }
    lemma_div_is_ordered((bound * per) as int, (whole * micros + part) as int, per as int);
    lemma_div_multiples_vanish(bound as int, per as int);
    assert(bound * per == per * bound) by (nonlinear_arith);
}

/// The number that the first `count` of `digits` write, unless it is larger
/// than the cap.
fn leading_number(digits: &Vec<u8>, count: usize) -> (value: Option<u128>)
    requires
        count <= digits.len(),
    ensures
        value == capped(number(digits@.take(count as int)), WHOLE_CAP),
{
    let mut value: Option<u128> = Some(0);
    let mut i: usize = 0;
    assert(digits@.take(0) =~= Seq::<u8>::empty());
    while i < count
        invariant
            i <= count <= digits.len(),
            value == capped(number(digits@.take(i as int)), WHOLE_CAP),
        decreases count - i,
    {
        proof {
            assert(digits@.take(i + 1) =~= digits@.take(i as int).push(digits@[i as int]));
            lemma_number_push(digits@.take(i as int), digits@[i as int]);
        }
        value =
        match value {
            Some(v) => {
                let longer: u128 = v * 10 + digits[i] as u128;
                if longer <= WHOLE_CAP {
                    Some(longer)
                } else {
                    None
                }
            },
            None => None,
        };
        i += 1;
    }
    value
}

/// `number` times ten to the power of `exponent`, unless it is larger than
/// the cap.
fn raised(value: Option<u128>, exponent: i128, Ghost(number): Ghost<nat>) -> (r: Option<u128>)
    requires
        exponent >= 0,
        value == capped(number, WHOLE_CAP),
    ensures
        r == capped(number * pow10(exponent as nat), WHOLE_CAP),
{
    let mut r: Option<u128> = value;
    let mut done: i128 = 0;
    assert(number * pow10(0) == number) by {
        assert(pow10(0) == 1);
        assert(number * 1 == number);
    }
    loop
        invariant
            0 <= done <= exponent,
            r == capped(number * pow10(done as nat), WHOLE_CAP),
        ensures
            r == capped(number * pow10(exponent as nat), WHOLE_CAP),
        decreases exponent - done,
    {
        if done >= exponent {
            break ;
        }
        proof {
            lemma_pow10_increases(done as nat, exponent as nat);
            assert(number * pow10(done as nat) <= number * pow10(exponent as nat))
                by (nonlinear_arith)
                requires
                    pow10(done as nat) <= pow10(exponent as nat),
            ;
            assert(number * pow10(done as nat) == 0 ==> number * pow10(exponent as nat) == 0)
                by (nonlinear_arith)
                requires
                    pow10(done as nat) > 0,
            ;
            assert(pow10((done + 1) as nat) == 10 * pow10(done as nat));
            assert(number * (10 * pow10(done as nat)) == (number * pow10(done as nat)) * 10)
                by (nonlinear_arith);
        }
        match r {
            None => {
                break ;
            },
            Some(v) => {
                if v == 0 {
                    break ;
                }
                let longer: u128 = v * 10;
                r =
                if longer <= WHOLE_CAP {
                    Some(longer)
                } else {
                    None
                };
                done += 1;
            },
        }
    }
    r
}

/// The whole of `micros` times the fraction that the digits from `from` on
/// write behind a point.
fn fraction_floor(digits: &Vec<u8>, from: usize, micros: u64) -> (part: u128)
    requires
        from <= digits.len(),
        micros <= 1_048_576_000_000,
    ensures
        part == (micros as nat * number(digits@.skip(from as int))) / pow10(
            (digits.len() - from) as nat,
        ),
        part < 0x1_0000_0000_0000,
{
    let len: usize = digits.len();
    let mut at: usize = len;
    let mut part: u128 = 0;
    proof {
        assert(digits@.subrange(at as int, len as int) =~= Seq::<u8>::empty());
        assert(pow10(0) == 1);
        assert(micros as nat * 0 == 0);
    }
    while at > from
        invariant
            from <= at <= len == digits.len(),
            micros <= 1_048_576_000_000,
            part == (micros as nat * number(digits@.subrange(at as int, len as int))) / pow10(
                (len - at) as nat,
            ),
            part < 0x1_0000_0000_0000,
        decreases at,
    {
        let d: u8 = digits[at - 1];
        proof {
            let behind = digits@.subrange(at as int, len as int);
            let first: Seq<u8> = seq![d];
            assert(digits@.subrange(at - 1, len as int) =~= first + behind);
            lemma_number_concat(first, behind);
            lemma_number_push(Seq::<u8>::empty(), d);
            assert(first =~= Seq::<u8>::empty().push(d));
            assert(number(first) == d as nat);
            let t = pow10((len - at) as nat);
            lemma_pow10_increases(0, (len - at) as nat);
            assert(pow10((len - at + 1) as nat) == 10 * t);
            assert(10 * t == t * 10);
            lemma_floor_step(micros as nat, d as nat, t, number(behind));
        }
        assert(micros as u128 * d as u128 <= 1_048_576_000_000 * 255) by (nonlinear_arith)
            requires
                micros <= 1_048_576_000_000,
                d <= 255,
        ;
        part = (micros as u128 * d as u128 + part) / 10;
        at -= 1;
    }
    assert(digits@.subrange(from as int, len as int) =~= digits@.skip(from as int));
    part
}

/// `part` divided by ten `steps` times more.
fn receded(part: u128, steps: u128, Ghost(x): Ghost<nat>, Ghost(places): Ghost<nat>) -> (r: u128)
    requires
        part == x / pow10(places),
    ensures
        r == x / pow10(places + steps as nat),
        r <= part,
{
    let mut r: u128 = part;
    let mut done: u128 = 0;
    while done < steps && r > 0
        invariant
            done <= steps,
            r == x / pow10(places + done as nat),
            r <= part,
        decreases steps - done,
    {
        proof {
            let t = pow10(places + done as nat);
            lemma_pow10_increases(0, places + done as nat);
            assert(pow10(places + (done + 1) as nat) == 10 * t);
            assert(10 * t == t * 10);
            lemma_div_denominator(x as int, t as int, 10);
        }
        r = r / 10;
        done += 1;
    }
    proof {
        if done < steps {
            lemma_pow10_increases(0, places + done as nat);
            lemma_pow10_increases(places + done as nat, places + steps as nat);
            lemma_div_is_ordered_by_denominator(
                x as int,
                pow10(places + done as nat) as int,
                pow10(places + steps as nat) as int,
            );
        }
    }
    r
}

/// The whole millionths of an amount with a power of ten that is not below
/// zero.
proof fn lemma_raised_amount(amount: Amount)
    requires
        amount.exponent >= 0,
    ensures
        amount.whole_micros() == (amount.mantissa * pow10(amount.exponent as nat)
            * amount.unit.micros() + 0) / amount.unit.per(),
{
    assert(pow10(0) == 1);
    assert(1 * amount.unit.per() == amount.unit.per());
}

/// The whole millionths of an amount with a power of ten below zero, from
/// the whole of its mantissa times the scale over that power.
proof fn lemma_lowered_amount(amount: Amount, sum: nat)
    requires
        amount.exponent < 0,
        sum == (amount.mantissa * amount.unit.micros()) / pow10((-amount.exponent) as nat),
    ensures
        amount.whole_micros() == sum / amount.unit.per(),
{
    let t = pow10((-amount.exponent) as nat);
    let x = amount.mantissa * amount.unit.micros();
    assert(pow10(0) == 1);
    assert(amount.mantissa * 1 * amount.unit.micros() == x);
    lemma_pow10_increases(0, (-amount.exponent) as nat);
    lemma_div_denominator(x as int, t as int, amount.unit.per() as int);
}

impl Capacity {
    /// The number of units in the amount, unless it is above the cap: for a
    /// power of ten that is not below zero.
    fn raised_parts(&self) -> (r: (Option<u128>, Ghost<nat>))
        requires
            self.exponent >= 0,
        ensures
            r.0 == capped(r.1@, WHOLE_CAP),
            self@.whole_micros() == (r.1@ * self.unit.micros() + 0) / self.unit.per(),
    {
        let len: usize = self.digits.len();
        assert(self.digits@.take(len as int) =~= self.digits@);
        let all: Option<u128> = leading_number(&self.digits, len);
        let whole: Option<u128> = raised(all, self.exponent, Ghost(number(self.digits@)));
        proof {
            lemma_raised_amount(self@);
        }
        (whole, Ghost(number(self.digits@) * pow10(self.exponent as nat)))
    }

    /// The whole units in the amount, unless they are above the cap, and the
    /// whole millionths that the rest of it makes: for a power of ten below
    /// zero that leaves digits in front of the point.
    fn split_parts(&self, places: usize, micros: u64) -> (r: (Option<u128>, u128, Ghost<nat>))
        requires
            self.exponent == -(places as int),
            0 < places <= self.digits.len(),
            micros == self.unit.micros(),
        ensures
            r.0 == capped(r.2@, WHOLE_CAP),
            r.1 < 0x1_0000_0000_0000,
            self@.whole_micros() == (r.2@ * self.unit.micros() + r.1 as nat) / self.unit.per(),
    {
        let count: usize = self.digits.len() - places;
        let whole: Option<u128> = leading_number(&self.digits, count);
        let part: u128 = fraction_floor(&self.digits, count, micros);
        proof {
            let high = self.digits@.take(count as int);
            let low = self.digits@.skip(count as int);
            let t = pow10(places as nat);
            assert(self.digits@ =~= high + low);
            lemma_number_concat(high, low);
            lemma_pow10_increases(0, places as nat);
            lemma_whole_and_part(number(high), number(low), t, micros as nat);
            lemma_lowered_amount(self@, number(high) * micros as nat + part as nat);
        }
        (whole, part, Ghost(number(self.digits@.take(count as int))))
    }

    /// The whole millionths that the amount makes: for a power of ten below
    /// zero that leaves no digit in front of the point.
    fn fraction_parts(&self, places: u128, micros: u64) -> (part: u128)
        requires
            self.exponent == -(places as int),
            places > self.digits.len(),
            micros == self.unit.micros(),
        ensures
            part < 0x1_0000_0000_0000,
            self@.whole_micros() == (0 * self.unit.micros() + part as nat) / self.unit.per(),
    {
        let len: usize = self.digits.len();
        let all: u128 = fraction_floor(&self.digits, 0, micros);
        assert(self.digits@.skip(0) =~= self.digits@);
        let part: u128 = receded(
            all,
            places - len as u128,
            Ghost(micros as nat * number(self.digits@)),
            Ghost(len as nat),
        );
        proof {
            let mantissa = number(self.digits@);
            assert(len as nat + (places - len as u128) as nat == places as nat);
            assert(micros as nat * mantissa == mantissa * micros as nat) by (nonlinear_arith);
            lemma_lowered_amount(self@, part as nat);
            assert(0 * self.unit.micros() + part as nat == part as nat);
        }
        part
    }

    /// The amount as a record holds it: in whole millionths of a mebibyte.
    /// What lies below a millionth is dropped here, and nowhere before.
    ///
    /// Returns `None` where the amount is more millionths than 64 bits hold.
    pub fn to_mebibytes(&self) -> (r: Option<Mebibytes>)
        ensures
            match r {
                Some(amount) => amount.micros == self@.whole_micros(),
                None => self@.whole_micros() > u64::MAX,
            },
    {
        let (micros, per) = self.unit.scale();
        let ghost whole_of: nat;
        let whole: Option<u128>;
        let part: u128;
        if self.exponent >= 0 {
            let (w, Ghost(of)) = self.raised_parts();
            whole = w;
            part = 0;
            proof {
                whole_of = of;
            }
        } else {
            let places: u128 = (-(self.exponent + 1)) as u128 + 1;
            if places <= self.digits.len() as u128 {
                let (w, p, Ghost(of)) = self.split_parts(places as usize, micros);
                whole = w;
                part = p;
                proof {
                    whole_of = of;
                }
            } else {
                whole = Some(0);
                part = self.fraction_parts(places, micros);
                proof {
                    whole_of = 0;
                }
            }
        }
        match whole {
            Some(w) => {
                assert(w * micros <= 0x1000_0000_0000_0000_0000 * 1_048_576_000_000)
                    by (nonlinear_arith)
                    requires
                        w <= 0x1000_0000_0000_0000_0000,
                        micros <= 1_048_576_000_000,
                ;
                let amount: u128 = (w * micros as u128 + part) / per as u128;
                if amount <= u64::MAX as u128 {
                    Some(Mebibytes { micros: amount as u64 })
                } else {
                    None
                }
            },
            None => {
                proof {
                    lemma_too_large(whole_of, part as nat, micros as nat, per as nat);
                }
                None
            },
        }
    }
}

/// Of two amounts in one unit and with one power of ten, the one with the
/// smaller number is not the larger amount.
pub proof fn lemma_amount_order(low: Amount, high: Amount)
    requires
        low.unit == high.unit,
        low.exponent == high.exponent,
        low.mantissa <= high.mantissa,
    ensures
        low.denominator() == high.denominator(),
        low.numerator() <= high.numerator(),
        low.whole_micros() <= high.whole_micros(),
{
    let up = if low.exponent > 0 {
        low.exponent as nat
    } else {
        0
    };
    let down = if low.exponent < 0 {
        (-low.exponent) as nat
    } else {
        0
    };
    lemma_pow10_increases(0, down);
    assert(low.mantissa * pow10(up) * low.unit.micros() <= high.mantissa * pow10(up)
        * low.unit.micros()) by (nonlinear_arith)
        requires
            low.mantissa <= high.mantissa,
    ;
    assert(low.denominator() > 0) by (nonlinear_arith)
        requires
            low.denominator() == pow10(down) * low.unit.per(),
            pow10(down) > 0,
            low.unit.per() > 0,
    ;
    lemma_div_is_ordered(
        low.numerator() as int,
        high.numerator() as int,
        low.denominator() as int,
    );
}

/// The quantity that writes an amount: the shortest decimal of its mebibytes
/// and `Mi`.
pub open spec fn capacity_quantity_text(micros: nat) -> Seq<char> {
    mebibytes_text(micros) + seq!['M', 'i']
}

/// Writes an amount of memory or storage as a quantity.
pub fn capacity_quantity(amount: Mebibytes) -> (quantity: String)
    ensures
        quantity@ == capacity_quantity_text(amount.micros as nat),
{
    let mut quantity: String = String::new();
    push_mebibytes(&mut quantity, amount);
    quantity.append("Mi");
    proof {
        reveal_strlit("Mi");
        assert(quantity@ =~= capacity_quantity_text(amount.micros as nat));
    }
    quantity
}

/// The numeral of the whole part `whole` and the fraction `part` millionths
/// stands for as many millionths as were written.
proof fn lemma_written_amount(whole: nat, part: nat)
    requires
        part < 1_000_000,
    ensures
        ({
            let fraction = fraction_text(part, 6);
            (whole * pow10(fraction.len()) + digits_value(fraction)) * 1_000_000 == (whole
                * 1_000_000 + part) * pow10(fraction.len())
        }),
{
    let fraction = fraction_text(part, 6);
    let power = pow10(fraction.len());
    let rest = pow10((6 - fraction.len()) as nat);
    let low = digits_value(fraction);
    assert(pow10(6) == 1_000_000) by {
        reveal_with_fuel(pow10, 7);
    }
    lemma_fraction_text(part, 6);
    lemma_pow10_adds(fraction.len(), (6 - fraction.len()) as nat);
    assert((whole * power + low) * 1_000_000 == (whole * 1_000_000 + part) * power)
        by (nonlinear_arith)
        requires
            power * rest == 1_000_000,
            low * rest == part,
    {
        assert((whole * power + low) * (power * rest) == (whole * (power * rest) + low * rest)
            * power);
    }
}

/// An amount that is written as a quantity and read again is the same
/// amount, exactly.
pub proof fn lemma_capacity_round_trip(amount: Mebibytes)
    ensures
        capacity_amount(capacity_quantity_text(amount.micros as nat)) matches Ok(read)
            && read.numerator() == amount.micros as nat * read.denominator()
            && read.whole_micros() == amount.micros as nat,
{
    let micros = amount.micros as nat;
    let whole = micros / 1_000_000;
    let part = micros % 1_000_000;
    let digits = decimal_digits(whole);
    let fraction = fraction_text(part, 6);
    let numeral = mebibytes_text(micros);
    let text = capacity_quantity_text(micros);
    lemma_decimal_digits(whole);
    assert(pow10(6) == 1_000_000) by {
        reveal_with_fuel(pow10, 7);
    }
    lemma_fraction_text(part, 6);
    // The unit and what stands in front of it.
    assert(text.skip(text.len() - 2) =~= seq!['M', 'i']);
    assert(text.skip(text.len() - 2)[0] == 'M');
    assert(text.take(text.len() - 2) =~= numeral);
    // The numeral begins with a digit, and has digits as far as its point.
    assert(numeral[0] == digits[0]);
    assert(is_digit(digits[0]));
    assert(numeral.take(digits.len() as int) =~= digits);
    assert forall|i: int| 0 <= i < numeral.len() implies !is_mark(numeral[i]) by {
        if i < digits.len() {
            assert(is_digit(digits[i]));
        } else if i > digits.len() {
            assert(is_digit(fraction[i - digits.len() - 1]));
        }
    }
    lemma_mark_index_is(numeral, numeral.len() as int);
    assert(significand(numeral) =~= numeral);
    lemma_parts(numeral, digits.len() as int);
    if part == 0 {
        assert(fraction_part(numeral) =~= fraction);
    } else {
        assert(numeral.skip(digits.len() as int + 1) =~= fraction);
    }
    lemma_written_amount(whole, part);
    // The amount that is read.
    let read = capacity_amount(text)->Ok_0;
    let power = pow10(fraction.len());
    assert(capacity_numeral(text) == numeral);
    assert(capacity_amount(text) is Ok);
    assert(read.unit == CapacityUnit::Mebi);
    assert(read.mantissa == whole * power + digits_value(fraction));
    assert(pow10(0) == 1);
    assert(read.denominator() == power) by {
        assert(power * 1 == power);
    }
    assert(read.numerator() == read.mantissa * 1_000_000) by {
        assert(read.mantissa * 1 * 1_000_000 == read.mantissa * 1_000_000);
    }
    lemma_pow10_increases(0, fraction.len());
    lemma_div_multiples_vanish(micros as int, power as int);
    assert(micros * power == power * micros) by (nonlinear_arith);
}

} // verus!
