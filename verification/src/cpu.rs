//! CPU quantities, normalised to milli-cores.

use vstd::prelude::*;
use crate::decimal::{decimal_digits, lemma_decimal_digits, push_decimal};
use crate::numeral::{is_digit, natural, read_natural, unsigned, ParseError};
use crate::text::{chars_of, ends_with, ends_with_char};

verus! {

/// `s` without its points.
pub open spec fn strip_points(s: Seq<char>) -> Seq<char>
    decreases s.len(),
{
    if s.len() == 0 {
        s
    } else if s.last() == '.' {
        strip_points(s.drop_last())
    } else {
        strip_points(s.drop_last()).push(s.last())
    }
}

/// The natural number that `s` writes, multiplied by `times` and divided by
/// `over`, as far as it is a number of milli-cores that 32 bits hold.
pub open spec fn scaled_natural(s: Seq<char>, times: nat, over: nat) -> Result<nat, ParseError>
    recommends
        over > 0,
{
    match natural(s) {
        Some(n) => if n * times / over <= u32::MAX {
            Ok(n * times / over)
        } else {
            Err(ParseError::OutOfRange)
        },
        None => Err(ParseError::Malformed),
    }
}

/// The milli-cores that the CPU quantity `s` stands for.
///
/// A quantity with a point is read without its points and counts hundredfold.
/// Else one that ends with `m` is a number of milli-cores, one that ends with
/// `n` is a number of nano-cores, of which a million make a milli-core and
/// what is left over is dropped, and any other is a number of cores.
pub open spec fn cpu_millis(s: Seq<char>) -> Result<nat, ParseError> {
    if s.contains('.') {
        scaled_natural(strip_points(s), 100, 1)
    } else if ends_with(s, seq!['m']) {
        scaled_natural(s.drop_last(), 1, 1)
    } else if ends_with(s, seq!['n']) {
        scaled_natural(s.drop_last(), 1, 1_000_000)
    } else {
        scaled_natural(s, 1000, 1)
    }
}

/// Tells whether `text` has a point.
fn has_point(text: &Vec<char>) -> (found: bool)
    ensures
        found == text@.contains('.'),
{
    let mut i: usize = 0;
    while i < text.len()
        invariant
            i <= text.len(),
            forall|k: int| 0 <= k < i ==> text@[k] != '.',
        decreases text.len() - i,
    {
        if text[i] == '.' {
            return true;
        }
        i += 1;
    }
    false
}

/// The characters of `text` that are no points.
fn without_points(text: &Vec<char>) -> (kept: Vec<char>)
    ensures
        kept@ == strip_points(text@),
{
    let mut kept: Vec<char> = Vec::new();
    let mut i: usize = 0;
    while i < text.len()
        invariant
            i <= text.len(),
            kept@ == strip_points(text@.take(i as int)),
        decreases text.len() - i,
    {
        assert(text@.take(i + 1).drop_last() =~= text@.take(i as int));
        if text[i] != '.' {
            kept.push(text[i]);
        }
        i += 1;
    }
    assert(text@.take(text.len() as int) =~= text@);
    kept
}

/// The largest number that is read in full.
const READ_CAP: u128 = 4_294_967_296_000_000;

/// A number above the cap is too large however it is scaled.
proof fn lemma_scaled_too_large(n: nat, times: nat, over: nat)
    requires
        n > READ_CAP,
        1 <= times,
        1 <= over <= 1_000_000,
    ensures
        n * times / over > u32::MAX,
{
    assert(n * times >= n) by (nonlinear_arith)
        requires
            times >= 1,
    ;
    assert(n * times >= 4_294_967_296 * over) by (nonlinear_arith)
        requires
            n * times >= n,
            n > 4_294_967_296_000_000,
            over <= 1_000_000,
    ;
    vstd::arithmetic::div_mod::lemma_div_is_ordered(
        (4_294_967_296 * over) as int,
        (n * times) as int,
        over as int,
    );
    vstd::arithmetic::div_mod::lemma_div_multiples_vanish(4_294_967_296, over as int);
    assert(4_294_967_296 * over == over * 4_294_967_296) by (nonlinear_arith);
}

/// Reads the first `len` characters of `text` as a natural number and scales it.
fn read_scaled(text: &Vec<char>, len: usize, times: u32, over: u32) -> (r: Result<u32, ParseError>)
    requires
        len <= text.len(),
        1 <= times <= 1000,
        1 <= over <= 1_000_000,
    ensures
        match r {
            Ok(millis) => scaled_natural(text@.take(len as int), times as nat, over as nat) == Ok::<
                nat,
                ParseError,
            >(millis as nat),
            Err(e) => scaled_natural(text@.take(len as int), times as nat, over as nat) == Err::<
                nat,
                ParseError,
            >(e),
        },
{
    match read_natural(text, len, READ_CAP) {
        Ok(n) => {
            assert(n * times <= 4_294_967_296_000_000_000) by (nonlinear_arith)
                requires
                    n <= 4_294_967_296_000_000,
                    times <= 1000,
            ;
            let scaled: u128 = n * (times as u128) / (over as u128);
            if scaled <= u32::MAX as u128 {
                Ok(scaled as u32)
            } else {
                Err(ParseError::OutOfRange)
            }
        },
        Err(ParseError::OutOfRange) => {
            proof {
                lemma_scaled_too_large(
                    natural(text@.take(len as int))->0,
                    times as nat,
                    over as nat,
                );
            }
            Err(ParseError::OutOfRange)
        },
        Err(e) => Err(e),
    }
}

/// Normalises a CPU quantity to milli-cores.
///
/// Returns `Malformed` where the quantity is no numeral in the form that it
/// has, and `OutOfRange` where its milli-cores do not fit in 32 bits.
pub fn parse_cpu_requests(cpu: String) -> (r: Result<u32, ParseError>)
    ensures
        match r {
            Ok(millis) => cpu_millis(cpu@) == Ok::<nat, ParseError>(millis as nat),
            Err(e) => cpu_millis(cpu@) == Err::<nat, ParseError>(e),
        },
{
    let text: Vec<char> = chars_of(cpu.as_str());
    let len: usize = text.len();
    assert(text@.take(len as int) =~= text@);
    if has_point(&text) {
        let digits: Vec<char> = without_points(&text);
        assert(digits@.take(digits.len() as int) =~= digits@);
        read_scaled(&digits, digits.len(), 100, 1)
    } else if ends_with_char(&text, 'm') {
        assert(text@.take(len - 1) =~= text@.drop_last());
        read_scaled(&text, len - 1, 1, 1)
    } else if ends_with_char(&text, 'n') {
        assert(text@.take(len - 1) =~= text@.drop_last());
        read_scaled(&text, len - 1, 1, 1_000_000)
    } else {
        read_scaled(&text, len, 1000, 1)
    }
}

/// The quantity that writes `millis` milli-cores: their number and `m`.
pub open spec fn cpu_quantity_text(millis: nat) -> Seq<char> {
    decimal_digits(millis) + seq!['m']
}

/// Writes a number of milli-cores as a quantity.
pub fn cpu_quantity(millis: u32) -> (quantity: String)
    ensures
        quantity@ == cpu_quantity_text(millis as nat),
{
    let mut quantity: String = String::new();
    push_decimal(&mut quantity, millis as u128);
    quantity.append("m");
    proof {
        reveal_strlit("m");
        assert(quantity@ =~= cpu_quantity_text(millis as nat));
    }
    quantity
}

/// A number of milli-cores that is written as a quantity and read again is
/// the same number.
pub proof fn lemma_cpu_round_trip(millis: u32)
    ensures
        cpu_millis(cpu_quantity_text(millis as nat)) == Ok::<nat, ParseError>(millis as nat),
{
    let digits = decimal_digits(millis as nat);
    let text = cpu_quantity_text(millis as nat);
    lemma_decimal_digits(millis as nat);
    assert forall|i: int| 0 <= i < text.len() implies text[i] != '.' by {
        if i < digits.len() {
            assert(is_digit(digits[i]));
        }
    }
    assert(text.skip(text.len() - 1) =~= seq!['m']);
    assert(text.drop_last() =~= digits);
    assert(is_digit(digits[0]));
    assert(unsigned(digits) == digits);
    assert(millis as nat * 1 / 1 == millis as nat);
}

} // verus!
