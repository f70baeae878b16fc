//! Numerals: the natural numbers and decimal fractions that a quantity is
//! written with.

use vstd::prelude::*;

verus! {

/// Why the text of a quantity was not accepted.
#[derive(Clone, Copy, Debug, PartialEq, Eq, Structural)]
pub enum ParseError {
    /// The text in front of the unit is not a numeral.
    Malformed,
    /// The numeral is one, but stands for more than the result can hold.
    OutOfRange,
}

/// `c` is one of the ten decimal digits.
pub open spec fn is_digit(c: char) -> bool {
    '0' <= c && c <= '9'
}

/// The number that the digit `c` stands for.
pub open spec fn digit_value(c: char) -> nat {
    (c as int - '0' as int) as nat
}

/// Every character of `s` is a digit.
pub open spec fn all_digits(s: Seq<char>) -> bool {
    forall|i: int| 0 <= i < s.len() ==> is_digit(#[trigger] s[i])
}

/// The number that the digits `s` write in base ten; zero for no digits.
pub open spec fn digits_value(s: Seq<char>) -> nat
    decreases s.len(),
{
    if s.len() == 0 {
        0
    } else {
        digits_value(s.drop_last()) * 10 + digit_value(s.last())
    }
}

/// Ten to the power of `n`.
pub open spec fn pow10(n: nat) -> nat
    decreases n,
{
    if n == 0 {
        1
    } else {
        10 * pow10((n - 1) as nat)
    }
}

/// `s` without the plus sign that it may begin with.
pub open spec fn unsigned(s: Seq<char>) -> Seq<char> {
    if s.len() > 0 && s[0] == '+' {
        s.drop_first()
    } else {
        s
    }
}

/// The natural number that `s` writes: one digit or more, after an optional
/// plus sign. `None` where `s` is not such a numeral.
pub open spec fn natural(s: Seq<char>) -> Option<nat> {
    let digits = unsigned(s);
    if digits.len() > 0 && all_digits(digits) {
        Some(digits_value(digits))
    } else {
        None
    }
}

/// The place of the first point in `s`, or the length of `s` if it has none.
pub open spec fn point_index(s: Seq<char>) -> int
    decreases s.len(),
{
    if s.len() == 0 || s[0] == '.' {
        0
    } else {
        1 + point_index(s.drop_first())
    }
}

/// What stands in front of the first point of `s`.
pub open spec fn whole_part(s: Seq<char>) -> Seq<char> {
    s.take(point_index(s))
}

/// What stands behind the first point of `s`.
pub open spec fn fraction_part(s: Seq<char>) -> Seq<char> {
    if point_index(s) < s.len() {
        s.skip(point_index(s) + 1)
    } else {
        Seq::empty()
    }
}

/// `s` is a decimal numeral: digits, or digits with one point among, before
/// or behind them; at least one digit in all.
pub open spec fn is_decimal(s: Seq<char>) -> bool {
    &&& all_digits(whole_part(s))
    &&& all_digits(fraction_part(s))
    &&& whole_part(s).len() + fraction_part(s).len() > 0
}

/// The decimal numeral `s` read as a count of `10^-n`, where `n` is the
/// number of its digits behind the point.
pub open spec fn decimal_mantissa(s: Seq<char>) -> nat {
    digits_value(whole_part(s)) * pow10(fraction_part(s).len()) + digits_value(fraction_part(s))
}

/// `value`, unless it is larger than `cap`.
pub open spec fn capped(value: nat, cap: u128) -> Option<u128> {
    if value <= cap {
        Some(value as u128)
    } else {
        None
    }
}

/// The largest cap under which digits can be read.
pub const MAX_CAP: u128 = 0x0fff_ffff_ffff_ffff_ffff_ffff_ffff_ffff;

/// Taking one more digit multiplies the value by ten and adds the digit.
pub proof fn lemma_digits_value_push(s: Seq<char>, c: char)
    ensures
        digits_value(s.push(c)) == digits_value(s) * 10 + digit_value(c),
{
    assert(s.push(c).drop_last() =~= s);
}

/// The powers of ten grow with the exponent.
pub proof fn lemma_pow10_increases(low: nat, high: nat)
    requires
        low <= high,
    ensures
        0 < pow10(low) <= pow10(high),
    decreases high,
{
    if low < high {
        lemma_pow10_increases(low, (high - 1) as nat);
    } else if high > 0 {
        lemma_pow10_increases((low - 1) as nat, (high - 1) as nat);
    }
}

/// The digit that `c` writes, if it writes one.
pub fn digit_of(c: char) -> (d: Option<u8>)
    ensures
        d is Some <==> is_digit(c),
        d is Some ==> d->0 as nat == digit_value(c) && d->0 < 10,
{
    if '0' <= c && c <= '9' {
        Some((c as u32 - '0' as u32) as u8)
    } else {
        None
    }
}

/// Reads the digits that stand in `text` from `from` on and before `to`.
/// Returns where they end, and their value unless it is larger than `cap`.
pub(crate) fn read_digits(text: &Vec<char>, from: usize, to: usize, cap: u128) -> (run: (
    usize,
    Option<u128>,
))
    requires
        from <= to <= text.len(),
        cap <= MAX_CAP,
    ensures
        from <= run.0 <= to,
        all_digits(text@.subrange(from as int, run.0 as int)),
        run.0 < to ==> !is_digit(text@[run.0 as int]),
        run.1 == capped(digits_value(text@.subrange(from as int, run.0 as int)), cap),
{
    let mut next: usize = from;
    let mut value: Option<u128> = Some(0);
    assert(text@.subrange(from as int, next as int) =~= Seq::<char>::empty());
    loop
        invariant
            from <= next <= to <= text.len(),
            cap <= MAX_CAP,
            all_digits(text@.subrange(from as int, next as int)),
            value == capped(digits_value(text@.subrange(from as int, next as int)), cap),
        ensures
            next < to ==> !is_digit(text@[next as int]),
        decreases to - next,
    {
        if next >= to {
            break ;
        }
        let digit: Option<u8> = digit_of(text[next]);
        if digit.is_none() {
            break ;
        }
        let d: u8 = digit.unwrap();
        proof {
            let read = text@.subrange(from as int, next as int);
            assert(text@.subrange(from as int, next + 1) =~= read.push(text@[next as int]));
            lemma_digits_value_push(read, text@[next as int]);
        }
        value =
        match value {
            Some(v) => {
                let longer: u128 = v * 10 + d as u128;
                if longer <= cap {
                    Some(longer)
                } else {
                    None
                }
            },
            None => None,
        };
        next += 1;
    }
    (next, value)
}

/// Reads the first `len` characters of `text` as a natural number. Returns
/// the number unless it is larger than `cap`.
pub(crate) fn read_natural(text: &Vec<char>, len: usize, cap: u128) -> (r: Result<
    u128,
    ParseError,
>)
    requires
        len <= text.len(),
        cap <= MAX_CAP,
    ensures
        match natural(text@.take(len as int)) {
            Some(n) => if n <= cap {
                r == Ok::<u128, ParseError>(n as u128)
            } else {
                r == Err::<u128, ParseError>(ParseError::OutOfRange)
            },
            None => r == Err::<u128, ParseError>(ParseError::Malformed),
        },
{
    let start: usize = if len > 0 && text[0] == '+' {
        1
    } else {
        0
    };
    let (next, value) = read_digits(text, start, len, cap);
    proof {
        let digits = unsigned(text@.take(len as int));
        assert(digits =~= text@.subrange(start as int, len as int));
        if next < len {
            assert(digits[next - start] == text@[next as int]);
        } else {
            assert(text@.subrange(start as int, next as int) =~= digits);
        }
    }
    if next < len || next == start {
        Err(ParseError::Malformed)
    } else {
        match value {
            Some(n) => Ok(n),
            None => Err(ParseError::OutOfRange),
        }
    }
}

/// The first point of `s` stands at `point_index(s)`, and no point before it.
pub proof fn lemma_point_index(s: Seq<char>)
    ensures
        0 <= point_index(s) <= s.len(),
        forall|i: int| 0 <= i < point_index(s) ==> s[i] != '.',
        point_index(s) < s.len() ==> s[point_index(s)] == '.',
    decreases s.len(),
{
    if s.len() > 0 && s[0] != '.' {
        let rest = s.drop_first();
        lemma_point_index(rest);
        assert forall|i: int| 0 <= i < point_index(s) implies s[i] != '.' by {
            if i > 0 {
                assert(rest[i - 1] == s[i]);
            }
        }
        if point_index(s) < s.len() {
            assert(rest[point_index(rest)] == s[point_index(s)]);
        }
    }
}

/// The place `k` is that of the first point of `s` if no point stands before
/// it and one stands at it, or `s` ends there.
pub proof fn lemma_point_index_is(s: Seq<char>, k: int)
    requires
        0 <= k <= s.len(),
        forall|i: int| 0 <= i < k ==> s[i] != '.',
        k < s.len() ==> s[k] == '.',
    ensures
        point_index(s) == k,
{
    lemma_point_index(s);
}

/// Powers of ten multiply by adding their exponents.
pub proof fn lemma_pow10_adds(a: nat, b: nat)
    ensures
        pow10(a) * pow10(b) == pow10(a + b),
    decreases a,
{
    if a > 0 {
        let less = (a - 1) as nat;
        lemma_pow10_adds(less, b);
        assert(pow10(a) == 10 * pow10(less));
        assert((a + b - 1) as nat == less + b);
        assert(pow10(a + b) == 10 * pow10(less + b));
        assert((10 * pow10(less)) * pow10(b) == 10 * (pow10(less) * pow10(b)))
            by (nonlinear_arith);
    } else {
        assert(pow10(a) == 1);
        assert(a + b == b);
    }
}

/// Digits as far as `k`, and a point or the end there, part `s` at `k`.
pub proof fn lemma_parts(s: Seq<char>, k: int)
    requires
        0 <= k <= s.len(),
        all_digits(s.take(k)),
        k < s.len() ==> s[k] == '.',
    ensures
        point_index(s) == k,
        whole_part(s) == s.take(k),
        k < s.len() ==> fraction_part(s) == s.skip(k + 1),
        k == s.len() ==> fraction_part(s) == Seq::<char>::empty(),
{
    assert forall|i: int| 0 <= i < k implies s[i] != '.' by {
        assert(is_digit(s.take(k)[i]));
    }
    lemma_point_index_is(s, k);
}

/// A character that is neither a digit nor the first point makes `s` no
/// decimal numeral.
pub proof fn lemma_stray_character(s: Seq<char>, k: int)
    requires
        0 <= k < s.len(),
        !is_digit(s[k]),
        k <= point_index(s) ==> s[k] != '.',
    ensures
        !is_decimal(s),
{
    lemma_point_index(s);
    let p = point_index(s);
    if k < p {
        assert(whole_part(s)[k] == s[k]);
    } else if k > p {
        assert(fraction_part(s)[k - p - 1] == s[k]);
    }
}

/// The number that `digits` write in base ten; zero for no digits.
pub open spec fn number(digits: Seq<u8>) -> nat
    decreases digits.len(),
{
    if digits.len() == 0 {
        0
    } else {
        number(digits.drop_last()) * 10 + digits.last() as nat
    }
}

/// One more digit multiplies the number by ten and adds the digit.
pub proof fn lemma_number_push(digits: Seq<u8>, d: u8)
    ensures
        number(digits.push(d)) == number(digits) * 10 + d as nat,
{
    assert(digits.push(d).drop_last() =~= digits);
}

/// Digits written behind others shift those by as many places.
pub proof fn lemma_number_concat(high: Seq<u8>, low: Seq<u8>)
    ensures
        number(high + low) == number(high) * pow10(low.len()) + number(low),
    decreases low.len(),
{
    if low.len() == 0 {
        assert(high + low =~= high);
        assert(pow10(0) == 1);
    } else {
        let shorter = low.drop_last();
        lemma_number_concat(high, shorter);
        assert((high + low).drop_last() =~= high + shorter);
        assert(pow10(low.len()) == 10 * pow10(shorter.len()));
        assert((number(high) * pow10(shorter.len()) + number(shorter)) * 10 == number(high) * (10
            * pow10(shorter.len())) + number(shorter) * 10) by (nonlinear_arith);
    }
}

/// Reads the digits that stand in `text` from `from` on and before `to`, and
/// puts them behind those in `digits`. Returns where they end.
pub(crate) fn read_digits_into(text: &Vec<char>, from: usize, to: usize, digits: &mut Vec<u8>) -> (next:
    usize)
    requires
        from <= to <= text.len(),
    ensures
        from <= next <= to,
        all_digits(text@.subrange(from as int, next as int)),
        next < to ==> !is_digit(text@[next as int]),
        number(final(digits)@) == number(old(digits)@) * pow10((next - from) as nat) + digits_value(
            text@.subrange(from as int, next as int),
        ),
{
    let ghost before = number(digits@);
    let mut next: usize = from;
    proof {
        assert(text@.subrange(from as int, next as int) =~= Seq::<char>::empty());
        assert(digits_value(Seq::<char>::empty()) == 0);
        assert(pow10(0) == 1);
        assert(before * 1 == before);
    }
    loop
        invariant
            from <= next <= to <= text.len(),
            all_digits(text@.subrange(from as int, next as int)),
            number(digits@) == before * pow10((next - from) as nat) + digits_value(
                text@.subrange(from as int, next as int),
            ),
        ensures
            next < to ==> !is_digit(text@[next as int]),
        decreases to - next,
    {
        if next >= to {
            break ;
        }
        let digit: Option<u8> = digit_of(text[next]);
        if digit.is_none() {
            break ;
        }
        let d: u8 = digit.unwrap();
        proof {
            let read = text@.subrange(from as int, next as int);
            let power = pow10((next - from) as nat);
            assert(text@.subrange(from as int, next + 1) =~= read.push(text@[next as int]));
            lemma_digits_value_push(read, text@[next as int]);
            lemma_number_push(digits@, d);
            assert(pow10((next + 1 - from) as nat) == 10 * power);
            assert((before * power + digits_value(read)) * 10 == before * (10 * power)
                + digits_value(read) * 10) by (nonlinear_arith);
        }
        digits.push(d);
        next += 1;
    }
    next
}

/// Reads the first `len` characters of `text` as a decimal numeral, after an
/// optional plus sign. Returns its digits, with those behind the point after
/// those in front of it, and the number of its digits behind the point.
pub(crate) fn read_decimal(text: &Vec<char>, len: usize) -> (r: Option<(Vec<u8>, usize)>)
    requires
        len <= text.len(),
    ensures
        match r {
            Some((digits, places)) => {
                &&& is_decimal(unsigned(text@.take(len as int)))
                &&& number(digits@) == decimal_mantissa(unsigned(text@.take(len as int)))
                &&& places == fraction_part(unsigned(text@.take(len as int))).len()
            },
            None => !is_decimal(unsigned(text@.take(len as int))),
        },
{
    let start: usize = if len > 0 && text[0] == '+' {
        1
    } else {
        0
    };
    let ghost numeral = unsigned(text@.take(len as int));
    assert(numeral =~= text@.subrange(start as int, len as int));
    let mut digits: Vec<u8> = Vec::new();
    assert(number(digits@) == 0);
    let point: usize = read_digits_into(text, start, len, &mut digits);
    let ghost k = point - start;
    let ghost whole = number(digits@);
    assert(whole == digits_value(text@.subrange(start as int, point as int))) by {
        assert(0 * pow10(k as nat) == 0);
    }
    assert(numeral.take(k) =~= text@.subrange(start as int, point as int));
    if point < len && text[point] != '.' {
        proof {
            assert(numeral[k] == text@[point as int]);
            lemma_stray_character(numeral, k);
        }
        return None;
    }
    proof {
        if point < len {
            assert(numeral[k] == text@[point as int]);
        }
        lemma_parts(numeral, k);
    }
    let behind: usize = if point < len {
        point + 1
    } else {
        len
    };
    let end: usize = read_digits_into(text, behind, len, &mut digits);
    if end < len {
        proof {
            assert(numeral[end - start] == text@[end as int]);
            lemma_stray_character(numeral, end - start);
        }
        return None;
    }
    assert(fraction_part(numeral) =~= text@.subrange(behind as int, len as int));
    let places: usize = len - behind;
    if point - start + places == 0 {
        return None;
    }
    assert(number(digits@) == decimal_mantissa(numeral));
    Some((digits, places))
}

/// `c` is the letter that a power of ten is written behind.
pub open spec fn is_mark(c: char) -> bool {
    c == 'e' || c == 'E'
}

/// The place of the first such letter in `s`, or the length of `s` if it has
/// none.
pub open spec fn mark_index(s: Seq<char>) -> int
    decreases s.len(),
{
    if s.len() == 0 || is_mark(s[0]) {
        0
    } else {
        1 + mark_index(s.drop_first())
    }
}

/// What stands in `s` in front of the power of ten, or all of `s` if none is
/// written.
pub open spec fn significand(s: Seq<char>) -> Seq<char> {
    s.take(mark_index(s))
}

/// The integer that `s` writes: one digit or more, after an optional sign.
/// `None` where `s` is not such a numeral.
pub open spec fn integer(s: Seq<char>) -> Option<int> {
    if s.len() > 0 && s[0] == '-' {
        let digits = s.drop_first();
        if digits.len() > 0 && all_digits(digits) {
            Some(-(digits_value(digits) as int))
        } else {
            None
        }
    } else {
        match natural(s) {
            Some(n) => Some(n as int),
            None => None,
        }
    }
}

/// The power of ten that is written in `s`: the integer behind the letter,
/// or zero if `s` has no such letter. `None` where no integer stands there.
pub open spec fn power(s: Seq<char>) -> Option<int> {
    if mark_index(s) < s.len() {
        integer(s.skip(mark_index(s) + 1))
    } else {
        Some(0)
    }
}

/// The first letter of a power of ten stands at `mark_index(s)`, and none
/// before it.
pub proof fn lemma_mark_index(s: Seq<char>)
    ensures
        0 <= mark_index(s) <= s.len(),
        forall|i: int| 0 <= i < mark_index(s) ==> !is_mark(s[i]),
        mark_index(s) < s.len() ==> is_mark(s[mark_index(s)]),
    decreases s.len(),
{
    if s.len() > 0 && !is_mark(s[0]) {
        let rest = s.drop_first();
        lemma_mark_index(rest);
        assert forall|i: int| 0 <= i < mark_index(s) implies !is_mark(s[i]) by {
            if i > 0 {
                assert(rest[i - 1] == s[i]);
            }
        }
        if mark_index(s) < s.len() {
            assert(rest[mark_index(rest)] == s[mark_index(s)]);
        }
    }
}

/// The place `k` is that of the first such letter of `s` if none stands
/// before it and one stands at it, or `s` ends there.
pub proof fn lemma_mark_index_is(s: Seq<char>, k: int)
    requires
        0 <= k <= s.len(),
        forall|i: int| 0 <= i < k ==> !is_mark(s[i]),
        k < s.len() ==> is_mark(s[k]),
    ensures
        mark_index(s) == k,
{
    lemma_mark_index(s);
}

/// Finds the first letter of a power of ten in `text` from `from` on and
/// before `to`, or `to` if there is none.
pub(crate) fn find_mark(text: &Vec<char>, from: usize, to: usize) -> (at: usize)
    requires
        from <= to <= text.len(),
    ensures
        from <= at <= to,
        at - from == mark_index(text@.subrange(from as int, to as int)),
{
    let mut at: usize = from;
    while at < to && text[at] != 'e' && text[at] != 'E'
        invariant
            from <= at <= to <= text.len(),
            forall|i: int| from <= i < at ==> !is_mark(text@[i]),
        decreases to - at,
    {
        at += 1;
    }
    proof {
        let s = text@.subrange(from as int, to as int);
        assert forall|i: int| 0 <= i < at - from implies !is_mark(s[i]) by {
            assert(s[i] == text@[from + i]);
        }
        lemma_mark_index_is(s, at - from);
    }
    at
}

/// Reads what stands in `text` from `from` on and before `to` as an integer.
/// Returns it unless it is larger than `cap` or smaller than `-cap`.
pub(crate) fn read_integer(text: &Vec<char>, from: usize, to: usize, cap: u64) -> (r: Result<
    i128,
    ParseError,
>)
    requires
        from <= to <= text.len(),
    ensures
        match integer(text@.subrange(from as int, to as int)) {
            Some(n) => if -(cap as int) <= n <= cap as int {
                r == Ok::<i128, ParseError>(n as i128)
            } else {
                r == Err::<i128, ParseError>(ParseError::OutOfRange)
            },
            None => r == Err::<i128, ParseError>(ParseError::Malformed),
        },
{
    let ghost s = text@.subrange(from as int, to as int);
    let minus: bool = from < to && text[from] == '-';
    let plus: bool = from < to && text[from] == '+';
    let start: usize = if minus || plus {
        from + 1
    } else {
        from
    };
    let (next, value) = read_digits(text, start, to, cap as u128);
    proof {
        let digits = text@.subrange(start as int, to as int);
        if minus {
            assert(s.drop_first() =~= digits);
        } else {
            assert(unsigned(s) =~= digits);
        }
        if next < to {
            assert(digits[next - start] == text@[next as int]);
        } else {
            assert(text@.subrange(start as int, next as int) =~= digits);
        }
    }
    if next < to || next == start {
        Err(ParseError::Malformed)
    } else {
        match value {
            Some(n) => if minus {
                Ok(-(n as i128))
            } else {
                Ok(n as i128)
            },
            None => Err(ParseError::OutOfRange),
        }
    }
}

} // verus!
