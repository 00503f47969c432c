//! Kubernetes resource quantities: parsing them, and printing them back.
//!
//! Every number the API server reports about capacity (CPU, memory, ephemeral
//! storage, extended resources) arrives as a string in one small grammar:
//!
//! ```text
//! <quantity>        ::= <signedNumber><suffix>
//! <suffix>          ::= <binarySI> | <decimalExponent> | <decimalSI>
//! <binarySI>        ::= Ki | Mi | Gi | Ti | Pi | Ei
//! <decimalSI>       ::= n | u | m | "" | k | M | G | T | P | E
//! <decimalExponent> ::= ("e" | "E") <signedNumber>
//! ```
//!
//! The capacity columns and the utilisation percentages all stand on this
//! arithmetic, so [`reading`] says exactly which number a piece of text names,
//! and every function is held to it.

use vstd::arithmetic::div_mod::lemma_fundamental_div_mod;
use vstd::arithmetic::div_mod::lemma_fundamental_div_mod_converse;
use vstd::prelude::*;
use vstd::string::*;

use crate::k8s::api::ApiQuantity;
use crate::name_map::NameMap;
use crate::text;
use crate::text::{
    debug_form, decimal, decimal_nat, digits_value, held_to_i64, integer_of, is_digit, pow10,
};

verus! {

/// A quantity that could not be made sense of.
#[derive(Debug, Clone, PartialEq, Eq)]
pub enum Error {
    /// The text does not match the grammar at all.
    Malformed(String),
    /// The text is well-formed but names a number no machine will ever hold.
    TooLarge(String),
}

impl Error {
    /// What [`Error::message`] says.
    pub open spec fn wording(self) -> Seq<char> {
        match self {
            Error::Malformed(raw) => debug_form(raw@)
                + " is not a Kubernetes quantity.\nExpected a number with an optional unit, like \"100m\", \"1.5\", \"2Gi\", or \"1e3\"."@,
            Error::TooLarge(raw) => debug_form(raw@)
                + " is larger than this tool can represent; is the value correct?"@,
        }
    }

    /// The error in words, naming the text it is about.
    pub fn message(&self) -> (message: String)
        ensures
            message@ == self.wording(),
    {
        match self {
            Error::Malformed(raw) => text::quoted(raw.as_str()).concat(
                " is not a Kubernetes quantity.\nExpected a number with an optional unit, like \"100m\", \"1.5\", \"2Gi\", or \"1e3\".",
            ),
            Error::TooLarge(raw) => text::quoted(raw.as_str()).concat(
                " is larger than this tool can represent; is the value correct?",
            ),
        }
    }
}

/// A parsed resource quantity.
///
/// Held as thousandths of a unit: millicores for CPU, thousandths of a byte for
/// memory. Values finer than one thousandth of a unit are rounded to the nearest
/// thousandth.
#[derive(Debug, Clone, Copy, PartialEq, Eq, Structural, PartialOrd, Ord)]
pub struct Quantity {
    /// Thousandths of a unit.
    pub thousandths: i128,
}

/// One quantity as a share of another: `part / whole`, kept exact.
#[derive(Debug, Clone, Copy, PartialEq, Eq, Structural)]
pub struct Ratio {
    /// What is counted.
    pub part: i128,
    /// What it is counted against.
    pub whole: i128,
}

pub(crate) proof fn lemma_pow10_adds(left: nat, right: nat)
    ensures
        pow10(left + right) == pow10(left) * pow10(right),
    decreases left,
{
    if left > 0 {
        lemma_pow10_adds((left - 1) as nat, right);
        let head = pow10((left - 1) as nat) as int;
        let tail = pow10(right) as int;
        assert(10 * (head * tail) == (10 * head) * tail) by (nonlinear_arith);
        assert((left + right - 1) as nat == (left - 1) as nat + right);
    } else {
        assert(1 * pow10(right) == pow10(right));
    }
}

pub(crate) proof fn lemma_pow10_grows(small: nat, large: nat)
    requires
        small <= large,
    ensures
        1 <= pow10(small) <= pow10(large),
    decreases large,
{
    if small < large {
        lemma_pow10_grows(small, (large - 1) as nat);
    } else if large > 0 {
        lemma_pow10_grows((small - 1) as nat, (large - 1) as nat);
    }
}

/// `value / divisor` to the nearest integer, halves away from zero.
pub open spec fn nearest(value: int, divisor: int) -> int {
    if value >= 0 {
        (2 * value + divisor) / (2 * divisor)
    } else {
        -((-2 * value + divisor) / (2 * divisor))
    }
}

/// Rounding to the nearest goes by the remainder of the division.
pub proof fn lemma_nearest(value: int, divisor: int, quotient: int, remainder: int)
    requires
        value >= 0,
        divisor > 0,
        value == divisor * quotient + remainder,
        0 <= remainder < divisor,
    ensures
        nearest(value, divisor) == if 2 * remainder >= divisor {
            quotient + 1
        } else {
            quotient
        },
{
    if 2 * remainder >= divisor {
        assert(2 * value + divisor == (2 * divisor) * (quotient + 1) + (2 * remainder - divisor))
            by (nonlinear_arith)
            requires
                value == divisor * quotient + remainder,
        ;
        lemma_fundamental_div_mod_converse(
            2 * value + divisor,
            2 * divisor,
            quotient + 1,
            2 * remainder - divisor,
        );
    } else {
        assert(2 * value + divisor == (2 * divisor) * quotient + (2 * remainder + divisor))
            by (nonlinear_arith)
            requires
                value == divisor * quotient + remainder,
        ;
        lemma_fundamental_div_mod_converse(
            2 * value + divisor,
            2 * divisor,
            quotient,
            2 * remainder + divisor,
        );
    }
}

/// `value / divisor` to the nearest natural number, halves to the even one.
pub open spec fn nearest_even(value: int, divisor: int) -> int {
    let quotient = value / divisor;
    let remainder = value % divisor;
    if 2 * remainder > divisor || (2 * remainder == divisor && quotient % 2 == 1) {
        quotient + 1
    } else {
        quotient
    }
}

/// `value * 10^exponent`, rounded to the nearest integer.
pub open spec fn scaled(value: int, exponent: int) -> int {
    if exponent >= 0 {
        value * pow10(exponent as nat)
    } else {
        nearest(value, pow10((-exponent) as nat) as int)
    }
}

/// Whether a quantity can hold this many thousandths.
pub open spec fn fits(value: int) -> bool {
    i128::MIN <= value <= i128::MAX
}

/// How many digits stand in a row from a position on.
pub open spec fn digit_run(text: Seq<char>, from: int) -> nat
    decreases text.len() - from,
{
    if 0 <= from < text.len() && is_digit(text[from]) {
        1 + digit_run(text, from + 1)
    } else {
        0
    }
}

/// A number as written, taken apart.
pub struct Written {
    /// Whether it starts with a minus sign.
    pub negative: bool,
    /// Its digits, without sign and decimal point.
    pub digits: Seq<char>,
    /// How many of the digits stood behind the decimal point.
    pub fraction: nat,
    /// What follows the number.
    pub suffix: Seq<char>,
}

/// The number a text starts with, and the suffix behind it. There is none where
/// there is no digit before or behind the point.
pub open spec fn written(text: Seq<char>) -> Option<Written> {
    let start: int = if text.len() > 0 && (text[0] == '+' || text[0] == '-') {
        1
    } else {
        0
    };
    let point = start + digit_run(text, start);
    let pointed = point < text.len() && text[point] == '.';
    let fraction = if pointed {
        digit_run(text, point + 1)
    } else {
        0
    };
    let end = if pointed {
        point + 1 + fraction
    } else {
        point
    };
    if point == start && fraction == 0 {
        None
    } else {
        Some(
            Written {
                negative: start == 1 && text[0] == '-',
                digits: text.subrange(start, point) + text.subrange(end - fraction, end),
                fraction,
                suffix: text.skip(end),
            },
        )
    }
}

/// The multiplier a suffix stands for.
#[derive(Debug, Clone, Copy, PartialEq, Eq, Structural)]
pub enum Scale {
    /// A power of ten.
    Decimal(i64),
    /// A power of two, as a bit count.
    Binary(u32),
}

/// The multiplier a suffix stands for, if it is one of the grammar's. There is no
/// capital `K`, and `E` alone is exa rather than the start of an exponent. An
/// exponent past the range of an `i64` is held to it: either way the number is too
/// large for any machine, or rounds to nothing.
pub open spec fn scale_of(suffix: Seq<char>) -> Option<Scale> {
    if suffix == "Ki"@ {
        Some(Scale::Binary(10))
    } else if suffix == "Mi"@ {
        Some(Scale::Binary(20))
    } else if suffix == "Gi"@ {
        Some(Scale::Binary(30))
    } else if suffix == "Ti"@ {
        Some(Scale::Binary(40))
    } else if suffix == "Pi"@ {
        Some(Scale::Binary(50))
    } else if suffix == "Ei"@ {
        Some(Scale::Binary(60))
    } else if suffix == "n"@ {
        Some(Scale::Decimal(-9 as i64))
    } else if suffix == "u"@ {
        Some(Scale::Decimal(-6 as i64))
    } else if suffix == "m"@ {
        Some(Scale::Decimal(-3 as i64))
    } else if suffix.len() == 0 {
        Some(Scale::Decimal(0))
    } else if suffix == "k"@ {
        Some(Scale::Decimal(3))
    } else if suffix == "M"@ {
        Some(Scale::Decimal(6))
    } else if suffix == "G"@ {
        Some(Scale::Decimal(9))
    } else if suffix == "T"@ {
        Some(Scale::Decimal(12))
    } else if suffix == "P"@ {
        Some(Scale::Decimal(15))
    } else if suffix == "E"@ {
        Some(Scale::Decimal(18))
    } else if suffix[0] == 'e' || suffix[0] == 'E' {
        match integer_of(suffix.skip(1)) {
            Some(exponent) => Some(Scale::Decimal(held_to_i64(exponent) as i64)),
            None => None,
        }
    } else {
        None
    }
}

/// Two to the power of a binary suffix's bit count.
pub open spec fn binary_factor(bits: u32) -> int {
    if bits == 10 {
        0x400
    } else if bits == 20 {
        0x10_0000
    } else if bits == 30 {
        0x4000_0000
    } else if bits == 40 {
        0x100_0000_0000
    } else if bits == 50 {
        0x4_0000_0000_0000
    } else {
        0x1000_0000_0000_0000
    }
}

/// What a piece of text says, read as a quantity.
pub enum Reading {
    /// It is not a quantity.
    Malformed,
    /// It is one, and names a number that an `i128` of thousandths cannot hold.
    TooLarge,
    /// It is this many thousandths of a unit.
    Thousandths(int),
}

/// What a piece of text says, read as a quantity.
///
/// However many digits it is written with, a number is rounded to the nearest
/// thousandth, and only the result has to fit. Zero fits at any scale.
pub open spec fn reading(text: Seq<char>) -> Reading {
    match written(text) {
        None => Reading::Malformed,
        Some(number) => match scale_of(number.suffix) {
            None => Reading::Malformed,
            Some(scale) => {
                let mantissa = if number.negative {
                    -(digits_value(number.digits) as int)
                } else {
                    digits_value(number.digits) as int
                };
                let (value, exponent) = match scale {
                    Scale::Decimal(exponent) => (mantissa, exponent as int),
                    Scale::Binary(bits) => (mantissa * binary_factor(bits), 0),
                };
                let thousandths = scaled(value, exponent + 3 - number.fraction);
                if fits(thousandths) {
                    Reading::Thousandths(thousandths)
                } else {
                    Reading::TooLarge
                }
            },
        },
    }
}

/// The number a text starts with, taken apart.
struct Split {
    negative: bool,
    digits: Vec<char>,
    fraction: usize,
    suffix: Vec<char>,
}

/// The end of the run of digits that starts at a position.
fn skip_digits(chars: &[char], from: usize) -> (end: usize)
    requires
        from <= chars@.len(),
    ensures
        from <= end <= chars@.len(),
        end == from + digit_run(chars@, from as int),
        forall|i: int| from <= i < end ==> is_digit(#[trigger] chars@[i]),
{
    let mut end: usize = from;
    while end < chars.len() && text::digit(chars[end])
        invariant
            from <= end <= chars@.len(),
            end + digit_run(chars@, end as int) == from + digit_run(chars@, from as int),
            forall|i: int| from <= i < end ==> is_digit(#[trigger] chars@[i]),
        decreases chars@.len() - end,
    {
        end = end + 1;
    }
    end
}

/// Split a quantity into its mantissa digits (with the decimal point removed),
/// the number of digits that followed that point, and the suffix.
fn split(text: &str) -> (parts: Option<Split>)
    ensures
        match (parts, written(text@)) {
            (Some(parts), Some(number)) => {
                &&& parts.negative == number.negative
                &&& parts.digits@ == number.digits
                &&& parts.fraction == number.fraction
                &&& parts.suffix@ == number.suffix
                &&& text::all_digits(parts.digits@)
            },
            (None, None) => true,
            _ => false,
        },
{
    let chars = text::chars_of(text);
    let signed = chars.len() > 0 && (chars[0] == '+' || chars[0] == '-');
    let start: usize = if signed {
        1
    } else {
        0
    };
    let point = skip_digits(&chars, start);
    let pointed = point < chars.len() && chars[point] == '.';
    let after: usize = if pointed {
        point + 1
    } else {
        point
    };
    let end: usize = if pointed {
        skip_digits(&chars, after)
    } else {
        point
    };
    if point == start && end == after {
        return None;
    }
    let mut digits: Vec<char> = Vec::new();
    digits.extend_from_slice(vstd::slice::slice_subrange(chars.as_slice(), start, point));
    assert(digits@ =~= chars@.subrange(start as int, point as int));
    digits.extend_from_slice(vstd::slice::slice_subrange(chars.as_slice(), after, end));
    assert(digits@ =~= chars@.subrange(start as int, point as int) + chars@.subrange(
        after as int,
        end as int,
    ));
    let mut suffix: Vec<char> = Vec::new();
    suffix.extend_from_slice(vstd::slice::slice_subrange(chars.as_slice(), end, chars.len()));
    assert(suffix@ =~= text@.skip(end as int));
    Some(
        Split {
            negative: signed && chars[0] == '-',
            digits,
            fraction: end - after,
            suffix,
        },
    )
}

impl Scale {
    /// The multiplier a suffix stands for.
    fn of(suffix: &[char]) -> (scale: Option<Scale>)
        ensures
            scale == scale_of(suffix@),
    {
        let name = text::text_of(suffix);
        let name = name.as_str();
        if text::same(name, "Ki") {
            return Some(Scale::Binary(10));
        }
        if text::same(name, "Mi") {
            return Some(Scale::Binary(20));
        }
        if text::same(name, "Gi") {
            return Some(Scale::Binary(30));
        }
        if text::same(name, "Ti") {
            return Some(Scale::Binary(40));
        }
        if text::same(name, "Pi") {
            return Some(Scale::Binary(50));
        }
        if text::same(name, "Ei") {
            return Some(Scale::Binary(60));
        }
        if text::same(name, "n") {
            return Some(Scale::Decimal(-9));
        }
        if text::same(name, "u") {
            return Some(Scale::Decimal(-6));
        }
        if text::same(name, "m") {
            return Some(Scale::Decimal(-3));
        }
        if suffix.len() == 0 {
            return Some(Scale::Decimal(0));
        }
        if text::same(name, "k") {
            return Some(Scale::Decimal(3));
        }
        if text::same(name, "M") {
            return Some(Scale::Decimal(6));
        }
        if text::same(name, "G") {
            return Some(Scale::Decimal(9));
        }
        if text::same(name, "T") {
            return Some(Scale::Decimal(12));
        }
        if text::same(name, "P") {
            return Some(Scale::Decimal(15));
        }
        if text::same(name, "E") {
            return Some(Scale::Decimal(18));
        }
        if suffix[0] != 'e' && suffix[0] != 'E' {
            return None;
        }
        let rest = vstd::slice::slice_subrange(suffix, 1, suffix.len());
        assert(rest@ =~= suffix@.skip(1));
        match text::parse_i64(rest) {
            Some(exponent) => Some(Scale::Decimal(exponent)),
            None => None,
        }
    }
}

/// The magnitude of a signed number.
fn magnitude_of(value: i128) -> (magnitude: u128)
    ensures
        magnitude == if value < 0 {
            -(value as int)
        } else {
            value as int
        },
        magnitude <= 170141183460469231731687303715884105728,
{
    if value == i128::MIN {
        170141183460469231731687303715884105728
    } else if value < 0 {
        (-value) as u128
    } else {
        value as u128
    }
}

/// What is left of a division by a power of ten goes by the digit in front of it.
proof fn lemma_carry(value: int, power: int, quotient: int)
    requires
        value >= 0,
        power >= 1,
        quotient == value / power,
    ensures
        value / (10 * power) == quotient / 10,
        2 * (value % (10 * power)) >= 10 * power <==> quotient % 10 >= 5,
{
    let rest = value % power;
    let high = quotient / 10;
    let digit = quotient % 10;
    lemma_fundamental_div_mod(value, power);
    assert(power * quotient == (10 * power) * high + digit * power) by (nonlinear_arith)
        requires
            quotient == 10 * high + digit,
    ;
    assert(0 <= digit * power <= 9 * power) by (nonlinear_arith)
        requires
            0 <= digit <= 9,
            power >= 1,
    ;
    assert(digit >= 5 ==> digit * power >= 5 * power) by (nonlinear_arith)
        requires
            power >= 1,
    ;
    assert(digit <= 4 ==> digit * power <= 4 * power) by (nonlinear_arith)
        requires
            power >= 1,
    ;
    lemma_fundamental_div_mod_converse(value, 10 * power, high, digit * power + rest);
}

/// The digits times a factor, divided by ten to the power of `places`, rounding
/// halves away from zero, where a `u128` holds it.
///
/// Long multiplication over the digits that are divided away, so that it does not
/// matter how many there are: what is carried out of them, and the last digit
/// written down, are all that the result needs.
fn round_div(digits: &[char], factor: u128, places: u128) -> (rounded: Option<u128>)
    requires
        text::all_digits(digits@),
        1 <= factor <= 0x1000_0000_0000_0000,
        1 <= places,
    ensures
        ({
            let exact = nearest(digits_value(digits@) * factor, pow10(places as nat) as int);
            match rounded {
                Some(held) => held == exact,
                None => exact > u128::MAX,
            }
        }),
{
    let count = digits.len();
    let kept: usize = if places >= count as u128 {
        0
    } else {
        (count as u128 - places) as usize
    };
    let ghost factor_int = factor as int;
    let mut carry: u128 = 0;
    let mut top: u128 = 0;
    let mut at: usize = count;
    let ghost mut low: int = 0;
    assert(digits@.skip(at as int) =~= seq![]);
    while at > kept
        invariant
            text::all_digits(digits@),
            1 <= factor <= 0x1000_0000_0000_0000,
            factor_int == factor,
            kept <= at <= count,
            count == digits@.len(),
            low == digits_value(digits@.skip(at as int)),
            carry < factor,
            carry == (low * factor_int) / (pow10((count - at) as nat) as int),
            at < count ==> ((top >= 5) <==> 2 * ((low * factor_int) % (pow10(
                (count - at) as nat,
            ) as int)) >= pow10((count - at) as nat)),
        decreases at,
    {
        let ghost done = (count - at) as nat;
        let ghost power = pow10(done) as int;
        at = at - 1;
        assert(is_digit(digits@[at as int]));
        let digit: u128 = (digits[at] as u32 - '0' as u32) as u128;
        let ghost first = seq![digits@[at as int]];
        let ghost next = digit * power + low;
        proof {
            lemma_pow10_grows(0, done);
            assert(digits@.skip(at as int) =~= first + digits@.skip(at + 1));
            text::lemma_digits_value_splits(first, digits@.skip(at + 1));
            assert(first.drop_last() =~= seq![]);
            assert(digits_value(first.drop_last()) == 0);
            assert(digits_value(first) == digit);
            assert(next == digits_value(digits@.skip(at as int)));
            assert(0 <= digit * factor <= 9 * factor) by (nonlinear_arith)
                requires
                    0 <= digit <= 9,
                    factor >= 0,
            ;
            assert(low * factor_int >= 0) by (nonlinear_arith)
                requires
                    low >= 0,
                    factor_int >= 0,
            ;
            lemma_fundamental_div_mod(low * factor_int, power);
            let df = digit * factor_int;
            assert(next * factor_int == power * (df + carry) + (low * factor_int) % power)
                by (nonlinear_arith)
                requires
                    next == digit * power + low,
                    df == digit * factor_int,
                    low * factor_int == power * carry + (low * factor_int) % power,
            ;
            lemma_fundamental_div_mod_converse(
                next * factor_int,
                power,
                df + carry,
                (low * factor_int) % power,
            );
            assert(next * factor_int >= 0) by (nonlinear_arith)
                requires
                    next >= 0,
                    factor_int >= 0,
            ;
            lemma_carry(next * factor_int, power, df + carry);
            assert(pow10(done + 1) == 10 * pow10(done));
            low = next;
        }
        let written: u128 = digit * factor + carry;
        top = written % 10;
        carry = written / 10;
    }
    let mut done: u128 = (count - kept) as u128;
    let ghost value = low * factor_int;
    proof {
        assert(value >= 0) by (nonlinear_arith)
            requires
                value == low * factor_int,
                low >= 0,
                factor_int >= 0,
        ;
        if count == 0 {
            assert(value == 0) by (nonlinear_arith)
                requires
                    value == low * factor_int,
                    low == 0,
            ;
        }
    }
    while done < places && carry > 0
        invariant
            (count - kept) <= done <= places,
            value >= 0,
            carry < 0x1000_0000_0000_0000,
            carry == value / (pow10(done as nat) as int),
            done > 0 ==> ((top >= 5) <==> 2 * (value % (pow10(done as nat) as int)) >= pow10(
                done as nat,
            )),
        decreases places - done,
    {
        proof {
            lemma_pow10_grows(0, done as nat);
            lemma_carry(value, pow10(done as nat) as int, carry as int);
            assert(pow10((done + 1) as nat) == 10 * pow10(done as nat));
        }
        top = carry % 10;
        carry = carry / 10;
        done = done + 1;
    }
    let ghost power = pow10(places as nat) as int;
    proof {
        lemma_pow10_grows(0, places as nat);
    }
    if done < places {
        proof {
            assert(kept == 0);
            assert(digits@.skip(0) =~= digits@);
            let small = pow10(done as nat) as int;
            lemma_pow10_grows(0, done as nat);
            lemma_fundamental_div_mod(value, small);
            assert(small * 0 == 0);
            assert(value < small);
            lemma_pow10_grows((done + 1) as nat, places as nat);
            assert(pow10((done + 1) as nat) == 10 * pow10(done as nat));
            assert(power * 0 == 0) by (nonlinear_arith);
            lemma_nearest(value, power, 0, value);
        }
        return Some(0);
    }
    let below: u128 = if top >= 5 {
        carry + 1
    } else {
        carry
    };
    let head = vstd::slice::slice_subrange(digits, 0, kept);
    let ghost high = digits_value(head@) as int;
    proof {
        assert forall|i: int| 0 <= i < head@.len() implies is_digit(#[trigger] head@[i]) by {
            assert(head@[i] == digits@[i]);
        }
        assert(head@ + digits@.skip(kept as int) =~= digits@);
        text::lemma_digits_value_splits(head@, digits@.skip(kept as int));
        let whole = digits_value(digits@) as int;
        if kept > 0 {
            assert(digits@.skip(kept as int).len() == places);
            assert(whole == high * power + low);
        } else {
            assert(head@ =~= seq![]);
            assert(high == 0);
            assert(0 * pow10(digits@.skip(0).len()) == 0);
            assert(whole == low);
            assert(high * power == 0) by (nonlinear_arith)
                requires
                    high == 0,
            ;
        }
        lemma_fundamental_div_mod(value, power);
        assert(whole * factor_int == power * (high * factor_int + carry) + value % power)
            by (nonlinear_arith)
            requires
                whole == high * power + low,
                value == low * factor_int,
                value == power * carry + value % power,
        ;
        assert(whole * factor_int >= 0) by (nonlinear_arith)
            requires
                whole >= 0,
                factor_int >= 0,
        ;
        lemma_nearest(whole * factor_int, power, high * factor_int + carry, value % power);
        assert(nearest(whole * factor_int, power) == high * factor_int + below);
        assert(high * factor_int >= high) by (nonlinear_arith)
            requires
                high >= 0,
                factor_int >= 1,
        ;
    }
    match text::number_of_digits(head) {
        Some(number) => match number.checked_mul(factor) {
            Some(product) => product.checked_add(below),
            None => None,
        },
        None => None,
    }
}

/// The digits times a factor and ten to the power of `exponent`, rounding to the
/// nearest integer when the exponent is negative, where a `u128` holds it.
fn shift_decimal(digits: &[char], factor: u128, exponent: i128) -> (shifted: Option<u128>)
    requires
        text::all_digits(digits@),
        1 <= factor <= 0x1000_0000_0000_0000,
        -0x4_0000_0000_0000_0000 <= exponent <= 0x4_0000_0000_0000_0000,
    ensures
        ({
            let exact = scaled(digits_value(digits@) * factor, exponent as int);
            match shifted {
                Some(held) => held == exact,
                None => exact > u128::MAX,
            }
        }),
{
    if exponent < 0 {
        return round_div(digits, factor, (-exponent) as u128);
    }
    let ghost number = digits_value(digits@) as int;
    let ghost value = number * factor;
    let ghost power = pow10(exponent as nat) as int;
    proof {
        lemma_pow10_grows(0, exponent as nat);
        assert(value >= number) by (nonlinear_arith)
            requires
                value == number * factor,
                number >= 0,
                factor >= 1,
        ;
        assert(value * power >= value) by (nonlinear_arith)
            requires
                value >= 0,
                power >= 1,
        ;
    }
    let mut shifted: u128 = match text::number_of_digits(digits) {
        Some(magnitude) => match magnitude.checked_mul(factor) {
            Some(shifted) => shifted,
            None => {
                return None;
            },
        },
        None => {
            return None;
        },
    };
    if shifted == 0 {
        assert(value * power == 0) by (nonlinear_arith)
            requires
                value == 0,
        ;
        return Some(0);
    }
    let mut done: i128 = 0;
    assert(value * pow10(0) == value) by {
        assert(pow10(0) == 1);
    }
    while done < exponent
        invariant
            0 <= done <= exponent,
            value == digits_value(digits@) * factor,
            shifted == value * pow10(done as nat),
        decreases exponent - done,
    {
        proof {
            let left = (exponent - done - 1) as nat;
            assert(pow10((done + 1) as nat) == 10 * pow10(done as nat));
            lemma_pow10_adds((done + 1) as nat, left);
            lemma_pow10_grows(0, left);
            let p = pow10(done as nat) as int;
            let rest = pow10(left) as int;
            assert((value * p) * 10 == value * (10 * p)) by (nonlinear_arith);
            let w = value * (10 * p);
            assert(value * ((10 * p) * rest) == w * rest) by (nonlinear_arith)
                requires
                    w == value * (10 * p),
            ;
            assert(w > u128::MAX ==> w * rest > u128::MAX) by (nonlinear_arith)
                requires
                    rest >= 1,
            ;
        }
        shifted = match shifted.checked_mul(10) {
            Some(next) => next,
            None => {
                return None;
            },
        };
        done = done + 1;
    }
    Some(shifted)
}

/// A number and its opposite are scaled to opposites.
proof fn lemma_scaled_opposite(value: int, exponent: int)
    requires
        value >= 0,
    ensures
        scaled(-value, exponent) == -scaled(value, exponent),
        scaled(value, exponent) >= 0,
{
    let power = pow10((if exponent < 0 { -exponent } else { exponent }) as nat) as int;
    lemma_pow10_grows(0, (if exponent < 0 { -exponent } else { exponent }) as nat);
    if exponent >= 0 {
        assert((-value) * power == -(value * power)) by (nonlinear_arith);
        assert(value * power >= 0) by (nonlinear_arith)
            requires
                value >= 0,
                power >= 0,
        ;
    } else {
        law_nearest_is_nearest(value, power);
        lemma_fundamental_div_mod(value, power);
        lemma_nearest(value, power, value / power, value % power);
        vstd::arithmetic::div_mod::lemma_div_pos_is_pos(value, power);
    }
}

/// Rounding gives a nearest integer, a tie goes away from zero, and the sign
/// carries over.
pub proof fn law_nearest_is_nearest(value: int, divisor: int)
    requires
        divisor >= 1,
    ensures
        ({
            let back = nearest(value, divisor) * divisor;
            let off = if value >= back {
                value - back
            } else {
                back - value
            };
            &&& 2 * off <= divisor
            &&& 2 * off == divisor ==> if value >= 0 {
                back > value
            } else {
                back < value
            }
        }),
        nearest(-value, divisor) == -nearest(value, divisor),
{
    let magnitude = if value < 0 {
        -value
    } else {
        value
    };
    let quotient = magnitude / divisor;
    let remainder = magnitude % divisor;
    lemma_fundamental_div_mod(magnitude, divisor);
    lemma_nearest(magnitude, divisor, quotient, remainder);
    let rounded = nearest(magnitude, divisor);
    assert((quotient + 1) * divisor == divisor * quotient + divisor) by (nonlinear_arith);
    assert(quotient * divisor == divisor * quotient) by (nonlinear_arith);
    assert((-rounded) * divisor == -(rounded * divisor)) by (nonlinear_arith);
    if value == 0 {
        lemma_fundamental_div_mod_converse(divisor, 2 * divisor, 0, divisor);
    }
}

impl Quantity {
    /// Parse a quantity as the API server writes it.
    pub fn parse(text: &str) -> (parsed: Result<Self, Error>)
        ensures
            match parsed {
                Ok(quantity) => reading(text@) == Reading::Thousandths(quantity.thousandths as int),
                Err(Error::Malformed(raw)) => reading(text@) is Malformed && raw@ == text@,
                Err(Error::TooLarge(raw)) => reading(text@) is TooLarge && raw@ == text@,
            },
    {
        let parts = match split(text) {
            Some(parts) => parts,
            None => {
                return Err(Error::Malformed(text.to_owned()));
            },
        };
        let scale = match Scale::of(&parts.suffix) {
            Some(scale) => scale,
            None => {
                return Err(Error::Malformed(text.to_owned()));
            },
        };
        let (factor, exponent): (u128, i64) = match scale {
            Scale::Decimal(exponent) => (1, exponent),
            Scale::Binary(bits) => (factor_of(bits), 0),
        };
        let places: i128 = exponent as i128 + 3 - parts.fraction as i128;
        proof {
            let magnitude = digits_value(parts.digits@) as int;
            assert(magnitude * 1 == magnitude);
            assert((-magnitude) * factor == -(magnitude * factor)) by (nonlinear_arith);
            assert(magnitude * factor >= 0) by (nonlinear_arith)
                requires
                    magnitude >= 0,
                    factor >= 0,
            ;
            lemma_scaled_opposite(magnitude * factor, places as int);
        }
        let held = match shift_decimal(&parts.digits, factor, places) {
            Some(magnitude) => text::signed(parts.negative, magnitude),
            None => None,
        };
        match held {
            Some(thousandths) => Ok(Quantity { thousandths }),
            None => Err(Error::TooLarge(text.to_owned())),
        }
    }
}

impl Default for Quantity {
    /// Nothing at all.
    fn default() -> (quantity: Self)
        ensures
            quantity.thousandths == 0,
    {
        Quantity { thousandths: 0 }
    }
}

/// A sum held to the range of an `i128`.
pub open spec fn saturated(sum: int) -> int {
    if sum > i128::MAX {
        i128::MAX as int
    } else if sum < i128::MIN {
        i128::MIN as int
    } else {
        sum
    }
}

/// What adding one quantity to another gives.
pub open spec fn sum_of(left: Quantity, right: Quantity) -> Quantity {
    Quantity { thousandths: saturated(left.thousandths + right.thousandths) as i128 }
}

impl vstd::std_specs::ops::AddSpecImpl for Quantity {
    open spec fn obeys_add_spec() -> bool {
        true
    }

    open spec fn add_req(self, rhs: Self) -> bool {
        true
    }

    open spec fn add_spec(self, rhs: Self) -> Self {
        sum_of(self, rhs)
    }
}

impl std::ops::Add for Quantity {
    type Output = Self;

    /// Saturating rather than checked or wrapping: a total that pins at the
    /// maximum is a visibly absurd number, where wrapping would turn it into a
    /// small, plausible lie.
    fn add(self, rhs: Self) -> Self {
        let thousandths: i128 = match self.thousandths.checked_add(rhs.thousandths) {
            Some(sum) => sum,
            None => if rhs.thousandths > 0 {
                i128::MAX
            } else {
                i128::MIN
            },
        };
        Quantity { thousandths }
    }
}

/// What quantities add up to, from the first to the last.
pub open spec fn total_of(quantities: Seq<Quantity>) -> Quantity
    decreases quantities.len(),
{
    if quantities.len() == 0 {
        Quantity { thousandths: 0 }
    } else {
        sum_of(total_of(quantities.drop_last()), quantities.last())
    }
}

/// An integer divided by a positive one, the fraction dropped.
pub open spec fn toward_zero(value: int, divisor: int) -> int {
    if value < 0 {
        -((-value) / divisor)
    } else {
        value / divisor
    }
}

impl Quantity {
    /// What quantities add up to, from the first to the last.
    pub fn sum(quantities: &[Quantity]) -> (total: Quantity)
        ensures
            total == total_of(quantities@),
    {
        let mut total: Quantity = Quantity::default();
        let mut i: usize = 0;
        while i < quantities.len()
            invariant
                i <= quantities@.len(),
                total == total_of(quantities@.take(i as int)),
            decreases quantities@.len() - i,
        {
            let ghost before = quantities@.take(i + 1);
            assert(before.drop_last() =~= quantities@.take(i as int));
            total = total + quantities[i];
            i = i + 1;
        }
        assert(quantities@.take(i as int) =~= quantities@);
        total
    }

    /// Parse the API's newtype, which is a `String` in a coat.
    pub fn from_api(quantity: &ApiQuantity) -> (parsed: Result<Self, Error>)
        ensures
            match parsed {
                Ok(parsed) => reading(quantity.0@) == Reading::Thousandths(parsed.thousandths as int),
                Err(Error::Malformed(raw)) => reading(quantity.0@) is Malformed && raw@
                    == quantity.0@,
                Err(Error::TooLarge(raw)) => reading(quantity.0@) is TooLarge && raw@
                    == quantity.0@,
            },
    {
        Self::parse(quantity.0.as_str())
    }

    /// Look one resource up in a resource map.
    ///
    /// `None` covers both "this resource was not reported" and "what was
    /// reported cannot be parsed": a capacity column is not the place to fail a
    /// whole listing over one odd extended resource.
    #[must_use]
    pub fn lookup(map: Option<&NameMap<ApiQuantity>>, resource: &str) -> (found: Option<Self>)
        ensures
            match found {
                Some(quantity) => {
                    &&& map is Some
                    &&& map->0@.contains_key(resource@)
                    &&& reading(map->0@[resource@].0@) == Reading::Thousandths(
                        quantity.thousandths as int,
                    )
                },
                None => map is Some && map->0@.contains_key(resource@) ==> !(reading(
                    map->0@[resource@].0@,
                ) is Thousandths),
            },
    {
        match map {
            Some(map) => match map.get(resource) {
                Some(raw) => match Self::from_api(raw) {
                    Ok(quantity) => Some(quantity),
                    Err(_) => None,
                },
                None => None,
            },
            None => None,
        }
    }

    /// Thousandths of a unit: millicores for CPU, thousandths of a byte for
    /// memory.
    #[must_use]
    pub fn thousandths(self) -> (thousandths: i128)
        ensures
            thousandths == self.thousandths,
    {
        self.thousandths
    }

    /// Whole units, rounded towards zero. Bytes, for memory.
    #[must_use]
    pub fn units(self) -> (units: i128)
        ensures
            units == toward_zero(self.thousandths as int, 1000),
    {
        let whole: u128 = magnitude_of(self.thousandths) / 1000;
        if self.thousandths < 0 {
            -(whole as i128)
        } else {
            whole as i128
        }
    }

    /// `self / total`, or `None` when `total` is zero or negative: a node
    /// reporting zero capacity is a real thing that happens while it registers.
    #[must_use]
    pub fn ratio_of(self, total: Self) -> (ratio: Option<Ratio>)
        ensures
            ratio == if total.thousandths <= 0 {
                None
            } else {
                Some(Ratio { part: self.thousandths, whole: total.thousandths })
            },
    {
        if total.thousandths <= 0 {
            return None;
        }
        Some(Ratio { part: self.thousandths, whole: total.thousandths })
    }
}

/// How [`cpu`] writes a quantity.
pub open spec fn cpu_text(quantity: Quantity) -> Seq<char> {
    let millis = quantity.thousandths as int;
    if millis % 1000 == 0 {
        decimal(toward_zero(millis, 1000))
    } else {
        decimal(millis) + "m"@
    }
}

/// CPU, the way `kubectl` writes it: whole cores when it divides evenly,
/// millicores otherwise.
#[must_use]
pub fn cpu(quantity: Quantity) -> (text: String)
    ensures
        text@ == cpu_text(quantity),
{
    let millis = quantity.thousandths();
    let magnitude = magnitude_of(millis);
    if magnitude % 1000 == 0 {
        proof {
            assert(millis as int % 1000 == 0);
        }
        text::show_integer(quantity.units())
    } else {
        assert(millis as int % 1000 != 0);
        text::show_integer(millis).concat("m")
    }
}

/// A count of whole things: GPUs, dongles, licences.
///
/// Extended resources are integers by definition, so this is [`cpu`]'s spelling
/// under a name that says what is being counted. A cluster that somehow
/// advertises `500m` of a device has a bug worth seeing, so a fraction is
/// shown rather than rounded away.
#[must_use]
pub fn count(quantity: Quantity) -> (text: String)
    ensures
        text@ == cpu_text(quantity),
{
    cpu(quantity)
}

/// The spacing of the numbers with 53 significant bits around this one.
pub open spec fn spacing(magnitude: nat) -> nat
    decreases magnitude,
{
    if magnitude < 0x20_0000_0000_0000 {
        1
    } else {
        2 * spacing(magnitude / 2)
    }
}

/// The nearest number with at most 53 significant bits, halves to the even one.
pub open spec fn double_of(magnitude: nat) -> nat {
    (nearest_even(magnitude as int, spacing(magnitude) as int) * spacing(magnitude)) as nat
}

/// The largest binary unit that leaves at least one of it.
pub open spec fn unit_of(magnitude: nat) -> Option<(Seq<char>, nat)> {
    if magnitude >= 0x1000_0000_0000_0000 {
        Some(("Ei"@, 0x1000_0000_0000_0000))
    } else if magnitude >= 0x4_0000_0000_0000 {
        Some(("Pi"@, 0x4_0000_0000_0000))
    } else if magnitude >= 0x100_0000_0000 {
        Some(("Ti"@, 0x100_0000_0000))
    } else if magnitude >= 0x4000_0000 {
        Some(("Gi"@, 0x4000_0000))
    } else if magnitude >= 0x10_0000 {
        Some(("Mi"@, 0x10_0000))
    } else if magnitude >= 0x400 {
        Some(("Ki"@, 0x400))
    } else {
        None
    }
}

/// A number of tenths with one decimal place, the `.0` trimmed.
pub open spec fn tenths_text(tenths: nat) -> Seq<char> {
    if tenths % 10 == 0 {
        decimal_nat(tenths / 10)
    } else {
        decimal_nat(tenths / 10) + "."@ + decimal_nat(tenths % 10)
    }
}

/// How [`memory`] writes a quantity.
pub open spec fn memory_text(quantity: Quantity) -> Seq<char> {
    let bytes = toward_zero(quantity.thousandths as int, 1000);
    let magnitude = (if bytes < 0 { -bytes } else { bytes }) as nat;
    let sign = if bytes < 0 {
        "-"@
    } else {
        seq![]
    };
    match unit_of(magnitude) {
        Some((suffix, unit)) => sign + tenths_text(
            nearest_even((double_of(magnitude) * 10) as int, unit as int) as nat,
        ) + suffix,
        None => decimal(bytes),
    }
}

fn spacing_of(magnitude: u128) -> (step: u128)
    ensures
        step == spacing(magnitude as nat),
        1 <= step,
        step <= magnitude || step == 1,
    decreases magnitude,
{
    if magnitude < 0x20_0000_0000_0000 {
        1
    } else {
        2 * spacing_of(magnitude / 2)
    }
}

fn round_half_even(value: u128, divisor: u128) -> (rounded: u128)
    requires
        0 < divisor <= 0x2000_0000_0000_0000_0000_0000_0000_0000,
        value < 0x2000_0000_0000_0000_0000_0000_0000_0000,
    ensures
        rounded == nearest_even(value as int, divisor as int),
        rounded <= value / divisor + 1,
{
    let quotient: u128 = value / divisor;
    let remainder: u128 = value % divisor;
    proof {
        vstd::arithmetic::div_mod::lemma_div_is_ordered_by_denominator(value as int, 1, divisor as int);
    }
    if 2 * remainder > divisor || (2 * remainder == divisor && quotient % 2 == 1) {
        quotient + 1
    } else {
        quotient
    }
}

/// Memory, in the largest binary unit that leaves a number a person can read.
///
/// One decimal place, and the `.0` trimmed: `15.6Gi`, `512Mi`, `4Gi`. This is
/// deliberately not `kubectl`'s output, which is precise and unreadable at a
/// glance. The division is carried out in double precision, which keeps 53
/// significant bits and breaks ties towards the even digit.
#[must_use]
pub fn memory(quantity: Quantity) -> (text: String)
    ensures
        text@ == memory_text(quantity),
{
    let bytes = quantity.units();
    let magnitude = magnitude_of(bytes);
    let (suffix, unit): (&str, u128) = if magnitude >= 0x1000_0000_0000_0000 {
        ("Ei", 0x1000_0000_0000_0000)
    } else if magnitude >= 0x4_0000_0000_0000 {
        ("Pi", 0x4_0000_0000_0000)
    } else if magnitude >= 0x100_0000_0000 {
        ("Ti", 0x100_0000_0000)
    } else if magnitude >= 0x4000_0000 {
        ("Gi", 0x4000_0000)
    } else if magnitude >= 0x10_0000 {
        ("Mi", 0x10_0000)
    } else if magnitude >= 0x400 {
        ("Ki", 0x400)
    } else {
        return text::show_integer(bytes);
    };
    let step = spacing_of(magnitude);
    let steps = round_half_even(magnitude, step);
    proof {
        let m = magnitude as int;
        let s = step as int;
        lemma_fundamental_div_mod(m, s);
        assert((m / s + 1) * s <= 2 * m) by (nonlinear_arith)
            requires
                m == s * (m / s) + m % s,
                0 <= m % s,
                s <= m,
        ;
        assert(0 <= steps * step <= (m / s + 1) * s) by (nonlinear_arith)
            requires
                0 <= steps <= m / s + 1,
                step == s,
                s >= 1,
        ;
    }
    let double: u128 = steps * step;
    let tenths = round_half_even(double * 10, unit);
    let mut text: String = String::new();
    if bytes < 0 {
        text.append("-");
    }
    text.append(text::show_natural(tenths / 10).as_str());
    if tenths % 10 != 0 {
        text.append(".");
        text.append(text::show_natural(tenths % 10).as_str());
    }
    text.append(suffix);
    assert(text@ =~= memory_text(quantity));
    text
}

/// Addition takes its operands in either order.
pub proof fn law_addition_commutes(left: Quantity, right: Quantity)
    ensures
        sum_of(left, right) == sum_of(right, left),
{
}

/// Adding an amount that is not negative never makes a total smaller, however
/// near the end of the range it is: totals pin, they do not wrap.
pub proof fn law_totals_never_wrap(total: Quantity, more: Quantity)
    requires
        more.thousandths >= 0,
    ensures
        sum_of(total, more).thousandths >= total.thousandths,
        sum_of(total, more).thousandths >= more.thousandths || total.thousandths < 0,
{
}

pub(crate) proof fn lemma_digit_run(text: Seq<char>, from: int, count: int)
    requires
        0 <= from,
        0 <= count,
        from + count <= text.len(),
        forall|i: int| from <= i < from + count ==> is_digit(#[trigger] text[i]),
        from + count < text.len() ==> !is_digit(text[from + count]),
    ensures
        digit_run(text, from) == count,
    decreases count,
{
    if count > 0 {
        lemma_digit_run(text, from + 1, count - 1);
    }
}

/// A whole number with a suffix that does not start like a number reads as that
/// number and that suffix.
pub(crate) proof fn lemma_written_whole(number: int, suffix: Seq<char>)
    requires
        suffix.len() > 0 ==> !is_digit(suffix[0]) && suffix[0] != '.',
    ensures
        ({
            let magnitude = (if number < 0 { -number } else { number }) as nat;
            let read = written(decimal(number) + suffix);
            &&& read is Some
            &&& read->0.negative == (number < 0)
            &&& read->0.digits == decimal_nat(magnitude)
            &&& read->0.fraction == 0
            &&& read->0.suffix == suffix
        }),
{
    let magnitude = (if number < 0 { -number } else { number }) as nat;
    let digits = decimal_nat(magnitude);
    let text = decimal(number) + suffix;
    let start: int = if number < 0 {
        1
    } else {
        0
    };
    text::lemma_decimal_reads_back(magnitude);
    assert forall|i: int| start <= i < start + digits.len() implies is_digit(#[trigger] text[i]) by {
        assert(text[i] == digits[i - start]);
    }
    if number >= 0 {
        assert(text[0] == digits[0]);
    }
    let point = start + digits.len();
    if point < text.len() {
        assert(text[point] == suffix[0]);
    }
    lemma_digit_run(text, start, digits.len() as int);
    assert(text.subrange(start, point) + text.subrange(point, point) =~= digits);
    assert(text.skip(point) =~= suffix);
}

/// A quantity survives a round trip unchanged: what [`cpu`] and [`count`] write
/// reads as the quantity that was written.
pub proof fn law_cpu_reads_back(quantity: Quantity)
    ensures
        reading(cpu_text(quantity)) == Reading::Thousandths(quantity.thousandths as int),
{
    let millis = quantity.thousandths as int;
    reveal_strlit("Ki");
    reveal_strlit("Mi");
    reveal_strlit("Gi");
    reveal_strlit("Ti");
    reveal_strlit("Pi");
    reveal_strlit("Ei");
    reveal_strlit("n");
    reveal_strlit("u");
    reveal_strlit("m");
    let whole = millis % 1000 == 0;
    let number = if whole {
        toward_zero(millis, 1000)
    } else {
        millis
    };
    let suffix: Seq<char> = if whole {
        seq![]
    } else {
        "m"@
    };
    let magnitude = (if number < 0 { -number } else { number }) as nat;
    lemma_written_whole(number, suffix);
    text::lemma_decimal_reads_back(magnitude);
    assert(cpu_text(quantity) =~= decimal(number) + suffix);
    assert("n"@[0] == 'n');
    assert("u"@[0] == 'u');
    assert("m"@[0] == 'm');
    assert("Ki"@.len() == 2 && "Mi"@.len() == 2 && "Gi"@.len() == 2);
    assert("Ti"@.len() == 2 && "Pi"@.len() == 2 && "Ei"@.len() == 2);
    assert("n"@.len() == 1 && "u"@.len() == 1 && "m"@.len() == 1);
    reveal_with_fuel(pow10, 4);
    assert(pow10(0) == 1);
    assert(pow10(3) == 1000);
    if whole {
        assert(scale_of(suffix) == Some(Scale::Decimal(0)));
        assert(number * 1000 == millis);
    } else {
        assert(scale_of(suffix) == Some(Scale::Decimal(-3 as i64)));
        assert(number * 1 == millis);
    }
}

/// Two to the power of a binary suffix's bit count.
fn factor_of(bits: u32) -> (factor: u128)
    ensures
        factor == binary_factor(bits),
        1 <= factor <= 0x1000_0000_0000_0000,
{
    if bits == 10 {
        0x400
    } else if bits == 20 {
        0x10_0000
    } else if bits == 30 {
        0x4000_0000
    } else if bits == 40 {
        0x100_0000_0000
    } else if bits == 50 {
        0x4_0000_0000_0000
    } else {
        0x1000_0000_0000_0000
    }
}

} // verus!
