//! Which number a quantity names, and how one is written.

use vstd::arithmetic::power::pow;
use vstd::arithmetic::power2::{lemma2_to64, lemma_pow2_pos, lemma_pow2_unfold, pow2};
use vstd::prelude::*;

use crate::k8s::quantity::{
    cpu_text, double_of, law_nearest_is_nearest, lemma_digit_run, lemma_pow10_adds,
    lemma_pow10_grows, memory_text, nearest, nearest_even, reading, scale_of, scaled, spacing,
    sum_of, tenths_text, total_of, toward_zero, unit_of, written, Quantity, Reading, Scale,
};
use crate::laws::{lemma_sum_at_least, sum};
use crate::text::{decimal, decimal_nat, digits_value, integer_of, pow10};

verus! {

/// Whether a text is digits alone.
pub open spec fn is_number(text: Seq<char>) -> bool {
    forall|i: int| 0 <= i < text.len() ==> '0' <= #[trigger] text[i] && text[i] <= '9'
}

/// Whether an integer is the nearest to a fraction, one half of the way between two
/// going away from zero.
pub open spec fn is_nearest(rounded: int, value: int, divisor: int) -> bool {
    if value >= 0 {
        2 * value - divisor < 2 * rounded * divisor <= 2 * value + divisor
    } else {
        2 * value - divisor <= 2 * rounded * divisor < 2 * value + divisor
    }
}

/// How many thousandths one of a unit is: a factor, times ten to a power.
pub struct Unit {
    /// The factor.
    pub factor: int,
    /// The power of ten.
    pub power: int,
}

/// What a suffix multiplies by.
pub open spec fn unit_named(suffix: Seq<char>) -> Option<Unit> {
    if suffix == seq!['n'] {
        Some(Unit { factor: 1, power: -6 })
    } else if suffix == seq!['u'] {
        Some(Unit { factor: 1, power: -3 })
    } else if suffix == seq!['m'] {
        Some(Unit { factor: 1, power: 0 })
    } else if suffix.len() == 0 {
        Some(Unit { factor: 1, power: 3 })
    } else if suffix == seq!['k'] {
        Some(Unit { factor: 1, power: 6 })
    } else if suffix == seq!['M'] {
        Some(Unit { factor: 1, power: 9 })
    } else if suffix == seq!['G'] {
        Some(Unit { factor: 1, power: 12 })
    } else if suffix == seq!['T'] {
        Some(Unit { factor: 1, power: 15 })
    } else if suffix == seq!['P'] {
        Some(Unit { factor: 1, power: 18 })
    } else if suffix == seq!['E'] {
        Some(Unit { factor: 1, power: 21 })
    } else if suffix == seq!['K', 'i'] {
        Some(Unit { factor: 1_024, power: 3 })
    } else if suffix == seq!['M', 'i'] {
        Some(Unit { factor: 1_048_576, power: 3 })
    } else if suffix == seq!['G', 'i'] {
        Some(Unit { factor: 1_073_741_824, power: 3 })
    } else if suffix == seq!['T', 'i'] {
        Some(Unit { factor: 1_099_511_627_776, power: 3 })
    } else if suffix == seq!['P', 'i'] {
        Some(Unit { factor: 1_125_899_906_842_624, power: 3 })
    } else if suffix == seq!['E', 'i'] {
        Some(Unit { factor: 1_152_921_504_606_846_976, power: 3 })
    } else {
        None
    }
}

/// Whether a suffix is an exponent: `e` or `E`, and an integer.
pub open spec fn is_exponent(suffix: Seq<char>) -> bool {
    &&& suffix.len() >= 2
    &&& suffix[0] == 'e' || suffix[0] == 'E'
    &&& if suffix[1] == '+' || suffix[1] == '-' {
        suffix.len() >= 3 && is_number(suffix.skip(2))
    } else {
        is_number(suffix.skip(1))
    }
}

/// A quantity as it is written, from its parts.
pub open spec fn spelled(
    sign: Seq<char>,
    whole: Seq<char>,
    point: Seq<char>,
    fraction: Seq<char>,
    suffix: Seq<char>,
) -> Seq<char> {
    sign + whole + point + fraction + suffix
}

/// Whether these are the parts of a number and what follows it.
pub open spec fn are_parts(
    sign: Seq<char>,
    whole: Seq<char>,
    point: Seq<char>,
    fraction: Seq<char>,
    suffix: Seq<char>,
) -> bool {
    &&& sign.len() == 0 || sign == seq!['+'] || sign == seq!['-']
    &&& is_number(whole)
    &&& is_number(fraction)
    &&& whole.len() + fraction.len() > 0
    &&& point.len() == 0 && fraction.len() == 0 || point == seq!['.']
    &&& suffix.len() > 0 ==> !('0' <= suffix[0] && suffix[0] <= '9')
    &&& suffix.len() > 0 && point.len() == 0 ==> suffix[0] != '.'
}

/// The digits of a number as an integer, with its sign and without its point.
pub open spec fn mantissa(sign: Seq<char>, whole: Seq<char>, fraction: Seq<char>) -> int {
    if sign == seq!['-'] {
        -(digits_value(whole + fraction) as int)
    } else {
        digits_value(whole + fraction) as int
    }
}

/// Whether a text reads as a number of thousandths, `value` times ten to a power, to
/// the nearest; or as too large where no `i128` is.
pub open spec fn comes_to(text: Seq<char>, value: int, power: int) -> bool {
    match reading(text) {
        Reading::Malformed => false,
        Reading::Thousandths(read) => i128::MIN <= read <= i128::MAX && if power >= 0 {
            read == value * pow(10, power as nat)
        } else {
            is_nearest(read, value, pow(10, (-power) as nat))
        },
        Reading::TooLarge => if power >= 0 {
            !(i128::MIN <= value * pow(10, power as nat) <= i128::MAX)
        } else {
            forall|read: int| #[trigger]
                is_nearest(read, value, pow(10, (-power) as nat)) ==> !(i128::MIN <= read
                    <= i128::MAX)
        },
    }
}

proof fn lemma_pow(exponent: nat)
    ensures
        pow10(exponent) == pow(10, exponent),
        pow10(exponent) >= 1,
    decreases exponent,
{
    reveal(pow);
    if exponent > 0 {
        lemma_pow((exponent - 1) as nat);
    }
}

pub(crate) proof fn lemma_is_nearest(value: int, divisor: int)
    requires
        divisor >= 1,
    ensures
        is_nearest(nearest(value, divisor), value, divisor),
        forall|other: int| #[trigger]
            is_nearest(other, value, divisor) ==> other == nearest(value, divisor),
{
    law_nearest_is_nearest(value, divisor);
    let rounded = nearest(value, divisor);
    assert(2 * rounded * divisor == 2 * (rounded * divisor)) by (nonlinear_arith);
    assert forall|other: int| #[trigger] is_nearest(other, value, divisor) implies other
        == rounded by {
        assert(2 * other * divisor == 2 * (other * divisor)) by (nonlinear_arith);
        if other > rounded {
            assert(other * divisor >= rounded * divisor + divisor) by (nonlinear_arith)
                requires
                    other >= rounded + 1,
                    divisor >= 1,
            ;
        } else if other < rounded {
            assert(rounded * divisor >= other * divisor + divisor) by (nonlinear_arith)
                requires
                    rounded >= other + 1,
                    divisor >= 1,
            ;
        }
    }
}

proof fn lemma_comes_to(text: Seq<char>, value: int, power: int)
    requires
        reading(text) == (if i128::MIN <= scaled(value, power) <= i128::MAX {
            Reading::Thousandths(scaled(value, power))
        } else {
            Reading::TooLarge
        }),
    ensures
        comes_to(text, value, power),
{
    if power >= 0 {
        lemma_pow(power as nat);
    } else {
        lemma_pow((-power) as nat);
        lemma_is_nearest(value, pow10((-power) as nat) as int);
    }
}

proof fn lemma_written(
    sign: Seq<char>,
    whole: Seq<char>,
    point: Seq<char>,
    fraction: Seq<char>,
    suffix: Seq<char>,
)
    requires
        are_parts(sign, whole, point, fraction, suffix),
    ensures
        ({
            let read = written(spelled(sign, whole, point, fraction, suffix));
            &&& read is Some
            &&& read->0.negative == (sign == seq!['-'])
            &&& read->0.digits == whole + fraction
            &&& read->0.fraction == fraction.len()
            &&& read->0.suffix == suffix
        }),
{
    let text = spelled(sign, whole, point, fraction, suffix);
    let start = sign.len() as int;
    let at = start + whole.len();
    let end = at + point.len() + fraction.len();
    assert forall|i: int| start <= i < at implies crate::text::is_digit(#[trigger] text[i]) by {
        assert(text[i] == whole[i - start]);
    }
    assert forall|i: int| at + point.len() <= i < end implies crate::text::is_digit(
        #[trigger] text[i],
    ) by {
        assert(text[i] == fraction[i - at - point.len()]);
    }
    if end < text.len() {
        assert(text[end] == suffix[0]);
    }
    if point.len() > 0 {
        assert(text[at] == '.');
    }
    if sign.len() > 0 {
        assert(text[0] == sign[0]);
    } else if whole.len() > 0 {
        assert(text[0] == whole[0]);
    } else {
        assert(text[0] == '.');
    }
    lemma_digit_run(text, start, whole.len() as int);
    if point.len() > 0 {
        lemma_digit_run(text, at + 1, fraction.len() as int);
    }
    assert(text.subrange(start, at) =~= whole);
    assert(text.subrange(end - fraction.len(), end) =~= fraction);
    assert(text.skip(end) =~= suffix);
}

proof fn lemma_literals()
    ensures
        "n"@ == seq!['n'],
        "u"@ == seq!['u'],
        "m"@ == seq!['m'],
        "k"@ == seq!['k'],
        "M"@ == seq!['M'],
        "G"@ == seq!['G'],
        "T"@ == seq!['T'],
        "P"@ == seq!['P'],
        "E"@ == seq!['E'],
        "Ki"@ == seq!['K', 'i'],
        "Mi"@ == seq!['M', 'i'],
        "Gi"@ == seq!['G', 'i'],
        "Ti"@ == seq!['T', 'i'],
        "Pi"@ == seq!['P', 'i'],
        "Ei"@ == seq!['E', 'i'],
{
    reveal_strlit("n");
    reveal_strlit("u");
    reveal_strlit("m");
    reveal_strlit("k");
    reveal_strlit("M");
    reveal_strlit("G");
    reveal_strlit("T");
    reveal_strlit("P");
    reveal_strlit("E");
    reveal_strlit("Ki");
    reveal_strlit("Mi");
    reveal_strlit("Gi");
    reveal_strlit("Ti");
    reveal_strlit("Pi");
    reveal_strlit("Ei");
    assert("n"@ =~= seq!['n']);
    assert("u"@ =~= seq!['u']);
    assert("m"@ =~= seq!['m']);
    assert("k"@ =~= seq!['k']);
    assert("M"@ =~= seq!['M']);
    assert("G"@ =~= seq!['G']);
    assert("T"@ =~= seq!['T']);
    assert("P"@ =~= seq!['P']);
    assert("E"@ =~= seq!['E']);
    assert("Ki"@ =~= seq!['K', 'i']);
    assert("Mi"@ =~= seq!['M', 'i']);
    assert("Gi"@ =~= seq!['G', 'i']);
    assert("Ti"@ =~= seq!['T', 'i']);
    assert("Pi"@ =~= seq!['P', 'i']);
    assert("Ei"@ =~= seq!['E', 'i']);
}

proof fn lemma_letters()
    ensures
        forall|a: char, b: char| #[trigger] seq![a] == #[trigger] seq![b] ==> a == b,
        forall|a: char, b: char, c: char, d: char| #[trigger]
            seq![a, b] == #[trigger] seq![c, d] ==> a == c && b == d,
        forall|a: char, c: char, d: char| #[trigger] seq![a] != #[trigger] seq![c, d],
{
    assert forall|a: char, b: char| #[trigger] seq![a] == #[trigger] seq![b] implies a == b by {
        assert(seq![a][0] == seq![b][0]);
    }
    assert forall|a: char, b: char, c: char, d: char| #[trigger]
        seq![a, b] == #[trigger] seq![c, d] implies a == c && b == d by {
        assert(seq![a, b][0] == seq![c, d][0]);
        assert(seq![a, b][1] == seq![c, d][1]);
    }
    assert forall|a: char, c: char, d: char| #[trigger] seq![a] != #[trigger] seq![c, d] by {
        assert(seq![a].len() == 1);
        assert(seq![c, d].len() == 2);
    }
}

/// What each suffix of the grammar multiplies by: a number with a suffix is the
/// number's digits times what the suffix stands for, with the point put back, to the
/// nearest thousandth.
pub proof fn law_suffixes_multiply(
    sign: Seq<char>,
    whole: Seq<char>,
    point: Seq<char>,
    fraction: Seq<char>,
    suffix: Seq<char>,
)
    requires
        are_parts(sign, whole, point, fraction, suffix),
        unit_named(suffix) is Some,
    ensures
        comes_to(
            spelled(sign, whole, point, fraction, suffix),
            mantissa(sign, whole, fraction) * unit_named(suffix)->0.factor,
            unit_named(suffix)->0.power - fraction.len(),
        ),
{
    lemma_written(sign, whole, point, fraction, suffix);
    lemma_literals();
    lemma_letters();
    let unit = unit_named(suffix)->0;
    let value = mantissa(sign, whole, fraction) * unit.factor;
    let scale = scale_of(suffix);
    assert(scale == Some(
        if unit.power == 3 && suffix.len() == 2 {
            Scale::Binary(
                if unit.factor == 1_024 {
                    10
                } else if unit.factor == 1_048_576 {
                    20
                } else if unit.factor == 1_073_741_824 {
                    30
                } else if unit.factor == 1_099_511_627_776 {
                    40
                } else if unit.factor == 1_125_899_906_842_624 {
                    50
                } else {
                    60
                },
            )
        } else {
            Scale::Decimal((unit.power - 3) as i64)
        },
    ));
    assert(mantissa(sign, whole, fraction) * 1 == mantissa(sign, whole, fraction));
    lemma_comes_to(
        spelled(sign, whole, point, fraction, suffix),
        value,
        unit.power - fraction.len(),
    );
}

/// A number with an exponent is its digits times ten to the exponent, with the point
/// put back, to the nearest thousandth; an exponent that no `i64` holds makes it
/// nothing, or too large.
pub proof fn law_exponents_multiply(
    sign: Seq<char>,
    whole: Seq<char>,
    point: Seq<char>,
    fraction: Seq<char>,
    letter: char,
    exponent: int,
)
    requires
        letter == 'e' || letter == 'E',
        are_parts(sign, whole, point, fraction, seq![letter] + decimal(exponent)),
        i64::MIN <= exponent <= i64::MAX,
    ensures
        comes_to(
            spelled(sign, whole, point, fraction, seq![letter] + decimal(exponent)),
            mantissa(sign, whole, fraction),
            exponent + 3 - fraction.len(),
        ),
{
    let suffix = seq![letter] + decimal(exponent);
    let magnitude = (if exponent < 0 { -exponent } else { exponent }) as nat;
    lemma_written(sign, whole, point, fraction, suffix);
    lemma_literals();
    lemma_letters();
    crate::text::lemma_decimal_reads_back(magnitude);
    assert(suffix.skip(1) =~= decimal(exponent));
    if exponent < 0 {
        assert(decimal(exponent).skip(1) =~= decimal_nat(magnitude));
        assert(decimal(exponent)[0] == '-');
        assert(suffix[1] == '-');
    } else {
        assert(suffix[1] == decimal_nat(magnitude)[0]);
    }
    assert(integer_of(decimal(exponent)) == Some(exponent));
    assert(suffix.len() >= 2);
    assert(suffix[0] == letter);
    assert(suffix != seq!['E', 'i']) by {
        assert(seq!['E', 'i'][1] == 'i');
    }
    assert(suffix != seq!['K', 'i'] && suffix != seq!['M', 'i'] && suffix != seq!['G', 'i'] && suffix
        != seq!['T', 'i'] && suffix != seq!['P', 'i']) by {
        assert(seq!['K', 'i'][0] == 'K');
        assert(seq!['M', 'i'][0] == 'M');
        assert(seq!['G', 'i'][0] == 'G');
        assert(seq!['T', 'i'][0] == 'T');
        assert(seq!['P', 'i'][0] == 'P');
    }
    assert(scale_of(suffix) == Some(Scale::Decimal(exponent as i64)));
    lemma_comes_to(
        spelled(sign, whole, point, fraction, suffix),
        mantissa(sign, whole, fraction),
        exponent + 3 - fraction.len(),
    );
}

/// An exponent may have a plus before it.
pub proof fn law_exponents_may_have_a_plus(
    sign: Seq<char>,
    whole: Seq<char>,
    point: Seq<char>,
    fraction: Seq<char>,
    letter: char,
    exponent: nat,
)
    requires
        letter == 'e' || letter == 'E',
        are_parts(sign, whole, point, fraction, seq![letter, '+'] + decimal_nat(exponent)),
        exponent <= i64::MAX,
    ensures
        comes_to(
            spelled(sign, whole, point, fraction, seq![letter, '+'] + decimal_nat(exponent)),
            mantissa(sign, whole, fraction),
            exponent + 3 - fraction.len(),
        ),
{
    let suffix = seq![letter, '+'] + decimal_nat(exponent);
    lemma_written(sign, whole, point, fraction, suffix);
    lemma_literals();
    lemma_letters();
    crate::text::lemma_decimal_reads_back(exponent);
    assert(suffix.skip(1) =~= seq!['+'] + decimal_nat(exponent));
    assert(suffix.skip(1).skip(1) =~= decimal_nat(exponent));
    assert(suffix.skip(1)[0] == '+');
    assert(integer_of(suffix.skip(1)) == Some(exponent as int));
    assert(suffix.len() >= 3);
    assert(suffix[0] == letter);
    assert(scale_of(suffix) == Some(Scale::Decimal(exponent as i64)));
    lemma_comes_to(
        spelled(sign, whole, point, fraction, suffix),
        mantissa(sign, whole, fraction),
        exponent + 3 - fraction.len(),
    );
}

/// A number is not a quantity where what follows it is neither a suffix of the
/// grammar nor an exponent.
pub proof fn law_other_suffixes_are_refused(
    sign: Seq<char>,
    whole: Seq<char>,
    point: Seq<char>,
    fraction: Seq<char>,
    suffix: Seq<char>,
)
    requires
        are_parts(sign, whole, point, fraction, suffix),
        unit_named(suffix) is None,
        !is_exponent(suffix),
    ensures
        reading(spelled(sign, whole, point, fraction, suffix)) is Malformed,
{
    lemma_written(sign, whole, point, fraction, suffix);
    lemma_literals();
    if suffix[0] == 'e' || suffix[0] == 'E' {
        let rest = suffix.skip(1);
        if integer_of(rest) is Some {
            assert(rest[0] == suffix[1]);
            if rest[0] == '+' || rest[0] == '-' {
                assert(rest.skip(1) =~= suffix.skip(2));
            }
            assert(is_exponent(suffix));
        }
    }
}

/// Without a digit there is no quantity.
pub proof fn law_digits_are_needed(text: Seq<char>)
    requires
        forall|i: int| 0 <= i < text.len() ==> !('0' <= #[trigger] text[i] && text[i] <= '9'),
    ensures
        reading(text) is Malformed,
{
    let start: int = if text.len() > 0 && (text[0] == '+' || text[0] == '-') {
        1
    } else {
        0
    };
    lemma_digit_run(text, start, 0);
    if start < text.len() {
        lemma_digit_run(text, start + 1, 0);
    }
}

proof fn lemma_nearest_scales(value: int, divisor: int, factor: int)
    requires
        divisor >= 1,
        factor >= 1,
    ensures
        nearest(value * factor, divisor * factor) == nearest(value, divisor),
{
    lemma_is_nearest(value, divisor);
    let rounded = nearest(value, divisor);
    assert(divisor * factor >= 1) by (nonlinear_arith)
        requires
            divisor >= 1,
            factor >= 1,
    ;
    lemma_is_nearest(value * factor, divisor * factor);
    let step = 2 * rounded * divisor;
    assert(2 * rounded * (divisor * factor) == step * factor) by (nonlinear_arith)
        requires
            step == 2 * rounded * divisor,
    ;
    assert(value * factor >= 0 <==> value >= 0) by (nonlinear_arith)
        requires
            factor >= 1,
    ;
    let low = 2 * value - divisor;
    let high = 2 * value + divisor;
    assert(2 * (value * factor) - divisor * factor == low * factor) by (nonlinear_arith)
        requires
            low == 2 * value - divisor,
    ;
    assert(2 * (value * factor) + divisor * factor == high * factor) by (nonlinear_arith)
        requires
            high == 2 * value + divisor,
    ;
    assert(low < step ==> low * factor < step * factor) by (nonlinear_arith)
        requires
            factor >= 1,
    ;
    assert(low <= step ==> low * factor <= step * factor) by (nonlinear_arith)
        requires
            factor >= 1,
    ;
    assert(step <= high ==> step * factor <= high * factor) by (nonlinear_arith)
        requires
            factor >= 1,
    ;
    assert(step < high ==> step * factor < high * factor) by (nonlinear_arith)
        requires
            factor >= 1,
    ;
    assert(is_nearest(rounded, value * factor, divisor * factor));
}

proof fn lemma_whole(number: int, suffix: Seq<char>)
    requires
        unit_named(suffix) is Some,
    ensures
        ({
            let unit = unit_named(suffix)->0;
            let thousandths = if unit.power >= 0 {
                number * unit.factor * pow10(unit.power as nat)
            } else {
                nearest(number * unit.factor, pow10((-unit.power) as nat) as int)
            };
            reading(decimal(number) + suffix) == if i128::MIN <= thousandths <= i128::MAX {
                Reading::Thousandths(thousandths)
            } else {
                Reading::TooLarge
            }
        }),
{
    let magnitude = (if number < 0 { -number } else { number }) as nat;
    let sign: Seq<char> = if number < 0 {
        seq!['-']
    } else {
        seq![]
    };
    let none: Seq<char> = seq![];
    crate::text::lemma_decimal_reads_back(magnitude);
    let digits = decimal_nat(magnitude);
    assert(is_number(digits)) by {
        assert forall|i: int| 0 <= i < digits.len() implies '0' <= #[trigger] digits[i]
            && digits[i] <= '9' by {
            assert(crate::text::is_digit(digits[i]));
        }
    }
    assert(digits + none =~= digits);
    assert(spelled(sign, digits, none, none, suffix) =~= decimal(number) + suffix);
    assert(seq!['-'].len() == 1);
    assert(seq!['+'].len() == 1);
    law_suffixes_multiply(sign, digits, none, none, suffix);
    let unit = unit_named(suffix)->0;
    assert(mantissa(sign, digits, none) == number);
    if unit.power >= 0 {
        lemma_pow(unit.power as nat);
    } else {
        lemma_pow((-unit.power) as nat);
        lemma_is_nearest(number * unit.factor, pow10((-unit.power) as nat) as int);
    }
}

/// Whether one unit of the grammar is so many of another.
pub open spec fn is_step_up(small: Seq<char>, large: Seq<char>, step: int) -> bool {
    ||| small == seq!['n'] && large == seq!['u'] && step == 1000
    ||| small == seq!['u'] && large == seq!['m'] && step == 1000
    ||| small == seq!['m'] && large == Seq::<char>::empty() && step == 1000
    ||| small == Seq::<char>::empty() && large == seq!['k'] && step == 1000
    ||| small == seq!['k'] && large == seq!['M'] && step == 1000
    ||| small == seq!['M'] && large == seq!['G'] && step == 1000
    ||| small == seq!['G'] && large == seq!['T'] && step == 1000
    ||| small == seq!['T'] && large == seq!['P'] && step == 1000
    ||| small == seq!['P'] && large == seq!['E'] && step == 1000
    ||| small == Seq::<char>::empty() && large == seq!['K', 'i'] && step == 1024
    ||| small == seq!['K', 'i'] && large == seq!['M', 'i'] && step == 1024
    ||| small == seq!['M', 'i'] && large == seq!['G', 'i'] && step == 1024
    ||| small == seq!['G', 'i'] && large == seq!['T', 'i'] && step == 1024
    ||| small == seq!['T', 'i'] && large == seq!['P', 'i'] && step == 1024
    ||| small == seq!['P', 'i'] && large == seq!['E', 'i'] && step == 1024
}

/// Each unit of the grammar is a thousand of the one before it, or one thousand and
/// twenty-four: as many more of the smaller unit are the same quantity.
pub proof fn law_units_are_a_step_apart(
    number: int,
    small: Seq<char>,
    large: Seq<char>,
    step: int,
)
    requires
        is_step_up(small, large, step),
    ensures
        reading(decimal(number * step) + small) == reading(decimal(number) + large),
{
    lemma_units();
    if step == 1000 {
        lemma_thousand(number, small, large);
    } else {
        lemma_binary(number, small, large);
    }
}

/// A plain number is that many units.
pub proof fn law_plain_number_counts_units(number: int)
    ensures
        i128::MIN <= number * 1000 <= i128::MAX ==> reading(decimal(number))
            == Reading::Thousandths(number * 1000),
        !(i128::MIN <= number * 1000 <= i128::MAX) ==> reading(decimal(number)) is TooLarge,
{
    let none: Seq<char> = seq![];
    assert(decimal(number) + none =~= decimal(number));
    lemma_whole(number, none);
    lemma_powers();
    assert(number * 1 * 1000 == number * 1000);
}

proof fn lemma_units()
    ensures
        unit_named(seq!['n']) == Some(Unit { factor: 1, power: -6 }),
        unit_named(seq!['u']) == Some(Unit { factor: 1, power: -3 }),
        unit_named(seq!['m']) == Some(Unit { factor: 1, power: 0 }),
        unit_named(seq![]) == Some(Unit { factor: 1, power: 3 }),
        unit_named(seq!['k']) == Some(Unit { factor: 1, power: 6 }),
        unit_named(seq!['M']) == Some(Unit { factor: 1, power: 9 }),
        unit_named(seq!['G']) == Some(Unit { factor: 1, power: 12 }),
        unit_named(seq!['T']) == Some(Unit { factor: 1, power: 15 }),
        unit_named(seq!['P']) == Some(Unit { factor: 1, power: 18 }),
        unit_named(seq!['E']) == Some(Unit { factor: 1, power: 21 }),
        unit_named(seq!['K', 'i']) == Some(Unit { factor: 1_024, power: 3 }),
        unit_named(seq!['M', 'i']) == Some(Unit { factor: 1_048_576, power: 3 }),
        unit_named(seq!['G', 'i']) == Some(Unit { factor: 1_073_741_824, power: 3 }),
        unit_named(seq!['T', 'i']) == Some(Unit { factor: 1_099_511_627_776, power: 3 }),
        unit_named(seq!['P', 'i']) == Some(Unit { factor: 1_125_899_906_842_624, power: 3 }),
        unit_named(seq!['E', 'i']) == Some(Unit { factor: 1_152_921_504_606_846_976, power: 3 }),
{
    lemma_letters();
}

proof fn lemma_thousand(number: int, small: Seq<char>, large: Seq<char>)
    requires
        unit_named(small) is Some,
        unit_named(large) is Some,
        unit_named(small)->0.factor == 1,
        unit_named(large)->0.factor == 1,
        unit_named(large)->0.power == unit_named(small)->0.power + 3,
        unit_named(small)->0.power >= 0 || unit_named(large)->0.power <= 0,
    ensures
        reading(decimal(number * 1000) + small) == reading(decimal(number) + large),
{
    lemma_whole(number * 1000, small);
    lemma_whole(number, large);
    lemma_powers();
    let power = unit_named(small)->0.power;
    if power >= 0 {
        lemma_pow10_adds(3, power as nat);
        let p = pow10(power as nat) as int;
        assert((number * 1000) * p == number * (1000 * p)) by (nonlinear_arith);
    } else {
        let shorter = (-power - 3) as nat;
        lemma_pow10_adds(shorter, 3);
        lemma_pow10_grows(0, shorter);
        lemma_nearest_scales(number, pow10(shorter) as int, 1000);
        if shorter == 0 {
            lemma_is_nearest(number, 1);
            assert(is_nearest(number, number, 1));
            assert(number * 1 * pow10(0) == number);
        }
    }
}

proof fn lemma_binary(number: int, small: Seq<char>, large: Seq<char>)
    requires
        unit_named(small) is Some,
        unit_named(large) is Some,
        unit_named(large)->0.factor == unit_named(small)->0.factor * 1024,
        unit_named(large)->0.power == unit_named(small)->0.power,
        unit_named(small)->0.power >= 0,
    ensures
        reading(decimal(number * 1024) + small) == reading(decimal(number) + large),
{
    lemma_whole(number * 1024, small);
    lemma_whole(number, large);
    let factor = unit_named(small)->0.factor;
    assert((number * 1024) * factor == number * (factor * 1024)) by (nonlinear_arith);
}

proof fn lemma_powers()
    ensures
        pow10(0) == 1,
        pow10(3) == 1000,
        pow10(6) == 1_000_000,
        pow10(9) == 1_000_000_000,
        pow10(12) == 1_000_000_000_000,
        pow10(15) == 1_000_000_000_000_000,
        pow10(18) == 1_000_000_000_000_000_000,
        pow10(21) == 1_000_000_000_000_000_000_000,
{
    reveal_with_fuel(pow10, 4);
    lemma_pow10_adds(3, 3);
    lemma_pow10_adds(6, 3);
    lemma_pow10_adds(9, 3);
    lemma_pow10_adds(12, 3);
    lemma_pow10_adds(15, 3);
    lemma_pow10_adds(18, 3);
}

/// Whole cores are written as a plain number, and any other amount in thousandths.
pub proof fn law_cores_are_written_whole_where_they_are(quantity: Quantity)
    ensures
        forall|cores: int| #[trigger]
            (cores * 1000) == quantity.thousandths ==> cpu_text(quantity) == decimal(cores),
        quantity.thousandths as int % 1000 != 0 ==> cpu_text(quantity) == decimal(
            quantity.thousandths as int,
        ) + seq!['m'],
{
    lemma_literals();
}

/// The fraction of a division is dropped, on either side of zero.
pub proof fn law_fractions_are_dropped(value: int, divisor: int)
    requires
        divisor >= 1,
    ensures
        value >= 0 ==> toward_zero(value, divisor) * divisor <= value < toward_zero(value, divisor)
            * divisor + divisor,
        value <= 0 ==> toward_zero(value, divisor) * divisor >= value > toward_zero(value, divisor)
            * divisor - divisor,
{
    let magnitude = if value < 0 {
        -value
    } else {
        value
    };
    vstd::arithmetic::div_mod::lemma_fundamental_div_mod(magnitude, divisor);
    let quotient = magnitude / divisor;
    assert(quotient * divisor == divisor * quotient) by (nonlinear_arith);
    assert((-quotient) * divisor == -(divisor * quotient)) by (nonlinear_arith);
}

/// The thousandths of each of these quantities.
pub open spec fn each_thousandths(quantities: Seq<Quantity>) -> Seq<int> {
    Seq::new(quantities.len(), |i: int| quantities[i].thousandths as int)
}

/// Quantities that are not negative add up to their plain sum, as long as that can be
/// held, and pin at the largest there is where it cannot; and the sum of two is their
/// plain sum held to the range.
pub proof fn law_totals_add_up(quantities: Seq<Quantity>, left: Quantity, right: Quantity)
    requires
        forall|i: int| 0 <= i < quantities.len() ==> (#[trigger] quantities[i]).thousandths >= 0,
    ensures
        total_of(quantities).thousandths == if sum(each_thousandths(quantities)) <= i128::MAX {
            sum(each_thousandths(quantities))
        } else {
            i128::MAX as int
        },
        i128::MIN <= left.thousandths + right.thousandths <= i128::MAX ==> sum_of(
            left,
            right,
        ).thousandths == left.thousandths + right.thousandths,
        left.thousandths + right.thousandths > i128::MAX ==> sum_of(left, right).thousandths
            == i128::MAX,
        left.thousandths + right.thousandths < i128::MIN ==> sum_of(left, right).thousandths
            == i128::MIN,
    decreases quantities.len(),
{
    let all = each_thousandths(quantities);
    if quantities.len() > 0 {
        let before = quantities.drop_last();
        assert(forall|i: int| 0 <= i < before.len() ==> before[i] == quantities[i]);
        law_totals_add_up(before, left, right);
        assert(all.drop_last() =~= each_thousandths(before));
        assert(quantities[quantities.len() - 1].thousandths >= 0);
        let had = each_thousandths(before);
        assert forall|i: int| 0 <= i < had.len() implies #[trigger] had[i] >= 0 by {
            assert(before[i] == quantities[i]);
        }
        lemma_sum_at_least(had);
    }
}

/// A number of tenths as it is read: the whole part, and a point and a digit where
/// there is a tenth over.
pub open spec fn in_tenths(tenths: nat) -> Seq<char> {
    if tenths % 10 == 0 {
        decimal_nat(tenths / 10)
    } else {
        decimal_nat(tenths / 10) + seq!['.'] + decimal_nat(tenths % 10)
    }
}

/// Whether an amount of bytes is shown in a unit: there is at least one of it, and not
/// one of the next.
pub open spec fn is_shown_in(magnitude: int, suffix: Seq<char>, unit: int) -> bool {
    ||| suffix == seq!['K', 'i'] && unit == 1_024 && 1_024 <= magnitude < 1_048_576
    ||| suffix == seq!['M', 'i'] && unit == 1_048_576 && 1_048_576 <= magnitude < 1_073_741_824
    ||| suffix == seq!['G', 'i'] && unit == 1_073_741_824 && 1_073_741_824 <= magnitude
        < 1_099_511_627_776
    ||| suffix == seq!['T', 'i'] && unit == 1_099_511_627_776 && 1_099_511_627_776 <= magnitude
        < 1_125_899_906_842_624
    ||| suffix == seq!['P', 'i'] && unit == 1_125_899_906_842_624 && 1_125_899_906_842_624
        <= magnitude < 1_152_921_504_606_846_976
    ||| suffix == seq!['E', 'i'] && unit == 1_152_921_504_606_846_976 && 1_152_921_504_606_846_976
        <= magnitude
}

/// Whether an integer is the nearest to a fraction, one half of the way between two
/// going to the even one.
pub open spec fn is_nearest_even(rounded: int, value: int, divisor: int) -> bool {
    &&& -divisor <= 2 * (value - rounded * divisor) <= divisor
    &&& 2 * (value - rounded * divisor) == divisor ==> rounded % 2 == 0
    &&& 2 * (value - rounded * divisor) == -divisor ==> rounded % 2 == 0
}

/// Rounding to even gives a nearest integer, and on a tie the even one.
pub proof fn law_ties_go_to_the_even(value: int, divisor: int)
    requires
        divisor >= 1,
    ensures
        is_nearest_even(nearest_even(value, divisor), value, divisor),
        value >= 0 ==> nearest_even(value, divisor) >= 0,
{
    let quotient = value / divisor;
    vstd::arithmetic::div_mod::lemma_fundamental_div_mod(value, divisor);
    assert(quotient * divisor == divisor * quotient) by (nonlinear_arith);
    assert((quotient + 1) * divisor == divisor * quotient + divisor) by (nonlinear_arith);
    if value >= 0 {
        vstd::arithmetic::div_mod::lemma_div_pos_is_pos(value, divisor);
    }
}

/// Double precision holds fifty-three bits: an amount below that is held as it is, and
/// a larger one as the nearest multiple of a power of two that leaves as many.
pub proof fn law_doubles_hold_fifty_three_bits(magnitude: nat)
    ensures
        magnitude < 9_007_199_254_740_992 ==> double_of(magnitude) == magnitude,
        magnitude >= 9_007_199_254_740_992 ==> exists|bits: nat|
            4_503_599_627_370_496 * pow2(bits) <= magnitude < 9_007_199_254_740_992 * #[trigger] pow2(
                bits,
            ) && exists|count: int|
                double_of(magnitude) == #[trigger] (count * pow2(bits)) && is_nearest_even(
                    count,
                    magnitude as int,
                    pow2(bits) as int,
                ),
{
    if magnitude < 9_007_199_254_740_992 {
        assert(spacing(magnitude) == 1);
        assert(magnitude as int / 1 == magnitude && magnitude as int % 1 == 0);
        assert(nearest_even(magnitude as int, 1) == magnitude);
    } else {
        let bits = lemma_spacing(magnitude);
        let count = nearest_even(magnitude as int, pow2(bits) as int);
        lemma_pow2_pos(bits);
        law_ties_go_to_the_even(magnitude as int, pow2(bits) as int);
        assert(count * pow2(bits) >= 0) by (nonlinear_arith)
            requires
                count >= 0,
                pow2(bits) >= 0,
        ;
        assert(double_of(magnitude) == count * pow2(bits));
    }
}

proof fn lemma_spacing(magnitude: nat) -> (bits: nat)
    requires
        magnitude >= 4_503_599_627_370_496,
    ensures
        spacing(magnitude) == pow2(bits),
        4_503_599_627_370_496 * pow2(bits) <= magnitude < 9_007_199_254_740_992 * pow2(bits),
    decreases magnitude,
{
    if magnitude < 9_007_199_254_740_992 {
        lemma2_to64();
        0
    } else {
        let half = lemma_spacing(magnitude / 2);
        lemma_pow2_unfold(half + 1);
        half + 1
    }
}

/// Memory reads in the largest binary unit there is one of, to the nearest tenth of
/// what double precision holds; and in bytes below the smallest.
pub proof fn law_memory_reads_to_the_nearest_tenth(
    quantity: Quantity,
    suffix: Seq<char>,
    unit: int,
)
    ensures
        ({
            let bytes = toward_zero(quantity.thousandths as int, 1000);
            let magnitude = if bytes < 0 {
                -bytes
            } else {
                bytes
            };
            let sign: Seq<char> = if bytes < 0 {
                seq!['-']
            } else {
                seq![]
            };
            &&& magnitude < 1_024 ==> memory_text(quantity) == decimal(bytes)
            &&& is_shown_in(magnitude, suffix, unit) ==> exists|tenths: nat|
                is_nearest_even(tenths as int, 10 * double_of(magnitude as nat) as int, unit)
                    && memory_text(quantity) == sign + #[trigger] in_tenths(tenths) + suffix
        }),
{
    lemma_literals();
    reveal_strlit("-");
    reveal_strlit(".");
    assert("-"@ =~= seq!['-']);
    assert("."@ =~= seq!['.']);
    let bytes = toward_zero(quantity.thousandths as int, 1000);
    let magnitude = if bytes < 0 {
        -bytes
    } else {
        bytes
    };
    let sign: Seq<char> = if bytes < 0 {
        seq!['-']
    } else {
        seq![]
    };
    law_fractions_are_dropped(quantity.thousandths as int, 1000);
    if is_shown_in(magnitude, suffix, unit) {
        lemma_letters();
        let m = magnitude as nat;
        let held = 10 * double_of(m);
        let tenths = nearest_even(held as int, unit);
        law_ties_go_to_the_even(held as int, unit);
        assert(unit_of(m) == Some((suffix, unit as nat)));
        assert(tenths_text(tenths as nat) =~= in_tenths(tenths as nat));
        assert(memory_text(quantity) =~= sign + in_tenths(tenths as nat) + suffix);
    }
}

} // verus!
