//! Text as sequences of characters: the small operations everything else is
//! written in.

use vstd::prelude::*;
use vstd::std_specs::iter::IteratorSpec;
use vstd::string::*;

verus! {

/// [`String::push`] appends one character and changes nothing else.
pub assume_specification[ String::push ](string: &mut String, c: char)
    ensures
        final(string)@ == old(string)@.push(c),
;

/// What the `Debug` formatting of a string writes: the text in double quotes,
/// with the characters that could not be told apart on a screen escaped.
pub uninterp spec fn debug_form(text: Seq<char>) -> Seq<char>;

/// The text in quotes, as `{:?}` of [`format!`] writes it. Which characters are
/// escaped, and how, is the standard library's: the result is only named.
#[verifier::external_body]
pub(crate) fn quoted(text: &str) -> (quoted: String)
    ensures
        quoted@ == debug_form(text@),
{
    format!("{text:?}")
}

/// The characters of a piece of text, in order.
pub fn chars_of(text: &str) -> (chars: Vec<char>)
    ensures
        chars@ == text@,
{
    let mut chars: Vec<char> = Vec::new();
    for c in it: text.chars()
        invariant
            it.seq() == text@,
            chars@ == text@.take(it.index()),
    {
        chars.push(c);
        assert(chars@ =~= text@.take(it.index() + 1));
    }
    assert(chars@ =~= text@);
    chars
}

/// The text that a run of characters spells.
pub fn text_of(chars: &[char]) -> (text: String)
    ensures
        text@ == chars@,
{
    let mut text: String = String::new();
    let mut i: usize = 0;
    while i < chars.len()
        invariant
            i <= chars@.len(),
            text@ == chars@.take(i as int),
        decreases chars@.len() - i,
    {
        text.push(chars[i]);
        assert(chars@.take(i + 1) =~= chars@.take(i as int).push(chars@[i as int]));
        i = i + 1;
    }
    assert(chars@.take(i as int) =~= chars@);
    text
}

/// Whether two pieces of text are the same.
pub fn same(left: &str, right: &str) -> (answer: bool)
    ensures
        answer == (left@ == right@),
{
    let mut left_chars = left.chars();
    let mut right_chars = right.chars();
    let ghost mut read: int = 0;
    assert(left@.skip(0) =~= left@);
    assert(right@.skip(0) =~= right@);
    loop
        invariant
            0 <= read <= left@.len(),
            read <= right@.len(),
            left@.take(read) == right@.take(read),
            left_chars.remaining() == left@.skip(read),
            right_chars.remaining() == right@.skip(read),
        decreases left@.len() - read,
    {
        let ahead = (left_chars.next(), right_chars.next());
        match ahead {
            (None, None) => {
                assert(left@.take(read) =~= left@);
                assert(right@.take(read) =~= right@);
                return true;
            },
            (Some(a), Some(b)) => {
                assert(left@[read] == a);
                assert(right@[read] == b);
                if a != b {
                    return false;
                }
                assert(left@.take(read + 1) =~= left@.take(read).push(a));
                assert(right@.take(read + 1) =~= right@.take(read).push(b));
                assert(left@.skip(read).drop_first() =~= left@.skip(read + 1));
                assert(right@.skip(read).drop_first() =~= right@.skip(read + 1));
                proof {
                    read = read + 1;
                }
            },
            _ => {
                return false;
            },
        }
    }
}

/// Whether a piece of text ends in another.
pub fn ends_with(text: &str, tail: &str) -> (answer: bool)
    ensures
        answer == tail@.is_suffix_of(text@),
{
    let length = text.unicode_len();
    let tail_length = tail.unicode_len();
    if tail_length > length {
        return false;
    }
    same(text.substring_char(length - tail_length, length), tail)
}

/// Whether a piece of text starts with another.
pub fn starts_with(text: &str, head: &str) -> (answer: bool)
    ensures
        answer == head@.is_prefix_of(text@),
{
    let length = text.unicode_len();
    let head_length = head.unicode_len();
    if head_length > length {
        return false;
    }
    same(text.substring_char(0, head_length), head)
}

/// The characters Unicode gives the `White_Space` property.
pub open spec fn is_white(c: char) -> bool {
    let code = c as u32;
    ||| 0x9 <= code <= 0xd
    ||| code == 0x20
    ||| code == 0x85
    ||| code == 0xa0
    ||| code == 0x1680
    ||| 0x2000 <= code <= 0x200a
    ||| code == 0x2028
    ||| code == 0x2029
    ||| code == 0x202f
    ||| code == 0x205f
    ||| code == 0x3000
}

/// Whether a character is white space.
pub fn white(c: char) -> (answer: bool)
    ensures
        answer == is_white(c),
{
    let code: u32 = c as u32;
    (0x9 <= code && code <= 0xd) || code == 0x20 || code == 0x85 || code == 0xa0 || code == 0x1680
        || (0x2000 <= code && code <= 0x200a) || code == 0x2028 || code == 0x2029 || code == 0x202f
        || code == 0x205f || code == 0x3000
}

/// The text without the white space it starts with.
pub open spec fn trimmed_start(text: Seq<char>) -> Seq<char>
    decreases text.len(),
{
    if text.len() > 0 && is_white(text[0]) {
        trimmed_start(text.skip(1))
    } else {
        text
    }
}

/// The text without the white space it ends with.
pub open spec fn trimmed_end(text: Seq<char>) -> Seq<char>
    decreases text.len(),
{
    if text.len() > 0 && is_white(text.last()) {
        trimmed_end(text.drop_last())
    } else {
        text
    }
}

/// The text without the white space around it.
pub open spec fn trimmed(text: Seq<char>) -> Seq<char> {
    trimmed_end(trimmed_start(text))
}

/// Whether there is nothing but white space in the text.
pub open spec fn is_blank(text: Seq<char>) -> bool {
    forall|i: int| 0 <= i < text.len() ==> is_white(#[trigger] text[i])
}

/// Trimming leaves nothing exactly when there was nothing but white space.
pub proof fn lemma_blank_trims_to_nothing(text: Seq<char>)
    ensures
        is_blank(text) <==> trimmed(text).len() == 0,
    decreases text.len(),
{
    if text.len() > 0 && is_white(text[0]) {
        lemma_blank_trims_to_nothing(text.skip(1));
        assert(forall|i: int| 1 <= i < text.len() ==> text[i] == text.skip(1)[i - 1]);
        if is_blank(text) {
            assert(is_blank(text.skip(1)));
        }
        if is_blank(text.skip(1)) {
            assert forall|i: int| 0 <= i < text.len() implies is_white(#[trigger] text[i]) by {
                if i > 0 {
                    assert(is_white(text.skip(1)[i - 1]));
                }
            }
        }
    } else if text.len() > 0 {
        lemma_end_keeps_dark_start(text);
    }
}

proof fn lemma_end_keeps_dark_start(text: Seq<char>)
    requires
        text.len() > 0,
        !is_white(text[0]),
    ensures
        trimmed_end(text).len() > 0,
        trimmed_end(text)[0] == text[0],
    decreases text.len(),
{
    if is_white(text.last()) {
        assert(text.len() > 1);
        assert(text.drop_last()[0] == text[0]);
        lemma_end_keeps_dark_start(text.drop_last());
    }
}

/// The bounds of the trimmed text within a run of characters.
pub fn trimmed_bounds(chars: &[char], from: usize, to: usize) -> (bounds: (usize, usize))
    requires
        from <= to <= chars@.len(),
    ensures
        from <= bounds.0 <= bounds.1 <= to,
        chars@.subrange(bounds.0 as int, bounds.1 as int) == trimmed(
            chars@.subrange(from as int, to as int),
        ),
{
    let mut start: usize = from;
    let ghost whole = chars@.subrange(from as int, to as int);
    while start < to && white(chars[start])
        invariant
            from <= start <= to <= chars@.len(),
            trimmed_start(chars@.subrange(start as int, to as int)) == trimmed_start(whole),
        decreases to - start,
    {
        let ghost rest = chars@.subrange(start as int, to as int);
        assert(rest.skip(1) =~= chars@.subrange(start + 1, to as int));
        start = start + 1;
    }
    let ghost kept = chars@.subrange(start as int, to as int);
    assert(trimmed_start(kept) == kept);
    let mut end: usize = to;
    while end > start && white(chars[end - 1])
        invariant
            from <= start <= end <= to <= chars@.len(),
            trimmed_end(chars@.subrange(start as int, end as int)) == trimmed_end(kept),
        decreases end,
    {
        let ghost rest = chars@.subrange(start as int, end as int);
        assert(rest.drop_last() =~= chars@.subrange(start as int, end - 1));
        end = end - 1;
    }
    (start, end)
}

/// The text without the white space around it.
pub fn trim(text: &str) -> (inner: &str)
    ensures
        inner@ == trimmed(text@),
{
    let chars = chars_of(text);
    let bounds = trimmed_bounds(&chars, 0, chars.len());
    assert(chars@.subrange(0, chars@.len() as int) =~= text@);
    text.substring_char(bounds.0, bounds.1)
}

/// Whether there is nothing but white space in the text.
pub fn blank(text: &str) -> (answer: bool)
    ensures
        answer == is_blank(text@),
{
    proof {
        lemma_blank_trims_to_nothing(text@);
    }
    trim(text).is_empty()
}

/// Whether a character is one of the ten ASCII digits.
pub open spec fn is_digit(c: char) -> bool {
    '0' <= c && c <= '9'
}

/// Whether a character is one of the ten ASCII digits.
pub fn digit(c: char) -> (answer: bool)
    ensures
        answer == is_digit(c),
{
    '0' <= c && c <= '9'
}

/// Whether a run of characters is digits alone.
pub open spec fn all_digits(chars: Seq<char>) -> bool {
    forall|i: int| 0 <= i < chars.len() ==> is_digit(#[trigger] chars[i])
}

/// The number a run of digits spells, read in tens.
pub open spec fn digits_value(digits: Seq<char>) -> nat
    decreases digits.len(),
{
    if digits.len() == 0 {
        0
    } else {
        digits_value(digits.drop_last()) * 10 + (digits.last() as u32 - '0' as u32) as nat
    }
}

/// Ten to a power.
pub open spec fn pow10(exponent: nat) -> nat
    decreases exponent,
{
    if exponent == 0 {
        1
    } else {
        10 * pow10((exponent - 1) as nat)
    }
}

/// Reading more digits never makes the number smaller.
proof fn lemma_digits_value_grows(digits: Seq<char>, count: int)
    requires
        0 <= count <= digits.len(),
    ensures
        digits_value(digits.take(count)) <= digits_value(digits),
    decreases digits.len(),
{
    if count < digits.len() {
        lemma_digits_value_grows(digits.drop_last(), count);
        assert(digits.drop_last().take(count) =~= digits.take(count));
    } else {
        assert(digits.take(count) =~= digits);
    }
}

/// Digits behind others count for less: the first part is worth its number times
/// ten for each digit that follows.
pub proof fn lemma_digits_value_splits(first: Seq<char>, second: Seq<char>)
    ensures
        digits_value(first + second) == digits_value(first) * pow10(second.len()) + digits_value(
            second,
        ),
    decreases second.len(),
{
    if second.len() == 0 {
        assert(first + second =~= first);
        assert(digits_value(first) * 1 == digits_value(first));
    } else {
        let shorter = second.drop_last();
        let whole = first + second;
        lemma_digits_value_splits(first, shorter);
        assert(whole.drop_last() =~= first + shorter);
        assert(whole.last() == second.last());
        let a = digits_value(first) as int;
        let p = pow10(shorter.len()) as int;
        assert((a * p) * 10 == a * (10 * p)) by (nonlinear_arith);
    }
}

/// The number a run of digits spells, where a `u128` holds it.
pub fn number_of_digits(digits: &[char]) -> (number: Option<u128>)
    requires
        all_digits(digits@),
    ensures
        match number {
            Some(value) => digits_value(digits@) == value,
            None => digits_value(digits@) > u128::MAX,
        },
{
    let mut value: u128 = 0;
    let mut i: usize = 0;
    while i < digits.len()
        invariant
            i <= digits@.len(),
            all_digits(digits@),
            value == digits_value(digits@.take(i as int)),
        decreases digits@.len() - i,
    {
        let ghost read = digits@.take(i + 1);
        assert(read.drop_last() =~= digits@.take(i as int));
        assert(is_digit(digits@[i as int]));
        let next: u128 = (digits[i] as u32 - '0' as u32) as u128;
        proof {
            lemma_digits_value_grows(digits@, i + 1);
        }
        let tens: u128 = match value.checked_mul(10) {
            Some(tens) => tens,
            None => {
                return None;
            },
        };
        value = match tens.checked_add(next) {
            Some(sum) => sum,
            None => {
                return None;
            },
        };
        i = i + 1;
    }
    assert(digits@.take(i as int) =~= digits@);
    Some(value)
}

/// The integer a piece of text spells: an optional sign and at least one digit.
pub open spec fn integer_of(text: Seq<char>) -> Option<int> {
    let signed = text.len() > 0 && (text[0] == '+' || text[0] == '-');
    let digits = if signed {
        text.skip(1)
    } else {
        text
    };
    if digits.len() > 0 && all_digits(digits) {
        if signed && text[0] == '-' {
            Some(-(digits_value(digits) as int))
        } else {
            Some(digits_value(digits) as int)
        }
    } else {
        None
    }
}

/// Whether a run of characters is digits alone.
pub fn only_digits(chars: &[char]) -> (answer: bool)
    ensures
        answer == all_digits(chars@),
{
    let mut i: usize = 0;
    while i < chars.len()
        invariant
            i <= chars@.len(),
            forall|j: int| 0 <= j < i ==> is_digit(#[trigger] chars@[j]),
        decreases chars@.len() - i,
    {
        if !digit(chars[i]) {
            assert(!is_digit(chars@[i as int]));
            return false;
        }
        i = i + 1;
    }
    true
}

/// A signed number from its sign and magnitude, where an `i128` holds it.
pub fn signed(negative: bool, magnitude: u128) -> (number: Option<i128>)
    ensures
        ({
            let value = if negative {
                -(magnitude as int)
            } else {
                magnitude as int
            };
            match number {
                Some(held) => held == value,
                None => !(i128::MIN <= value <= i128::MAX),
            }
        }),
{
    let limit: u128 = 170141183460469231731687303715884105727;
    if magnitude <= limit {
        if negative {
            Some(-(magnitude as i128))
        } else {
            Some(magnitude as i128)
        }
    } else if negative && magnitude == limit + 1 {
        Some(i128::MIN)
    } else {
        None
    }
}

/// A number held to the range of an `i64`.
pub open spec fn held_to_i64(value: int) -> int {
    if value > i64::MAX {
        i64::MAX as int
    } else if value < i64::MIN {
        i64::MIN as int
    } else {
        value
    }
}

/// The integer a piece of text spells, held to the range of an `i64`.
pub fn parse_i64(text: &[char]) -> (number: Option<i64>)
    ensures
        match number {
            Some(value) => integer_of(text@) is Some && value == held_to_i64(
                integer_of(text@)->0,
            ),
            None => integer_of(text@) is None,
        },
{
    let marked = text.len() > 0 && (text[0] == '+' || text[0] == '-');
    let negative = marked && text[0] == '-';
    let start: usize = if marked {
        1
    } else {
        0
    };
    let digits = vstd::slice::slice_subrange(text, start, text.len());
    proof {
        assert(text@.skip(1) =~= text@.subrange(1, text@.len() as int));
        assert(!marked ==> digits@ =~= text@);
    }
    if digits.len() == 0 || !only_digits(digits) {
        return None;
    }
    let magnitude: u128 = match number_of_digits(digits) {
        Some(magnitude) => magnitude,
        None => u128::MAX,
    };
    if negative {
        if magnitude >= 9223372036854775808 {
            Some(i64::MIN)
        } else {
            Some(-(magnitude as i64))
        }
    } else if magnitude > 9223372036854775807 {
        Some(i64::MAX)
    } else {
        Some(magnitude as i64)
    }
}

/// The number a piece of text spells as a `u8`: an optional plus sign and at
/// least one digit.
pub open spec fn small_number_of(text: Seq<char>) -> Option<int> {
    if text.len() > 0 && text[0] == '-' {
        None
    } else {
        match integer_of(text) {
            Some(value) => if value <= u8::MAX {
                Some(value)
            } else {
                None
            },
            None => None,
        }
    }
}

/// The number a piece of text spells, where a `u8` holds it.
pub fn parse_u8(text: &[char]) -> (number: Option<u8>)
    ensures
        match number {
            Some(value) => small_number_of(text@) == Some(value as int),
            None => small_number_of(text@) is None,
        },
{
    if text.len() > 0 && text[0] == '-' {
        return None;
    }
    match parse_i64(text) {
        Some(value) => {
            if value <= 255 {
                Some(value as u8)
            } else {
                None
            }
        },
        None => None,
    }
}

/// The character for one decimal digit.
pub open spec fn digit_char(digit: int) -> char {
    if digit == 0 {
        '0'
    } else if digit == 1 {
        '1'
    } else if digit == 2 {
        '2'
    } else if digit == 3 {
        '3'
    } else if digit == 4 {
        '4'
    } else if digit == 5 {
        '5'
    } else if digit == 6 {
        '6'
    } else if digit == 7 {
        '7'
    } else if digit == 8 {
        '8'
    } else {
        '9'
    }
}

/// A natural number in decimal, without leading zeros.
pub open spec fn decimal_nat(number: nat) -> Seq<char>
    decreases number,
{
    if number < 10 {
        seq![digit_char(number as int)]
    } else {
        decimal_nat(number / 10).push(digit_char((number % 10) as int))
    }
}

/// An integer in decimal: a minus sign where it is negative, and no leading
/// zeros.
pub open spec fn decimal(number: int) -> Seq<char> {
    if number < 0 {
        seq!['-'] + decimal_nat((-number) as nat)
    } else {
        decimal_nat(number as nat)
    }
}

/// A number in decimal is digits alone, and reads back as the number.
pub proof fn lemma_decimal_reads_back(number: nat)
    ensures
        decimal_nat(number).len() > 0,
        all_digits(decimal_nat(number)),
        digits_value(decimal_nat(number)) == number,
    decreases number,
{
    let digits = decimal_nat(number);
    if number < 10 {
        assert(digits.drop_last() =~= seq![]);
        assert(digits_value(digits.drop_last()) == 0);
    } else {
        lemma_decimal_reads_back(number / 10);
        assert(digits.drop_last() =~= decimal_nat(number / 10));
        assert forall|i: int| 0 <= i < digits.len() implies is_digit(#[trigger] digits[i]) by {
            if i < digits.len() - 1 {
                assert(digits[i] == decimal_nat(number / 10)[i]);
            }
        }
    }
}

fn show_digit(value: u128) -> (c: char)
    requires
        value < 10,
    ensures
        c == digit_char(value as int),
{
    if value == 0 {
        '0'
    } else if value == 1 {
        '1'
    } else if value == 2 {
        '2'
    } else if value == 3 {
        '3'
    } else if value == 4 {
        '4'
    } else if value == 5 {
        '5'
    } else if value == 6 {
        '6'
    } else if value == 7 {
        '7'
    } else if value == 8 {
        '8'
    } else {
        '9'
    }
}

/// A natural number in decimal.
pub fn show_natural(number: u128) -> (text: String)
    ensures
        text@ == decimal_nat(number as nat),
    decreases number,
{
    let mut text: String = if number < 10 {
        String::new()
    } else {
        show_natural(number / 10)
    };
    text.push(show_digit(number % 10));
    assert(text@ =~= decimal_nat(number as nat));
    text
}

/// An integer in decimal.
pub fn show_integer(number: i128) -> (text: String)
    ensures
        text@ == decimal(number as int),
{
    if number < 0 {
        let mut text: String = String::new();
        text.push('-');
        let magnitude: u128 = if number == i128::MIN {
            170141183460469231731687303715884105728
        } else {
            (-number) as u128
        };
        text.append(show_natural(magnitude).as_str());
        assert(text@ =~= decimal(number as int));
        text
    } else {
        show_natural(number as u128)
    }
}

/// Whether one piece of text sorts strictly before another: by the first
/// character that differs, and a prefix before what it starts.
pub open spec fn sorts_before(left: Seq<char>, right: Seq<char>) -> bool
    decreases left.len(),
{
    if right.len() == 0 {
        false
    } else if left.len() == 0 {
        true
    } else if left[0] == right[0] {
        sorts_before(left.skip(1), right.skip(1))
    } else {
        left[0] < right[0]
    }
}

/// Two pieces of text that neither sorts before the other are the same.
pub proof fn lemma_sorts_before_total(left: Seq<char>, right: Seq<char>)
    ensures
        sorts_before(left, right) || sorts_before(right, left) || left == right,
        sorts_before(left, right) ==> !sorts_before(right, left) && left != right,
    decreases left.len(),
{
    if left.len() == 0 || right.len() == 0 {
        assert(left.len() == right.len() ==> left =~= right);
    } else if left[0] == right[0] {
        lemma_sorts_before_total(left.skip(1), right.skip(1));
        if left.skip(1) == right.skip(1) {
            assert(left =~= seq![left[0]] + left.skip(1));
            assert(right =~= seq![right[0]] + right.skip(1));
        }
    }
}

/// The order of text is transitive.
pub proof fn lemma_sorts_before_transitive(left: Seq<char>, middle: Seq<char>, right: Seq<char>)
    requires
        sorts_before(left, middle),
        sorts_before(middle, right),
    ensures
        sorts_before(left, right),
    decreases left.len(),
{
    if left.len() > 0 && left[0] == middle[0] && middle[0] == right[0] {
        lemma_sorts_before_transitive(left.skip(1), middle.skip(1), right.skip(1));
    }
}

/// Whether one piece of text sorts strictly before another.
pub fn precedes(left: &str, right: &str) -> (answer: bool)
    ensures
        answer == sorts_before(left@, right@),
{
    let mut left_chars = left.chars();
    let mut right_chars = right.chars();
    let ghost mut read: int = 0;
    assert(left@.skip(0) =~= left@);
    assert(right@.skip(0) =~= right@);
    loop
        invariant
            0 <= read <= left@.len(),
            read <= right@.len(),
            sorts_before(left@, right@) == sorts_before(left@.skip(read), right@.skip(read)),
            left_chars.remaining() == left@.skip(read),
            right_chars.remaining() == right@.skip(read),
        decreases left@.len() - read,
    {
        let ahead = (left_chars.next(), right_chars.next());
        match ahead {
            (_, None) => {
                return false;
            },
            (None, Some(_)) => {
                return true;
            },
            (Some(a), Some(b)) => {
                assert(left@.skip(read)[0] == a);
                assert(right@.skip(read)[0] == b);
                if a != b {
                    return a < b;
                }
                assert(left@.skip(read).skip(1) =~= left@.skip(read + 1));
                assert(right@.skip(read).skip(1) =~= right@.skip(read + 1));
                assert(left@.skip(read).drop_first() =~= left@.skip(read + 1));
                assert(right@.skip(read).drop_first() =~= right@.skip(read + 1));
                proof {
                    read = read + 1;
                }
            },
        }
    }
}

/// What each of several strings holds.
pub open spec fn texts(strings: Seq<String>) -> Seq<Seq<char>> {
    Seq::new(strings.len(), |i: int| strings[i]@)
}

/// Pieces of text one after another, with a separator between neighbours.
pub open spec fn joined(parts: Seq<Seq<char>>, separator: Seq<char>) -> Seq<char>
    decreases parts.len(),
{
    if parts.len() == 0 {
        seq![]
    } else if parts.len() == 1 {
        parts[0]
    } else {
        joined(parts.drop_last(), separator) + separator + parts.last()
    }
}

/// Pieces of text one after another, with a separator between neighbours.
pub fn join(parts: &[String], separator: &str) -> (text: String)
    ensures
        text@ == joined(texts(parts@), separator@),
{
    let mut text: String = String::new();
    let mut i: usize = 0;
    while i < parts.len()
        invariant
            i <= parts@.len(),
            text@ == joined(texts(parts@.take(i as int)), separator@),
        decreases parts@.len() - i,
    {
        let ghost before = texts(parts@.take(i as int));
        let ghost after = texts(parts@.take(i + 1));
        assert(after.drop_last() =~= before);
        assert(after.last() == parts@[i as int]@);
        if i > 0 {
            text.append(separator);
        }
        text.append(parts[i].as_str());
        assert(text@ =~= joined(after, separator@));
        i = i + 1;
    }
    assert(parts@.take(i as int) =~= parts@);
    text
}

/// The place of the first occurrence of a character, or the length of the text
/// where there is none.
pub open spec fn find(text: Seq<char>, wanted: char) -> int
    decreases text.len(),
{
    if text.len() == 0 || text[0] == wanted {
        0
    } else {
        1 + find(text.skip(1), wanted)
    }
}

/// [`find`] is the first place, and nothing but the first.
pub proof fn lemma_find(text: Seq<char>, wanted: char)
    ensures
        0 <= find(text, wanted) <= text.len(),
        find(text, wanted) < text.len() ==> text[find(text, wanted)] == wanted,
        forall|i: int| 0 <= i < find(text, wanted) ==> text[i] != wanted,
    decreases text.len(),
{
    if text.len() > 0 && text[0] != wanted {
        let rest = text.skip(1);
        lemma_find(rest, wanted);
        assert forall|i: int| 0 <= i < find(text, wanted) implies text[i] != wanted by {
            if i > 0 {
                assert(text[i] == rest[i - 1]);
            }
        }
    }
}

/// The first place is where the character stands and does not stand before.
pub proof fn lemma_find_is(text: Seq<char>, wanted: char, place: int)
    requires
        0 <= place <= text.len(),
        place < text.len() ==> text[place] == wanted,
        forall|i: int| 0 <= i < place ==> text[i] != wanted,
    ensures
        find(text, wanted) == place,
{
    lemma_find(text, wanted);
}

/// The place of the first occurrence of a character, or the length.
pub fn find_char(chars: &[char], wanted: char) -> (place: usize)
    ensures
        place == find(chars@, wanted),
        place <= chars@.len(),
{
    let mut place: usize = 0;
    while place < chars.len() && chars[place] != wanted
        invariant
            place <= chars@.len(),
            forall|i: int| 0 <= i < place ==> chars@[i] != wanted,
        decreases chars@.len() - place,
    {
        place = place + 1;
    }
    proof {
        lemma_find_is(chars@, wanted, place as int);
    }
    place
}

/// The place of the first white space, or the length of the text where there is
/// none.
pub open spec fn find_white(text: Seq<char>) -> int
    decreases text.len(),
{
    if text.len() == 0 || is_white(text[0]) {
        0
    } else {
        1 + find_white(text.skip(1))
    }
}

/// [`find_white`] is the first place, and nothing but the first.
pub proof fn lemma_find_white(text: Seq<char>)
    ensures
        0 <= find_white(text) <= text.len(),
        find_white(text) < text.len() ==> is_white(text[find_white(text)]),
        forall|i: int| 0 <= i < find_white(text) ==> !is_white(#[trigger] text[i]),
    decreases text.len(),
{
    if text.len() > 0 && !is_white(text[0]) {
        let rest = text.skip(1);
        lemma_find_white(rest);
        assert forall|i: int| 0 <= i < find_white(text) implies !is_white(#[trigger] text[i]) by {
            if i > 0 {
                assert(text[i] == rest[i - 1]);
            }
        }
    }
}

/// The place of the first white space from a position on, or the end.
pub fn find_space(chars: &[char], from: usize) -> (place: usize)
    requires
        from <= chars@.len(),
    ensures
        place == from + find_white(chars@.skip(from as int)),
        from <= place <= chars@.len(),
{
    let mut place: usize = from;
    let ghost rest = chars@.skip(from as int);
    while place < chars.len() && !white(chars[place])
        invariant
            from <= place <= chars@.len(),
            rest == chars@.skip(from as int),
            forall|i: int| 0 <= i < place - from ==> !is_white(#[trigger] rest[i]),
        decreases chars@.len() - place,
    {
        assert(rest[place - from] == chars@[place as int]);
        place = place + 1;
    }
    proof {
        lemma_find_white(rest);
        let found = find_white(rest);
        if found < place - from {
            assert(is_white(rest[found]));
        }
        if place - from < found {
            assert(!is_white(rest[place - from]));
        }
    }
    place
}

/// The pieces of a text between the separators in it.
pub open spec fn split_on(text: Seq<char>, separator: char) -> Seq<Seq<char>>
    decreases text.len(),
    via split_on_shrinks
{
    let place = find(text, separator);
    if place >= text.len() {
        seq![text]
    } else {
        seq![text.take(place)] + split_on(text.skip(place + 1), separator)
    }
}

#[via_fn]
proof fn split_on_shrinks(text: Seq<char>, separator: char) {
    lemma_find(text, separator);
}

/// The pieces of a text between the separators in it.
pub fn split(text: &str, separator: char) -> (pieces: Vec<String>)
    ensures
        texts(pieces@) == split_on(text@, separator),
        pieces@.len() > 0,
{
    let chars = chars_of(text);
    let mut pieces: Vec<String> = Vec::new();
    let mut start: usize = 0;
    assert(text@.skip(0) =~= text@);
    assert(texts(pieces@) + split_on(text@, separator) =~= split_on(text@, separator));
    loop
        invariant_except_break
            texts(pieces@) + split_on(text@.skip(start as int), separator) == split_on(
                text@,
                separator,
            ),
        invariant
            chars@ == text@,
            start <= chars@.len(),
        ensures
            texts(pieces@) == split_on(text@, separator),
            pieces@.len() > 0,
        decreases chars@.len() - start,
    {
        let rest = vstd::slice::slice_subrange(chars.as_slice(), start, chars.len());
        let ghost left = text@.skip(start as int);
        assert(rest@ =~= left);
        let place = find_char(rest, separator);
        let ghost before = texts(pieces@);
        let piece = text_of(vstd::slice::slice_subrange(rest, 0, place));
        assert(piece@ =~= left.take(place as int));
        pieces.push(piece);
        assert(texts(pieces@) =~= before + seq![left.take(place as int)]);
        if place >= rest.len() {
            assert(left.take(place as int) =~= left);
            break ;
        }
        assert(left.skip(place + 1) =~= text@.skip(start + place + 1));
        assert(before + (seq![left.take(place as int)] + split_on(left.skip(place + 1), separator))
            =~= (before + seq![left.take(place as int)]) + split_on(
            left.skip(place + 1),
            separator,
        ));
        start = start + place + 1;
    }
    pieces
}

/// The first piece of joined text, and the rest.
pub proof fn lemma_joined_first(parts: Seq<Seq<char>>, separator: Seq<char>)
    requires
        parts.len() >= 2,
    ensures
        joined(parts, separator) == parts[0] + (separator + joined(parts.skip(1), separator)),
    decreases parts.len(),
{
    let rest = parts.skip(1);
    if parts.len() == 2 {
        assert(parts.drop_last().len() == 1);
        assert(parts.drop_last()[0] == parts[0]);
        assert(joined(parts.drop_last(), separator) == parts[0]);
        assert(joined(rest, separator) == parts[1]);
        assert(rest[0] == parts[1]);
        assert(joined(parts, separator) =~= parts[0] + (separator + parts[1]));
    } else {
        lemma_joined_first(parts.drop_last(), separator);
        assert(parts.drop_last().skip(1) =~= rest.drop_last());
        assert(rest.last() == parts.last());
        assert(joined(parts, separator) =~= parts[0] + (separator + joined(rest, separator)));
    }
}

/// Pieces without the separator in them, joined by it, split into themselves.
pub proof fn lemma_split_on_joined(parts: Seq<Seq<char>>, separator: char)
    requires
        parts.len() >= 1,
        forall|i: int| 0 <= i < parts.len() ==> !(#[trigger] parts[i]).contains(separator),
    ensures
        split_on(joined(parts, seq![separator]), separator) == parts,
    decreases parts.len(),
{
    let between = seq![separator];
    let whole = joined(parts, between);
    if parts.len() == 1 {
        assert(!parts[0].contains(separator));
        lemma_find_is(parts[0], separator, parts[0].len() as int);
        assert(parts =~= seq![parts[0]]);
    } else {
        let rest = parts.skip(1);
        lemma_joined_first(parts, between);
        assert forall|i: int| 0 <= i < rest.len() implies !(#[trigger] rest[i]).contains(
            separator,
        ) by {
            assert(rest[i] == parts[i + 1]);
        }
        lemma_split_on_joined(rest, separator);
        let tail = between + joined(rest, between);
        let place = parts[0].len() as int;
        assert(!parts[0].contains(separator));
        assert forall|i: int| 0 <= i < place implies whole[i] != separator by {
            assert(whole[i] == parts[0][i]);
        }
        assert(whole[place] == tail[0]);
        lemma_find_is(whole, separator, place);
        assert(whole.take(place) =~= parts[0]);
        assert(whole.skip(place + 1) =~= joined(rest, between));
        assert(parts =~= seq![parts[0]] + rest);
    }
}

/// The words of a text: what stands between white space.
pub open spec fn words_of(text: Seq<char>) -> Seq<Seq<char>>
    decreases text.len(),
    via words_of_shrinks
{
    let inner = trimmed_start(text);
    if inner.len() == 0 {
        seq![]
    } else {
        seq![inner.take(find_white(inner))] + words_of(inner.skip(find_white(inner)))
    }
}

#[via_fn]
proof fn words_of_shrinks(text: Seq<char>) {
    lemma_trimmed_start(text);
    lemma_find_white(trimmed_start(text));
}

/// Trimming the start leaves a tail of the text that does not start with white
/// space.
pub proof fn lemma_trimmed_start(text: Seq<char>)
    ensures
        trimmed_start(text).len() <= text.len(),
        trimmed_start(text).len() > 0 ==> !is_white(trimmed_start(text)[0]),
        trimmed_start(text) == text.skip(text.len() - trimmed_start(text).len()),
    decreases text.len(),
{
    if text.len() > 0 && is_white(text[0]) {
        let rest = text.skip(1);
        lemma_trimmed_start(rest);
        let inner = trimmed_start(rest);
        assert(rest.skip(rest.len() - inner.len()) =~= text.skip(text.len() - inner.len()));
    } else {
        assert(text.skip(0) =~= text);
    }
}

/// Trimming the end leaves a head of the text that does not end in white space.
pub proof fn lemma_trimmed_end(text: Seq<char>)
    ensures
        trimmed_end(text).len() <= text.len(),
        trimmed_end(text).len() > 0 ==> !is_white(trimmed_end(text).last()),
        trimmed_end(text) == text.take(trimmed_end(text).len() as int),
    decreases text.len(),
{
    if text.len() > 0 && is_white(text.last()) {
        let rest = text.drop_last();
        lemma_trimmed_end(rest);
        let inner = trimmed_end(rest);
        assert(rest.take(inner.len() as int) =~= text.take(inner.len() as int));
    } else {
        assert(text.take(text.len() as int) =~= text);
    }
}

/// Trimmed text neither starts nor ends in white space, and is a piece of what
/// it was trimmed from.
pub proof fn lemma_trimmed(text: Seq<char>)
    ensures
        trimmed(text).len() <= text.len(),
        trimmed(text).len() > 0 ==> !is_white(trimmed(text)[0]) && !is_white(trimmed(text).last()),
        forall|i: int| 0 <= i < trimmed(text).len() ==> text.contains(#[trigger] trimmed(text)[i]),
{
    let start = trimmed_start(text);
    lemma_trimmed_start(text);
    lemma_trimmed_end(start);
    let inner = trimmed(text);
    assert forall|i: int| 0 <= i < inner.len() implies text.contains(#[trigger] inner[i]) by {
        assert(inner[i] == start[i]);
        assert(start[i] == text[i + (text.len() - start.len())]);
    }
}

/// Text that neither starts nor ends in white space is trimmed already.
pub proof fn lemma_trimmed_already(text: Seq<char>)
    requires
        text.len() > 0 ==> !is_white(text[0]) && !is_white(text.last()),
    ensures
        trimmed(text) == text,
        trimmed_start(text) == text,
        trimmed_end(text) == text,
{
}

/// The words of a text: what stands between white space.
pub fn words(text: &str) -> (words: Vec<String>)
    ensures
        texts(words@) == words_of(text@),
{
    let chars = chars_of(text);
    let mut words: Vec<String> = Vec::new();
    let mut start: usize = 0;
    assert(text@.skip(0) =~= text@);
    assert(texts(words@) + words_of(text@) =~= words_of(text@));
    loop
        invariant_except_break
            texts(words@) + words_of(text@.skip(start as int)) == words_of(text@),
        invariant
            chars@ == text@,
            start <= chars@.len(),
        ensures
            texts(words@) == words_of(text@),
        decreases chars@.len() - start,
    {
        let ghost left = text@.skip(start as int);
        let ghost inner = trimmed_start(left);
        let mut at: usize = start;
        assert(chars@.skip(at as int) =~= left);
        while at < chars.len() && white(chars[at])
            invariant
                start <= at <= chars@.len(),
                trimmed_start(chars@.skip(at as int)) == inner,
            decreases chars@.len() - at,
        {
            assert(chars@.skip(at as int).skip(1) =~= chars@.skip(at + 1));
            at = at + 1;
        }
        assert(chars@.skip(at as int) == inner);
        let ghost before = texts(words@);
        if at >= chars.len() {
            assert(before + words_of(left) =~= before);
            break ;
        }
        let end = find_space(&chars, at);
        proof {
            lemma_find_white(inner);
            assert(!is_white(inner[0]));
        }
        let word = text_of(vstd::slice::slice_subrange(chars.as_slice(), at, end));
        assert(word@ =~= inner.take(end - at));
        words.push(word);
        assert(texts(words@) =~= before + seq![inner.take(end - at)]);
        assert(inner.skip(end - at) =~= text@.skip(end as int));
        assert(before + (seq![inner.take(end - at)] + words_of(inner.skip(end - at))) =~= (before
            + seq![inner.take(end - at)]) + words_of(inner.skip(end - at)));
        start = end;
    }
    words
}

/// One character, repeated.
pub open spec fn repeated(c: char, count: nat) -> Seq<char> {
    Seq::new(count, |i: int| c)
}

} // verus!
