//! How numbers, durations and tables are laid out.

use vstd::prelude::*;

use crate::format::{
    all_widths, cell_text, column_width, duration_text, exact_text, grouped, line_text, padded,
    percentage_text, table_text, three_digits,
};
use crate::k8s::quantity::Ratio;
use crate::k8s::resource::ascii_uppercase;
use crate::laws::quantity::{is_nearest, lemma_is_nearest};
use crate::laws::sum;
use crate::text::{
    decimal, decimal_nat, digit_char, is_white, joined, lemma_split_on_joined, split_on,
    trimmed_end, trimmed_start,
};
use crate::time::{seconds_between, Timestamp};

verus! {

/// A text, with an amount of a smaller unit behind it where there is any.
pub open spec fn with_rest(text: Seq<char>, rest: int, unit: char) -> Seq<char> {
    if rest == 0 {
        text
    } else {
        text + (decimal(rest) + seq![unit])
    }
}

/// What a duration reads as, by how many seconds it is: seconds below two minutes,
/// minutes and seconds below ten, minutes below three hours, hours and minutes below
/// eight, hours below two days, days and hours below eight, days below two years,
/// years and days below eight, and years from there on.
pub proof fn law_durations_read_in_two_units_at_most(seconds: int)
    ensures
        seconds < 0 ==> duration_text(seconds) == seq!['0', 's'],
        0 <= seconds < 120 ==> duration_text(seconds) == decimal(seconds) + seq!['s'],
        120 <= seconds < 600 ==> duration_text(seconds) == with_rest(
            decimal(seconds / 60) + seq!['m'],
            seconds % 60,
            's',
        ),
        600 <= seconds < 10_800 ==> duration_text(seconds) == decimal(seconds / 60) + seq!['m'],
        10_800 <= seconds < 28_800 ==> duration_text(seconds) == with_rest(
            decimal(seconds / 3_600) + seq!['h'],
            seconds % 3_600 / 60,
            'm',
        ),
        28_800 <= seconds < 172_800 ==> duration_text(seconds) == decimal(seconds / 3_600)
            + seq!['h'],
        172_800 <= seconds < 691_200 ==> duration_text(seconds) == with_rest(
            decimal(seconds / 86_400) + seq!['d'],
            seconds % 86_400 / 3_600,
            'h',
        ),
        691_200 <= seconds < 63_072_000 ==> duration_text(seconds) == decimal(seconds / 86_400)
            + seq!['d'],
        63_072_000 <= seconds < 252_288_000 ==> duration_text(seconds) == with_rest(
            decimal(seconds / 31_536_000) + seq!['y'],
            seconds % 31_536_000 / 86_400,
            'd',
        ),
        252_288_000 <= seconds ==> duration_text(seconds) == decimal(seconds / 31_536_000)
            + seq!['y'],
{
    reveal_strlit("0s");
    reveal_strlit("s");
    reveal_strlit("m");
    reveal_strlit("h");
    reveal_strlit("d");
    reveal_strlit("y");
    assert("0s"@ =~= seq!['0', 's']);
    assert("s"@ =~= seq!['s']);
    assert("m"@ =~= seq!['m']);
    assert("h"@ =~= seq!['h']);
    assert("d"@ =~= seq!['d']);
    assert("y"@ =~= seq!['y']);
    if seconds >= 0 {
        assert(seconds / 3600 / 24 == seconds / 86_400);
        assert(seconds / 3600 / 24 / 365 == seconds / 31_536_000);
        assert(seconds / 60 % 60 == seconds % 3_600 / 60);
        assert(seconds / 3600 % 24 == seconds % 86_400 / 3_600);
        assert(seconds / 86_400 % 365 == seconds % 31_536_000 / 86_400);
    }
}

/// A duration that is shown exactly is in hours where it is whole hours, in minutes
/// where it is whole minutes and not hours, and else in seconds.
pub proof fn law_exact_durations_leave_nothing_over(count: nat)
    ensures
        count > 0 ==> exact_text(count * 3600) == decimal_nat(count) + seq!['h'],
        count % 60 != 0 ==> exact_text(count * 60) == decimal_nat(count) + seq!['m'],
        count % 60 != 0 || count == 0 ==> exact_text(count) == decimal_nat(count) + seq!['s'],
{
    reveal_strlit("s");
    reveal_strlit("m");
    reveal_strlit("h");
    assert("s"@ =~= seq!['s']);
    assert("m"@ =~= seq!['m']);
    assert("h"@ =~= seq!['h']);
    assert((count * 3600) % 3600 == 0);
    assert((count * 3600) / 3600 == count);
    assert((count * 60) % 60 == 0);
    assert((count * 60) / 60 == count);
    assert((count * 60) % 3600 == (count % 60) * 60);
}

/// A text without its commas.
pub open spec fn without_commas(text: Seq<char>) -> Seq<char>
    decreases text.len(),
{
    if text.len() == 0 {
        seq![]
    } else if text.last() == ',' {
        without_commas(text.drop_last())
    } else {
        without_commas(text.drop_last()).push(text.last())
    }
}

proof fn lemma_without_commas(left: Seq<char>, right: Seq<char>)
    ensures
        without_commas(left + right) == without_commas(left) + without_commas(right),
    decreases right.len(),
{
    if right.len() == 0 {
        assert(left + right =~= left);
        assert(without_commas(left) + without_commas(right) =~= without_commas(left));
    } else {
        lemma_without_commas(left, right.drop_last());
        assert((left + right).drop_last() =~= left + right.drop_last());
        assert(without_commas(left + right) =~= without_commas(left) + without_commas(right));
    }
}

proof fn lemma_plain_commas(text: Seq<char>)
    requires
        forall|i: int| 0 <= i < text.len() ==> #[trigger] text[i] != ',',
    ensures
        without_commas(text) == text,
    decreases text.len(),
{
    if text.len() > 0 {
        let before = text.drop_last();
        assert(forall|i: int| 0 <= i < before.len() ==> before[i] == text[i]);
        lemma_plain_commas(before);
        assert(text.last() == text[text.len() - 1]);
        assert(text =~= before.push(text.last()));
    } else {
        assert(without_commas(text) =~= text);
    }
}

proof fn lemma_decimal_shift(number: nat)
    requires
        number >= 1000,
    ensures
        decimal_nat(number) == decimal_nat(number / 1000) + three_digits(number % 1000),
        three_digits(number % 1000).len() == 3,
        forall|i: int| 0 <= i < 3 ==> #[trigger] three_digits(number % 1000)[i] != ',',
{
    let rest = number % 1000;
    assert(number / 10 / 10 / 10 == number / 1000);
    assert(number / 10 >= 10);
    assert(number / 10 / 10 >= 10);
    assert(number % 10 == rest % 10);
    assert(number / 10 % 10 == rest / 10 % 10);
    assert(number / 10 / 10 % 10 == rest / 100);
    assert(decimal_nat(number) == decimal_nat(number / 10).push(digit_char((number % 10) as int)));
    assert(decimal_nat(number / 10) == decimal_nat(number / 10 / 10).push(
        digit_char((number / 10 % 10) as int),
    ));
    assert(decimal_nat(number / 10 / 10) == decimal_nat(number / 10 / 10 / 10).push(
        digit_char((number / 10 / 10 % 10) as int),
    ));
    assert(decimal_nat(number) =~= decimal_nat(number / 1000) + three_digits(rest));
}

proof fn lemma_short(number: nat)
    requires
        number < 1000,
    ensures
        1 <= decimal_nat(number).len() <= 3,
        forall|i: int| 0 <= i < decimal_nat(number).len() ==> #[trigger] decimal_nat(number)[i]
            != ',',
{
    reveal_with_fuel(decimal_nat, 4);
    crate::text::lemma_decimal_reads_back(number);
    let text = decimal_nat(number);
    assert forall|i: int| 0 <= i < text.len() implies #[trigger] text[i] != ',' by {
        assert(crate::text::is_digit(text[i]));
    }
}

/// A grouped number is the number in decimal, with a comma before every third digit
/// from the end, and nowhere else.
pub proof fn law_groups_are_of_three(number: nat)
    ensures
        without_commas(grouped(number)) == decimal_nat(number),
        forall|i: int|
            0 <= i < grouped(number).len() ==> (#[trigger] grouped(number)[i] == ','
                <==> (grouped(number).len() - 1 - i) % 4 == 3),
        grouped(number).len() > 0 && grouped(number)[0] != ',',
    decreases number,
{
    reveal_strlit(",");
    let text = grouped(number);
    if number < 1000 {
        lemma_short(number);
        lemma_plain_commas(text);
    } else {
        let head = grouped(number / 1000);
        let tail = three_digits(number % 1000);
        law_groups_are_of_three(number / 1000);
        lemma_decimal_shift(number);
        lemma_plain_commas(tail);
        lemma_without_commas(head + ","@, tail);
        lemma_without_commas(head, ","@);
        assert(","@.drop_last() =~= seq![]);
        assert(without_commas(","@) =~= seq![]) by {
            assert(","@.last() == ',');
            assert(without_commas(","@.drop_last()) == without_commas(seq![]));
        }
        assert(without_commas(head) + without_commas(","@) =~= without_commas(head));
        assert forall|i: int| 0 <= i < text.len() implies (#[trigger] text[i] == ',' <==> (
        text.len() - 1 - i) % 4 == 3) by {
            if i < head.len() {
                assert(text[i] == head[i]);
            } else if i > head.len() {
                assert(text[i] == tail[i - head.len() - 1]);
            }
        }
        assert(text[0] == head[0]);
    }
}

/// A percentage is the whole number nearest to a hundred times the share.
pub proof fn law_percentages_are_nearest(ratio: Ratio)
    requires
        ratio.whole > 0,
    ensures
        exists|percent: int| #[trigger]
            is_nearest(percent, 100 * ratio.part, ratio.whole as int) && percentage_text(ratio)
                == decimal(percent) + seq!['%'],
{
    reveal_strlit("%");
    assert("%"@ =~= seq!['%']);
    let percent = crate::k8s::quantity::nearest(100 * ratio.part, ratio.whole as int);
    lemma_is_nearest(100 * ratio.part, ratio.whole as int);
    assert(is_nearest(percent, 100 * ratio.part, ratio.whole as int));
}

/// The seconds between two moments are whole, the fraction dropped on either side.
pub proof fn law_seconds_drop_the_fraction(earlier: Timestamp, later: Timestamp)
    requires
        i128::MIN <= later.nanosecond - earlier.nanosecond <= i128::MAX,
    ensures
        ({
            let apart = later.nanosecond - earlier.nanosecond;
            let back = seconds_between(earlier, later) * 1_000_000_000;
            &&& apart >= 0 ==> back <= apart < back + 1_000_000_000
            &&& apart <= 0 ==> back >= apart > back - 1_000_000_000
        }),
{
    crate::laws::quantity::law_fractions_are_dropped(
        later.nanosecond - earlier.nanosecond,
        1_000_000_000,
    );
}

/// A column is as wide as its heading or its widest cell, whichever is wider.
pub proof fn law_columns_are_as_wide_as_their_widest_cell(
    headers: Seq<Seq<char>>,
    rows: Seq<Seq<Seq<char>>>,
    column: int,
)
    ensures
        ({
            let width = column_width(headers, rows, column);
            &&& width >= headers[column].len()
            &&& forall|i: int|
                0 <= i < rows.len() && 0 <= column < (#[trigger] rows[i]).len() ==> width
                    >= rows[i][column].len()
            &&& width == headers[column].len() || exists|i: int|
                0 <= i < rows.len() && 0 <= column < (#[trigger] rows[i]).len() && width
                    == rows[i][column].len()
        }),
    decreases rows.len(),
{
    if rows.len() > 0 {
        let before = rows.drop_last();
        assert(forall|i: int| 0 <= i < before.len() ==> before[i] == rows[i]);
        law_columns_are_as_wide_as_their_widest_cell(headers, before, column);
        let width = column_width(headers, rows, column);
        let had = column_width(headers, before, column);
        assert(rows.last() == rows[rows.len() - 1]);
        assert forall|i: int|
            0 <= i < rows.len() && 0 <= column < (#[trigger] rows[i]).len() implies width
            >= rows[i][column].len() by {
            if i < before.len() {
                assert(before[i] == rows[i]);
            } else {
                assert(cell_text(rows.last(), column) == rows[i][column]);
            }
        }
        if width == had && had != headers[column].len() {
            let i = choose|i: int|
                0 <= i < before.len() && 0 <= column < (#[trigger] before[i]).len() && had
                    == before[i][column].len();
            assert(rows[i] == before[i]);
        } else if width != had {
            let last = rows.len() - 1;
            assert(0 <= column < rows[last].len());
        }
    }
}

/// How far from the left a column starts: two spaces stand behind each before it.
pub open spec fn start_of(widths: Seq<nat>, column: int) -> int {
    sum(Seq::new(widths.len(), |i: int| widths[i] as int + 2).take(column))
}

proof fn lemma_start(widths: Seq<nat>, column: int)
    requires
        0 <= column < widths.len(),
    ensures
        start_of(widths, column + 1) == start_of(widths, column) + widths[column] + 2,
        start_of(widths, 0) == 0,
{
    let steps = Seq::new(widths.len(), |i: int| widths[i] as int + 2);
    assert(steps.take(column + 1).drop_last() =~= steps.take(column));
    assert(steps.take(0) =~= seq![]);
}

proof fn lemma_joined_cells(parts: Seq<Seq<char>>, widths: Seq<nat>, column: int)
    requires
        parts.len() == widths.len(),
        forall|i: int| 0 <= i < parts.len() ==> (#[trigger] parts[i]).len() == widths[i],
        0 <= column < parts.len(),
    ensures
        ({
            let text = joined(parts, "  "@);
            let start = start_of(widths, column);
            &&& 0 <= start
            &&& start + widths[column] <= text.len()
            &&& text.subrange(start, start + widths[column]) == parts[column]
            &&& column == parts.len() - 1 ==> text.len() == start + widths[column]
        }),
    decreases parts.len(),
{
    reveal_strlit("  ");
    let text = joined(parts, "  "@);
    let last = parts.len() - 1;
    assert(parts.last() == parts[last]);
    if parts.len() == 1 {
        lemma_start(widths, 0);
        assert(text.subrange(0, widths[0] as int) =~= parts[0]);
    } else {
        let before = parts.drop_last();
        let fewer = widths.drop_last();
        assert(forall|i: int| 0 <= i < before.len() ==> before[i] == parts[i]);
        let head = joined(before, "  "@);
        lemma_joined_cells(before, fewer, last - 1);
        let steps = Seq::new(widths.len(), |i: int| widths[i] as int + 2);
        let less = Seq::new(fewer.len(), |i: int| fewer[i] as int + 2);
        assert(less.take(last - 1) =~= steps.take(last - 1));
        lemma_start(widths, last - 1);
        assert(text.len() == head.len() + 2 + parts[last].len());
        if column < last {
            lemma_joined_cells(before, fewer, column);
            assert(less.take(column) =~= steps.take(column));
            let start = start_of(widths, column);
            assert(text.subrange(start, start + widths[column]) =~= head.subrange(
                start,
                start + widths[column],
            ));
        } else {
            let start = start_of(widths, last);
            assert(start == head.len() + 2);
            assert(text.subrange(start, start + widths[last]) =~= parts[last]);
        }
    }
}

/// A cell that does not end in white space stands in its line where its column
/// starts.
pub proof fn law_cells_stand_under_their_heading(
    row: Seq<Seq<char>>,
    widths: Seq<nat>,
    column: int,
)
    requires
        0 <= column < widths.len(),
        column < row.len(),
        forall|i: int|
            0 <= i < widths.len() && i < row.len() ==> (#[trigger] row[i]).len() <= widths[i],
        row[column].len() > 0,
        !is_white(row[column].last()),
    ensures
        ({
            let line = line_text(row, widths);
            let start = start_of(widths, column);
            &&& 0 <= start
            &&& start + row[column].len() <= line.len()
            &&& line.subrange(start, start + row[column].len()) == row[column]
        }),
{
    let parts = Seq::new(widths.len(), |i: int| padded(cell_text(row, i), widths[i]));
    assert forall|i: int| 0 <= i < parts.len() implies (#[trigger] parts[i]).len() == widths[i] by {
        if i < row.len() {
            assert(row[i].len() <= widths[i]);
        }
    }
    lemma_joined_cells(parts, widths, column);
    let text = joined(parts, "  "@);
    let start = start_of(widths, column);
    let cell = row[column];
    assert(cell.len() <= widths[column]);
    let end = start + cell.len() - 1;
    assert(parts[column].subrange(0, cell.len() as int) =~= cell);
    assert forall|i: int| 0 <= i < cell.len() implies text[start + i] == cell[i] by {
        assert(text.subrange(start, start + widths[column])[i] == parts[column][i]);
        assert(parts[column].subrange(0, cell.len() as int)[i] == cell[i]);
    }
    assert(text[end] == cell[cell.len() - 1]);
    crate::laws::selector::lemma_end_keeps(text, end);
    crate::text::lemma_trimmed_end(text);
    let line = line_text(row, widths);
    assert(line == trimmed_end(text));
    assert forall|i: int| 0 <= i < cell.len() implies line[start + i] == cell[i] by {
        assert(line[start + i] == text[start + i]);
    }
    assert(line.subrange(start, start + cell.len()) =~= cell);
}

/// A table has a line for its headings and one for each row, in order, where no cell
/// holds a line break.
pub proof fn law_table_has_a_line_for_each_row(
    headers: Seq<Seq<char>>,
    rows: Seq<Seq<Seq<char>>>,
)
    requires
        !line_text(headers, all_widths(headers, rows)).contains('\n'),
        forall|i: int|
            0 <= i < rows.len() ==> !(line_text(
                #[trigger] rows[i],
                all_widths(headers, rows),
            )).contains('\n'),
    ensures
        ({
            let lines = split_on(table_text(headers, rows), '\n');
            let widths = all_widths(headers, rows);
            &&& lines.len() == rows.len() + 1
            &&& lines[0] == line_text(headers, widths)
            &&& forall|i: int|
                0 <= i < rows.len() ==> lines[i + 1] == line_text(#[trigger] rows[i], widths)
        }),
{
    reveal_strlit("\n");
    assert("\n"@ =~= seq!['\n']);
    let widths = all_widths(headers, rows);
    let lines = seq![line_text(headers, widths)] + Seq::new(
        rows.len(),
        |i: int| line_text(rows[i], widths),
    );
    assert forall|i: int| 0 <= i < lines.len() implies !(#[trigger] lines[i]).contains('\n') by {
        if i > 0 {
            assert(lines[i] == line_text(rows[i - 1], widths));
        }
    }
    lemma_split_on_joined(lines, '\n');
}

/// Trimming takes a character off an end where it is white space, and goes on; and
/// stops at any other.
pub proof fn law_trimming_takes_white_space_only(text: Seq<char>, c: char)
    ensures
        is_white(c) ==> trimmed_end(text.push(c)) == trimmed_end(text),
        is_white(c) ==> trimmed_start(seq![c] + text) == trimmed_start(text),
        !is_white(c) ==> trimmed_end(text.push(c)) == text.push(c),
        !is_white(c) ==> trimmed_start(seq![c] + text) == seq![c] + text,
{
    assert(text.push(c).drop_last() =~= text);
    assert((seq![c] + text).skip(1) =~= text);
}

/// The small letters, in order.
pub open spec fn small_letters() -> Seq<char> {
    seq![
        'a', 'b', 'c', 'd', 'e', 'f', 'g', 'h', 'i', 'j', 'k', 'l', 'm', 'n', 'o', 'p', 'q',
        'r', 's', 't', 'u', 'v', 'w', 'x', 'y', 'z',
    ]
}

/// The capital letters, in order.
pub open spec fn capital_letters() -> Seq<char> {
    seq![
        'A', 'B', 'C', 'D', 'E', 'F', 'G', 'H', 'I', 'J', 'K', 'L', 'M', 'N', 'O', 'P', 'Q',
        'R', 'S', 'T', 'U', 'V', 'W', 'X', 'Y', 'Z',
    ]
}

/// Capitals take the place of small letters, each of its own, and everything else
/// stays as it is.
pub proof fn law_capitals_take_the_place_of_small_letters(text: Seq<char>, place: int, letter: int)
    requires
        0 <= place < text.len(),
        0 <= letter < 26,
    ensures
        ascii_uppercase(text).len() == text.len(),
        text[place] == small_letters()[letter] ==> ascii_uppercase(text)[place]
            == capital_letters()[letter],
        !small_letters().contains(text[place]) ==> ascii_uppercase(text)[place] == text[place],
{
    let c = text[place];
    if 'a' <= c && c <= 'z' {
        let at = c as int - 'a' as int;
        assert(small_letters()[at] == c);
        assert(small_letters().contains(c));
    }
}

} // verus!
