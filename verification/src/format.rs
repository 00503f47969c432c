//! Numbers, durations and tables, as a person reads them.

use vstd::arithmetic::div_mod::lemma_fundamental_div_mod;
use vstd::prelude::*;
use vstd::string::*;

use crate::k8s::quantity::{lemma_nearest, nearest, Ratio};
use crate::text;
use crate::text::{decimal, decimal_nat, digit_char, joined, repeated, texts, trimmed_end};

verus! {

/// How wide a table may be.
#[derive(Debug, Clone, Copy, PartialEq, Eq, Structural)]
pub enum Width {
    /// The usual columns, however wide they come out.
    Default,
    /// The extra columns too.
    Wide,
    /// The usual columns, dropping some until a row fits this many characters.
    Narrow(u16),
}

impl Width {
    /// Whether the extra columns were asked for.
    #[must_use]
    pub fn is_wide(self) -> (answer: bool)
        ensures
            answer == (self is Wide),
    {
        matches!(self, Width::Wide)
    }

    /// The width for a terminal of this many columns, if it is a terminal.
    /// Asking for the extra columns outranks fitting the terminal.
    #[must_use]
    pub fn for_terminal(wide: bool, columns: Option<u16>) -> (width: Width)
        ensures
            width == if wide {
                Width::Wide
            } else {
                match columns {
                    Some(columns) => Width::Narrow(columns),
                    None => Width::Default,
                }
            },
    {
        if wide {
            return Width::Wide;
        }
        match columns {
            Some(columns) => Width::Narrow(columns),
            None => Width::Default,
        }
    }
}

/// An amount of a unit, and an amount of a smaller one where there is any.
pub open spec fn two_units(
    large: int,
    large_unit: Seq<char>,
    small: int,
    small_unit: Seq<char>,
) -> Seq<char> {
    if small == 0 {
        decimal(large) + large_unit
    } else {
        decimal(large) + large_unit + (decimal(small) + small_unit)
    }
}

/// How [`human_duration`] writes a number of seconds.
pub open spec fn duration_text(seconds: int) -> Seq<char> {
    let minutes = seconds / 60;
    let hours = seconds / 3600;
    let days = hours / 24;
    if seconds < 0 {
        "0s"@
    } else if seconds < 120 {
        decimal(seconds) + "s"@
    } else if minutes < 10 {
        two_units(minutes, "m"@, seconds % 60, "s"@)
    } else if minutes < 180 {
        decimal(minutes) + "m"@
    } else if hours < 8 {
        two_units(hours, "h"@, minutes % 60, "m"@)
    } else if hours < 48 {
        decimal(hours) + "h"@
    } else if hours < 192 {
        two_units(days, "d"@, hours % 24, "h"@)
    } else if days < 730 {
        decimal(days) + "d"@
    } else if days < 2920 {
        two_units(days / 365, "y"@, days % 365, "d"@)
    } else {
        decimal(days / 365) + "y"@
    }
}

fn show_two_units(large: i128, large_unit: &str, small: i128, small_unit: &str) -> (text: String)
    ensures
        text@ == two_units(large as int, large_unit@, small as int, small_unit@),
{
    let text = text::show_integer(large).concat(large_unit);
    if small == 0 {
        text
    } else {
        text.concat(text::show_integer(small).concat(small_unit).as_str())
    }
}

/// A duration the way `kubectl` writes an age: two units while the smaller one
/// still matters, one after that. One that is still to come reads as none.
#[must_use]
pub fn human_duration(seconds: i128) -> (text: String)
    ensures
        text@ == duration_text(seconds as int),
{
    if seconds < 0 {
        return "0s".to_owned();
    }
    let minutes: i128 = seconds / 60;
    let hours: i128 = seconds / 3600;
    let days: i128 = hours / 24;
    if seconds < 120 {
        text::show_integer(seconds).concat("s")
    } else if minutes < 10 {
        show_two_units(minutes, "m", seconds % 60, "s")
    } else if minutes < 180 {
        text::show_integer(minutes).concat("m")
    } else if hours < 8 {
        show_two_units(hours, "h", minutes % 60, "m")
    } else if hours < 48 {
        text::show_integer(hours).concat("h")
    } else if hours < 192 {
        show_two_units(days, "d", hours % 24, "h")
    } else if days < 730 {
        text::show_integer(days).concat("d")
    } else if days < 2920 {
        show_two_units(days / 365, "y", days % 365, "d")
    } else {
        text::show_integer(days / 365).concat("y")
    }
}

/// How [`exact_duration`] writes a number of seconds.
pub open spec fn exact_text(seconds: nat) -> Seq<char> {
    if seconds > 0 && seconds % 3600 == 0 {
        decimal_nat(seconds / 3600) + "h"@
    } else if seconds > 0 && seconds % 60 == 0 {
        decimal_nat(seconds / 60) + "m"@
    } else {
        decimal_nat(seconds) + "s"@
    }
}

/// A duration in the largest unit that leaves nothing over, so that nothing is
/// rounded: `1m`, `90s`.
#[must_use]
pub fn exact_duration(seconds: u64) -> (text: String)
    ensures
        text@ == exact_text(seconds as nat),
{
    if seconds > 0 && seconds % 3600 == 0 {
        text::show_natural((seconds / 3600) as u128).concat("h")
    } else if seconds > 0 && seconds % 60 == 0 {
        text::show_natural((seconds / 60) as u128).concat("m")
    } else {
        text::show_natural(seconds as u128).concat("s")
    }
}

/// Three digits of a number below a thousand.
pub open spec fn three_digits(number: nat) -> Seq<char> {
    seq![
        digit_char((number / 100) as int),
        digit_char((number / 10 % 10) as int),
        digit_char((number % 10) as int),
    ]
}

/// A number with its digits in groups of three: `12,000`.
pub open spec fn grouped(number: nat) -> Seq<char>
    decreases number,
{
    if number < 1000 {
        decimal_nat(number)
    } else {
        grouped(number / 1000) + ","@ + three_digits(number % 1000)
    }
}

/// A number with its digits in groups of three.
fn show_grouped(number: u128) -> (text: String)
    ensures
        text@ == grouped(number as nat),
    decreases number,
{
    if number < 1000 {
        return text::show_natural(number);
    }
    let mut text = show_grouped(number / 1000).concat(",");
    let rest: u128 = number % 1000;
    let ghost before = text@;
    text.append(text::show_natural(rest / 100).as_str());
    text.append(text::show_natural(rest / 10 % 10).as_str());
    text.append(text::show_natural(rest % 10).as_str());
    assert(text@ =~= before + three_digits(rest as nat));
    text
}

/// A count, its digits in groups of three: `1,500`.
#[must_use]
pub fn count(number: usize) -> (text: String)
    ensures
        text@ == grouped(number as nat),
{
    show_grouped(number as u128)
}

/// How many times `whole` goes into `times * part`, and what is left over.
pub(crate) fn share(part: u128, whole: u128, times: u128) -> (split: (u128, u128))
    requires
        part < whole <= 170141183460469231731687303715884105727,
    ensures
        times * part == split.0 * whole + split.1,
        split.1 < whole,
        split.0 <= times,
{
    let mut quotient: u128 = 0;
    let mut left: u128 = 0;
    let mut done: u128 = 0;
    assert(0 * part == 0 && 0 * whole == 0) by (nonlinear_arith);
    while done < times
        invariant
            part < whole <= 170141183460469231731687303715884105727,
            done <= times,
            quotient <= done,
            left < whole,
            done * part == quotient * whole + left,
        decreases times - done,
    {
        assert((done + 1) * part == done * part + part) by (nonlinear_arith);
        assert((quotient + 1) * whole == quotient * whole + whole) by (nonlinear_arith);
        left = left + part;
        if left >= whole {
            left = left - whole;
            quotient = quotient + 1;
        }
        done = done + 1;
    }
    (quotient, left)
}

/// How [`percentage`] writes a ratio.
pub open spec fn percentage_text(ratio: Ratio) -> Seq<char> {
    decimal(nearest(100 * ratio.part, ratio.whole as int)) + "%"@
}

/// A whole number of hundreds and what is below a hundred, in decimal.
fn show_hundreds(hundreds: u128, rest: u128) -> (text: String)
    requires
        rest < 100,
    ensures
        text@ == decimal_nat(hundreds as nat * 100 + rest as nat),
{
    let ghost number = hundreds as nat * 100 + rest as nat;
    if hundreds == 0 {
        return text::show_natural(rest);
    }
    let mut text = text::show_natural(hundreds);
    text.append(text::show_natural(rest / 10).as_str());
    text.append(text::show_natural(rest % 10).as_str());
    proof {
        assert(number / 10 == hundreds * 10 + rest / 10);
        assert(number / 10 / 10 == hundreds);
        assert(number / 10 % 10 == rest / 10);
        assert(number % 10 == rest % 10);
        assert(decimal_nat((rest / 10) as nat) =~= seq![digit_char((rest / 10) as int)]);
        assert(decimal_nat((rest % 10) as nat) =~= seq![digit_char((rest % 10) as int)]);
        assert(decimal_nat(number) == decimal_nat(number / 10).push(
            digit_char((number % 10) as int),
        ));
        assert(decimal_nat(number / 10) == decimal_nat(number / 10 / 10).push(
            digit_char((number / 10 % 10) as int),
        ));
        assert(text@ =~= decimal_nat(number));
    }
    text
}

/// A share of a whole as a whole number of percent, to the nearest.
#[must_use]
pub fn percentage(ratio: Ratio) -> (text: String)
    requires
        ratio.whole > 0,
    ensures
        text@ == percentage_text(ratio),
{
    let whole: u128 = ratio.whole as u128;
    let negative = ratio.part < 0;
    let part: u128 = if ratio.part == i128::MIN {
        170141183460469231731687303715884105728
    } else if negative {
        (-ratio.part) as u128
    } else {
        ratio.part as u128
    };
    let quotient: u128 = part / whole;
    let remainder: u128 = part % whole;
    let (below, left) = share(remainder, whole, 100);
    let up = left >= whole - left;
    let percent: u128 = if up {
        below + 1
    } else {
        below
    };
    let ghost exact = quotient * 100 + percent;
    proof {
        let p = part as int;
        let w = whole as int;
        let q = quotient as int;
        let r = remainder as int;
        let b = below as int;
        let l = left as int;
        lemma_fundamental_div_mod(p, w);
        assert(100 * p == w * (100 * q + b) + l) by (nonlinear_arith)
            requires
                p == w * q + r,
                100 * r == b * w + l,
        ;
        lemma_nearest(100 * p, w, 100 * q + b, l);
        assert(exact == nearest(100 * p, w));
        assert(q <= p) by (nonlinear_arith)
            requires
                p == w * q + r,
                w >= 1,
                q >= 0,
                r >= 0,
        ;
        assert(b < 100) by (nonlinear_arith)
            requires
                100 * r == b * w + l,
                0 <= r < w,
                0 <= l,
        ;
    }
    let magnitude = if percent == 100 {
        show_hundreds(quotient + 1, 0)
    } else {
        show_hundreds(quotient, percent)
    };
    assert(magnitude@ == decimal_nat(exact as nat));
    if negative && !(quotient == 0 && percent == 0) {
        let text = "-".to_owned().concat(magnitude.as_str());
        proof {
            reveal_strlit("-");
            assert(text@ =~= decimal(-(exact as int)));
        }
        text.concat("%")
    } else {
        magnitude.concat("%")
    }
}

/// The text of one cell, empty where a row is too short to have it.
pub open spec fn cell_text(row: Seq<Seq<char>>, column: int) -> Seq<char> {
    if 0 <= column < row.len() {
        row[column]
    } else {
        seq![]
    }
}

/// The larger of two numbers.
pub open spec fn at_least(left: nat, right: nat) -> nat {
    if left < right {
        right
    } else {
        left
    }
}

/// How wide one column is: as wide as its widest cell, the heading included.
pub open spec fn column_width(headers: Seq<Seq<char>>, rows: Seq<Seq<Seq<char>>>, column: int) -> nat
    decreases rows.len(),
{
    if rows.len() == 0 {
        headers[column].len()
    } else {
        at_least(
            column_width(headers, rows.drop_last(), column),
            cell_text(rows.last(), column).len(),
        )
    }
}

/// How wide a row of columns of these widths is: two spaces stand between
/// neighbours.
pub open spec fn total_width(widths: Seq<nat>) -> nat
    decreases widths.len(),
{
    if widths.len() == 0 {
        0
    } else if widths.len() == 1 {
        widths[0]
    } else {
        total_width(widths.drop_last()) + 2 + widths.last()
    }
}

/// A cell, padded with spaces to the width of its column.
pub open spec fn padded(cell: Seq<char>, width: nat) -> Seq<char> {
    if cell.len() < width {
        cell + repeated(' ', (width - cell.len()) as nat)
    } else {
        cell
    }
}

/// One line of a table: each cell padded to its column, two spaces between
/// neighbours, and no spaces at the end.
pub open spec fn line_text(row: Seq<Seq<char>>, widths: Seq<nat>) -> Seq<char> {
    trimmed_end(
        joined(
            Seq::new(widths.len(), |i: int| padded(cell_text(row, i), widths[i])),
            "  "@,
        ),
    )
}

/// The width of every column.
pub open spec fn all_widths(headers: Seq<Seq<char>>, rows: Seq<Seq<Seq<char>>>) -> Seq<nat> {
    Seq::new(headers.len(), |i: int| column_width(headers, rows, i))
}

/// A table: the headings, then a line for each row.
pub open spec fn table_text(headers: Seq<Seq<char>>, rows: Seq<Seq<Seq<char>>>) -> Seq<char> {
    let widths = all_widths(headers, rows);
    joined(
        seq![line_text(headers, widths)] + Seq::new(
            rows.len(),
            |i: int| line_text(rows[i], widths),
        ),
        "\n"@,
    )
}

/// What the headings say.
pub open spec fn headings(headers: Seq<&str>) -> Seq<Seq<char>> {
    Seq::new(headers.len(), |i: int| headers[i]@)
}

/// What the cells of each row say.
pub open spec fn grid(rows: Seq<Vec<String>>) -> Seq<Seq<Seq<char>>> {
    Seq::new(rows.len(), |i: int| texts(rows[i]@))
}

/// Widths as numbers.
pub open spec fn as_numbers(widths: Seq<usize>) -> Seq<nat> {
    Seq::new(widths.len(), |i: int| widths[i] as nat)
}

/// How wide each column of a table will be.
#[must_use]
pub fn column_widths(headers: &[&str], cells: &[Vec<String>]) -> (widths: Vec<usize>)
    ensures
        as_numbers(widths@) == all_widths(headings(headers@), grid(cells@)),
{
    let mut widths: Vec<usize> = Vec::new();
    let ghost names = headings(headers@);
    let ghost rows = grid(cells@);
    let mut column: usize = 0;
    while column < headers.len()
        invariant
            names == headings(headers@),
            rows == grid(cells@),
            column <= headers@.len(),
            widths@.len() == column,
            forall|i: int| 0 <= i < column ==> #[trigger] widths@[i] == column_width(names, rows, i),
        decreases headers@.len() - column,
    {
        let mut width: usize = headers[column].unicode_len();
        let mut row: usize = 0;
        while row < cells.len()
            invariant
                rows == grid(cells@),
                row <= cells@.len(),
                width == column_width(names, rows.take(row as int), column as int),
            decreases cells@.len() - row,
        {
            let ghost upto = rows.take(row + 1);
            assert(upto.drop_last() =~= rows.take(row as int));
            assert(upto.last() == texts(cells@[row as int]@));
            if column < cells[row].len() {
                let length = cells[row][column].as_str().unicode_len();
                assert(length == cell_text(texts(cells@[row as int]@), column as int).len());
                if length > width {
                    width = length;
                }
            }
            row = row + 1;
        }
        assert(rows.take(row as int) =~= rows);
        widths.push(width);
        column = column + 1;
    }
    assert(as_numbers(widths@) =~= all_widths(names, rows));
    widths
}

/// How wide a row of columns of these widths is. Pins at the largest number
/// there is.
#[must_use]
pub fn row_width(widths: &[usize]) -> (width: usize)
    ensures
        width == if total_width(as_numbers(widths@)) > usize::MAX {
            usize::MAX as nat
        } else {
            total_width(as_numbers(widths@))
        },
{
    let mut total: usize = 0;
    let mut i: usize = 0;
    let ghost numbers = as_numbers(widths@);
    while i < widths.len()
        invariant
            i <= widths@.len(),
            numbers == as_numbers(widths@),
            total == if total_width(numbers.take(i as int)) > usize::MAX {
                usize::MAX as nat
            } else {
                total_width(numbers.take(i as int))
            },
        decreases widths@.len() - i,
    {
        assert(numbers.take(i + 1).drop_last() =~= numbers.take(i as int));
        if i > 0 {
            total = total.saturating_add(2);
        }
        total = total.saturating_add(widths[i]);
        i = i + 1;
    }
    assert(numbers.take(i as int) =~= numbers);
    total
}

fn pad(cell: &str, width: usize) -> (padded_cell: String)
    ensures
        padded_cell@ == padded(cell@, width as nat),
{
    let length = cell.unicode_len();
    let mut text = cell.to_owned();
    let mut done: usize = length;
    while done < width
        invariant
            length == cell@.len(),
            length <= done,
            done <= width || done == length,
            text@ == cell@ + repeated(' ', (done - length) as nat),
        decreases width - done,
    {
        text.push(' ');
        done = done + 1;
        assert(text@ =~= cell@ + repeated(' ', (done - length) as nat));
    }
    assert(text@ =~= padded(cell@, width as nat));
    text
}

/// Trim the white space off the end.
fn trim_end(text: &str) -> (inner: &str)
    ensures
        inner@ == trimmed_end(text@),
{
    let chars = text::chars_of(text);
    let mut end: usize = chars.len();
    assert(text@.take(end as int) =~= text@);
    while end > 0 && text::white(chars[end - 1])
        invariant
            chars@ == text@,
            end <= chars@.len(),
            trimmed_end(text@.take(end as int)) == trimmed_end(text@),
        decreases end,
    {
        assert(text@.take(end as int).drop_last() =~= text@.take(end - 1));
        end = end - 1;
    }
    assert(text@.subrange(0, end as int) =~= text@.take(end as int));
    text.substring_char(0, end)
}

fn header_line(headers: &[&str], widths: &[usize]) -> (line: String)
    requires
        headers@.len() == widths@.len(),
    ensures
        line@ == line_text(headings(headers@), as_numbers(widths@)),
{
    let mut cells: Vec<String> = Vec::new();
    let ghost wanted = Seq::new(
        widths@.len(),
        |i: int| padded(cell_text(headings(headers@), i), as_numbers(widths@)[i]),
    );
    let mut i: usize = 0;
    while i < widths.len()
        invariant
            headers@.len() == widths@.len(),
            i <= widths@.len(),
            wanted == Seq::new(
                widths@.len(),
                |i: int| padded(cell_text(headings(headers@), i), as_numbers(widths@)[i]),
            ),
            cells@.len() == i,
            forall|j: int| 0 <= j < i ==> (#[trigger] cells@[j])@ == wanted[j],
        decreases widths@.len() - i,
    {
        cells.push(pad(headers[i], widths[i]));
        i = i + 1;
    }
    let whole = text::join(&cells, "  ");
    assert(texts(cells@) =~= wanted);
    assert(wanted =~= Seq::new(
        as_numbers(widths@).len(),
        |i: int| padded(cell_text(headings(headers@), i), as_numbers(widths@)[i]),
    ));
    trim_end(whole.as_str()).to_owned()
}

fn row_line(row: &[String], widths: &[usize]) -> (line: String)
    ensures
        line@ == line_text(texts(row@), as_numbers(widths@)),
{
    let mut cells: Vec<String> = Vec::new();
    let ghost wanted = Seq::new(
        as_numbers(widths@).len(),
        |i: int| padded(cell_text(texts(row@), i), as_numbers(widths@)[i]),
    );
    let mut i: usize = 0;
    while i < widths.len()
        invariant
            i <= widths@.len(),
            wanted == Seq::new(
                as_numbers(widths@).len(),
                |i: int| padded(cell_text(texts(row@), i), as_numbers(widths@)[i]),
            ),
            cells@.len() == i,
            forall|j: int| 0 <= j < i ==> (#[trigger] cells@[j])@ == wanted[j],
        decreases widths@.len() - i,
    {
        if i < row.len() {
            cells.push(pad(row[i].as_str(), widths[i]));
        } else {
            let blank = pad("", widths[i]);
            proof {
                reveal_strlit("");
                assert(""@ =~= seq![]);
            }
            cells.push(blank);
        }
        i = i + 1;
    }
    let whole = text::join(&cells, "  ");
    assert(texts(cells@) =~= wanted);
    trim_end(whole.as_str()).to_owned()
}

/// A table of text: headings, then rows, the columns lined up.
#[must_use]
pub fn table(headers: &[&str], cells: &[Vec<String>]) -> (text: String)
    ensures
        text@ == table_text(headings(headers@), grid(cells@)),
{
    let widths = column_widths(headers, cells);
    let ghost names = headings(headers@);
    let ghost rows = grid(cells@);
    let ghost numbers = all_widths(names, rows);
    assert(widths@.len() == as_numbers(widths@).len());
    let mut lines: Vec<String> = Vec::new();
    lines.push(header_line(headers, &widths));
    let mut i: usize = 0;
    while i < cells.len()
        invariant
            rows == grid(cells@),
            numbers == as_numbers(widths@),
            i <= cells@.len(),
            lines@.len() == i + 1,
            lines@[0]@ == line_text(names, numbers),
            forall|j: int| 0 <= j < i ==> (#[trigger] lines@[j + 1])@ == line_text(rows[j], numbers),
        decreases cells@.len() - i,
    {
        lines.push(row_line(&cells[i], &widths));
        i = i + 1;
    }
    let ghost wanted = seq![line_text(names, numbers)] + Seq::new(
        rows.len(),
        |i: int| line_text(rows[i], numbers),
    );
    assert forall|j: int| 0 <= j < wanted.len() implies texts(lines@)[j] == wanted[j] by {
        if j > 0 {
            let before = j - 1;
            assert(lines@[before + 1]@ == line_text(rows[before], numbers));
        }
    }
    assert(texts(lines@) =~= wanted);
    text::join(&lines, "\n")
}

proof fn lemma_joined_width(parts: Seq<Seq<char>>, widths: Seq<nat>)
    requires
        parts.len() == widths.len(),
        forall|i: int| 0 <= i < parts.len() ==> (#[trigger] parts[i]).len() == widths[i],
    ensures
        joined(parts, "  "@).len() == total_width(widths),
    decreases parts.len(),
{
    reveal_strlit("  ");
    if parts.len() > 1 {
        assert forall|i: int| 0 <= i < parts.drop_last().len() implies (
        #[trigger] parts.drop_last()[i]).len() == widths.drop_last()[i] by {
            assert(parts.drop_last()[i] == parts[i]);
        }
        lemma_joined_width(parts.drop_last(), widths.drop_last());
        assert(parts.last().len() == widths.last()) by {
            assert(parts[parts.len() - 1].len() == widths[widths.len() - 1]);
        }
    } else if parts.len() == 1 {
        assert(parts[0].len() == widths[0]);
    }
}

/// A line whose cells fit their columns is no wider than the columns together.
pub proof fn law_line_fits_its_columns(row: Seq<Seq<char>>, widths: Seq<nat>)
    requires
        forall|i: int|
            0 <= i < widths.len() ==> cell_text(row, i).len() <= #[trigger] widths[i],
    ensures
        line_text(row, widths).len() <= total_width(widths),
{
    let parts = Seq::new(widths.len(), |i: int| padded(cell_text(row, i), widths[i]));
    assert forall|i: int| 0 <= i < parts.len() implies (#[trigger] parts[i]).len() == widths[i] by {
        assert(cell_text(row, i).len() <= widths[i]);
    }
    lemma_joined_width(parts, widths);
    text::lemma_trimmed_end(joined(parts, "  "@));
}

proof fn lemma_column_holds_its_cells(
    headers: Seq<Seq<char>>,
    rows: Seq<Seq<Seq<char>>>,
    column: int,
    row: int,
)
    requires
        0 <= column < headers.len(),
    ensures
        headers[column].len() <= column_width(headers, rows, column),
        0 <= row < rows.len() ==> cell_text(rows[row], column).len() <= column_width(
            headers,
            rows,
            column,
        ),
    decreases rows.len(),
{
    if rows.len() > 0 {
        lemma_column_holds_its_cells(headers, rows.drop_last(), column, row);
    }
}

/// No line of a table is wider than its columns together: what a layout was
/// measured at is what is printed.
pub proof fn law_table_is_as_wide_as_measured(
    headers: Seq<Seq<char>>,
    rows: Seq<Seq<Seq<char>>>,
    row: int,
)
    ensures
        line_text(headers, all_widths(headers, rows)).len() <= total_width(
            all_widths(headers, rows),
        ),
        0 <= row < rows.len() ==> line_text(rows[row], all_widths(headers, rows)).len()
            <= total_width(all_widths(headers, rows)),
{
    let widths = all_widths(headers, rows);
    assert forall|i: int| 0 <= i < widths.len() implies cell_text(headers, i).len()
        <= #[trigger] widths[i] by {
        lemma_column_holds_its_cells(headers, rows, i, row);
    }
    law_line_fits_its_columns(headers, widths);
    if 0 <= row < rows.len() {
        assert forall|i: int| 0 <= i < widths.len() implies cell_text(rows[row], i).len()
            <= #[trigger] widths[i] by {
            lemma_column_holds_its_cells(headers, rows, i, row);
        }
        law_line_fits_its_columns(rows[row], widths);
    }
}

} // verus!
