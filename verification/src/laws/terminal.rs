//! What is drawn on a terminal: colours, and the progress line.

use vstd::prelude::*;

use crate::format::{exact_text, grouped};
use crate::k8s::quantity::Ratio;
use crate::progress::{clauses, fitted, line_text, phrases, readings, redrawn, Board, Outstanding};
use crate::text::{decimal_nat, joined, lemma_split_on_joined, lemma_trimmed_already};
use crate::theme::{
    background_of, bell, dark_theme, foreground_text, hex_digit, hex_value, is_channel,
    is_nonsense, light_theme, reply_of, rgb_text, says, terminator, wants_colour, Background,
    Channel, Color, ColourChoice, Palette, Reply, Severity, Theme,
};

verus! {

/// What was asked for decides about colour; where nothing was, a terminal has it, and
/// a pipe does not, nor a terminal that is dumb, nor anyone who set `NO_COLOR` to
/// something.
pub proof fn law_colour_is_for_terminals_that_want_it(
    terminal: bool,
    no_color: Option<Seq<char>>,
    term: Option<Seq<char>>,
)
    ensures
        wants_colour(ColourChoice::Always, terminal, no_color, term),
        !wants_colour(ColourChoice::Never, terminal, no_color, term),
        !wants_colour(ColourChoice::Auto, false, no_color, term),
        no_color is Some && no_color->0.len() > 0 ==> !wants_colour(
            ColourChoice::Auto,
            terminal,
            no_color,
            term,
        ),
        term is Some && term->0 == seq!['d', 'u', 'm', 'b'] ==> !wants_colour(
            ColourChoice::Auto,
            terminal,
            no_color,
            term,
        ),
        (no_color is None || no_color->0.len() == 0) && (term is None || term->0 != seq![
            'd',
            'u',
            'm',
            'b',
        ]) ==> wants_colour(ColourChoice::Auto, true, no_color, term),
{
    reveal_strlit("dumb");
    assert("dumb"@ =~= seq!['d', 'u', 'm', 'b']);
}

/// The last of the fields says what the background is: a number of the palette, of
/// which white and the bright colours are light, and the others dark; and what is no
/// such number says nothing.
pub proof fn law_last_field_says_the_background(fields: Seq<Seq<char>>, number: nat)
    requires
        forall|i: int| 0 <= i < fields.len() ==> !(#[trigger] fields[i]).contains(';'),
    ensures
        ({
            let value = joined(fields.push(decimal_nat(number)), seq![';']);
            background_of(Some(value)) == if number > 255 {
                None
            } else if number == 7 || number == 9 || number == 10 || number == 11 || number == 12
                || number == 13 || number == 14 || number == 15 {
                Some(Background::Light)
            } else {
                Some(Background::Dark)
            }
        }),
        background_of(None) is None,
{
    let last = decimal_nat(number);
    let all = fields.push(last);
    crate::text::lemma_decimal_reads_back(number);
    assert forall|i: int| 0 <= i < last.len() implies crate::text::is_digit(#[trigger] last[i])
        && last[i] != ';' by {
        assert(crate::text::is_digit(last[i]));
    }
    assert forall|i: int| 0 <= i < all.len() implies !(#[trigger] all[i]).contains(';') by {
        if i < fields.len() {
            assert(all[i] == fields[i]);
        } else {
            if last.contains(';') {
                assert(last[last.index_of(';')] == ';');
            }
        }
    }
    lemma_split_on_joined(all, ';');
    assert(crate::text::is_digit(last[0]));
    assert(crate::text::is_digit(last[last.len() - 1]));
    lemma_trimmed_already(last);
}

/// Where a colour stands among the sixteen that every terminal has.
pub open spec fn place_of(colour: Color) -> Option<nat> {
    match colour {
        Color::Black => Some(0),
        Color::Red => Some(1),
        Color::Green => Some(2),
        Color::Yellow => Some(3),
        Color::Blue => Some(4),
        Color::Magenta => Some(5),
        Color::Cyan => Some(6),
        Color::Gray => Some(7),
        Color::DarkGray => Some(8),
        Color::LightRed => Some(9),
        Color::LightGreen => Some(10),
        Color::LightYellow => Some(11),
        Color::LightBlue => Some(12),
        Color::LightMagenta => Some(13),
        Color::LightCyan => Some(14),
        Color::White => Some(15),
        _ => None,
    }
}

/// An escape sequence with these numbers in it.
pub open spec fn sequence_of(numbers: Seq<char>) -> Seq<char> {
    seq!['\x1b', '['] + numbers + seq!['m']
}

/// The sequence for each of the sixteen colours counts from thirty, and from ninety
/// for the bright ones; any other is given by its number, or its red, green and blue.
pub proof fn law_colours_have_their_sequence(colour: Color)
    ensures
        place_of(colour) matches Some(place) ==> foreground_text(colour) == Some(
            sequence_of(
                decimal_nat(
                    if place < 8 {
                        30 + place
                    } else {
                        82 + place
                    },
                ),
            ),
        ),
        colour matches Color::Indexed(index) ==> foreground_text(colour) == Some(
            sequence_of(seq!['3', '8', ';', '5', ';'] + decimal_nat(index as nat)),
        ),
        colour matches Color::Rgb(r, g, b) ==> foreground_text(colour) == Some(
            sequence_of(
                seq!['3', '8', ';', '2', ';'] + decimal_nat(r as nat) + seq![';'] + decimal_nat(
                    g as nat,
                ) + seq![';'] + decimal_nat(b as nat),
            ),
        ),
        colour is Reset ==> foreground_text(colour) is None,
{
    reveal_strlit("\x1b[");
    reveal_strlit("\x1b[38;2;");
    reveal_strlit("\x1b[38;5;");
    reveal_strlit(";");
    reveal_strlit("m");
    assert("\x1b["@ =~= seq!['\x1b', '[']);
    assert("m"@ =~= seq!['m']);
    assert(";"@ =~= seq![';']);
    assert("\x1b[38;2;"@ =~= seq!['\x1b', '['] + seq!['3', '8', ';', '2', ';']);
    assert("\x1b[38;5;"@ =~= seq!['\x1b', '['] + seq!['3', '8', ';', '5', ';']);
    match colour {
        Color::Rgb(r, g, b) => {
            assert(foreground_text(colour)->0 =~= sequence_of(
                seq!['3', '8', ';', '2', ';'] + decimal_nat(r as nat) + seq![';'] + decimal_nat(
                    g as nat,
                ) + seq![';'] + decimal_nat(b as nat),
            ));
        },
        Color::Indexed(index) => {
            assert(foreground_text(colour)->0 =~= sequence_of(
                seq!['3', '8', ';', '5', ';'] + decimal_nat(index as nat),
            ));
        },
        _ => {},
    }
}

/// A cell is painted in the colour of its severity, and the terminal's own comes back
/// behind it; calm cells and empty ones are left alone, and so is everything without
/// colour.
pub proof fn law_cells_are_painted_in_their_severity(theme: Theme, text: Seq<char>)
    ensures
        Palette::Plain.painted(text, Severity::Critical) == text,
        Palette::Plain.painted(text, Severity::Warn) == text,
        Palette::Plain.painted(text, Severity::Unknown) == text,
        Palette::Colour(theme).painted(text, Severity::Okay) == text,
        text.len() > 0 ==> Palette::Colour(theme).painted(text, Severity::Warn) == in_colour(
            theme.warning,
            text,
        ),
        text.len() > 0 ==> Palette::Colour(theme).painted(text, Severity::Critical) == in_colour(
            theme.danger,
            text,
        ),
        text.len() > 0 ==> Palette::Colour(theme).painted(text, Severity::Unknown) == in_colour(
            theme.muted,
            text,
        ),
        text.len() == 0 ==> Palette::Colour(theme).painted(text, Severity::Critical).len() == 0,
{
    reveal_strlit("\x1b[39m");
    assert("\x1b[39m"@ =~= seq!['\x1b', '[', '3', '9', 'm']);
}

/// A text in a colour, where the colour is not the terminal's own.
pub open spec fn in_colour(colour: Color, text: Seq<char>) -> Seq<char> {
    match foreground_text(colour) {
        Some(start) => start + text + seq!['\x1b', '[', '3', '9', 'm'],
        None => text,
    }
}

/// The hexadecimal digits, in order.
pub open spec fn digits_of_sixteen() -> Seq<char> {
    seq!['0', '1', '2', '3', '4', '5', '6', '7', '8', '9', 'a', 'b', 'c', 'd', 'e', 'f']
}

/// A channel counts in sixteens: a digit is its place among the sixteen, and one more
/// digit makes sixteen times as much and the digit. It is out of the largest number of
/// as many digits.
pub proof fn law_channels_count_in_sixteens(text: Seq<char>, place: int, value: int)
    requires
        0 <= place < 16,
        hex_value(text) == Some(value),
    ensures
        hex_value(text.push(digits_of_sixteen()[place])) == Some(16 * value + place),
        hex_value(seq![]) == Some(0int),
        forall|channel: Channel| #[trigger]
            is_channel(text, channel) ==> channel.value == value && 1 <= text.len() <= 4 && (
            text.len() == 1 ==> channel.max == 15) && (text.len() == 2 ==> channel.max == 255) && (
            text.len() == 3 ==> channel.max == 4_095) && (text.len() == 4 ==> channel.max
                == 65_535),
{
    let longer = text.push(digits_of_sixteen()[place]);
    assert(longer.drop_last() =~= text);
    let digit = digits_of_sixteen()[place];
    assert(hex_digit(digit) == Some(place));
}

/// The first channel of a colour is its red, the second its green, and the third its
/// blue.
pub proof fn law_channels_are_red_green_and_blue(
    red: Seq<char>,
    green: Seq<char>,
    blue: Seq<char>,
    ending: Seq<u8>,
    colour: Reply,
)
    requires
        !red.contains('/'),
        !green.contains('/'),
        !blue.contains('/'),
        ending == bell() || ending == terminator(),
    ensures
        says(reply_of(rgb_text(red, green, blue), ending), colour) <==> is_channel(red, colour.red)
            && is_channel(green, colour.green) && is_channel(blue, colour.blue),
{
    crate::theme::lemma_reply_text(rgb_text(red, green, blue), ending);
    crate::theme::lemma_rgb_channels(red, green, blue);
}

/// A reply that does not start as one, or does not end as one, says nothing.
pub proof fn law_other_replies_say_nothing(reply: Seq<u8>, colour: Reply)
    requires
        reply.len() < 5 || reply.take(5) != seq![0x1bu8, 0x5d, 0x31, 0x31, 0x3b] || (reply[
            reply.len() - 1
        ] != 0x07 && !(reply[reply.len() - 1] == 0x5c && reply[reply.len() - 2] == 0x1b)),
    ensures
        !says(reply, colour),
{
    let start = seq![0x1bu8, 0x5d, 0x31, 0x31, 0x3b];
    if start.is_prefix_of(reply) {
        assert(reply.take(5) =~= reply.subrange(0, 5));
        let body = reply.skip(5);
        if body.len() >= 1 {
            assert(body.last() == reply[reply.len() - 1]);
        }
        if body.len() >= 2 {
            assert(body[body.len() - 2] == reply[reply.len() - 2]);
        }
    }
}

/// Each severity has a colour of the theme to be drawn in.
pub proof fn law_severities_have_their_colour(theme: Theme)
    ensures
        theme.fill(Severity::Okay) == theme.success,
        theme.fill(Severity::Warn) == theme.warning,
        theme.fill(Severity::Critical) == theme.danger,
        theme.fill(Severity::Unknown) == theme.muted,
{
}

/// A share of nothing and a negative share say nothing, and every other says
/// something.
pub proof fn law_shares_of_something_say_something(ratio: Ratio)
    ensures
        ratio.whole > 0 && ratio.part >= 0 ==> !is_nonsense(ratio),
        ratio.whole <= 0 ==> is_nonsense(ratio),
        ratio.part < 0 ==> is_nonsense(ratio),
{
}

/// Both themes leave the background to the terminal and mark focus by the accent, and
/// no two severities look alike in either.
pub proof fn law_themes_tell_things_apart()
    ensures
        dark_theme().background is Reset,
        light_theme().background is Reset,
        dark_theme().border_focused == dark_theme().accent,
        light_theme().border_focused == light_theme().accent,
        dark_theme().border != dark_theme().border_focused,
        light_theme().border != light_theme().border_focused,
        dark_theme().success != dark_theme().warning,
        dark_theme().warning != dark_theme().danger,
        dark_theme().danger != dark_theme().success,
        light_theme().success != light_theme().warning,
        light_theme().warning != light_theme().danger,
        light_theme().danger != light_theme().success,
{
}

/// What a listing on its way is called: what it is of, with how many have landed
/// where any have.
pub open spec fn named(what: Seq<char>, read: Option<usize>) -> Seq<char> {
    if read is Some {
        grouped(read->0 as nat) + seq![' '] + what
    } else {
        what
    }
}

/// Steps that wait, each with its phrase.
pub open spec fn waiting(phrases: Seq<Seq<char>>) -> Seq<Outstanding> {
    Seq::new(phrases.len(), |i: int| Outstanding::Waiting(phrases[i]))
}

/// Steps that read, each with what, and how many.
pub open spec fn reading(lists: Seq<(Seq<char>, Option<usize>)>) -> Seq<Outstanding> {
    Seq::new(lists.len(), |i: int| Outstanding::Reading(lists[i].0, lists[i].1))
}

/// What each of these listings is called.
pub open spec fn each_named(lists: Seq<(Seq<char>, Option<usize>)>) -> Seq<Seq<char>> {
    Seq::new(lists.len(), |i: int| named(lists[i].0, lists[i].1))
}

/// How long a run has taken, once it has taken a second.
pub open spec fn elapsed_text(elapsed: nat) -> Seq<char> {
    if elapsed >= 1000 {
        seq![' '] + exact_text(elapsed / 1000)
    } else {
        seq![]
    }
}

proof fn lemma_parts(left: Seq<Outstanding>, right: Seq<Outstanding>)
    ensures
        phrases(left + right) == phrases(left) + phrases(right),
        readings(left + right) == readings(left) + readings(right),
    decreases right.len(),
{
    if right.len() == 0 {
        assert(left + right =~= left);
        assert(phrases(left) + phrases(right) =~= phrases(left));
        assert(readings(left) + readings(right) =~= readings(left));
    } else {
        lemma_parts(left, right.drop_last());
        assert((left + right).drop_last() =~= left + right.drop_last());
        assert(phrases(left + right) =~= phrases(left) + phrases(right));
        assert(readings(left + right) =~= readings(left) + readings(right));
    }
}

proof fn lemma_waiting(words: Seq<Seq<char>>)
    ensures
        phrases(waiting(words)) == words,
        readings(waiting(words)).len() == 0,
    decreases words.len(),
{
    if words.len() > 0 {
        lemma_waiting(words.drop_last());
        assert(waiting(words).drop_last() =~= waiting(words.drop_last()));
        assert(words.drop_last().push(words.last()) =~= words);
    } else {
        assert(phrases(waiting(words)) =~= words);
    }
}

proof fn lemma_reading(lists: Seq<(Seq<char>, Option<usize>)>)
    ensures
        readings(reading(lists)) == each_named(lists),
        phrases(reading(lists)).len() == 0,
    decreases lists.len(),
{
    reveal_strlit(" ");
    assert(" "@ =~= seq![' ']);
    if lists.len() > 0 {
        lemma_reading(lists.drop_last());
        assert(reading(lists).drop_last() =~= reading(lists.drop_last()));
        assert(readings(reading(lists)) =~= each_named(lists));
    } else {
        assert(readings(reading(lists)) =~= each_named(lists));
    }
}

/// The line names what is waited for, and then, behind the one word `reading`, every
/// listing on its way, each in the order it started; an ellipsis follows, and how
/// long it has taken, once that is a second. With nothing outstanding it is empty.
pub proof fn law_line_names_what_is_outstanding(
    words: Seq<Seq<char>>,
    lists: Seq<(Seq<char>, Option<usize>)>,
    elapsed: nat,
)
    ensures
        ({
            let line = line_text(waiting(words) + reading(lists), elapsed);
            let listed = "reading "@ + joined(each_named(lists), seq![',', ' ']);
            let end = seq!['…'] + elapsed_text(elapsed);
            &&& words.len() == 0 && lists.len() == 0 ==> line.len() == 0
            &&& words.len() > 0 && lists.len() == 0 ==> line == joined(words, seq![',', ' ']) + end
            &&& lists.len() > 0 ==> line == joined(words.push(listed), seq![',', ' ']) + end
        }),
{
    reveal_strlit(", ");
    assert(", "@ =~= seq![',', ' ']);
    let steps = waiting(words) + reading(lists);
    lemma_parts(waiting(words), reading(lists));
    lemma_waiting(words);
    lemma_reading(lists);
    assert(phrases(steps) =~= words);
    assert(readings(steps) =~= each_named(lists));
    let line = line_text(steps, elapsed);
    let end = seq!['…'] + elapsed_text(elapsed);
    if clauses(steps).len() > 0 {
        let said = joined(clauses(steps), seq![',', ' ']);
        assert(line =~= said + end);
    }
}

/// It makes no difference to the line in which order a step that waits and one that
/// reads started.
pub proof fn law_steps_of_two_kinds_pass_each_other(
    before: Seq<Outstanding>,
    phrase: Seq<char>,
    what: Seq<char>,
    read: Option<usize>,
    after: Seq<Outstanding>,
    elapsed: nat,
)
    ensures
        line_text(
            before + seq![Outstanding::Waiting(phrase)] + seq![Outstanding::Reading(what, read)]
                + after,
            elapsed,
        ) == line_text(
            before + seq![Outstanding::Reading(what, read)] + seq![Outstanding::Waiting(phrase)]
                + after,
            elapsed,
        ),
{
    let wait = seq![Outstanding::Waiting(phrase)];
    let list = seq![Outstanding::Reading(what, read)];
    lemma_parts(before + wait + list, after);
    lemma_parts(before + list + wait, after);
    lemma_parts(before + wait, list);
    lemma_parts(before + list, wait);
    lemma_parts(before, wait);
    lemma_parts(before, list);
    assert(wait =~= waiting(seq![phrase]));
    assert(list =~= reading(seq![(what, read)]));
    lemma_waiting(seq![phrase]);
    lemma_reading(seq![(what, read)]);
    let first = before + wait + list + after;
    let second = before + list + wait + after;
    assert(readings(wait) =~= seq![]);
    assert(phrases(list) =~= seq![]);
    assert(phrases(first) =~= phrases(second));
    assert(readings(first) =~= readings(second));
}

/// The clock runs from the first step of a run of activity: one that starts with
/// others outstanding leaves it as it is, and one that starts alone sets it.
pub proof fn law_clock_starts_with_the_first_step(
    board: Board,
    step: Outstanding,
    now: nat,
    later: nat,
)
    requires
        later >= now,
    ensures
        board.steps.len() == 0 ==> board.with(step, now).line_at(later) == line_text(
            seq![step],
            (later - now) as nat,
        ),
        board.steps.len() > 0 ==> board.with(step, now).since == board.since,
        board.with(step, now).steps.len() == board.steps.len() + 1,
        board.with(step, now).steps.last().1 == step,
        board.with(step, now).shown == board.shown,
{
    if board.steps.len() == 0 {
        assert(board.with(step, now).says() =~= seq![step]);
    }
}

/// What lands for a listing is added to what has landed for it, and changes no other
/// step.
pub proof fn law_landing_counts_for_its_own_step(board: Board, id: u64, by: nat, place: int)
    requires
        0 <= place < board.steps.len(),
    ensures
        ({
            let after = board.landed(id, by).steps;
            &&& after.len() == board.steps.len()
            &&& board.steps[place].0 != id ==> after[place] == board.steps[place]
            &&& board.steps[place].0 == id ==> match board.steps[place].1 {
                Outstanding::Waiting(phrase) => after[place] == board.steps[place],
                Outstanding::Reading(what, read) => {
                    let had: nat = if read is Some {
                        read->0 as nat
                    } else {
                        0
                    };
                    had + by <= usize::MAX ==> after[place] == (
                        id,
                        Outstanding::Reading(what, Some((had + by) as usize)),
                    )
                },
            }
        }),
{
}

/// A line that fits is shown as it is, and one that does not is cut to what does, its
/// last character saying so. What is written starts at the left margin and clears the
/// rest of the row.
pub proof fn law_cut_lines_say_so(line: Seq<char>, cols: nat)
    ensures
        cols >= 2 && line.len() >= cols ==> fitted(line, cols).len() == cols - 1 && fitted(
            line,
            cols,
        )[cols - 2] == '…' && forall|i: int|
            0 <= i < cols - 2 ==> #[trigger] fitted(line, cols)[i] == line[i],
        line.len() < cols ==> fitted(line, cols) == line,
        cols < 2 ==> fitted(line, cols).len() == 0,
        redrawn(line, cols) == seq!['\r'] + fitted(line, cols) + seq!['\x1b', '[', 'K'],
{
    reveal_strlit("\r");
    reveal_strlit("\x1b[K");
    assert("\r"@ =~= seq!['\r']);
    assert("\x1b[K"@ =~= seq!['\x1b', '[', 'K']);
}

} // verus!
