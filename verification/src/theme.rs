//! The colour palette, in one place: what the colours are, and when they are
//! used.
//!
//! Asking the terminal and the environment belongs to the program around this
//! library. Everything here is a function of the answers.

use vstd::prelude::*;
use vstd::string::*;

use crate::k8s::quantity::Ratio;
use crate::text;
use crate::text::{
    decimal_nat, joined, lemma_split_on_joined, repeated, small_number_of, split_on, texts, trimmed,
};

verus! {

/// A colour a terminal can show.
#[derive(Debug, Clone, Copy, PartialEq, Eq, Structural)]
pub enum Color {
    /// Whatever the terminal was already using.
    Reset,
    Black,
    Red,
    Green,
    Yellow,
    Blue,
    Magenta,
    Cyan,
    /// Plain white.
    Gray,
    /// Bright black.
    DarkGray,
    LightRed,
    LightGreen,
    LightYellow,
    LightBlue,
    LightMagenta,
    LightCyan,
    White,
    /// Red, green and blue.
    Rgb(u8, u8, u8),
    /// An entry of the terminal's palette.
    Indexed(u8),
}

/// How a piece of text is drawn. A colour that is not there is left as it is.
#[derive(Debug, Clone, Copy, PartialEq, Eq, Structural)]
pub struct Style {
    pub fg: Option<Color>,
    pub bg: Option<Color>,
    pub bold: bool,
    pub underlined: bool,
}

/// A style that sets the foreground and nothing else.
pub open spec fn ink(colour: Color) -> Style {
    Style { fg: Some(colour), bg: None, bold: false, underlined: false }
}

/// A complete set of colours for the interface.
#[derive(Debug, Clone, Copy, PartialEq, Eq, Structural)]
pub struct Theme {
    pub background: Color,
    pub text: Color,
    /// De-emphasised text: units, hints, secondary columns.
    pub muted: Color,
    /// The single hue that carries identity and focus.
    pub accent: Color,
    pub border: Color,
    pub border_focused: Color,
    pub success: Color,
    pub warning: Color,
    pub danger: Color,
    pub selection_bg: Color,
}

/// The colours of [`Theme::dark`].
pub open spec fn dark_theme() -> Theme {
    Theme {
        background: Color::Reset,
        text: Color::Rgb(0xE6, 0xE6, 0xE6),
        muted: Color::Rgb(0x8A, 0x8F, 0x98),
        accent: Color::Rgb(0x56, 0xB6, 0xC2),
        border: Color::Rgb(0x3A, 0x3F, 0x4B),
        border_focused: Color::Rgb(0x56, 0xB6, 0xC2),
        success: Color::Rgb(0x7E, 0xC6, 0x99),
        warning: Color::Rgb(0xE5, 0xC0, 0x7B),
        danger: Color::Rgb(0xE0, 0x6C, 0x75),
        selection_bg: Color::Rgb(0x2C, 0x31, 0x3C),
    }
}

/// The colours of [`Theme::light`].
pub open spec fn light_theme() -> Theme {
    Theme {
        background: Color::Reset,
        text: Color::Rgb(0x1F, 0x23, 0x28),
        muted: Color::Rgb(0x65, 0x6D, 0x76),
        accent: Color::Rgb(0x0B, 0x72, 0x85),
        border: Color::Rgb(0xD1, 0xD5, 0xDA),
        border_focused: Color::Rgb(0x0B, 0x72, 0x85),
        success: Color::Rgb(0x1A, 0x7F, 0x37),
        warning: Color::Rgb(0x9A, 0x67, 0x00),
        danger: Color::Rgb(0xCF, 0x22, 0x2E),
        selection_bg: Color::Rgb(0xE9, 0xEC, 0xEF),
    }
}

/// The colours for a terminal whose background reads as `background`.
pub open spec fn theme_on(background: Background) -> Theme {
    match background {
        Background::Dark => dark_theme(),
        Background::Light => light_theme(),
    }
}

impl Theme {
    /// The default dark theme, tuned for readability on a dark terminal.
    #[must_use]
    pub fn dark() -> (theme: Self)
        ensures
            theme == dark_theme(),
    {
        Theme {
            background: Color::Reset,
            text: Color::Rgb(0xE6, 0xE6, 0xE6),
            muted: Color::Rgb(0x8A, 0x8F, 0x98),
            accent: Color::Rgb(0x56, 0xB6, 0xC2),
            border: Color::Rgb(0x3A, 0x3F, 0x4B),
            border_focused: Color::Rgb(0x56, 0xB6, 0xC2),
            success: Color::Rgb(0x7E, 0xC6, 0x99),
            warning: Color::Rgb(0xE5, 0xC0, 0x7B),
            danger: Color::Rgb(0xE0, 0x6C, 0x75),
            selection_bg: Color::Rgb(0x2C, 0x31, 0x3C),
        }
    }

    /// The light theme, tuned for readability on a light terminal. A pastel that
    /// reads fine on black turns nearly invisible on white, so this is a second
    /// palette chosen against the opposite background.
    #[must_use]
    pub fn light() -> (theme: Self)
        ensures
            theme == light_theme(),
    {
        Theme {
            background: Color::Reset,
            text: Color::Rgb(0x1F, 0x23, 0x28),
            muted: Color::Rgb(0x65, 0x6D, 0x76),
            accent: Color::Rgb(0x0B, 0x72, 0x85),
            border: Color::Rgb(0xD1, 0xD5, 0xDA),
            border_focused: Color::Rgb(0x0B, 0x72, 0x85),
            success: Color::Rgb(0x1A, 0x7F, 0x37),
            warning: Color::Rgb(0x9A, 0x67, 0x00),
            danger: Color::Rgb(0xCF, 0x22, 0x2E),
            selection_bg: Color::Rgb(0xE9, 0xEC, 0xEF),
        }
    }

    /// The theme tuned for a terminal whose background reads as `background`.
    #[must_use]
    pub fn for_background(background: Background) -> (theme: Self)
        ensures
            theme == theme_on(background),
    {
        match background {
            Background::Dark => Theme::dark(),
            Background::Light => Theme::light(),
        }
    }

    /// Body text.
    #[must_use]
    pub fn body(self) -> (style: Style)
        ensures
            style == ink(self.text),
    {
        Style { fg: Some(self.text), bg: None, bold: false, underlined: false }
    }

    /// Secondary text, never the thing the eye should land on first.
    #[must_use]
    pub fn dim(self) -> (style: Style)
        ensures
            style == ink(self.muted),
    {
        Style { fg: Some(self.muted), bg: None, bold: false, underlined: false }
    }

    /// Headings and the active context indicator.
    #[must_use]
    pub fn heading(self) -> (style: Style)
        ensures
            style == (Style { bold: true, ..ink(self.accent) }),
    {
        Style { fg: Some(self.accent), bg: None, bold: true, underlined: false }
    }

    /// The highlighted row in a list or table.
    #[must_use]
    pub fn selected(self) -> (style: Style)
        ensures
            style == (Style { bg: Some(self.selection_bg), bold: true, ..ink(self.text) }),
    {
        Style { fg: Some(self.text), bg: Some(self.selection_bg), bold: true, underlined: false }
    }

    /// A substring a search has matched. The colour of [`Self::heading`], with
    /// the underline as the one thing that tells the two apart at a glance.
    #[must_use]
    pub fn match_highlight(self) -> (style: Style)
        ensures
            style == (Style { bold: true, underlined: true, ..ink(self.accent) }),
    {
        Style { fg: Some(self.accent), bg: None, bold: true, underlined: true }
    }

    /// Border style for a pane, varying with focus.
    #[must_use]
    pub fn pane_border(self, focused: bool) -> (style: Style)
        ensures
            style == ink(
                if focused {
                    self.border_focused
                } else {
                    self.border
                },
            ),
    {
        let colour = if focused {
            self.border_focused
        } else {
            self.border
        };
        Style { fg: Some(colour), bg: None, bold: false, underlined: false }
    }

    /// The colour of a severity drawn as a shape.
    pub open spec fn fill(self, level: Severity) -> Color {
        match level {
            Severity::Okay => self.success,
            Severity::Warn => self.warning,
            Severity::Critical => self.danger,
            Severity::Unknown => self.muted,
        }
    }

    /// Colour for a health-ish value, from calm to alarming.
    #[must_use]
    pub fn severity(self, level: Severity) -> (style: Style)
        ensures
            style == ink(self.fill(level)),
    {
        let colour = match level {
            Severity::Okay => self.success,
            Severity::Warn => self.warning,
            Severity::Critical => self.danger,
            Severity::Unknown => self.muted,
        };
        Style { fg: Some(colour), bg: None, bold: false, underlined: false }
    }

    /// The ink a severity is written in, in a table of plain text, or `None`
    /// where it is written in whatever colour the terminal was already using.
    ///
    /// A healthy cluster is almost every cell of a table, so painting it green
    /// would put the strongest signal a terminal has on the rows with nothing to
    /// say. Every other severity is written in the colour it is drawn in.
    #[must_use]
    pub fn severity_ink(self, level: Severity) -> (ink: Option<Color>)
        ensures
            ink == if level is Okay {
                None
            } else {
                Some(self.fill(level))
            },
    {
        match level {
            Severity::Okay => None,
            Severity::Warn => Some(self.warning),
            Severity::Critical => Some(self.danger),
            Severity::Unknown => Some(self.muted),
        }
    }
}

impl Default for Theme {
    /// The dark theme.
    fn default() -> (theme: Self)
        ensures
            theme == dark_theme(),
    {
        Theme::dark()
    }
}

/// How worried the user should be about a value.
#[derive(Debug, Clone, Copy, PartialEq, Eq, Structural)]
pub enum Severity {
    Okay,
    Warn,
    Critical,
    Unknown,
}

/// Whether a ratio says nothing: there is no whole to be a share of, or the
/// share is negative.
pub open spec fn is_nonsense(ratio: Ratio) -> bool {
    ratio.whole <= 0 || ratio.part < 0
}

impl Severity {
    /// Classify a utilisation ratio, from nothing to all of it.
    ///
    /// Nine tenths and more is critical, three quarters and more a warning.
    /// Thresholds live here rather than at call sites so "what counts as hot"
    /// stays one decision.
    #[must_use]
    pub fn from_utilisation(ratio: Ratio) -> (severity: Self)
        ensures
            severity == if is_nonsense(ratio) {
                Severity::Unknown
            } else if 10 * ratio.part >= 9 * ratio.whole {
                Severity::Critical
            } else if 4 * ratio.part >= 3 * ratio.whole {
                Severity::Warn
            } else {
                Severity::Okay
            },
    {
        if ratio.whole <= 0 || ratio.part < 0 {
            return Severity::Unknown;
        }
        if ratio.part >= ratio.whole {
            return Severity::Critical;
        }
        let part: u128 = ratio.part as u128;
        let whole: u128 = ratio.whole as u128;
        let tenths = crate::format::share(part, whole, 10);
        proof {
            lemma_share(10, part as int, whole as int, tenths.0 as int, tenths.1 as int, 9);
        }
        if tenths.0 >= 9 {
            return Severity::Critical;
        }
        let quarters = crate::format::share(part, whole, 4);
        proof {
            lemma_share(4, part as int, whole as int, quarters.0 as int, quarters.1 as int, 3);
        }
        if quarters.0 >= 3 {
            Severity::Warn
        } else {
            Severity::Okay
        }
    }

    /// Classify a pod's usage against its own request, rather than a node's
    /// allocatable.
    ///
    /// A request is a floor a scheduler holds open, not a ceiling a pod is
    /// expected to stay under, so everything at or a little above it stays calm.
    /// One and a half times the request is where that drift stops looking like
    /// an ordinary burst; three times is a request so undersized the pod is
    /// running on borrowed capacity most of the time.
    #[must_use]
    pub fn from_request_share(ratio: Ratio) -> (severity: Self)
        ensures
            severity == if is_nonsense(ratio) {
                Severity::Unknown
            } else if ratio.part >= 3 * ratio.whole {
                Severity::Critical
            } else if 2 * ratio.part >= 3 * ratio.whole {
                Severity::Warn
            } else {
                Severity::Okay
            },
    {
        if ratio.whole <= 0 || ratio.part < 0 {
            return Severity::Unknown;
        }
        let part: u128 = ratio.part as u128;
        let whole: u128 = ratio.whole as u128;
        let times: u128 = part / whole;
        let left: u128 = part % whole;
        proof {
            vstd::arithmetic::div_mod::lemma_fundamental_div_mod(part as int, whole as int);
            lemma_share(1, part as int, whole as int, times as int, left as int, 3);
            lemma_share(1, part as int, whole as int, times as int, left as int, 2);
            lemma_share(1, part as int, whole as int, times as int, left as int, 1);
        }
        if times >= 3 {
            return Severity::Critical;
        }
        if times == 2 || (times == 1 && left >= whole - left) {
            Severity::Warn
        } else {
            Severity::Okay
        }
    }
}

/// How often a whole goes into a multiple of a part tells on which side of a
/// threshold the multiple is.
proof fn lemma_share(multiple: int, part: int, whole: int, quotient: int, left: int, threshold: int)
    requires
        whole > 0,
        multiple * part == quotient * whole + left || multiple * part == whole * quotient + left,
        0 <= left < whole,
    ensures
        quotient >= threshold <==> multiple * part >= threshold * whole,
{
    assert(quotient >= threshold ==> quotient * whole >= threshold * whole) by (nonlinear_arith)
        requires
            whole > 0,
    ;
    assert(quotient < threshold ==> quotient * whole + whole <= threshold * whole)
        by (nonlinear_arith)
        requires
            whole > 0,
    ;
    assert(quotient * whole == whole * quotient) by (nonlinear_arith);
}

/// What the user asked for with `--theme`.
#[derive(Debug, Clone, Copy, PartialEq, Eq, Structural)]
pub enum ThemeChoice {
    /// Detect the terminal's own background where possible, falling back to
    /// dark when it cannot be told. The default.
    Auto,
    Dark,
    Light,
}

impl Default for ThemeChoice {
    /// Detect.
    fn default() -> (choice: Self)
        ensures
            choice == ThemeChoice::Auto,
    {
        ThemeChoice::Auto
    }
}

/// Whether a terminal's background reads as dark or light.
#[derive(Debug, Clone, Copy, PartialEq, Eq, Structural)]
pub enum Background {
    Dark,
    Light,
}

/// What `COLORFGBG` says about the background: the last of its fields is an
/// index into the palette, of which white and the bright colours are light.
pub open spec fn background_of(colorfgbg: Option<Seq<char>>) -> Option<Background> {
    match colorfgbg {
        None => None,
        Some(value) => match small_number_of(trimmed(split_on(value, ';').last())) {
            None => None,
            Some(index) => if index == 7 || 9 <= index <= 15 {
                Some(Background::Light)
            } else {
                Some(Background::Dark)
            },
        },
    }
}

/// What an optional text says.
pub open spec fn seen(text: Option<&str>) -> Option<Seq<char>> {
    match text {
        Some(text) => Some(text@),
        None => None,
    }
}

/// Read `COLORFGBG` for a hint about the terminal's own background.
///
/// Several terminals and multiplexers export it unasked, in
/// `foreground;background` form, sometimes `foreground;default;background`,
/// which is why the last field is read rather than the second. `None`, or what
/// cannot be read as text, is "cannot be told", not "is dark".
#[must_use]
pub fn detect_background(colorfgbg: Option<&str>) -> (background: Option<Background>)
    ensures
        background == background_of(seen(colorfgbg)),
{
    let value = match colorfgbg {
        Some(value) => value,
        None => {
            return None;
        },
    };
    let fields = text::split(value, ';');
    let field = fields[fields.len() - 1].as_str();
    assert(texts(fields@).last() == field@);
    let chars = text::chars_of(text::trim(field));
    match text::parse_u8(&chars) {
        Some(index) => Some(
            if index == 7 || (9 <= index && index <= 15) {
                Background::Light
            } else {
                Background::Dark
            },
        ),
        None => None,
    }
}

/// The query "what colour is your background?".
///
/// Terminated with BEL: a terminal answers with whichever terminator the query
/// used, and BEL is the one older terminals and multiplexers have understood the
/// longest.
pub const BACKGROUND_QUERY: &'static str = "\x1b]11;?\x07";

/// Whether the terminal should be sent [`BACKGROUND_QUERY`] at all.
///
/// Only under `auto`, since a theme the user named is never second-guessed, and
/// only when `COLORFGBG` could not tell. `TERM` rules out the terminals where
/// asking does harm rather than nothing: unset, unreadable or `dumb`, and the
/// Linux virtual console, which prints the query's tail onto the screen.
#[must_use]
pub fn should_query_background(
    choice: ThemeChoice,
    colorfgbg: Option<&str>,
    term: Option<&str>,
) -> (answer: bool)
    ensures
        answer == match term {
            None => false,
            Some(term) => choice is Auto && background_of(seen(colorfgbg)) is None && term@.len() > 0
                && term@ != "dumb"@ && term@ != "linux"@ && !("linux-"@.is_prefix_of(term@)),
        },
{
    let term = match term {
        Some(term) => term,
        None => {
            return false;
        },
    };
    choice == ThemeChoice::Auto && detect_background(colorfgbg).is_none() && !term.is_empty()
        && !text::same(term, "dumb") && !text::same(term, "linux") && !text::starts_with(
        term,
        "linux-",
    )
}

/// One channel of a colour: an intensity out of the largest it can be.
#[derive(Debug, Clone, Copy, PartialEq, Eq, Structural)]
pub struct Channel {
    pub value: u16,
    pub max: u16,
}

/// A colour, each channel scaled by its own width.
#[derive(Debug, Clone, Copy, PartialEq, Eq, Structural)]
pub struct Reply {
    pub red: Channel,
    pub green: Channel,
    pub blue: Channel,
}

/// The value of a hexadecimal digit.
pub open spec fn hex_digit(c: char) -> Option<int> {
    if '0' <= c && c <= '9' {
        Some(c as u32 - '0' as u32)
    } else if 'a' <= c && c <= 'f' {
        Some(c as u32 - 'a' as u32 + 10)
    } else if 'A' <= c && c <= 'F' {
        Some(c as u32 - 'A' as u32 + 10)
    } else {
        None
    }
}

/// The number hexadecimal digits spell.
pub open spec fn hex_value(digits: Seq<char>) -> Option<int>
    decreases digits.len(),
{
    if digits.len() == 0 {
        Some(0)
    } else {
        match (hex_value(digits.drop_last()), hex_digit(digits.last())) {
            (Some(before), Some(digit)) => Some(before * 16 + digit),
            _ => None,
        }
    }
}

/// The largest number of this many hexadecimal digits.
pub open spec fn hex_max(digits: nat) -> int {
    if digits == 1 {
        0xf
    } else if digits == 2 {
        0xff
    } else if digits == 3 {
        0xfff
    } else {
        0xffff
    }
}

/// Whether a piece of text is a colour channel: one to four hexadecimal digits.
pub open spec fn is_channel(text: Seq<char>, channel: Channel) -> bool {
    &&& 1 <= text.len() <= 4
    &&& hex_value(text) == Some(channel.value as int)
    &&& channel.max == hex_max(text.len())
}

/// The colour text of a reply: what stands between the marker of this kind of
/// reply and a terminator, read as UTF-8.
pub open spec fn reply_text(reply: Seq<u8>) -> Option<Seq<char>> {
    let start = seq![0x1bu8, 0x5d, 0x31, 0x31, 0x3b];
    let body = reply.skip(5);
    let colour = if body.len() >= 1 && body.last() == 0x07 {
        Some(body.drop_last())
    } else if body.len() >= 2 && body.last() == 0x5c && body[body.len() - 2] == 0x1b {
        Some(body.take(body.len() - 2))
    } else {
        None
    };
    if !start.is_prefix_of(reply) {
        None
    } else {
        match colour {
            Some(colour) => if vstd::utf8::valid_utf8(colour) {
                Some(vstd::utf8::decode_utf8(colour))
            } else {
                None
            },
            None => None,
        }
    }
}

/// The channels of a colour: three of `rgb:`, or the first three of the four of
/// `rgba:`.
pub open spec fn channel_texts(colour: Seq<char>) -> Option<Seq<Seq<char>>> {
    if "rgb:"@.is_prefix_of(colour) {
        let channels = split_on(colour.skip(4), '/');
        if channels.len() == 3 {
            Some(channels)
        } else {
            None
        }
    } else if "rgba:"@.is_prefix_of(colour) {
        let channels = split_on(colour.skip(5), '/');
        if channels.len() == 4 {
            Some(channels.take(3))
        } else {
            None
        }
    } else {
        None
    }
}

/// Whether a terminal's reply says this colour.
pub open spec fn says(reply: Seq<u8>, colour: Reply) -> bool {
    match reply_text(reply) {
        None => false,
        Some(text) => match channel_texts(text) {
            None => false,
            Some(channels) => {
                &&& is_channel(channels[0], colour.red)
                &&& is_channel(channels[1], colour.green)
                &&& is_channel(channels[2], colour.blue)
            },
        },
    }
}

/// [`std::str::from_utf8`]: the text that bytes encode, where they are UTF-8.
#[verifier::external_body]
fn utf8(bytes: &[u8]) -> (text: Option<&str>)
    ensures
        match text {
            Some(text) => vstd::utf8::valid_utf8(bytes@) && text@ == vstd::utf8::decode_utf8(bytes@),
            None => !vstd::utf8::valid_utf8(bytes@),
        },
{
    std::str::from_utf8(bytes).ok()
}

/// The colour text of a reply.
fn colour_of(reply: &[u8]) -> (colour: Option<&str>)
    ensures
        seen(colour) == reply_text(reply@),
{
    let count = reply.len();
    if count < 5 || reply[0] != 0x1b || reply[1] != 0x5d || reply[2] != 0x31 || reply[3] != 0x31
        || reply[4] != 0x3b {
        assert(!seq![0x1bu8, 0x5d, 0x31, 0x31, 0x3b].is_prefix_of(reply@)) by {
            let start = seq![0x1bu8, 0x5d, 0x31, 0x31, 0x3b];
            if start.is_prefix_of(reply@) {
                assert(start[0] == reply@.subrange(0, 5)[0]);
                assert(start[1] == reply@.subrange(0, 5)[1]);
                assert(start[2] == reply@.subrange(0, 5)[2]);
                assert(start[3] == reply@.subrange(0, 5)[3]);
                assert(start[4] == reply@.subrange(0, 5)[4]);
            }
        }
        return None;
    }
    let ghost body = reply@.skip(5);
    assert(seq![0x1bu8, 0x5d, 0x31, 0x31, 0x3b] =~= reply@.subrange(0, 5));
    let end: usize = if count >= 6 && reply[count - 1] == 0x07 {
        count - 1
    } else if count >= 7 && reply[count - 1] == 0x5c && reply[count - 2] == 0x1b {
        count - 2
    } else {
        return None;
    };
    let inner = vstd::slice::slice_subrange(reply, 5, end);
    proof {
        assert(reply@[count - 1] == 0x07 ==> inner@ =~= body.drop_last());
        assert(reply@[count - 1] != 0x07 ==> inner@ =~= body.take(body.len() - 2));
    }
    utf8(inner)
}

fn hex_digit_value(c: char) -> (value: Option<u32>)
    ensures
        match value {
            Some(value) => hex_digit(c) == Some(value as int) && value < 16,
            None => hex_digit(c) is None,
        },
{
    if '0' <= c && c <= '9' {
        Some(c as u32 - '0' as u32)
    } else if 'a' <= c && c <= 'f' {
        Some(c as u32 - 'a' as u32 + 10)
    } else if 'A' <= c && c <= 'F' {
        Some(c as u32 - 'A' as u32 + 10)
    } else {
        None
    }
}

proof fn lemma_hex_value_fails(digits: Seq<char>, count: int)
    requires
        0 <= count <= digits.len(),
        hex_value(digits.take(count)) is None,
    ensures
        hex_value(digits) is None,
    decreases digits.len(),
{
    if count < digits.len() {
        assert(digits.drop_last().take(count) =~= digits.take(count));
        lemma_hex_value_fails(digits.drop_last(), count);
    } else {
        assert(digits.take(count) =~= digits);
    }
}

/// One colour channel, one to four hex digits, scaled by its own width.
fn hex_channel(digits: &str) -> (channel: Option<Channel>)
    ensures
        match channel {
            Some(channel) => is_channel(digits@, channel),
            None => forall|channel: Channel| !is_channel(digits@, channel),
        },
{
    let chars = text::chars_of(digits);
    if chars.len() == 0 || chars.len() > 4 {
        return None;
    }
    let mut value: u32 = 0;
    let mut limit: u32 = 1;
    let mut i: usize = 0;
    while i < chars.len()
        invariant
            chars@ == digits@,
            1 <= chars@.len() <= 4,
            i <= chars@.len(),
            hex_value(digits@.take(i as int)) == Some(value as int),
            value < limit,
            limit == if i == 0 {
                1
            } else {
                hex_max(i as nat) + 1
            },
        decreases chars@.len() - i,
    {
        assert(digits@.take(i + 1).drop_last() =~= digits@.take(i as int));
        assert(digits@.take(i + 1).last() == chars@[i as int]);
        match hex_digit_value(chars[i]) {
            Some(digit) => {
                value = value * 16 + digit;
                limit = limit * 16;
            },
            None => {
                proof {
                    lemma_hex_value_fails(digits@, i + 1);
                }
                return None;
            },
        }
        i = i + 1;
    }
    assert(digits@.take(i as int) =~= digits@);
    Some(Channel { value: value as u16, max: (limit - 1) as u16 })
}

/// Read a terminal's reply to [`BACKGROUND_QUERY`].
///
/// The reply is `ESC ] 11 ; <colour>` terminated by BEL or `ESC \`, where
/// `<colour>` is `rgb:<r>/<g>/<b>`, each channel one to four hex digits, scaled
/// by its own width, or `rgba:` with a fourth, ignored, channel. Anything else
/// is "cannot be told", never a guess.
#[must_use]
pub fn parse_background_reply(reply: &[u8]) -> (colour: Option<Reply>)
    ensures
        match colour {
            Some(colour) => says(reply@, colour),
            None => forall|colour: Reply| !says(reply@, colour),
        },
{
    let colour = match colour_of(reply) {
        Some(colour) => colour,
        None => {
            return None;
        },
    };
    proof {
        reveal_strlit("rgb:");
        reveal_strlit("rgba:");
    }
    let length = colour.unicode_len();
    let channels = if text::starts_with(colour, "rgb:") {
        let listed = colour.substring_char(4, length);
        assert(listed@ =~= colour@.skip(4));
        let channels = text::split(listed, '/');
        assert(texts(channels@).len() == channels@.len());
        if channels.len() != 3 {
            return None;
        }
        channels
    } else if text::starts_with(colour, "rgba:") {
        let listed = colour.substring_char(5, length);
        assert(listed@ =~= colour@.skip(5));
        let channels = text::split(listed, '/');
        assert(texts(channels@).len() == channels@.len());
        if channels.len() != 4 {
            return None;
        }
        channels
    } else {
        return None;
    };
    let ghost wanted = channel_texts(colour@)->0;
    assert(wanted[0] == channels@[0]@);
    assert(wanted[1] == channels@[1]@);
    assert(wanted[2] == channels@[2]@);
    match (
        hex_channel(channels[0].as_str()),
        hex_channel(channels[1].as_str()),
        hex_channel(channels[2].as_str()),
    ) {
        (Some(red), Some(green), Some(blue)) => Some(Reply { red, green, blue }),
        _ => None,
    }
}

/// Resolve `--theme` and `COLORFGBG` into the theme to draw with.
///
/// A theme named outright wins outright. Otherwise the background decides, and
/// dark where it cannot be told, which is the safer wrong guess.
#[must_use]
pub fn resolve(choice: ThemeChoice, colorfgbg: Option<&str>) -> (theme: Theme)
    ensures
        theme == match choice {
            ThemeChoice::Dark => dark_theme(),
            ThemeChoice::Light => light_theme(),
            ThemeChoice::Auto => match background_of(seen(colorfgbg)) {
                Some(background) => theme_on(background),
                None => dark_theme(),
            },
        },
{
    match choice {
        ThemeChoice::Dark => Theme::dark(),
        ThemeChoice::Light => Theme::light(),
        ThemeChoice::Auto => match detect_background(colorfgbg) {
            Some(background) => Theme::for_background(background),
            None => Theme::dark(),
        },
    }
}

/// What the user asked for with `--color`.
#[derive(Debug, Clone, Copy, PartialEq, Eq, Structural)]
pub enum ColourChoice {
    /// Colour when stdout is a terminal that wants it. The default.
    Auto,
    /// Colour whatever stdout is, for a pager, or a CI log that renders it.
    Always,
    /// No escape sequences at all.
    Never,
}

impl Default for ColourChoice {
    /// Colour when stdout is a terminal that wants it.
    fn default() -> (choice: Self)
        ensures
            choice == ColourChoice::Auto,
    {
        ColourChoice::Auto
    }
}

/// Whether a listing prints colour, and what it prints for a severity.
#[derive(Debug, Clone, Copy, PartialEq, Eq, Structural)]
pub enum Palette {
    /// No escape sequences at all.
    Plain,
    /// The theme's severity ink, as ANSI escape sequences.
    Colour(Theme),
}

impl Default for Palette {
    /// No escape sequences: a code path that forgets to pass a palette prints
    /// the plain table, rather than escape sequences into a file.
    fn default() -> (palette: Self)
        ensures
            palette == Palette::Plain,
    {
        Palette::Plain
    }
}

/// Whether a run prints colour. What the user typed wins outright; otherwise
/// stdout has to be a terminal, `NO_COLOR` unset or empty, and `TERM` not
/// `dumb`.
pub open spec fn wants_colour(
    choice: ColourChoice,
    terminal: bool,
    no_color: Option<Seq<char>>,
    term: Option<Seq<char>>,
) -> bool {
    match choice {
        ColourChoice::Always => true,
        ColourChoice::Never => false,
        ColourChoice::Auto => terminal && match no_color {
            Some(value) => value.len() == 0,
            None => true,
        } && term != Some("dumb"@),
    }
}

/// What a colour sets the foreground to: the escape sequence, if one is needed.
pub open spec fn foreground_text(colour: Color) -> Option<Seq<char>> {
    match colour {
        Color::Rgb(r, g, b) => Some(
            "\x1b[38;2;"@ + decimal_nat(r as nat) + ";"@ + decimal_nat(g as nat) + ";"@
                + decimal_nat(b as nat) + "m"@,
        ),
        Color::Indexed(index) => Some("\x1b[38;5;"@ + decimal_nat(index as nat) + "m"@),
        Color::Reset => None,
        Color::Black => Some("\x1b["@ + decimal_nat(30) + "m"@),
        Color::Red => Some("\x1b["@ + decimal_nat(31) + "m"@),
        Color::Green => Some("\x1b["@ + decimal_nat(32) + "m"@),
        Color::Yellow => Some("\x1b["@ + decimal_nat(33) + "m"@),
        Color::Blue => Some("\x1b["@ + decimal_nat(34) + "m"@),
        Color::Magenta => Some("\x1b["@ + decimal_nat(35) + "m"@),
        Color::Cyan => Some("\x1b["@ + decimal_nat(36) + "m"@),
        Color::Gray => Some("\x1b["@ + decimal_nat(37) + "m"@),
        Color::DarkGray => Some("\x1b["@ + decimal_nat(90) + "m"@),
        Color::LightRed => Some("\x1b["@ + decimal_nat(91) + "m"@),
        Color::LightGreen => Some("\x1b["@ + decimal_nat(92) + "m"@),
        Color::LightYellow => Some("\x1b["@ + decimal_nat(93) + "m"@),
        Color::LightBlue => Some("\x1b["@ + decimal_nat(94) + "m"@),
        Color::LightMagenta => Some("\x1b["@ + decimal_nat(95) + "m"@),
        Color::LightCyan => Some("\x1b["@ + decimal_nat(96) + "m"@),
        Color::White => Some("\x1b["@ + decimal_nat(97) + "m"@),
    }
}

impl Palette {
    /// What a cell is painted as: the ink, the text, and back to the terminal's
    /// own foreground. Untouched where the palette is plain, where there is
    /// nothing to paint, and where the severity is written in the terminal's own
    /// colour.
    pub open spec fn painted(self, text: Seq<char>, severity: Severity) -> Seq<char> {
        match self {
            Palette::Plain => text,
            Palette::Colour(theme) => if text.len() == 0 || severity is Okay {
                text
            } else {
                match foreground_text(theme.fill(severity)) {
                    Some(start) => start + text + "\x1b[39m"@,
                    None => text,
                }
            },
        }
    }

    /// Decide whether this run prints colour, and in which theme's severity
    /// ink.
    ///
    /// `no_color` is the `NO_COLOR` environment variable: set and not empty
    /// turns colour off. `term` is `TERM`, of which `dumb` promises that no
    /// escape sequences are understood.
    #[must_use]
    pub fn pick(
        choice: ColourChoice,
        theme: Theme,
        stdout_is_terminal: bool,
        no_color: Option<&str>,
        term: Option<&str>,
    ) -> (palette: Self)
        ensures
            palette == if wants_colour(choice, stdout_is_terminal, seen(no_color), seen(term)) {
                Palette::Colour(theme)
            } else {
                Palette::Plain
            },
    {
        let wanted = match choice {
            ColourChoice::Always => true,
            ColourChoice::Never => false,
            ColourChoice::Auto => {
                let unset = match no_color {
                    Some(value) => value.is_empty(),
                    None => true,
                };
                let dumb = match term {
                    Some(term) => text::same(term, "dumb"),
                    None => false,
                };
                stdout_is_terminal && unset && !dumb
            },
        };
        if wanted {
            Palette::Colour(theme)
        } else {
            Palette::Plain
        }
    }

    /// Whether anything this palette paints will carry an escape sequence.
    #[must_use]
    pub fn is_colour(self) -> (answer: bool)
        ensures
            answer == (self is Colour),
    {
        matches!(self, Palette::Colour(_))
    }

    /// `text`, in the ink this severity is written in.
    ///
    /// An empty cell is left alone: wrapped in escapes it would be invisible ink
    /// at the end of a line.
    #[must_use]
    pub fn paint(self, text: &str, severity: Severity) -> (painted: String)
        ensures
            painted@ == self.painted(text@, severity),
    {
        let theme = match self {
            Palette::Colour(theme) => theme,
            Palette::Plain => {
                return text.to_owned();
            },
        };
        if text.is_empty() {
            return text.to_owned();
        }
        let ink = match theme.severity_ink(severity) {
            Some(ink) => ink,
            None => {
                return text.to_owned();
            },
        };
        match foreground(ink) {
            Some(start) => start.concat(text).concat("\x1b[39m"),
            None => text.to_owned(),
        }
    }
}

fn sequence(code: u128) -> (text: String)
    ensures
        text@ == "\x1b["@ + decimal_nat(code as nat) + "m"@,
{
    "\x1b[".to_owned().concat(text::show_natural(code).as_str()).concat("m")
}

/// The escape sequence that sets `colour` as the foreground, or `None` for a
/// colour that is the terminal's own default and so needs no sequence.
#[must_use]
pub fn foreground(colour: Color) -> (text: Option<String>)
    ensures
        match text {
            Some(text) => foreground_text(colour) == Some(text@),
            None => foreground_text(colour) is None,
        },
{
    let code: u128 = match colour {
        Color::Rgb(r, g, b) => {
            return Some(
                "\x1b[38;2;".to_owned().concat(text::show_natural(r as u128).as_str()).concat(
                    ";",
                ).concat(text::show_natural(g as u128).as_str()).concat(";").concat(
                    text::show_natural(b as u128).as_str(),
                ).concat("m"),
            );
        },
        Color::Indexed(index) => {
            return Some(
                "\x1b[38;5;".to_owned().concat(text::show_natural(index as u128).as_str()).concat(
                    "m",
                ),
            );
        },
        Color::Reset => {
            return None;
        },
        Color::Black => 30,
        Color::Red => 31,
        Color::Green => 32,
        Color::Yellow => 33,
        Color::Blue => 34,
        Color::Magenta => 35,
        Color::Cyan => 36,
        Color::Gray => 37,
        Color::DarkGray => 90,
        Color::LightRed => 91,
        Color::LightGreen => 92,
        Color::LightYellow => 93,
        Color::LightBlue => 94,
        Color::LightMagenta => 95,
        Color::LightCyan => 96,
        Color::White => 97,
    };
    Some(sequence(code))
}

/// A reply says at most one colour.
pub proof fn law_a_reply_says_one_colour(reply: Seq<u8>, first: Reply, second: Reply)
    requires
        says(reply, first),
        says(reply, second),
    ensures
        first == second,
{
}

/// What a reply to the query starts with.
pub open spec fn reply_start() -> Seq<u8> {
    seq![0x1bu8, 0x5d, 0x31, 0x31, 0x3b]
}

/// The shorter of the two endings of a reply.
pub open spec fn bell() -> Seq<u8> {
    seq![0x07u8]
}

/// The longer of the two endings of a reply.
pub open spec fn terminator() -> Seq<u8> {
    seq![0x1bu8, 0x5c]
}

/// The reply that says a colour text.
pub open spec fn reply_of(colour: Seq<char>, ending: Seq<u8>) -> Seq<u8> {
    reply_start() + vstd::utf8::encode_utf8(colour) + ending
}

/// Whether two replies say the same.
pub open spec fn says_the_same(left: Seq<u8>, right: Seq<u8>) -> bool {
    forall|colour: Reply| says(left, colour) <==> says(right, colour)
}

proof fn lemma_reply_body(colour: Seq<u8>, ending: Seq<u8>)
    requires
        ending == bell() || ending == terminator(),
    ensures
        reply_text(reply_start() + colour + ending) == if vstd::utf8::valid_utf8(colour) {
            Some(vstd::utf8::decode_utf8(colour))
        } else {
            None
        },
{
    let reply = reply_start() + colour + ending;
    let body = reply.skip(5);
    assert(reply.subrange(0, 5) =~= reply_start());
    assert(body =~= colour + ending);
    assert(body.last() == ending.last());
    if ending == bell() {
        assert(body.drop_last() =~= colour);
    } else {
        assert(body[body.len() - 2] == ending[0]);
        assert(body.take(body.len() - 2) =~= colour);
    }
}

pub(crate) proof fn lemma_reply_text(colour: Seq<char>, ending: Seq<u8>)
    requires
        ending == bell() || ending == terminator(),
    ensures
        reply_text(reply_of(colour, ending)) == Some(colour),
{
    lemma_reply_body(vstd::utf8::encode_utf8(colour), ending);
    vstd::utf8::encode_utf8_valid_utf8(colour);
    vstd::utf8::encode_utf8_decode_utf8(colour);
}

/// It makes no difference which of its two endings a reply has.
pub proof fn law_either_ending_will_do(colour: Seq<u8>)
    ensures
        says_the_same(
            reply_start() + colour + bell(),
            reply_start() + colour + terminator(),
        ),
{
    lemma_reply_body(colour, bell());
    lemma_reply_body(colour, terminator());
}

/// The text of a colour of three channels.
pub open spec fn rgb_text(red: Seq<char>, green: Seq<char>, blue: Seq<char>) -> Seq<char> {
    "rgb:"@ + joined(seq![red, green, blue], seq!['/'])
}

/// The text of a colour of four channels.
pub open spec fn rgba_text(
    red: Seq<char>,
    green: Seq<char>,
    blue: Seq<char>,
    alpha: Seq<char>,
) -> Seq<char> {
    "rgba:"@ + joined(seq![red, green, blue, alpha], seq!['/'])
}

pub(crate) proof fn lemma_rgb_channels(red: Seq<char>, green: Seq<char>, blue: Seq<char>)
    requires
        !red.contains('/'),
        !green.contains('/'),
        !blue.contains('/'),
    ensures
        channel_texts(rgb_text(red, green, blue)) == Some(seq![red, green, blue]),
{
    reveal_strlit("rgb:");
    let channels = seq![red, green, blue];
    let listed = joined(channels, seq!['/']);
    let text = rgb_text(red, green, blue);
    assert forall|i: int| 0 <= i < channels.len() implies !(#[trigger] channels[i]).contains(
        '/',
    ) by {}
    lemma_split_on_joined(channels, '/');
    assert(text.subrange(0, 4) =~= "rgb:"@);
    assert(text.skip(4) =~= listed);
}

proof fn lemma_rgba_channels(red: Seq<char>, green: Seq<char>, blue: Seq<char>, alpha: Seq<char>)
    requires
        !red.contains('/'),
        !green.contains('/'),
        !blue.contains('/'),
        !alpha.contains('/'),
    ensures
        channel_texts(rgba_text(red, green, blue, alpha)) == Some(seq![red, green, blue]),
{
    reveal_strlit("rgb:");
    reveal_strlit("rgba:");
    let channels = seq![red, green, blue, alpha];
    let listed = joined(channels, seq!['/']);
    let text = rgba_text(red, green, blue, alpha);
    assert forall|i: int| 0 <= i < channels.len() implies !(#[trigger] channels[i]).contains(
        '/',
    ) by {}
    lemma_split_on_joined(channels, '/');
    assert(text.subrange(0, 5) =~= "rgba:"@);
    assert(text.skip(5) =~= listed);
    assert(text[3] == 'a');
    if "rgb:"@.is_prefix_of(text) {
        assert(text.subrange(0, 4)[3] == "rgb:"@[3]);
    }
    assert(channels.take(3) =~= seq![red, green, blue]);
}

/// A fourth channel makes no difference, whatever it says.
pub proof fn law_alpha_is_ignored(
    red: Seq<char>,
    green: Seq<char>,
    blue: Seq<char>,
    alpha: Seq<char>,
    ending: Seq<u8>,
)
    requires
        !red.contains('/'),
        !green.contains('/'),
        !blue.contains('/'),
        !alpha.contains('/'),
        ending == bell() || ending == terminator(),
    ensures
        says_the_same(
            reply_of(rgba_text(red, green, blue, alpha), ending),
            reply_of(rgb_text(red, green, blue), ending),
        ),
{
    lemma_reply_text(rgba_text(red, green, blue, alpha), ending);
    lemma_reply_text(rgb_text(red, green, blue), ending);
    lemma_rgba_channels(red, green, blue, alpha);
    lemma_rgb_channels(red, green, blue);
}

/// Whether a text is one to four hexadecimal digits.
pub open spec fn is_hex_channel(text: Seq<char>) -> bool {
    &&& 1 <= text.len() <= 4
    &&& forall|i: int| 0 <= i < text.len() ==> hex_digit(#[trigger] text[i]) is Some
}

proof fn lemma_hex_value(text: Seq<char>)
    ensures
        hex_value(text) is Some <==> forall|i: int|
            0 <= i < text.len() ==> hex_digit(#[trigger] text[i]) is Some,
        hex_value(text) is Some && 1 <= text.len() <= 4 ==> 0 <= hex_value(text)->0 <= hex_max(
            text.len(),
        ),
        hex_value(text) is Some && text.len() == 0 ==> hex_value(text)->0 == 0,
    decreases text.len(),
{
    if text.len() > 0 {
        let before = text.drop_last();
        lemma_hex_value(before);
        assert(forall|i: int| 0 <= i < before.len() ==> before[i] == text[i]);
        assert(text.last() == text[text.len() - 1]);
        if hex_value(text) is Some {
            assert forall|i: int| 0 <= i < text.len() implies hex_digit(
                #[trigger] text[i],
            ) is Some by {
                if i < before.len() {
                    assert(hex_digit(before[i]) is Some);
                }
            }
        }
    }
}

/// The channel that a channel text says, where it says one.
spec fn channel_of(text: Seq<char>) -> Channel {
    Channel { value: hex_value(text)->0 as u16, max: hex_max(text.len()) as u16 }
}

/// A colour of three channels is read exactly where each is one to four
/// hexadecimal digits.
pub proof fn law_rgb_reads_hexadecimal(
    red: Seq<char>,
    green: Seq<char>,
    blue: Seq<char>,
    ending: Seq<u8>,
)
    requires
        !red.contains('/'),
        !green.contains('/'),
        !blue.contains('/'),
        ending == bell() || ending == terminator(),
    ensures
        (exists|colour: Reply| says(reply_of(rgb_text(red, green, blue), ending), colour))
            <==> is_hex_channel(red) && is_hex_channel(green) && is_hex_channel(blue),
{
    let reply = reply_of(rgb_text(red, green, blue), ending);
    lemma_reply_text(rgb_text(red, green, blue), ending);
    lemma_rgb_channels(red, green, blue);
    lemma_hex_value(red);
    lemma_hex_value(green);
    lemma_hex_value(blue);
    if is_hex_channel(red) && is_hex_channel(green) && is_hex_channel(blue) {
        let colour = Reply {
            red: channel_of(red),
            green: channel_of(green),
            blue: channel_of(blue),
        };
        assert(is_channel(red, colour.red));
        assert(is_channel(green, colour.green));
        assert(is_channel(blue, colour.blue));
        assert(says(reply, colour));
    }
}

/// A hexadecimal digit in lower case; any other character as it is.
pub open spec fn lower_digit(c: char) -> char {
    if 'A' <= c && c <= 'F' {
        ((c as u8) + 32) as u8 as char
    } else {
        c
    }
}

/// Every hexadecimal digit in lower case.
pub open spec fn lower_digits(text: Seq<char>) -> Seq<char> {
    Seq::new(text.len(), |i: int| lower_digit(text[i]))
}

proof fn lemma_case_of_digits(text: Seq<char>)
    ensures
        hex_value(lower_digits(text)) == hex_value(text),
        !text.contains('/') ==> !lower_digits(text).contains('/'),
    decreases text.len(),
{
    let lower = lower_digits(text);
    if text.len() > 0 {
        lemma_case_of_digits(text.drop_last());
        assert(lower.drop_last() =~= lower_digits(text.drop_last()));
        assert(hex_digit(lower.last()) == hex_digit(text.last()));
    } else {
        assert(lower =~= text);
    }
    if lower.contains('/') {
        let i = lower.index_of('/');
        assert(lower_digit(text[i]) == '/');
        assert(text[i] == '/');
    }
}

/// The case of the digits makes no difference.
pub proof fn law_case_of_digits_is_ignored(
    red: Seq<char>,
    green: Seq<char>,
    blue: Seq<char>,
    ending: Seq<u8>,
)
    requires
        !red.contains('/'),
        !green.contains('/'),
        !blue.contains('/'),
        ending == bell() || ending == terminator(),
    ensures
        says_the_same(
            reply_of(rgb_text(red, green, blue), ending),
            reply_of(
                rgb_text(lower_digits(red), lower_digits(green), lower_digits(blue)),
                ending,
            ),
        ),
{
    lemma_case_of_digits(red);
    lemma_case_of_digits(green);
    lemma_case_of_digits(blue);
    lemma_reply_text(rgb_text(red, green, blue), ending);
    lemma_reply_text(
        rgb_text(lower_digits(red), lower_digits(green), lower_digits(blue)),
        ending,
    );
    lemma_rgb_channels(red, green, blue);
    lemma_rgb_channels(lower_digits(red), lower_digits(green), lower_digits(blue));
}

/// Whether two channels are the same share of full intensity.
pub open spec fn same_share(left: Channel, right: Channel) -> bool {
    left.value * right.max == right.value * left.max
}

/// A channel of one digit is the same share of full intensity when the digit is
/// written up to four times.
proof fn lemma_repeated_digit(
    digit: char,
    count: nat,
    once: Channel,
    often: Channel,
)
    requires
        1 <= count <= 4,
        is_channel(seq![digit], once),
        is_channel(repeated(digit, count), often),
    ensures
        same_share(once, often),
{
    let one = seq![digit];
    let text = repeated(digit, count);
    reveal_with_fuel(hex_value, 5);
    assert(one.drop_last() =~= seq![]);
    assert(one.last() == digit);
    let value = hex_digit(digit)->0;
    assert(once.value == value);
    assert(repeated(digit, 1) =~= one);
    assert(repeated(digit, 2).drop_last() =~= repeated(digit, 1));
    assert(repeated(digit, 3).drop_last() =~= repeated(digit, 2));
    assert(repeated(digit, 4).drop_last() =~= repeated(digit, 3));
    assert(hex_value(repeated(digit, 1)) == Some(value));
    assert(hex_value(repeated(digit, 2)) == Some(value * 17));
    assert(hex_value(repeated(digit, 3)) == Some(value * 273));
    assert(hex_value(repeated(digit, 4)) == Some(value * 4369));
    assert(often.max == hex_max(count));
    assert(once.max == 15);
    if count == 1 {
    } else if count == 2 {
        assert(often.value == value * 17);
    } else if count == 3 {
        assert(often.value == value * 273);
    } else {
        assert(often.value == value * 4369);
    }
}

/// Writing the one digit of a channel twice, three or four times makes no
/// difference: the reply is read all the same, and each channel is the same share
/// of full intensity.
pub proof fn law_repeated_digits_are_the_same_shares(
    red: (char, nat),
    green: (char, nat),
    blue: (char, nat),
    ending: Seq<u8>,
    once: Reply,
)
    requires
        1 <= red.1 <= 4,
        1 <= green.1 <= 4,
        1 <= blue.1 <= 4,
        red.0 != '/',
        green.0 != '/',
        blue.0 != '/',
        ending == bell() || ending == terminator(),
        says(reply_of(rgb_text(seq![red.0], seq![green.0], seq![blue.0]), ending), once),
    ensures
        ({
            let reply = reply_of(
                rgb_text(
                    repeated(red.0, red.1),
                    repeated(green.0, green.1),
                    repeated(blue.0, blue.1),
                ),
                ending,
            );
            &&& exists|often: Reply| says(reply, often)
            &&& forall|often: Reply| #[trigger]
                says(reply, often) ==> same_share(once.red, often.red) && same_share(
                    once.green,
                    often.green,
                ) && same_share(once.blue, often.blue)
        }),
{
    let r = repeated(red.0, red.1);
    let g = repeated(green.0, green.1);
    let b = repeated(blue.0, blue.1);
    let plain = rgb_text(seq![red.0], seq![green.0], seq![blue.0]);
    lemma_reply_text(plain, ending);
    lemma_reply_text(rgb_text(r, g, b), ending);
    lemma_rgb_channels(seq![red.0], seq![green.0], seq![blue.0]);
    lemma_rgb_channels(r, g, b);
    lemma_hex_value(seq![red.0]);
    lemma_hex_value(seq![green.0]);
    lemma_hex_value(seq![blue.0]);
    assert(hex_digit(seq![red.0][0]) is Some);
    assert(hex_digit(seq![green.0][0]) is Some);
    assert(hex_digit(seq![blue.0][0]) is Some);
    law_rgb_reads_hexadecimal(r, g, b, ending);
    assert forall|often: Reply| #[trigger]
        says(reply_of(rgb_text(r, g, b), ending), often) implies same_share(once.red, often.red)
        && same_share(once.green, often.green) && same_share(once.blue, often.blue) by {
        lemma_repeated_digit(red.0, red.1, once.red, often.red);
        lemma_repeated_digit(green.0, green.1, once.green, often.green);
        lemma_repeated_digit(blue.0, blue.1, once.blue, often.blue);
    }
}

/// However a severity is drawn, a table writes it in that colour or not at all:
/// what is calm is left in the terminal's own colour, and nothing else is
/// unless the theme draws it so.
pub proof fn law_only_calm_is_left_unpainted(theme: Theme, text: Seq<char>, severity: Severity)
    requires
        text.len() > 0,
        foreground_text(theme.fill(severity)) is Some,
    ensures
        Palette::Colour(theme).painted(text, severity) == text <==> severity is Okay,
{
    reveal_strlit("\x1b[39m");
    let start = foreground_text(theme.fill(severity))->0;
    let whole = start + text + "\x1b[39m"@;
    assert(whole.len() > text.len());
}

} // verus!
