//! Saying that a command is still working, while it still is.
//!
//! A single line on stderr names what is outstanding, rewritten in place as it
//! changes, and erased before anything else is printed.
//!
//! [`line()`] gives the wording, [`redraw`] the bytes that put it on screen, and
//! [`Progress`] keeps what is outstanding and what is on screen. Writing the
//! bytes, reading the clock and sharing a [`Progress`] between threads belong to
//! the program around this library: every method that may change the screen is
//! told the time and returns what to write.

use vstd::prelude::*;
use vstd::string::*;

use crate::format::{exact_text, grouped};
use crate::text;
use crate::text::{joined, texts};
use crate::theme::{seen, wants_colour, ColourChoice, Palette, Theme};

verus! {

/// How often a step redraws while nothing about it changes, in milliseconds.
///
/// Only the elapsed count can change in that time, and it changes once a
/// second, so this is about how stale that figure is allowed to look.
pub const TICK: u64 = 250;

/// The width to draw at when the terminal will not say how wide it is.
pub const DEFAULT_COLS: usize = 80;

/// One thing a command is still waiting for.
///
/// A listing can say how far it has got and the number moving is the
/// reassurance; a subprocess either answers or does not, and the only honest
/// thing to show is its name.
#[derive(Debug, Clone, PartialEq, Eq)]
pub enum Step {
    /// Something with no progress to report, described as a verb phrase:
    /// `running aws eks get-token`.
    Waiting(String),
    /// A listing arriving in pages. `what` is the plural noun it is a listing
    /// of, and `read` is how many objects have landed, `None` until the first
    /// page arrives.
    Reading { what: String, read: Option<usize> },
}

/// What a [`Step`] says.
pub enum Outstanding {
    /// Something with no progress to report.
    Waiting(Seq<char>),
    /// A listing of something, and how many objects have landed.
    Reading(Seq<char>, Option<usize>),
}

impl View for Step {
    type V = Outstanding;

    open spec fn view(&self) -> Outstanding {
        match self {
            Step::Waiting(phrase) => Outstanding::Waiting(phrase@),
            Step::Reading { what, read } => Outstanding::Reading(what@, *read),
        }
    }
}

/// What each of several steps says.
pub open spec fn outstanding(steps: Seq<Step>) -> Seq<Outstanding> {
    Seq::new(steps.len(), |i: int| steps[i]@)
}

/// The phrases of the steps that have no progress to report, in order.
pub open spec fn phrases(steps: Seq<Outstanding>) -> Seq<Seq<char>>
    decreases steps.len(),
{
    if steps.len() == 0 {
        seq![]
    } else {
        match steps.last() {
            Outstanding::Waiting(phrase) => phrases(steps.drop_last()).push(phrase),
            Outstanding::Reading(what, read) => phrases(steps.drop_last()),
        }
    }
}

/// What the listings among the steps are of, in order, each with how many
/// objects have landed.
pub open spec fn readings(steps: Seq<Outstanding>) -> Seq<Seq<char>>
    decreases steps.len(),
{
    if steps.len() == 0 {
        seq![]
    } else {
        match steps.last() {
            Outstanding::Waiting(phrase) => readings(steps.drop_last()),
            Outstanding::Reading(what, read) => readings(steps.drop_last()).push(
                match read {
                    Some(read) => grouped(read as nat) + " "@ + what,
                    None => what,
                },
            ),
        }
    }
}

/// The clauses of the progress line: the phrases, then one clause for all the
/// listings.
pub open spec fn clauses(steps: Seq<Outstanding>) -> Seq<Seq<char>> {
    if readings(steps).len() > 0 {
        phrases(steps).push("reading "@ + joined(readings(steps), ", "@))
    } else {
        phrases(steps)
    }
}

/// The progress line for a set of outstanding steps, this many milliseconds
/// after they began. Empty when nothing is outstanding; and without an elapsed
/// count below a second.
pub open spec fn line_text(steps: Seq<Outstanding>, elapsed: nat) -> Seq<char> {
    if clauses(steps).len() == 0 {
        seq![]
    } else if elapsed / 1000 >= 1 {
        joined(clauses(steps), ", "@) + seq!['…'] + seq![' '] + exact_text(elapsed / 1000)
    } else {
        joined(clauses(steps), ", "@) + seq!['…']
    }
}

/// The whole progress line for a set of outstanding steps, `elapsed`
/// milliseconds after they began.
///
/// Empty when nothing is outstanding. The readings are gathered into one clause
/// rather than written out separately, so that the verb is said once.
///
/// The elapsed count is dropped below a second: a listing that finishes in
/// 200 ms should not flash a `0s` on its way past.
#[must_use]
pub fn line(steps: &[Step], elapsed: u64) -> (line: String)
    ensures
        line@ == line_text(outstanding(steps@), elapsed as nat),
{
    let mut parts: Vec<String> = Vec::new();
    let mut lists: Vec<String> = Vec::new();
    let ghost all = outstanding(steps@);
    let mut i: usize = 0;
    assert(texts(parts@) =~= seq![]);
    assert(texts(lists@) =~= seq![]);
    while i < steps.len()
        invariant
            all == outstanding(steps@),
            i <= steps@.len(),
            texts(parts@) == phrases(all.take(i as int)),
            texts(lists@) == readings(all.take(i as int)),
        decreases steps@.len() - i,
    {
        let ghost upto = all.take(i + 1);
        let ghost had_parts = texts(parts@);
        let ghost had_lists = texts(lists@);
        assert(upto.drop_last() =~= all.take(i as int));
        assert(upto.last() == steps@[i as int]@);
        match &steps[i] {
            Step::Waiting(phrase) => {
                parts.push(phrase.clone());
                assert(texts(parts@) =~= had_parts.push(phrase@));
            },
            Step::Reading { what, read } => {
                let shown = match read {
                    Some(read) => crate::format::count(*read).concat(" ").concat(what.as_str()),
                    None => what.clone(),
                };
                lists.push(shown);
                assert(texts(lists@) =~= had_lists.push(shown@));
            },
        }
        i = i + 1;
    }
    assert(all.take(i as int) =~= all);
    assert(texts(lists@).len() == lists@.len());
    if lists.len() > 0 {
        let ghost had = texts(parts@);
        let clause = "reading ".to_owned().concat(text::join(&lists, ", ").as_str());
        parts.push(clause);
        assert(texts(parts@) =~= had.push(clause@));
    }
    assert(texts(parts@) == clauses(all));
    assert(texts(parts@).len() == parts@.len());
    if parts.len() == 0 {
        let empty = String::new();
        assert(empty@ =~= seq![]);
        return empty;
    }
    let mut line = text::join(&parts, ", ");
    let ghost said = line@;
    line.push('…');
    assert(line@ =~= said + seq!['…']);
    let seconds: u64 = elapsed / 1000;
    if seconds >= 1 {
        line.push(' ');
        line.append(crate::format::exact_duration(seconds).as_str());
        assert(line@ =~= said + seq!['…'] + seq![' '] + exact_text(seconds as nat));
    }
    line
}

/// A line, shortened to what fits on one row with a column to spare.
pub open spec fn fitted(line: Seq<char>, cols: nat) -> Seq<char> {
    if cols <= 1 {
        seq![]
    } else if line.len() <= cols - 1 {
        line
    } else {
        line.take(cols - 2) + seq!['…']
    }
}

/// `line`, shortened to what fits on one row of a terminal `cols` wide.
///
/// Not cosmetic. A line that wraps onto a second row leaves the first row
/// somewhere a carriage return can no longer reach, so the erase would clear the
/// tail and leave the head of the old line on screen permanently.
///
/// One column is left spare, because a line filling the last column leaves the
/// cursor in a state terminals disagree about. A line cut short ends with a
/// character saying so.
#[must_use]
pub fn fit(line: &str, cols: usize) -> (fitting: String)
    ensures
        fitting@ == fitted(line@, cols as nat),
        fitting@.len() < cols || fitting@.len() == 0,
{
    if cols <= 1 {
        let empty = String::new();
        assert(empty@ =~= seq![]);
        return empty;
    }
    let room: usize = cols - 1;
    if line.unicode_len() <= room {
        return line.to_owned();
    }
    let mut kept = line.substring_char(0, room - 1).to_owned();
    kept.push('…');
    assert(kept@ =~= fitted(line@, cols as nat));
    kept
}

/// The bytes that put a line on screen.
pub open spec fn redrawn(line: Seq<char>, cols: nat) -> Seq<char> {
    "\r"@ + fitted(line, cols) + "\x1b[K"@
}

/// The bytes that put `line` on screen, over whatever is there already.
///
/// The carriage return makes the text start at the left margin, and clearing to
/// the end of the row keeps a shorter line from leaving the old line's tail
/// beside it.
#[must_use]
pub fn redraw(line: &str, cols: usize) -> (bytes: String)
    ensures
        bytes@ == redrawn(line@, cols as nat),
{
    "\r".to_owned().concat(fit(line, cols).as_str()).concat("\x1b[K")
}

/// The width to draw at, from what the terminal said about itself.
///
/// A terminal reporting zero columns has not answered the question: a pty opened
/// without a window size does this. The conventional eighty is right nearly
/// every time.
#[must_use]
pub fn width(terminal_cols: Option<u16>) -> (cols: usize)
    ensures
        cols == match terminal_cols {
            Some(cols) => if cols > 0 {
                cols as usize
            } else {
                80
            },
            None => 80,
        },
{
    match terminal_cols {
        Some(cols) => {
            if cols > 0 {
                cols as usize
            } else {
                DEFAULT_COLS
            }
        },
        None => DEFAULT_COLS,
    }
}

/// Whether this run may draw a progress line at all.
///
/// Both ends have to be terminals: a listing being piped is one nobody is
/// watching arrive, and the line is only legible if it can be rewritten in
/// place. Log lines cannot share a row with a line that rewrites itself. And
/// movement is ink, so the flags and the environment that turn off colour turn
/// off this too.
#[must_use]
pub fn wanted(
    choice: ColourChoice,
    stdout_is_terminal: bool,
    stderr_is_terminal: bool,
    logging: bool,
    no_color: Option<&str>,
    term: Option<&str>,
) -> (answer: bool)
    ensures
        answer == (stdout_is_terminal && stderr_is_terminal && !logging && wants_colour(
            choice,
            true,
            seen(no_color),
            seen(term),
        )),
{
    stdout_is_terminal && stderr_is_terminal && !logging && Palette::pick(
        choice,
        Theme::dark(),
        true,
        no_color,
        term,
    ).is_colour()
}

/// Whether this run writes log lines to stderr, from the two things that turn
/// them on: verbosity in any quantity, or a log filter set to anything at all.
#[must_use]
pub fn logging_to_stderr(verbose: u8, rust_log: Option<&str>) -> (answer: bool)
    ensures
        answer == (verbose > 0 || (rust_log is Some && rust_log->0@.len() > 0)),
{
    verbose > 0 || match rust_log {
        Some(filter) => !filter.is_empty(),
        None => false,
    }
}

/// What a meter holds.
#[verifier::ext_equal]
pub struct Board {
    /// How wide the terminal is.
    pub cols: nat,
    /// The outstanding steps in the order they started, each with the number it
    /// is known by.
    pub steps: Seq<(u64, Outstanding)>,
    /// The number the next step is known by.
    pub next: nat,
    /// When the current run of activity began, in milliseconds.
    pub since: nat,
    /// What is on screen.
    pub shown: Seq<char>,
}

impl Board {
    /// A board with nothing outstanding and nothing on screen.
    pub open spec fn blank(cols: nat) -> Board {
        Board { cols, steps: seq![], next: 0, since: 0, shown: seq![] }
    }

    /// What the outstanding steps say, in the order they started.
    pub open spec fn says(self) -> Seq<Outstanding> {
        Seq::new(self.steps.len(), |i: int| self.steps[i].1)
    }

    /// The line that should be on screen at a time.
    pub open spec fn line_at(self, now: nat) -> Seq<char> {
        line_text(
            self.says(),
            if now > self.since {
                (now - self.since) as nat
            } else {
                0
            },
        )
    }

    /// What should be on screen at a time: the line, shortened to what fits.
    pub open spec fn text_at(self, now: nat) -> Seq<char> {
        fitted(self.line_at(now), self.cols)
    }

    /// What has to be written to put the right text on screen: nothing where it
    /// is there already, and an erase where there is nothing to show.
    pub open spec fn writes_at(self, now: nat) -> Seq<char> {
        let text = self.text_at(now);
        if text == self.shown {
            seq![]
        } else if text.len() == 0 {
            "\r\x1b[K"@
        } else {
            redrawn(self.line_at(now), self.cols)
        }
    }

    /// The board once the right line is on screen.
    pub open spec fn drawn(self, now: nat) -> Board {
        Board { shown: self.text_at(now), ..self }
    }

    /// With one more step outstanding. The first of a run of activity starts the
    /// clock.
    pub open spec fn with(self, step: Outstanding, now: nat) -> Board {
        Board {
            steps: self.steps.push((self.next as u64, step)),
            next: self.next + 1,
            since: if self.steps.len() == 0 {
                now
            } else {
                self.since
            },
            ..self
        }
    }

    /// Without one of the outstanding steps.
    pub open spec fn without(self, id: u64) -> Board {
        Board { steps: without_step(self.steps, id), ..self }
    }

    /// With more objects landed for one of the outstanding steps, if it is a
    /// listing.
    pub open spec fn landed(self, id: u64, by: nat) -> Board {
        Board {
            steps: Seq::new(
                self.steps.len(),
                |i: int|
                    if self.steps[i].0 == id {
                        (id, more(self.steps[i].1, by))
                    } else {
                        self.steps[i]
                    },
            ),
            ..self
        }
    }

    /// How many objects have landed for one of the outstanding steps.
    pub open spec fn count(self, id: u64) -> nat
        decreases self.steps.len(),
    {
        landed_count(self.steps, id)
    }

    /// Whether every step has a number of its own, given out before the next.
    pub open spec fn wf(self) -> bool {
        &&& self.next <= u64::MAX
        &&& forall|i: int| 0 <= i < self.steps.len() ==> (#[trigger] self.steps[i]).0 < self.next
        &&& forall|i: int, j: int|
            0 <= i < j < self.steps.len() ==> (#[trigger] self.steps[i]).0 != (
            #[trigger] self.steps[j]).0
    }
}

/// Steps without the one of this number.
pub open spec fn without_step(steps: Seq<(u64, Outstanding)>, id: u64) -> Seq<(u64, Outstanding)>
    decreases steps.len(),
{
    if steps.len() == 0 {
        seq![]
    } else if steps.last().0 == id {
        without_step(steps.drop_last(), id)
    } else {
        without_step(steps.drop_last(), id).push(steps.last())
    }
}

/// A step with more objects landed, if it is a listing.
pub open spec fn more(step: Outstanding, by: nat) -> Outstanding {
    match step {
        Outstanding::Waiting(phrase) => step,
        Outstanding::Reading(what, read) => Outstanding::Reading(
            what,
            Some(
                (by + match read {
                    Some(read) => read as nat,
                    None => 0,
                }) as usize,
            ),
        ),
    }
}

/// How many objects a step says have landed.
pub open spec fn landed_in(step: Outstanding) -> nat {
    match step {
        Outstanding::Reading(what, Some(read)) => read as nat,
        _ => 0,
    }
}

/// How many objects have landed for the step of this number.
pub open spec fn landed_count(steps: Seq<(u64, Outstanding)>, id: u64) -> nat
    decreases steps.len(),
{
    if steps.len() == 0 {
        0
    } else if steps.last().0 == id {
        landed_in(steps.last().1)
    } else {
        landed_count(steps.drop_last(), id)
    }
}

/// The outstanding steps, and what is on screen now.
#[derive(Debug)]
struct Meter {
    cols: usize,
    /// Outstanding steps in the order they started, each with the number its
    /// [`Task`] will finish it by.
    steps: Vec<(u64, Step)>,
    next: u64,
    /// When the current run of activity began, so that the count beside a
    /// listing is that listing's own age and not the whole command's.
    since: u64,
    /// What is on screen, so unchanged text is not rewritten and a line is only
    /// erased once.
    shown: String,
}

spec fn step_views(steps: Seq<(u64, Step)>) -> Seq<(u64, Outstanding)> {
    Seq::new(steps.len(), |i: int| (steps[i].0, steps[i].1@))
}

impl View for Meter {
    type V = Board;

    closed spec fn view(&self) -> Board {
        Board {
            cols: self.cols as nat,
            steps: step_views(self.steps@),
            next: self.next as nat,
            since: self.since as nat,
            shown: self.shown@,
        }
    }
}

impl Meter {
    fn start(&mut self, step: Step, now: u64) -> (written: (u64, String))
        requires
            old(self)@.wf(),
            old(self)@.next < u64::MAX,
        ensures
            final(self)@ == old(self)@.with(step@, now as nat).drawn(now as nat),
            final(self)@.wf(),
            written.0 == old(self)@.next,
            written.1@ == old(self)@.with(step@, now as nat).writes_at(now as nat),
    {
        let ghost before = self@;
        if self.steps.len() == 0 {
            self.since = now;
        }
        let id = self.next;
        self.next = self.next + 1;
        self.steps.push((id, step));
        proof {
            assert(self@ =~= before.with(step@, now as nat));
            assert(self@.wf()) by {
                assert forall|i: int| 0 <= i < self@.steps.len() implies (#[trigger] self@.steps[i]).0
                    < self@.next by {
                    if i < before.steps.len() {
                        assert(self@.steps[i] == before.steps[i]);
                    }
                }
                assert forall|i: int, j: int| 0 <= i < j < self@.steps.len() implies (
                #[trigger] self@.steps[i]).0 != (#[trigger] self@.steps[j]).0 by {
                    assert(self@.steps[i] == before.steps[i]);
                    if j < before.steps.len() {
                        assert(self@.steps[j] == before.steps[j]);
                    }
                }
            }
        }
        let bytes = self.draw(now);
        (id, bytes)
    }

    fn finish(&mut self, id: u64, now: u64) -> (bytes: String)
        requires
            old(self)@.wf(),
        ensures
            final(self)@ == old(self)@.without(id).drawn(now as nat),
            final(self)@.wf(),
            bytes@ == old(self)@.without(id).writes_at(now as nat),
    {
        let ghost before = self@;
        let ghost all = step_views(self.steps@);
        let mut left: Vec<(u64, Step)> = Vec::new();
        core::mem::swap(&mut left, &mut self.steps);
        let ghost given = left@;
        let mut kept: Vec<(u64, Step)> = Vec::new();
        let count = left.len();
        let mut i: usize = 0;
        assert(step_views(kept@) =~= seq![]);
        while i < count
            invariant
                count == given.len(),
                all == step_views(given),
                i <= count,
                left@ == given.skip(i as int),
                step_views(kept@) == without_step(all.take(i as int), id),
            decreases count - i,
        {
            let entry = left.remove(0);
            assert(left@ =~= given.skip(i + 1));
            assert(all.take(i + 1).drop_last() =~= all.take(i as int));
            let ghost had = step_views(kept@);
            if entry.0 != id {
                kept.push(entry);
                assert(step_views(kept@) =~= had.push((entry.0, entry.1@)));
            }
            i = i + 1;
        }
        assert(all.take(i as int) =~= all);
        self.steps = kept;
        proof {
            lemma_without_step(all, id, before.next);
            assert(self@ =~= before.without(id));
        }
        self.draw(now)
    }

    fn advance(&mut self, id: u64, by: usize, now: u64) -> (bytes: String)
        requires
            old(self)@.wf(),
            old(self)@.count(id) + by <= usize::MAX,
        ensures
            final(self)@ == old(self)@.landed(id, by as nat).drawn(now as nat),
            final(self)@.wf(),
            bytes@ == old(self)@.landed(id, by as nat).writes_at(now as nat),
    {
        let ghost before = self@;
        let ghost given = self.steps@;
        let mut i: usize = 0;
        while i < self.steps.len()
            invariant
                before.wf(),
                before.steps == step_views(given),
                before.count(id) + by <= usize::MAX,
                self.cols == before.cols,
                self.next == before.next,
                self.since == before.since,
                self.shown@ == before.shown,
                self.steps@.len() == given.len(),
                i <= given.len(),
                forall|j: int| i <= j < given.len() ==> #[trigger] self.steps@[j] == given[j],
                forall|j: int|
                    0 <= j < i ==> ((#[trigger] self.steps@[j]).0, self.steps@[j].1@)
                        == before.landed(id, by as nat).steps[j],
            decreases given.len() - i,
        {
            let ghost at = i as int;
            assert(self.steps@[at] == given[at]);
            assert(before.steps[at] == (given[at].0, given[at].1@));
            if self.steps[i].0 == id {
                proof {
                    lemma_landed_count(before.steps, id, at);
                }
                let grown = match &self.steps[i].1 {
                    Step::Waiting(phrase) => Step::Waiting(phrase.clone()),
                    Step::Reading { what, read } => {
                        let so_far: usize = match read {
                            Some(read) => *read,
                            None => 0,
                        };
                        Step::Reading { what: what.clone(), read: Some(so_far + by) }
                    },
                };
                assert(grown@ == more(given[at].1@, by as nat));
                self.steps.set(i, (id, grown));
            }
            i = i + 1;
        }
        proof {
            assert(self@.steps =~= before.landed(id, by as nat).steps);
            assert(self@ =~= before.landed(id, by as nat));
            assert(forall|j: int|
                0 <= j < before.steps.len() ==> (#[trigger] self@.steps[j]).0 == before.steps[j].0);
        }
        self.draw(now)
    }

    /// Put the current line on screen, if it is not there already.
    fn draw(&mut self, now: u64) -> (bytes: String)
        ensures
            final(self)@ == old(self)@.drawn(now as nat),
            old(self)@.wf() ==> final(self)@.wf(),
            bytes@ == old(self)@.writes_at(now as nat),
    {
        let ghost before = self@;
        let steps = self.steps_copy();
        let elapsed: u64 = if now > self.since {
            now - self.since
        } else {
            0
        };
        let line = line(&steps, elapsed);
        assert(line@ == before.line_at(now as nat));
        let text = fit(line.as_str(), self.cols);
        if text::same(text.as_str(), self.shown.as_str()) {
            let nothing = String::new();
            assert(nothing@ =~= seq![]);
            assert(self@ =~= before.drawn(now as nat));
            return nothing;
        }
        let bytes = if text.as_str().is_empty() {
            "\r\x1b[K".to_owned()
        } else {
            redraw(line.as_str(), self.cols)
        };
        self.shown = text;
        assert(self@ =~= before.drawn(now as nat));
        bytes
    }

    fn steps_copy(&self) -> (steps: Vec<Step>)
        ensures
            outstanding(steps@) == self@.says(),
    {
        let mut steps: Vec<Step> = Vec::new();
        let mut i: usize = 0;
        while i < self.steps.len()
            invariant
                i <= self.steps@.len(),
                steps@.len() == i,
                forall|j: int| 0 <= j < i ==> (#[trigger] steps@[j])@ == self.steps@[j].1@,
            decreases self.steps@.len() - i,
        {
            let copied = match &self.steps[i].1 {
                Step::Waiting(phrase) => Step::Waiting(phrase.clone()),
                Step::Reading { what, read } => Step::Reading { what: what.clone(), read: *read },
            };
            steps.push(copied);
            i = i + 1;
        }
        assert(outstanding(steps@) =~= self@.says());
        steps
    }

    fn count(&self, id: u64) -> (count: usize)
        requires
            self@.wf(),
        ensures
            count == self@.count(id),
    {
        let ghost all = self@.steps;
        let mut i: usize = self.steps.len();
        assert(all.take(i as int) =~= all);
        while i > 0
            invariant
                all == step_views(self.steps@),
                i <= all.len(),
                landed_count(all, id) == landed_count(all.take(i as int), id),
            decreases i,
        {
            i = i - 1;
            assert(all.take(i + 1).drop_last() =~= all.take(i as int));
            assert(all.take(i + 1).last() == (self.steps@[i as int].0, self.steps@[i as int].1@));
            if self.steps[i].0 == id {
                return match &self.steps[i].1 {
                    Step::Reading { what: _, read: Some(read) } => *read,
                    _ => 0,
                };
            }
        }
        0
    }
}

proof fn lemma_without_step(steps: Seq<(u64, Outstanding)>, id: u64, limit: nat)
    ensures
        forall|entry: (u64, Outstanding)| #[trigger]
            without_step(steps, id).contains(entry) <==> steps.contains(entry) && entry.0 != id,
        (forall|i: int, j: int|
            0 <= i < j < steps.len() ==> (#[trigger] steps[i]).0 != (#[trigger] steps[j]).0) ==> (
        forall|i: int, j: int|
            0 <= i < j < without_step(steps, id).len() ==> (#[trigger] without_step(steps, id)[i]).0
                != (#[trigger] without_step(steps, id)[j]).0),
        (forall|i: int| 0 <= i < steps.len() ==> (#[trigger] steps[i]).0 < limit) ==> (forall|
            i: int,
        |
            0 <= i < without_step(steps, id).len() ==> (#[trigger] without_step(steps, id)[i]).0
                < limit),
    decreases steps.len(),
{
    let left = without_step(steps, id);
    if steps.len() > 0 {
        let before = steps.drop_last();
        let shorter = without_step(before, id);
        lemma_without_step(before, id, limit);
        assert(forall|i: int| 0 <= i < before.len() ==> before[i] == steps[i]);
        assert forall|entry: (u64, Outstanding)| #[trigger] left.contains(entry) <==> steps.contains(
            entry,
        ) && entry.0 != id by {
            if left.contains(entry) {
                let i = left.index_of(entry);
                if i < shorter.len() {
                    assert(shorter[i] == entry);
                    assert(shorter.contains(entry));
                    assert(before.contains(entry));
                    assert(steps[before.index_of(entry)] == entry);
                } else {
                    assert(steps[steps.len() - 1] == entry);
                }
            }
            if steps.contains(entry) && entry.0 != id {
                let i = steps.index_of(entry);
                if i < before.len() {
                    assert(before[i] == entry);
                    assert(shorter.contains(entry));
                    assert(left[shorter.index_of(entry)] == entry);
                } else {
                    assert(left[left.len() - 1] == entry);
                }
            }
        }
        if forall|i: int, j: int|
            0 <= i < j < steps.len() ==> (#[trigger] steps[i]).0 != (#[trigger] steps[j]).0 {
            assert forall|i: int, j: int| 0 <= i < j < left.len() implies (#[trigger] left[i]).0 != (
            #[trigger] left[j]).0 by {
                assert(left[i] == shorter[i]);
                if j < shorter.len() {
                    assert(left[j] == shorter[j]);
                } else {
                    assert(shorter.contains(shorter[i]));
                    assert(before.contains(shorter[i]));
                    let k = before.index_of(shorter[i]);
                    assert(steps[k].0 != steps[steps.len() - 1].0);
                }
            }
        }
        if forall|i: int| 0 <= i < steps.len() ==> (#[trigger] steps[i]).0 < limit {
            assert forall|i: int| 0 <= i < left.len() implies (#[trigger] left[i]).0 < limit by {
                assert(left.contains(left[i]));
                assert(steps.contains(left[i]));
                let k = steps.index_of(left[i]);
                assert(steps[k].0 < limit);
            }
        }
    }
}

proof fn lemma_landed_count(steps: Seq<(u64, Outstanding)>, id: u64, at: int)
    requires
        0 <= at < steps.len(),
        steps[at].0 == id,
        forall|i: int, j: int|
            0 <= i < j < steps.len() ==> (#[trigger] steps[i]).0 != (#[trigger] steps[j]).0,
    ensures
        landed_count(steps, id) == landed_in(steps[at].1),
    decreases steps.len(),
{
    if at < steps.len() - 1 {
        assert(steps[at].0 != steps[steps.len() - 1].0);
        assert(forall|i: int| 0 <= i < steps.drop_last().len() ==> steps.drop_last()[i] == steps[i]);
        lemma_landed_count(steps.drop_last(), id, at);
    }
}

/// Somewhere to report progress to, or nowhere at all.
///
/// Nowhere is what a command gets whose output nobody is watching: every step
/// started against it is invisible, and there is never anything to write.
#[derive(Debug)]
pub struct Progress {
    meter: Option<Meter>,
}

/// One outstanding step.
#[derive(Debug, PartialEq, Eq)]
pub struct Task {
    id: Option<u64>,
}

impl View for Task {
    type V = Option<u64>;

    closed spec fn view(&self) -> Option<u64> {
        self.id
    }
}

impl Default for Task {
    /// A task of no step: what a [`Progress::none`] hands out.
    fn default() -> (task: Self)
        ensures
            task@ is None,
    {
        Task { id: None }
    }
}

impl View for Progress {
    type V = Option<Board>;

    closed spec fn view(&self) -> Option<Board> {
        match self.meter {
            Some(meter) => Some(meter@),
            None => None,
        }
    }
}

impl Default for Progress {
    /// Nowhere.
    fn default() -> (progress: Self)
        ensures
            progress@ is None,
    {
        Progress::none()
    }
}

/// The board after one step has started, and what to write.
pub open spec fn starts(
    before: Option<Board>,
    step: Outstanding,
    now: nat,
    after: Option<Board>,
    task: Option<u64>,
    written: Seq<char>,
) -> bool {
    match before {
        None => after is None && task is None && written.len() == 0,
        Some(board) => {
            &&& task == Some(board.next as u64)
            &&& after == Some(board.with(step, now).drawn(now))
            &&& written == board.with(step, now).writes_at(now)
        },
    }
}

impl Progress {
    /// Whether every outstanding step has a number of its own.
    #[verifier::type_invariant]
    spec fn wf(&self) -> bool {
        match self.meter {
            Some(meter) => meter@.wf(),
            None => true,
        }
    }

    /// Nowhere. Every step started against this is invisible.
    #[must_use]
    pub fn none() -> (progress: Self)
        ensures
            progress@ is None,
    {
        Progress { meter: None }
    }

    /// Draw on a terminal `cols` columns wide.
    #[must_use]
    pub fn to(cols: usize) -> (progress: Self)
        ensures
            progress@ == Some(Board::blank(cols as nat)),
    {
        let meter = Meter { cols, steps: Vec::new(), next: 0, since: 0, shown: String::new() };
        assert(meter@ =~= Board::blank(cols as nat));
        Progress { meter: Some(meter) }
    }

    /// Whether another step can start: the steps are numbered, and the numbers
    /// end.
    #[must_use]
    pub fn has_room(&self) -> (answer: bool)
        ensures
            answer == (self@ is Some ==> self@->0.next < u64::MAX),
            self@ is Some ==> self@->0.wf(),
    {
        proof {
            use_type_invariant(self);
        }
        match &self.meter {
            Some(meter) => meter.next < 18446744073709551615,
            None => true,
        }
    }

    /// How many objects have landed for a step.
    #[must_use]
    pub fn landed(&self, task: &Task) -> (count: usize)
        ensures
            count == match (self@, task@) {
                (Some(board), Some(id)) => board.count(id),
                _ => 0,
            },
    {
        proof {
            use_type_invariant(self);
        }
        match (&self.meter, task.id) {
            (Some(meter), Some(id)) => meter.count(id),
            _ => 0,
        }
    }

    /// Start a listing of `what`, counting objects as they arrive.
    #[must_use]
    pub fn reading(&mut self, what: &str, now: u64) -> (started: (Task, String))
        requires
            old(self)@ is Some ==> old(self)@->0.next < u64::MAX,
        ensures
            starts(
                old(self)@,
                Outstanding::Reading(what@, None),
                now as nat,
                final(self)@,
                started.0@,
                started.1@,
            ),
    {
        self.start(Step::Reading { what: what.to_owned(), read: None }, now)
    }

    /// Start something with nothing to count, described as a verb phrase:
    /// `running aws eks get-token`.
    #[must_use]
    pub fn waiting(&mut self, phrase: &str, now: u64) -> (started: (Task, String))
        requires
            old(self)@ is Some ==> old(self)@->0.next < u64::MAX,
        ensures
            starts(
                old(self)@,
                Outstanding::Waiting(phrase@),
                now as nat,
                final(self)@,
                started.0@,
                started.1@,
            ),
    {
        self.start(Step::Waiting(phrase.to_owned()), now)
    }

    fn take_meter(&mut self) -> (meter: Option<Meter>)
        ensures
            meter == old(self).meter,
            match meter {
                Some(meter) => meter@.wf(),
                None => true,
            },
            final(self)@ is None,
    {
        proof {
            use_type_invariant(&*self);
        }
        let mut meter: Option<Meter> = None;
        core::mem::swap(&mut meter, &mut self.meter);
        meter
    }

    fn start(&mut self, step: Step, now: u64) -> (started: (Task, String))
        requires
            old(self)@ is Some ==> old(self)@->0.next < u64::MAX,
        ensures
            starts(old(self)@, step@, now as nat, final(self)@, started.0@, started.1@),
    {
        match self.take_meter() {
            Some(mut meter) => {
                let (id, bytes) = meter.start(step, now);
                self.meter = Some(meter);
                (Task { id: Some(id) }, bytes)
            },
            None => (Task { id: None }, String::new()),
        }
    }

    /// Redraw, should the elapsed count have moved.
    #[must_use]
    pub fn tick(&mut self, now: u64) -> (bytes: String)
        ensures
            match old(self)@ {
                None => final(self)@ is None && bytes@.len() == 0,
                Some(board) => {
                    &&& final(self)@ == Some(board.drawn(now as nat))
                    &&& bytes@ == board.writes_at(now as nat)
                },
            },
    {
        match self.take_meter() {
            Some(mut meter) => {
                let bytes = meter.draw(now);
                self.meter = Some(meter);
                bytes
            },
            None => String::new(),
        }
    }
}

impl Task {
    /// Report that `by` more objects have arrived.
    #[must_use]
    pub fn advance(&self, progress: &mut Progress, by: usize, now: u64) -> (bytes: String)
        requires
            match (old(progress)@, self@) {
                (Some(board), Some(id)) => board.count(id) + by <= usize::MAX,
                _ => true,
            },
        ensures
            match (old(progress)@, self@) {
                (Some(board), Some(id)) => {
                    &&& final(progress)@ == Some(board.landed(id, by as nat).drawn(now as nat))
                    &&& bytes@ == board.landed(id, by as nat).writes_at(now as nat)
                },
                _ => final(progress)@ == old(progress)@ && bytes@.len() == 0,
            },
    {
        let id = match self.id {
            Some(id) => id,
            None => {
                return String::new();
            },
        };
        match progress.take_meter() {
            Some(mut meter) => {
                let bytes = meter.advance(id, by, now);
                progress.meter = Some(meter);
                bytes
            },
            None => String::new(),
        }
    }

    /// End the step, however it went: one that fails partway through takes its
    /// line off the screen just as surely as one that finishes.
    #[must_use]
    pub fn finish(self, progress: &mut Progress, now: u64) -> (bytes: String)
        ensures
            match (old(progress)@, self@) {
                (Some(board), Some(id)) => {
                    &&& final(progress)@ == Some(board.without(id).drawn(now as nat))
                    &&& bytes@ == board.without(id).writes_at(now as nat)
                },
                _ => final(progress)@ == old(progress)@ && bytes@.len() == 0,
            },
    {
        let id = match self.id {
            Some(id) => id,
            None => {
                return String::new();
            },
        };
        match progress.take_meter() {
            Some(mut meter) => {
                let bytes = meter.finish(id, now);
                progress.meter = Some(meter);
                bytes
            },
            None => String::new(),
        }
    }
}

/// What is on screen already is not written again, though the line it was cut
/// from has changed.
pub proof fn law_unchanged_line_is_not_rewritten(board: Board, now: nat)
    ensures
        board.text_at(now) == board.shown ==> board.writes_at(now).len() == 0,
        board.drawn(now).writes_at(now).len() == 0,
        board.drawn(now).drawn(now) == board.drawn(now),
{
    assert(board.drawn(now).says() =~= board.says());
    assert(board.drawn(now).drawn(now) =~= board.drawn(now));
}

/// With nothing outstanding nothing is left on screen: a line that was there is
/// erased, and where there was none nothing is written.
pub proof fn law_nothing_outstanding_leaves_nothing_shown(board: Board, now: nat)
    requires
        board.steps.len() == 0,
    ensures
        board.drawn(now).shown.len() == 0,
        board.writes_at(now) == if board.shown.len() == 0 {
            seq![]
        } else {
            "\r\x1b[K"@
        },
{
    assert(board.says() =~= seq![]);
    assert(phrases(board.says()).len() == 0);
    assert(readings(board.says()).len() == 0);
    assert(board.shown.len() == 0 ==> board.shown =~= seq![]);
    assert(board.line_at(now) =~= seq![]);
}

/// A step that starts and ends leaves the other steps as they were.
pub proof fn law_a_step_takes_only_itself_away(board: Board, step: Outstanding, now: nat)
    requires
        board.wf(),
        board.next < u64::MAX,
    ensures
        board.with(step, now).without(board.next as u64).steps == board.steps,
        board.with(step, now).wf(),
{
    let more = board.with(step, now).steps;
    let id = board.next as u64;
    assert(more.drop_last() =~= board.steps);
    assert(more.last().0 == id);
    lemma_without_absent(board.steps, id);
    assert forall|i: int| 0 <= i < more.len() implies (#[trigger] more[i]).0 < board.next + 1 by {
        if i < board.steps.len() {
            assert(more[i] == board.steps[i]);
        }
    }
    assert forall|i: int, j: int| 0 <= i < j < more.len() implies (#[trigger] more[i]).0 != (
    #[trigger] more[j]).0 by {
        assert(more[i] == board.steps[i]);
        if j < board.steps.len() {
            assert(more[j] == board.steps[j]);
        }
    }
}

proof fn lemma_without_absent(steps: Seq<(u64, Outstanding)>, id: u64)
    requires
        forall|i: int| 0 <= i < steps.len() ==> (#[trigger] steps[i]).0 != id,
    ensures
        without_step(steps, id) == steps,
    decreases steps.len(),
{
    if steps.len() > 0 {
        assert(steps.last() == steps[steps.len() - 1]);
        assert(forall|i: int| 0 <= i < steps.drop_last().len() ==> steps.drop_last()[i] == steps[i]);
        lemma_without_absent(steps.drop_last(), id);
        assert(steps.drop_last().push(steps.last()) =~= steps);
    } else {
        assert(steps =~= seq![]);
    }
}

/// Whatever is drawn stays on one row: no line reaches the last column.
pub proof fn law_a_line_never_wraps(line: Seq<char>, cols: nat)
    ensures
        fitted(line, cols).len() < cols || fitted(line, cols).len() == 0,
        line.len() < cols ==> fitted(line, cols) == line,
{
    if line.len() < cols && cols <= 1 {
        assert(line =~= seq![]);
    }
}

/// One thing that happens to a board.
pub enum Happening {
    /// A step starts.
    Starts(Outstanding, nat),
    /// More objects land for the step of this number.
    Lands(u64, nat, nat),
    /// The step of this number ends.
    Ends(u64, nat),
    /// Time passes.
    Ticks(nat),
}

impl Board {
    /// The board after something has happened, before anything is drawn.
    pub open spec fn after(self, happening: Happening) -> Board {
        match happening {
            Happening::Starts(step, now) => self.with(step, now),
            Happening::Lands(id, by, now) => self.landed(id, by),
            Happening::Ends(id, now) => self.without(id),
            Happening::Ticks(now) => self,
        }
    }
}

/// When something happens.
pub open spec fn when(happening: Happening) -> nat {
    match happening {
        Happening::Starts(step, now) => now,
        Happening::Lands(id, by, now) => now,
        Happening::Ends(id, now) => now,
        Happening::Ticks(now) => now,
    }
}

/// The board after a run of happenings, from one with nothing on it.
pub open spec fn board_after(cols: nat, run: Seq<Happening>) -> Board
    decreases run.len(),
{
    if run.len() == 0 {
        Board::blank(cols)
    } else {
        board_after(cols, run.drop_last()).after(run.last()).drawn(when(run.last()))
    }
}

/// Everything written over a run of happenings.
pub open spec fn written_over(cols: nat, run: Seq<Happening>) -> Seq<char>
    decreases run.len(),
{
    if run.len() == 0 {
        seq![]
    } else {
        written_over(cols, run.drop_last()) + board_after(cols, run.drop_last()).after(
            run.last(),
        ).writes_at(when(run.last()))
    }
}

/// How many steps a run starts.
pub open spec fn starts_in(run: Seq<Happening>) -> nat
    decreases run.len(),
{
    if run.len() == 0 {
        0
    } else if run.last() is Starts {
        starts_in(run.drop_last()) + 1
    } else {
        starts_in(run.drop_last())
    }
}

/// Numbers without one of them.
pub open spec fn without_number(numbers: Seq<u64>, id: u64) -> Seq<u64>
    decreases numbers.len(),
{
    if numbers.len() == 0 {
        seq![]
    } else if numbers.last() == id {
        without_number(numbers.drop_last(), id)
    } else {
        without_number(numbers.drop_last(), id).push(numbers.last())
    }
}

/// The numbers of the steps that a run has started and not ended, in the order
/// they started. The first step of a run is number nought.
pub open spec fn pending(run: Seq<Happening>) -> Seq<u64>
    decreases run.len(),
{
    if run.len() == 0 {
        seq![]
    } else {
        let before = pending(run.drop_last());
        match run.last() {
            Happening::Starts(step, now) => before.push(starts_in(run.drop_last()) as u64),
            Happening::Ends(id, now) => without_number(before, id),
            _ => before,
        }
    }
}

/// The numbers of a board's steps.
pub open spec fn numbers_of(steps: Seq<(u64, Outstanding)>) -> Seq<u64> {
    Seq::new(steps.len(), |i: int| steps[i].0)
}

proof fn lemma_numbers_without(steps: Seq<(u64, Outstanding)>, id: u64)
    ensures
        numbers_of(without_step(steps, id)) == without_number(numbers_of(steps), id),
    decreases steps.len(),
{
    let numbers = numbers_of(steps);
    if steps.len() == 0 {
        assert(numbers_of(without_step(steps, id)) =~= seq![]);
    } else {
        let shorter = without_step(steps.drop_last(), id);
        lemma_numbers_without(steps.drop_last(), id);
        assert(numbers.drop_last() =~= numbers_of(steps.drop_last()));
        assert(numbers_of(shorter.push(steps.last())) =~= numbers_of(shorter).push(
            steps.last().0,
        ));
    }
}

/// Whether numbers ascend, and stay below a limit.
pub open spec fn ascend_below(numbers: Seq<u64>, limit: nat) -> bool {
    &&& forall|i: int| 0 <= i < numbers.len() ==> (#[trigger] numbers[i]) < limit
    &&& forall|i: int, j: int|
        0 <= i < j < numbers.len() ==> (#[trigger] numbers[i]) < (#[trigger] numbers[j])
}

proof fn lemma_without_ascends(numbers: Seq<u64>, id: u64, limit: nat)
    requires
        ascend_below(numbers, limit),
    ensures
        ascend_below(without_number(numbers, id), limit),
        forall|number: u64| #[trigger]
            without_number(numbers, id).contains(number) <==> numbers.contains(number) && number
                != id,
    decreases numbers.len(),
{
    let left = without_number(numbers, id);
    if numbers.len() > 0 {
        let before = numbers.drop_last();
        let last = numbers.last();
        let shorter = without_number(before, id);
        assert(forall|i: int| 0 <= i < before.len() ==> before[i] == numbers[i]);
        assert(last == numbers[numbers.len() - 1]);
        lemma_without_ascends(before, id, limit);
        assert forall|number: u64| #[trigger] left.contains(number) <==> numbers.contains(number)
            && number != id by {
            if left.contains(number) {
                let i = left.index_of(number);
                if i < shorter.len() {
                    assert(shorter[i] == number);
                    assert(shorter.contains(number));
                    assert(numbers[before.index_of(number)] == number);
                } else {
                    assert(numbers[numbers.len() - 1] == number);
                }
            }
            if numbers.contains(number) && number != id {
                let i = numbers.index_of(number);
                if i < before.len() {
                    assert(before[i] == number);
                    assert(shorter.contains(number));
                    assert(left[shorter.index_of(number)] == number);
                } else {
                    assert(left[left.len() - 1] == number);
                }
            }
        }
        assert forall|i: int, j: int| 0 <= i < j < left.len() implies (#[trigger] left[i]) < (
        #[trigger] left[j]) by {
            assert(left[i] == shorter[i]);
            if j < shorter.len() {
                assert(left[j] == shorter[j]);
            } else {
                assert(shorter.contains(shorter[i]));
                assert(before.contains(shorter[i]));
                let k = before.index_of(shorter[i]);
                assert(numbers[k] < numbers[numbers.len() - 1]);
            }
        }
        assert forall|i: int| 0 <= i < left.len() implies (#[trigger] left[i]) < limit by {
            assert(left.contains(left[i]));
            assert(numbers.contains(left[i]));
            let k = numbers.index_of(left[i]);
            assert(numbers[k] < limit);
        }
    }
}

/// Over every run of starts, advances and endings, in whatever order the steps
/// end: what is outstanding is what was started and not ended, in the order it
/// started, so that an ending takes only its own step away.
pub proof fn law_steps_keep_their_order(cols: nat, run: Seq<Happening>)
    requires
        run.len() <= u64::MAX,
    ensures
        numbers_of(board_after(cols, run).steps) == pending(run),
        ascend_below(pending(run), starts_in(run)),
        board_after(cols, run).next == starts_in(run),
        board_after(cols, run).cols == cols,
        board_after(cols, run).wf(),
        starts_in(run) <= run.len(),
    decreases run.len(),
{
    let board = board_after(cols, run);
    if run.len() == 0 {
        assert(numbers_of(board.steps) =~= seq![]);
    } else {
        let before = board_after(cols, run.drop_last());
        let had = pending(run.drop_last());
        law_steps_keep_their_order(cols, run.drop_last());
        match run.last() {
            Happening::Starts(step, now) => {
                let id = before.next as u64;
                assert(numbers_of(board.steps) =~= had.push(id));
                let now_pending = had.push(id);
                assert forall|i: int| 0 <= i < now_pending.len() implies (
                #[trigger] now_pending[i]) < starts_in(run) by {
                    if i < had.len() {
                        assert(now_pending[i] == had[i]);
                    }
                }
                assert forall|i: int, j: int| 0 <= i < j < now_pending.len() implies (
                #[trigger] now_pending[i]) < (#[trigger] now_pending[j]) by {
                    assert(now_pending[i] == had[i]);
                    if j < had.len() {
                        assert(now_pending[j] == had[j]);
                    }
                }
            },
            Happening::Ends(id, now) => {
                lemma_numbers_without(before.steps, id);
                lemma_without_ascends(had, id, starts_in(run));
            },
            Happening::Lands(id, by, now) => {
                assert(numbers_of(board.steps) =~= had);
            },
            Happening::Ticks(now) => {
                assert(numbers_of(board.steps) =~= had);
            },
        }
    }
    let numbers = pending(run);
    assert(forall|i: int|
        0 <= i < board.steps.len() ==> (#[trigger] board.steps[i]).0 == numbers[i]);
}

/// Over every run of starts, advances and endings: once the last step has ended
/// the line is off the screen, and the last thing written took it off.
pub proof fn law_last_ending_erases(cols: nat, run: Seq<Happening>)
    requires
        run.len() <= u64::MAX,
        pending(run).len() == 0,
    ensures
        board_after(cols, run).shown.len() == 0,
        cols >= 2 && starts_in(run) > 0 ==> "\r\x1b[K"@.is_suffix_of(written_over(cols, run)),
        starts_in(run) == 0 ==> written_over(cols, run).len() == 0,
{
    law_steps_keep_their_order(cols, run);
    lemma_screen(cols, run);
    if run.len() > 0 {
        let drawn = board_after(cols, run.drop_last()).after(run.last());
        assert(numbers_of(drawn.steps).len() == 0);
        law_nothing_outstanding_leaves_nothing_shown(drawn, when(run.last()));
    }
}

/// An empty screen is one that nothing was ever written to, or one whose line was
/// erased.
proof fn lemma_screen(cols: nat, run: Seq<Happening>)
    requires
        run.len() <= u64::MAX,
    ensures
        ({
            let written = written_over(cols, run);
            let erased = "\r\x1b[K"@.is_suffix_of(written);
            &&& starts_in(run) == 0 ==> written.len() == 0 && board_after(cols, run).steps.len() == 0
                && board_after(cols, run).shown.len() == 0
            &&& cols >= 2 && starts_in(run) > 0 && board_after(cols, run).shown.len() == 0
                ==> erased
        }),
    decreases run.len(),
{
    if run.len() > 0 {
        let shorter = run.drop_last();
        let had = board_after(cols, shorter);
        let now = when(run.last());
        let before = written_over(cols, shorter);
        let drawn = had.after(run.last());
        let more = drawn.writes_at(now);
        lemma_screen(cols, shorter);
        law_steps_keep_their_order(cols, shorter);
        assert(drawn.shown == had.shown);
        if starts_in(run) == 0 {
            assert(drawn.steps.len() == 0) by {
                match run.last() {
                    Happening::Ends(id, now) => {
                        assert(had.steps =~= seq![]);
                    },
                    _ => {},
                }
            }
            law_nothing_outstanding_leaves_nothing_shown(drawn, now);
            assert(before + more =~= seq![]);
        } else if cols >= 2 && drawn.text_at(now).len() == 0 {
            if had.shown.len() == 0 {
                assert(had.shown =~= drawn.text_at(now));
                assert(before + more =~= before);
                if starts_in(shorter) == 0 {
                    assert(run.last() is Starts);
                    lemma_a_step_shows(drawn, now);
                }
            } else {
                let erase = "\r\x1b[K"@;
                let whole = before + more;
                assert(more == erase);
                assert(whole.subrange(whole.len() - erase.len(), whole.len() as int) =~= erase);
            }
        }
    }
}

/// While a step is outstanding, and there is room, there is something to show.
proof fn lemma_a_step_shows(board: Board, now: nat)
    requires
        board.steps.len() > 0,
        board.cols >= 2,
    ensures
        board.text_at(now).len() > 0,
{
    let said = board.says();
    let last = said.last();
    assert(clauses(said).len() > 0) by {
        match last {
            Outstanding::Waiting(phrase) => {
                assert(phrases(said).len() > 0);
            },
            Outstanding::Reading(what, read) => {
                assert(readings(said).len() > 0);
            },
        }
    }
    assert(board.line_at(now).len() > 0);
}

} // verus!
