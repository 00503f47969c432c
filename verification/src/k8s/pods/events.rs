//! Events recorded against one pod, collapsed to rows.
//!
//! A cluster can repeat the same complaint as several distinct objects rather
//! than incrementing one. They are collapsed the way `kubectl describe pod`
//! reads them: one row per reason and message, carrying the total count and the
//! most recent occurrence.

use vstd::prelude::*;
use vstd::string::*;

use crate::k8s::api::Event;
use crate::k8s::pods::row::ago_text;
use crate::k8s::pods::status::{later, newest};
use crate::k8s::pods::{held, holds};
use crate::text;
use crate::text::{lemma_sorts_before_total, lemma_sorts_before_transitive, sorts_before};
use crate::time::{seconds_between, Timestamp};

verus! {

/// How long the API server keeps events, in seconds: an hour unless a cluster
/// operator overrode it. Nothing reports the running value.
pub const RETENTION_SECS: i128 = 3600;

/// One kind of event a pod has produced, after collapsing repeats.
#[derive(Debug, Clone, PartialEq, Eq)]
pub struct EventRow {
    pub reason: String,
    pub message: String,
    /// Whether any of the collapsed events is a warning.
    pub warning: bool,
    /// The total occurrences collapsed into this row.
    pub count: i64,
    /// How long ago the most recent occurrence was. `None` only for events with
    /// no timestamp of any kind.
    pub last_seen_age: Option<String>,
    /// The instant of the most recent occurrence.
    pub last_seen: Option<Timestamp>,
}

/// The field selector for one pod's own events.
///
/// Both names come from an object the API server itself returned a name for, and
/// a Kubernetes name cannot contain the characters the grammar treats specially,
/// so neither is quoted.
#[must_use]
pub fn field_selector(namespace: &str, pod: &str) -> (selector: String)
    ensures
        selector@ == "involvedObject.name="@ + pod@ + ",involvedObject.namespace="@ + namespace@,
{
    "involvedObject.name=".to_owned().concat(pod).concat(",involvedObject.namespace=").concat(
        namespace,
    )
}

/// A text that may be missing, as empty where it is.
pub open spec fn or_empty(text: Option<String>) -> Seq<char> {
    match text {
        Some(text) => text@,
        None => seq![],
    }
}

/// How often an event stands for: a series' own count where the server batched
/// them, the count of the event where it did not, or once.
pub open spec fn occurrences(event: Event) -> int {
    match event.series {
        Some(series) => match series.count {
            Some(count) => count as int,
            None => match event.count {
                Some(count) => count as int,
                None => 1,
            },
        },
        None => match event.count {
            Some(count) => count as int,
            None => 1,
        },
    }
}

/// When an event last happened: a series' last observation first, then the
/// single-object fields, in the order the API server itself prefers them.
pub open spec fn seen_at(event: Event) -> Option<Timestamp> {
    let series = match event.series {
        Some(series) => series.last_observed_time,
        None => None,
    };
    if series is Some {
        series
    } else if event.last_timestamp is Some {
        event.last_timestamp
    } else if event.event_time is Some {
        event.event_time
    } else {
        event.metadata.creation_timestamp
    }
}

/// Whether an event is of a kind: its reason and its message.
pub open spec fn is_kind(event: Event, reason: Seq<char>, message: Seq<char>) -> bool {
    or_empty(event.reason) == reason && or_empty(event.message) == message
}

/// What the events of one kind come to.
pub struct Tally {
    /// Whether any of them is a warning.
    pub warning: bool,
    /// How often they happened, held to the range of an `i64`.
    pub count: int,
    /// When the last of them happened.
    pub last: Option<Timestamp>,
}

/// A count held to the range of an `i64`.
pub open spec fn pinned(count: int) -> int {
    if count > i64::MAX {
        i64::MAX as int
    } else if count < i64::MIN {
        i64::MIN as int
    } else {
        count
    }
}

/// What the events of one kind come to.
pub open spec fn tally(events: Seq<Event>, reason: Seq<char>, message: Seq<char>) -> Tally
    decreases events.len(),
{
    if events.len() == 0 {
        Tally { warning: false, count: 0, last: None }
    } else {
        let before = tally(events.drop_last(), reason, message);
        let event = events.last();
        if is_kind(event, reason, message) {
            Tally {
                warning: before.warning || held(event.type_) == Some("Warning"@),
                count: pinned(before.count + occurrences(event)),
                last: later(before.last, seen_at(event)),
            }
        } else {
            before
        }
    }
}

/// Whether a row says what the events of its kind come to, as of `now`.
pub open spec fn sums_up(row: EventRow, events: Seq<Event>, now: Timestamp) -> bool {
    let total = tally(events, row.reason@, row.message@);
    &&& row.warning == total.warning
    &&& row.count == total.count
    &&& row.last_seen == total.last
    &&& held(row.last_seen_age) == ago_text(total.last, now)
}

/// The kinds of these events, in order.
pub open spec fn event_kinds(events: Seq<Event>) -> Seq<(Seq<char>, Seq<char>)> {
    Seq::new(events.len(), |i: int| (or_empty(events[i].reason), or_empty(events[i].message)))
}

/// The kinds of these rows, in order.
pub open spec fn row_kinds(rows: Seq<EventRow>) -> Seq<(Seq<char>, Seq<char>)> {
    Seq::new(rows.len(), |i: int| (rows[i].reason@, rows[i].message@))
}

/// Whether one row goes before another: the one seen later first, one never seen
/// last, and the alphabet for the rest.
pub open spec fn goes_before(left: EventRow, right: EventRow) -> bool {
    let alphabetical = sorts_before(left.reason@, right.reason@) || (left.reason@ == right.reason@
        && sorts_before(left.message@, right.message@));
    match (left.last_seen, right.last_seen) {
        (Some(a), Some(b)) => a.nanosecond > b.nanosecond || (a.nanosecond == b.nanosecond
            && alphabetical),
        (Some(a), None) => true,
        (None, Some(b)) => false,
        (None, None) => alphabetical,
    }
}

/// Whether each row goes before all that follow it.
pub open spec fn latest_first(rows: Seq<EventRow>) -> bool {
    forall|i: int, j: int|
        0 <= i < j < rows.len() ==> goes_before(#[trigger] rows[i], #[trigger] rows[j])
}

proof fn lemma_goes_before_total(left: EventRow, right: EventRow)
    ensures
        goes_before(left, right) ==> !goes_before(right, left),
        (left.reason@ == right.reason@ && left.message@ == right.message@) || goes_before(left, right)
            || goes_before(right, left),
{
    lemma_sorts_before_total(left.reason@, right.reason@);
    lemma_sorts_before_total(right.reason@, left.reason@);
    lemma_sorts_before_total(left.message@, right.message@);
    lemma_sorts_before_total(right.message@, left.message@);
}

proof fn lemma_goes_before_transitive(left: EventRow, middle: EventRow, right: EventRow)
    requires
        goes_before(left, middle),
        goes_before(middle, right),
    ensures
        goes_before(left, right),
{
    if sorts_before(left.reason@, middle.reason@) && sorts_before(middle.reason@, right.reason@) {
        lemma_sorts_before_transitive(left.reason@, middle.reason@, right.reason@);
    }
    if sorts_before(left.message@, middle.message@) && sorts_before(
        middle.message@,
        right.message@,
    ) {
        lemma_sorts_before_transitive(left.message@, middle.message@, right.message@);
    }
}

fn last_seen(event: &Event) -> (at: Option<Timestamp>)
    ensures
        at == seen_at(*event),
{
    if let Some(series) = &event.series {
        if series.last_observed_time.is_some() {
            return series.last_observed_time;
        }
    }
    if event.last_timestamp.is_some() {
        return event.last_timestamp;
    }
    if event.event_time.is_some() {
        return event.event_time;
    }
    event.metadata.creation_timestamp
}

fn count_of(event: &Event) -> (count: i64)
    ensures
        count == occurrences(*event),
        i32::MIN <= count <= i32::MAX,
{
    if let Some(series) = &event.series {
        if let Some(count) = series.count {
            return count as i64;
        }
    }
    match event.count {
        Some(count) => count as i64,
        None => 1,
    }
}

fn text_or_empty(text: &Option<String>) -> (shown: String)
    ensures
        shown@ == or_empty(*text),
{
    match text {
        Some(text) => text.clone(),
        None => {
            let empty = String::new();
            assert(empty@ =~= seq![]);
            empty
        },
    }
}

fn add_counts(left: i64, right: i64) -> (sum: i64)
    ensures
        sum == pinned(left + right),
{
    match left.checked_add(right) {
        Some(sum) => sum,
        None => if right > 0 {
            i64::MAX
        } else {
            i64::MIN
        },
    }
}

/// Whether a row says what the events of its kind come to, but for the age.
spec fn counted(row: EventRow, events: Seq<Event>) -> bool {
    let total = tally(events, row.reason@, row.message@);
    &&& row.warning == total.warning
    &&& row.count == total.count
    &&& row.last_seen == total.last
}

proof fn lemma_never_happened(events: Seq<Event>, reason: Seq<char>, message: Seq<char>)
    requires
        !event_kinds(events).contains((reason, message)),
    ensures
        tally(events, reason, message) == (Tally { warning: false, count: 0, last: None }),
    decreases events.len(),
{
    if events.len() > 0 {
        let before = events.drop_last();
        let kinds = event_kinds(events);
        if event_kinds(before).contains((reason, message)) {
            let i = event_kinds(before).index_of((reason, message));
            assert(event_kinds(before)[i] == kinds[i]);
        }
        lemma_never_happened(before, reason, message);
        assert(kinds[events.len() - 1] == (
            or_empty(events.last().reason),
            or_empty(events.last().message),
        ));
    }
}

/// One more event leaves the tally of every other kind as it was.
proof fn lemma_other_kind(events: Seq<Event>, event: Event, row: EventRow)
    requires
        counted(row, events),
        !is_kind(event, row.reason@, row.message@),
    ensures
        counted(row, events.push(event)),
{
    assert(events.push(event).drop_last() =~= events);
}

proof fn lemma_insert_kind(
    kinds: Seq<(Seq<char>, Seq<char>)>,
    at: int,
    kind: (Seq<char>, Seq<char>),
)
    requires
        0 <= at <= kinds.len(),
    ensures
        kinds.insert(at, kind).to_set() == kinds.to_set().insert(kind),
        kinds.no_duplicates() && !kinds.contains(kind) ==> kinds.insert(at, kind).no_duplicates(),
{
    let after = kinds.insert(at, kind);
    assert forall|k: (Seq<char>, Seq<char>)| after.contains(k) <==> kinds.contains(k) || k
        == kind by {
        if kinds.contains(k) {
            let i = kinds.index_of(k);
            assert(after[if i < at {
                i
            } else {
                i + 1
            }] == k);
        }
        if k == kind {
            assert(after[at] == k);
        }
        if after.contains(k) && k != kind {
            let i = after.index_of(k);
            assert(kinds[if i < at {
                i
            } else {
                i - 1
            }] == k);
        }
    }
    assert(after.to_set() =~= kinds.to_set().insert(kind));
    if kinds.no_duplicates() && !kinds.contains(kind) {
        assert forall|i: int, j: int|
            0 <= i < after.len() && 0 <= j < after.len() && i != j implies after[i] != after[j] by {
            let a = if i < at {
                i
            } else {
                i - 1
            };
            let b = if j < at {
                j
            } else {
                j - 1
            };
            if i == at {
                assert(after[j] == kinds[b]);
            } else if j == at {
                assert(after[i] == kinds[a]);
            } else {
                assert(after[i] == kinds[a]);
                assert(after[j] == kinds[b]);
            }
        }
    }
}

/// Where the row of an event's kind stands among the rows so far, or how many
/// there are where there is none.
fn place_of(rows: &Vec<EventRow>, reason: &str, message: &str) -> (place: usize)
    ensures
        place <= rows@.len(),
        place < rows@.len() ==> rows@[place as int].reason@ == reason@
            && rows@[place as int].message@ == message@,
        forall|i: int|
            0 <= i < place ==> !((#[trigger] rows@[i]).reason@ == reason@ && rows@[i].message@
                == message@),
{
    let mut place: usize = 0;
    while place < rows.len() && !(text::same(rows[place].reason.as_str(), reason) && text::same(
        rows[place].message.as_str(),
        message,
    ))
        invariant
            place <= rows@.len(),
            forall|i: int|
                0 <= i < place ==> !((#[trigger] rows@[i]).reason@ == reason@ && rows@[i].message@
                    == message@),
        decreases rows@.len() - place,
    {
        place = place + 1;
    }
    place
}

/// Count one more event.
fn count_in(rows: &mut Vec<EventRow>, event: &Event, Ghost(before): Ghost<Seq<Event>>)
    requires
        row_kinds(old(rows)@).no_duplicates(),
        row_kinds(old(rows)@).to_set() == event_kinds(before).to_set(),
        forall|i: int| 0 <= i < old(rows)@.len() ==> counted(#[trigger] old(rows)@[i], before),
    ensures
        row_kinds(final(rows)@).no_duplicates(),
        row_kinds(final(rows)@).to_set() == event_kinds(before.push(*event)).to_set(),
        forall|i: int|
            0 <= i < final(rows)@.len() ==> counted(
                #[trigger] final(rows)@[i],
                before.push(*event),
            ),
{
    let ghost had = rows@;
    let ghost after = before.push(*event);
    let ghost kind = (or_empty(event.reason), or_empty(event.message));
    let ghost kinds = row_kinds(had);
    assert(after.drop_last() =~= before);
    proof {
        assert(event_kinds(after) =~= event_kinds(before).push(kind));
        assert(event_kinds(before).push(kind) =~= event_kinds(before).insert(
            before.len() as int,
            kind,
        ));
        lemma_insert_kind(event_kinds(before), before.len() as int, kind);
    }
    let reason = text_or_empty(&event.reason);
    let message = text_or_empty(&event.message);
    let warning = holds(&event.type_, "Warning");
    let count = count_of(event);
    let seen = last_seen(event);
    let place = place_of(rows, reason.as_str(), message.as_str());
    if place < rows.len() {
        let so_far = rows.remove(place);
        let row = EventRow {
            reason: so_far.reason,
            message: so_far.message,
            warning: so_far.warning || warning,
            count: add_counts(so_far.count, count),
            last_seen_age: None,
            last_seen: newest(so_far.last_seen, seen),
        };
        rows.insert(place, row);
        proof {
            assert(rows@ =~= had.update(place as int, row));
            assert(row_kinds(rows@) =~= kinds);
            assert(kinds[place as int] == kind);
            assert(kinds.contains(kind));
            assert(kinds.to_set().insert(kind) =~= kinds.to_set());
            assert forall|i: int| 0 <= i < rows@.len() implies counted(
                #[trigger] rows@[i],
                after,
            ) by {
                assert(counted(had[i], before));
                if i != place {
                    assert(kinds[i] != kinds[place as int]);
                    lemma_other_kind(before, *event, had[i]);
                }
            }
        }
    } else {
        let row = EventRow {
            reason,
            message,
            warning,
            count,
            last_seen_age: None,
            last_seen: seen,
        };
        rows.push(row);
        proof {
            if kinds.contains(kind) {
                let i = kinds.index_of(kind);
                assert(kinds[i] == kind);
                assert(had[i].reason@ == reason@);
            }
            assert(!kinds.to_set().contains(kind));
            assert(!event_kinds(before).to_set().contains(kind));
            lemma_never_happened(before, row.reason@, row.message@);
            lemma_insert_kind(kinds, kinds.len() as int, kind);
            assert(row_kinds(rows@) =~= kinds.insert(kinds.len() as int, kind));
            assert forall|i: int| 0 <= i < rows@.len() implies counted(
                #[trigger] rows@[i],
                after,
            ) by {
                if i < had.len() {
                    assert(rows@[i] == had[i]);
                    assert(counted(had[i], before));
                    assert(kinds[i] != kind);
                    lemma_other_kind(before, *event, had[i]);
                }
            }
        }
    }
}

/// One row per kind of event, in the order the kinds first come.
fn collapse(events: &[Event]) -> (rows: Vec<EventRow>)
    ensures
        row_kinds(rows@).no_duplicates(),
        row_kinds(rows@).to_set() == event_kinds(events@).to_set(),
        forall|i: int| 0 <= i < rows@.len() ==> counted(#[trigger] rows@[i], events@),
{
    let mut rows: Vec<EventRow> = Vec::new();
    let mut done: usize = 0;
    assert(row_kinds(rows@) =~= event_kinds(events@.take(0)));
    while done < events.len()
        invariant
            done <= events@.len(),
            row_kinds(rows@).no_duplicates(),
            row_kinds(rows@).to_set() == event_kinds(events@.take(done as int)).to_set(),
            forall|i: int|
                0 <= i < rows@.len() ==> counted(#[trigger] rows@[i], events@.take(done as int)),
        decreases events@.len() - done,
    {
        let ghost before = events@.take(done as int);
        assert(events@.take(done + 1) =~= before.push(events@[done as int]));
        count_in(&mut rows, &events[done], Ghost(before));
        done = done + 1;
    }
    assert(events@.take(done as int) =~= events@);
    rows
}

/// Whether one row goes before another.
fn first_of(left: &EventRow, right: &EventRow) -> (answer: bool)
    ensures
        answer == goes_before(*left, *right),
{
    let alphabetical = text::precedes(left.reason.as_str(), right.reason.as_str()) || (text::same(
        left.reason.as_str(),
        right.reason.as_str(),
    ) && text::precedes(left.message.as_str(), right.message.as_str()));
    match (left.last_seen, right.last_seen) {
        (Some(a), Some(b)) => a.nanosecond > b.nanosecond || (a.nanosecond == b.nanosecond
            && alphabetical),
        (Some(_), None) => true,
        (None, Some(_)) => false,
        (None, None) => alphabetical,
    }
}

/// Whether these rows are what the events collapse to, as of `now`: one row for
/// each kind of event, which says what the events of the kind come to, the latest
/// first.
pub open spec fn collapses(rows: Seq<EventRow>, events: Seq<Event>, now: Timestamp) -> bool {
    &&& row_kinds(rows).no_duplicates()
    &&& row_kinds(rows).to_set() == event_kinds(events).to_set()
    &&& forall|i: int| 0 <= i < rows.len() ==> sums_up(#[trigger] rows[i], events, now)
    &&& latest_first(rows)
}

/// Put a row among rows that are in order.
fn put(rows: &mut Vec<EventRow>, row: EventRow)
    requires
        latest_first(old(rows)@),
        row_kinds(old(rows)@).no_duplicates(),
        !row_kinds(old(rows)@).contains((row.reason@, row.message@)),
    ensures
        latest_first(final(rows)@),
        row_kinds(final(rows)@).no_duplicates(),
        row_kinds(final(rows)@).to_set() == row_kinds(old(rows)@).to_set().insert(
            (row.reason@, row.message@),
        ),
        exists|at: int|
            0 <= at <= old(rows)@.len() && final(rows)@ == #[trigger] old(rows)@.insert(at, row),
{
    let ghost had = rows@;
    let ghost kinds = row_kinds(had);
    let ghost kind = (row.reason@, row.message@);
    let mut at: usize = 0;
    while at < rows.len() && first_of(&rows[at], &row)
        invariant
            rows@ == had,
            at <= had.len(),
            forall|i: int| 0 <= i < at ==> goes_before(#[trigger] had[i], row),
        decreases had.len() - at,
    {
        at = at + 1;
    }
    rows.insert(at, row);
    proof {
        assert(rows@ == had.insert(at as int, row));
        assert(row_kinds(rows@) =~= kinds.insert(at as int, kind));
        lemma_insert_kind(kinds, at as int, kind);
        if at < had.len() {
            assert(kinds[at as int] != kind);
            lemma_goes_before_total(had[at as int], row);
        }
        assert forall|i: int| at <= i < had.len() implies goes_before(row, #[trigger] had[i]) by {
            if i > at {
                lemma_goes_before_transitive(row, had[at as int], had[i]);
            }
        }
        let after = rows@;
        assert forall|i: int, j: int| 0 <= i < j < after.len() implies goes_before(
            #[trigger] after[i],
            #[trigger] after[j],
        ) by {
            if i == at {
                assert(after[j] == had[j - 1]);
            } else if j == at {
                assert(after[i] == had[i]);
            } else {
                assert(after[i] == had[if i < at {
                    i
                } else {
                    i - 1
                }]);
                assert(after[j] == had[if j < at {
                    j
                } else {
                    j - 1
                }]);
            }
        }
    }
}

/// Group a pod's events the way `kubectl describe pod` presents them: one row
/// per reason and message, with the count and the latest occurrence folded
/// across every object that matched.
///
/// Most recent first. An event with no timestamp at all sorts last rather than
/// first, the tail rule every other ordering gives a row it cannot rank.
#[must_use]
pub fn from_events(events: &[Event], now: Timestamp) -> (rows: Vec<EventRow>)
    ensures
        collapses(rows@, events@, now),
{
    let mut left = collapse(events);
    let ghost all = event_kinds(events@).to_set();
    let mut rows: Vec<EventRow> = Vec::new();
    assert(row_kinds(rows@).to_set() =~= Set::empty());
    assert(row_kinds(left@).to_set() =~= all);
    while left.len() > 0
        invariant
            row_kinds(left@).no_duplicates(),
            row_kinds(rows@).no_duplicates(),
            all == event_kinds(events@).to_set(),
            row_kinds(left@).to_set().union(row_kinds(rows@).to_set()) == all,
            row_kinds(left@).to_set().disjoint(row_kinds(rows@).to_set()),
            forall|i: int| 0 <= i < left@.len() ==> counted(#[trigger] left@[i], events@),
            forall|i: int| 0 <= i < rows@.len() ==> sums_up(#[trigger] rows@[i], events@, now),
            latest_first(rows@),
        decreases left@.len(),
    {
        let ghost had = left@;
        let ghost before = rows@;
        let last = left.len() - 1;
        let taken = left.remove(last);
        let age = match taken.last_seen {
            Some(at) => Some(crate::format::human_duration(now.seconds_since(at))),
            None => None,
        };
        let row = EventRow {
            reason: taken.reason,
            message: taken.message,
            warning: taken.warning,
            count: taken.count,
            last_seen_age: age,
            last_seen: taken.last_seen,
        };
        let ghost kind = (row.reason@, row.message@);
        proof {
            assert(counted(had[last as int], events@));
            assert(sums_up(row, events@, now));
            assert(row_kinds(had)[last as int] == kind);
            assert(row_kinds(had).contains(kind));
            assert(row_kinds(had).to_set().contains(kind));
            assert(!row_kinds(before).to_set().contains(kind));
            assert(row_kinds(had) =~= row_kinds(left@).insert(last as int, kind));
            lemma_insert_kind(row_kinds(left@), last as int, kind);
            assert(!row_kinds(left@).contains(kind)) by {
                if row_kinds(left@).contains(kind) {
                    let i = row_kinds(left@).index_of(kind);
                    assert(row_kinds(had)[i] == kind);
                }
            }
        }
        put(&mut rows, row);
        proof {
            let at = choose|at: int|
                0 <= at <= before.len() && rows@ == #[trigger] before.insert(at, row);
            assert forall|i: int| 0 <= i < rows@.len() implies sums_up(
                #[trigger] rows@[i],
                events@,
                now,
            ) by {
                if i < at {
                    assert(rows@[i] == before[i]);
                } else if i > at {
                    assert(rows@[i] == before[i - 1]);
                }
            }
            assert(row_kinds(left@).no_duplicates()) by {
                assert forall|i: int, j: int|
                    0 <= i < left@.len() && 0 <= j < left@.len() && i != j implies row_kinds(
                    left@,
                )[i] != row_kinds(left@)[j] by {
                    assert(row_kinds(had)[i] != row_kinds(had)[j]);
                }
            }
            assert(row_kinds(left@).to_set().union(row_kinds(rows@).to_set()) =~= all);
            assert(!row_kinds(left@).to_set().contains(kind));
            assert forall|i: int| 0 <= i < left@.len() implies counted(
                #[trigger] left@[i],
                events@,
            ) by {
                assert(left@[i] == had[i]);
            }
        }
    }
    assert(row_kinds(left@).to_set() =~= Set::empty());
    assert(row_kinds(rows@).to_set() =~= all);
    rows
}

/// What a row says.
pub struct Shown {
    /// Why.
    pub reason: Seq<char>,
    /// In words.
    pub message: Seq<char>,
    /// Whether it is a warning.
    pub warning: bool,
    /// How often.
    pub count: int,
    /// How long ago, in words.
    pub age: Option<Seq<char>>,
    /// When.
    pub last: Option<Timestamp>,
}

/// What a row says.
pub open spec fn shown(row: EventRow) -> Shown {
    Shown {
        reason: row.reason@,
        message: row.message@,
        warning: row.warning,
        count: row.count as int,
        age: held(row.last_seen_age),
        last: row.last_seen,
    }
}

/// What each row says.
pub open spec fn shown_rows(rows: Seq<EventRow>) -> Seq<Shown> {
    Seq::new(rows.len(), |i: int| shown(rows[i]))
}

/// Whether no event stands for a negative number of occurrences.
pub open spec fn counts_up(events: Seq<Event>) -> bool {
    forall|i: int| 0 <= i < events.len() ==> occurrences(#[trigger] events[i]) >= 0
}

/// A tally with one more event counted in.
spec fn with_event(before: Tally, event: Event, reason: Seq<char>, message: Seq<char>) -> Tally {
    if is_kind(event, reason, message) {
        Tally {
            warning: before.warning || held(event.type_) == Some("Warning"@),
            count: pinned(before.count + occurrences(event)),
            last: later(before.last, seen_at(event)),
        }
    } else {
        before
    }
}

proof fn lemma_event_order(
    before: Tally,
    left: Event,
    right: Event,
    reason: Seq<char>,
    message: Seq<char>,
)
    requires
        i64::MIN <= before.count <= i64::MAX,
        occurrences(left) >= 0,
        occurrences(right) >= 0,
    ensures
        with_event(with_event(before, left, reason, message), right, reason, message) == with_event(
            with_event(before, right, reason, message),
            left,
            reason,
            message,
        ),
{
}

proof fn lemma_tally_range(events: Seq<Event>, reason: Seq<char>, message: Seq<char>)
    ensures
        i64::MIN <= tally(events, reason, message).count <= i64::MAX,
    decreases events.len(),
{
    if events.len() > 0 {
        lemma_tally_range(events.drop_last(), reason, message);
    }
}

/// It makes no difference whether an event is counted before others or after
/// them.
proof fn lemma_tally_moved(
    before: Seq<Event>,
    event: Event,
    after: Seq<Event>,
    reason: Seq<char>,
    message: Seq<char>,
)
    requires
        occurrences(event) >= 0,
        counts_up(after),
    ensures
        tally(before + seq![event] + after, reason, message) == tally(
            (before + after).push(event),
            reason,
            message,
        ),
    decreases after.len(),
{
    let early = before + seq![event] + after;
    let late = (before + after).push(event);
    assert(late.drop_last() =~= before + after);
    if after.len() == 0 {
        assert(early =~= late);
    } else {
        let fewer = after.drop_last();
        let last = after.last();
        assert(last == after[after.len() - 1]);
        assert(occurrences(last) >= 0);
        assert forall|i: int| 0 <= i < fewer.len() implies occurrences(#[trigger] fewer[i])
            >= 0 by {
            assert(fewer[i] == after[i]);
        }
        lemma_tally_moved(before, event, fewer, reason, message);
        assert(early.drop_last() =~= before + seq![event] + fewer);
        assert(early.last() == last);
        let base = before + fewer;
        assert(base.push(event).drop_last() =~= base);
        assert((before + after).drop_last() =~= base);
        assert((before + after).last() == last);
        lemma_tally_range(base, reason, message);
        let total = tally(base, reason, message);
        let first = tally(base.push(event), reason, message);
        let second = tally(before + after, reason, message);
        assert(first == with_event(total, event, reason, message));
        assert(second == with_event(total, last, reason, message));
        assert(tally(early, reason, message) == with_event(first, last, reason, message));
        assert(tally(late, reason, message) == with_event(second, event, reason, message));
        lemma_event_order(total, event, last, reason, message);
    }
}

/// What the events of a kind come to does not depend on the order they come in.
proof fn lemma_tally_permuted(
    first: Seq<Event>,
    second: Seq<Event>,
    reason: Seq<char>,
    message: Seq<char>,
)
    requires
        first.to_multiset() == second.to_multiset(),
        counts_up(second),
    ensures
        tally(first, reason, message) == tally(second, reason, message),
    decreases first.len(),
{
    first.to_multiset_ensures();
    second.to_multiset_ensures();
    if first.len() == 0 {
        assert(second.len() == 0);
    } else {
        let event = first.last();
        assert(first[first.len() - 1] == event);
        assert(first.contains(event));
        assert(first.to_multiset().count(event) > 0);
        assert(second.contains(event));
        let at = second.index_of(event);
        let before = second.take(at);
        let after = second.skip(at + 1);
        assert(second =~= before + seq![event] + after);
        assert(second.remove(at) =~= before + after);
        assert(first.remove(first.len() - 1) =~= first.drop_last());
        assert(first.drop_last().to_multiset() == first.to_multiset().remove(event));
        assert((before + after).to_multiset() == second.to_multiset().remove(event));
        assert forall|i: int| 0 <= i < (before + after).len() implies occurrences(
            #[trigger] (before + after)[i],
        ) >= 0 by {
            assert((before + after)[i] == second[if i < at {
                i
            } else {
                i + 1
            }]);
        }
        assert forall|i: int| 0 <= i < after.len() implies occurrences(#[trigger] after[i])
            >= 0 by {
            assert(after[i] == second[at + 1 + i]);
        }
        assert(occurrences(second[at]) >= 0);
        lemma_tally_permuted(first.drop_last(), before + after, reason, message);
        lemma_tally_moved(before, event, after, reason, message);
        assert((before + after).push(event).drop_last() =~= before + after);
    }
}

/// Whether one row goes before another, by what they say.
spec fn says_before(left: Shown, right: Shown) -> bool {
    let alphabetical = sorts_before(left.reason, right.reason) || (left.reason == right.reason
        && sorts_before(left.message, right.message));
    match (left.last, right.last) {
        (Some(a), Some(b)) => a.nanosecond > b.nanosecond || (a.nanosecond == b.nanosecond
            && alphabetical),
        (Some(a), None) => true,
        (None, Some(b)) => false,
        (None, None) => alphabetical,
    }
}

proof fn lemma_says_before_strict(left: Shown, right: Shown)
    ensures
        says_before(left, right) ==> !says_before(right, left) && left != right,
{
    lemma_sorts_before_total(left.reason, right.reason);
    lemma_sorts_before_total(right.reason, left.reason);
    lemma_sorts_before_total(left.message, right.message);
    lemma_sorts_before_total(right.message, left.message);
}

spec fn in_order(rows: Seq<Shown>) -> bool {
    forall|i: int, j: int|
        0 <= i < j < rows.len() ==> says_before(#[trigger] rows[i], #[trigger] rows[j])
}

proof fn lemma_rest_in_order(rows: Seq<Shown>)
    requires
        in_order(rows),
        rows.len() > 0,
    ensures
        in_order(rows.skip(1)),
        forall|row: Shown| #[trigger]
            rows.skip(1).contains(row) <==> rows.contains(row) && row != rows[0],
{
    let rest = rows.skip(1);
    assert forall|i: int, j: int| 0 <= i < j < rest.len() implies says_before(
        #[trigger] rest[i],
        #[trigger] rest[j],
    ) by {
        assert(rest[i] == rows[i + 1]);
        assert(rest[j] == rows[j + 1]);
    }
    assert forall|row: Shown| #[trigger] rest.contains(row) <==> rows.contains(row) && row
        != rows[0] by {
        if rest.contains(row) {
            let i = rest.index_of(row);
            assert(rows[i + 1] == row);
            lemma_says_before_strict(rows[0], rows[i + 1]);
        }
        if rows.contains(row) && row != rows[0] {
            let i = rows.index_of(row);
            assert(rest[i - 1] == row);
        }
    }
}

/// There is one way to have rows in order.
proof fn lemma_one_arrangement(first: Seq<Shown>, second: Seq<Shown>)
    requires
        in_order(first),
        in_order(second),
        forall|row: Shown| #[trigger] first.contains(row) <==> second.contains(row),
    ensures
        first == second,
    decreases first.len(),
{
    if first.len() == 0 {
        if second.len() > 0 {
            assert(second.contains(second[0]));
            assert(first.contains(second[0]));
        }
        assert(first =~= second);
    } else {
        let a = first[0];
        assert(first.contains(a));
        assert(second.contains(a));
        let j = second.index_of(a);
        let b = second[0];
        assert(second.contains(b));
        assert(first.contains(b));
        let i = first.index_of(b);
        assert(first[i] == b);
        assert(second[j] == a);
        if j > 0 {
            assert(says_before(second[0], second[j]));
            lemma_says_before_strict(b, a);
            if i > 0 {
                assert(says_before(first[0], first[i]));
            }
        }
        assert(a == b);
        lemma_rest_in_order(first);
        lemma_rest_in_order(second);
        lemma_one_arrangement(first.skip(1), second.skip(1));
        assert(first =~= seq![a] + first.skip(1));
        assert(second =~= seq![b] + second.skip(1));
    }
}

/// Every row of one collapse is a row of the other.
proof fn lemma_rows_carry_over(
    first: Seq<Event>,
    second: Seq<Event>,
    first_rows: Seq<EventRow>,
    second_rows: Seq<EventRow>,
    now: Timestamp,
    row: Shown,
)
    requires
        first.to_multiset() == second.to_multiset(),
        counts_up(first),
        counts_up(second),
        collapses(first_rows, first, now),
        collapses(second_rows, second, now),
        shown_rows(first_rows).contains(row),
    ensures
        shown_rows(second_rows).contains(row),
{
    let i = shown_rows(first_rows).index_of(row);
    let kind = (row.reason, row.message);
    assert(sums_up(first_rows[i], first, now));
    assert(row_kinds(first_rows)[i] == kind);
    assert(row_kinds(first_rows).contains(kind));
    assert(row_kinds(first_rows).to_set().contains(kind));
    assert(event_kinds(first).to_set().contains(kind));
    let e = event_kinds(first).index_of(kind);
    first.to_multiset_ensures();
    second.to_multiset_ensures();
    assert(first.contains(first[e]));
    assert(first.to_multiset().count(first[e]) > 0);
    assert(second.contains(first[e]));
    let k = second.index_of(first[e]);
    assert(event_kinds(second)[k] == kind);
    assert(event_kinds(second).to_set().contains(kind));
    assert(row_kinds(second_rows).to_set().contains(kind));
    let j = row_kinds(second_rows).index_of(kind);
    assert(row_kinds(second_rows)[j] == kind);
    assert(sums_up(second_rows[j], second, now));
    lemma_tally_permuted(first, second, row.reason, row.message);
    assert(shown(second_rows[j]) == row);
    assert(shown_rows(second_rows)[j] == row);
}

/// The rows do not depend on the order the events come in.
pub proof fn law_arrival_order_does_not_matter(
    first: Seq<Event>,
    second: Seq<Event>,
    first_rows: Seq<EventRow>,
    second_rows: Seq<EventRow>,
    now: Timestamp,
)
    requires
        first.to_multiset() == second.to_multiset(),
        counts_up(first),
        collapses(first_rows, first, now),
        collapses(second_rows, second, now),
    ensures
        shown_rows(first_rows) == shown_rows(second_rows),
{
    first.to_multiset_ensures();
    second.to_multiset_ensures();
    assert forall|i: int| 0 <= i < second.len() implies occurrences(#[trigger] second[i]) >= 0 by {
        assert(second.contains(second[i]));
        assert(second.to_multiset().count(second[i]) > 0);
        assert(first.contains(second[i]));
        let j = first.index_of(second[i]);
        assert(occurrences(first[j]) >= 0);
    }
    let a = shown_rows(first_rows);
    let b = shown_rows(second_rows);
    assert forall|i: int, j: int| 0 <= i < j < a.len() implies says_before(
        #[trigger] a[i],
        #[trigger] a[j],
    ) by {
        assert(goes_before(first_rows[i], first_rows[j]));
    }
    assert forall|i: int, j: int| 0 <= i < j < b.len() implies says_before(
        #[trigger] b[i],
        #[trigger] b[j],
    ) by {
        assert(goes_before(second_rows[i], second_rows[j]));
    }
    assert forall|row: Shown| #[trigger] a.contains(row) <==> b.contains(row) by {
        if a.contains(row) {
            lemma_rows_carry_over(first, second, first_rows, second_rows, now, row);
        }
        if b.contains(row) {
            lemma_rows_carry_over(second, first, second_rows, first_rows, now, row);
        }
    }
    lemma_one_arrangement(a, b);
}

/// What [`empty_note`] says.
pub open spec fn empty_text(created: Option<Timestamp>, now: Timestamp) -> Seq<char> {
    let expired =
        "No events in the last hour. The API server only keeps them for about that long, so an older pod may simply have nothing left to show."@;
    match created {
        Some(created) => if seconds_between(created, now) < RETENTION_SECS {
            "No events yet — this pod is only "@ + crate::format::duration_text(
                seconds_between(created, now),
            ) + " old, and the API server has had nothing to record against it."@
        } else {
            expired
        },
        None => expired,
    }
}

/// What to say about a pod with no events at all.
///
/// "Nothing has happened" and "something happened and expired" are different
/// claims. A pod younger than the retention cannot have lost anything to expiry.
/// An older pod with no events might have, and the honest sentence says so.
#[must_use]
pub fn empty_note(pod_created_at: Option<Timestamp>, now: Timestamp) -> (note: String)
    ensures
        note@ == empty_text(pod_created_at, now),
{
    if let Some(created) = pod_created_at {
        let age = now.seconds_since(created);
        if age < RETENTION_SECS {
            return "No events yet — this pod is only ".to_owned().concat(
                crate::format::human_duration(age).as_str(),
            ).concat(" old, and the API server has had nothing to record against it.");
        }
    }
    "No events in the last hour. The API server only keeps them for about that long, so an older pod may simply have nothing left to show.".to_owned()
}

} // verus!
