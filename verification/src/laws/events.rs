//! What the rows of a pod's events say of the events, and what the rows of its
//! containers say of the containers.

use vstd::prelude::*;

use crate::format::duration_text;
use crate::k8s::api::{Container, ContainerStatus, Event};
use crate::k8s::pods::containers::{describes, status_named, ContainerRow};
use crate::k8s::pods::events::{
    collapses, empty_text, event_kinds, is_kind, occurrences, row_kinds, tally, EventRow,
};
use crate::laws::listing::{plain, shown};
use crate::laws::status::ending;
use crate::laws::sum;
use crate::text::decimal;
use crate::time::{seconds_between, Timestamp};

verus! {

/// How often an event happened: as its series counts, or as it counts itself, or
/// once.
pub open spec fn times(event: Event) -> int {
    if event.series is Some && event.series->0.count is Some {
        event.series->0.count->0 as int
    } else if event.count is Some {
        event.count->0 as int
    } else {
        1
    }
}

/// When an event last happened, by the best of the moments it gives.
pub open spec fn moment(event: Event) -> Option<Timestamp> {
    if event.series is Some && event.series->0.last_observed_time is Some {
        event.series->0.last_observed_time
    } else if event.last_timestamp is Some {
        event.last_timestamp
    } else if event.event_time is Some {
        event.event_time
    } else {
        event.metadata.creation_timestamp
    }
}

/// Whether an event is what a row is about: its reason and message are the row's.
pub open spec fn is_about(row: EventRow, event: Event) -> bool {
    row.reason@ == plain(event.reason) && row.message@ == plain(event.message)
}

/// Whether an event is a warning.
pub open spec fn warns(event: Event) -> bool {
    event.type_ is Some && event.type_->0@ == "Warning"@
}

/// How often each of these events happened that a row is about.
pub open spec fn each_time(row: EventRow, events: Seq<Event>) -> Seq<int> {
    Seq::new(
        events.len(),
        |i: int|
            if is_about(row, events[i]) {
                times(events[i])
            } else {
                0
            },
    )
}

proof fn lemma_tally(row: EventRow, events: Seq<Event>)
    ensures
        ({
            let total = tally(events, row.reason@, row.message@);
            &&& (forall|i: int|
                0 <= i < events.len() ==> #[trigger] each_time(row, events)[i] >= 0) && sum(
                each_time(row, events),
            ) <= i64::MAX ==> total.count == sum(each_time(row, events)) && sum(
                each_time(row, events),
            ) >= 0
            &&& total.warning <==> exists|i: int|
                0 <= i < events.len() && is_about(row, #[trigger] events[i]) && warns(events[i])
            &&& forall|i: int|
                0 <= i < events.len() && is_about(row, #[trigger] events[i]) && moment(
                    events[i],
                ) is Some ==> total.last is Some && total.last->0.nanosecond >= moment(
                    events[i],
                )->0.nanosecond
            &&& total.last is Some ==> exists|i: int|
                0 <= i < events.len() && is_about(row, #[trigger] events[i]) && moment(events[i])
                    == total.last
        }),
    decreases events.len(),
{
    if events.len() > 0 {
        let before = events.drop_last();
        let last = events.len() - 1;
        assert(forall|i: int| 0 <= i < before.len() ==> before[i] == events[i]);
        lemma_tally(row, before);
        let all = each_time(row, events);
        let had = each_time(row, before);
        let old = tally(before, row.reason@, row.message@);
        let total = tally(events, row.reason@, row.message@);
        assert(events.last() == events[last]);
        assert(all.drop_last() =~= had);
        assert(crate::k8s::pods::events::is_kind(events.last(), row.reason@, row.message@)
            == is_about(row, events[last]));
        if (forall|i: int| 0 <= i < events.len() ==> #[trigger] all[i] >= 0) {
            assert forall|i: int| 0 <= i < before.len() implies #[trigger] had[i] >= 0 by {
                assert(had[i] == all[i]);
            }
            assert(all[last] >= 0);
            crate::laws::lemma_sum_at_least(had);
        }
        if old.warning {
            let i = choose|i: int|
                0 <= i < before.len() && is_about(row, #[trigger] before[i]) && warns(before[i]);
            assert(events[i] == before[i]);
        }
        if old.last is Some {
            let i = choose|i: int|
                0 <= i < before.len() && is_about(row, #[trigger] before[i]) && moment(before[i])
                    == old.last;
            assert(events[i] == before[i]);
        }
        if exists|i: int|
            0 <= i < events.len() && is_about(row, #[trigger] events[i]) && warns(events[i]) {
            let i = choose|i: int|
                0 <= i < events.len() && is_about(row, #[trigger] events[i]) && warns(events[i]);
            if i < last {
                assert(is_about(row, before[i]) && warns(before[i]));
            }
        }
        assert forall|i: int|
            0 <= i < events.len() && is_about(row, #[trigger] events[i]) && moment(
                events[i],
            ) is Some implies total.last is Some && total.last->0.nanosecond >= moment(
            events[i],
        )->0.nanosecond by {
            if i < last {
                assert(is_about(row, before[i]));
            }
        }
        if total.last is Some && total.last != old.last {
            assert(is_about(row, events[last]) && moment(events[last]) == total.last);
        }
    }
}

/// Every event is in exactly one row, that of its reason and message. A row counts
/// how often its events happened in all, warns where one of them does, and gives the
/// newest moment that one of them gives; and the rows run from the newest to the
/// oldest, those without a moment last.
pub proof fn law_rows_count_their_events(
    rows: Seq<EventRow>,
    events: Seq<Event>,
    now: Timestamp,
    place: int,
)
    requires
        collapses(rows, events, now),
        0 <= place < rows.len(),
    ensures
        ({
            let row = rows[place];
            &&& (forall|i: int|
                0 <= i < events.len() ==> #[trigger] each_time(row, events)[i] >= 0) && sum(
                each_time(row, events),
            ) <= i64::MAX ==> row.count == sum(each_time(row, events))
            &&& row.warning <==> exists|i: int|
                0 <= i < events.len() && is_about(row, #[trigger] events[i]) && warns(events[i])
            &&& forall|i: int|
                0 <= i < events.len() && is_about(row, #[trigger] events[i]) && moment(
                    events[i],
                ) is Some ==> row.last_seen is Some && row.last_seen->0.nanosecond >= moment(
                    events[i],
                )->0.nanosecond
            &&& row.last_seen is Some ==> exists|i: int|
                0 <= i < events.len() && is_about(row, #[trigger] events[i]) && moment(events[i])
                    == row.last_seen
            &&& row.last_seen_age is Some <==> row.last_seen is Some
            &&& exists|i: int| 0 <= i < events.len() && is_about(row, #[trigger] events[i])
            &&& forall|other: int|
                place < other < rows.len() ==> {
                    let next = #[trigger] rows[other];
                    &&& next.last_seen is Some ==> row.last_seen is Some
                        && row.last_seen->0.nanosecond >= next.last_seen->0.nanosecond
                    &&& row.reason@ != next.reason@ || row.message@ != next.message@
                }
        }),
{
    let row = rows[place];
    lemma_tally(row, events);
    assert(crate::k8s::pods::events::sums_up(rows[place], events, now));
    let kinds = row_kinds(rows);
    let kind = (row.reason@, row.message@);
    assert(kinds[place] == kind);
    assert(kinds.contains(kind));
    assert(kinds.to_set().contains(kind));
    assert(event_kinds(events).to_set().contains(kind));
    let i = event_kinds(events).index_of(kind);
    assert(event_kinds(events)[i] == kind);
    assert(or_nothing(events[i].reason) == plain(events[i].reason));
    assert(is_about(row, events[i])) by {
        assert(or_nothing(events[i].message) == plain(events[i].message));
    }
    assert forall|other: int| place < other < rows.len() implies ({
        let next = #[trigger] rows[other];
        &&& next.last_seen is Some ==> row.last_seen is Some && row.last_seen->0.nanosecond
            >= next.last_seen->0.nanosecond
        &&& row.reason@ != next.reason@ || row.message@ != next.message@
    }) by {
        assert(crate::k8s::pods::events::goes_before(rows[place], rows[other]));
        assert(kinds[other] == (rows[other].reason@, rows[other].message@));
    }
}

spec fn or_nothing(text: Option<String>) -> Seq<char> {
    crate::k8s::pods::events::or_empty(text)
}

/// Every event has a row.
pub proof fn law_every_event_has_a_row(
    rows: Seq<EventRow>,
    events: Seq<Event>,
    now: Timestamp,
    place: int,
)
    requires
        collapses(rows, events, now),
        0 <= place < events.len(),
    ensures
        exists|i: int| 0 <= i < rows.len() && is_about(#[trigger] rows[i], events[place]),
{
    let kinds = event_kinds(events);
    let kind = (plain(events[place].reason), plain(events[place].message));
    assert(or_nothing(events[place].reason) == plain(events[place].reason));
    assert(or_nothing(events[place].message) == plain(events[place].message));
    assert(kinds[place] == kind);
    assert(kinds.contains(kind));
    assert(kinds.to_set().contains(kind));
    assert(row_kinds(rows).to_set().contains(kind));
    let i = row_kinds(rows).index_of(kind);
    assert(row_kinds(rows)[i] == kind);
    assert(is_about(rows[i], events[place]));
}

/// One more event of a kind adds its count, which stops at the ends of what an `i64`
/// holds; and one of another kind adds nothing.
pub proof fn law_one_more_event_adds_its_count(
    events: Seq<Event>,
    event: Event,
    reason: Seq<char>,
    message: Seq<char>,
)
    ensures
        ({
            let before = tally(events, reason, message);
            let after = tally(events.push(event), reason, message);
            let exact = before.count + occurrences(event);
            if is_kind(event, reason, message) {
                ||| i64::MIN <= exact <= i64::MAX && after.count == exact
                ||| exact > i64::MAX && after.count == i64::MAX
                ||| exact < i64::MIN && after.count == i64::MIN
            } else {
                after == before
            }
        }),
{
    assert(events.push(event).drop_last() =~= events);
}

/// A pod less than an hour old without events is said to be that young, and any other
/// may have had some that are gone.
pub proof fn law_young_pods_have_lost_no_events(created: Timestamp, now: Timestamp)
    ensures
        seconds_between(created, now) < 3600 ==> empty_text(Some(created), now)
            == "No events yet — this pod is only "@ + duration_text(seconds_between(created, now))
            + " old, and the API server has had nothing to record against it."@,
        seconds_between(created, now) >= 3600 ==> empty_text(Some(created), now) == empty_text(
            None,
            now,
        ),
        empty_text(None, now)
            == "No events in the last hour. The API server only keeps them for about that long, so an older pod may simply have nothing left to show."@,
{
}

/// Whether the status at a place is the first of its name.
pub open spec fn first_status(
    statuses: Seq<ContainerStatus>,
    name: Seq<char>,
    place: int,
) -> bool {
    &&& 0 <= place < statuses.len()
    &&& statuses[place].name@ == name
    &&& forall|i: int| 0 <= i < place ==> (#[trigger] statuses[i]).name@ != name
}

proof fn lemma_status_named(statuses: Seq<ContainerStatus>, name: Seq<char>)
    ensures
        forall|place: int| #[trigger]
            first_status(statuses, name, place) ==> status_named(statuses, name) == Some(
                statuses[place],
            ),
        (forall|i: int| 0 <= i < statuses.len() ==> (#[trigger] statuses[i]).name@ != name)
            ==> status_named(statuses, name) is None,
    decreases statuses.len(),
{
    if statuses.len() > 0 {
        let rest = statuses.skip(1);
        assert(forall|i: int| 0 <= i < rest.len() ==> rest[i] == statuses[i + 1]);
        lemma_status_named(rest, name);
        assert forall|place: int| #[trigger] first_status(statuses, name, place) implies
            status_named(statuses, name) == Some(statuses[place]) by {
            if place > 0 {
                assert(statuses[0].name@ != name);
                assert forall|i: int| 0 <= i < place - 1 implies (#[trigger] rest[i]).name@
                    != name by {
                    assert(rest[i] == statuses[i + 1]);
                }
                assert(first_status(rest, name, place - 1));
            }
        }
        if forall|i: int| 0 <= i < statuses.len() ==> (#[trigger] statuses[i]).name@ != name {
            assert(statuses[0].name@ != name);
            assert forall|i: int| 0 <= i < rest.len() implies (#[trigger] rest[i]).name@
                != name by {
                assert(rest[i] == statuses[i + 1]);
            }
        }
    }
}

/// A row of a container that nothing was reported of waits, and is not alarming yet.
pub proof fn law_unreported_containers_wait(
    row: ContainerRow,
    declared: Container,
    statuses: Seq<ContainerStatus>,
    init: bool,
)
    requires
        describes(row, declared, statuses, init),
        forall|i: int| 0 <= i < statuses.len() ==> (#[trigger] statuses[i]).name@ != declared.name@,
    ensures
        row.name@ == declared.name@,
        row.init == init,
        row.image@ == shown(plain(declared.image)),
        !row.ready,
        row.restarts == 0,
        row.state@ == "Waiting"@,
        row.severity is Warn,
{
    lemma_status_named(statuses, declared.name@);
    reveal_strlit("-");
    assert("-"@ =~= seq!['-']);
}

/// A row of a container says what the first status of its name reports: the image it
/// runs, or was declared with, its readiness and restarts; that it runs, or else what
/// it waits for, or else how it ended. It is calm where the container runs and is
/// ready, or ended well; it is settling where the container runs and is not ready, or
/// is being created; it is a problem where the container waits or ended otherwise.
pub proof fn law_container_rows_speak_for_their_status(
    row: ContainerRow,
    declared: Container,
    statuses: Seq<ContainerStatus>,
    init: bool,
    place: int,
)
    requires
        describes(row, declared, statuses, init),
        first_status(statuses, declared.name@, place),
    ensures
        ({
            let status = statuses[place];
            let known = status.state is Some;
            let runs = known && status.state->0.running is Some;
            let waits = known && !runs && status.state->0.waiting is Some;
            let over = known && !runs && !waits && status.state->0.terminated is Some;
            let reason = plain(status.state->0.waiting->0.reason);
            let terminated = status.state->0.terminated->0;
            &&& row.name@ == declared.name@
            &&& row.init == init
            &&& row.image@ == if status.image@.len() > 0 {
                status.image@
            } else {
                shown(plain(declared.image))
            }
            &&& row.ready == status.ready
            &&& row.restarts == status.restart_count
            &&& runs ==> row.state@ == "Running"@
            &&& runs && status.ready ==> row.severity is Okay
            &&& runs && !status.ready ==> row.severity is Warn
            &&& waits && reason.len() > 0 ==> row.state@ == "Waiting: "@ + reason
            &&& waits && reason.len() == 0 ==> row.state@ == "Waiting: "@ + "Waiting"@
                && row.severity is Critical
            &&& waits && (reason == "ContainerCreating"@ || reason == "PodInitializing"@)
                ==> row.severity is Warn
            &&& waits && reason != "ContainerCreating"@ && reason != "PodInitializing"@
                ==> row.severity is Critical
            &&& over ==> row.state@ == "Terminated: "@ + ending(terminated) + " ("@ + decimal(
                terminated.exit_code as int,
            ) + ")"@
            &&& over && terminated.exit_code == 0 ==> row.severity is Okay
            &&& over && terminated.exit_code != 0 ==> row.severity is Critical
            &&& !runs && !waits && !over ==> row.state@ == "Unknown"@ && row.severity is Unknown
        }),
{
    lemma_status_named(statuses, declared.name@);
    reveal_strlit("-");
    assert("-"@ =~= seq!['-']);
    reveal_strlit("Waiting");
    reveal_strlit("ContainerCreating");
    reveal_strlit("PodInitializing");
    assert("Waiting"@.len() == 7);
    assert("ContainerCreating"@.len() == 17);
    assert("PodInitializing"@.len() == 15);
}

} // verus!
