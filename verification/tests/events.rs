use eks::k8s::api::{Event, EventSeries, ObjectMeta};
use eks::k8s::pods::events::{empty_note, field_selector, from_events};
use eks::time::Timestamp;

/// A moment, as its text says.
fn moment(text: &str) -> Timestamp {
    let parsed: k8s_openapi::jiff::Timestamp = text.parse().unwrap();
    Timestamp {
        nanosecond: parsed.as_nanosecond(),
    }
}

/// A moment, some minutes before another.
fn minutes_before(later: Timestamp, minutes: i64) -> Timestamp {
    Timestamp {
        nanosecond: later.nanosecond - i128::from(minutes) * 60_000_000_000,
    }
}

fn now() -> Timestamp {
    moment("2024-01-01T00:00:00Z")
}

fn ago(minutes: i64) -> Timestamp {
    minutes_before(now(), minutes)
}

fn event(reason: &str, message: &str, event_type: &str) -> Event {
    Event {
        reason: Some(reason.to_owned()),
        message: Some(message.to_owned()),
        type_: Some(event_type.to_owned()),
        ..Default::default()
    }
}

#[test]
fn the_field_selector_names_both_the_pod_and_its_namespace() {
    assert_eq!(
        field_selector("payments", "api-7c9"),
        "involvedObject.name=api-7c9,involvedObject.namespace=payments"
    );
}

#[test]
fn a_single_event_becomes_one_row_with_a_count_of_one() {
    let mut created = event("Pulled", "Successfully pulled image", "Normal");
    created.last_timestamp = Some(ago(5));

    let rows = from_events(&[created], now());

    assert_eq!(rows.len(), 1);
    assert_eq!(rows[0].reason, "Pulled");
    assert_eq!(rows[0].message, "Successfully pulled image");
    assert!(!rows[0].warning);
    assert_eq!(rows[0].count, 1);
    assert_eq!(rows[0].last_seen_age.as_deref(), Some("5m"));
}

#[test]
fn a_warning_event_is_distinguished_from_a_normal_one() {
    let rows = from_events(&[event("BackOff", "restarting", "Warning")], now());
    assert!(rows[0].warning);
}

#[test]
fn repeated_events_with_the_same_reason_and_message_collapse_into_one_row() {
    // The same complaint recorded as three separate objects — an older
    // event source, or a controller that never adopted `EventSeries` —
    // reads as one row with the total count, exactly as `kubectl describe
    // pod` shows a single object whose own `count` incremented three
    // times.
    let mut first = event("BackOff", "Back-off restarting failed container", "Warning");
    first.last_timestamp = Some(ago(20));
    let mut second = event("BackOff", "Back-off restarting failed container", "Warning");
    second.last_timestamp = Some(ago(10));
    let mut third = event("BackOff", "Back-off restarting failed container", "Warning");
    third.last_timestamp = Some(ago(2));

    let rows = from_events(&[first, second, third], now());

    assert_eq!(rows.len(), 1);
    assert_eq!(rows[0].count, 3);
    assert_eq!(rows[0].last_seen_age.as_deref(), Some("2m"));
}

#[test]
fn an_events_own_series_count_is_used_instead_of_one_per_object() {
    let mut repeated = event("BackOff", "restarting", "Warning");
    repeated.series = Some(EventSeries {
        count: Some(12),
        last_observed_time: Some(ago(3)),
    });

    let rows = from_events(&[repeated], now());
    assert_eq!(rows[0].count, 12);
    assert_eq!(rows[0].last_seen_age.as_deref(), Some("3m"));
}

#[test]
fn a_series_last_observed_time_wins_over_the_legacy_last_timestamp() {
    let mut repeated = event("BackOff", "restarting", "Warning");
    repeated.last_timestamp = Some(ago(20));
    repeated.series = Some(EventSeries {
        count: Some(2),
        last_observed_time: Some(ago(3)),
    });

    let rows = from_events(&[repeated], now());
    assert_eq!(rows[0].last_seen_age.as_deref(), Some("3m"));
}

#[test]
fn the_creation_timestamp_is_the_last_resort_for_when_an_event_happened() {
    let mut dated = event("Scheduled", "assigned to a node", "Normal");
    dated.metadata = ObjectMeta {
        creation_timestamp: Some(ago(30)),
        ..Default::default()
    };

    let rows = from_events(&[dated], now());
    assert_eq!(rows[0].last_seen_age.as_deref(), Some("30m"));
}

#[test]
fn an_event_with_no_timestamp_at_all_has_no_age_rather_than_a_guess() {
    let rows = from_events(&[event("Pulled", "pulled image", "Normal")], now());
    assert_eq!(rows[0].last_seen_age, None);
}

#[test]
fn rows_are_sorted_most_recently_seen_first() {
    let mut old = event("Scheduled", "assigned", "Normal");
    old.last_timestamp = Some(ago(30));
    let mut recent = event("Pulled", "pulled image", "Normal");
    recent.last_timestamp = Some(ago(2));

    let rows = from_events(&[old, recent], now());

    assert_eq!(rows[0].reason, "Pulled");
    assert_eq!(rows[1].reason, "Scheduled");
}

#[test]
fn an_event_with_no_timestamp_sorts_after_every_dated_one() {
    let mut dated = event("Scheduled", "assigned", "Normal");
    dated.last_timestamp = Some(ago(30));
    let undated = event("Pulled", "pulled image", "Normal");

    let rows = from_events(&[undated, dated], now());

    assert_eq!(rows[0].reason, "Scheduled");
    assert_eq!(rows[1].reason, "Pulled");
}

#[test]
fn an_empty_listing_produces_no_rows() {
    assert!(from_events(&[], now()).is_empty());
}

#[test]
fn empty_note_reads_confidently_for_a_pod_younger_than_the_retention_window() {
    let note = empty_note(Some(ago(5)), now());
    assert!(note.contains("only 5m old"), "{note}");
    assert!(!note.contains("last hour"), "{note}");
}

#[test]
fn empty_note_hedges_for_a_pod_older_than_the_retention_window() {
    let note = empty_note(Some(ago(120)), now());
    assert!(note.contains("last hour"), "{note}");
    assert!(note.contains("may simply have nothing left"), "{note}");
}

#[test]
fn empty_note_hedges_when_the_pod_has_no_creation_timestamp_either() {
    // A hand-crafted object with no `creationTimestamp` should not be
    // misread as a brand-new pod — the API server always sets this, so
    // its absence is not something to be confident about either way.
    let note = empty_note(None, now());
    assert!(note.contains("last hour"), "{note}");
}
