use eks::format::Width;
use eks::k8s::api::{ApiQuantity, Event, Pod};
use eks::k8s::metrics::{pod_usage, ContainerSample};
use eks::k8s::order::{compare, Cause, Direction, Placement, Rank};
use eks::k8s::pods::events::from_events;
use eks::k8s::pods::row::{columns, Column};
use eks::k8s::pods::status::severity;
use eks::k8s::pods::{
    live_params, note, render, sort, unranked_note, ListParams, Missing, Order, PodRow, Requests,
    Scope, Selectors,
};
use eks::k8s::quantity::{count, cpu, memory, Error, Quantity, Ratio};
use eks::k8s::resource::heading;
use eks::k8s::selector::{field_selector, label_selector};
use eks::name_map::NameMap;
use eks::theme::{
    foreground, parse_background_reply, Channel, Color, Palette, Severity, Theme,
};
use eks::time::Timestamp;

/// Numbers that look random and are the same every time.
struct Numbers(u64);

impl Numbers {
    fn next(&mut self) -> u64 {
        self.0 ^= self.0 << 13;
        self.0 ^= self.0 >> 7;
        self.0 ^= self.0 << 17;
        self.0
    }
}

fn seconds(second: i128) -> Timestamp {
    Timestamp {
        nanosecond: second * 1_000_000_000,
    }
}

#[test]
fn what_cpu_writes_reads_back() {
    for thousandths in [0, 1, -1, 999, 1000, -1000, 1500, 123_456, i128::MAX, i128::MIN] {
        let quantity = Quantity { thousandths };
        assert_eq!(Quantity::parse(&cpu(quantity)), Ok(quantity));
        assert_eq!(count(quantity), cpu(quantity));
    }
}

#[test]
fn memory_agrees_with_double_precision() {
    fn expected(bytes: i128) -> String {
        let sign = if bytes < 0 { "-" } else { "" };
        let magnitude = bytes.unsigned_abs();
        for (suffix, bits) in [
            ("Ei", 60),
            ("Pi", 50),
            ("Ti", 40),
            ("Gi", 30),
            ("Mi", 20),
            ("Ki", 10),
        ] {
            let unit = 1_u128 << bits;
            if magnitude >= unit {
                let scaled = magnitude as f64 / unit as f64;
                let text = format!("{scaled:.1}");
                return format!("{sign}{}{suffix}", text.trim_end_matches(".0"));
            }
        }
        format!("{bytes}")
    }

    let mut numbers = Numbers(0x1234_5678_9abc_def1);
    let mut bytes: Vec<i128> = vec![
        0,
        1023,
        1024,
        1025,
        1280,
        1536,
        1_048_575,
        (1 << 53) - 1,
        (1 << 53) + 1,
        (1 << 59) + 1,
        (1 << 60) - 1,
        -(1 << 60) - 1,
        i128::MAX / 1000,
        i128::MIN / 1000,
    ];
    for shift in 0..64 {
        for _ in 0..40 {
            bytes.push(i128::from(numbers.next() >> shift));
        }
    }
    for _ in 0..500 {
        bytes.push(((i128::from(numbers.next()) << 50) | i128::from(numbers.next() >> 14)) >> 2);
        // Near the ties between two tenths of a unit, where rounding to double
        // precision shows.
        let tie = i128::from(numbers.next() % 2048) * (1 << 48) / 5;
        bytes.push(tie + i128::from(numbers.next() % 257) - 128);
    }
    for bytes in bytes {
        let quantity = Quantity {
            thousandths: bytes * 1000,
        };
        assert_eq!(memory(quantity), expected(bytes), "{bytes}");
    }
}

#[test]
fn a_quantity_is_rounded_to_the_nearest_thousandth_however_many_digits_it_has() {
    let parse = |text: &str| Quantity::parse(text).unwrap().thousandths();
    assert_eq!(parse("1499u"), 1);
    assert_eq!(parse("-1500u"), -2);
    // As many digits as can be held, a little under two thousandths.
    assert_eq!(parse("170141183460469231731687303715884105727e-41"), 2);
    assert_eq!(parse("-170141183460469231731687303715884105728e-41"), -2);
    assert_eq!(parse("170141183460469231731687303715884105727e-42"), 0);
    // Zero is representable at any scale.
    assert_eq!(parse("0e9223372036854775807"), 0);
    assert_eq!(parse("-0.000Ei"), 0);
    assert_eq!(parse("170141183460469231731687303715884105727m"), i128::MAX);
    assert!(matches!(
        Quantity::parse("170141183460469231731687303715884105728m"),
        Err(Error::TooLarge(_))
    ));
    // An exponent may be any integer: what counts is the value.
    assert_eq!(
        Quantity::parse("1e9223372036854775808"),
        Err(Error::TooLarge("1e9223372036854775808".to_owned()))
    );
    assert_eq!(parse("0e9223372036854775808"), 0);
    assert_eq!(parse("1e-9223372036854775809"), 0);
    assert_eq!(parse("-1e-99999999999999999999999999"), 0);
    // So may the digits.
    assert_eq!(parse("1.000000000000000000000000000000000000000"), 1000);
    assert_eq!(
        parse("1.0000000000000000000000000000000000000Ei"),
        1_152_921_504_606_846_976_000
    );
    assert_eq!(parse("1000000000000000000000000000000000000000e-39"), 1000);
}

#[test]
fn a_tie_is_rounded_away_from_zero_on_either_side() {
    for (text, thousandths) in [
        ("2500u", 3),
        ("2499u", 2),
        ("2501u", 3),
        ("-2500u", -3),
        ("-2499u", -2),
        ("0.0005", 1),
        ("-0.0005", -1),
        ("0.00049999999999999999999999999999999999999999", 0),
    ] {
        assert_eq!(Quantity::parse(text), Ok(Quantity { thousandths }), "{text}");
    }
}

#[test]
fn a_pod_uses_what_all_its_containers_use() {
    let sample = |cpu: &str, memory: Option<&str>| {
        let mut usage = NameMap::new();
        usage.insert("cpu".to_owned(), ApiQuantity(cpu.to_owned()));
        if let Some(memory) = memory {
            usage.insert("memory".to_owned(), ApiQuantity(memory.to_owned()));
        }
        ContainerSample { usage }
    };
    let both = pod_usage(&[sample("250m", Some("1Ki")), sample("1", Some("1"))]);
    assert_eq!(both.cpu, Some(Quantity { thousandths: 1250 }));
    assert_eq!(both.memory, Some(Quantity { thousandths: 1_025_000 }));
    // A figure that is missing or cannot be read is never a zero.
    let partly = pod_usage(&[sample("x", Some("1Ki")), sample("1", None)]);
    assert_eq!(partly.cpu, None);
    assert_eq!(partly.memory, None);
    assert_eq!(pod_usage(&[]).cpu, None);
}

#[test]
fn a_quantity_error_quotes_what_it_is_about() {
    assert_eq!(
        Error::TooLarge("1\te9".to_owned()).message(),
        "\"1\\te9\" is larger than this tool can represent; is the value correct?"
    );
    assert_eq!(
        Quantity::from_api(&ApiQuantity("x".to_owned()))
            .unwrap_err()
            .message(),
        "\"x\" is not a Kubernetes quantity.\n\
         Expected a number with an optional unit, like \"100m\", \"1.5\", \"2Gi\", or \"1e3\"."
    );
}

#[test]
fn a_total_pins_and_a_sum_takes_either_order() {
    let small = Quantity { thousandths: 5 };
    let large = Quantity {
        thousandths: i128::MAX - 1,
    };
    assert_eq!(small + large, large + small);
    assert_eq!((small + large).thousandths(), i128::MAX);
    let debt = Quantity {
        thousandths: i128::MIN,
    };
    assert_eq!((debt + debt).thousandths(), i128::MIN);
    assert_eq!((debt + large).thousandths(), -2);
    assert_eq!(Quantity { thousandths: -1999 }.units(), -1);
}

#[test]
fn every_device_survives_a_sum_and_a_peak() {
    let asked = |name: &str, thousandths: i128| {
        let mut requests = Requests::default();
        requests
            .extended
            .insert(name.to_owned(), Quantity { thousandths });
        requests
    };
    for both in [
        asked("a/x", 3).plus(asked("b/y", 4)),
        asked("a/x", 3).max(asked("b/y", 4)),
        asked("b/y", 4).max(asked("a/x", 3)),
    ] {
        assert_eq!(both.extended("a/x").thousandths(), 3);
        assert_eq!(both.extended("b/y").thousandths(), 4);
        assert_eq!(both.extended("c/z").thousandths(), 0);
    }
    assert_eq!(
        asked("a/x", 3).plus(asked("a/x", 4)).extended("a/x").thousandths(),
        7
    );
    assert_eq!(
        asked("a/x", 3).max(asked("a/x", 4)).extended("a/x").thousandths(),
        4
    );
    // The one case in which the sides of a peak are not alike.
    assert_eq!(asked("a/x", -3).max(Requests::default()).extended("a/x").thousandths(), -3);
    assert_eq!(Requests::default().max(asked("a/x", -3)).extended("a/x").thousandths(), 0);
}

#[test]
fn a_canonical_label_selector_is_its_own_canonical_form() {
    for input in [
        "",
        "app=api",
        " app == api , tier notin ( a,b ) ,!gone, here",
        "a.b/c in (x)",
        "k=",
        "k != v",
    ] {
        let canonical = label_selector(input).unwrap();
        assert_eq!(label_selector(&canonical), Ok(canonical.clone()), "{input}");
    }
    assert_eq!(
        label_selector(" app == api , tier notin ( a,b ) ,!gone, here").unwrap(),
        "app=api,tier notin (a,b),!gone,here"
    );
}

#[test]
fn a_canonical_label_selector_is_tidy() {
    for input in ["\t", " a == b ", "\nk==\t", " !  a , b in ( c ) ", "a != b ,c "] {
        let canonical = label_selector(input).unwrap();
        assert_eq!(canonical.trim(), canonical, "{input:?}");
        assert!(!canonical.contains("=="), "{input:?}");
        assert_eq!(canonical.is_empty(), input.trim().is_empty(), "{input:?}");
    }
}

#[test]
fn label_selectors_joined_by_a_comma_stay_joined_by_a_comma() {
    let inputs = ["app == api", " tier notin ( a,b ) ", "!gone,here", "k=", "b in (x , y), c != d"];
    for first in inputs {
        for second in inputs {
            assert_eq!(
                label_selector(&format!("{first},{second}")).unwrap(),
                format!(
                    "{},{}",
                    label_selector(first).unwrap(),
                    label_selector(second).unwrap()
                )
            );
        }
    }
}

#[test]
fn a_canonical_field_selector_is_its_own_canonical_form() {
    for input in ["", "status.phase != Running", "a=b,c==d", "a!==b", "metadata.namespace="] {
        let canonical = field_selector(input).unwrap();
        assert_eq!(field_selector(&canonical), Ok(canonical.clone()), "{input}");
    }
    // Where a value starts with the operator's own character, it is not.
    assert_eq!(field_selector("a= =b").unwrap(), "a==b");
    assert_eq!(field_selector("a==b").unwrap(), "a=b");
}

#[test]
fn each_selector_problem_is_worded_for_what_is_wrong() {
    for (input, words) in [
        ("a,,b", "empty requirement"),
        ("a in (x", "missing its closing `)`"),
        ("in (x)", "must read `key in (…)`"),
        ("!a in (x)", "cannot be negated"),
        ("a in (x,)", "empty value between its parentheses"),
        ("a in (-)", "the value \"-\" in \"a in (-)\""),
        ("a over (x)", "\"over\" is not a set operator in \"a over (x)\""),
        ("a in", "e.g. `a in (a, b)`"),
        ("=v", "has no label key"),
        ("A/b=v", "invalid prefix before its `/`"),
        ("a/b/c=v", "invalid prefix before its `/`"),
        ("-a=v", "is not a valid Kubernetes label name"),
        ("a=-", "is not a valid Kubernetes label value"),
    ] {
        let message = label_selector(input).unwrap_err().message();
        assert!(message.contains(words), "{input}: {message}");
    }
    for (input, words) in [
        ("a=b,", "empty requirement"),
        ("a", "needs an operator"),
        ("=b", "has no field name before its operator"),
    ] {
        let message = field_selector(input).unwrap_err().message();
        assert!(message.contains(words), "{input}: {message}");
    }
}

#[test]
fn a_heading_is_in_upper_case_beyond_ascii_too() {
    assert_eq!(heading("nvidia.com/gpu-1"), "NVIDIA.COM/GPU-1");
    assert_eq!(heading("straße/ñ"), "STRASSE/Ñ");
}

#[test]
fn selectors_that_are_not_set_are_not_sent() {
    let selectors = Selectors {
        label: Some("app=api".to_owned()),
        field: None,
    };
    assert_eq!(
        selectors.to_params(),
        ListParams {
            label_selector: Some("app=api".to_owned()),
            field_selector: None,
        }
    );
    assert_eq!(
        live_params().field_selector.as_deref(),
        Some("status.phase!=Succeeded,status.phase!=Failed")
    );
}

fn row(name: &str, cpu_used: Option<i128>) -> PodRow {
    let mut pod = Pod::default();
    pod.metadata.name = Some(name.to_owned());
    let mut row = PodRow::from_pod(&pod, None, seconds(0));
    row.cpu_used = cpu_used.map(|thousandths| Quantity { thousandths });
    row
}

#[test]
fn a_listing_is_arranged_one_way_whatever_order_it_arrives_in() {
    let rows = [
        row("c", Some(5)),
        row("a", None),
        row("d", Some(9)),
        row("b", None),
        row("e", Some(5)),
    ];
    for (direction, expected) in [
        (Direction::Natural, "dceab"),
        (Direction::Reversed, "cedab"),
    ] {
        for shift in 0..rows.len() {
            let mut shuffled = rows.to_vec();
            shuffled.rotate_left(shift);
            sort(&mut shuffled, Order::Cpu, direction);
            let names: String = shuffled.iter().map(|row| row.name.as_str()).collect();
            assert_eq!(names, expected);
        }
    }
}

#[test]
fn direction_leaves_the_unranked_where_they_are() {
    for (left, right, natural, reversed) in [
        (Rank::By(2), Rank::By(1), Placement::Before, Placement::After),
        (Rank::By(2), Rank::By(2), Placement::Same, Placement::Same),
        (Rank::By(1), Rank::Unranked(0), Placement::Before, Placement::Before),
        (Rank::Unranked(0), Rank::By(1), Placement::After, Placement::After),
        (Rank::Unranked(0), Rank::Unranked(1), Placement::Before, Placement::Before),
    ] {
        assert_eq!(compare(left, right, Direction::Natural), natural);
        assert_eq!(compare(left, right, Direction::Reversed), reversed);
    }
    assert_eq!(Direction::reversed(true), Direction::Reversed);
    assert_eq!(Direction::reversed(false), Direction::default());
    assert_eq!(Missing::default(), Missing { usage: false });
}

#[test]
fn a_reordered_listing_says_so() {
    assert_eq!(note(Order::Name, Direction::Natural), None);
    assert_eq!(
        note(Order::Name, Direction::Reversed).as_deref(),
        Some("Sorted by name, reversed.")
    );
    assert_eq!(
        note(Order::Age, Direction::Reversed).as_deref(),
        Some("Sorted by age, reversed.")
    );
    let mut sampled = row("a", Some(1));
    assert_eq!(unranked_note(Order::Cpu, Cause::Unexplained, &[sampled.clone()]), None);
    sampled.memory_used = sampled.cpu_used;
    assert_eq!(
        unranked_note(Order::Age, Cause::Unexplained, &[sampled]).as_deref(),
        Some("Nothing here has age to sort by.\nSort by cpu or memory instead.")
    );
    assert_eq!(
        unranked_note(Order::Age, Cause::Unexplained, &[]).as_deref(),
        Some("Nothing here has age to sort by.")
    );
}

#[test]
fn a_narrow_listing_fits_or_is_down_to_what_identifies_a_row() {
    let rows = [row("checkout-5d4b", Some(5)), row("api", None)];
    for scope in [Scope::All, Scope::Namespace("payments".to_owned())] {
        let usual = columns(&scope, &rows, Width::Default);
        for target in 0..90 {
            let left = columns(&scope, &rows, Width::Narrow(target));
            assert!(left.iter().all(|column| usual.contains(column)));
            assert!(left.contains(&Column::Name));
            assert_eq!(left.contains(&Column::Namespace), scope == Scope::All);
            let pair = |column: &&Column| {
                matches!(column, Column::Cpu { .. } | Column::Memory { .. })
            };
            assert_ne!(left.iter().filter(pair).count(), 1);
            let table = render(
                &rows,
                "prod",
                &scope,
                &Selectors::default(),
                &[],
                Width::Narrow(target),
            );
            let fits = table
                .lines()
                .all(|line| line.chars().count() <= usize::from(target));
            assert!(fits || left.len() <= 2, "{target}\n{table}");
        }
        assert_eq!(columns(&scope, &rows, Width::Narrow(500)), usual);
    }
}

#[test]
fn notes_leave_the_table_alone() {
    let rows = [row("api", None)];
    let scope = Scope::Namespace("payments".to_owned());
    let bare = render(&rows, "prod", &scope, &Selectors::default(), &[], Width::Default);
    let noted = render(
        &rows,
        "prod",
        &scope,
        &Selectors::default(),
        &["one".to_owned(), "two".to_owned()],
        Width::Default,
    );
    assert_eq!(noted, format!("{bare}\n\none\n\ntwo"));
}

#[test]
fn calm_is_earned() {
    assert_eq!(severity("Running", 1, 1), Severity::Okay);
    assert_eq!(severity("Completed", 0, 1), Severity::Okay);
    for (status, ready, total) in [
        ("Running", 0, 1),
        ("Running", 0, 0),
        ("Init:Completed", 0, 1),
        ("Init:Running", 1, 1),
        ("Unknown", 1, 1),
        ("Evicted", 1, 1),
    ] {
        assert_ne!(severity(status, ready, total), Severity::Okay, "{status}");
    }
}

#[test]
fn events_of_a_kind_are_one_row_and_the_latest_comes_first() {
    let event = |reason: &str, at: Option<i128>, count: Option<i32>| Event {
        reason: Some(reason.to_owned()),
        last_timestamp: at.map(seconds),
        count,
        ..Default::default()
    };
    let events = [
        event("b", Some(10), Some(2)),
        event("c", None, None),
        event("a", Some(10), None),
        event("b", Some(30), Some(i32::MAX)),
        event("d", Some(20), Some(-1)),
    ];
    for shift in 0..events.len() {
        let mut shuffled = events.to_vec();
        shuffled.rotate_left(shift);
        let rows = from_events(&shuffled, seconds(100));
        let shown: Vec<(&str, i64, Option<&str>)> = rows
            .iter()
            .map(|row| (row.reason.as_str(), row.count, row.last_seen_age.as_deref()))
            .collect();
        assert_eq!(
            shown,
            [
                ("b", 2_147_483_649, Some("70s")),
                ("d", -1, Some("80s")),
                ("a", 1, Some("90s")),
                ("c", 1, None),
            ]
        );
    }
}

#[test]
fn the_order_that_events_arrive_in_makes_no_difference() {
    let mut numbers = Numbers(0x0bad_5eed_1234_5677);
    let mut events: Vec<Event> = (0..40)
        .map(|_| Event {
            reason: Some(["a", "b", "c"][(numbers.next() % 3) as usize].to_owned()),
            message: (numbers.next() % 2 == 0).then(|| "again".to_owned()),
            type_: Some(["Normal", "Warning"][(numbers.next() % 2) as usize].to_owned()),
            last_timestamp: Some(seconds(i128::from(numbers.next() % 5))),
            count: Some((numbers.next() % 7) as i32),
            ..Default::default()
        })
        .collect();
    let rows = from_events(&events, seconds(100));
    assert_eq!(rows.len(), 6);
    for _ in 0..20 {
        for last in (1..events.len()).rev() {
            events.swap(last, (numbers.next() % (last as u64 + 1)) as usize);
        }
        assert_eq!(from_events(&events, seconds(100)), rows);
    }
}

#[test]
fn a_reply_says_the_same_however_it_is_dressed() {
    let read = |text: &str| parse_background_reply(text.as_bytes());
    let plain = read("\x1b]11;rgb:1a/2b/3c\x07");
    assert!(plain.is_some());
    assert_eq!(read("\x1b]11;rgb:1a/2b/3c\x1b\\"), plain);
    assert_eq!(read("\x1b]11;rgba:1a/2b/3c/dd\x07"), plain);
    assert_eq!(read("\x1b]11;rgb:1A/2B/3C\x07"), plain);

    for digit in ["0", "7", "f"] {
        for times in 1..=4 {
            let often = digit.repeat(times);
            let colour = read(&format!("\x1b]11;rgb:{often}/{digit}/0\x07")).unwrap();
            assert_eq!(
                u32::from(colour.red.value) * u32::from(colour.green.max),
                u32::from(colour.green.value) * u32::from(colour.red.max)
            );
        }
    }

    for (channel, reads) in [
        ("0", true),
        ("fFfF", true),
        ("", false),
        ("12345", false),
        ("g", false),
        ("+1", false),
        (" 1", false),
    ] {
        for reply in [
            format!("\x1b]11;rgb:{channel}/0/0\x07"),
            format!("\x1b]11;rgb:0/{channel}/0\x07"),
            format!("\x1b]11;rgb:0/0/{channel}\x07"),
        ] {
            assert_eq!(read(&reply).is_some(), reads, "{reply:?}");
        }
    }
}

#[test]
fn a_reply_is_read_channel_by_channel() {
    let colour = parse_background_reply(b"\x1b]11;rgb:8/08/fffe\x07").unwrap();
    assert_eq!(colour.red, Channel { value: 8, max: 15 });
    assert_eq!(colour.green, Channel { value: 8, max: 255 });
    assert_eq!(
        colour.blue,
        Channel {
            value: 0xfffe,
            max: 0xffff
        }
    );
    // The fourth channel may say anything, as long as it is text.
    assert!(parse_background_reply("\x1b]11;rgba:1/2/3/α\x07".as_bytes()).is_some());
    assert!(parse_background_reply(b"\x1b]11;rgba:1/2/3/\xff\x07").is_none());
    assert!(parse_background_reply(b"\x1b]11;\x07").is_none());
    assert!(parse_background_reply(b"\x1b]11;").is_none());
}

#[test]
fn a_cell_in_the_terminals_own_colour_is_left_alone() {
    let mut theme = Theme::light();
    theme.danger = Color::Reset;
    assert_eq!(foreground(Color::Reset), None);
    assert_eq!(Palette::Colour(theme).paint("x", Severity::Critical), "x");
    assert_eq!(
        Palette::Colour(theme).paint("x", Severity::Unknown),
        "\x1b[38;2;101;109;118mx\x1b[39m"
    );
}

#[test]
fn utilisation_of_any_size_is_classified_without_overflow() {
    let ratio = |part, whole| Ratio { part, whole };
    assert_eq!(
        Severity::from_utilisation(ratio(i128::MAX / 10 * 9, i128::MAX)),
        Severity::Warn
    );
    assert_eq!(
        Severity::from_utilisation(ratio(i128::MAX, i128::MAX)),
        Severity::Critical
    );
    assert_eq!(
        Severity::from_request_share(ratio(i128::MAX, i128::MAX / 3)),
        Severity::Critical
    );
    assert_eq!(
        Severity::from_request_share(ratio(i128::MAX / 2, i128::MAX)),
        Severity::Okay
    );
    assert_eq!(Severity::from_request_share(ratio(1, -1)), Severity::Unknown);
}

#[test]
fn time_is_counted_in_whole_seconds_towards_zero() {
    let at = |nanosecond| Timestamp { nanosecond };
    assert_eq!(at(1_999_999_999).seconds_since(at(0)), 1);
    assert_eq!(at(0).seconds_since(at(1_999_999_999)), -1);
    assert_eq!(at(i128::MAX).seconds_since(at(-1)), i128::MAX / 1_000_000_000);
    assert_eq!(at(i128::MIN).seconds_since(at(1)), i128::MIN / 1_000_000_000);
}

#[test]
fn a_resource_is_looked_up_by_its_whole_name() {
    let mut map = NameMap::new();
    map.insert("cpu".to_owned(), ApiQuantity("2".to_owned()));
    assert_eq!(
        Quantity::lookup(Some(&map), "cpu").map(Quantity::thousandths),
        Some(2000)
    );
    assert_eq!(Quantity::lookup(Some(&map), "cp"), None);
}

#[test]
fn what_cannot_be_told_apart_is_left_to_the_alphabet() {
    let mut rows = vec![row("c", Some(5)), row("a", Some(5)), row("b", Some(5))];
    for direction in [Direction::Natural, Direction::Reversed] {
        sort(&mut rows, Order::Cpu, direction);
        let names: String = rows.iter().map(|row| row.name.as_str()).collect();
        assert_eq!(names, "abc");
        rows.rotate_left(1);
    }
    sort(&mut rows, Order::Name, Direction::Reversed);
    let names: String = rows.iter().map(|row| row.name.as_str()).collect();
    assert_eq!(names, "cba");
}

#[test]
fn a_long_listing_is_sorted_as_a_stable_sort_would() {
    let mut numbers = Numbers(0xfeed_beef_1234_5671);
    let mut rows: Vec<PodRow> = (0..400)
        .map(|_| {
            let used = numbers.next() % 20;
            let sampled = if used == 0 { None } else { Some(i128::from(used)) };
            let mut made = row(&format!("p{}", numbers.next() % 30), sampled);
            made.ip = format!("{}", numbers.next());
            made
        })
        .collect();
    let mut expected = rows.clone();
    expected.sort_by(|a, b| {
        let key = |row: &PodRow| row.cpu_used.map(Quantity::thousandths);
        key(b)
            .cmp(&key(a))
            .then_with(|| (&a.namespace, &a.name).cmp(&(&b.namespace, &b.name)))
    });
    sort(&mut rows, Order::Cpu, Direction::Natural);
    assert_eq!(rows, expected);
}

#[test]
fn each_style_sets_what_it_says_and_nothing_else() {
    let theme = Theme::dark();
    let plain = theme.body();
    assert_eq!(plain.fg, Some(theme.text));
    assert_eq!((plain.bg, plain.bold, plain.underlined), (None, false, false));
    assert_eq!(theme.dim().fg, Some(theme.muted));
    let heading = theme.heading();
    assert_eq!((heading.fg, heading.bold), (Some(theme.accent), true));
    let matched = theme.match_highlight();
    assert_eq!(matched.fg, heading.fg);
    assert!(matched.underlined && !heading.underlined);
    let selected = theme.selected();
    assert_eq!(selected.bg, Some(theme.selection_bg));
    assert_eq!((selected.fg, selected.bold), (Some(theme.text), true));
    assert_eq!(theme.pane_border(true).fg, Some(theme.border_focused));
    assert_eq!(theme.pane_border(false).fg, Some(theme.border));
    assert_eq!(Theme::default(), Theme::dark());
    assert_eq!(theme.severity(Severity::Warn).fg, Some(theme.warning));
}

#[test]
fn what_was_typed_is_validated_before_it_is_used() {
    let selectors = Selectors::validated(Some(" app == api "), Some("a != b")).unwrap();
    assert_eq!(selectors.label.as_deref(), Some("app=api"));
    assert_eq!(selectors.field.as_deref(), Some("a!=b"));
    assert_eq!(Selectors::validated(None, None), Ok(Selectors::default()));
    // The label selector is complained of first.
    let both = Selectors::validated(Some(","), Some("a")).unwrap_err();
    assert_eq!(both, label_selector(",").unwrap_err());
    let field = Selectors::validated(Some("app"), Some("a")).unwrap_err();
    assert_eq!(field, field_selector("a").unwrap_err());
}

#[test]
fn a_listing_is_about_what_was_asked_for() {
    let named = |name: &str| Scope::Namespace(name.to_owned());
    assert_eq!(Scope::of_listing(true, Some("a"), "b"), Scope::All);
    assert_eq!(Scope::of_listing(false, Some("a"), "b"), named("a"));
    assert_eq!(Scope::of_listing(false, None, "b"), named("b"));
}
