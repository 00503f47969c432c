use eks::format::{
    column_widths, count, exact_duration, human_duration, percentage, row_width, table, Width,
};
use eks::k8s::quantity::Ratio;

#[test]
fn durations_use_two_units_while_the_smaller_one_matters() {
    for (seconds, expected) in [
        (-180, "0s"),
        (0, "0s"),
        (1, "1s"),
        (119, "119s"),
        (120, "2m"),
        (121, "2m1s"),
        (370, "6m10s"),
        (599, "9m59s"),
        (600, "10m"),
        (5400, "90m"),
        (10_799, "179m"),
        (10_800, "3h"),
        (12_060, "3h21m"),
        (28_799, "7h59m"),
        (28_800, "8h"),
        (172_799, "47h"),
        (172_800, "2d"),
        (180_000, "2d2h"),
        (691_199, "7d23h"),
        (691_200, "8d"),
        (63_071_999, "729d"),
        (63_072_000, "2y"),
        (63_158_400, "2y1d"),
        (252_288_000, "8y"),
        (400_000_000, "12y"),
    ] {
        assert_eq!(human_duration(seconds), expected, "{seconds}");
    }
}

#[test]
fn an_exact_duration_never_rounds() {
    for (seconds, expected) in [
        (0, "0s"),
        (1, "1s"),
        (59, "59s"),
        (60, "1m"),
        (90, "90s"),
        (3599, "3599s"),
        (3600, "1h"),
        (5400, "90m"),
        (7200, "2h"),
    ] {
        assert_eq!(exact_duration(seconds), expected, "{seconds}");
    }
}

#[test]
fn counts_are_grouped_by_thousands() {
    for (number, expected) in [
        (0, "0"),
        (7, "7"),
        (999, "999"),
        (1000, "1,000"),
        (1005, "1,005"),
        (12_000, "12,000"),
        (1_234_567, "1,234,567"),
    ] {
        assert_eq!(count(number), expected);
    }
}

#[test]
fn percentages_are_whole_and_nearest() {
    for (part, whole, expected) in [
        (0, 1, "0%"),
        (1, 2, "50%"),
        (1500, 3920, "38%"),
        (3800, 3920, "97%"),
        (18, 512, "4%"),
        (9, 2, "450%"),
        (995, 1000, "100%"),
        (994, 1000, "99%"),
        (1, 200, "1%"),
        (1, 201, "0%"),
        (-1, 4, "-25%"),
        (-1, 1000, "0%"),
        (199, 100, "199%"),
        (1999, 1000, "200%"),
    ] {
        assert_eq!(percentage(Ratio { part, whole }), expected, "{part}/{whole}");
    }
    // However large the figures, nothing wraps.
    assert_eq!(
        percentage(Ratio {
            part: i128::MAX,
            whole: 1
        }),
        "17014118346046923173168730371588410572700%"
    );
    assert_eq!(
        percentage(Ratio {
            part: i128::MIN,
            whole: i128::MAX
        }),
        "-100%"
    );
}

#[test]
fn a_table_lines_its_columns_up_and_trims_its_lines() {
    let cells = vec![
        vec!["api".to_owned(), "1/1".to_owned(), "x".to_owned()],
        vec!["long-name".to_owned(), "0/1".to_owned(), String::new()],
    ];
    assert_eq!(column_widths(&["NAME", "READY", "Z"], &cells), [9, 5, 1]);
    assert_eq!(row_width(&[9, 5, 1]), 19);
    assert_eq!(row_width(&[]), 0);
    assert_eq!(row_width(&[4]), 4);
    assert_eq!(
        table(&["NAME", "READY", "Z"], &cells),
        "NAME       READY  Z\napi        1/1    x\nlong-name  0/1"
    );
    // A law in passing: no line is wider than the columns were measured at.
    for line in table(&["NAME", "READY", "Z"], &cells).lines() {
        assert!(line.chars().count() <= 19, "{line}");
    }
}

#[test]
fn a_table_counts_characters_rather_than_bytes() {
    let cells = vec![vec!["ααα".to_owned(), "b".to_owned()]];
    assert_eq!(table(&["A", "B"], &cells), "A    B\nααα  b");
}

#[test]
fn asking_for_more_columns_outranks_the_terminal() {
    assert_eq!(Width::for_terminal(true, Some(80)), Width::Wide);
    assert_eq!(Width::for_terminal(true, None), Width::Wide);
    assert_eq!(Width::for_terminal(false, Some(80)), Width::Narrow(80));
    assert_eq!(Width::for_terminal(false, None), Width::Default);
    assert!(Width::Wide.is_wide());
    assert!(!Width::Narrow(3).is_wide());
}
