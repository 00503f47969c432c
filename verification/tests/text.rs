use eks::text::{
    blank, chars_of, ends_with, join, parse_i64, parse_u8, precedes, show_integer, show_natural,
    split, starts_with, trim, white, words,
};

const SAMPLES: [&str; 12] = [
    "",
    " ",
    "a",
    " a ",
    "a b",
    "\u{2003}em\u{3000}",
    "\tx\ny\r",
    "a,b,,c",
    "ααα",
    "\u{feff}bom",
    "\u{200b}zero",
    " a\u{85}b\u{a0}",
];

#[test]
fn white_space_is_what_unicode_says_it_is() {
    for c in '\0'..=char::MAX {
        assert_eq!(white(c), c.is_whitespace(), "{c:?}");
    }
}

#[test]
fn trimming_and_splitting_agree_with_the_standard_library() {
    for sample in SAMPLES {
        assert_eq!(trim(sample), sample.trim(), "{sample:?}");
        assert_eq!(blank(sample), sample.trim().is_empty(), "{sample:?}");
        assert_eq!(
            words(sample),
            sample.split_whitespace().collect::<Vec<_>>(),
            "{sample:?}"
        );
        assert_eq!(
            split(sample, ','),
            sample.split(',').collect::<Vec<_>>(),
            "{sample:?}"
        );
        for other in SAMPLES {
            assert_eq!(precedes(sample, other), sample < other, "{sample:?} {other:?}");
            assert_eq!(starts_with(sample, other), sample.starts_with(other));
            assert_eq!(ends_with(sample, other), sample.ends_with(other));
        }
    }
}

#[test]
fn numbers_are_read_as_the_standard_library_reads_them() {
    for sample in [
        "", "+", "-", "0", "-0", "+7", "007", "255", "256", "+255", "-1", " 1", "1 ", "1_0", "٣",
        "9223372036854775807", "9223372036854775808", "-9223372036854775808",
        "-9223372036854775809", "99999999999999999999999999999999999999999999",
    ] {
        let chars = chars_of(sample);
        // A number past the ends of the range is held to the end it is past.
        let held = match sample.parse::<i64>() {
            Ok(number) => Some(number),
            Err(error) => match error.kind() {
                std::num::IntErrorKind::PosOverflow => Some(i64::MAX),
                std::num::IntErrorKind::NegOverflow => Some(i64::MIN),
                _ => None,
            },
        };
        assert_eq!(parse_i64(&chars), held, "{sample:?}");
        assert_eq!(parse_u8(&chars), sample.parse::<u8>().ok(), "{sample:?}");
    }
}

#[test]
fn numbers_are_written_as_the_standard_library_writes_them() {
    for number in [0, 1, -1, 9, 10, -10, 1_000_000, i128::MAX, i128::MIN] {
        assert_eq!(show_integer(number), number.to_string());
    }
    assert_eq!(show_natural(u128::MAX), u128::MAX.to_string());
}

#[test]
fn joining_puts_the_separator_between_neighbours_only() {
    let parts = ["a".to_owned(), String::new(), "c".to_owned()];
    assert_eq!(join(&parts, ", "), "a, , c");
    assert_eq!(join(&parts[..1], ", "), "a");
    assert_eq!(join(&[], ", "), "");
}
