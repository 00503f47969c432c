use eks::k8s::api::ApiQuantity;
use eks::k8s::quantity::{count, cpu, memory, Error, Quantity};
use eks::name_map::NameMap;

/// Thousandths, which is what `Quantity` stores.
fn parse(text: &str) -> i128 {
    Quantity::parse(text).unwrap().thousandths()
}

#[test]
fn a_count_of_devices_reads_as_a_whole_number() {
    assert_eq!(count(Quantity::parse("4").unwrap()), "4");
    assert_eq!(count(Quantity::parse("0").unwrap()), "0");
    // A cluster advertising a fraction of a device has a bug worth seeing;
    // a column reading `0` would hide it.
    assert_eq!(count(Quantity::parse("500m").unwrap()), "500m");
}

#[test]
fn a_bare_number_is_that_many_units() {
    assert_eq!(parse("0"), 0);
    assert_eq!(parse("1"), 1_000);
    assert_eq!(parse("64"), 64_000);
}

#[test]
fn decimals_and_signs_are_carried_exactly() {
    assert_eq!(parse("1.5"), 1_500);
    assert_eq!(parse("0.25"), 250);
    assert_eq!(parse(".5"), 500);
    assert_eq!(parse("2."), 2_000);
    assert_eq!(parse("+3"), 3_000);
    // Negative quantities are not something a node reports, but the grammar
    // allows them and silently flipping a sign would be worse than showing
    // one.
    assert_eq!(parse("-1.5"), -1_500);
}

#[test]
fn every_decimal_si_suffix_scales_by_a_power_of_ten() {
    assert_eq!(parse("1n"), 0); // a billionth of a unit rounds away
    assert_eq!(parse("1u"), 0);
    assert_eq!(parse("1000u"), 1);
    assert_eq!(parse("1500u"), 2); // 1.5 thousandths, rounded to nearest
    assert_eq!(parse("100m"), 100);
    assert_eq!(parse("1k"), 1_000_000);
    assert_eq!(parse("1M"), 1_000_000_000);
    assert_eq!(parse("1G"), 1_000_000_000_000);
    assert_eq!(parse("1T"), 1_000_000_000_000_000);
    assert_eq!(parse("1P"), 1_000_000_000_000_000_000);
    assert_eq!(parse("1E"), 1_000_000_000_000_000_000_000);
}

#[test]
fn every_binary_si_suffix_scales_by_a_power_of_two() {
    for (text, bytes) in [
        ("1Ki", 1_u128 << 10),
        ("1Mi", 1 << 20),
        ("1Gi", 1 << 30),
        ("1Ti", 1 << 40),
        ("1Pi", 1 << 50),
        ("1Ei", 1 << 60),
    ] {
        assert_eq!(
            Quantity::parse(text).unwrap().units(),
            i128::try_from(bytes).unwrap(),
            "{text}"
        );
    }

    assert_eq!(Quantity::parse("2Gi").unwrap().units(), 2_147_483_648);
    // A fraction of a binary unit still lands on a whole byte.
    assert_eq!(Quantity::parse("1.5Gi").unwrap().units(), 1_610_612_736);
}

#[test]
fn an_exponent_suffix_is_accepted_in_both_cases() {
    assert_eq!(parse("1e3"), 1_000_000);
    assert_eq!(parse("1E3"), 1_000_000);
    assert_eq!(parse("1.5e3"), 1_500_000);
    assert_eq!(parse("2e-3"), 2);
    assert_eq!(parse("5e+2"), 500_000);
    // A bare `E` is exa, not the start of an exponent — the one place the
    // two halves of the grammar overlap.
    assert_ne!(parse("1E"), parse("1e0"));
}

#[test]
fn garbage_is_rejected_with_an_example_of_what_was_wanted() {
    for text in [
        "", " ", "abc", "1.2.3", "-", "+", ".", "1 Gi", "1Gi ", "1Kb", "1Gib", "1e", "1e1.5",
        "Gi", "1x", "0x10", "1,5", "NaN", "inf",
    ] {
        let error = Quantity::parse(text).unwrap_err();
        assert!(
            matches!(error, Error::Malformed(_)),
            "{text:?} should be malformed, got {error:?}"
        );
    }

    // A capital K is the classic near-miss; Kubernetes does not accept it
    // either, so neither do we.
    let error = Quantity::parse("1K").unwrap_err();
    let message = error.message();
    assert!(message.contains("\"1K\""), "{message}");
    assert!(message.contains("2Gi"), "{message}");
}

#[test]
fn a_number_too_large_to_hold_says_so_rather_than_wrapping() {
    // Fits in the mantissa, overflows once the suffix is applied.
    let error = Quantity::parse("1000000000000000000000Ei").unwrap_err();
    assert!(matches!(error, Error::TooLarge(_)), "{error:?}");

    // More digits than an i128 holds at all: still too large, not garbage.
    let error = Quantity::parse("999999999999999999999999999999999999999").unwrap_err();
    assert!(matches!(error, Error::TooLarge(_)), "{error:?}");

    let error = Quantity::parse("1e300").unwrap_err();
    assert!(matches!(error, Error::TooLarge(_)), "{error:?}");

    // An exponent at the edge of what an i64 holds must not overflow the
    // shift into thousandths on its way to being rejected.
    let error = Quantity::parse("1e9223372036854775807").unwrap_err();
    assert!(matches!(error, Error::TooLarge(_)), "{error:?}");
    assert_eq!(parse("1e-9223372036854775808"), 0);

    // Zero is representable at any scale, however silly the exponent.
    assert_eq!(parse("0e300"), 0);
    assert_eq!(parse("1e-300"), 0);
}

#[test]
fn ratios_refuse_to_divide_by_a_node_reporting_nothing() {
    let used = Quantity::parse("1").unwrap();
    let total = Quantity::parse("4").unwrap();

    let ratio = used.ratio_of(total).unwrap();
    assert_eq!(ratio.part as f64 / ratio.whole as f64, 0.25);
    assert_eq!(used.ratio_of(Quantity::default()), None);
    assert_eq!(used.ratio_of(Quantity::parse("-1").unwrap()), None);
}

#[test]
fn quantities_add_and_sum_without_ever_wrapping() {
    let hundred = Quantity::parse("100m").unwrap();
    assert_eq!(hundred + hundred, Quantity::parse("200m").unwrap());
    assert_eq!(
        Quantity::sum(&[hundred, hundred, hundred]),
        Quantity::parse("300m").unwrap()
    );
    assert_eq!(Quantity::sum(&[]), Quantity::default());

    // Absurd, but it must saturate rather than wrap into a small number: a
    // total that reads as impossibly large is a bug someone can see, and a
    // wrapped one is a quiet lie. This is within a factor of two of the
    // largest quantity that can be represented at all.
    let huge = Quantity::parse("100000000000000000E").unwrap();
    assert_eq!((huge + huge).thousandths(), i128::MAX);
}

#[test]
fn looking_up_a_resource_tolerates_a_missing_or_broken_entry() {
    let mut map = NameMap::new();
    map.insert("cpu".to_owned(), ApiQuantity("4".to_owned()));
    map.insert("memory".to_owned(), ApiQuantity("not-a-number".to_owned()));

    assert_eq!(
        Quantity::lookup(Some(&map), "cpu"),
        Some(Quantity::parse("4").unwrap())
    );
    // Present but nonsense, absent, and no map at all all read the same:
    // one odd resource must not fail a whole listing.
    assert_eq!(Quantity::lookup(Some(&map), "memory"), None);
    assert_eq!(Quantity::lookup(Some(&map), "nvidia.com/gpu"), None);
    assert_eq!(Quantity::lookup(None, "cpu"), None);
}

#[test]
fn cpu_reads_as_cores_when_it_divides_evenly_and_millicores_otherwise() {
    let show = |text: &str| cpu(Quantity::parse(text).unwrap());

    assert_eq!(show("4"), "4");
    assert_eq!(show("4000m"), "4");
    assert_eq!(show("3920m"), "3920m");
    assert_eq!(show("0.5"), "500m");
    assert_eq!(show("0"), "0");
}

#[test]
fn memory_reads_in_the_largest_binary_unit_that_stays_legible() {
    let show = |text: &str| memory(Quantity::parse(text).unwrap());

    assert_eq!(show("0"), "0");
    assert_eq!(show("512"), "512");
    assert_eq!(show("512Mi"), "512Mi");
    assert_eq!(show("4Gi"), "4Gi");
    // What an m5.large actually reports as allocatable.
    assert_eq!(show("7134420Ki"), "6.8Gi");
    assert_eq!(show("1Ti"), "1Ti");
    assert_eq!(show("-1Gi"), "-1Gi");
}

#[test]
fn memory_in_decimal_units_still_prints_in_binary_ones() {
    // Nothing stops a device plugin reporting `1G`; a column mixing binary
    // and decimal units would be unreadable, so everything is shown one way.
    assert_eq!(memory(Quantity::parse("1G").unwrap()), "953.7Mi");
}
