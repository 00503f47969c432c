use eks::startup::{listing_cols, opening, printed};

#[test]
fn the_dashboard_checks_credentials_before_it_opens_unless_told_not_to() {
    let open = opening(None, false, Some("prod"), true).unwrap();
    assert_eq!(open.preflight.as_deref(), Some("prod"));
    assert_eq!(open.fetch.as_deref(), Some("prod"));

    let open = opening(Some("prod"), true, Some("prod"), false).unwrap();
    assert_eq!(open.preflight, None);
    assert_eq!(open.fetch.as_deref(), Some("prod"));

    let open = opening(None, false, None, true).unwrap();
    assert_eq!(open.preflight, None);
    assert_eq!(open.fetch, None);
}

#[test]
fn a_context_that_vanished_is_named() {
    assert_eq!(
        opening(Some("gh\"ost"), false, Some("prod"), true).unwrap_err(),
        "context \"gh\\\"ost\" disappeared while starting up"
    );
}

#[test]
fn a_pipe_is_never_narrowed() {
    assert_eq!(listing_cols(true, Some(80)), Some(80));
    assert_eq!(listing_cols(true, None), None);
    assert_eq!(listing_cols(false, Some(80)), None);
}

#[test]
fn an_empty_result_prints_nothing_at_all() {
    assert_eq!(printed(""), "");
    assert_eq!(printed("a\nb"), "a\nb\n");
}
