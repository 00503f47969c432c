use eks::k8s::pods::logs::{params, LogEvent, TAIL_LINES};

#[test]
fn params_name_the_container_and_ask_to_follow_from_a_tail() {
    let lp = params("app");

    assert_eq!(lp.container.as_deref(), Some("app"));
    assert!(lp.follow);
    assert_eq!(lp.tail_lines, Some(TAIL_LINES));
}

#[test]
fn params_leave_everything_else_at_the_grammars_default() {
    let lp = params("app");

    assert!(!lp.previous);
    assert_eq!(lp.since_seconds, None);
    assert_eq!(lp.limit_bytes, None);
    assert!(!lp.timestamps);
}
