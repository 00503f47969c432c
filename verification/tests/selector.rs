use eks::k8s::selector::{field_selector, label_selector};

fn labels_ok(input: &str) -> String {
    label_selector(input).expect("selector should be valid")
}

fn labels_err(input: &str) -> String {
    label_selector(input)
        .expect_err("selector should be rejected")
        .message()
}

fn fields_ok(input: &str) -> String {
    field_selector(input).expect("selector should be valid")
}

fn fields_err(input: &str) -> String {
    field_selector(input)
        .expect_err("selector should be rejected")
        .message()
}

#[test]
fn an_empty_selector_matches_everything() {
    assert_eq!(labels_ok(""), "");
    assert_eq!(labels_ok("   "), "");
    assert_eq!(fields_ok(""), "");
}

#[test]
fn equality_is_the_common_case() {
    assert_eq!(labels_ok("app=api"), "app=api");
    assert_eq!(labels_ok("app!=api"), "app!=api");
}

#[test]
fn double_equals_is_folded_to_a_single_one() {
    // `==` and `=` mean the same thing to Kubernetes; the canonical form
    // picks one so two spellings of one selector do not look different.
    assert_eq!(labels_ok("app==api"), "app=api");
}

#[test]
fn surrounding_whitespace_is_normalised_away() {
    assert_eq!(
        labels_ok("  app = api ,  tier != canary "),
        "app=api,tier!=canary"
    );
}

#[test]
fn an_empty_value_is_a_real_selector() {
    // `key=` matches pods that carry the label with an empty value, and is
    // different from the key not being present at all.
    assert_eq!(labels_ok("track="), "track=");
}

#[test]
fn existence_and_absence_need_no_value() {
    assert_eq!(labels_ok("app"), "app");
    assert_eq!(labels_ok("!app"), "!app");
}

#[test]
fn set_membership_keeps_its_values_in_order() {
    assert_eq!(labels_ok("env in (prod, staging)"), "env in (prod,staging)");
    assert_eq!(labels_ok("env notin (dev,test)"), "env notin (dev,test)");
}

#[test]
fn a_prefixed_label_key_is_allowed() {
    assert_eq!(
        labels_ok("app.kubernetes.io/name=api"),
        "app.kubernetes.io/name=api"
    );
}

#[test]
fn several_requirements_join_with_commas() {
    assert_eq!(
        labels_ok("app=api, tier in (web, api), !canary"),
        "app=api,tier in (web,api),!canary"
    );
}

#[test]
fn a_trailing_comma_is_rejected_as_an_empty_requirement() {
    let message = labels_err("app=api,");
    assert!(message.contains("empty requirement"), "{message}");
    assert!(message.contains("comma"), "{message}");
}

#[test]
fn a_set_operator_without_values_names_the_selector() {
    let message = labels_err("env in");
    assert!(message.contains("\"env in\""), "{message}");
    assert!(message.contains("value list"), "{message}");
}

#[test]
fn an_unclosed_value_list_says_so() {
    let message = labels_err("env in (prod");
    assert!(message.contains("closing"), "{message}");
    assert!(message.contains("\"env in (prod\""), "{message}");
}

#[test]
fn empty_parentheses_are_rejected() {
    let message = labels_err("env in ()");
    assert!(message.contains("empty value"), "{message}");
}

#[test]
fn a_dangling_value_in_a_set_is_rejected() {
    // `env in (prod,)` — kubectl rejects the empty slot after the comma.
    let message = labels_err("env in (prod,)");
    assert!(message.contains("empty value"), "{message}");
}

#[test]
fn a_negated_set_selector_is_pointed_at_notin() {
    let message = labels_err("!env in (prod)");
    assert!(message.contains("notin"), "{message}");
}

#[test]
fn a_bad_set_operator_is_named() {
    let message = labels_err("env within (prod)");
    assert!(
        message.contains("in") && message.contains("notin"),
        "{message}"
    );
}

#[test]
fn an_invalid_label_key_is_rejected_with_the_key_quoted() {
    let message = labels_err("-bad=api");
    assert!(message.contains("\"-bad\""), "{message}");
    assert!(message.contains("label name"), "{message}");
}

#[test]
fn an_invalid_label_value_is_rejected_with_the_value_quoted() {
    // A value cannot contain a `/`, so this is caught locally rather than by
    // the API server.
    let message = labels_err("app=api/v2");
    assert!(message.contains("\"api/v2\""), "{message}");
    assert!(message.contains("label value"), "{message}");
}

#[test]
fn an_over_long_label_value_is_rejected() {
    let long = "a".repeat(64);
    let message = labels_err(&format!("app={long}"));
    assert!(message.contains("label value"), "{message}");
}

#[test]
fn a_bad_prefix_on_a_label_key_is_rejected() {
    let message = labels_err("UPPER.io/name=api");
    assert!(message.contains("prefix"), "{message}");
}

#[test]
fn field_equality_is_supported_all_three_ways() {
    assert_eq!(fields_ok("status.phase=Running"), "status.phase=Running");
    assert_eq!(fields_ok("status.phase==Running"), "status.phase=Running");
    assert_eq!(fields_ok("status.phase!=Running"), "status.phase!=Running");
}

#[test]
fn the_not_running_filter_from_the_roadmap_parses() {
    // "only the ones that are not Running" is the second thing anyone asks
    // for; it is a field selector, and it must survive round-tripping.
    assert_eq!(
        fields_ok(" status.phase != Running "),
        "status.phase!=Running"
    );
}

#[test]
fn several_field_requirements_join_with_commas() {
    assert_eq!(
        fields_ok("status.phase=Running,spec.nodeName=ip-10-0-1-9"),
        "status.phase=Running,spec.nodeName=ip-10-0-1-9"
    );
}

#[test]
fn a_field_value_may_be_empty() {
    assert_eq!(fields_ok("spec.nodeName="), "spec.nodeName=");
}

#[test]
fn a_field_requirement_with_no_operator_is_rejected() {
    let message = fields_err("status.phase");
    assert!(message.contains("\"status.phase\""), "{message}");
    assert!(message.contains("operator"), "{message}");
}

#[test]
fn a_field_requirement_with_no_key_is_rejected() {
    let message = fields_err("=Running");
    assert!(message.contains("no field name"), "{message}");
}

#[test]
fn a_trailing_comma_in_a_field_selector_is_rejected() {
    let message = fields_err("status.phase=Running,");
    assert!(message.contains("empty requirement"), "{message}");
}
