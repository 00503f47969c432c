use eks::format::Width;
use eks::k8s::api::{
    ApiQuantity, Container, ContainerState, ContainerStateRunning, ContainerStateTerminated,
    ContainerStateWaiting, ContainerStatus, ObjectMeta, Pod, PodCondition, PodIP,
    PodReadinessGate, PodSpec, PodStatus, ResourceRequirements,
};
use eks::k8s::metrics::Usage;
use eks::k8s::order::Direction;
use eks::k8s::pods::row::{columns, restarts_cell, Column};
use eks::k8s::pods::status::{severity, NODE_LOST};
use eks::k8s::pods::{
    cause, effective_requests, note, render, shows_usage, unranked_note, usage_unavailable,
    usage_unsampled, Missing, Order, PodRow, Scope, Selectors,
};
use eks::k8s::quantity::Quantity;
use eks::name_map::NameMap;
use eks::theme::Severity;
use eks::time::Timestamp;

/// A moment, as its text says.
fn moment(text: &str) -> Timestamp {
    let parsed: k8s_openapi::jiff::Timestamp = text.parse().unwrap();
    Timestamp {
        nanosecond: parsed.as_nanosecond(),
    }
}

/// A moment, some minutes before another.
fn minutes_before(later: Timestamp, minutes: i64) -> Timestamp {
    Timestamp {
        nanosecond: later.nanosecond - i128::from(minutes) * 60_000_000_000,
    }
}

/// Quantities under their names.
fn named<'a>(entries: impl IntoIterator<Item = (&'a str, &'a str)>) -> NameMap<ApiQuantity> {
    let mut map = NameMap::new();
    for (name, value) in entries {
        map.insert(name.to_owned(), ApiQuantity(value.to_owned()));
    }
    map
}

/// Most rendering tests are not about selectors; this is the "no filter"
/// case they pass so the signature reads at the call site.
fn unfiltered() -> Selectors {
    Selectors::default()
}

const NODE: &str = "ip-10-0-1-9.ec2.internal";

fn now() -> Timestamp {
    moment("2026-08-18T12:00:00Z")
}

fn ago(minutes: i64) -> Timestamp {
    minutes_before(now(), minutes)
}

fn container(name: &str) -> Container {
    Container {
        name: name.to_owned(),
        ..Default::default()
    }
}

fn sidecar(name: &str) -> Container {
    Container {
        restart_policy: Some("Always".to_owned()),
        ..container(name)
    }
}

fn status(name: &str, state: ContainerState, ready: bool, restarts: i32) -> ContainerStatus {
    ContainerStatus {
        name: name.to_owned(),
        ready,
        restart_count: restarts,
        state: Some(state),
        ..Default::default()
    }
}

/// A container status carrying the wreckage of a previous run — what the
/// kubelet leaves behind after it restarts a container, and the only place
/// the recency of a restart is recorded.
fn restarted(
    name: &str,
    state: ContainerState,
    restarts: i32,
    finished: Option<Timestamp>,
) -> ContainerStatus {
    ContainerStatus {
        last_state: Some(ContainerState {
            terminated: Some(ContainerStateTerminated {
                reason: Some("Error".to_owned()),
                exit_code: 1,
                finished_at: finished,
                ..Default::default()
            }),
            ..Default::default()
        }),
        ..status(name, state, false, restarts)
    }
}

fn running() -> ContainerState {
    ContainerState {
        running: Some(ContainerStateRunning::default()),
        ..Default::default()
    }
}

fn waiting(reason: &str) -> ContainerState {
    ContainerState {
        waiting: Some(ContainerStateWaiting {
            reason: Some(reason.to_owned()),
            ..Default::default()
        }),
        ..Default::default()
    }
}

fn terminated(reason: Option<&str>, exit_code: i32) -> ContainerState {
    ContainerState {
        terminated: Some(ContainerStateTerminated {
            reason: reason.map(str::to_owned),
            exit_code,
            ..Default::default()
        }),
        ..Default::default()
    }
}

fn gate(kind: &str) -> PodReadinessGate {
    PodReadinessGate {
        condition_type: kind.to_owned(),
    }
}

fn condition(kind: &str, state: &str, reason: Option<&str>) -> PodCondition {
    PodCondition {
        type_: kind.to_owned(),
        status: state.to_owned(),
        reason: reason.map(str::to_owned),
        ..Default::default()
    }
}

fn pod(spec: PodSpec, status: PodStatus) -> Pod {
    Pod {
        metadata: ObjectMeta {
            name: Some("api-7c9f".to_owned()),
            namespace: Some("payments".to_owned()),
            creation_timestamp: Some(ago(90)),
            ..Default::default()
        },
        // Deliberately not defaulting `node_name` here: struct-update
        // syntax would silently override a test that means to leave a pod
        // unscheduled.
        spec: Some(spec),
        status: Some(status),
    }
}

/// A plausible, healthy pod: one container, up and ready. Tests change one
/// thing at a time from here so it is obvious what each is about.
fn healthy() -> Pod {
    pod(
        PodSpec {
            containers: vec![container("app")],
            node_name: Some(NODE.to_owned()),
            ..Default::default()
        },
        PodStatus {
            phase: Some("Running".to_owned()),
            conditions: Some(vec![condition("Ready", "True", None)]),
            container_statuses: Some(vec![status("app", running(), true, 0)]),
            ..Default::default()
        },
    )
}

#[test]
fn a_healthy_pod_reads_as_running_and_fully_ready() {
    let row = PodRow::from_pod(&healthy(), None, now());

    assert_eq!(row.namespace, "payments");
    assert_eq!(row.name, "api-7c9f");
    assert_eq!(row.ready, "1/1");
    assert_eq!(row.status, "Running");
    assert_eq!(row.severity, Severity::Okay);
    assert_eq!(row.restarts, 0);
    assert_eq!(row.age, "90m");
    assert_eq!(row.node, NODE);
}

#[test]
fn a_crashlooping_container_reads_as_crashloopbackoff() {
    // The word people actually grep for, and it exists nowhere in the API:
    // `phase` still says `Running`.
    let pod = pod(
        PodSpec {
            containers: vec![container("app")],
            ..Default::default()
        },
        PodStatus {
            phase: Some("Running".to_owned()),
            container_statuses: Some(vec![status(
                "app",
                waiting("CrashLoopBackOff"),
                false,
                7,
            )]),
            ..Default::default()
        },
    );

    let row = PodRow::from_pod(&pod, None, now());
    assert_eq!(row.status, "CrashLoopBackOff");
    assert_eq!(row.ready, "0/1");
    assert_eq!(row.restarts, 7);
    assert_eq!(row.severity, Severity::Critical);
}

#[test]
fn a_pod_being_deleted_reads_as_terminating() {
    let mut terminating = healthy();
    terminating.metadata.deletion_timestamp = Some(ago(1));

    let row = PodRow::from_pod(&terminating, None, now());
    assert_eq!(row.status, "Terminating");
    // Deliberate and temporary — worth noticing during a drain, not alarming.
    assert_eq!(row.severity, Severity::Warn);
}

#[test]
fn a_pod_that_already_finished_is_not_relabelled_terminating() {
    // Garbage collection deleting a Succeeded pod is not the pod stopping;
    // it stopped long ago, and `Completed` is still the useful word.
    let mut finished = pod(
        PodSpec {
            containers: vec![container("job")],
            ..Default::default()
        },
        PodStatus {
            phase: Some("Succeeded".to_owned()),
            container_statuses: Some(vec![status(
                "job",
                terminated(Some("Completed"), 0),
                false,
                0,
            )]),
            ..Default::default()
        },
    );
    finished.metadata.deletion_timestamp = Some(ago(1));

    assert_eq!(PodRow::from_pod(&finished, None, now()).status, "Completed");
}

#[test]
fn a_pod_on_a_lost_node_reads_as_unknown_rather_than_terminating() {
    // Nobody can confirm anything about it, which is a different problem
    // from a pod that is shutting down, and it must not look like one.
    let mut lost = healthy();
    lost.metadata.deletion_timestamp = Some(ago(5));
    if let Some(status) = lost.status.as_mut() {
        status.reason = Some(NODE_LOST.to_owned());
    }

    let row = PodRow::from_pod(&lost, None, now());
    assert_eq!(row.status, "Unknown");
    assert_eq!(row.severity, Severity::Unknown);
}

#[test]
fn a_pod_still_running_its_init_containers_shows_how_far_it_has_got() {
    let pod = pod(
        PodSpec {
            containers: vec![container("app")],
            init_containers: Some(vec![container("migrate"), container("seed")]),
            ..Default::default()
        },
        PodStatus {
            phase: Some("Pending".to_owned()),
            init_container_statuses: Some(vec![status(
                "migrate",
                waiting("PodInitializing"),
                false,
                0,
            )]),
            ..Default::default()
        },
    );

    let row = PodRow::from_pod(&pod, None, now());
    // `PodInitializing` is the kubelet saying "not started yet", so the
    // progress count is the news, not the reason.
    assert_eq!(row.status, "Init:0/2");
    assert_eq!(row.ready, "0/1");
    // Progress, not a problem.
    assert_eq!(row.severity, Severity::Warn);
}

#[test]
fn the_init_progress_counts_the_containers_that_finished_cleanly() {
    let pod = pod(
        PodSpec {
            containers: vec![container("app")],
            init_containers: Some(vec![
                container("migrate"),
                container("seed"),
                container("warm"),
            ]),
            ..Default::default()
        },
        PodStatus {
            phase: Some("Pending".to_owned()),
            init_container_statuses: Some(vec![
                status("migrate", terminated(Some("Completed"), 0), false, 0),
                status("seed", running(), false, 0),
            ]),
            ..Default::default()
        },
    );

    assert_eq!(PodRow::from_pod(&pod, None, now()).status, "Init:1/3");
}

#[test]
fn an_init_container_that_failed_names_the_reason_it_gave() {
    let cases = [
        (terminated(Some("Error"), 1), "Init:Error"),
        (terminated(None, 137), "Init:ExitCode:137"),
        (waiting("ImagePullBackOff"), "Init:ImagePullBackOff"),
        (waiting("CrashLoopBackOff"), "Init:CrashLoopBackOff"),
    ];

    for (state, expected) in cases {
        let pod = pod(
            PodSpec {
                containers: vec![container("app")],
                init_containers: Some(vec![container("migrate"), container("seed")]),
                ..Default::default()
            },
            PodStatus {
                phase: Some("Pending".to_owned()),
                init_container_statuses: Some(vec![status("migrate", state, false, 3)]),
                ..Default::default()
            },
        );

        let row = PodRow::from_pod(&pod, None, now());
        assert_eq!(row.status, expected);
        // A named failure is a failure, unlike bare `Init:n/total`.
        assert_eq!(row.severity, Severity::Critical, "{expected}");
        // While initialising, the init container's restarts are the ones
        // worth showing.
        assert_eq!(row.restarts, 3, "{expected}");
    }
}

#[test]
fn a_killed_container_falls_back_to_its_signal_when_it_gave_no_reason() {
    let killed = ContainerState {
        terminated: Some(ContainerStateTerminated {
            signal: Some(9),
            exit_code: 137,
            ..Default::default()
        }),
        ..Default::default()
    };

    let pod = pod(
        PodSpec {
            containers: vec![container("app")],
            ..Default::default()
        },
        PodStatus {
            phase: Some("Failed".to_owned()),
            container_statuses: Some(vec![status("app", killed, false, 0)]),
            ..Default::default()
        },
    );

    assert_eq!(PodRow::from_pod(&pod, None, now()).status, "Signal:9");
}

#[test]
fn a_finished_job_pod_reads_as_completed() {
    let pod = pod(
        PodSpec {
            containers: vec![container("job")],
            ..Default::default()
        },
        PodStatus {
            phase: Some("Succeeded".to_owned()),
            container_statuses: Some(vec![status(
                "job",
                terminated(Some("Completed"), 0),
                false,
                0,
            )]),
            ..Default::default()
        },
    );

    let row = PodRow::from_pod(&pod, None, now());
    assert_eq!(row.status, "Completed");
    assert_eq!(row.ready, "0/1");
    // A job that did its work is good news, not a warning.
    assert_eq!(row.severity, Severity::Okay);
}

#[test]
fn a_completed_container_beside_a_running_one_is_not_completed() {
    // The classic stuck Job: the work finished but a sidecar never exits,
    // so the pod is still on the node. Saying `Completed` would hide that.
    let statuses = vec![
        status("job", terminated(Some("Completed"), 0), false, 0),
        status("proxy", running(), true, 0),
    ];
    let spec = PodSpec {
        containers: vec![container("job"), container("proxy")],
        ..Default::default()
    };

    let not_ready = pod(
        spec.clone(),
        PodStatus {
            phase: Some("Running".to_owned()),
            container_statuses: Some(statuses.clone()),
            ..Default::default()
        },
    );
    assert_eq!(PodRow::from_pod(&not_ready, None, now()).status, "NotReady");

    let ready = pod(
        spec,
        PodStatus {
            phase: Some("Running".to_owned()),
            conditions: Some(vec![condition("Ready", "True", None)]),
            container_statuses: Some(statuses),
            ..Default::default()
        },
    );
    assert_eq!(PodRow::from_pod(&ready, None, now()).status, "Running");
}

#[test]
fn a_started_sidecar_counts_towards_the_ready_fraction() {
    // Its restarts are the only init-container restarts that survive, too:
    // a sidecar restarting is a live problem, a finished init container
    // having restarted is history.
    let mut proxy = status("proxy", running(), true, 3);
    proxy.started = Some(true);

    let pod = pod(
        PodSpec {
            containers: vec![container("app")],
            init_containers: Some(vec![sidecar("proxy"), container("migrate")]),
            ..Default::default()
        },
        PodStatus {
            phase: Some("Running".to_owned()),
            conditions: Some(vec![condition("Ready", "True", None)]),
            init_container_statuses: Some(vec![
                proxy,
                status("migrate", terminated(Some("Completed"), 0), false, 5),
            ]),
            container_statuses: Some(vec![status("app", running(), true, 1)]),
            ..Default::default()
        },
    );

    let row = PodRow::from_pod(&pod, None, now());
    assert_eq!(row.status, "Running");
    // Two of two: the app container and the sidecar.
    assert_eq!(row.ready, "2/2");
    // The sidecar's 3 and the app's 1; the finished init container's 5 are
    // forgotten.
    assert_eq!(row.restarts, 4);
    assert_eq!(row.severity, Severity::Okay);
}

#[test]
fn the_first_unhappy_container_in_the_spec_is_the_one_named() {
    // kubectl walks the statuses backwards, so with two failures the one
    // reported is the first one declared — the one a reader thinks of as
    // "the" container.
    let pod = pod(
        PodSpec {
            containers: vec![container("app"), container("exporter")],
            ..Default::default()
        },
        PodStatus {
            phase: Some("Pending".to_owned()),
            container_statuses: Some(vec![
                status("app", waiting("CreateContainerConfigError"), false, 0),
                status("exporter", waiting("ImagePullBackOff"), false, 0),
            ]),
            ..Default::default()
        },
    );

    assert_eq!(
        PodRow::from_pod(&pod, None, now()).status,
        "CreateContainerConfigError"
    );
}

#[test]
fn an_initialised_pod_still_counts_its_running_app_containers() {
    // A sidecar that came up and later started crashing leaves an init
    // container reporting forever. `Initialized` being true is what says
    // the app containers are running anyway, and their readiness counts.
    let mut proxy = status("proxy", waiting("CrashLoopBackOff"), false, 4);
    proxy.started = Some(false);

    let pod = pod(
        PodSpec {
            containers: vec![container("app")],
            init_containers: Some(vec![sidecar("proxy")]),
            ..Default::default()
        },
        PodStatus {
            phase: Some("Running".to_owned()),
            conditions: Some(vec![condition("Initialized", "True", None)]),
            init_container_statuses: Some(vec![proxy]),
            container_statuses: Some(vec![status("app", running(), true, 2)]),
            ..Default::default()
        },
    );

    let row = PodRow::from_pod(&pod, None, now());
    // The crashing sidecar is still what is wrong, and still what is named.
    assert_eq!(row.status, "Init:CrashLoopBackOff");
    // But the app container is up, and one of two is honest.
    assert_eq!(row.ready, "1/2");
    // The sidecar's restarts survive initialisation; so do the app's.
    assert_eq!(row.restarts, 6);
    assert_eq!(row.severity, Severity::Critical);
}

#[test]
fn a_gated_pod_says_so_rather_than_looking_like_a_capacity_problem() {
    let pod = pod(
        PodSpec {
            containers: vec![container("app")],
            node_name: None,
            ..Default::default()
        },
        PodStatus {
            phase: Some("Pending".to_owned()),
            conditions: Some(vec![condition(
                "PodScheduled",
                "False",
                Some("SchedulingGated"),
            )]),
            ..Default::default()
        },
    );

    let row = PodRow::from_pod(&pod, None, now());
    assert_eq!(row.status, "SchedulingGated");
    assert_eq!(row.severity, Severity::Warn);
}

#[test]
fn an_evicted_pod_keeps_the_reason_the_api_server_gave() {
    // `status.reason` outranks the phase, which would only say `Failed`.
    let pod = pod(
        PodSpec {
            containers: vec![container("app")],
            ..Default::default()
        },
        PodStatus {
            phase: Some("Failed".to_owned()),
            reason: Some("Evicted".to_owned()),
            ..Default::default()
        },
    );

    let row = PodRow::from_pod(&pod, None, now());
    assert_eq!(row.status, "Evicted");
    assert_eq!(row.severity, Severity::Critical);
}

#[test]
fn an_unscheduled_pod_has_no_node_to_show() {
    let pod = pod(
        PodSpec {
            containers: vec![container("app")],
            node_name: None,
            ..Default::default()
        },
        PodStatus {
            phase: Some("Pending".to_owned()),
            ..Default::default()
        },
    );

    let row = PodRow::from_pod(&pod, None, now());
    assert_eq!(row.node, "-");
    assert_eq!(row.status, "Pending");
    assert_eq!(row.ready, "0/1");
    assert_eq!(row.severity, Severity::Warn);
}

#[test]
fn a_pod_with_nothing_filled_in_still_produces_a_row() {
    // Every field under `status` is optional, and a pod caught between
    // admission and its first kubelet report really can arrive like this.
    let row = PodRow::from_pod(&Pod::default(), None, now());

    assert_eq!(row.namespace, "-");
    assert_eq!(row.name, "-");
    assert_eq!(row.ready, "0/0");
    // An empty STATUS cell reads like a rendering bug rather than a fact.
    assert_eq!(row.status, "Unknown");
    assert_eq!(row.severity, Severity::Unknown);
    assert_eq!(row.restarts, 0);
    assert_eq!(row.age, "-");
    assert_eq!(row.node, "-");
}

#[test]
fn a_running_pod_missing_a_container_is_a_warning_not_a_success() {
    let pod = pod(
        PodSpec {
            containers: vec![container("app"), container("exporter")],
            ..Default::default()
        },
        PodStatus {
            phase: Some("Running".to_owned()),
            container_statuses: Some(vec![
                status("app", running(), true, 0),
                status("exporter", running(), false, 0),
            ]),
            ..Default::default()
        },
    );

    let row = PodRow::from_pod(&pod, None, now());
    assert_eq!(row.ready, "1/2");
    assert_eq!(row.status, "Running");
    assert_eq!(row.severity, Severity::Warn);
}

#[test]
fn an_unrecognised_failure_reason_is_treated_as_a_failure() {
    // The set of things that can go wrong grows every release; a reason
    // this tool has never heard of should arrive coloured as a problem.
    assert_eq!(
        severity("SomeNewBackoffKubeInvented", 0, 1),
        Severity::Critical
    );
    assert_eq!(severity("Init:SomethingNew", 0, 1), Severity::Critical);
    // But the numeric init form is progress however many containers there are.
    assert_eq!(severity("Init:12/40", 0, 1), Severity::Warn);
    assert_eq!(severity("Init:1/", 0, 1), Severity::Critical);
}

fn rows() -> Vec<PodRow> {
    let mut other = healthy();
    other.metadata.name = Some("checkout-5d4b".to_owned());
    other.metadata.namespace = Some("storefront".to_owned());
    other.metadata.creation_timestamp = Some(ago(3));

    vec![
        PodRow::from_pod(&healthy(), None, now()),
        PodRow::from_pod(&other, None, now()),
    ]
}

#[test]
fn a_namespaced_listing_does_not_repeat_the_namespace_on_every_row() {
    let rendered = render(
        &rows(),
        "prod (us-east-1)",
        &Scope::Namespace("payments".to_owned()),
        &unfiltered(),
        &[],
        Width::Default,
    );

    assert_eq!(
        rendered,
        "NAME           READY  STATUS   RESTARTS  AGE  NODE\n\
         api-7c9f       1/1    Running  0         90m  ip-10-0-1-9.ec2.internal\n\
         checkout-5d4b  1/1    Running  0         3m   ip-10-0-1-9.ec2.internal"
    );
}

#[test]
fn a_cluster_wide_listing_leads_with_the_namespace() {
    // Without it, two pods called `api-7c9f` in different namespaces are
    // indistinguishable.
    let rendered = render(
        &rows(),
        "prod (us-east-1)",
        &Scope::All,
        &unfiltered(),
        &[],
        Width::Default,
    );

    assert_eq!(
        rendered,
        "NAMESPACE   NAME           READY  STATUS   RESTARTS  AGE  NODE\n\
         payments    api-7c9f       1/1    Running  0         90m  ip-10-0-1-9.ec2.internal\n\
         storefront  checkout-5d4b  1/1    Running  0         3m   ip-10-0-1-9.ec2.internal"
    );
}

#[test]
fn an_empty_namespace_suggests_where_else_to_look() {
    let message = render(
        &[],
        "prod (us-east-1)",
        &Scope::Namespace("payments".to_owned()),
        &unfiltered(),
        &[],
        Width::Default,
    );

    assert!(message.contains("prod (us-east-1)"), "{message}");
    assert!(message.contains("\"payments\""), "{message}");
    assert!(message.contains("--all-namespaces"), "{message}");
    assert!(!message.contains("NAME"), "{message}");
}

#[test]
fn an_empty_cluster_wide_listing_suggests_checking_the_cluster() {
    let message = render(
        &[],
        "prod (us-east-1)",
        &Scope::All,
        &unfiltered(),
        &[],
        Width::Default,
    );

    assert!(message.contains("prod (us-east-1)"), "{message}");
    assert!(message.contains("eks contexts"), "{message}");
    assert!(!message.contains("--all-namespaces"), "{message}");
}

#[test]
fn an_empty_filtered_listing_blames_the_selector_not_the_namespace() {
    // A live namespace that a selector emptied must not read as an empty
    // namespace, or the user goes hunting for pods that are there.
    let filtered = Selectors {
        label: Some("app=api".to_owned()),
        field: None,
    };
    let message = render(
        &[],
        "prod (us-east-1)",
        &Scope::Namespace("payments".to_owned()),
        &filtered,
        &[],
        Width::Default,
    );

    assert!(message.contains("prod (us-east-1)"), "{message}");
    assert!(message.contains("label selector `app=api`"), "{message}");
    // The scope's own advice would be a red herring here.
    assert!(!message.contains("--all-namespaces"), "{message}");
}

#[test]
fn an_empty_filtered_listing_names_both_selectors_when_both_are_set() {
    let filtered = Selectors {
        label: Some("app=api".to_owned()),
        field: Some("status.phase!=Running".to_owned()),
    };
    let message = render(
        &[],
        "prod (us-east-1)",
        &Scope::All,
        &filtered,
        &[],
        Width::Default,
    );

    assert!(message.contains("label selector `app=api`"), "{message}");
    assert!(
        message.contains("field selector `status.phase!=Running`"),
        "{message}"
    );
}

#[test]
fn a_pod_that_has_never_restarted_shows_a_bare_count() {
    // Most rows in a healthy listing. `0 (— ago)` on every one of them
    // would be noise, and there is genuinely nothing to date.
    let row = PodRow::from_pod(&healthy(), None, now());

    assert_eq!(row.restarts, 0);
    assert_eq!(row.restart_age, None);
    assert_eq!(restarts_cell(&row), "0");
}

#[test]
fn a_restarted_container_says_how_long_ago_it_happened() {
    // The distinction the column exists to make: nine crashes last Tuesday
    // and nine crashes in the last five minutes are not the same incident.
    let pod = pod(
        PodSpec {
            containers: vec![container("app")],
            ..Default::default()
        },
        PodStatus {
            phase: Some("Running".to_owned()),
            container_statuses: Some(vec![restarted(
                "app",
                waiting("CrashLoopBackOff"),
                9,
                Some(ago(5)),
            )]),
            ..Default::default()
        },
    );

    let row = PodRow::from_pod(&pod, None, now());
    assert_eq!(row.restarts, 9);
    assert_eq!(row.restart_age.as_deref(), Some("5m"));
    assert_eq!(restarts_cell(&row), "9 (5m ago)");
}

#[test]
fn the_unformatted_restart_instant_is_carried_for_sorting() {
    // `restart_age` rounds — two pods that crashed forty seconds apart both
    // read `5m` — so ordering needs the moment itself. It has to be the
    // *same* moment the cell is rendered from, or the listing would be
    // sorted by one number and read as another.
    let pod = pod(
        PodSpec {
            containers: vec![container("app")],
            ..Default::default()
        },
        PodStatus {
            phase: Some("Running".to_owned()),
            container_statuses: Some(vec![restarted(
                "app",
                waiting("CrashLoopBackOff"),
                9,
                Some(ago(5)),
            )]),
            ..Default::default()
        },
    );

    let row = PodRow::from_pod(&pod, None, now());
    assert_eq!(row.last_restart, Some(ago(5)));
}

#[test]
fn a_pod_with_nothing_to_date_carries_no_instant_either() {
    // Both halves of the pair go missing together: a never-restarted pod,
    // and a restart the kubelet recorded no finishing time for.
    let never = PodRow::from_pod(&healthy(), None, now());
    assert_eq!(never.restarts, 0);
    assert_eq!(never.last_restart, None);

    let undated = pod(
        PodSpec {
            containers: vec![container("app")],
            ..Default::default()
        },
        PodStatus {
            phase: Some("Running".to_owned()),
            container_statuses: Some(vec![restarted(
                "app",
                waiting("CrashLoopBackOff"),
                2,
                None,
            )]),
            ..Default::default()
        },
    );

    let undated = PodRow::from_pod(&undated, None, now());
    assert_eq!(undated.restarts, 2);
    assert_eq!(undated.last_restart, None);
}

#[test]
fn the_newest_restart_across_the_containers_is_the_one_dated() {
    // One container settled hours ago and another is still going; the
    // recent one is the news, whichever order the statuses arrive in.
    let pod = pod(
        PodSpec {
            containers: vec![container("app"), container("exporter")],
            ..Default::default()
        },
        PodStatus {
            phase: Some("Running".to_owned()),
            container_statuses: Some(vec![
                restarted("app", waiting("CrashLoopBackOff"), 4, Some(ago(240))),
                restarted("exporter", running(), 2, Some(ago(2))),
            ]),
            ..Default::default()
        },
    );

    let row = PodRow::from_pod(&pod, None, now());
    assert_eq!(row.restarts, 6);
    assert_eq!(row.restart_age.as_deref(), Some("2m"));
}

#[test]
fn a_finished_init_containers_restart_time_is_forgotten_with_its_count() {
    // The rule that makes this worth a test: once initialisation is over,
    // only a sidecar's restarts survive — so only a sidecar's timestamp may
    // survive with them. A plain init container leaving its date behind
    // would date a count it is no longer part of.
    let mut proxy = restarted("proxy", running(), 3, Some(ago(20)));
    proxy.started = Some(true);
    proxy.ready = true;

    let pod = pod(
        PodSpec {
            containers: vec![container("app")],
            init_containers: Some(vec![sidecar("proxy"), container("migrate")]),
            ..Default::default()
        },
        PodStatus {
            phase: Some("Running".to_owned()),
            conditions: Some(vec![condition("Ready", "True", None)]),
            init_container_statuses: Some(vec![
                proxy,
                // Restarted far more recently, and entirely irrelevant.
                restarted("migrate", terminated(Some("Completed"), 0), 5, Some(ago(1))),
            ]),
            container_statuses: Some(vec![status("app", running(), true, 0)]),
            ..Default::default()
        },
    );

    let row = PodRow::from_pod(&pod, None, now());
    assert_eq!(row.restarts, 3);
    assert_eq!(row.restart_age.as_deref(), Some("20m"));
}

#[test]
fn while_initialising_the_init_containers_own_restart_time_is_shown() {
    // Before the pod comes up the init restarts are the count, so they are
    // also the recency — a pod stuck retrying its migration should say how
    // long ago the last attempt died.
    let pod = pod(
        PodSpec {
            containers: vec![container("app")],
            init_containers: Some(vec![container("migrate"), container("seed")]),
            ..Default::default()
        },
        PodStatus {
            phase: Some("Pending".to_owned()),
            init_container_statuses: Some(vec![restarted(
                "migrate",
                waiting("CrashLoopBackOff"),
                3,
                Some(ago(45)),
            )]),
            ..Default::default()
        },
    );

    let row = PodRow::from_pod(&pod, None, now());
    assert_eq!(row.status, "Init:CrashLoopBackOff");
    assert_eq!(row.restarts, 3);
    assert_eq!(row.restart_age.as_deref(), Some("45m"));
}

#[test]
fn a_previous_run_with_no_finish_time_leaves_the_count_undated() {
    // A container killed before anything observed it stopping. The count is
    // still real; inventing a date for it would not be.
    let pod = pod(
        PodSpec {
            containers: vec![container("app")],
            ..Default::default()
        },
        PodStatus {
            phase: Some("Running".to_owned()),
            container_statuses: Some(vec![restarted(
                "app",
                waiting("CrashLoopBackOff"),
                2,
                None,
            )]),
            ..Default::default()
        },
    );

    let row = PodRow::from_pod(&pod, None, now());
    assert_eq!(row.restarts, 2);
    assert_eq!(row.restart_age, None);
    assert_eq!(restarts_cell(&row), "2");
}

#[test]
fn a_restart_dated_in_the_future_reads_as_just_now_rather_than_negatively() {
    // Clock skew between the node and here, which is not the user's problem
    // and certainly not worth a `-3m`.
    let skewed = ago(-3);
    let pod = pod(
        PodSpec {
            containers: vec![container("app")],
            ..Default::default()
        },
        PodStatus {
            phase: Some("Running".to_owned()),
            container_statuses: Some(vec![restarted(
                "app",
                waiting("CrashLoopBackOff"),
                1,
                Some(skewed),
            )]),
            ..Default::default()
        },
    );

    assert_eq!(
        restarts_cell(&PodRow::from_pod(&pod, None, now())),
        "1 (0s ago)"
    );
}

#[test]
fn the_restarts_column_widens_to_fit_the_recency_without_moving_the_others() {
    // The cell grows from `0` to `9 (5m ago)`; the table has to stay a
    // table, and AGE and NODE have to stay where `kubectl` leaves them.
    let mut crashing = healthy();
    crashing.metadata.name = Some("checkout-5d4b".to_owned());
    crashing.status = Some(PodStatus {
        phase: Some("Running".to_owned()),
        container_statuses: Some(vec![restarted(
            "app",
            waiting("CrashLoopBackOff"),
            9,
            Some(ago(5)),
        )]),
        ..Default::default()
    });

    let rows = vec![
        PodRow::from_pod(&healthy(), None, now()),
        PodRow::from_pod(&crashing, None, now()),
    ];
    let rendered = render(
        &rows,
        "prod (us-east-1)",
        &Scope::Namespace("payments".to_owned()),
        &unfiltered(),
        &[],
        Width::Default,
    );

    assert_eq!(
        rendered,
        "NAME           READY  STATUS            RESTARTS    AGE  NODE\n\
         api-7c9f       1/1    Running           0           90m  ip-10-0-1-9.ec2.internal\n\
         checkout-5d4b  0/1    CrashLoopBackOff  9 (5m ago)  90m  ip-10-0-1-9.ec2.internal"
    );
}

/// A `Usage` as metrics-server would have summed it for one pod.
fn used(cpu: &str, memory: &str) -> Usage {
    Usage {
        cpu: Quantity::parse(cpu).ok(),
        memory: Quantity::parse(memory).ok(),
    }
}

/// The same two rows as [`rows`], with live usage on both.
fn sampled_rows() -> Vec<PodRow> {
    let mut other = healthy();
    other.metadata.name = Some("checkout-5d4b".to_owned());
    other.metadata.namespace = Some("storefront".to_owned());
    other.metadata.creation_timestamp = Some(ago(3));

    vec![
        PodRow::from_pod(&healthy(), Some(used("250m", "512Mi")), now()),
        PodRow::from_pod(&other, Some(used("1200m", "3Gi")), now()),
    ]
}

#[test]
fn a_sampled_pod_carries_its_usage_onto_the_row() {
    let row = PodRow::from_pod(&healthy(), Some(used("250m", "512Mi")), now());

    assert_eq!(row.cpu_used, Some(Quantity::parse("250m").unwrap()));
    assert_eq!(row.memory_used, Some(Quantity::parse("512Mi").unwrap()));
}

#[test]
fn the_creation_instant_agrees_with_the_age_cell() {
    // The two are read from one field so they cannot describe different
    // moments — the pairing `k8s::pods::order` sorts on.
    let row = PodRow::from_pod(&healthy(), None, now());

    assert_eq!(row.age, "90m");
    assert_eq!(row.created_at, Some(ago(90)));
}

#[test]
fn a_pod_with_no_creation_timestamp_has_no_instant_either() {
    // The API server always sets `creationTimestamp`, but a hand-written
    // fixture or a partial object from a cache need not, and the AGE cell
    // already falls back to `-` for it.
    let mut undated = healthy();
    undated.metadata.creation_timestamp = None;

    let row = PodRow::from_pod(&undated, None, now());

    assert_eq!(row.age, "-");
    assert_eq!(row.created_at, None);
}

#[test]
fn a_pod_with_no_sample_has_no_usage_rather_than_zero() {
    // The whole reason these are `Option`: a pod nothing was sampled for
    // must not read as a pod doing nothing.
    let row = PodRow::from_pod(&healthy(), None, now());

    assert_eq!(row.cpu_used, None);
    assert_eq!(row.memory_used, None);

    // Half a sample is the same story for the half that is missing.
    let half = PodRow::from_pod(
        &healthy(),
        Some(Usage {
            cpu: Quantity::parse("250m").ok(),
            memory: None,
        }),
        now(),
    );
    assert_eq!(half.cpu_used, Some(Quantity::parse("250m").unwrap()));
    assert_eq!(half.memory_used, None);
}

#[test]
fn usage_columns_sit_between_the_restarts_and_the_age() {
    let rendered = render(
        &sampled_rows(),
        "prod (us-east-1)",
        &Scope::Namespace("payments".to_owned()),
        &unfiltered(),
        &[],
        Width::Default,
    );

    assert_eq!(
        rendered,
        "NAME           READY  STATUS   RESTARTS  CPU    MEMORY  AGE  NODE\n\
         api-7c9f       1/1    Running  0         250m   512Mi   90m  ip-10-0-1-9.ec2.internal\n\
         checkout-5d4b  1/1    Running  0         1200m  3Gi     3m   ip-10-0-1-9.ec2.internal"
    );
}

#[test]
fn a_cluster_wide_listing_keeps_the_namespace_first_with_usage_too() {
    let rendered = render(
        &sampled_rows(),
        "prod (us-east-1)",
        &Scope::All,
        &unfiltered(),
        &[],
        Width::Default,
    );

    assert!(
        rendered.starts_with("NAMESPACE   NAME           READY  STATUS   RESTARTS  CPU"),
        "{rendered}"
    );
}

#[test]
fn a_cluster_with_no_metrics_server_gains_no_empty_columns() {
    // Two blank columns on every EKS cluster that has not installed the
    // add-on would be a worse table than the one we have today.
    let rendered = render(
        &rows(),
        "prod (us-east-1)",
        &Scope::Namespace("payments".to_owned()),
        &unfiltered(),
        &[],
        Width::Default,
    );

    assert!(!rendered.contains("CPU"), "{rendered}");
    assert!(!rendered.contains("MEMORY"), "{rendered}");
}

#[test]
fn one_unsampled_pod_does_not_cost_the_others_their_columns() {
    // A pod started seconds ago has not been scraped yet; that is a `-` in
    // its own row, not a reason to hide everyone else's figures.
    let mut some = sampled_rows();
    some[1].cpu_used = None;
    some[1].memory_used = None;

    let rendered = render(
        &some,
        "prod (us-east-1)",
        &Scope::Namespace("payments".to_owned()),
        &unfiltered(),
        &[],
        Width::Default,
    );

    assert!(rendered.contains("CPU"), "{rendered}");
    // The column narrows to the one figure left in it; what matters is that
    // the unsampled row reads `-` in both halves rather than `0`.
    assert!(
        rendered.contains("checkout-5d4b  1/1    Running  0         -     -"),
        "{rendered}"
    );
}

#[test]
fn half_a_sample_shows_the_half_it_has() {
    let mut half = sampled_rows();
    half[0].memory_used = None;

    let rendered = render(
        &half,
        "prod (us-east-1)",
        &Scope::Namespace("payments".to_owned()),
        &unfiltered(),
        &[],
        Width::Default,
    );

    assert!(
        rendered.contains("api-7c9f       1/1    Running  0         250m   -  "),
        "{rendered}"
    );
}

/// The healthy pod, with its container asking for the given resources.
///
/// Takes the entries as pairs rather than two `&str`s so a container that
/// sets a memory request and leaves CPU unbounded — a very common shape,
/// and the one that gives a listing a pair in one column and not the other
/// — is expressible.
fn asking(entries: &[(&str, &str)]) -> Pod {
    let mut pod = healthy();
    if let Some(spec) = pod.spec.as_mut() {
        for container in &mut spec.containers {
            container.resources = Some(ResourceRequirements {
                requests: Some(named(entries.iter().copied())),
                ..Default::default()
            });
        }
    }
    pod
}

/// The two rows of [`sampled_rows`], each pod asking for something — the
/// shape nearly every real deployment has.
fn requesting_rows() -> Vec<PodRow> {
    let mut other = asking(&[("cpu", "2"), ("memory", "4Gi")]);
    other.metadata.name = Some("checkout-5d4b".to_owned());
    other.metadata.namespace = Some("storefront".to_owned());
    other.metadata.creation_timestamp = Some(ago(3));

    vec![
        PodRow::from_pod(
            &asking(&[("cpu", "500m"), ("memory", "1Gi")]),
            Some(used("250m", "512Mi")),
            now(),
        ),
        PodRow::from_pod(&other, Some(used("1200m", "3Gi")), now()),
    ]
}

#[test]
fn a_pod_carries_what_it_asked_for_onto_the_row() {
    let row = PodRow::from_pod(
        &asking(&[("cpu", "500m"), ("memory", "1Gi")]),
        Some(used("250m", "512Mi")),
        now(),
    );

    assert_eq!(row.cpu_requested, Quantity::parse("500m").unwrap());
    assert_eq!(row.memory_requested, Quantity::parse("1Gi").unwrap());
}

#[test]
fn the_request_on_a_row_is_the_one_eks_nodes_totals() {
    // The interesting half of `effective_requests`: an init container that
    // dwarfs the app container decides the pod's footprint, and pod
    // overhead is charged on top. A second sum written here would get this
    // wrong quietly, and the two commands would disagree about one pod.
    let mut pod = healthy();
    if let Some(spec) = pod.spec.as_mut() {
        spec.containers = vec![Container {
            resources: Some(ResourceRequirements {
                requests: Some(
                    named([("cpu", "200m")]),
                ),
                ..Default::default()
            }),
            ..container("app")
        }];
        spec.init_containers = Some(vec![Container {
            resources: Some(ResourceRequirements {
                requests: Some(
                    named([("cpu", "1")]),
                ),
                ..Default::default()
            }),
            ..container("migrate")
        }]);
        spec.overhead = Some(
            named([("cpu", "50m")]),
        );
    }

    let row = PodRow::from_pod(&pod, Some(used("250m", "512Mi")), now());

    // max(200m app, 1 init) + 50m overhead, which is what `eks nodes` puts
    // in this pod's share of its node.
    assert_eq!(row.cpu_requested, Quantity::parse("1050m").unwrap());
    assert_eq!(
        row.cpu_requested,
        effective_requests(&pod).cpu
    );
}

#[test]
fn usage_is_shown_against_what_the_pod_asked_for() {
    // 250m on its own is unreadable: a fifth of a core is fine, throttled,
    // or a mistake depending entirely on the number beside it.
    let rendered = render(
        &requesting_rows(),
        "prod (us-east-1)",
        &Scope::Namespace("payments".to_owned()),
        &unfiltered(),
        &[],
        Width::Default,
    );

    assert_eq!(
        rendered,
        "NAME           READY  STATUS   RESTARTS  CPU/REQ          MEMORY/REQ       AGE  NODE\n\
         api-7c9f       1/1    Running  0         250m/500m (50%)  512Mi/1Gi (50%)  90m  ip-10-0-1-9.ec2.internal\n\
         checkout-5d4b  1/1    Running  0         1200m/2 (60%)    3Gi/4Gi (75%)    3m   ip-10-0-1-9.ec2.internal"
    );
}

#[test]
fn a_pod_that_asked_for_nothing_keeps_the_bare_usage_figure() {
    // The honest reading: such a pod has no denominator, and `250m/0` is
    // not a percentage of anything. The heading drops the `/REQ` with it,
    // rather than promising a column of pairs that is a column of figures.
    let rendered = render(
        &sampled_rows(),
        "prod (us-east-1)",
        &Scope::Namespace("payments".to_owned()),
        &unfiltered(),
        &[],
        Width::Default,
    );

    assert_eq!(
        rendered,
        "NAME           READY  STATUS   RESTARTS  CPU    MEMORY  AGE  NODE\n\
         api-7c9f       1/1    Running  0         250m   512Mi   90m  ip-10-0-1-9.ec2.internal\n\
         checkout-5d4b  1/1    Running  0         1200m  3Gi     3m   ip-10-0-1-9.ec2.internal"
    );
}

#[test]
fn usage_past_the_request_is_reported_rather_than_capped() {
    // The pod being throttled, or the one about to be OOM-killed. Capping
    // at 100% would hide the only moment anybody reads this column for.
    let row = PodRow::from_pod(
        &asking(&[("cpu", "100m"), ("memory", "256Mi")]),
        Some(used("450m", "1Gi")),
        now(),
    );

    assert_eq!(
        Column::Cpu {
            against_request: true
        }
        .cell(&row),
        "450m/100m (450%)"
    );
    assert_eq!(
        Column::Memory {
            against_request: true
        }
        .cell(&row),
        "1Gi/256Mi (400%)"
    );
}

#[test]
fn a_pod_using_nothing_reads_as_zero_of_its_request() {
    // A real zero, unlike the `-` of a pod nobody has sampled: this one was
    // measured and is idle, which is a fact about the pod rather than about
    // the scraper, and the two must not render alike.
    let row = PodRow::from_pod(
        &asking(&[("cpu", "500m"), ("memory", "1Gi")]),
        Some(used("0", "0")),
        now(),
    );

    assert_eq!(
        Column::Cpu {
            against_request: true
        }
        .cell(&row),
        "0/500m (0%)"
    );
}

#[test]
fn an_unsampled_pod_reads_as_unknown_however_much_it_asked_for() {
    // A request is not a measurement. Rendering `-/500m` would put a figure
    // in a cell that has none, and `0/500m (0%)` would invent an idle pod.
    let row = PodRow::from_pod(&asking(&[("cpu", "500m"), ("memory", "1Gi")]), None, now());

    assert_eq!(
        Column::Cpu {
            against_request: true
        }
        .cell(&row),
        "-"
    );
    assert_eq!(
        Column::Memory {
            against_request: true
        }
        .cell(&row),
        "-"
    );
}

#[test]
fn a_request_on_one_resource_pairs_that_column_alone() {
    // Setting a memory request and leaving CPU unbounded is a common shape,
    // and each heading answers for its own column.
    let rows = vec![PodRow::from_pod(
        &asking(&[("memory", "1Gi")]),
        Some(used("250m", "512Mi")),
        now(),
    )];

    assert_eq!(
        columns(
            &Scope::Namespace("payments".to_owned()),
            &rows,
            Width::Default
        ),
        vec![
            Column::Name,
            Column::Ready,
            Column::Status,
            Column::Restarts,
            Column::Cpu {
                against_request: false
            },
            Column::Memory {
                against_request: true
            },
            Column::Age,
            Column::Node,
        ]
    );
}

#[test]
fn one_pod_with_a_request_earns_the_heading_for_the_column() {
    // `any`, like the usage columns themselves: one pod that asked for
    // something is a pair somebody can read, and the rows around it that
    // asked for nothing keep their bare figures under the same heading.
    let mut rows = requesting_rows();
    rows[1] = PodRow::from_pod(&healthy(), Some(used("1200m", "3Gi")), now());

    let rendered = render(
        &rows,
        "prod (us-east-1)",
        &Scope::Namespace("payments".to_owned()),
        &unfiltered(),
        &[],
        Width::Default,
    );

    assert!(
        rendered.starts_with("NAME      READY  STATUS   RESTARTS  CPU/REQ"),
        "{rendered}"
    );
    assert!(rendered.contains("250m/500m (50%)"), "{rendered}");
    assert!(rendered.contains("1200m            3Gi"), "{rendered}");
}

#[test]
fn a_listing_nobody_sampled_promises_no_denominator() {
    // Every pod here asked for something and none was measured, so there is
    // no pair to head — and with no usage at all the columns are absent
    // anyway, which the footnote above the table explains.
    let rows = vec![PodRow::from_pod(
        &asking(&[("cpu", "500m"), ("memory", "1Gi")]),
        None,
        now(),
    )];

    let rendered = render(
        &rows,
        "prod (us-east-1)",
        &Scope::Namespace("payments".to_owned()),
        &unfiltered(),
        &[],
        Width::Default,
    );

    assert!(!rendered.contains("CPU"), "{rendered}");
    assert!(!rendered.contains("REQ"), "{rendered}");
}

#[test]
fn a_footnote_is_appended_under_the_table() {
    let rendered = render(
        &rows(),
        "prod (us-east-1)",
        &Scope::Namespace("payments".to_owned()),
        &unfiltered(),
        &[usage_unavailable(
            "prod (us-east-1) has no metrics.k8s.io API.",
        )],
        Width::Default,
    );

    assert!(rendered.contains("api-7c9f"), "{rendered}");
    assert!(
        rendered.contains("\n\nCPU and MEMORY are not shown"),
        "{rendered}"
    );
    assert!(rendered.contains("no metrics.k8s.io API"), "{rendered}");
}

#[test]
fn an_unsampled_namespace_is_told_apart_from_a_cluster_with_no_metrics_server() {
    // Same two missing columns, opposite advice. `eks pods` meets this more
    // often than `eks nodes` does, because a namespace whose pods have only
    // just been created is scraped a moment after they start.
    let rendered = render(
        &rows(),
        "prod (us-east-1)",
        &Scope::Namespace("payments".to_owned()),
        &unfiltered(),
        &[usage_unsampled(
            "Look at the metrics-server pods of prod (us-east-1) in kube-system.",
        )],
        Width::Default,
    );

    assert!(rendered.contains("api-7c9f"), "{rendered}");
    assert!(
        rendered.contains(
            "\n\nCPU and MEMORY are not shown because nothing here has been sampled yet."
        ),
        "{rendered}"
    );
    assert!(rendered.contains("kube-system"), "{rendered}");
    assert!(
        !rendered.contains("github.com/kubernetes-sigs/metrics-server"),
        "advice to install what is already installed: {rendered}"
    );
    assert!(!rendered.contains("could not be read"), "{rendered}");
}

#[test]
fn the_sort_note_goes_under_the_table_with_the_footnotes() {
    let notes = [
        usage_unavailable("prod (us-east-1) has no metrics.k8s.io API."),
        note(
            Order::Restarts,
            Direction::Natural,
        )
        .expect("a reordered listing should say so"),
    ];

    let output = render(
        &rows(),
        "prod (us-east-1)",
        &Scope::Namespace("payments".to_owned()),
        &unfiltered(),
        &notes,
        Width::Default,
    );
    let paragraphs: Vec<&str> = output.split("\n\n").collect();

    // The table above the notes is exactly the table without them.
    assert_eq!(
        paragraphs[0],
        render(
            &rows(),
            "prod (us-east-1)",
            &Scope::Namespace("payments".to_owned()),
            &unfiltered(),
            &[],
            Width::Default,
        )
    );
    assert_eq!(paragraphs[2], "Sorted by restarts.");
}

#[test]
fn an_ordering_that_ranked_no_pod_says_so_under_the_sort_note() {
    // `eks pods --sort cpu` where metrics-server could not be read: the
    // table has no CPU column, and `Sorted by cpu.` on its own describes a
    // listing the alphabet arranged. The footnote above already says what to
    // install, so the note points at it and spends its own second line on
    // the orderings that would have worked here.
    let order = Order::Cpu;
    let missing = Missing { usage: true };
    let notes: Vec<String> =
        note(order, Direction::Natural)
            .into_iter()
            .chain(unranked_note(
                order,
                cause(order, missing),
                &rows(),
            ))
            .collect();

    let output = render(
        &rows(),
        "prod (us-east-1)",
        &Scope::Namespace("payments".to_owned()),
        &unfiltered(),
        &notes,
        Width::Default,
    );
    let paragraphs: Vec<&str> = output.split("\n\n").collect();

    assert_eq!(paragraphs[1], "Sorted by cpu.");
    assert_eq!(
        paragraphs[2],
        "Nothing here has cpu to sort by, for the reason above.\n\
         Sort by age instead."
    );
}

#[test]
fn a_healthy_namespace_sorted_by_restarts_is_told_what_else_to_try() {
    // The other half of the roadmap entry behind these notes: nothing has
    // crashed, so nothing ranked, and there is no failure above the table to
    // point at — because nothing failed. All the note has to offer is the
    // flag that would reorder this listing, so it had better offer it, and
    // this listing has three of them.
    let order = Order::Restarts;
    let note = unranked_note(
        order,
        cause(order, Missing::default()),
        &sampled_rows(),
    );

    assert_eq!(
        note.as_deref(),
        Some(
            "Nothing here has restarts to sort by.\n\
             Sort by age, cpu, or memory instead."
        )
    );
}

#[test]
fn an_empty_listing_says_nothing_about_an_ordering_that_ranked_nothing() {
    // Nothing ranked, because there is nothing at all. "No pods matched" is
    // the answer; a note about the sort would be noise on top of it.
    let order = Order::Cpu;
    let note = unranked_note(
        order,
        cause(order, Missing { usage: true }),
        &[],
    )
    .expect("an ordering with no rows to rank ranked nothing");

    let message = render(
        &[],
        "prod (us-east-1)",
        &Scope::Namespace("payments".to_owned()),
        &unfiltered(),
        &[note],
        Width::Default,
    );

    assert!(!message.contains("sort by"), "{message}");
}

#[test]
fn an_empty_listing_says_nothing_about_the_order_it_would_have_been_in() {
    // `eks pods --sort restarts` in an empty namespace: there is no table
    // for the note to describe, and "there is nothing here" is the answer.
    let note = note(
        Order::Restarts,
        Direction::Natural,
    )
    .expect("a reordered listing should say so");

    let message = render(
        &[],
        "prod (us-east-1)",
        &Scope::Namespace("payments".to_owned()),
        &unfiltered(),
        &[note],
        Width::Default,
    );

    assert!(!message.contains("Sorted by"), "{message}");
    assert!(message.contains("no pods in namespace"), "{message}");
}

#[test]
fn a_footnote_is_dropped_when_there_are_no_pods_to_annotate() {
    // "Two columns are missing" is noise on top of "there is nothing here",
    // and the empty-listing message is the one worth reading.
    let message = render(
        &[],
        "prod (us-east-1)",
        &Scope::Namespace("payments".to_owned()),
        &unfiltered(),
        &[usage_unavailable(
            "prod (us-east-1) has no metrics.k8s.io API.",
        )],
        Width::Default,
    );

    assert!(!message.contains("CPU and MEMORY"), "{message}");
    assert!(message.contains("no pods in namespace"), "{message}");
}

#[test]
fn the_usage_footnote_says_what_is_missing_and_why() {
    let note = usage_unavailable("prod (us-east-1) has no metrics.k8s.io API.");

    assert!(note.contains("CPU and MEMORY"), "{note}");
    assert!(note.contains("not shown"), "{note}");
    assert!(note.contains("no metrics.k8s.io API"), "{note}");
}

/// The healthy pod with the fields only `--wide` shows filled in.
fn wide_pod() -> Pod {
    let mut pod = healthy();
    if let Some(status) = pod.status.as_mut() {
        status.pod_ip = Some("10.0.1.42".to_owned());
        status.pod_ips = Some(vec![PodIP {
            ip: "10.0.1.42".to_owned(),
        }]);
    }
    pod
}

#[test]
fn the_default_pod_table_holds_the_wide_columns_back() {
    let rows = [PodRow::from_pod(&wide_pod(), None, now())];

    let table = render(
        &rows,
        "prod (us-east-1)",
        &Scope::Namespace("payments".to_owned()),
        &unfiltered(),
        &[],
        Width::Default,
    );

    for held_back in ["IP", "NOMINATED NODE", "READINESS GATES"] {
        assert!(!table.contains(held_back), "{held_back} in {table}");
    }
}

#[test]
fn wide_adds_the_address_the_nominated_node_and_the_readiness_gates() {
    let rows = [PodRow::from_pod(&wide_pod(), None, now())];

    assert_eq!(
        render(
            &rows,
            "prod (us-east-1)",
            &Scope::Namespace("payments".to_owned()),
            &unfiltered(),
            &[],
            Width::Wide,
        ),
        "NAME      READY  STATUS   RESTARTS  AGE  IP         NODE                      NOMINATED NODE  READINESS GATES\n\
         api-7c9f  1/1    Running  0         90m  10.0.1.42  ip-10-0-1-9.ec2.internal  -               -"
    );
}

#[test]
fn the_wide_pod_columns_sit_where_kubectl_puts_them() {
    // `kubectl -o wide` ends AGE, IP, NODE, NOMINATED NODE, READINESS
    // GATES. NODE is in this table by default, so `--wide` fills in the
    // three around it rather than appending four.
    let rows = [PodRow::from_pod(&wide_pod(), None, now())];
    let scope = Scope::Namespace("payments".to_owned());

    let narrow = columns(&scope, &rows, Width::Default);
    let wide = columns(&scope, &rows, Width::Wide);

    assert_eq!(
        narrow,
        [
            Column::Name,
            Column::Ready,
            Column::Status,
            Column::Restarts,
            Column::Age,
            Column::Node,
        ]
    );
    assert_eq!(
        wide,
        [
            Column::Name,
            Column::Ready,
            Column::Status,
            Column::Restarts,
            Column::Age,
            Column::Ip,
            Column::Node,
            Column::NominatedNode,
            Column::ReadinessGates,
        ]
    );
}

#[test]
fn the_wide_pod_columns_compose_with_the_namespace_and_usage_ones() {
    // Three independent conditions decide this layout, and `--wide` must
    // disturb neither of the other two.
    let rows = [PodRow::from_pod(
        &wide_pod(),
        Some(Usage {
            cpu: Quantity::parse("250m").ok(),
            memory: Quantity::parse("512Mi").ok(),
        }),
        now(),
    )];

    let headers: Vec<&str> = columns(&Scope::All, &rows, Width::Wide)
        .iter()
        .map(|column| column.header())
        .collect();

    assert_eq!(
        headers,
        [
            "NAMESPACE",
            "NAME",
            "READY",
            "STATUS",
            "RESTARTS",
            "CPU",
            "MEMORY",
            "AGE",
            "IP",
            "NODE",
            "NOMINATED NODE",
            "READINESS GATES",
        ]
    );
}

#[test]
fn the_wide_columns_appear_even_when_every_one_of_them_is_empty() {
    // Deliberately unlike the usage columns, which are dropped when a
    // cluster has nothing to put in them. Those arrive unasked for; this
    // flag was typed, and a column of `-` is the answer "nothing here is
    // being preempted" rather than a flag that did nothing.
    let rows = [PodRow::from_pod(&healthy(), None, now())];

    let table = render(
        &rows,
        "prod (us-east-1)",
        &Scope::Namespace("payments".to_owned()),
        &unfiltered(),
        &[],
        Width::Wide,
    );

    assert!(table.contains("NOMINATED NODE"), "{table}");
    assert!(table.contains("READINESS GATES"), "{table}");
}

#[test]
fn a_pod_with_no_address_yet_reads_as_a_dash() {
    // Scheduled but not networked: the CNI has not handed out an address.
    assert_eq!(PodRow::from_pod(&healthy(), None, now()).ip, "-");

    let mut blank = wide_pod();
    if let Some(status) = blank.status.as_mut() {
        status.pod_ip = Some(String::new());
        status.pod_ips = Some(Vec::new());
    }
    assert_eq!(PodRow::from_pod(&blank, None, now()).ip, "-");
}

#[test]
fn a_dual_stack_pod_shows_the_first_of_its_addresses() {
    let mut pod = wide_pod();
    if let Some(status) = pod.status.as_mut() {
        status.pod_ips = Some(vec![
            PodIP {
                ip: "2600:1f13::42".to_owned(),
            },
            PodIP {
                ip: "10.0.1.42".to_owned(),
            },
        ]);
        // The legacy field agrees with the list on a real cluster; it is
        // set to something else here so the test can say which one is read.
        status.pod_ip = Some("10.0.1.42".to_owned());
    }

    assert_eq!(PodRow::from_pod(&pod, None, now()).ip, "2600:1f13::42");
}

#[test]
fn a_pod_reporting_only_the_older_address_field_still_shows_one() {
    let mut pod = wide_pod();
    if let Some(status) = pod.status.as_mut() {
        status.pod_ips = None;
    }

    assert_eq!(PodRow::from_pod(&pod, None, now()).ip, "10.0.1.42");
}

#[test]
fn a_pod_awaiting_preemption_names_the_node_it_is_promised() {
    // The one case where `Pending` is not a stuck pod: the scheduler is
    // evicting something to make room, and this is where it will land.
    let mut pod = wide_pod();
    if let Some(status) = pod.status.as_mut() {
        status.phase = Some("Pending".to_owned());
        status.nominated_node_name = Some("ip-10-0-2-7.ec2.internal".to_owned());
    }

    let row = PodRow::from_pod(&pod, None, now());
    assert_eq!(row.nominated_node, "ip-10-0-2-7.ec2.internal");
}

#[test]
fn readiness_gates_count_only_the_conditions_that_are_true() {
    let mut pod = wide_pod();
    if let Some(spec) = pod.spec.as_mut() {
        spec.readiness_gates = Some(vec![
            gate("target-health.elbv2.k8s.aws/pod-readiness"),
            gate("example.com/feature-flag"),
            // Declared, but the controller has recorded nothing for it —
            // which is exactly as unsatisfied as a False.
            gate("example.com/never-reported"),
        ]);
    }
    if let Some(status) = pod.status.as_mut() {
        status.conditions = Some(vec![
            condition("Ready", "True", None),
            condition("target-health.elbv2.k8s.aws/pod-readiness", "True", None),
            condition("example.com/feature-flag", "False", None),
        ]);
    }

    assert_eq!(
        PodRow::from_pod(&pod, None, now()).readiness_gates,
        Some("1/3".to_owned())
    );
}

#[test]
fn a_pod_with_no_readiness_gates_reads_as_a_dash_rather_than_zero_of_zero() {
    // `0/0` on the overwhelming majority of rows would suggest something
    // unsatisfied where there is nothing to satisfy.
    assert_eq!(
        PodRow::from_pod(&wide_pod(), None, now()).readiness_gates,
        None
    );

    let mut empty = wide_pod();
    if let Some(spec) = empty.spec.as_mut() {
        spec.readiness_gates = Some(Vec::new());
    }
    assert_eq!(PodRow::from_pod(&empty, None, now()).readiness_gates, None);

    let rows = [PodRow::from_pod(&empty, None, now())];
    let table = render(
        &rows,
        "prod (us-east-1)",
        &Scope::Namespace("payments".to_owned()),
        &unfiltered(),
        &[],
        Width::Wide,
    );
    assert!(table.ends_with("-               -"), "{table}");
}

#[test]
fn a_pod_with_nothing_filled_in_still_produces_the_wide_cells() {
    let row = PodRow::from_pod(&Pod::default(), None, now());

    assert_eq!(row.ip, "-");
    assert_eq!(row.nominated_node, "-");
    assert_eq!(row.readiness_gates, None);
}

#[test]
fn an_empty_wide_listing_still_says_where_the_pods_went() {
    // `--wide` changes columns, and there are no columns here to change.
    let scope = Scope::Namespace("payments".to_owned());
    assert_eq!(
        render(
            &[],
            "prod (us-east-1)",
            &scope,
            &unfiltered(),
            &[],
            Width::Wide
        ),
        render(
            &[],
            "prod (us-east-1)",
            &scope,
            &unfiltered(),
            &[],
            Width::Default,
        )
    );
}

#[test]
fn a_wide_pod_table_keeps_its_footnotes() {
    let rows = [PodRow::from_pod(&wide_pod(), None, now())];
    let note = "Sorted by cpu.".to_owned();

    let output = render(
        &rows,
        "prod (us-east-1)",
        &Scope::All,
        &unfiltered(),
        std::slice::from_ref(&note),
        Width::Wide,
    );

    assert!(output.ends_with(&format!("\n\n{note}")), "{output}");
}

// --- Narrow mode --------------------------------------------------------
//
// The width tests measure `requesting_rows`: two pods, each asking for
// something and each sampled, which is the shape nearly every real
// deployment has and the widest the default table gets without `--wide`.

fn headings_at(scope: &Scope, rows: &[PodRow], target: u16) -> Vec<&'static str> {
    columns(scope, rows, Width::Narrow(target))
        .iter()
        .map(|column| column.header())
        .collect()
}

fn one_namespace() -> Scope {
    Scope::Namespace("payments".to_owned())
}

#[test]
fn a_wide_enough_narrow_pod_table_is_the_default_one_byte_for_byte() {
    // Narrowing is subtraction, and a table that already fits has nothing
    // to subtract: a terminal roomier than the row must leave it alone,
    // columns and rendered bytes alike. 200 cols is wider than any table
    // this file produces.
    let rows = requesting_rows();
    let scope = one_namespace();

    assert_eq!(
        columns(&scope, &rows, Width::Narrow(200)),
        columns(&scope, &rows, Width::Default)
    );
    assert_eq!(
        render(
            &rows,
            "prod (us-east-1)",
            &scope,
            &unfiltered(),
            &[],
            Width::Narrow(200)
        ),
        render(
            &rows,
            "prod (us-east-1)",
            &scope,
            &unfiltered(),
            &[],
            Width::Default
        ),
    );
}

#[test]
fn a_hundred_columns_drops_age_first() {
    // The fixture's default row is 104 characters, and `AGE` is the
    // cheapest thing on it: three characters of information the table
    // already carries in `RESTARTS`'s `9 (5m ago)`.
    let rows = requesting_rows();

    assert_eq!(
        headings_at(&one_namespace(), &rows, 100),
        [
            "NAME",
            "READY",
            "STATUS",
            "RESTARTS",
            "CPU/REQ",
            "MEMORY/REQ",
            "NODE"
        ],
    );
}

#[test]
fn eighty_columns_keep_the_usage_pair_and_let_the_node_go() {
    // 80 cols is the width every laptop lid narrows to under a docked
    // browser. `NODE` is the widest cell in the table — a node is a
    // forty-character DNS name on EKS — and it answers the question you
    // ask *after* you have found the pod, so it goes before the columns
    // that find it.
    let rows = requesting_rows();
    let scope = one_namespace();

    assert_eq!(
        headings_at(&scope, &rows, 80),
        [
            "NAME",
            "READY",
            "STATUS",
            "RESTARTS",
            "CPU/REQ",
            "MEMORY/REQ"
        ],
    );
    // And the columns it reported really do fit: the assertion is over the
    // rendered table rather than over the arithmetic that chose it, so a
    // drop rule measuring rows the renderer disagreed with would fail here.
    let table = render(
        &rows,
        "prod (us-east-1)",
        &scope,
        &unfiltered(),
        &[],
        Width::Narrow(80),
    );
    for line in table.lines() {
        assert!(line.chars().count() <= 80, "{line:?} is wider than 80");
    }
}

#[test]
fn a_row_narrower_than_the_name_still_prints_the_name() {
    // `--width 1`, the acceptance-test extreme: every droppable column is
    // gone and `NAME` stays, even though the row is still wider than one
    // character. A listing of rows nobody can identify is worse than a
    // listing the terminal wraps.
    assert_eq!(
        headings_at(&one_namespace(), &requesting_rows(), 1),
        ["NAME"]
    );
}

#[test]
fn a_terminal_reporting_no_columns_at_all_is_the_same_as_one_column() {
    // A `Narrow(0)` is a terminal-size query that answered nonsense rather
    // than a width anybody has. Nothing fits it, so the drop rule runs to
    // the end and leaves what it never drops — the same answer as 1, and
    // not an underflow or an empty row.
    assert_eq!(
        headings_at(&one_namespace(), &requesting_rows(), 0),
        ["NAME"]
    );
}

#[test]
fn the_columns_that_fit_are_measured_from_the_cells_not_the_headings() {
    // `NODE` is four characters of heading over a forty-character node
    // name, and the drop rule has to read the cells to know that. The same
    // listing on a cluster with short node names keeps the column at a
    // width where the EKS-shaped one loses it.
    let mut short = healthy();
    if let Some(spec) = short.spec.as_mut() {
        spec.node_name = Some("node-1".to_owned());
    }
    let short = [PodRow::from_pod(&short, None, now())];
    let long = [PodRow::from_pod(&healthy(), None, now())];
    let scope = one_namespace();

    assert!(headings_at(&scope, &short, 45).contains(&"NODE"));
    assert!(!headings_at(&scope, &long, 45).contains(&"NODE"));
}

#[test]
fn a_cluster_wide_listing_keeps_the_namespace_beside_the_name() {
    // Under `-A` a pod's identity is the pair: `coredns-abc` in
    // `kube-system` and a copy of it elsewhere are two different pods, and
    // `NAMESPACE` is the column the user widened the scope to get. So it
    // drops when `NAME` does, which is never.
    let rows = requesting_rows();

    assert_eq!(headings_at(&Scope::All, &rows, 1), ["NAMESPACE", "NAME"]);
    // And it is still the first column at a width that drops nothing else,
    // rather than having been shuffled to the end by the retain.
    assert_eq!(
        columns(&Scope::All, &rows, Width::Narrow(200)),
        columns(&Scope::All, &rows, Width::Default)
    );
}

#[test]
fn the_usage_columns_leave_together_rather_than_singly() {
    // `CPU/REQ` beside `AGE` with no `MEMORY/REQ` between them is half an
    // answer, and an eye reading a row of pairs pairs the wrong ones. The
    // same rule the node table's REQ and USE pairs follow.
    let rows = requesting_rows();
    let scope = one_namespace();

    // A width tight enough to lose one of them loses both, at every step
    // small enough to force the question. A loop rather than one number,
    // because the invariant is the pairing and not the fixture's exact
    // cell widths.
    for target in [1_u16, 20, 40, 60, 73] {
        let cols = headings_at(&scope, &rows, target);
        assert_eq!(
            cols.contains(&"CPU/REQ"),
            cols.contains(&"MEMORY/REQ"),
            "{target}: {cols:?}"
        );
    }
}

#[test]
fn the_health_columns_go_last_and_status_goes_after_ready() {
    // What survives when almost nothing does: the word that names the
    // problem. `READY`'s `0/1` is the detail under `CrashLoopBackOff`, so
    // it goes first of the two, and `RESTARTS` — the widest of the three
    // health columns — goes before either.
    let rows = requesting_rows();
    let scope = one_namespace();

    assert_eq!(
        headings_at(&scope, &rows, 50),
        ["NAME", "READY", "STATUS", "RESTARTS"]
    );
    assert_eq!(headings_at(&scope, &rows, 30), ["NAME", "READY", "STATUS"]);
    assert_eq!(headings_at(&scope, &rows, 22), ["NAME", "STATUS"]);
}

#[test]
fn wide_beats_narrow_when_both_could_apply() {
    // `--wide` was typed; the terminal was not. `Width::for_terminal`
    // makes that choice, and this asserts the listing agrees: a `Wide` is
    // the wide set even where the row is far past any terminal.
    let rows = requesting_rows();
    let wide = columns(&one_namespace(), &rows, Width::Wide);

    assert!(wide.contains(&Column::Ip));
    assert!(wide.contains(&Column::NominatedNode));
    assert!(wide.contains(&Column::ReadinessGates));
}

#[test]
fn an_empty_listing_says_the_same_thing_at_any_width() {
    // There are no columns to drop and no table to fit them in; a terminal
    // width must not change the sentence explaining why the listing is
    // blank.
    let scope = one_namespace();
    let empty = render(
        &[],
        "prod (us-east-1)",
        &scope,
        &unfiltered(),
        &[],
        Width::Default,
    );

    for width in [Width::Narrow(1), Width::Narrow(80), Width::Narrow(200)] {
        assert_eq!(
            render(&[], "prod (us-east-1)", &scope, &unfiltered(), &[], width),
            empty
        );
    }
}

#[test]
fn a_narrowed_table_still_renders_its_footnotes() {
    // The notes are the reason a missing column is not a mystery, and a
    // narrow terminal is where columns go missing. Dropping them to save
    // two lines would take away the explanation exactly where it is most
    // needed.
    let rows = requesting_rows();
    let note = usage_unavailable("Install metrics-server to see live usage.");

    let table = render(
        &rows,
        "prod (us-east-1)",
        &one_namespace(),
        &unfiltered(),
        std::slice::from_ref(&note),
        Width::Narrow(60),
    );

    assert!(table.ends_with(&note), "{table}");
}

#[test]
fn a_listing_with_no_metrics_narrows_from_its_own_shorter_row() {
    // The usage columns are absent on a cluster with no metrics-server, so
    // the row starts shorter and the same terminal drops less. The drop
    // rule reads the columns the listing actually has rather than the ones
    // it might have had.
    let rows = [
        PodRow::from_pod(&healthy(), None, now()),
        PodRow::from_pod(&healthy(), None, now()),
    ];
    let scope = one_namespace();

    assert_eq!(
        headings_at(&scope, &rows, 80),
        ["NAME", "READY", "STATUS", "RESTARTS", "AGE", "NODE"]
    );
    assert_eq!(
        columns(&scope, &rows, Width::Narrow(80)),
        columns(&scope, &rows, Width::Default)
    );
}
