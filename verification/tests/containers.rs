use eks::k8s::api::{
    Container, ContainerState, ContainerStateRunning, ContainerStateTerminated,
    ContainerStateWaiting, ContainerStatus, Pod, PodSpec, PodStatus,
};
use eks::k8s::pods::containers::ContainerRow;
use eks::theme::Severity;

fn spec_container(name: &str, image: &str) -> Container {
    Container {
        name: name.to_owned(),
        image: Some(image.to_owned()),
        ..Default::default()
    }
}

fn running() -> ContainerState {
    ContainerState {
        running: Some(ContainerStateRunning::default()),
        ..Default::default()
    }
}

fn waiting(reason: &str) -> ContainerState {
    ContainerState {
        waiting: Some(ContainerStateWaiting {
            reason: Some(reason.to_owned()),
            ..Default::default()
        }),
        ..Default::default()
    }
}

fn terminated(reason: Option<&str>, exit_code: i32) -> ContainerState {
    ContainerState {
        terminated: Some(ContainerStateTerminated {
            reason: reason.map(str::to_owned),
            exit_code,
            ..Default::default()
        }),
        ..Default::default()
    }
}

fn status(
    name: &str,
    image: &str,
    state: ContainerState,
    ready: bool,
    restarts: i32,
) -> ContainerStatus {
    ContainerStatus {
        name: name.to_owned(),
        image: image.to_owned(),
        ready,
        restart_count: restarts,
        state: Some(state),
        ..Default::default()
    }
}

fn pod(spec: PodSpec, status: Option<PodStatus>) -> Pod {
    Pod {
        spec: Some(spec),
        status,
        ..Default::default()
    }
}

#[test]
fn a_running_and_ready_container_reads_as_running_and_ok() {
    let pod = pod(
        PodSpec {
            containers: vec![spec_container("app", "app:1.0")],
            ..Default::default()
        },
        Some(PodStatus {
            container_statuses: Some(vec![status("app", "app:1.0", running(), true, 0)]),
            ..Default::default()
        }),
    );

    let rows = ContainerRow::from_pod(&pod);
    assert_eq!(rows.len(), 1);
    assert_eq!(rows[0].name, "app");
    assert_eq!(rows[0].image, "app:1.0");
    assert!(!rows[0].init);
    assert!(rows[0].ready);
    assert_eq!(rows[0].state, "Running");
    assert_eq!(rows[0].severity, Severity::Okay);
}

#[test]
fn a_running_but_not_ready_container_is_a_warning_not_ok() {
    // `kubectl`'s own case for a readiness probe still failing: the
    // process is up, the pod is not calling it ready.
    let pod = pod(
        PodSpec {
            containers: vec![spec_container("app", "app:1.0")],
            ..Default::default()
        },
        Some(PodStatus {
            container_statuses: Some(vec![status("app", "app:1.0", running(), false, 0)]),
            ..Default::default()
        }),
    );

    let rows = ContainerRow::from_pod(&pod);
    assert_eq!(rows[0].state, "Running");
    assert_eq!(rows[0].severity, Severity::Warn);
    assert!(!rows[0].ready);
}

#[test]
fn a_crashlooping_container_names_the_reason_and_reads_as_critical() {
    let pod = pod(
        PodSpec {
            containers: vec![spec_container("app", "app:1.0")],
            ..Default::default()
        },
        Some(PodStatus {
            container_statuses: Some(vec![status(
                "app",
                "app:1.0",
                waiting("CrashLoopBackOff"),
                false,
                9,
            )]),
            ..Default::default()
        }),
    );

    let rows = ContainerRow::from_pod(&pod);
    assert_eq!(rows[0].state, "Waiting: CrashLoopBackOff");
    assert_eq!(rows[0].restarts, 9);
    assert_eq!(rows[0].severity, Severity::Critical);
}

#[test]
fn container_creating_is_progress_not_a_problem() {
    let pod = pod(
        PodSpec {
            containers: vec![spec_container("app", "app:1.0")],
            ..Default::default()
        },
        Some(PodStatus {
            container_statuses: Some(vec![status(
                "app",
                "",
                waiting("ContainerCreating"),
                false,
                0,
            )]),
            ..Default::default()
        }),
    );

    let rows = ContainerRow::from_pod(&pod);
    assert_eq!(rows[0].state, "Waiting: ContainerCreating");
    assert_eq!(rows[0].severity, Severity::Warn);
    // No image resolved yet; falls back to the spec's own.
    assert_eq!(rows[0].image, "app:1.0");
}

#[test]
fn a_container_that_exited_cleanly_reads_as_ok() {
    let pod = pod(
        PodSpec {
            containers: vec![spec_container("job", "job:1.0")],
            ..Default::default()
        },
        Some(PodStatus {
            container_statuses: Some(vec![status(
                "job",
                "job:1.0",
                terminated(Some("Completed"), 0),
                false,
                0,
            )]),
            ..Default::default()
        }),
    );

    let rows = ContainerRow::from_pod(&pod);
    assert_eq!(rows[0].state, "Terminated: Completed (0)");
    assert_eq!(rows[0].severity, Severity::Okay);
}

#[test]
fn a_container_killed_for_using_too_much_memory_names_the_reason() {
    let pod = pod(
        PodSpec {
            containers: vec![spec_container("app", "app:1.0")],
            ..Default::default()
        },
        Some(PodStatus {
            container_statuses: Some(vec![status(
                "app",
                "app:1.0",
                terminated(Some("OOMKilled"), 137),
                false,
                2,
            )]),
            ..Default::default()
        }),
    );

    let rows = ContainerRow::from_pod(&pod);
    assert_eq!(rows[0].state, "Terminated: OOMKilled (137)");
    assert_eq!(rows[0].severity, Severity::Critical);
}

#[test]
fn a_container_with_no_status_yet_reads_as_waiting_from_the_specs_image() {
    // A pod still `Pending`: nothing has been reported on this container
    // at all, which is not the same as an error.
    let pod = pod(
        PodSpec {
            containers: vec![spec_container("app", "app:1.0")],
            ..Default::default()
        },
        Some(PodStatus::default()),
    );

    let rows = ContainerRow::from_pod(&pod);
    assert_eq!(rows[0].state, "Waiting");
    assert_eq!(rows[0].severity, Severity::Warn);
    assert_eq!(rows[0].image, "app:1.0");
    assert!(!rows[0].ready);
    assert_eq!(rows[0].restarts, 0);
}

#[test]
fn a_pod_with_no_status_at_all_still_lists_its_containers() {
    let pod = pod(
        PodSpec {
            containers: vec![spec_container("app", "app:1.0")],
            ..Default::default()
        },
        None,
    );

    let rows = ContainerRow::from_pod(&pod);
    assert_eq!(rows.len(), 1);
    assert_eq!(rows[0].state, "Waiting");
}

#[test]
fn a_pod_with_no_spec_at_all_has_no_containers() {
    assert!(ContainerRow::from_pod(&Pod::default()).is_empty());
}

#[test]
fn init_containers_come_first_in_spec_order_and_are_marked() {
    let pod = pod(
        PodSpec {
            init_containers: Some(vec![spec_container("migrate", "migrate:1.0")]),
            containers: vec![spec_container("app", "app:1.0")],
            ..Default::default()
        },
        Some(PodStatus {
            init_container_statuses: Some(vec![status(
                "migrate",
                "migrate:1.0",
                terminated(Some("Completed"), 0),
                false,
                0,
            )]),
            container_statuses: Some(vec![status("app", "app:1.0", running(), true, 0)]),
            ..Default::default()
        }),
    );

    let rows = ContainerRow::from_pod(&pod);
    assert_eq!(rows.len(), 2);
    assert_eq!(rows[0].name, "migrate");
    assert!(rows[0].init);
    assert_eq!(rows[1].name, "app");
    assert!(!rows[1].init);
}

#[test]
fn an_unknown_state_reads_as_unknown_rather_than_a_guess() {
    let pod = pod(
        PodSpec {
            containers: vec![spec_container("app", "app:1.0")],
            ..Default::default()
        },
        Some(PodStatus {
            container_statuses: Some(vec![ContainerStatus {
                name: "app".to_owned(),
                image: "app:1.0".to_owned(),
                state: None,
                ..Default::default()
            }]),
            ..Default::default()
        }),
    );

    let rows = ContainerRow::from_pod(&pod);
    assert_eq!(rows[0].state, "Unknown");
    assert_eq!(rows[0].severity, Severity::Unknown);
}

#[test]
fn the_resolved_image_is_preferred_over_the_manifests_own() {
    // The runtime may have rewritten the tag; the status's own image is
    // what is actually running.
    let pod = pod(
        PodSpec {
            containers: vec![spec_container("app", "app:latest")],
            ..Default::default()
        },
        Some(PodStatus {
            container_statuses: Some(vec![status(
                "app",
                "app@sha256:abcd1234",
                running(),
                true,
                0,
            )]),
            ..Default::default()
        }),
    );

    assert_eq!(ContainerRow::from_pod(&pod)[0].image, "app@sha256:abcd1234");
}
