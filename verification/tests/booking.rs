use eks::k8s::api::{
    ApiQuantity, Container, ObjectMeta, Pod, PodSpec, PodStatus, ResourceRequirements,
};
use eks::k8s::pods::{by_node, effective_requests, Placed, Requests, Scope};
use eks::k8s::quantity::Quantity;
use eks::name_map::NameMap;
use eks::time::Timestamp;

/// A moment, as its text says.
fn moment(text: &str) -> Timestamp {
    let parsed: k8s_openapi::jiff::Timestamp = text.parse().unwrap();
    Timestamp {
        nanosecond: parsed.as_nanosecond(),
    }
}

/// Quantities under their names.
fn named<'a>(entries: impl IntoIterator<Item = (&'a str, &'a str)>) -> NameMap<ApiQuantity> {
    let mut map = NameMap::new();
    for (name, value) in entries {
        map.insert(name.to_owned(), ApiQuantity(value.to_owned()));
    }
    map
}

fn quantity(text: &str) -> Quantity {
    Quantity::parse(text).unwrap()
}

fn requests(cpu: &str, memory: &str) -> Requests {
    Requests {
        cpu: quantity(cpu),
        memory: quantity(memory),
        extended: NameMap::new(),
    }
}

/// `pods` pods on one node, having booked `cpu` and `memory` between them.
fn placed(pods: u32, cpu: &str, memory: &str) -> Placed {
    Placed {
        pods,
        requests: requests(cpu, memory),
    }
}

fn resources(cpu: &str, memory: &str) -> NameMap<ApiQuantity> {
    named([("cpu", cpu), ("memory", memory)])
}

/// A container asking for `cpu` and `memory`.
fn container(name: &str, cpu: &str, memory: &str) -> Container {
    Container {
        name: name.to_owned(),
        resources: Some(ResourceRequirements {
            requests: Some(resources(cpu, memory)),
            ..Default::default()
        }),
        ..Default::default()
    }
}

fn sidecar(name: &str, cpu: &str, memory: &str) -> Container {
    Container {
        restart_policy: Some("Always".to_owned()),
        ..container(name, cpu, memory)
    }
}

/// A scheduled, running pod with the given spec.
fn pod(node: &str, spec: PodSpec) -> Pod {
    Pod {
        metadata: ObjectMeta {
            name: Some("api-7c9f".to_owned()),
            namespace: Some("payments".to_owned()),
            ..Default::default()
        },
        spec: Some(PodSpec {
            node_name: Some(node.to_owned()),
            ..spec
        }),
        status: Some(PodStatus {
            phase: Some("Running".to_owned()),
            ..Default::default()
        }),
    }
}

fn spec(containers: Vec<Container>) -> PodSpec {
    PodSpec {
        containers,
        ..Default::default()
    }
}

#[test]
fn a_pods_requests_are_the_sum_of_its_containers() {
    let pod = pod(
        "node-a",
        spec(vec![
            container("app", "250m", "512Mi"),
            container("log-shipper", "50m", "64Mi"),
        ]),
    );

    assert_eq!(effective_requests(&pod), requests("300m", "576Mi"));
}

#[test]
fn a_container_asking_for_nothing_contributes_nothing() {
    let pod = pod(
        "node-a",
        spec(vec![Container {
            name: "no-requests".to_owned(),
            ..Default::default()
        }]),
    );

    assert_eq!(effective_requests(&pod), Requests::default());
}

#[test]
fn only_one_half_of_a_containers_request_may_be_set() {
    // Asking for CPU and leaving memory to the LimitRange is common; the
    // missing half is zero, not a reason to skip the container.
    let mut only_cpu = container("app", "250m", "512Mi");
    only_cpu.resources = Some(ResourceRequirements {
        requests: Some(
            named([("cpu", "250m")]),
        ),
        ..Default::default()
    });

    let pod = pod("node-a", spec(vec![only_cpu]));
    assert_eq!(effective_requests(&pod), requests("250m", "0"));
}

#[test]
fn init_containers_count_as_the_largest_one_not_as_a_sum() {
    // They run one at a time and then exit, so two 1-core init containers
    // never need two cores at once.
    let pod = pod(
        "node-a",
        PodSpec {
            init_containers: Some(vec![
                container("migrate", "1", "256Mi"),
                container("seed", "1", "128Mi"),
            ]),
            ..spec(vec![container("app", "250m", "512Mi")])
        },
    );

    // max(app 250m/512Mi, peak init 1/256Mi) — componentwise.
    assert_eq!(effective_requests(&pod), requests("1", "512Mi"));
}

#[test]
fn the_init_peak_is_taken_per_resource_not_per_container() {
    // One init container is CPU-hungry and the other memory-hungry; the pod
    // needs the peak of each, which is what the scheduler reserves.
    let pod = pod(
        "node-a",
        PodSpec {
            init_containers: Some(vec![
                container("cpu-heavy", "2", "64Mi"),
                container("memory-heavy", "100m", "4Gi"),
            ]),
            ..spec(vec![container("app", "100m", "128Mi")])
        },
    );

    assert_eq!(effective_requests(&pod), requests("2", "4Gi"));
}

#[test]
fn a_sidecar_is_added_to_the_running_containers_rather_than_maxed() {
    // `restartPolicy: Always` means it never exits, so it is charged
    // alongside the app container for the whole life of the pod.
    let pod = pod(
        "node-a",
        PodSpec {
            init_containers: Some(vec![sidecar("proxy", "100m", "128Mi")]),
            ..spec(vec![container("app", "250m", "512Mi")])
        },
    );

    assert_eq!(effective_requests(&pod), requests("350m", "640Mi"));
}

#[test]
fn an_init_container_after_a_sidecar_is_charged_alongside_it() {
    // The sidecar is already running while the later init container works,
    // so the init-phase peak includes both — and here that beats the
    // steady-state sum.
    let pod = pod(
        "node-a",
        PodSpec {
            init_containers: Some(vec![
                sidecar("proxy", "100m", "128Mi"),
                container("migrate", "2", "1Gi"),
            ]),
            ..spec(vec![container("app", "250m", "512Mi")])
        },
    );

    // init peak: proxy 100m/128Mi + migrate 2/1Gi = 2100m/1152Mi
    // steady state: proxy + app = 350m/640Mi
    assert_eq!(effective_requests(&pod), requests("2100m", "1152Mi"));
}

#[test]
fn an_init_container_before_a_sidecar_is_not_charged_alongside_it() {
    // Ordering matters: this init container has finished before the sidecar
    // is ever started, so the two never overlap.
    let pod = pod(
        "node-a",
        PodSpec {
            init_containers: Some(vec![
                container("migrate", "2", "1Gi"),
                sidecar("proxy", "100m", "128Mi"),
            ]),
            ..spec(vec![container("app", "250m", "512Mi")])
        },
    );

    // init peak: max(migrate 2/1Gi, proxy 100m/128Mi) = 2/1Gi
    assert_eq!(effective_requests(&pod), requests("2", "1Gi"));
}

#[test]
fn pod_overhead_is_charged_on_top_of_everything_else() {
    // A RuntimeClass with a sandbox — Firecracker, gVisor — declares what
    // the sandbox itself costs, and the scheduler reserves it too.
    let pod = pod(
        "node-a",
        PodSpec {
            overhead: Some(resources("50m", "64Mi")),
            init_containers: Some(vec![container("migrate", "1", "128Mi")]),
            ..spec(vec![container("app", "250m", "512Mi")])
        },
    );

    // max(250m/512Mi, 1/128Mi) + 50m/64Mi
    assert_eq!(effective_requests(&pod), requests("1050m", "576Mi"));
}

#[test]
fn a_pod_with_no_spec_at_all_asks_for_nothing() {
    assert_eq!(effective_requests(&Pod::default()), Requests::default());
}

#[test]
fn totals_are_grouped_by_the_node_a_pod_landed_on() {
    let pods = [
        pod("node-a", spec(vec![container("app", "250m", "512Mi")])),
        pod("node-a", spec(vec![container("app", "1", "1Gi")])),
        pod("node-b", spec(vec![container("app", "100m", "64Mi")])),
    ];

    let totals = by_node(&pods);

    assert_eq!(totals.len(), 2);
    assert_eq!(*totals.get("node-a").unwrap(), placed(2, "1250m", "1536Mi"));
    assert_eq!(*totals.get("node-b").unwrap(), placed(1, "100m", "64Mi"));
}

#[test]
fn the_count_and_the_totals_come_out_of_one_walk_over_the_pods() {
    // The property the `PODS` column depends on: whatever rule decides a
    // pod is occupying a node decides both numbers, so a cell saying 3 and
    // a cell saying what 3 pods booked cannot be about different threes.
    let mut finished = pod("node-a", spec(vec![container("app", "1", "1Gi")]));
    finished.status = Some(PodStatus {
        phase: Some("Succeeded".to_owned()),
        ..Default::default()
    });
    let pods = [
        pod("node-a", spec(vec![container("app", "250m", "512Mi")])),
        finished,
        pod("node-a", spec(vec![container("app", "1", "1Gi")])),
    ];

    // The completed Job counts against neither half.
    assert_eq!(*by_node(&pods).get("node-a").unwrap(), placed(2, "1250m", "1536Mi"));
}

#[test]
fn a_pod_that_has_finished_holds_nothing_on_its_node() {
    // A cluster full of completed Jobs must not read as a full cluster.
    for phase in ["Succeeded", "Failed"] {
        let mut finished = pod("node-a", spec(vec![container("app", "1", "1Gi")]));
        finished.status = Some(PodStatus {
            phase: Some(phase.to_owned()),
            ..Default::default()
        });

        assert!(by_node(&[finished]).is_empty(), "phase {phase}");
    }
}

#[test]
fn a_pod_being_deleted_still_holds_its_requests() {
    // Terminating pods keep their place until the kubelet confirms they are
    // gone; pretending otherwise makes a draining node look emptier than it
    // is.
    let mut terminating = pod("node-a", spec(vec![container("app", "1", "1Gi")]));
    terminating.metadata.deletion_timestamp =
        Some(moment("2026-08-18T12:00:00Z"));

    assert_eq!(*by_node(&[terminating]).get("node-a").unwrap(), placed(1, "1", "1Gi"));
}

#[test]
fn an_unscheduled_pod_is_not_charged_to_any_node() {
    // A Pending pod nothing will fit is exactly the case these numbers are
    // meant to explain; counting it against a node would hide the problem.
    let mut pending = pod("", spec(vec![container("app", "1", "1Gi")]));
    pending.status = Some(PodStatus {
        phase: Some("Pending".to_owned()),
        ..Default::default()
    });
    if let Some(spec) = pending.spec.as_mut() {
        spec.node_name = None;
    }

    assert!(by_node(&[pending]).is_empty());

    // An empty string reads the same as an absent one.
    let blank = pod("", spec(vec![container("app", "1", "1Gi")]));
    assert!(by_node(&[blank]).is_empty());
}

#[test]
fn no_pods_at_all_is_an_empty_map_rather_than_an_error() {
    assert!(by_node(&[]).is_empty());
}

/// A container asking for `count` of one extended resource and nothing else.
fn device_container(name: &str, resource: &str, count: &str) -> Container {
    Container {
        name: name.to_owned(),
        resources: Some(ResourceRequirements {
            requests: Some(
                named([(resource, count)]),
            ),
            ..Default::default()
        }),
        ..Default::default()
    }
}

#[test]
fn a_pods_devices_are_summed_across_its_containers() {
    let pod = pod(
        "node-a",
        spec(vec![
            device_container("trainer", "nvidia.com/gpu", "1"),
            device_container("sidecar-trainer", "nvidia.com/gpu", "1"),
        ]),
    );

    assert_eq!(
        effective_requests(&pod).extended("nvidia.com/gpu"),
        quantity("2")
    );
}

#[test]
fn a_device_nobody_asked_for_reads_as_zero_rather_than_as_missing() {
    // The scheduler reserves nothing for a request nobody made, so this is
    // a real zero and the node table renders it as one.
    let pod = pod("node-a", spec(vec![container("app", "250m", "512Mi")]));

    assert_eq!(
        effective_requests(&pod).extended("nvidia.com/gpu"),
        Quantity::default()
    );
    assert_eq!(
        Requests::default().extended("nvidia.com/gpu"),
        Quantity::default()
    );
}

#[test]
fn a_device_follows_the_same_init_peak_rule_cpu_does() {
    // An init container holding a GPU while it warms a model cache is the
    // pod's footprint even though no app container asks for one; charging
    // only the app containers would show the node as having a card free
    // that the scheduler has already reserved.
    let pod = pod(
        "node-a",
        PodSpec {
            init_containers: Some(vec![device_container("warm", "nvidia.com/gpu", "1")]),
            ..spec(vec![container("app", "250m", "512Mi")])
        },
    );

    assert_eq!(
        effective_requests(&pod).extended("nvidia.com/gpu"),
        quantity("1")
    );
}

#[test]
fn a_device_asked_for_by_a_sidecar_is_added_to_the_running_containers() {
    // The sum branch rather than the max one, on the same `restartPolicy`
    // rule the CPU total follows.
    let mut proxy = device_container("proxy", "nvidia.com/gpu", "1");
    proxy.restart_policy = Some("Always".to_owned());

    let pod = pod(
        "node-a",
        PodSpec {
            init_containers: Some(vec![proxy]),
            ..spec(vec![device_container("app", "nvidia.com/gpu", "2")])
        },
    );

    assert_eq!(
        effective_requests(&pod).extended("nvidia.com/gpu"),
        quantity("3")
    );
}

#[test]
fn the_resources_kubernetes_defines_itself_stay_out_of_the_extended_map() {
    // `hugepages-2Mi` and `ephemeral-storage` are native resources with a
    // native meaning; treating them as devices would put a column headed
    // `HUGEPAGES-2MI` on a table that has no idea what one is.
    let mut app = container("app", "250m", "512Mi");
    app.resources = Some(ResourceRequirements {
        requests: Some(
            named([
                ("cpu", "250m"),
                ("hugepages-2Mi", "128Mi"),
                ("ephemeral-storage", "1Gi"),
                ("kubernetes.io/something", "1"),
            ]),
        ),
        ..Default::default()
    });

    let requests = effective_requests(&pod("node-a", spec(vec![app])));

    assert!(requests.extended.is_empty(), "{:?}", requests.extended);
    assert_eq!(requests.cpu, quantity("250m"));
}

#[test]
fn node_totals_add_up_the_devices_of_every_pod_on_the_node() {
    let pods = [
        pod(
            "node-a",
            spec(vec![device_container("a", "nvidia.com/gpu", "1")]),
        ),
        pod(
            "node-a",
            spec(vec![device_container("b", "nvidia.com/gpu", "2")]),
        ),
        pod(
            "node-b",
            spec(vec![device_container("c", "amd.com/gpu", "1")]),
        ),
    ];

    let totals = by_node(&pods);

    assert_eq!(
        totals.get("node-a").unwrap().requests.extended("nvidia.com/gpu"),
        quantity("3")
    );
    // A device booked on one node must not turn up on another.
    assert_eq!(
        totals.get("node-a").unwrap().requests.extended("amd.com/gpu"),
        Quantity::default()
    );
    assert_eq!(
        totals.get("node-b").unwrap().requests.extended("amd.com/gpu"),
        quantity("1")
    );
}

#[test]
fn two_different_devices_both_survive_the_sum_and_the_peak() {
    // The union, in both folds: a resource only one side of `plus` or `max`
    // carries must not be dropped by the one that does not know about it.
    let pod = pod(
        "node-a",
        PodSpec {
            init_containers: Some(vec![device_container("warm", "amd.com/gpu", "1")]),
            ..spec(vec![device_container("app", "nvidia.com/gpu", "2")])
        },
    );

    let requests = effective_requests(&pod);
    assert_eq!(requests.extended("amd.com/gpu"), quantity("1"));
    assert_eq!(requests.extended("nvidia.com/gpu"), quantity("2"));
}

#[test]
fn a_finished_pod_releases_the_devices_it_held() {
    // The rule the CPU total already follows, asserted for devices too: a
    // completed training Job must not make a GPU node look full.
    let mut finished = pod(
        "node-a",
        spec(vec![device_container("trainer", "nvidia.com/gpu", "4")]),
    );
    finished.status = Some(PodStatus {
        phase: Some("Succeeded".to_owned()),
        ..Default::default()
    });

    assert!(by_node(&[finished]).is_empty());
}

#[test]
fn only_a_cluster_wide_scope_needs_a_namespace_column() {
    assert!(Scope::All.needs_namespace_column());
    assert!(!Scope::Namespace("payments".to_owned()).needs_namespace_column());
}
