//! What a pod's status, ready fraction and restarts say of its containers.

use vstd::prelude::*;

use crate::k8s::api::{
    Container, ContainerStateTerminated, ContainerStatus, Pod, PodCondition, PodStatus,
};
use crate::k8s::pods::status::{
    app_statuses, blocking, condition_holds, condition_of, containers_up, counted, declared_inits,
    expected, first_condition, held_up, init_reason, init_statuses, is_progress,
    law_restarts_are_of_one_set, names_sidecar, newest_of, no_debts, passed, ready_count,
    ready_sidecars, restart_sum, restarts_that_matter, severity_of, sidecars_among, sidecars_only,
    status_text, steady_reason, walked_inits, Walked,
};
use crate::laws::booking::{keeps_running, starting};
use crate::laws::sum;
use crate::text::{decimal, decimal_nat};
use crate::time::Timestamp;

verus! {

/// Whether a text is there and not empty.
pub open spec fn speaks(text: Option<String>) -> bool {
    text is Some && text->0@.len() > 0
}

/// Whether a container waits and says why.
pub open spec fn waits(container: ContainerStatus) -> bool {
    &&& container.state is Some
    &&& container.state->0.waiting is Some
    &&& speaks(container.state->0.waiting->0.reason)
}

/// Whether a container has ended.
pub open spec fn ended(container: ContainerStatus) -> bool {
    container.state is Some && container.state->0.terminated is Some
}

/// Whether a container has ended without an error.
pub open spec fn ended_well(container: ContainerStatus) -> bool {
    ended(container) && container.state->0.terminated->0.exit_code == 0
}

/// How a container ended: in its own words, or else by its signal, or else by its
/// exit code.
pub open spec fn ending(terminated: ContainerStateTerminated) -> Seq<char> {
    if speaks(terminated.reason) {
        terminated.reason->0@
    } else if terminated.signal is Some && terminated.signal->0 != 0 {
        "Signal:"@ + decimal(terminated.signal->0 as int)
    } else {
        "ExitCode:"@ + decimal(terminated.exit_code as int)
    }
}

/// Whether an app container is not simply up.
pub open spec fn unhappy(container: ContainerStatus) -> bool {
    waits(container) || ended(container)
}

/// What an unhappy container says.
pub open spec fn own_words(container: ContainerStatus) -> Seq<char> {
    if waits(container) {
        container.state->0.waiting->0.reason->0@
    } else {
        ending(container.state->0.terminated->0)
    }
}

/// Whether an app container is up: running, ready, and not unhappy.
pub open spec fn up(container: ContainerStatus) -> bool {
    &&& container.ready
    &&& container.state is Some
    &&& container.state->0.running is Some
    &&& !unhappy(container)
}

/// Whether the container at a place is the first that is unhappy.
pub open spec fn first_unhappy(statuses: Seq<ContainerStatus>, place: int) -> bool {
    &&& 0 <= place < statuses.len()
    &&& unhappy(statuses[place])
    &&& forall|i: int| 0 <= i < place ==> !unhappy(#[trigger] statuses[i])
}

/// Where app containers are unhappy, the first of them is named, in its own words;
/// and where none is, none is named.
pub proof fn law_first_unhappy_container_is_named(statuses: Seq<ContainerStatus>, place: int)
    ensures
        first_unhappy(statuses, place) ==> steady_reason(statuses) == Some(
            own_words(statuses[place]),
        ),
        (forall|i: int| 0 <= i < statuses.len() ==> !unhappy(#[trigger] statuses[i]))
            ==> steady_reason(statuses) is None,
    decreases statuses.len(),
{
    if statuses.len() > 0 {
        let rest = statuses.skip(1);
        assert(forall|i: int| 0 <= i < rest.len() ==> rest[i] == statuses[i + 1]);
        law_first_unhappy_container_is_named(rest, place - 1);
        if first_unhappy(statuses, place) && place > 0 {
            assert(!unhappy(statuses[0]));
            assert forall|i: int| 0 <= i < place - 1 implies !unhappy(#[trigger] rest[i]) by {
                assert(rest[i] == statuses[i + 1]);
            }
            assert(rest[place - 1] == statuses[place]);
        }
        if forall|i: int| 0 <= i < statuses.len() ==> !unhappy(#[trigger] statuses[i]) {
            assert(!unhappy(statuses[0]));
            assert forall|i: int| 0 <= i < rest.len() implies !unhappy(#[trigger] rest[i]) by {
                assert(rest[i] == statuses[i + 1]);
            }
        }
    }
}

/// Whether the first declared container of a name is a sidecar.
pub open spec fn sidecar_named(declared: Seq<Container>, name: Seq<char>) -> bool {
    exists|i: int| #[trigger] first_of_name(declared, name, i) && keeps_running(declared[i])
}

/// Whether the container at a place is the first of its name.
pub open spec fn first_of_name(declared: Seq<Container>, name: Seq<char>, place: int) -> bool {
    &&& 0 <= place < declared.len()
    &&& declared[place].name@ == name
    &&& forall|i: int| 0 <= i < place ==> (#[trigger] declared[i]).name@ != name
}

proof fn lemma_sidecar_named(declared: Seq<Container>, name: Seq<char>)
    ensures
        names_sidecar(declared, name) == sidecar_named(declared, name),
    decreases declared.len(),
{
    if declared.len() > 0 {
        let rest = declared.skip(1);
        lemma_sidecar_named(rest, name);
        if declared[0].name@ == name {
            assert(first_of_name(declared, name, 0));
        } else {
            if sidecar_named(rest, name) {
                let i = choose|i: int| #[trigger]
                    first_of_name(rest, name, i) && keeps_running(rest[i]);
                assert forall|j: int| 0 <= j < i + 1 implies (#[trigger] declared[j]).name@
                    != name by {
                    if j > 0 {
                        assert(rest[j - 1] == declared[j]);
                    }
                }
                assert(first_of_name(declared, name, i + 1));
            }
            if sidecar_named(declared, name) {
                let i = choose|i: int| #[trigger]
                    first_of_name(declared, name, i) && keeps_running(declared[i]);
                assert forall|j: int| 0 <= j < i - 1 implies (#[trigger] rest[j]).name@ != name by {
                    assert(rest[j] == declared[j + 1]);
                }
                assert(first_of_name(rest, name, i - 1));
            }
        }
    }
}

/// Whether an init container no longer holds the pod up: it ended well, or is a
/// sidecar that has started.
pub open spec fn done(container: ContainerStatus, declared: Seq<Container>) -> bool {
    ended_well(container) || (sidecar_named(declared, container.name@) && container.started == Some(
        true,
    ))
}

/// Whether the init container at a place is the first that holds the pod up.
pub open spec fn holds_up(
    inits: Seq<ContainerStatus>,
    declared: Seq<Container>,
    place: int,
) -> bool {
    &&& 0 <= place < inits.len()
    &&& !done(inits[place], declared)
    &&& forall|i: int| 0 <= i < place ==> done(#[trigger] inits[i], declared)
}

/// Whether every init container is done.
pub open spec fn all_done(inits: Seq<ContainerStatus>, declared: Seq<Container>) -> bool {
    forall|i: int| 0 <= i < inits.len() ==> done(#[trigger] inits[i], declared)
}

proof fn lemma_passed(container: ContainerStatus, declared: Seq<Container>)
    ensures
        passed(container, declared) == done(container, declared),
{
    lemma_sidecar_named(declared, container.name@);
}

proof fn lemma_blocking(inits: Seq<ContainerStatus>, declared: Seq<Container>)
    ensures
        0 <= blocking(inits, declared) <= inits.len(),
        blocking(inits, declared) < inits.len() ==> holds_up(
            inits,
            declared,
            blocking(inits, declared),
        ),
        blocking(inits, declared) == inits.len() ==> all_done(inits, declared),
        forall|place: int| #[trigger]
            holds_up(inits, declared, place) ==> blocking(inits, declared) == place,
        all_done(inits, declared) ==> blocking(inits, declared) == inits.len(),
    decreases inits.len(),
{
    if inits.len() > 0 {
        let rest = inits.skip(1);
        lemma_passed(inits[0], declared);
        lemma_blocking(rest, declared);
        let place = blocking(inits, declared);
        if done(inits[0], declared) {
            assert forall|i: int| 0 <= i < place implies done(#[trigger] inits[i], declared) by {
                if i > 0 {
                    assert(rest[i - 1] == inits[i]);
                }
            }
            if place < inits.len() {
                assert(rest[place - 1] == inits[place]);
            }
        }
        assert forall|at: int| #[trigger] holds_up(inits, declared, at) implies place == at by {
            if at < place {
                assert(done(inits[at], declared)) by {
                    if at > 0 {
                        assert(rest[at - 1] == inits[at]);
                        assert(done(rest[at - 1], declared));
                    }
                }
            } else if place < at {
                assert(done(inits[place], declared));
            }
        }
    }
}

/// Whether the condition at a place is the first of its kind.
pub open spec fn first_of_kind(
    conditions: Seq<PodCondition>,
    kind: Seq<char>,
    place: int,
) -> bool {
    &&& 0 <= place < conditions.len()
    &&& conditions[place].type_@ == kind
    &&& forall|i: int| 0 <= i < place ==> (#[trigger] conditions[i]).type_@ != kind
}

/// The conditions that a pod reports.
pub open spec fn conditions_of(status: Option<PodStatus>) -> Seq<PodCondition> {
    if status is Some && status->0.conditions is Some {
        status->0.conditions->0@
    } else {
        seq![]
    }
}

/// Whether the first condition of a kind is true.
pub open spec fn is_true(status: Option<PodStatus>, kind: Seq<char>) -> bool {
    exists|i: int| #[trigger]
        first_of_kind(conditions_of(status), kind, i) && conditions_of(status)[i].status@ == "True"@
}

/// Whether the scheduler may not consider a pod yet.
pub open spec fn gated(status: Option<PodStatus>) -> bool {
    exists|i: int| #[trigger]
        first_of_kind(conditions_of(status), "PodScheduled"@, i)
            && conditions_of(status)[i].reason is Some && conditions_of(status)[i].reason->0@
            == "SchedulingGated"@
}

proof fn lemma_first_condition(conditions: Seq<PodCondition>, kind: Seq<char>)
    ensures
        match first_condition(conditions, kind) {
            Some(found) => exists|i: int| #[trigger]
                first_of_kind(conditions, kind, i) && conditions[i] == found,
            None => forall|i: int| !#[trigger] first_of_kind(conditions, kind, i),
        },
        forall|i: int, j: int| #[trigger]
            first_of_kind(conditions, kind, i) && #[trigger] first_of_kind(conditions, kind, j)
                ==> i == j,
    decreases conditions.len(),
{
    if conditions.len() > 0 {
        let rest = conditions.skip(1);
        lemma_first_condition(rest, kind);
        if conditions[0].type_@ == kind {
            assert(first_of_kind(conditions, kind, 0));
        } else {
            match first_condition(rest, kind) {
                Some(found) => {
                    let i = choose|i: int| #[trigger]
                        first_of_kind(rest, kind, i) && rest[i] == found;
                    assert forall|j: int| 0 <= j < i + 1 implies (#[trigger] conditions[j]).type_@
                        != kind by {
                        if j > 0 {
                            assert(rest[j - 1] == conditions[j]);
                        }
                    }
                    assert(first_of_kind(conditions, kind, i + 1));
                },
                None => {
                    assert forall|i: int| !#[trigger] first_of_kind(conditions, kind, i) by {
                        if first_of_kind(conditions, kind, i) {
                            assert forall|j: int| 0 <= j < i - 1 implies (#[trigger] rest[j]).type_@
                                != kind by {
                                assert(rest[j] == conditions[j + 1]);
                            }
                            assert(first_of_kind(rest, kind, i - 1));
                        }
                    }
                },
            }
        }
    }
}

pub(crate) proof fn lemma_is_true(status: Option<PodStatus>, kind: Seq<char>)
    ensures
        condition_holds(status, kind) == is_true(status, kind),
        (condition_of(status, kind) matches Some(found) ==> exists|i: int| #[trigger]
            first_of_kind(conditions_of(status), kind, i) && conditions_of(status)[i] == found),
        condition_of(status, kind) is None ==> forall|i: int|
            !#[trigger] first_of_kind(conditions_of(status), kind, i),
        forall|i: int| #[trigger]
            first_of_kind(conditions_of(status), kind, i) ==> condition_of(status, kind) == Some(
                conditions_of(status)[i],
            ),
{
    lemma_first_condition(conditions_of(status), kind);
}

/// Whether a pod is past its init containers: they are all done, or it is reported
/// as initialised.
pub open spec fn is_past_starting(pod: Pod) -> bool {
    all_done(reported_inits(pod), declared(pod)) || is_true(pod.status, "Initialized"@)
}

/// The init containers that a pod reports on.
pub open spec fn reported_inits(pod: Pod) -> Seq<ContainerStatus> {
    if pod.status is Some && pod.status->0.init_container_statuses is Some {
        pod.status->0.init_container_statuses->0@
    } else {
        seq![]
    }
}

/// The app containers that a pod reports on.
pub open spec fn reported_apps(pod: Pod) -> Seq<ContainerStatus> {
    if pod.status is Some && pod.status->0.container_statuses is Some {
        pod.status->0.container_statuses->0@
    } else {
        seq![]
    }
}

/// The init containers that a pod declares.
pub open spec fn declared(pod: Pod) -> Seq<Container> {
    if pod.spec is Some {
        starting(pod.spec->0)
    } else {
        seq![]
    }
}

/// Whether a pod reports this reason.
pub open spec fn gives_reason(pod: Pod, reason: Seq<char>) -> bool {
    pod.status is Some && pod.status->0.reason is Some && pod.status->0.reason->0@ == reason
}

/// Whether a pod reports this phase.
pub open spec fn is_in_phase(pod: Pod, phase: Seq<char>) -> bool {
    pod.status is Some && pod.status->0.phase is Some && pod.status->0.phase->0@ == phase
}

/// Whether a pod is being deleted, and has not finished already or been lost with
/// its node.
pub open spec fn is_going(pod: Pod) -> bool {
    &&& pod.metadata.deletion_timestamp is Some
    &&& !gives_reason(pod, "NodeLost"@)
    &&& !is_in_phase(pod, "Succeeded"@)
    &&& !is_in_phase(pod, "Failed"@)
}

/// Whether a pod is being deleted from a node that no longer answers.
pub open spec fn is_lost(pod: Pod) -> bool {
    pod.metadata.deletion_timestamp is Some && gives_reason(pod, "NodeLost"@)
}

proof fn lemma_phases(pod: Pod)
    ensures
        "Succeeded"@.len() > 0,
        "Failed"@.len() > 0,
        "Unknown"@.len() > 0,
        "Terminating"@.len() > 0,
{
    reveal_strlit("Succeeded");
    reveal_strlit("Failed");
    reveal_strlit("Unknown");
    reveal_strlit("Terminating");
}

/// A pod being deleted reads `Terminating`, and one lost with its node `Unknown`,
/// whatever its containers say.
pub proof fn law_deletion_outranks_the_containers(pod: Pod)
    ensures
        is_going(pod) ==> status_text(pod) == "Terminating"@,
        is_lost(pod) ==> status_text(pod) == "Unknown"@,
{
    lemma_phases(pod);
}

proof fn lemma_views(pod: Pod)
    ensures
        init_statuses(pod.status) == reported_inits(pod),
        app_statuses(pod.status) == reported_apps(pod),
        declared_inits(pod) == declared(pod),
        held_up(pod) == !is_past_starting(pod),
{
    lemma_is_true(pod.status, "Initialized"@);
    lemma_blocking(reported_inits(pod), declared(pod));
    assert(init_statuses(pod.status) =~= reported_inits(pod));
    assert(app_statuses(pod.status) =~= reported_apps(pod));
    assert(declared_inits(pod) =~= declared(pod));
}

/// Whether the deletion of a pod does not show in its status.
pub open spec fn is_staying(pod: Pod) -> bool {
    !is_going(pod) && !is_lost(pod)
}

/// While init containers hold a pod up, or nothing else is to be said of it, the first
/// of them that is not done is what the status is about: how it failed, or what it
/// waits for, or how many of those declared came before it.
pub proof fn law_first_init_container_to_hold_up_is_named(pod: Pod, place: int)
    requires
        is_staying(pod),
        holds_up(reported_inits(pod), declared(pod), place),
        !is_true(pod.status, "Initialized"@) || forall|i: int|
            0 <= i < reported_apps(pod).len() ==> !unhappy(#[trigger] reported_apps(pod)[i]),
    ensures
        ({
            let container = reported_inits(pod)[place];
            status_text(pod) == if ended(container) {
                "Init:"@ + ending(container.state->0.terminated->0)
            } else if waits(container) && container.state->0.waiting->0.reason->0@
                != "PodInitializing"@ {
                "Init:"@ + container.state->0.waiting->0.reason->0@
            } else {
                "Init:"@ + decimal(place) + "/"@ + decimal_nat(declared(pod).len())
            }
        }),
{
    lemma_views(pod);
    lemma_blocking(reported_inits(pod), declared(pod));
    lemma_is_true(pod.status, "Initialized"@);
    lemma_phases(pod);
    law_first_unhappy_container_is_named(reported_apps(pod), 0);
    reveal_strlit("Init:");
    reveal_strlit("Completed");
    assert("Init:"@[0] == 'I');
    assert("Completed"@[0] == 'C');
    let container = reported_inits(pod)[place];
    let text = init_reason(reported_inits(pod), declared(pod))->0;
    assert(text[0] == 'I');
}

/// Whether some app container is up.
pub open spec fn some_up(statuses: Seq<ContainerStatus>) -> bool {
    exists|i: int| 0 <= i < statuses.len() && up(#[trigger] statuses[i])
}

/// One for each container that is up.
pub open spec fn each_up(statuses: Seq<ContainerStatus>) -> Seq<int> {
    Seq::new(
        statuses.len(),
        |i: int|
            if up(statuses[i]) {
                1int
            } else {
                0
            },
    )
}

proof fn lemma_up(statuses: Seq<ContainerStatus>)
    ensures
        containers_up(statuses) == sum(each_up(statuses)),
        containers_up(statuses) > 0 <==> some_up(statuses),
    decreases statuses.len(),
{
    if statuses.len() > 0 {
        let rest = statuses.skip(1);
        lemma_up(rest);
        let all = each_up(statuses);
        let first: int = if up(statuses[0]) {
            1
        } else {
            0
        };
        assert(all =~= seq![first] + each_up(rest));
        lemma_sum_joins(seq![first], each_up(rest));
        assert(seq![first].drop_last() =~= seq![]);
        assert(sum(seq![first].drop_last()) == 0);
        if up(statuses[0]) {
            assert(some_up(statuses));
        }
        if some_up(rest) {
            let i = choose|i: int| 0 <= i < rest.len() && up(#[trigger] rest[i]);
            assert(up(statuses[i + 1]));
        }
        if some_up(statuses) && !up(statuses[0]) {
            let i = choose|i: int| 0 <= i < statuses.len() && up(#[trigger] statuses[i]);
            assert(rest[i - 1] == statuses[i]);
        }
    }
}

proof fn lemma_sum_joins(left: Seq<int>, right: Seq<int>)
    ensures
        sum(left + right) == sum(left) + sum(right),
    decreases right.len(),
{
    if right.len() == 0 {
        assert(left + right =~= left);
    } else {
        lemma_sum_joins(left, right.drop_last());
        assert((left + right).drop_last() =~= left + right.drop_last());
    }
}

/// Past its init containers, a pod with unhappy app containers reads as the first of
/// them says; but where that is that it completed, and another is still up, the pod
/// is running, or not ready.
pub proof fn law_first_unhappy_container_names_the_pod(pod: Pod, place: int)
    requires
        is_staying(pod),
        is_past_starting(pod),
        first_unhappy(reported_apps(pod), place),
    ensures
        ({
            let words = own_words(reported_apps(pod)[place]);
            status_text(pod) == if words != "Completed"@ || !some_up(reported_apps(pod)) {
                words
            } else if is_true(pod.status, "Ready"@) {
                "Running"@
            } else {
                "NotReady"@
            }
        }),
{
    lemma_views(pod);
    lemma_is_true(pod.status, "Ready"@);
    lemma_up(reported_apps(pod));
    law_first_unhappy_container_is_named(reported_apps(pod), place);
    lemma_phases(pod);
    reveal_strlit("Signal:");
    reveal_strlit("ExitCode:");
    reveal_strlit("Running");
    reveal_strlit("NotReady");
}

/// With no container to speak for it, a pod reads as it is reported: gated before
/// the reason given, the reason before the phase, and `Unknown` where there is none
/// of these.
pub proof fn law_unspoken_for_pod_reads_as_reported(pod: Pod)
    requires
        is_staying(pod),
        all_done(reported_inits(pod), declared(pod)),
        forall|i: int|
            0 <= i < reported_apps(pod).len() ==> !unhappy(#[trigger] reported_apps(pod)[i]),
        !gives_reason(pod, "Completed"@),
        !is_in_phase(pod, "Completed"@),
    ensures
        status_text(pod) == if gated(pod.status) {
            "SchedulingGated"@
        } else if pod.status is Some && speaks(pod.status->0.reason) {
            pod.status->0.reason->0@
        } else if pod.status is Some && speaks(pod.status->0.phase) {
            pod.status->0.phase->0@
        } else {
            "Unknown"@
        },
{
    lemma_views(pod);
    lemma_blocking(reported_inits(pod), declared(pod));
    lemma_is_true(pod.status, "PodScheduled"@);
    law_first_unhappy_container_is_named(reported_apps(pod), 0);
    lemma_phases(pod);
    reveal_strlit("SchedulingGated");
    reveal_strlit("Completed");
    assert("SchedulingGated"@.len() == 15);
    assert("Completed"@.len() == 9);
    let found = condition_of(pod.status, "PodScheduled"@);
    assert(gated(pod.status) == (found is Some && found->0.reason is Some && found->0.reason->0@
        == "SchedulingGated"@));
}

/// One for each of these init containers that counts as ready: a sidecar that has
/// started, has not ended well, and is ready.
pub open spec fn each_sidecar_ready(
    inits: Seq<ContainerStatus>,
    declared: Seq<Container>,
) -> Seq<int> {
    Seq::new(
        inits.len(),
        |i: int|
            if sidecar_named(declared, inits[i].name@) && inits[i].started == Some(true)
                && !ended_well(inits[i]) && inits[i].ready {
                1int
            } else {
                0
            },
    )
}

proof fn lemma_ready_sidecars(inits: Seq<ContainerStatus>, declared: Seq<Container>)
    ensures
        ready_sidecars(inits, declared) == sum(each_sidecar_ready(inits, declared)),
    decreases inits.len(),
{
    if inits.len() > 0 {
        let before = inits.drop_last();
        lemma_ready_sidecars(before, declared);
        lemma_sidecar_named(declared, inits.last().name@);
        assert(each_sidecar_ready(inits, declared).drop_last() =~= each_sidecar_ready(
            before,
            declared,
        ));
    }
}

/// How many of a pod's init containers are looked at: those before the first that
/// holds it up, or all of them.
pub open spec fn is_reach(pod: Pod, reach: int) -> bool {
    holds_up(reported_inits(pod), declared(pod), reach) || (all_done(
        reported_inits(pod),
        declared(pod),
    ) && reach == reported_inits(pod).len())
}

/// The ready containers are the ready sidecars before the first init container that
/// holds the pod up, and, past the init containers, the app containers that are up.
pub proof fn law_ready_counts_what_is_up(pod: Pod, reach: int)
    requires
        is_reach(pod, reach),
    ensures
        ready_count(pod) == sum(
            each_sidecar_ready(reported_inits(pod).take(reach), declared(pod)),
        ) + if is_past_starting(pod) {
            sum(each_up(reported_apps(pod)))
        } else {
            0
        },
{
    lemma_views(pod);
    lemma_blocking(reported_inits(pod), declared(pod));
    lemma_ready_sidecars(reported_inits(pod).take(reach), declared(pod));
    lemma_up(reported_apps(pod));
}

/// One for each of these containers that is a sidecar.
pub open spec fn each_sidecar(declared: Seq<Container>) -> Seq<int> {
    Seq::new(
        declared.len(),
        |i: int|
            if keeps_running(declared[i]) {
                1int
            } else {
                0
            },
    )
}

proof fn lemma_sidecars_among(declared: Seq<Container>)
    ensures
        sidecars_among(declared) == sum(each_sidecar(declared)),
    decreases declared.len(),
{
    if declared.len() > 0 {
        lemma_sidecars_among(declared.drop_last());
        assert(each_sidecar(declared).drop_last() =~= each_sidecar(declared.drop_last()));
    }
}

/// The ready fraction is out of the app containers and sidecars that are declared.
pub proof fn law_expected_counts_apps_and_sidecars(pod: Pod)
    ensures
        expected(pod) == if pod.spec is Some {
            pod.spec->0.containers@.len() + sum(each_sidecar(declared(pod)))
        } else {
            0
        },
{
    lemma_views(pod);
    lemma_sidecars_among(declared(pod));
}

/// How often each of these containers was restarted.
pub open spec fn each_restarts(statuses: Seq<ContainerStatus>) -> Seq<int> {
    Seq::new(statuses.len(), |i: int| statuses[i].restart_count as int)
}

/// How often each of these init containers was restarted that is a sidecar.
pub open spec fn each_sidecar_restarts(
    inits: Seq<ContainerStatus>,
    declared: Seq<Container>,
) -> Seq<int> {
    Seq::new(
        inits.len(),
        |i: int|
            if sidecar_named(declared, inits[i].name@) {
                inits[i].restart_count as int
            } else {
                0
            },
    )
}

proof fn lemma_restart_sum(statuses: Seq<ContainerStatus>)
    ensures
        restart_sum(statuses) == sum(each_restarts(statuses)),
    decreases statuses.len(),
{
    if statuses.len() > 0 {
        lemma_restart_sum(statuses.drop_last());
        assert(each_restarts(statuses).drop_last() =~= each_restarts(statuses.drop_last()));
    }
}

proof fn lemma_sidecars_only(inits: Seq<ContainerStatus>, declared: Seq<Container>)
    ensures
        restart_sum(sidecars_only(inits, declared)) == sum(each_sidecar_restarts(inits, declared)),
        forall|c: ContainerStatus| #[trigger]
            sidecars_only(inits, declared).contains(c) <==> inits.contains(c) && sidecar_named(
                declared,
                c.name@,
            ),
    decreases inits.len(),
{
    let all = sidecars_only(inits, declared);
    if inits.len() > 0 {
        let before = inits.drop_last();
        lemma_sidecars_only(before, declared);
        lemma_sidecar_named(declared, inits.last().name@);
        assert(each_sidecar_restarts(inits, declared).drop_last() =~= each_sidecar_restarts(
            before,
            declared,
        ));
        let had = sidecars_only(before, declared);
        assert(had.push(inits.last()).drop_last() =~= had);
        assert(inits =~= before.push(inits.last()));
        assert forall|c: ContainerStatus| #[trigger] all.contains(c) <==> inits.contains(c)
            && sidecar_named(declared, c.name@) by {
            lemma_contains_push(before, inits.last(), c);
            lemma_contains_push(had, inits.last(), c);
        }
    } else {
        assert(each_sidecar_restarts(inits, declared) =~= seq![]);
        assert forall|c: ContainerStatus| !#[trigger] all.contains(c) && !inits.contains(c) by {}
    }
}

proof fn lemma_contains_push(
    list: Seq<ContainerStatus>,
    last: ContainerStatus,
    c: ContainerStatus,
)
    ensures
        list.push(last).contains(c) <==> list.contains(c) || c == last,
{
    if list.contains(c) {
        assert(list.push(last)[list.index_of(c)] == c);
    }
    if c == last {
        assert(list.push(last)[list.len() as int] == c);
    }
    if list.push(last).contains(c) && c != last {
        assert(list[list.push(last).index_of(c)] == c);
    }
}

/// The init containers up to and with the first that holds the pod up, or all of
/// them.
pub open spec fn walked(pod: Pod, reach: int) -> Seq<ContainerStatus> {
    if reach < reported_inits(pod).len() {
        reported_inits(pod).take(reach + 1)
    } else {
        reported_inits(pod)
    }
}

/// Whether a pod's restarts are about a container: while the pod starts, the init
/// containers walked; and past that, the sidecars among them and the app containers.
pub open spec fn is_counted(pod: Pod, reach: int, container: ContainerStatus) -> bool {
    if is_past_starting(pod) {
        reported_apps(pod).contains(container) || (walked(pod, reach).contains(container)
            && sidecar_named(declared(pod), container.name@))
    } else {
        walked(pod, reach).contains(container)
    }
}

/// When the run of a container before this one ended.
pub open spec fn ended_before(container: ContainerStatus) -> Option<Timestamp> {
    if container.last_state is Some && container.last_state->0.terminated is Some {
        container.last_state->0.terminated->0.finished_at
    } else {
        None
    }
}

/// How many restarts a pod's containers come to.
pub open spec fn restarts_in_all(pod: Pod, reach: int) -> int {
    if is_past_starting(pod) {
        sum(each_sidecar_restarts(walked(pod, reach), declared(pod))) + sum(
            each_restarts(reported_apps(pod)),
        )
    } else {
        sum(each_restarts(walked(pod, reach)))
    }
}

proof fn lemma_newest(statuses: Seq<ContainerStatus>)
    ensures
        forall|i: int|
            0 <= i < statuses.len() && ended_before(#[trigger] statuses[i]) is Some ==> newest_of(
                statuses,
            ) is Some && newest_of(statuses)->0.nanosecond >= ended_before(
                statuses[i],
            )->0.nanosecond,
        newest_of(statuses) is Some ==> exists|i: int|
            0 <= i < statuses.len() && ended_before(#[trigger] statuses[i]) == newest_of(statuses),
    decreases statuses.len(),
{
    if statuses.len() > 0 {
        let before = statuses.drop_last();
        lemma_newest(before);
        assert(statuses.last() == statuses[statuses.len() - 1]);
        assert forall|i: int|
            0 <= i < statuses.len() && ended_before(
                #[trigger] statuses[i],
            ) is Some implies newest_of(statuses) is Some && newest_of(statuses)->0.nanosecond
            >= ended_before(statuses[i])->0.nanosecond by {
            if i < before.len() {
                assert(before[i] == statuses[i]);
            }
        }
        if newest_of(statuses) is Some {
            if newest_of(statuses) == newest_of(before) {
                let i = choose|i: int|
                    0 <= i < before.len() && ended_before(#[trigger] before[i]) == newest_of(before);
                assert(statuses[i] == before[i]);
            } else {
                assert(ended_before(statuses[statuses.len() - 1]) == newest_of(statuses));
            }
        }
    }
}

/// A number held to what an `i32` holds.
pub open spec fn within_i32(count: int, held: int) -> bool {
    ||| -2_147_483_648 <= count <= 2_147_483_647 && held == count
    ||| count > 2_147_483_647 && held == 2_147_483_647
    ||| count < -2_147_483_648 && held == -2_147_483_648
}

/// One more container adds its restarts, and so does one more set of them; a count
/// that no `i32` holds stops at the end.
pub proof fn law_restarts_stop_at_the_ends(
    walked: Walked,
    other: Walked,
    container: ContainerStatus,
)
    ensures
        within_i32(
            walked.restarts + container.restart_count,
            walked.with(container).restarts as int,
        ),
        within_i32(walked.restarts + other.restarts, walked.and(other).restarts as int),
{
}

/// The restarts of a pod are those of its containers that count, added up; and the
/// moment beside them is the newest at which one of these ended before.
pub proof fn law_restarts_add_up(pod: Pod, reach: int)
    requires
        is_reach(pod, reach),
    ensures
        (forall|container: ContainerStatus| #[trigger]
            is_counted(pod, reach, container) ==> container.restart_count >= 0)
            && restarts_in_all(pod, reach) <= i32::MAX ==> restarts_that_matter(pod).restarts
            == restarts_in_all(pod, reach),
        forall|container: ContainerStatus| #[trigger]
            is_counted(pod, reach, container) && ended_before(container) is Some
                ==> restarts_that_matter(pod).last is Some && restarts_that_matter(
                pod,
            ).last->0.nanosecond >= ended_before(container)->0.nanosecond,
        restarts_that_matter(pod).last is Some ==> exists|container: ContainerStatus| #[trigger]
            is_counted(pod, reach, container) && ended_before(container) == restarts_that_matter(
                pod,
            ).last,
{
    lemma_views(pod);
    lemma_blocking(reported_inits(pod), declared(pod));
    law_restarts_are_of_one_set(pod);
    let specs = declared(pod);
    let list = walked(pod, reach);
    assert(list == walked_inits(reported_inits(pod), specs));
    let apps = reported_apps(pod);
    let all = counted(pod);
    let sidecars = sidecars_only(list, specs);
    lemma_sidecars_only(list, specs);
    lemma_restart_sum(list);
    lemma_restart_sum(apps);
    lemma_restart_sum(all);
    lemma_restart_sum(sidecars);
    if is_past_starting(pod) {
        assert(each_restarts(sidecars + apps) =~= each_restarts(sidecars) + each_restarts(apps));
        lemma_sum_joins(each_restarts(sidecars), each_restarts(apps));
    }
    assert(restart_sum(all) == restarts_in_all(pod, reach));
    assert forall|c: ContainerStatus| all.contains(c) <==> #[trigger] is_counted(
        pod,
        reach,
        c,
    ) by {
        if is_past_starting(pod) {
            let both = sidecars + apps;
            if sidecars.contains(c) {
                assert(both[sidecars.index_of(c)] == c);
            }
            if apps.contains(c) {
                assert(both[sidecars.len() + apps.index_of(c)] == c);
            }
            if both.contains(c) {
                let i = both.index_of(c);
                if i < sidecars.len() {
                    assert(sidecars[i] == c);
                } else {
                    assert(apps[i - sidecars.len()] == c);
                }
            }
            assert(sidecars.contains(c) <==> list.contains(c) && sidecar_named(specs, c.name@));
        }
    }
    if forall|c: ContainerStatus| #[trigger] is_counted(pod, reach, c) ==> c.restart_count >= 0 {
        assert forall|i: int| 0 <= i < all.len() implies (#[trigger] all[i]).restart_count >= 0 by {
            assert(all.contains(all[i]));
            assert(is_counted(pod, reach, all[i]));
        }
        assert(no_debts(all));
    }
    lemma_newest(all);
    assert forall|c: ContainerStatus| #[trigger]
        is_counted(pod, reach, c) && ended_before(c) is Some implies restarts_that_matter(
        pod,
    ).last is Some && restarts_that_matter(pod).last->0.nanosecond >= ended_before(
        c,
    )->0.nanosecond by {
        assert(all.contains(c));
        assert(all[all.index_of(c)] == c);
    }
    if restarts_that_matter(pod).last is Some {
        let i = choose|i: int|
            0 <= i < all.len() && ended_before(#[trigger] all[i]) == newest_of(all);
        assert(all.contains(all[i]));
        assert(is_counted(pod, reach, all[i]));
    }
}

/// Whether a status is one a pod goes through on its way.
pub open spec fn is_settling(word: Seq<char>) -> bool {
    ||| word == "Running"@
    ||| word == "Pending"@
    ||| word == "ContainerCreating"@
    ||| word == "PodInitializing"@
    ||| word == "Terminating"@
    ||| word == "SchedulingGated"@
    ||| word == "NotReady"@
}

/// Whether a text is a number, a slash, and a number.
pub open spec fn is_step(text: Seq<char>) -> bool {
    exists|slash: int| #[trigger] is_step_at(text, slash)
}

/// Whether a text is digits around a slash at a place.
pub open spec fn is_step_at(text: Seq<char>, slash: int) -> bool {
    &&& 0 < slash < text.len() - 1
    &&& text[slash] == '/'
    &&& forall|i: int|
        0 <= i < text.len() && i != slash ==> '0' <= #[trigger] text[i] && text[i] <= '9'
}

proof fn lemma_is_step(text: Seq<char>)
    ensures
        is_progress(text) == is_step(text),
{
    let slash = crate::text::find(text, '/');
    crate::text::lemma_find(text, '/');
    if is_progress(text) {
        let before = text.take(slash);
        let after = text.skip(slash + 1);
        assert forall|i: int| 0 <= i < text.len() && i != slash implies '0' <= #[trigger] text[i]
            && text[i] <= '9' by {
            if i < slash {
                assert(before[i] == text[i]);
            } else {
                assert(after[i - slash - 1] == text[i]);
            }
        }
        assert(is_step_at(text, slash));
    }
    if is_step(text) {
        let place = choose|place: int| #[trigger] is_step_at(text, place);
        assert forall|i: int| 0 <= i < place implies text[i] != '/' by {}
        crate::text::lemma_find_is(text, '/', place);
        let before = text.take(place);
        let after = text.skip(place + 1);
        assert forall|i: int| 0 <= i < before.len() implies crate::text::is_digit(
            #[trigger] before[i],
        ) by {
            assert(before[i] == text[i]);
        }
        assert forall|i: int| 0 <= i < after.len() implies crate::text::is_digit(
            #[trigger] after[i],
        ) by {
            assert(after[i] == text[place + 1 + i]);
        }
    }
}

/// Whether a status is about the init containers, and what it says of them.
pub open spec fn of_init(status: Seq<char>, said: Seq<char>) -> bool {
    status == "Init:"@ + said
}

proof fn lemma_init_words()
    ensures
        "Init:"@.len() == 5,
        "Init:"@[0] == 'I',
        forall|word: Seq<char>| #[trigger] is_settling(word) ==> word.len() > 0 && word[0] != 'I',
        "Unknown"@.len() == 7,
        "Unknown"@[0] == 'U',
        "Completed"@.len() == 9 && "Completed"@[0] == 'C',
        "Succeeded"@.len() == 9 && "Succeeded"@[0] == 'S',
        "Running"@.len() == 7 && "Running"@[0] == 'R',
        forall|word: Seq<char>| #[trigger]
            is_settling(word) ==> word != "Unknown"@ && word != "Completed"@ && word
                != "Succeeded"@,
{
    reveal_strlit("Init:");
    reveal_strlit("Unknown");
    reveal_strlit("Completed");
    reveal_strlit("Succeeded");
    reveal_strlit("Running");
    reveal_strlit("Pending");
    reveal_strlit("ContainerCreating");
    reveal_strlit("PodInitializing");
    reveal_strlit("Terminating");
    reveal_strlit("SchedulingGated");
    reveal_strlit("NotReady");
    assert("Running"@[0] == 'R');
    assert("Pending"@[0] == 'P');
    assert("ContainerCreating"@[0] == 'C');
    assert("PodInitializing"@[0] == 'P');
    assert("Terminating"@[0] == 'T');
    assert("SchedulingGated"@[0] == 'S');
    assert("NotReady"@[0] == 'N');
    assert("ContainerCreating"@.len() == 17);
    assert("SchedulingGated"@.len() == 15);
    assert("Completed"@.len() == 9);
    assert("Succeeded"@.len() == 9);
}

/// What is not calm is settling, unknown, or a problem: the settling words and the
/// steps of initialisation are named, and everything else that nobody has heard of
/// is a problem.
pub proof fn law_alarm_is_for_what_nobody_has_heard_of(
    status: Seq<char>,
    ready: int,
    total: int,
)
    ensures
        ({
            let severity = severity_of(status, ready, total);
            let calm = status == "Completed"@ || status == "Succeeded"@ || (status == "Running"@
                && total > 0 && ready == total);
            let unknown = status == "Unknown"@ || of_init(status, "Unknown"@);
            let settling = !calm && (is_settling(status) || exists|said: Seq<char>|
                #[trigger] of_init(status, said) && (is_settling(said) || is_step(said)));
            &&& severity is Okay <==> calm
            &&& severity is Unknown <==> unknown
            &&& severity is Warn <==> settling
            &&& severity is Critical <==> !calm && !unknown && !settling
        }),
{
    lemma_init_words();
    let severity = severity_of(status, ready, total);
    let calm = status == "Completed"@ || status == "Succeeded"@ || (status == "Running"@ && total
        > 0 && ready == total);
    let settled = exists|said: Seq<char>| #[trigger]
        of_init(status, said) && (is_settling(said) || is_step(said));
    if "Init:"@.is_prefix_of(status) {
        let said = status.skip(5);
        assert(status.subrange(0, 5) == "Init:"@);
        assert(status[0] == status.subrange(0, 5)[0]);
        assert(status =~= "Init:"@ + said);
        assert(of_init(status, said));
        lemma_is_step(said);
        assert forall|other: Seq<char>| #[trigger] of_init(status, other) implies other
            == said by {
            assert(("Init:"@ + other).skip(5) =~= other);
        }
        assert(!is_settling(status));
        assert(!calm);
        assert(settled == (is_settling(said) || is_step(said)));
        assert(of_init(status, "Unknown"@) == (said == "Unknown"@));
        if is_step(said) {
            let slash = choose|slash: int| #[trigger] is_step_at(said, slash);
            assert('0' <= said[0] && said[0] <= '9');
        }
    } else {
        assert forall|said: Seq<char>| !#[trigger] of_init(status, said) by {
            if of_init(status, said) {
                assert(status.subrange(0, 5) =~= "Init:"@);
            }
        }
        assert(!settled);
    }
}

} // verus!
