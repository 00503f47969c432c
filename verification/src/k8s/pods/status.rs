//! A pod's `STATUS`, and what its containers add up to.
//!
//! The string `kubectl` prints appears nowhere in the API. `pod.status.phase`
//! only ever holds one of five words, and none of them is `CrashLoopBackOff`,
//! `Terminating`, `Init:0/2`, or `Evicted`: the four a person actually looks
//! for. Those are derived from the container statuses underneath:
//!
//! - The init containers are walked in order and the *first* one that has not
//!   exited cleanly decides the status, as `Init:<n>/<total>` or `Init:<reason>`.
//! - A *sidecar* (an init container with `restartPolicy: Always`) is skipped
//!   by that walk once it has started, counts towards the ready fraction, and
//!   is the only init container whose restarts survive into the final count.
//! - When the restart count is about one set of containers, so is the moment of
//!   the newest restart: [`Walked`] holds both, and nothing takes one without the
//!   other.
//! - When several app containers are unhappy, the first one in the spec is the
//!   one named.
//! - A pod being deleted reads `Terminating`, except on a lost node, where it
//!   reads `Unknown`.

use vstd::prelude::*;
use vstd::string::*;

use crate::k8s::api::{
    Container, ContainerStateTerminated, ContainerStatus, Pod, PodCondition, PodStatus,
};
use crate::k8s::pods::{held, holds, inits_of, is_sidecar, sidecar};
use crate::text;
use crate::text::{all_digits, decimal, decimal_nat, find};
use crate::theme::Severity;
use crate::time::Timestamp;

verus! {

/// The reason a pod carries when the node running it stopped answering. Its
/// pods are not really terminating: nobody can confirm anything about them.
pub const NODE_LOST: &'static str = "NodeLost";

/// A text that is there and not empty.
pub open spec fn said(text: Option<Seq<char>>) -> Option<Seq<char>> {
    match text {
        Some(text) => if text.len() > 0 {
            Some(text)
        } else {
            None
        },
        None => None,
    }
}

/// The text, where it is there and not empty.
pub(crate) fn spoken(text: &Option<String>) -> (spoken: Option<&str>)
    ensures
        match spoken {
            Some(spoken) => said(held(*text)) == Some(spoken@),
            None => said(held(*text)) is None,
        },
{
    match text {
        Some(text) => {
            if text.as_str().is_empty() {
                None
            } else {
                Some(text.as_str())
            }
        },
        None => None,
    }
}

/// How a container ended: the reason given, or the signal or exit code where
/// there is none.
pub open spec fn exit_text(terminated: ContainerStateTerminated) -> Seq<char> {
    match said(held(terminated.reason)) {
        Some(reason) => reason,
        None => match terminated.signal {
            Some(signal) => if signal != 0 {
                "Signal:"@ + decimal(signal as int)
            } else {
                "ExitCode:"@ + decimal(terminated.exit_code as int)
            },
            None => "ExitCode:"@ + decimal(terminated.exit_code as int),
        },
    }
}

/// How a container ended, when it did not end cleanly.
///
/// The reason is usually filled in (`Error`, `OOMKilled`, `Completed`); when it
/// is not, the exit code or signal is all there is to go on, and it still beats
/// an empty cell.
pub(crate) fn exit_reason(terminated: &ContainerStateTerminated) -> (reason: String)
    ensures
        reason@ == exit_text(*terminated),
{
    if let Some(reason) = spoken(&terminated.reason) {
        return reason.to_owned();
    }
    match terminated.signal {
        Some(signal) => {
            if signal != 0 {
                return "Signal:".to_owned().concat(text::show_integer(signal as i128).as_str());
            }
        },
        None => {},
    }
    "ExitCode:".to_owned().concat(text::show_integer(terminated.exit_code as i128).as_str())
}

/// How a container has ended, if that is its current state.
pub open spec fn terminated_of(container: ContainerStatus) -> Option<ContainerStateTerminated> {
    match container.state {
        Some(state) => state.terminated,
        None => None,
    }
}

pub(crate) fn terminated(container: &ContainerStatus) -> (state: Option<&ContainerStateTerminated>)
    ensures
        match state {
            Some(state) => terminated_of(*container) == Some(*state),
            None => terminated_of(*container) is None,
        },
{
    match &container.state {
        Some(state) => state.terminated.as_ref(),
        None => None,
    }
}

/// Why a container waits, if it waits and says why.
pub open spec fn waiting_reason(container: ContainerStatus) -> Option<Seq<char>> {
    match container.state {
        Some(state) => match state.waiting {
            Some(waiting) => said(held(waiting.reason)),
            None => None,
        },
        None => None,
    }
}

pub(crate) fn waits_for(container: &ContainerStatus) -> (reason: Option<&str>)
    ensures
        match reason {
            Some(reason) => waiting_reason(*container) == Some(reason@),
            None => waiting_reason(*container) is None,
        },
{
    match &container.state {
        Some(state) => match &state.waiting {
            Some(waiting) => spoken(&waiting.reason),
            None => None,
        },
        None => None,
    }
}

/// Whether a container is running.
pub open spec fn is_running(container: ContainerStatus) -> bool {
    match container.state {
        Some(state) => state.running is Some,
        None => false,
    }
}

pub(crate) fn running(container: &ContainerStatus) -> (answer: bool)
    ensures
        answer == is_running(*container),
{
    match &container.state {
        Some(state) => state.running.is_some(),
        None => false,
    }
}

/// When a container's *previous* run ended, if it had one.
///
/// The last state is only populated once the kubelet has restarted a container,
/// and the moment can still be unset on a container killed before it was ever
/// seen to stop. Both read the same way: no recency to show.
pub open spec fn last_ended(container: ContainerStatus) -> Option<Timestamp> {
    match container.last_state {
        Some(state) => match state.terminated {
            Some(terminated) => terminated.finished_at,
            None => None,
        },
        None => None,
    }
}

pub(crate) fn last_terminated_at(container: &ContainerStatus) -> (at: Option<Timestamp>)
    ensures
        at == last_ended(*container),
{
    match &container.last_state {
        Some(state) => match &state.terminated {
            Some(terminated) => terminated.finished_at,
            None => None,
        },
        None => None,
    }
}

/// The later of two moments, tolerating either being absent.
pub open spec fn later(left: Option<Timestamp>, right: Option<Timestamp>) -> Option<Timestamp> {
    match (left, right) {
        (Some(a), Some(b)) => if b.nanosecond > a.nanosecond {
            Some(b)
        } else {
            Some(a)
        },
        (Some(a), None) => Some(a),
        (None, b) => b,
    }
}

pub(crate) fn newest(left: Option<Timestamp>, right: Option<Timestamp>) -> (newest: Option<
    Timestamp,
>)
    ensures
        newest == later(left, right),
{
    match (left, right) {
        (Some(a), Some(b)) => {
            if b.nanosecond > a.nanosecond {
                Some(b)
            } else {
                Some(a)
            }
        },
        (Some(a), None) => Some(a),
        (None, b) => b,
    }
}

/// A restart count held to its range.
pub open spec fn pinned(count: int) -> int {
    if count > i32::MAX {
        i32::MAX as int
    } else if count < i32::MIN {
        i32::MIN as int
    } else {
        count
    }
}

fn add_restarts(left: i32, right: i32) -> (sum: i32)
    ensures
        sum == pinned(left + right),
{
    match left.checked_add(right) {
        Some(sum) => sum,
        None => if right > 0 {
            i32::MAX
        } else {
            i32::MIN
        },
    }
}

/// What the restarts of some containers come to: how many there were, and when
/// the newest was. The two are always about the same containers.
#[derive(Debug, Clone, Copy, PartialEq, Eq, Structural)]
pub struct Walked {
    /// How many restarts.
    pub restarts: i32,
    /// The newest of them, where it is known.
    pub last: Option<Timestamp>,
}

impl Walked {
    /// The restarts of no container.
    pub open spec fn none() -> Walked {
        Walked { restarts: 0, last: None }
    }

    /// With the restarts of one more container.
    pub open spec fn with(self, container: ContainerStatus) -> Walked {
        Walked {
            restarts: pinned(self.restarts + container.restart_count) as i32,
            last: later(self.last, last_ended(container)),
        }
    }

    /// The restarts of two groups of containers together.
    pub open spec fn and(self, other: Walked) -> Walked {
        Walked {
            restarts: pinned(self.restarts + other.restarts) as i32,
            last: later(self.last, other.last),
        }
    }

    fn counting(self, container: &ContainerStatus) -> (walked: Walked)
        ensures
            walked == self.with(*container),
    {
        Walked {
            restarts: add_restarts(self.restarts, container.restart_count),
            last: newest(self.last, last_terminated_at(container)),
        }
    }
}

/// Whether the declared container of this name is a sidecar. The first of the
/// name decides.
pub open spec fn names_sidecar(specs: Seq<Container>, name: Seq<char>) -> bool
    decreases specs.len(),
{
    if specs.len() == 0 {
        false
    } else if specs[0].name@ == name {
        sidecar(specs[0])
    } else {
        names_sidecar(specs.skip(1), name)
    }
}

pub(crate) fn sidecar_by_name(specs: &[Container], name: &str) -> (answer: bool)
    ensures
        answer == names_sidecar(specs@, name@),
{
    let mut i: usize = 0;
    assert(specs@.skip(0) =~= specs@);
    while i < specs.len()
        invariant
            i <= specs@.len(),
            names_sidecar(specs@, name@) == names_sidecar(specs@.skip(i as int), name@),
        decreases specs@.len() - i,
    {
        assert(specs@.skip(i as int)[0] == specs@[i as int]);
        assert(specs@.skip(i as int).skip(1) =~= specs@.skip(i + 1));
        if text::same(specs[i].name.as_str(), name) {
            return is_sidecar(&specs[i]);
        }
        i = i + 1;
    }
    false
}

/// Whether an init container has exited cleanly.
pub open spec fn exited_cleanly(container: ContainerStatus) -> bool {
    match terminated_of(container) {
        Some(terminated) => terminated.exit_code == 0,
        None => false,
    }
}

/// Whether an init container is a sidecar that has started, and so is meant to
/// be running still.
pub open spec fn started_sidecar(container: ContainerStatus, specs: Seq<Container>) -> bool {
    names_sidecar(specs, container.name@) && container.started == Some(true)
}

/// Whether an init container no longer holds up initialisation.
pub open spec fn passed(container: ContainerStatus, specs: Seq<Container>) -> bool {
    exited_cleanly(container) || started_sidecar(container, specs)
}

/// The place of the first init container that holds up initialisation, or how
/// many there are where none does.
pub open spec fn blocking(statuses: Seq<ContainerStatus>, specs: Seq<Container>) -> int
    decreases statuses.len(),
{
    if statuses.len() == 0 || !passed(statuses[0], specs) {
        0
    } else {
        1 + blocking(statuses.skip(1), specs)
    }
}

/// What the init container that holds up initialisation says: how it failed, or
/// what it waits for, or how far initialisation has come. `PodInitializing` is
/// the kubelet saying "not this one's turn yet", which is plain progress.
pub open spec fn init_text(container: ContainerStatus, place: int, count: nat) -> Seq<char> {
    match terminated_of(container) {
        Some(terminated) => "Init:"@ + exit_text(terminated),
        None => match waiting_reason(container) {
            Some(reason) => if reason != "PodInitializing"@ {
                "Init:"@ + reason
            } else {
                "Init:"@ + decimal(place) + "/"@ + decimal_nat(count)
            },
            None => "Init:"@ + decimal(place) + "/"@ + decimal_nat(count),
        },
    }
}

/// The restarts of these containers.
pub open spec fn restarts_of(statuses: Seq<ContainerStatus>) -> Walked
    decreases statuses.len(),
{
    if statuses.len() == 0 {
        Walked::none()
    } else {
        restarts_of(statuses.drop_last()).with(statuses.last())
    }
}

/// The restarts of the sidecars among these containers.
pub open spec fn sidecar_restarts_of(
    statuses: Seq<ContainerStatus>,
    specs: Seq<Container>,
) -> Walked
    decreases statuses.len(),
{
    if statuses.len() == 0 {
        Walked::none()
    } else {
        let before = sidecar_restarts_of(statuses.drop_last(), specs);
        if names_sidecar(specs, statuses.last().name@) {
            before.with(statuses.last())
        } else {
            before
        }
    }
}

/// How many of these containers are started sidecars that are ready.
pub open spec fn ready_sidecars(statuses: Seq<ContainerStatus>, specs: Seq<Container>) -> nat
    decreases statuses.len(),
{
    if statuses.len() == 0 {
        0
    } else {
        let last = statuses.last();
        let before = ready_sidecars(statuses.drop_last(), specs);
        if !exited_cleanly(last) && started_sidecar(last, specs) && last.ready {
            before + 1
        } else {
            before
        }
    }
}

/// The init containers a walk sees: those up to and with the one that blocks.
pub open spec fn walked_inits(
    statuses: Seq<ContainerStatus>,
    specs: Seq<Container>,
) -> Seq<ContainerStatus> {
    let place = blocking(statuses, specs);
    if place < statuses.len() {
        statuses.take(place + 1)
    } else {
        statuses
    }
}

/// What the init containers say of the pod's status, if they hold it up.
pub open spec fn init_reason(
    statuses: Seq<ContainerStatus>,
    specs: Seq<Container>,
) -> Option<Seq<char>> {
    let place = blocking(statuses, specs);
    if place < statuses.len() {
        Some(init_text(statuses[place], place, specs.len()))
    } else {
        None
    }
}

/// What the init containers add up to.
pub(crate) struct Init {
    /// The first init container that is not finished, if there is one. `None`
    /// means initialisation is not what is holding the pod up.
    pub(crate) reason: Option<String>,
    pub(crate) ready: u128,
    /// The restarts of every init container walked.
    pub(crate) restarts: Walked,
    /// The same, restricted to the sidecars: the subset that survives once
    /// initialisation is over.
    pub(crate) sidecars: Walked,
}

/// The init container statuses of a pod.
pub open spec fn init_statuses(status: Option<PodStatus>) -> Seq<ContainerStatus> {
    match status {
        Some(status) => match status.init_container_statuses {
            Some(statuses) => statuses@,
            None => seq![],
        },
        None => seq![],
    }
}

/// The app container statuses of a pod.
pub open spec fn app_statuses(status: Option<PodStatus>) -> Seq<ContainerStatus> {
    match status {
        Some(status) => match status.container_statuses {
            Some(statuses) => statuses@,
            None => seq![],
        },
        None => seq![],
    }
}

fn no_init() -> (init: Init)
    ensures
        init.reason is None,
        init.ready == 0,
        init.restarts == Walked::none(),
        init.sidecars == Walked::none(),
{
    Init {
        reason: None,
        ready: 0,
        restarts: Walked { restarts: 0, last: None },
        sidecars: Walked { restarts: 0, last: None },
    }
}

/// Walk the init containers in order, stopping at the first one that has not
/// exited cleanly: that one is what the pod is waiting for.
pub(crate) fn init_phase(statuses: &[ContainerStatus], specs: &[Container]) -> (init: Init)
    ensures
        held(init.reason) == init_reason(statuses@, specs@),
        init.ready == ready_sidecars(statuses@.take(blocking(statuses@, specs@)), specs@),
        init.restarts == restarts_of(walked_inits(statuses@, specs@)),
        init.sidecars == sidecar_restarts_of(walked_inits(statuses@, specs@), specs@),
        init.ready <= usize::MAX,
{
    let mut init = no_init();
    let mut index: usize = 0;
    assert(statuses@.skip(0) =~= statuses@);
    assert(statuses@.take(0) =~= seq![]);
    while index < statuses.len()
        invariant
            index <= statuses@.len(),
            blocking(statuses@, specs@) == index + blocking(statuses@.skip(index as int), specs@),
            init.reason is None,
            init.ready == ready_sidecars(statuses@.take(index as int), specs@),
            init.ready <= index,
            init.restarts == restarts_of(statuses@.take(index as int)),
            init.sidecars == sidecar_restarts_of(statuses@.take(index as int), specs@),
        decreases statuses@.len() - index,
    {
        let container = &statuses[index];
        let ghost upto = statuses@.take(index + 1);
        let ghost ahead = statuses@.skip(index as int);
        assert(upto.drop_last() =~= statuses@.take(index as int));
        assert(upto.last() == *container);
        assert(ahead[0] == *container);
        assert(ahead.skip(1) =~= statuses@.skip(index + 1));
        let by_sidecar = sidecar_by_name(specs, container.name.as_str());
        init.restarts = init.restarts.counting(container);
        if by_sidecar {
            init.sidecars = init.sidecars.counting(container);
        }
        let ended = terminated(container);
        let clean = match ended {
            Some(ended) => ended.exit_code == 0,
            None => false,
        };
        let started = match container.started {
            Some(started) => started,
            None => false,
        };
        if !clean && by_sidecar && started {
            if container.ready {
                init.ready = init.ready + 1;
            }
        } else if !clean {
            assert(blocking(ahead, specs@) == 0);
            let reason = match ended {
                Some(ended) => "Init:".to_owned().concat(exit_reason(ended).as_str()),
                None => match waits_for(container) {
                    Some(waiting) => {
                        if text::same(waiting, "PodInitializing") {
                            init_progress(index, specs.len())
                        } else {
                            "Init:".to_owned().concat(waiting)
                        }
                    },
                    None => init_progress(index, specs.len()),
                },
            };
            init.reason = Some(reason);
            return init;
        }
        index = index + 1;
    }
    proof {
        assert(statuses@.take(index as int) =~= statuses@);
        assert(blocking(statuses@.skip(index as int), specs@) == 0);
    }
    init
}

fn init_progress(index: usize, count: usize) -> (text: String)
    ensures
        text@ == "Init:"@ + decimal(index as int) + "/"@ + decimal_nat(count as nat),
{
    "Init:".to_owned().concat(text::show_natural(index as u128).as_str()).concat("/").concat(
        text::show_natural(count as u128).as_str(),
    )
}

/// Why an app container is not simply up: it waits for a reason, or has ended.
pub open spec fn complaint(container: ContainerStatus) -> Option<Seq<char>> {
    match waiting_reason(container) {
        Some(reason) => Some(reason),
        None => match terminated_of(container) {
            Some(terminated) => Some(exit_text(terminated)),
            None => None,
        },
    }
}

/// What the first unhappy app container says, in the order of the spec.
pub open spec fn steady_reason(statuses: Seq<ContainerStatus>) -> Option<Seq<char>>
    decreases statuses.len(),
{
    if statuses.len() == 0 {
        None
    } else if complaint(statuses[0]) is Some {
        complaint(statuses[0])
    } else {
        steady_reason(statuses.skip(1))
    }
}

/// How many app containers are up: running, ready and without a complaint.
pub open spec fn containers_up(statuses: Seq<ContainerStatus>) -> nat
    decreases statuses.len(),
{
    if statuses.len() == 0 {
        0
    } else {
        let rest = containers_up(statuses.skip(1));
        if complaint(statuses[0]) is None && statuses[0].ready && is_running(statuses[0]) {
            rest + 1
        } else {
            rest
        }
    }
}

/// The restarts of the app containers, counted from the last to the first.
pub open spec fn steady_restarts(statuses: Seq<ContainerStatus>) -> Walked
    decreases statuses.len(),
{
    if statuses.len() == 0 {
        Walked::none()
    } else {
        steady_restarts(statuses.skip(1)).with(statuses[0])
    }
}

/// What the app containers add up to.
pub(crate) struct Steady {
    /// What the first unhappy container in the spec says, if one is unhappy.
    pub(crate) reason: Option<String>,
    pub(crate) ready: u128,
    pub(crate) restarts: Walked,
    /// Whether anything is still up, which is what separates a finished Job
    /// from one whose sidecar never exits.
    pub(crate) any_running: bool,
}

/// Walk the app containers backwards, so that when several are unhappy the one
/// reported is the first in the spec: the one a reader thinks of as *the*
/// container.
pub(crate) fn steady_state(statuses: &[ContainerStatus]) -> (steady: Steady)
    ensures
        held(steady.reason) == steady_reason(statuses@),
        steady.ready == containers_up(statuses@),
        steady.ready <= usize::MAX,
        steady.restarts == steady_restarts(statuses@),
        steady.any_running == (containers_up(statuses@) > 0),
{
    let mut steady = Steady {
        reason: None,
        ready: 0,
        restarts: Walked { restarts: 0, last: None },
        any_running: false,
    };
    let mut index: usize = statuses.len();
    assert(statuses@.skip(index as int) =~= seq![]);
    while index > 0
        invariant
            index <= statuses@.len(),
            held(steady.reason) == steady_reason(statuses@.skip(index as int)),
            steady.ready == containers_up(statuses@.skip(index as int)),
            steady.ready <= statuses@.len() - index,
            steady.restarts == steady_restarts(statuses@.skip(index as int)),
            steady.any_running == (steady.ready > 0),
        decreases index,
    {
        index = index - 1;
        let container = &statuses[index];
        let ghost ahead = statuses@.skip(index as int);
        assert(ahead[0] == *container);
        assert(ahead.skip(1) =~= statuses@.skip(index + 1));
        steady.restarts = steady.restarts.counting(container);
        if let Some(waiting) = waits_for(container) {
            steady.reason = Some(waiting.to_owned());
        } else if let Some(ended) = terminated(container) {
            steady.reason = Some(exit_reason(ended));
        } else if container.ready && running(container) {
            steady.any_running = true;
            steady.ready = steady.ready + 1;
        }
    }
    assert(statuses@.skip(0) =~= statuses@);
    steady
}

/// The first condition of a kind.
pub open spec fn first_condition(
    conditions: Seq<PodCondition>,
    kind: Seq<char>,
) -> Option<PodCondition>
    decreases conditions.len(),
{
    if conditions.len() == 0 {
        None
    } else if conditions[0].type_@ == kind {
        Some(conditions[0])
    } else {
        first_condition(conditions.skip(1), kind)
    }
}

/// One of a pod's conditions, by type.
pub open spec fn condition_of(status: Option<PodStatus>, kind: Seq<char>) -> Option<PodCondition> {
    match status {
        Some(status) => match status.conditions {
            Some(conditions) => first_condition(conditions@, kind),
            None => None,
        },
        None => None,
    }
}

/// Whether one of a pod's conditions holds.
pub open spec fn condition_holds(status: Option<PodStatus>, kind: Seq<char>) -> bool {
    match condition_of(status, kind) {
        Some(condition) => condition.status@ == "True"@,
        None => false,
    }
}

/// One of a pod's conditions, by type.
pub(crate) fn condition<'a>(status: &'a Option<PodStatus>, kind: &str) -> (found: Option<
    &'a PodCondition,
>)
    ensures
        match found {
            Some(found) => condition_of(*status, kind@) == Some(*found),
            None => condition_of(*status, kind@) is None,
        },
{
    let conditions = match status {
        Some(status) => match &status.conditions {
            Some(conditions) => conditions,
            None => {
                return None;
            },
        },
        None => {
            return None;
        },
    };
    let mut i: usize = 0;
    assert(conditions@.skip(0) =~= conditions@);
    while i < conditions.len()
        invariant
            i <= conditions@.len(),
            condition_of(*status, kind@) == first_condition(conditions@.skip(i as int), kind@),
        decreases conditions@.len() - i,
    {
        assert(conditions@.skip(i as int)[0] == conditions@[i as int]);
        assert(conditions@.skip(i as int).skip(1) =~= conditions@.skip(i + 1));
        if text::same(conditions[i].type_.as_str(), kind) {
            return Some(&conditions[i]);
        }
        i = i + 1;
    }
    None
}

pub(crate) fn has_condition(status: &Option<PodStatus>, kind: &str) -> (answer: bool)
    ensures
        answer == condition_holds(*status, kind@),
{
    match condition(status, kind) {
        Some(found) => text::same(found.status.as_str(), "True"),
        None => false,
    }
}

/// The phase a pod reports, empty where it reports none.
pub open spec fn phase_text(status: Option<PodStatus>) -> Seq<char> {
    match status {
        Some(status) => match held(status.phase) {
            Some(phase) => phase,
            None => seq![],
        },
        None => seq![],
    }
}

/// The reason a pod reports, if it reports one.
pub open spec fn reason_of(status: Option<PodStatus>) -> Option<Seq<char>> {
    match status {
        Some(status) => held(status.reason),
        None => None,
    }
}

/// The status a pod has before any container is consulted: gated before the
/// reason it reports, and the reason before the phase.
pub open spec fn base_text(status: Option<PodStatus>) -> Seq<char> {
    let gated = match condition_of(status, "PodScheduled"@) {
        Some(condition) => held(condition.reason) == Some("SchedulingGated"@),
        None => false,
    };
    if gated {
        "SchedulingGated"@
    } else {
        match said(reason_of(status)) {
            Some(reason) => reason,
            None => phase_text(status),
        }
    }
}

/// The status a pod has before any container is consulted.
///
/// A reported reason outranks the phase (`Evicted` says far more than `Failed`)
/// and a gated pod outranks both: no scheduler has been allowed to consider it
/// yet.
fn base_reason(status: &Option<PodStatus>) -> (reason: String)
    ensures
        reason@ == base_text(*status),
{
    if let Some(found) = condition(status, "PodScheduled") {
        if holds(&found.reason, "SchedulingGated") {
            return "SchedulingGated".to_owned();
        }
    }
    match status {
        Some(status) => match spoken(&status.reason) {
            Some(reason) => reason.to_owned(),
            None => match &status.phase {
                Some(phase) => phase.clone(),
                None => {
                    let empty = String::new();
                    assert(empty@ =~= seq![]);
                    empty
                },
            },
        },
        None => {
            let empty = String::new();
            assert(empty@ =~= seq![]);
            empty
        },
    }
}

/// What a pod being deleted reads as, if it is being deleted at all.
pub open spec fn deletion_text(pod: Pod) -> Option<Seq<char>> {
    if pod.metadata.deletion_timestamp is None {
        None
    } else if reason_of(pod.status) == Some("NodeLost"@) {
        Some("Unknown"@)
    } else if phase_text(pod.status) == "Succeeded"@ || phase_text(pod.status) == "Failed"@ {
        None
    } else {
        Some("Terminating"@)
    }
}

/// What a pod being deleted should read as, if it is being deleted at all.
///
/// A pod on a node that stopped answering is not shutting down (nobody can
/// confirm anything about it) and a pod that already finished stopped long ago,
/// so neither should read `Terminating`.
fn deletion_reason(pod: &Pod) -> (reason: Option<String>)
    ensures
        held(reason) == deletion_text(*pod),
{
    proof {
        reveal_strlit("Succeeded");
        reveal_strlit("Failed");
        assert("Succeeded"@.len() == 9);
        assert("Failed"@.len() == 6);
    }
    if pod.metadata.deletion_timestamp.is_none() {
        return None;
    }
    if let Some(status) = &pod.status {
        if holds(&status.reason, NODE_LOST) {
            return Some("Unknown".to_owned());
        }
        if holds(&status.phase, "Succeeded") || holds(&status.phase, "Failed") {
            return None;
        }
    }
    Some("Terminating".to_owned())
}

/// How many of these containers are declared as sidecars.
pub open spec fn sidecars_among(specs: Seq<Container>) -> nat
    decreases specs.len(),
{
    if specs.len() == 0 {
        0
    } else if sidecar(specs.last()) {
        sidecars_among(specs.drop_last()) + 1
    } else {
        sidecars_among(specs.drop_last())
    }
}

/// The containers a pod's ready fraction is out of: the app containers and the
/// sidecars.
pub open spec fn expected(pod: Pod) -> nat {
    match pod.spec {
        Some(spec) => spec.containers@.len() + sidecars_among(inits_of(spec)),
        None => 0,
    }
}

/// The declared init containers of a pod.
pub open spec fn declared_inits(pod: Pod) -> Seq<Container> {
    match pod.spec {
        Some(spec) => inits_of(spec),
        None => seq![],
    }
}

/// Whether a pod's init containers hold it up. Once `Initialized` is true the
/// init phase is over, whatever the init statuses still say.
pub open spec fn held_up(pod: Pod) -> bool {
    init_reason(init_statuses(pod.status), declared_inits(pod)) is Some && !condition_holds(
        pod.status,
        "Initialized"@,
    )
}

/// How many of a pod's containers are ready: the sidecars that are, and the app
/// containers that are, unless initialisation holds the pod up.
pub open spec fn ready_count(pod: Pod) -> nat {
    let inits = init_statuses(pod.status);
    let specs = declared_inits(pod);
    let sidecars = ready_sidecars(inits.take(blocking(inits, specs)), specs);
    if held_up(pod) {
        sidecars
    } else {
        sidecars + containers_up(app_statuses(pod.status))
    }
}

/// The restarts that still matter: those of the init containers while they hold
/// the pod up, and those of the sidecars and app containers after that.
pub open spec fn restarts_that_matter(pod: Pod) -> Walked {
    let inits = init_statuses(pod.status);
    let specs = declared_inits(pod);
    if held_up(pod) {
        restarts_of(walked_inits(inits, specs))
    } else {
        sidecar_restarts_of(walked_inits(inits, specs), specs).and(
            steady_restarts(app_statuses(pod.status)),
        )
    }
}

/// What a pod's containers say of its status, before deletion is considered.
///
/// A pod whose Job container finished while another keeps running is not
/// `Completed`: there is still something on the node.
pub open spec fn container_text(pod: Pod) -> Seq<char> {
    let init = init_reason(init_statuses(pod.status), declared_inits(pod));
    let apps = app_statuses(pod.status);
    let before = match init {
        Some(reason) => reason,
        None => base_text(pod.status),
    };
    if held_up(pod) {
        before
    } else {
        let current = match steady_reason(apps) {
            Some(reason) => reason,
            None => before,
        };
        if current == "Completed"@ && containers_up(apps) > 0 {
            if condition_holds(pod.status, "Ready"@) {
                "Running"@
            } else {
                "NotReady"@
            }
        } else {
            current
        }
    }
}

/// A pod's `STATUS`. One with nothing to say reads `Unknown`.
pub open spec fn status_text(pod: Pod) -> Seq<char> {
    let reason = match deletion_text(pod) {
        Some(deleted) => deleted,
        None => container_text(pod),
    };
    if reason.len() == 0 {
        "Unknown"@
    } else {
        reason
    }
}

/// What the container statuses add up to.
pub(crate) struct Derived {
    pub(crate) status: String,
    pub(crate) ready: u128,
    pub(crate) total: u128,
    pub(crate) restarts: Walked,
}

fn count_sidecars(specs: &[Container]) -> (count: u128)
    ensures
        count == sidecars_among(specs@),
        count <= usize::MAX,
{
    let mut count: u128 = 0;
    let mut i: usize = 0;
    while i < specs.len()
        invariant
            i <= specs@.len(),
            count == sidecars_among(specs@.take(i as int)),
            count <= i,
        decreases specs@.len() - i,
    {
        assert(specs@.take(i + 1).drop_last() =~= specs@.take(i as int));
        if is_sidecar(&specs[i]) {
            count = count + 1;
        }
        i = i + 1;
    }
    assert(specs@.take(i as int) =~= specs@);
    count
}

/// The restarts of two groups of containers together.
fn together(left: Walked, right: Walked) -> (both: Walked)
    ensures
        both == left.and(right),
{
    Walked {
        restarts: add_restarts(left.restarts, right.restarts),
        last: newest(left.last, right.last),
    }
}

/// Walk a pod's containers the way `kubectl get pods` does.
pub(crate) fn derive(pod: &Pod) -> (derived: Derived)
    ensures
        derived.status@ == status_text(*pod),
        derived.ready == ready_count(*pod),
        derived.total == expected(*pod),
        derived.restarts == restarts_that_matter(*pod),
{
    let no_containers: Vec<Container> = Vec::new();
    let no_statuses: Vec<ContainerStatus> = Vec::new();
    assert(no_containers@ =~= seq![]);
    assert(no_statuses@ =~= seq![]);
    let init_specs: &Vec<Container> = match &pod.spec {
        Some(spec) => match &spec.init_containers {
            Some(inits) => inits,
            None => &no_containers,
        },
        None => &no_containers,
    };
    assert(init_specs@ == declared_inits(*pod));
    let apps: u128 = match &pod.spec {
        Some(spec) => spec.containers.len() as u128,
        None => 0,
    };
    let total: u128 = apps + count_sidecars(init_specs);
    let inits: &Vec<ContainerStatus> = match &pod.status {
        Some(status) => match &status.init_container_statuses {
            Some(statuses) => statuses,
            None => &no_statuses,
        },
        None => &no_statuses,
    };
    let app_list: &Vec<ContainerStatus> = match &pod.status {
        Some(status) => match &status.container_statuses {
            Some(statuses) => statuses,
            None => &no_statuses,
        },
        None => &no_statuses,
    };
    let init = init_phase(inits, init_specs);
    let mut ready: u128 = init.ready;
    let mut restarts = init.restarts;
    let blocked = init.reason.is_some();
    let mut reason: String = match init.reason {
        Some(reason) => reason,
        None => base_reason(&pod.status),
    };
    if !blocked || has_condition(&pod.status, "Initialized") {
        let steady = steady_state(app_list);
        ready = ready + steady.ready;
        restarts = together(init.sidecars, steady.restarts);
        if let Some(current) = steady.reason {
            reason = current;
        }
        if text::same(reason.as_str(), "Completed") && steady.any_running {
            reason = if has_condition(&pod.status, "Ready") {
                "Running".to_owned()
            } else {
                "NotReady".to_owned()
            };
        }
    }
    assert(reason@ == container_text(*pod));
    if let Some(deleted) = deletion_reason(pod) {
        reason = deleted;
    }
    let status = if reason.as_str().is_empty() {
        "Unknown".to_owned()
    } else {
        reason
    };
    Derived { status, ready, total, restarts }
}

/// The sidecars among these containers.
pub open spec fn sidecars_only(
    statuses: Seq<ContainerStatus>,
    specs: Seq<Container>,
) -> Seq<ContainerStatus>
    decreases statuses.len(),
{
    if statuses.len() == 0 {
        seq![]
    } else if names_sidecar(specs, statuses.last().name@) {
        sidecars_only(statuses.drop_last(), specs).push(statuses.last())
    } else {
        sidecars_only(statuses.drop_last(), specs)
    }
}

/// The containers whose restarts still matter.
pub open spec fn counted(pod: Pod) -> Seq<ContainerStatus> {
    let specs = declared_inits(pod);
    let walked = walked_inits(init_statuses(pod.status), specs);
    if held_up(pod) {
        walked
    } else {
        sidecars_only(walked, specs) + app_statuses(pod.status)
    }
}

/// The newest moment at which one of these containers ended before.
pub open spec fn newest_of(statuses: Seq<ContainerStatus>) -> Option<Timestamp>
    decreases statuses.len(),
{
    if statuses.len() == 0 {
        None
    } else {
        later(newest_of(statuses.drop_last()), last_ended(statuses.last()))
    }
}

/// The restarts of these containers together.
pub open spec fn restart_sum(statuses: Seq<ContainerStatus>) -> int
    decreases statuses.len(),
{
    if statuses.len() == 0 {
        0
    } else {
        restart_sum(statuses.drop_last()) + statuses.last().restart_count
    }
}

/// Whether no container reports a negative number of restarts.
pub open spec fn no_debts(statuses: Seq<ContainerStatus>) -> bool {
    forall|i: int| 0 <= i < statuses.len() ==> (#[trigger] statuses[i]).restart_count >= 0
}

proof fn lemma_walked_from_first(statuses: Seq<ContainerStatus>)
    ensures
        restarts_of(statuses).last == newest_of(statuses),
        no_debts(statuses) ==> 0 <= restart_sum(statuses),
        no_debts(statuses) && restart_sum(statuses) <= i32::MAX ==> restarts_of(statuses).restarts
            == restart_sum(statuses),
    decreases statuses.len(),
{
    if statuses.len() > 0 {
        let before = statuses.drop_last();
        lemma_walked_from_first(before);
        if no_debts(statuses) {
            assert(statuses[statuses.len() - 1].restart_count >= 0);
            assert forall|i: int| 0 <= i < before.len() implies (#[trigger] before[i]).restart_count
                >= 0 by {
                assert(before[i] == statuses[i]);
            }
        }
    }
}

proof fn lemma_sidecars_walked(statuses: Seq<ContainerStatus>, specs: Seq<Container>)
    ensures
        sidecar_restarts_of(statuses, specs) == restarts_of(sidecars_only(statuses, specs)),
    decreases statuses.len(),
{
    if statuses.len() > 0 {
        lemma_sidecars_walked(statuses.drop_last(), specs);
        let before = sidecars_only(statuses.drop_last(), specs);
        assert(before.push(statuses.last()).drop_last() =~= before);
    }
}

proof fn lemma_walks_join(left: Seq<ContainerStatus>, right: Seq<ContainerStatus>)
    ensures
        newest_of(left + right) == later(newest_of(left), newest_of(right)),
        restart_sum(left + right) == restart_sum(left) + restart_sum(right),
    decreases right.len(),
{
    if right.len() == 0 {
        assert(left + right =~= left);
    } else {
        lemma_walks_join(left, right.drop_last());
        assert((left + right).drop_last() =~= left + right.drop_last());
    }
}

proof fn lemma_walked_from_last(statuses: Seq<ContainerStatus>)
    ensures
        steady_restarts(statuses).last == newest_of(statuses),
        no_debts(statuses) && restart_sum(statuses) <= i32::MAX ==> steady_restarts(
            statuses,
        ).restarts == restart_sum(statuses),
    decreases statuses.len(),
{
    if statuses.len() > 0 {
        let first = seq![statuses[0]];
        let rest = statuses.skip(1);
        lemma_walked_from_last(rest);
        lemma_walks_join(first, rest);
        lemma_walked_from_first(rest);
        assert(first + rest =~= statuses);
        assert(first.drop_last() =~= seq![]);
        assert(newest_of(first) == last_ended(statuses[0])) by {
            assert(newest_of(first.drop_last()) is None);
        }
        assert(restart_sum(first) == statuses[0].restart_count) by {
            assert(restart_sum(first.drop_last()) == 0);
        }
        if no_debts(statuses) {
            assert(statuses[0].restart_count >= 0);
            assert forall|i: int| 0 <= i < rest.len() implies (#[trigger] rest[i]).restart_count
                >= 0 by {
                assert(rest[i] == statuses[i + 1]);
            }
        }
    }
}

/// The two halves of the restarts cell are about the same containers: the moment
/// is that of the newest restart among exactly those whose restarts are counted,
/// and the count is theirs.
pub proof fn law_restarts_are_of_one_set(pod: Pod)
    ensures
        restarts_that_matter(pod).last == newest_of(counted(pod)),
        no_debts(counted(pod)) && restart_sum(counted(pod)) <= i32::MAX ==> restarts_that_matter(
            pod,
        ).restarts == restart_sum(counted(pod)),
{
    let specs = declared_inits(pod);
    let walked = walked_inits(init_statuses(pod.status), specs);
    let sidecars = sidecars_only(walked, specs);
    let apps = app_statuses(pod.status);
    lemma_walked_from_first(walked);
    lemma_sidecars_walked(walked, specs);
    lemma_walked_from_first(sidecars);
    lemma_walked_from_first(apps);
    lemma_walked_from_last(apps);
    lemma_walks_join(sidecars, apps);
    if !held_up(pod) && no_debts(counted(pod)) {
        let both = sidecars + apps;
        assert forall|i: int| 0 <= i < sidecars.len() implies (#[trigger] sidecars[i]).restart_count
            >= 0 by {
            assert(both[i] == sidecars[i]);
        }
        assert forall|i: int| 0 <= i < apps.len() implies (#[trigger] apps[i]).restart_count
            >= 0 by {
            assert(both[sidecars.len() + i] == apps[i]);
        }
    }
}

/// Whether what follows `Init:` is the `<n>/<total>` progress form rather than a
/// reason a container gave.
pub open spec fn is_progress(text: Seq<char>) -> bool {
    let slash = find(text, '/');
    &&& slash < text.len()
    &&& slash > 0
    &&& slash + 1 < text.len()
    &&& all_digits(text.take(slash))
    &&& all_digits(text.skip(slash + 1))
}

/// How alarming a status is.
pub open spec fn severity_of(status: Seq<char>, ready: int, total: int) -> Severity {
    let initialising = "Init:"@.is_prefix_of(status);
    let reason = if initialising {
        status.skip("Init:"@.len() as int)
    } else {
        status
    };
    if reason == "Unknown"@ {
        Severity::Unknown
    } else if !initialising && (reason == "Completed"@ || reason == "Succeeded"@) {
        Severity::Okay
    } else if !initialising && reason == "Running"@ && total > 0 && ready == total {
        Severity::Okay
    } else if reason == "Running"@ || reason == "Pending"@ || reason == "ContainerCreating"@
        || reason == "PodInitializing"@ || reason == "Terminating"@ || reason == "SchedulingGated"@
        || reason == "NotReady"@ {
        Severity::Warn
    } else if initialising && is_progress(reason) {
        Severity::Warn
    } else {
        Severity::Critical
    }
}

/// How alarming a status is.
///
/// The calm words are listed, the settling ones are listed, and everything else
/// is treated as a problem: a new failure reason no one here has heard of
/// should arrive coloured as a failure rather than quietly as fine.
#[must_use]
pub fn severity(status: &str, ready: u128, total: u128) -> (severity: Severity)
    ensures
        severity == severity_of(status@, ready as int, total as int),
{
    let initialising = text::starts_with(status, "Init:");
    let start = if initialising {
        "Init:".unicode_len()
    } else {
        0
    };
    let length = status.unicode_len();
    let reason = status.substring_char(start, length);
    assert(initialising ==> reason@ =~= status@.skip("Init:"@.len() as int));
    assert(!initialising ==> reason@ =~= status@);
    if text::same(reason, "Unknown") {
        return Severity::Unknown;
    }
    if !initialising && (text::same(reason, "Completed") || text::same(reason, "Succeeded")) {
        return Severity::Okay;
    }
    if !initialising && text::same(reason, "Running") && total > 0 && ready == total {
        return Severity::Okay;
    }
    if text::same(reason, "Running") || text::same(reason, "Pending") || text::same(
        reason,
        "ContainerCreating",
    ) || text::same(reason, "PodInitializing") || text::same(reason, "Terminating") || text::same(
        reason,
        "SchedulingGated",
    ) || text::same(reason, "NotReady") {
        return Severity::Warn;
    }
    if initialising && is_init_progress(reason) {
        return Severity::Warn;
    }
    Severity::Critical
}

/// What reads calm has earned it: a pod that ended well, or one that runs with
/// every container it is expected to have ready.
pub proof fn law_calm_is_earned(status: Seq<char>, ready: int, total: int)
    ensures
        severity_of(status, ready, total) is Okay <==> status == "Completed"@ || status
            == "Succeeded"@ || (status == "Running"@ && total > 0 && ready == total),
{
    reveal_strlit("Init:");
    reveal_strlit("Completed");
    reveal_strlit("Succeeded");
    reveal_strlit("Running");
    reveal_strlit("Unknown");
    if "Init:"@.is_prefix_of(status) {
        assert(status.subrange(0, 5)[0] == "Init:"@[0]);
        assert(status[0] == 'I');
        assert("Completed"@[0] == 'C' && "Succeeded"@[0] == 'S' && "Running"@[0] == 'R');
    }
    assert("Completed"@[0] != "Unknown"@[0]);
    assert("Succeeded"@[0] != "Unknown"@[0]);
    assert("Running"@[0] != "Unknown"@[0]);
}

fn is_init_progress(reason: &str) -> (answer: bool)
    ensures
        answer == is_progress(reason@),
{
    let chars = text::chars_of(reason);
    let slash = text::find_char(&chars, '/');
    if slash >= chars.len() || slash == 0 || slash + 1 >= chars.len() {
        return false;
    }
    let done = vstd::slice::slice_subrange(chars.as_slice(), 0, slash);
    let total = vstd::slice::slice_subrange(chars.as_slice(), slash + 1, chars.len());
    assert(done@ =~= reason@.take(slash as int));
    assert(total@ =~= reason@.skip(slash + 1));
    text::only_digits(done) && text::only_digits(total)
}

} // verus!
