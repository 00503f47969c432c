//! One pod's containers, a row each.
//!
//! [`crate::k8s::pods::status`] derives a single status for the whole pod,
//! picking one container's story to tell when several disagree. Here every
//! container speaks for itself.

use vstd::prelude::*;
use vstd::string::*;

use crate::k8s::api::{Container, ContainerStatus, Pod};
use crate::k8s::pods::row::{or_dash, UNKNOWN};
use crate::k8s::pods::status::{
    app_statuses, declared_inits, exit_reason, exit_text, init_statuses, said, spoken,
};
use crate::k8s::pods::held;
use crate::text;
use crate::text::decimal;
use crate::theme::Severity;

verus! {

/// One container, app or init, as a row.
#[derive(Debug, Clone, PartialEq, Eq)]
pub struct ContainerRow {
    pub name: String,
    /// The image this container is running, or will run. Read from the
    /// container's own status once the kubelet has resolved one, falling back
    /// to the pod spec for a container nothing has reported on yet.
    pub image: String,
    /// Whether this is an init container.
    pub init: bool,
    pub ready: bool,
    pub restarts: i32,
    /// A short sentence: `Running`, `Waiting: CrashLoopBackOff`, `Terminated:
    /// OOMKilled (137)`.
    pub state: String,
    pub severity: Severity,
}

/// The first status reported for a named container, if any.
pub open spec fn status_named(statuses: Seq<ContainerStatus>, name: Seq<char>) -> Option<
    ContainerStatus,
>
    decreases statuses.len(),
{
    if statuses.len() == 0 {
        None
    } else if statuses[0].name@ == name {
        Some(statuses[0])
    } else {
        status_named(statuses.skip(1), name)
    }
}

/// Which image to show: the status's own resolved one, or what the spec asked
/// for, or a dash.
pub open spec fn image_text(declared: Option<Seq<char>>, resolved: Seq<char>) -> Seq<char> {
    if resolved.len() > 0 {
        resolved
    } else {
        or_dash(said(declared))
    }
}

/// What one container's current state reads as, and how alarming it is.
pub open spec fn state_of(status: ContainerStatus) -> (Seq<char>, Severity) {
    match status.state {
        None => ("Unknown"@, Severity::Unknown),
        Some(state) => if state.running is Some {
            (
                "Running"@,
                if status.ready {
                    Severity::Okay
                } else {
                    Severity::Warn
                },
            )
        } else if state.waiting is Some {
            let reason = match said(held(state.waiting->0.reason)) {
                Some(reason) => reason,
                None => "Waiting"@,
            };
            (
                "Waiting: "@ + reason,
                if reason == "ContainerCreating"@ || reason == "PodInitializing"@ {
                    Severity::Warn
                } else {
                    Severity::Critical
                },
            )
        } else if state.terminated is Some {
            let terminated = state.terminated->0;
            (
                "Terminated: "@ + exit_text(terminated) + " ("@ + decimal(
                    terminated.exit_code as int,
                ) + ")"@,
                if terminated.exit_code == 0 {
                    Severity::Okay
                } else {
                    Severity::Critical
                },
            )
        } else {
            ("Unknown"@, Severity::Unknown)
        },
    }
}

/// Whether a row is what a declared container reduces to, given what has been
/// reported. One that nothing has been reported of is going to run, only not
/// yet: it waits.
pub open spec fn describes(
    row: ContainerRow,
    declared: Container,
    statuses: Seq<ContainerStatus>,
    init: bool,
) -> bool {
    &&& row.name@ == declared.name@
    &&& row.init == init
    &&& match status_named(statuses, declared.name@) {
        None => {
            &&& row.image@ == image_text(held(declared.image), seq![])
            &&& !row.ready
            &&& row.restarts == 0
            &&& row.state@ == "Waiting"@
            &&& row.severity == Severity::Warn
        },
        Some(status) => {
            &&& row.image@ == image_text(held(declared.image), status.image@)
            &&& row.ready == status.ready
            &&& row.restarts == status.restart_count
            &&& row.state@ == state_of(status).0
            &&& row.severity == state_of(status).1
        },
    }
}

/// The app containers a pod declares.
pub open spec fn declared_apps(pod: Pod) -> Seq<Container> {
    match pod.spec {
        Some(spec) => spec.containers@,
        None => seq![],
    }
}

impl ContainerRow {
    /// Every container a pod declares: init containers first in spec order,
    /// then app containers, each paired with its status if the kubelet has
    /// reported one yet.
    ///
    /// A pod with no spec at all has no containers rather than a placeholder
    /// row.
    #[must_use]
    pub fn from_pod(pod: &Pod) -> (rows: Vec<Self>)
        ensures
            rows@.len() == declared_inits(*pod).len() + declared_apps(*pod).len(),
            forall|i: int|
                0 <= i < declared_inits(*pod).len() ==> describes(
                    #[trigger] rows@[i],
                    declared_inits(*pod)[i],
                    init_statuses(pod.status),
                    true,
                ),
            forall|i: int|
                0 <= i < declared_apps(*pod).len() ==> describes(
                    #[trigger] rows@[declared_inits(*pod).len() + i],
                    declared_apps(*pod)[i],
                    app_statuses(pod.status),
                    false,
                ),
    {
        let mut rows: Vec<Self> = Vec::new();
        let spec = match &pod.spec {
            Some(spec) => spec,
            None => {
                return rows;
            },
        };
        let no_statuses: Vec<ContainerStatus> = Vec::new();
        assert(no_statuses@ =~= seq![]);
        let inits: &Vec<ContainerStatus> = match &pod.status {
            Some(status) => match &status.init_container_statuses {
                Some(statuses) => statuses,
                None => &no_statuses,
            },
            None => &no_statuses,
        };
        let apps: &Vec<ContainerStatus> = match &pod.status {
            Some(status) => match &status.container_statuses {
                Some(statuses) => statuses,
                None => &no_statuses,
            },
            None => &no_statuses,
        };
        if let Some(declared) = &spec.init_containers {
            let mut i: usize = 0;
            while i < declared.len()
                invariant
                    i <= declared@.len(),
                    rows@.len() == i,
                    forall|j: int|
                        0 <= j < i ==> describes(#[trigger] rows@[j], declared@[j], inits@, true),
                decreases declared@.len() - i,
            {
                rows.push(Self::build(&declared[i], inits, true));
                i = i + 1;
            }
        }
        let ghost before = rows@;
        let ghost count = declared_inits(*pod).len();
        assert(before.len() == count);
        let mut i: usize = 0;
        while i < spec.containers.len()
            invariant
                i <= spec.containers@.len(),
                rows@.len() == count + i,
                count == before.len(),
                forall|j: int| 0 <= j < count ==> #[trigger] rows@[j] == before[j],
                forall|j: int|
                    0 <= j < i ==> describes(
                        #[trigger] rows@[count + j],
                        spec.containers@[j],
                        apps@,
                        false,
                    ),
            decreases spec.containers@.len() - i,
        {
            rows.push(Self::build(&spec.containers[i], apps, false));
            i = i + 1;
        }
        rows
    }

    fn build(declared: &Container, statuses: &[ContainerStatus], init: bool) -> (row: Self)
        ensures
            describes(row, *declared, statuses@, init),
    {
        let status = match find(statuses, declared.name.as_str()) {
            Some(status) => status,
            None => {
                let row = ContainerRow {
                    name: declared.name.clone(),
                    image: image(&declared.image, ""),
                    init,
                    ready: false,
                    restarts: 0,
                    state: "Waiting".to_owned(),
                    severity: Severity::Warn,
                };
                proof {
                    reveal_strlit("");
                    assert(""@ =~= seq![]);
                }
                return row;
            },
        };
        let (state, severity) = state_text(status);
        ContainerRow {
            name: status.name.clone(),
            image: image(&declared.image, status.image.as_str()),
            init,
            ready: status.ready,
            restarts: status.restart_count,
            state,
            severity,
        }
    }
}

/// The status the API server reported for one named container, if any.
fn find<'a>(statuses: &'a [ContainerStatus], name: &str) -> (found: Option<&'a ContainerStatus>)
    ensures
        match found {
            Some(found) => status_named(statuses@, name@) == Some(*found) && found.name@ == name@,
            None => status_named(statuses@, name@) is None,
        },
{
    let mut i: usize = 0;
    assert(statuses@.skip(0) =~= statuses@);
    while i < statuses.len()
        invariant
            i <= statuses@.len(),
            status_named(statuses@, name@) == status_named(statuses@.skip(i as int), name@),
        decreases statuses@.len() - i,
    {
        assert(statuses@.skip(i as int)[0] == statuses@[i as int]);
        assert(statuses@.skip(i as int).skip(1) =~= statuses@.skip(i + 1));
        if text::same(statuses[i].name.as_str(), name) {
            return Some(&statuses[i]);
        }
        i = i + 1;
    }
    None
}

/// Which image to show: the status's own resolved one, falling back to what
/// the spec asked for when the kubelet has not filled the status in.
fn image(declared: &Option<String>, resolved: &str) -> (image: String)
    ensures
        image@ == image_text(held(*declared), resolved@),
{
    if !resolved.is_empty() {
        return resolved.to_owned();
    }
    match spoken(declared) {
        Some(image) => image.to_owned(),
        None => UNKNOWN.to_owned(),
    }
}

/// What one container's current state reads as, and how alarming it is.
///
/// A pod's `Running` only reads calm once every container is ready. Here each
/// container is its own row, so its own readiness is the only thing that bears
/// on its own colour. The kubelet says `ContainerCreating` and `PodInitializing`
/// on the way up, so those are progress rather than a problem.
fn state_text(status: &ContainerStatus) -> (described: (String, Severity))
    ensures
        described.0@ == state_of(*status).0,
        described.1 == state_of(*status).1,
{
    let state = match &status.state {
        Some(state) => state,
        None => {
            return ("Unknown".to_owned(), Severity::Unknown);
        },
    };
    if state.running.is_some() {
        return (
            "Running".to_owned(),
            if status.ready {
                Severity::Okay
            } else {
                Severity::Warn
            },
        );
    }
    if let Some(waiting) = &state.waiting {
        let reason = match spoken(&waiting.reason) {
            Some(reason) => reason,
            None => "Waiting",
        };
        let severity = if text::same(reason, "ContainerCreating") || text::same(
            reason,
            "PodInitializing",
        ) {
            Severity::Warn
        } else {
            Severity::Critical
        };
        return ("Waiting: ".to_owned().concat(reason), severity);
    }
    if let Some(terminated) = &state.terminated {
        let severity = if terminated.exit_code == 0 {
            Severity::Okay
        } else {
            Severity::Critical
        };
        return (
            "Terminated: ".to_owned().concat(exit_reason(terminated).as_str()).concat(" (").concat(
                text::show_integer(terminated.exit_code as i128).as_str(),
            ).concat(")"),
            severity,
        );
    }
    ("Unknown".to_owned(), Severity::Unknown)
}

} // verus!
