//! One pod, reduced to a row, and the table of them.
//!
//! The columns are lookups, but for the status and what goes with it: see
//! [`crate::k8s::pods::status`]. Everything here is a function of a pod and an
//! explicit `now`.

use vstd::prelude::*;
use vstd::string::*;

use crate::format::{
    all_widths, column_width, duration_text, headings, percentage_text, table_text, total_width,
    Width,
};
use crate::k8s::api::{Pod, PodReadinessGate, PodStatus};
use crate::k8s::metrics::Usage;
use crate::k8s::pods::status;
use crate::k8s::pods::status::{
    condition_holds, expected, ready_count, restarts_that_matter, said, severity_of, status_text,
};
use crate::k8s::pods::{booked_by, effective_requests, held, Scope, Selectors};
use crate::k8s::quantity;
use crate::k8s::quantity::{cpu_text, memory_text, Quantity, Ratio};
use crate::text;
use crate::text::{debug_form, decimal, decimal_nat, joined, texts};
use crate::theme::Severity;
use crate::time::{seconds_between, Timestamp};

verus! {

/// Shown wherever the API server left a field empty.
pub const UNKNOWN: &'static str = "-";

/// One pod, as a table row.
#[derive(Debug, Clone, PartialEq, Eq)]
pub struct PodRow {
    pub namespace: String,
    pub name: String,
    /// Containers ready over containers expected, `kubectl`'s `1/2`.
    pub ready: String,
    /// `kubectl`'s wording.
    pub status: String,
    /// How alarming that status is.
    pub severity: Severity,
    pub restarts: i32,
    /// How long before `now` the newest surviving restart finished, formatted
    /// the way [`PodRow::age`] is. `None` for a pod that has never restarted.
    pub restart_age: Option<String>,
    /// The same moment, unformatted, for sorting.
    pub last_restart: Option<Timestamp>,
    pub age: String,
    /// The moment the pod was created, unformatted, for sorting.
    pub created_at: Option<Timestamp>,
    /// Cores the pod is actually burning. `None` where there is no figure, which
    /// is never a zero: that would draw an idle pod.
    pub cpu_used: Option<Quantity>,
    /// Memory the pod is actually holding.
    pub memory_used: Option<Quantity>,
    /// Cores the pod asked for, the denominator `cpu_used` is shown against.
    /// Zero where nothing in the pod set a request.
    pub cpu_requested: Quantity,
    /// Memory the pod asked for.
    pub memory_requested: Quantity,
    /// The node the pod landed on, or `-` while it is still unscheduled.
    pub node: String,
    /// The address the pod answers on, or `-` before one is assigned.
    pub ip: String,
    /// The node the scheduler has earmarked for this pod while it evicts
    /// something to make room, or `-`.
    pub nominated_node: String,
    /// How many of the pod's readiness gates are satisfied, as `1/2`. `None` for
    /// a pod with no gates.
    pub readiness_gates: Option<String>,
}

/// A text, or a dash where it is missing.
pub open spec fn or_dash(text: Option<Seq<char>>) -> Seq<char> {
    match text {
        Some(text) => text,
        None => "-"@,
    }
}

/// The address of a pod: the first of the list, or the single one where there is
/// no list. An empty one counts as none.
pub open spec fn address_of(pod: Pod) -> Option<Seq<char>> {
    match pod.status {
        Some(status) => match status.pod_ips {
            Some(ips) => if ips@.len() > 0 {
                said(Some(ips@[0].ip@))
            } else {
                said(held(status.pod_ip))
            },
            None => said(held(status.pod_ip)),
        },
        None => None,
    }
}

/// How many of these gates a pod's conditions satisfy.
pub open spec fn gates_met(gates: Seq<PodReadinessGate>, status: Option<PodStatus>) -> nat
    decreases gates.len(),
{
    if gates.len() == 0 {
        0
    } else if condition_holds(status, gates.last().condition_type@) {
        gates_met(gates.drop_last(), status) + 1
    } else {
        gates_met(gates.drop_last(), status)
    }
}

/// How many of a pod's readiness gates are satisfied, in words, if it has any.
pub open spec fn gates_text(pod: Pod) -> Option<Seq<char>> {
    match pod.spec {
        Some(spec) => match spec.readiness_gates {
            Some(gates) => if gates@.len() > 0 {
                Some(
                    decimal_nat(gates_met(gates@, pod.status)) + "/"@ + decimal_nat(gates@.len()),
                )
            } else {
                None
            },
            None => None,
        },
        None => None,
    }
}

/// How long before `now` a moment was, in words, if it is known.
pub open spec fn ago_text(at: Option<Timestamp>, now: Timestamp) -> Option<Seq<char>> {
    match at {
        Some(at) => Some(duration_text(seconds_between(at, now))),
        None => None,
    }
}

/// The node a pod was assigned, if it names one.
pub open spec fn assigned_node(pod: Pod) -> Option<Seq<char>> {
    match pod.spec {
        Some(spec) => said(held(spec.node_name)),
        None => None,
    }
}

/// The node a pod was nominated to, if it names one.
pub open spec fn nominated_to(pod: Pod) -> Option<Seq<char>> {
    match pod.status {
        Some(status) => said(held(status.nominated_node_name)),
        None => None,
    }
}

/// Whether a row is what a pod reduces to, as of `now`.
pub open spec fn describes(row: PodRow, pod: Pod, used: Option<Usage>, now: Timestamp) -> bool {
    &&& row.namespace@ == or_dash(held(pod.metadata.namespace))
    &&& row.name@ == or_dash(held(pod.metadata.name))
    &&& row.ready@ == decimal_nat(ready_count(pod)) + "/"@ + decimal_nat(expected(pod))
    &&& row.status@ == status_text(pod)
    &&& row.severity == severity_of(
        status_text(pod),
        ready_count(pod) as int,
        expected(pod) as int,
    )
    &&& row.restarts == restarts_that_matter(pod).restarts
    &&& row.last_restart == restarts_that_matter(pod).last
    &&& held(row.restart_age) == ago_text(restarts_that_matter(pod).last, now)
    &&& row.created_at == pod.metadata.creation_timestamp
    &&& row.age@ == or_dash(ago_text(pod.metadata.creation_timestamp, now))
    &&& row.cpu_used == match used {
        Some(used) => used.cpu,
        None => None,
    }
    &&& row.memory_used == match used {
        Some(used) => used.memory,
        None => None,
    }
    &&& row.cpu_requested == booked_by(pod).cpu
    &&& row.memory_requested == booked_by(pod).memory
    &&& row.node@ == or_dash(assigned_node(pod))
    &&& row.ip@ == or_dash(address_of(pod))
    &&& row.nominated_node@ == or_dash(nominated_to(pod))
    &&& held(row.readiness_gates) == gates_text(pod)
}

fn dash_or(text: Option<&str>) -> (shown: String)
    ensures
        shown@ == or_dash(
            match text {
                Some(text) => Some(text@),
                None => None,
            },
        ),
{
    match text {
        Some(text) => text.to_owned(),
        None => UNKNOWN.to_owned(),
    }
}

fn plain(text: &Option<String>) -> (shown: String)
    ensures
        shown@ == or_dash(held(*text)),
{
    match text {
        Some(text) => text.clone(),
        None => UNKNOWN.to_owned(),
    }
}

fn ago(at: Option<Timestamp>, now: Timestamp) -> (age: Option<String>)
    ensures
        held(age) == ago_text(at, now),
{
    match at {
        Some(at) => Some(crate::format::human_duration(now.seconds_since(at))),
        None => None,
    }
}

impl PodRow {
    /// Build a row from a `Pod`, as of `now`.
    ///
    /// `now` is a parameter so that every row in one listing shares a single
    /// instant. `used` is what metrics-server last sampled for this pod, summed
    /// across its containers, if anything.
    #[must_use]
    pub fn from_pod(pod: &Pod, used: Option<Usage>, now: Timestamp) -> (row: Self)
        ensures
            describes(row, *pod, used, now),
    {
        let derived = status::derive(pod);
        let requested = effective_requests(pod);
        let created_at = pod.metadata.creation_timestamp;
        let severity = status::severity(derived.status.as_str(), derived.ready, derived.total);
        let node = match &pod.spec {
            Some(spec) => dash_or(status::spoken(&spec.node_name)),
            None => dash_or(None),
        };
        let nominated_node = match &pod.status {
            Some(status) => dash_or(status::spoken(&status.nominated_node_name)),
            None => dash_or(None),
        };
        PodRow {
            namespace: plain(&pod.metadata.namespace),
            name: plain(&pod.metadata.name),
            ready: fraction(derived.ready, derived.total),
            status: derived.status,
            severity,
            restarts: derived.restarts.restarts,
            restart_age: ago(derived.restarts.last, now),
            last_restart: derived.restarts.last,
            age: plain(&ago(created_at, now)),
            created_at,
            cpu_used: match used {
                Some(used) => used.cpu,
                None => None,
            },
            memory_used: match used {
                Some(used) => used.memory,
                None => None,
            },
            cpu_requested: requested.cpu,
            memory_requested: requested.memory,
            node,
            ip: pod_ip(pod),
            nominated_node,
            readiness_gates: readiness_gates(pod),
        }
    }
}

fn fraction(part: u128, whole: u128) -> (text: String)
    ensures
        text@ == decimal_nat(part as nat) + "/"@ + decimal_nat(whole as nat),
{
    text::show_natural(part).concat("/").concat(text::show_natural(whole).as_str())
}

/// The pod's address, preferring the dual-stack list.
///
/// Only the list can hold the IPv6 address of a dual-stack pod, and its first
/// entry is the one matching the pod's primary IP family. Falling back covers
/// the pod whose kubelet is older than the list field.
fn pod_ip(pod: &Pod) -> (ip: String)
    ensures
        ip@ == or_dash(address_of(*pod)),
{
    let status = match &pod.status {
        Some(status) => status,
        None => {
            return dash_or(None);
        },
    };
    if let Some(ips) = &status.pod_ips {
        if ips.len() > 0 {
            if ips[0].ip.as_str().is_empty() {
                return dash_or(None);
            }
            return dash_or(Some(ips[0].ip.as_str()));
        }
    }
    dash_or(status::spoken(&status.pod_ip))
}

/// How many of the pod's readiness gates its conditions satisfy, as `1/2`.
///
/// `None` when the pod declares no gates. A gate whose condition the API server
/// has not recorded at all counts as unsatisfied.
fn readiness_gates(pod: &Pod) -> (text: Option<String>)
    ensures
        held(text) == gates_text(*pod),
{
    let gates = match &pod.spec {
        Some(spec) => match &spec.readiness_gates {
            Some(gates) => gates,
            None => {
                return None;
            },
        },
        None => {
            return None;
        },
    };
    if gates.len() == 0 {
        return None;
    }
    let mut satisfied: u128 = 0;
    let mut i: usize = 0;
    while i < gates.len()
        invariant
            i <= gates@.len(),
            satisfied <= i,
            satisfied == gates_met(gates@.take(i as int), pod.status),
        decreases gates@.len() - i,
    {
        assert(gates@.take(i + 1).drop_last() =~= gates@.take(i as int));
        if status::has_condition(&pod.status, gates[i].condition_type.as_str()) {
            satisfied = satisfied + 1;
        }
        i = i + 1;
    }
    assert(gates@.take(i as int) =~= gates@);
    Some(fraction(satisfied, gates.len() as u128))
}

/// Whether a row has live usage.
pub open spec fn has_usage(row: PodRow) -> bool {
    row.cpu_used is Some || row.memory_used is Some
}

/// Whether any of these rows has live usage.
pub open spec fn any_usage(rows: Seq<PodRow>) -> bool {
    exists|i: int| 0 <= i < rows.len() && has_usage(#[trigger] rows[i])
}

/// Whether a listing has live usage worth two columns.
///
/// A cluster with no metrics-server gains no empty columns. One row is enough,
/// so one pod the sampler has not reached does not cost everyone else their
/// figures.
#[must_use]
pub fn shows_usage(rows: &[PodRow]) -> (answer: bool)
    ensures
        answer == any_usage(rows@),
{
    let mut i: usize = 0;
    while i < rows.len()
        invariant
            i <= rows@.len(),
            forall|j: int| 0 <= j < i ==> !has_usage(#[trigger] rows@[j]),
        decreases rows@.len() - i,
    {
        if rows[i].cpu_used.is_some() || rows[i].memory_used.is_some() {
            assert(has_usage(rows@[i as int]));
            return true;
        }
        i = i + 1;
    }
    false
}

/// Whether usage is shown against a request: there is a figure, and something to
/// divide it by.
pub open spec fn is_pair(used: Option<Quantity>, requested: Quantity) -> bool {
    used is Some && requested.thousandths > 0
}

/// Whether any of these rows shows CPU against a request.
pub open spec fn any_cpu_pair(rows: Seq<PodRow>) -> bool {
    exists|i: int|
        0 <= i < rows.len() && is_pair((#[trigger] rows[i]).cpu_used, rows[i].cpu_requested)
}

/// Whether any of these rows shows memory against a request.
pub open spec fn any_memory_pair(rows: Seq<PodRow>) -> bool {
    exists|i: int|
        0 <= i < rows.len() && is_pair((#[trigger] rows[i]).memory_used, rows[i].memory_requested)
}

fn pairs(used: Option<Quantity>, requested: Quantity) -> (answer: bool)
    ensures
        answer == is_pair(used, requested),
{
    match used {
        Some(used) => used.ratio_of(requested).is_some(),
        None => false,
    }
}

fn shows_cpu_request(rows: &[PodRow]) -> (answer: bool)
    ensures
        answer == any_cpu_pair(rows@),
{
    let mut i: usize = 0;
    while i < rows.len()
        invariant
            i <= rows@.len(),
            forall|j: int|
                0 <= j < i ==> !is_pair((#[trigger] rows@[j]).cpu_used, rows@[j].cpu_requested),
        decreases rows@.len() - i,
    {
        if pairs(rows[i].cpu_used, rows[i].cpu_requested) {
            assert(is_pair(rows@[i as int].cpu_used, rows@[i as int].cpu_requested));
            return true;
        }
        i = i + 1;
    }
    false
}

fn shows_memory_request(rows: &[PodRow]) -> (answer: bool)
    ensures
        answer == any_memory_pair(rows@),
{
    let mut i: usize = 0;
    while i < rows.len()
        invariant
            i <= rows@.len(),
            forall|j: int|
                0 <= j < i ==> !is_pair((#[trigger] rows@[j]).memory_used, rows@[j].memory_requested),
        decreases rows@.len() - i,
    {
        if pairs(rows[i].memory_used, rows[i].memory_requested) {
            assert(is_pair(rows@[i as int].memory_used, rows@[i as int].memory_requested));
            return true;
        }
        i = i + 1;
    }
    false
}

/// The `RESTARTS` cell: the count, and when the newest restart happened.
pub open spec fn restarts_text(row: PodRow) -> Seq<char> {
    match row.restart_age {
        Some(age) => decimal(row.restarts as int) + " ("@ + age@ + " ago)"@,
        None => decimal(row.restarts as int),
    }
}

/// The `RESTARTS` cell: the count, and when the newest restart happened.
///
/// A bare count cannot tell a pod that crashed nine times last Tuesday from one
/// crashing right now. A pod that has never restarted keeps the bare count.
#[must_use]
pub fn restarts_cell(row: &PodRow) -> (cell: String)
    ensures
        cell@ == restarts_text(*row),
{
    let count = text::show_integer(row.restarts as i128);
    match &row.restart_age {
        Some(age) => count.concat(" (").concat(age.as_str()).concat(" ago)"),
        None => count,
    }
}

/// A usage cell: what the pod is burning, against what it asked for where it
/// asked for anything.
pub open spec fn usage_text(
    used: Option<Quantity>,
    requested: Quantity,
    show: spec_fn(Quantity) -> Seq<char>,
) -> Seq<char> {
    match used {
        None => "-"@,
        Some(used) => if requested.thousandths > 0 {
            show(used) + "/"@ + show(requested) + " ("@ + percentage_text(
                Ratio { part: used.thousandths, whole: requested.thousandths },
            ) + ")"@
        } else {
            show(used)
        },
    }
}

/// The `CPU` cell of a row.
pub open spec fn cpu_cell(row: PodRow) -> Seq<char> {
    usage_text(row.cpu_used, row.cpu_requested, |quantity: Quantity| cpu_text(quantity))
}

/// The `MEMORY` cell of a row.
pub open spec fn memory_cell(row: PodRow) -> Seq<char> {
    usage_text(row.memory_used, row.memory_requested, |quantity: Quantity| memory_text(quantity))
}

/// What is used, what was asked for, and the one as a share of the other.
fn show_pair(used: String, requested: String, ratio: Ratio) -> (cell: String)
    requires
        ratio.whole > 0,
    ensures
        cell@ == used@ + "/"@ + requested@ + " ("@ + percentage_text(ratio) + ")"@,
{
    used.concat("/").concat(requested.as_str()).concat(" (").concat(
        crate::format::percentage(ratio).as_str(),
    ).concat(")")
}

fn show_cpu(row: &PodRow) -> (cell: String)
    ensures
        cell@ == cpu_cell(*row),
{
    match row.cpu_used {
        None => UNKNOWN.to_owned(),
        Some(used) => match used.ratio_of(row.cpu_requested) {
            Some(ratio) => show_pair(quantity::cpu(used), quantity::cpu(row.cpu_requested), ratio),
            None => quantity::cpu(used),
        },
    }
}

fn show_memory(row: &PodRow) -> (cell: String)
    ensures
        cell@ == memory_cell(*row),
{
    match row.memory_used {
        None => UNKNOWN.to_owned(),
        Some(used) => match used.ratio_of(row.memory_requested) {
            Some(ratio) => show_pair(
                quantity::memory(used),
                quantity::memory(row.memory_requested),
                ratio,
            ),
            None => quantity::memory(used),
        },
    }
}

/// One column of the pod table.
///
/// Each column answers for both halves of itself, its heading and its cells, so
/// that the two cannot drift apart.
#[derive(Debug, Clone, Copy, PartialEq, Eq, Structural)]
pub enum Column {
    Namespace,
    Name,
    Ready,
    Status,
    Restarts,
    /// Live CPU usage. `against_request` is whether any row in this listing
    /// shows it against a request.
    Cpu {
        against_request: bool,
    },
    /// Live memory usage, on the same terms as [`Self::Cpu`].
    Memory {
        against_request: bool,
    },
    Age,
    Ip,
    Node,
    NominatedNode,
    ReadinessGates,
}

impl Column {
    /// What [`Column::header`] says.
    pub open spec fn heading(self) -> Seq<char> {
        match self {
            Column::Namespace => "NAMESPACE"@,
            Column::Name => "NAME"@,
            Column::Ready => "READY"@,
            Column::Status => "STATUS"@,
            Column::Restarts => "RESTARTS"@,
            Column::Cpu { against_request } => if against_request {
                "CPU/REQ"@
            } else {
                "CPU"@
            },
            Column::Memory { against_request } => if against_request {
                "MEMORY/REQ"@
            } else {
                "MEMORY"@
            },
            Column::Age => "AGE"@,
            Column::Ip => "IP"@,
            Column::Node => "NODE"@,
            Column::NominatedNode => "NOMINATED NODE"@,
            Column::ReadinessGates => "READINESS GATES"@,
        }
    }

    /// What [`Column::cell`] says.
    pub open spec fn text(self, row: PodRow) -> Seq<char> {
        match self {
            Column::Namespace => row.namespace@,
            Column::Name => row.name@,
            Column::Ready => row.ready@,
            Column::Status => row.status@,
            Column::Restarts => restarts_text(row),
            Column::Cpu { against_request } => cpu_cell(row),
            Column::Memory { against_request } => memory_cell(row),
            Column::Age => row.age@,
            Column::Ip => row.ip@,
            Column::Node => row.node@,
            Column::NominatedNode => row.nominated_node@,
            Column::ReadinessGates => or_dash(held(row.readiness_gates)),
        }
    }

    /// The heading, spelled as `kubectl get pods` spells it. Where the cells
    /// show usage against a request, so does the heading.
    #[must_use]
    pub fn header(self) -> (header: &'static str)
        ensures
            header@ == self.heading(),
    {
        match self {
            Column::Namespace => "NAMESPACE",
            Column::Name => "NAME",
            Column::Ready => "READY",
            Column::Status => "STATUS",
            Column::Restarts => "RESTARTS",
            Column::Cpu { against_request } => {
                if against_request {
                    "CPU/REQ"
                } else {
                    "CPU"
                }
            },
            Column::Memory { against_request } => {
                if against_request {
                    "MEMORY/REQ"
                } else {
                    "MEMORY"
                }
            },
            Column::Age => "AGE",
            Column::Ip => "IP",
            Column::Node => "NODE",
            Column::NominatedNode => "NOMINATED NODE",
            Column::ReadinessGates => "READINESS GATES",
        }
    }

    /// This column's cell for one row.
    #[must_use]
    pub fn cell(self, row: &PodRow) -> (cell: String)
        ensures
            cell@ == self.text(*row),
    {
        match self {
            Column::Namespace => row.namespace.clone(),
            Column::Name => row.name.clone(),
            Column::Ready => row.ready.clone(),
            Column::Status => row.status.clone(),
            Column::Restarts => restarts_cell(row),
            Column::Cpu { against_request: _ } => show_cpu(row),
            Column::Memory { against_request: _ } => show_memory(row),
            Column::Age => row.age.clone(),
            Column::Ip => row.ip.clone(),
            Column::Node => row.node.clone(),
            Column::NominatedNode => row.nominated_node.clone(),
            Column::ReadinessGates => plain(&row.readiness_gates),
        }
    }
}

/// The columns of a listing before anything is dropped, in order.
pub open spec fn layout(scope: Scope, rows: Seq<PodRow>, wide: bool) -> Seq<Column> {
    let namespace = if scope is All {
        seq![Column::Namespace]
    } else {
        seq![]
    };
    let usage = if any_usage(rows) {
        seq![
            Column::Cpu { against_request: any_cpu_pair(rows) },
            Column::Memory { against_request: any_memory_pair(rows) },
        ]
    } else {
        seq![]
    };
    let ip = if wide {
        seq![Column::Ip]
    } else {
        seq![]
    };
    let tail = if wide {
        seq![Column::NominatedNode, Column::ReadinessGates]
    } else {
        seq![]
    };
    namespace + seq![Column::Name, Column::Ready, Column::Status, Column::Restarts] + usage + seq![
        Column::Age,
    ] + ip + seq![Column::Node] + tail
}

/// How many steps there are at which columns are dropped.
pub const STEPS: usize = 6;

/// Which columns are dropped at each step when a row has to be narrower.
///
/// `AGE` goes first, the cheapest column on the row; then `NODE`, the widest;
/// then the usage columns, together; then `RESTARTS`, `READY`, and `STATUS`
/// last. `NAME` never drops, and `NAMESPACE` does not either: where it is there,
/// it is the second half of the name.
pub open spec fn drops(step: int, column: Column) -> bool {
    if step == 0 {
        column is Age
    } else if step == 1 {
        column is Node
    } else if step == 2 {
        column is Cpu || column is Memory
    } else if step == 3 {
        column is Restarts
    } else if step == 4 {
        column is Ready
    } else {
        step == 5 && column is Status
    }
}

/// The columns that a step leaves.
pub open spec fn kept(columns: Seq<Column>, step: int) -> Seq<Column>
    decreases columns.len(),
{
    if columns.len() == 0 {
        seq![]
    } else if drops(step, columns.last()) {
        kept(columns.drop_last(), step)
    } else {
        kept(columns.drop_last(), step).push(columns.last())
    }
}

/// How wide a column is: as wide as its heading and its widest cell.
pub open spec fn measure(column: Column, rows: Seq<PodRow>) -> nat
    decreases rows.len(),
{
    if rows.len() == 0 {
        column.heading().len()
    } else {
        crate::format::at_least(measure(column, rows.drop_last()), column.text(rows.last()).len())
    }
}

/// How wide a row of these columns is.
pub open spec fn width_of(columns: Seq<Column>, rows: Seq<PodRow>) -> nat {
    total_width(Seq::new(columns.len(), |i: int| measure(columns[i], rows)))
}

/// The columns left once a row fits, dropping step by step and no further than
/// needed. Where even the columns that never drop are too wide, those are left.
pub open spec fn narrowed(
    columns: Seq<Column>,
    rows: Seq<PodRow>,
    target: nat,
    step: int,
) -> Seq<Column>
    decreases STEPS - step,
{
    if step >= STEPS || width_of(columns, rows) <= target {
        columns
    } else {
        narrowed(kept(columns, step), rows, target, step + 1)
    }
}

/// The columns of a listing.
pub open spec fn columns_of(scope: Scope, rows: Seq<PodRow>, width: Width) -> Seq<Column> {
    match width {
        Width::Narrow(target) => narrowed(layout(scope, rows, false), rows, target as nat, 0),
        _ => layout(scope, rows, width is Wide),
    }
}

/// The headings of these columns.
pub open spec fn headings_of(columns: Seq<Column>) -> Seq<Seq<char>> {
    Seq::new(columns.len(), |i: int| columns[i].heading())
}

/// The cells of one row under these columns.
pub open spec fn cells_of(columns: Seq<Column>, row: PodRow) -> Seq<Seq<char>> {
    Seq::new(columns.len(), |i: int| columns[i].text(row))
}

/// The cells of every row under these columns.
pub open spec fn grid_of(columns: Seq<Column>, rows: Seq<PodRow>) -> Seq<Seq<Seq<char>>> {
    Seq::new(rows.len(), |i: int| cells_of(columns, rows[i]))
}

fn headers_for(columns: &[Column]) -> (headers: Vec<&'static str>)
    ensures
        headings(headers@) == headings_of(columns@),
{
    let mut headers: Vec<&'static str> = Vec::new();
    let mut i: usize = 0;
    while i < columns.len()
        invariant
            i <= columns@.len(),
            headers@.len() == i,
            forall|j: int| 0 <= j < i ==> (#[trigger] headers@[j])@ == columns@[j].heading(),
        decreases columns@.len() - i,
    {
        headers.push(columns[i].header());
        i = i + 1;
    }
    assert(headings(headers@) =~= headings_of(columns@));
    headers
}

fn cells_for(columns: &[Column], row: &PodRow) -> (cells: Vec<String>)
    ensures
        texts(cells@) == cells_of(columns@, *row),
{
    let mut cells: Vec<String> = Vec::new();
    let mut i: usize = 0;
    while i < columns.len()
        invariant
            i <= columns@.len(),
            cells@.len() == i,
            forall|j: int| 0 <= j < i ==> (#[trigger] cells@[j])@ == columns@[j].text(*row),
        decreases columns@.len() - i,
    {
        cells.push(columns[i].cell(row));
        i = i + 1;
    }
    assert(texts(cells@) =~= cells_of(columns@, *row));
    cells
}

fn grid_for(columns: &[Column], rows: &[PodRow]) -> (grid: Vec<Vec<String>>)
    ensures
        crate::format::grid(grid@) == grid_of(columns@, rows@),
{
    let mut grid: Vec<Vec<String>> = Vec::new();
    let mut i: usize = 0;
    while i < rows.len()
        invariant
            i <= rows@.len(),
            grid@.len() == i,
            forall|j: int| 0 <= j < i ==> texts((#[trigger] grid@[j])@) == cells_of(columns@, rows@[j]),
        decreases rows@.len() - i,
    {
        grid.push(cells_for(columns, &rows[i]));
        i = i + 1;
    }
    assert(crate::format::grid(grid@) =~= grid_of(columns@, rows@));
    grid
}

proof fn lemma_measure(columns: Seq<Column>, rows: Seq<PodRow>, i: int)
    requires
        0 <= i < columns.len(),
    ensures
        column_width(headings_of(columns), grid_of(columns, rows), i) == measure(columns[i], rows),
    decreases rows.len(),
{
    if rows.len() > 0 {
        lemma_measure(columns, rows.drop_last(), i);
        assert(grid_of(columns, rows).drop_last() =~= grid_of(columns, rows.drop_last()));
        assert(grid_of(columns, rows).last() == cells_of(columns, rows.last()));
        assert(crate::format::cell_text(cells_of(columns, rows.last()), i) == columns[i].text(
            rows.last(),
        ));
    }
}

/// How wide each of these columns will be when rendered.
fn widths(columns: &[Column], rows: &[PodRow]) -> (widths: Vec<usize>)
    ensures
        widths@.len() == columns@.len(),
        forall|i: int| 0 <= i < columns@.len() ==> #[trigger] widths@[i] == measure(columns@[i], rows@),
{
    let headers = headers_for(columns);
    let cells = grid_for(columns, rows);
    let widths = crate::format::column_widths(&headers, &cells);
    proof {
        let numbers = crate::format::as_numbers(widths@);
        assert(numbers == all_widths(headings_of(columns@), grid_of(columns@, rows@)));
        assert(numbers.len() == columns@.len());
        assert forall|i: int| 0 <= i < columns@.len() implies #[trigger] widths@[i] == measure(
            columns@[i],
            rows@,
        ) by {
            lemma_measure(columns@, rows@, i);
            assert(numbers[i] == widths@[i] as nat);
        }
    }
    widths
}

fn drops_at(step: usize, column: Column) -> (answer: bool)
    ensures
        answer == drops(step as int, column),
{
    if step == 0 {
        matches!(column, Column::Age)
    } else if step == 1 {
        matches!(column, Column::Node)
    } else if step == 2 {
        match column {
            Column::Cpu { against_request: _ } => true,
            Column::Memory { against_request: _ } => true,
            _ => false,
        }
    } else if step == 3 {
        matches!(column, Column::Restarts)
    } else if step == 4 {
        matches!(column, Column::Ready)
    } else {
        step == 5 && matches!(column, Column::Status)
    }
}

/// Drop columns step by step until a row fits `target`.
///
/// Stops as soon as the row fits, so where it already does nothing is dropped.
/// When even the columns that never drop are too wide, the row prints wider than
/// the target: that is the terminal's problem to wrap, rather than one to solve
/// by printing rows nobody can identify.
fn narrow_to_fit(columns: Vec<Column>, rows: &[PodRow], target: u16) -> (narrow: Vec<Column>)
    ensures
        narrow@ == narrowed(columns@, rows@, target as nat, 0),
{
    let mut sizes = widths(&columns, rows);
    let mut left = columns;
    let ghost before = left@;
    let mut step: usize = 0;
    while step < 6
        invariant
            step <= 6,
            before == columns@,
            sizes@.len() == left@.len(),
            forall|i: int| 0 <= i < left@.len() ==> #[trigger] sizes@[i] == measure(left@[i], rows@),
            narrowed(before, rows@, target as nat, 0) == narrowed(
                left@,
                rows@,
                target as nat,
                step as int,
            ),
        decreases 6 - step,
    {
        assert(crate::format::as_numbers(sizes@) =~= Seq::new(
            left@.len(),
            |i: int| measure(left@[i], rows@),
        ));
        if crate::format::row_width(&sizes) <= target as usize {
            return left;
        }
        let mut fewer: Vec<Column> = Vec::new();
        let mut fewer_sizes: Vec<usize> = Vec::new();
        let mut i: usize = 0;
        while i < left.len()
            invariant
                i <= left@.len(),
                sizes@.len() == left@.len(),
                forall|j: int|
                    0 <= j < left@.len() ==> #[trigger] sizes@[j] == measure(left@[j], rows@),
                fewer@ == kept(left@.take(i as int), step as int),
                fewer_sizes@.len() == fewer@.len(),
                forall|j: int|
                    0 <= j < fewer@.len() ==> #[trigger] fewer_sizes@[j] == measure(
                        fewer@[j],
                        rows@,
                    ),
            decreases left@.len() - i,
        {
            assert(left@.take(i + 1).drop_last() =~= left@.take(i as int));
            if !drops_at(step, left[i]) {
                fewer.push(left[i]);
                fewer_sizes.push(sizes[i]);
            }
            i = i + 1;
        }
        assert(left@.take(i as int) =~= left@);
        left = fewer;
        sizes = fewer_sizes;
        step = step + 1;
    }
    left
}

/// Which columns this listing gets, in order.
///
/// Usage appears unasked for, so a cluster with no metrics-server must not gain
/// two empty columns. The extra columns were asked for, so they appear whatever
/// is in them. A narrow listing then drops columns until the row fits its
/// target.
#[must_use]
pub fn columns(scope: &Scope, rows: &[PodRow], width: Width) -> (columns: Vec<Column>)
    ensures
        columns@ == columns_of(*scope, rows@, width),
{
    let wide = width.is_wide();
    let mut columns: Vec<Column> = Vec::new();
    if scope.needs_namespace_column() {
        columns.push(Column::Namespace);
    }
    columns.push(Column::Name);
    columns.push(Column::Ready);
    columns.push(Column::Status);
    columns.push(Column::Restarts);
    if shows_usage(rows) {
        columns.push(Column::Cpu { against_request: shows_cpu_request(rows) });
        columns.push(Column::Memory { against_request: shows_memory_request(rows) });
    }
    columns.push(Column::Age);
    if wide {
        columns.push(Column::Ip);
    }
    columns.push(Column::Node);
    if wide {
        columns.push(Column::NominatedNode);
        columns.push(Column::ReadinessGates);
    }
    assert(columns@ =~= layout(*scope, rows@, wide));
    match width {
        Width::Narrow(target) => narrow_to_fit(columns, rows, target),
        _ => columns,
    }
}

/// Narrowing only ever takes columns away, and never the ones that identify a
/// row: every column left was there before, the name is among them if it was,
/// and so is the namespace.
pub proof fn law_narrowing_only_drops(
    columns: Seq<Column>,
    rows: Seq<PodRow>,
    target: nat,
    step: int,
)
    requires
        0 <= step,
    ensures
        forall|column: Column| #[trigger]
            narrowed(columns, rows, target, step).contains(column) ==> columns.contains(column),
        columns.contains(Column::Name) ==> narrowed(columns, rows, target, step).contains(
            Column::Name,
        ),
        columns.contains(Column::Namespace) ==> narrowed(columns, rows, target, step).contains(
            Column::Namespace,
        ),
    decreases STEPS - step,
{
    if step < STEPS && width_of(columns, rows) > target {
        law_narrowing_only_drops(kept(columns, step), rows, target, step + 1);
        let left = narrowed(columns, rows, target, step);
        assert(left == narrowed(kept(columns, step), rows, target, step + 1));
        assert forall|column: Column| #[trigger] left.contains(column) implies columns.contains(
            column,
        ) by {
            lemma_kept(columns, step, column);
        }
        lemma_kept(columns, step, Column::Name);
        lemma_kept(columns, step, Column::Namespace);
    }
}

pub(crate) proof fn lemma_kept(columns: Seq<Column>, step: int, column: Column)
    ensures
        kept(columns, step).contains(column) <==> columns.contains(column) && !drops(step, column),
    decreases columns.len(),
{
    if columns.len() > 0 {
        let before = columns.drop_last();
        lemma_kept(before, step, column);
        let left = kept(before, step);
        assert(columns =~= before.push(columns.last()));
        assert(columns.contains(column) <==> before.contains(column) || column == columns.last())
            by {
            if before.contains(column) {
                assert(columns[before.index_of(column)] == column);
            }
            if columns.contains(column) && column != columns.last() {
                assert(before[columns.index_of(column)] == column);
            }
        }
        if !drops(step, columns.last()) {
            let more = left.push(columns.last());
            assert(more.contains(column) <==> left.contains(column) || column == columns.last())
                by {
                if left.contains(column) {
                    assert(more[left.index_of(column)] == column);
                }
                if column == columns.last() {
                    assert(more[left.len() as int] == column);
                }
                if more.contains(column) && column != columns.last() {
                    assert(left[more.index_of(column)] == column);
                }
            }
        }
    }
}

/// On a terminal wide enough a narrow listing has exactly the columns of the
/// usual one: a table that already fits has nothing to take away.
pub proof fn law_fitting_listing_is_untouched(scope: Scope, rows: Seq<PodRow>, target: u16)
    requires
        width_of(columns_of(scope, rows, Width::Default), rows) <= target,
    ensures
        columns_of(scope, rows, Width::Narrow(target)) == columns_of(scope, rows, Width::Default),
{
}

/// A narrow listing fits its target, or is down to the columns that identify a
/// row.
pub proof fn law_narrow_fits_or_is_minimal(scope: Scope, rows: Seq<PodRow>, target: u16)
    ensures
        ({
            let left = columns_of(scope, rows, Width::Narrow(target));
            ||| width_of(left, rows) <= target
            ||| forall|column: Column| #[trigger]
                left.contains(column) ==> column is Name || column is Namespace
        }),
{
    let columns = layout(scope, rows, false);
    assert forall|column: Column| #[trigger] columns.contains(column) implies !(column is Ip
        || column is NominatedNode || column is ReadinessGates) by {
        let i = columns.index_of(column);
        assert(columns[i] == column);
    }
    lemma_steps_leave(columns, rows, target as nat, 0);
}

/// A row can always be told from the others: every listing has the name, at
/// whatever width, and the namespace exactly where it spans several.
pub proof fn law_rows_stay_identifiable(scope: Scope, rows: Seq<PodRow>, width: Width)
    ensures
        columns_of(scope, rows, width).contains(Column::Name),
        columns_of(scope, rows, width).contains(Column::Namespace) <==> scope is All,
{
    let columns = layout(scope, rows, width is Wide);
    let start: int = if scope is All {
        1
    } else {
        0
    };
    assert(columns[start] == Column::Name);
    assert(columns.contains(Column::Name));
    if scope is All {
        assert(columns[0] == Column::Namespace);
        assert(columns.contains(Column::Namespace));
    } else {
        assert forall|i: int| 0 <= i < columns.len() implies #[trigger] columns[i]
            != Column::Namespace by {}
    }
    match width {
        Width::Narrow(target) => {
            law_narrowing_only_drops(columns, rows, target as nat, 0);
        },
        _ => {},
    }
}

/// Every line of a listing is as narrow as it was measured: where the columns of
/// a listing fit a width, no line of the table is wider.
pub proof fn law_lines_fit_where_columns_do(
    columns: Seq<Column>,
    rows: Seq<PodRow>,
    target: nat,
    row: int,
)
    requires
        width_of(columns, rows) <= target,
        0 <= row < rows.len(),
    ensures
        ({
            let widths = all_widths(headings_of(columns), grid_of(columns, rows));
            &&& crate::format::line_text(headings_of(columns), widths).len() <= target
            &&& crate::format::line_text(grid_of(columns, rows)[row], widths).len() <= target
        }),
{
    let widths = all_widths(headings_of(columns), grid_of(columns, rows));
    assert forall|i: int| 0 <= i < columns.len() implies #[trigger] widths[i] == measure(
        columns[i],
        rows,
    ) by {
        lemma_measure(columns, rows, i);
    }
    assert(widths =~= Seq::new(columns.len(), |i: int| measure(columns[i], rows)));
    crate::format::law_table_is_as_wide_as_measured(
        headings_of(columns),
        grid_of(columns, rows),
        row,
    );
}

/// The notes go under the table, and change nothing in it.
pub proof fn law_notes_leave_the_table_alone(
    rows: Seq<PodRow>,
    cluster: Seq<char>,
    scope: Scope,
    selectors: Selectors,
    notes: Seq<Seq<char>>,
    width: Width,
)
    ensures
        rows.len() > 0 ==> rendered(rows, cluster, scope, selectors, seq![], width).is_prefix_of(
            rendered(rows, cluster, scope, selectors, notes, width),
        ),
        rows.len() == 0 ==> rendered(rows, cluster, scope, selectors, notes, width) == rendered(
            rows,
            cluster,
            scope,
            selectors,
            seq![],
            width,
        ),
{
    let bare = rendered(rows, cluster, scope, selectors, seq![], width);
    let noted = rendered(rows, cluster, scope, selectors, notes, width);
    if rows.len() > 0 && notes.len() > 0 {
        assert(noted.subrange(0, bare.len() as int) =~= bare);
    } else {
        assert(noted.subrange(0, noted.len() as int) =~= noted);
    }
}

/// Whether a step before this one drops a column.
spec fn dropped_before(step: int, column: Column) -> bool {
    exists|earlier: int| 0 <= earlier < step && #[trigger] drops(earlier, column)
}

proof fn lemma_steps_leave(columns: Seq<Column>, rows: Seq<PodRow>, target: nat, step: int)
    requires
        0 <= step <= STEPS,
        forall|column: Column| #[trigger]
            columns.contains(column) ==> !dropped_before(step, column) && !(column is Ip
                || column is NominatedNode || column is ReadinessGates),
    ensures
        ({
            let left = narrowed(columns, rows, target, step);
            ||| width_of(left, rows) <= target
            ||| forall|column: Column| #[trigger]
                left.contains(column) ==> column is Name || column is Namespace
        }),
    decreases STEPS - step,
{
    if step < STEPS && width_of(columns, rows) > target {
        let left = kept(columns, step);
        assert forall|column: Column| #[trigger] left.contains(column) implies !dropped_before(
            step + 1,
            column,
        ) && !(column is Ip || column is NominatedNode || column is ReadinessGates) by {
            lemma_kept(columns, step, column);
            assert(columns.contains(column));
            if dropped_before(step + 1, column) {
                let earlier = choose|earlier: int|
                    0 <= earlier < step + 1 && #[trigger] drops(earlier, column);
                assert(earlier == step);
            }
        }
        lemma_steps_leave(left, rows, target, step + 1);
    } else if step >= STEPS {
        assert forall|column: Column| #[trigger] columns.contains(column) implies column is Name
            || column is Namespace by {
            assert(!dropped_before(step, column));
            assert(!drops(0, column));
            assert(!drops(1, column));
            assert(!drops(2, column));
            assert(!drops(3, column));
            assert(!drops(4, column));
            assert(!drops(5, column));
        }
    }
}

/// Whether a listing has a column of CPU, whatever its heading.
pub open spec fn has_cpu(columns: Seq<Column>) -> bool {
    columns.contains(Column::Cpu { against_request: true }) || columns.contains(
        Column::Cpu { against_request: false },
    )
}

/// Whether a listing has a column of memory, whatever its heading.
pub open spec fn has_memory(columns: Seq<Column>) -> bool {
    columns.contains(Column::Memory { against_request: true }) || columns.contains(
        Column::Memory { against_request: false },
    )
}

/// The usage columns are both there or both gone, at whatever width.
pub proof fn law_usage_columns_stay_together(scope: Scope, rows: Seq<PodRow>, width: Width)
    ensures
        has_cpu(columns_of(scope, rows, width)) == has_memory(columns_of(scope, rows, width)),
{
    let columns = layout(scope, rows, width is Wide);
    assert(has_cpu(columns) == has_memory(columns)) by {
        let start: int = if scope is All {
            5
        } else {
            4
        };
        if any_usage(rows) {
            assert(columns[start] == Column::Cpu { against_request: any_cpu_pair(rows) });
            assert(columns[start + 1] == Column::Memory { against_request: any_memory_pair(rows) });
            assert(columns.contains(columns[start]));
            assert(columns.contains(columns[start + 1]));
        } else {
            assert forall|i: int| 0 <= i < columns.len() implies !(#[trigger] columns[i] is Cpu)
                && !(columns[i] is Memory) by {}
        }
    }
    match width {
        Width::Narrow(target) => {
            lemma_usage_columns_together(columns, rows, target as nat, 0);
        },
        _ => {},
    }
}

proof fn lemma_usage_columns_together(
    columns: Seq<Column>,
    rows: Seq<PodRow>,
    target: nat,
    step: int,
)
    requires
        has_cpu(columns) == has_memory(columns),
    ensures
        has_cpu(narrowed(columns, rows, target, step)) == has_memory(
            narrowed(columns, rows, target, step),
        ),
    decreases STEPS - step,
{
    if step < STEPS && width_of(columns, rows) > target {
        lemma_kept(columns, step, Column::Cpu { against_request: true });
        lemma_kept(columns, step, Column::Cpu { against_request: false });
        lemma_kept(columns, step, Column::Memory { against_request: true });
        lemma_kept(columns, step, Column::Memory { against_request: false });
        lemma_usage_columns_together(kept(columns, step), rows, target, step + 1);
    }
}

/// What the table says when there are no pods.
pub open spec fn empty_text(cluster: Seq<char>, scope: Scope, selectors: Selectors) -> Seq<char> {
    match selector_text(selectors) {
        Some(note) => cluster + " has no pods matching "@ + note + "."@,
        None => match scope {
            Scope::Namespace(name) => cluster + " has no pods in namespace "@ + debug_form(name@)
                + ".\nTry `eks pods --all-namespaces`, or `-n <namespace>` to look somewhere else."@,
            Scope::All => cluster
                + " reports no pods in any namespace you can see.\nIf you expected some, check you are on the right cluster with `eks contexts`."@,
        },
    }
}

/// A phrase naming the active selectors, if any is set.
pub open spec fn selector_text(selectors: Selectors) -> Option<Seq<char>> {
    match (selectors.label, selectors.field) {
        (Some(label), Some(field)) => Some(
            "label selector `"@ + label@ + "` and field selector `"@ + field@ + "`"@,
        ),
        (Some(label), None) => Some("label selector `"@ + label@ + "`"@),
        (None, Some(field)) => Some("field selector `"@ + field@ + "`"@),
        (None, None) => None,
    }
}

/// What [`render`] prints.
pub open spec fn rendered(
    rows: Seq<PodRow>,
    cluster: Seq<char>,
    scope: Scope,
    selectors: Selectors,
    notes: Seq<Seq<char>>,
    width: Width,
) -> Seq<char> {
    let columns = columns_of(scope, rows, width);
    let table = table_text(headings_of(columns), grid_of(columns, rows));
    if rows.len() == 0 {
        empty_text(cluster, scope, selectors)
    } else if notes.len() == 0 {
        table
    } else {
        table + "\n\n"@ + joined(notes, "\n\n"@)
    }
}

/// Render the table of pods.
///
/// `cluster` is the human label used in the empty-list message, so a user who
/// typed the wrong context or namespace finds out from the answer. `notes` are
/// appended under the table, and dropped when there are no pods.
#[must_use]
pub fn render(
    rows: &[PodRow],
    cluster: &str,
    scope: &Scope,
    selectors: &Selectors,
    notes: &[String],
    width: Width,
) -> (text: String)
    ensures
        text@ == rendered(rows@, cluster@, *scope, *selectors, texts(notes@), width),
{
    if rows.len() == 0 {
        return empty(cluster, scope, selectors);
    }
    let columns = columns(scope, rows, width);
    let headers = headers_for(&columns);
    let cells = grid_for(&columns, rows);
    let table = crate::format::table(&headers, &cells);
    if notes.len() == 0 {
        table
    } else {
        table.concat("\n\n").concat(text::join(notes, "\n\n").as_str())
    }
}

/// The footnote shown when there is no live usage to put in a column.
///
/// The columns are absent rather than empty in this case, so the note has to
/// say what is missing.
#[must_use]
pub fn usage_unavailable(explanation: &str) -> (note: String)
    ensures
        note@ == "CPU and MEMORY are not shown because live usage could not be read.\n"@
            + explanation@,
{
    "CPU and MEMORY are not shown because live usage could not be read.\n".to_owned().concat(
        explanation,
    )
}

/// The footnote shown when the metrics read succeeded and had nothing in it.
///
/// A successful request that quietly costs two columns would leave the user
/// unable to tell a cluster with no metrics-server from one whose metrics-server
/// has not reached these pods yet.
#[must_use]
pub fn usage_unsampled(explanation: &str) -> (note: String)
    ensures
        note@ == "CPU and MEMORY are not shown because nothing here has been sampled yet.\n"@
            + explanation@,
{
    "CPU and MEMORY are not shown because nothing here has been sampled yet.\n".to_owned().concat(
        explanation,
    )
}

/// What to say instead of an empty table.
///
/// A filter that matches nothing must not read like an empty namespace, so an
/// active selector leads.
fn empty(cluster: &str, scope: &Scope, selectors: &Selectors) -> (text: String)
    ensures
        text@ == empty_text(cluster@, *scope, *selectors),
{
    if let Some(note) = selector_note(selectors) {
        return cluster.to_owned().concat(" has no pods matching ").concat(note.as_str()).concat(
            ".",
        );
    }
    match scope {
        Scope::Namespace(name) => cluster.to_owned().concat(" has no pods in namespace ").concat(
            text::quoted(name.as_str()).as_str(),
        ).concat(
            ".\nTry `eks pods --all-namespaces`, or `-n <namespace>` to look somewhere else.",
        ),
        Scope::All => cluster.to_owned().concat(
            " reports no pods in any namespace you can see.\nIf you expected some, check you are on the right cluster with `eks contexts`.",
        ),
    }
}

/// A phrase naming the active selectors, or `None` when none are set.
fn selector_note(selectors: &Selectors) -> (note: Option<String>)
    ensures
        held(note) == selector_text(*selectors),
{
    match (&selectors.label, &selectors.field) {
        (Some(label), Some(field)) => Some(
            "label selector `".to_owned().concat(label.as_str()).concat(
                "` and field selector `",
            ).concat(field.as_str()).concat("`"),
        ),
        (Some(label), None) => Some(
            "label selector `".to_owned().concat(label.as_str()).concat("`"),
        ),
        (None, Some(field)) => Some(
            "field selector `".to_owned().concat(field.as_str()).concat("`"),
        ),
        (None, None) => None,
    }
}

} // verus!
