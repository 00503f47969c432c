//! Pods: what they have booked on a node.
//!
//! A node's allocatable capacity says what the scheduler *may* hand out. What
//! it has *already* handed out is the sum of the requests of the pods placed on
//! it. [`effective_requests`] follows what the scheduler does:
//!
//! - Init containers run one at a time and then stop, so they contribute the
//!   largest single one rather than their sum.
//! - A *sidecar* (an init container with `restartPolicy: Always`) keeps running
//!   once the app containers start, so it counts in the sum instead, and is also
//!   part of the footprint of every init container after it.
//! - Pod overhead, which a `RuntimeClass` adds for the sandbox itself, is
//!   charged on top of both.

pub mod containers;
pub mod events;
pub mod logs;
pub mod order;
pub mod row;
pub mod status;

pub use order::{cause, distinguishes, note, ranks_any, sort, unranked_note, Missing, Order};
pub use row::{render, shows_usage, usage_unavailable, usage_unsampled, PodRow};

use vstd::prelude::*;
use vstd::string::*;

use crate::k8s::api::{ApiQuantity, Container, Pod, PodSpec};
use crate::k8s::quantity::{reading, sum_of, Quantity, Reading};
use crate::k8s::resource;
use crate::k8s::resource::extended_name;
use crate::k8s::selector;
use crate::k8s::selector::{field_canonical, label_canonical};
use crate::name_map::NameMap;
use crate::text;
use crate::theme::seen;

verus! {

/// Which pods a listing is about.
#[derive(Debug, Clone, PartialEq, Eq)]
pub enum Scope {
    /// One namespace, named.
    Namespace(String),
    /// Every namespace the user is allowed to see.
    All,
}

impl Scope {
    /// The scope of a listing: every namespace where that was asked for, and
    /// otherwise the namespace that was named, or the one to fall back on.
    #[must_use]
    pub fn of_listing(all: bool, named: Option<&str>, fallback: &str) -> (scope: Self)
        ensures
            match scope {
                Scope::All => all,
                Scope::Namespace(name) => !all && name@ == match named {
                    Some(named) => named@,
                    None => fallback@,
                },
            },
    {
        if all {
            return Scope::All;
        }
        match named {
            Some(named) => Scope::Namespace(named.to_owned()),
            None => Scope::Namespace(fallback.to_owned()),
        }
    }

    /// Whether a listing of this scope needs a `NAMESPACE` column.
    ///
    /// Repeating one namespace down every row of a namespaced listing is noise;
    /// leaving it out of a cluster-wide one loses the only thing that
    /// disambiguates two pods with the same name.
    #[must_use]
    pub fn needs_namespace_column(&self) -> (answer: bool)
        ensures
            answer == (self is All),
    {
        matches!(self, Scope::All)
    }
}

/// The selectors of a listing, as the API server is sent them.
#[derive(Debug, Clone, Default, PartialEq, Eq)]
pub struct ListParams {
    /// Sent as the label selector, if it is there.
    pub label_selector: Option<String>,
    /// Sent as the field selector, if it is there.
    pub field_selector: Option<String>,
}

/// What an optional string holds.
pub open spec fn held(text: Option<String>) -> Option<Seq<char>> {
    match text {
        Some(text) => Some(text@),
        None => None,
    }
}

fn copy_of(original: &Option<String>) -> (copied: Option<String>)
    ensures
        held(copied) == held(*original),
{
    match original {
        Some(original) => Some(original.clone()),
        None => None,
    }
}

/// Server-side selectors for a pod listing, already validated.
///
/// Both are `None` by default, which lists everything in scope.
#[derive(Debug, Clone, Default, PartialEq, Eq)]
pub struct Selectors {
    /// A label selector, e.g. `app=api,tier notin (canary)`.
    pub label: Option<String>,
    /// A field selector, e.g. `status.phase!=Running`.
    pub field: Option<String>,
}

/// Leaves out the pods that have finished: they linger in the API server until
/// something collects them, and hold nothing on their node.
pub const LIVE_PODS: &'static str = "status.phase!=Succeeded,status.phase!=Failed";

/// The parameters that list every pod still occupying a node.
#[must_use]
pub fn live_params() -> (params: ListParams)
    ensures
        params.label_selector is None,
        held(params.field_selector) == Some("status.phase!=Succeeded,status.phase!=Failed"@),
{
    ListParams { label_selector: None, field_selector: Some(LIVE_PODS.to_owned()) }
}

/// What validating an optional label selector gives.
pub open spec fn label_checked(typed: Option<Seq<char>>) -> Result<Option<Seq<char>>, Seq<char>> {
    match typed {
        None => Ok(None),
        Some(typed) => match label_canonical(typed) {
            Ok(canonical) => Ok(Some(canonical)),
            Err(problem) => Err(problem),
        },
    }
}

/// What validating an optional field selector gives.
pub open spec fn field_checked(typed: Option<Seq<char>>) -> Result<Option<Seq<char>>, Seq<char>> {
    match typed {
        None => Ok(None),
        Some(typed) => match field_canonical(typed) {
            Ok(canonical) => Ok(Some(canonical)),
            Err(problem) => Err(problem),
        },
    }
}

impl Selectors {
    /// The selectors a user typed, in canonical form. What is wrong with the label
    /// selector is said before what is wrong with the field selector.
    ///
    /// # Errors
    /// Returns the error of the first selector that does not parse, so that a bad
    /// one is refused before anything connects.
    pub fn validated(label: Option<&str>, field: Option<&str>) -> (selectors: Result<
        Self,
        selector::Error,
    >)
        ensures
            match selectors {
                Ok(selectors) => {
                    &&& label_checked(seen(label)) == Ok::<Option<Seq<char>>, Seq<char>>(
                        held(selectors.label),
                    )
                    &&& field_checked(seen(field)) == Ok::<Option<Seq<char>>, Seq<char>>(
                        held(selectors.field),
                    )
                },
                Err(error) => if label_checked(seen(label)) is Err {
                    label_checked(seen(label)) == Err::<Option<Seq<char>>, Seq<char>>(error.0@)
                } else {
                    field_checked(seen(field)) == Err::<Option<Seq<char>>, Seq<char>>(error.0@)
                },
            },
    {
        let label = match label {
            Some(typed) => match selector::label_selector(typed) {
                Ok(canonical) => Some(canonical),
                Err(error) => {
                    return Err(error);
                },
            },
            None => None,
        };
        let field = match field {
            Some(typed) => match selector::field_selector(typed) {
                Ok(canonical) => Some(canonical),
                Err(error) => {
                    return Err(error);
                },
            },
            None => None,
        };
        Ok(Selectors { label, field })
    }

    /// Turn the selectors into the parameters a listing is asked for with.
    ///
    /// A `None` leaves that selector unset: an empty string would be sent as an
    /// empty selector, which is not quite the same thing to every server.
    #[must_use]
    pub fn to_params(&self) -> (params: ListParams)
        ensures
            held(params.label_selector) == held(self.label),
            held(params.field_selector) == held(self.field),
    {
        ListParams { label_selector: copy_of(&self.label), field_selector: copy_of(&self.field) }
    }
}

/// How much of one resource a map holds, zero if it holds none.
pub open spec fn amount(map: Map<Seq<char>, Quantity>, name: Seq<char>) -> Quantity {
    if map.contains_key(name) {
        map[name]
    } else {
        Quantity { thousandths: 0 }
    }
}

/// The larger of two quantities.
pub open spec fn larger(left: Quantity, right: Quantity) -> Quantity {
    if right.thousandths > left.thousandths {
        right
    } else {
        left
    }
}

/// What [`Requests`] says: an amount of CPU, of memory, and of each extended
/// resource that was asked for.
#[verifier::ext_equal]
pub struct Booking {
    /// CPU.
    pub cpu: Quantity,
    /// Memory.
    pub memory: Quantity,
    /// Extended resources, by their fully-qualified name.
    pub extended: Map<Seq<char>, Quantity>,
}

impl Booking {
    /// Nothing at all.
    pub open spec fn nothing() -> Booking {
        Booking {
            cpu: Quantity { thousandths: 0 },
            memory: Quantity { thousandths: 0 },
            extended: Map::empty(),
        }
    }

    /// Componentwise sum, over the union of the extended resources.
    pub open spec fn plus(self, other: Booking) -> Booking {
        Booking {
            cpu: sum_of(self.cpu, other.cpu),
            memory: sum_of(self.memory, other.memory),
            extended: Map::new(
                |name: Seq<char>|
                    self.extended.contains_key(name) || other.extended.contains_key(name),
                |name: Seq<char>|
                    if other.extended.contains_key(name) {
                        sum_of(amount(self.extended, name), other.extended[name])
                    } else {
                        self.extended[name]
                    },
            ),
        }
    }

    /// Componentwise maximum, over the union of the extended resources. One that
    /// only one side names is compared with zero.
    pub open spec fn max(self, other: Booking) -> Booking {
        Booking {
            cpu: larger(self.cpu, other.cpu),
            memory: larger(self.memory, other.memory),
            extended: Map::new(
                |name: Seq<char>|
                    self.extended.contains_key(name) || other.extended.contains_key(name),
                |name: Seq<char>|
                    if other.extended.contains_key(name) {
                        larger(amount(self.extended, name), other.extended[name])
                    } else {
                        self.extended[name]
                    },
            ),
        }
    }
}

/// What a pod or a container asked for, as one value, so the resources are
/// never added up in different orders in different places.
///
/// A resource absent from the map was not asked for, which is a real zero
/// rather than an unknown.
#[derive(Debug, Clone, PartialEq, Eq)]
pub struct Requests {
    pub cpu: Quantity,
    pub memory: Quantity,
    /// Extended resources, keyed by their fully-qualified name.
    pub extended: NameMap<Quantity>,
}

impl View for Requests {
    type V = Booking;

    open spec fn view(&self) -> Booking {
        Booking { cpu: self.cpu, memory: self.memory, extended: self.extended@ }
    }
}

impl Default for Requests {
    /// Nothing asked for.
    fn default() -> (requests: Self)
        ensures
            requests@ == Booking::nothing(),
    {
        let requests = Requests {
            cpu: Quantity::default(),
            memory: Quantity::default(),
            extended: NameMap::new(),
        };
        assert(requests@ =~= Booking::nothing());
        requests
    }
}

/// The quantity a map reports for a resource, if it reports one that can be
/// read.
pub open spec fn reported(map: Option<NameMap<ApiQuantity>>, name: Seq<char>) -> Option<Quantity> {
    match map {
        Some(map) => if map@.contains_key(name) {
            match reading(map@[name].0@) {
                Reading::Thousandths(thousandths) => Some(
                    Quantity { thousandths: thousandths as i128 },
                ),
                _ => None,
            }
        } else {
            None
        },
        None => None,
    }
}

/// A quantity that may be missing, as zero where it is.
pub open spec fn or_zero(quantity: Option<Quantity>) -> Quantity {
    match quantity {
        Some(quantity) => quantity,
        None => Quantity { thousandths: 0 },
    }
}

/// What a resource map asks for: what it says of CPU and memory, and every
/// extended resource in it that can be read.
pub open spec fn asked_by(map: Option<NameMap<ApiQuantity>>) -> Booking {
    Booking {
        cpu: or_zero(reported(map, "cpu"@)),
        memory: or_zero(reported(map, "memory"@)),
        extended: Map::new(
            |name: Seq<char>| extended_name(name) && reported(map, name) is Some,
            |name: Seq<char>| reported(map, name)->0,
        ),
    }
}

fn read_or_zero(map: Option<&NameMap<ApiQuantity>>, name: &str) -> (quantity: Quantity)
    ensures
        quantity == or_zero(
            reported(
                match map {
                    Some(map) => Some(*map),
                    None => None,
                },
                name@,
            ),
        ),
{
    match Quantity::lookup(map, name) {
        Some(quantity) => quantity,
        None => Quantity::default(),
    }
}

fn max_of(left: Quantity, right: Quantity) -> (most: Quantity)
    ensures
        most == larger(left, right),
{
    if right.thousandths > left.thousandths {
        right
    } else {
        left
    }
}

impl Requests {
    fn copied(&self) -> (copy: Requests)
        ensures
            copy@ == self@,
    {
        let copy = Requests { cpu: self.cpu, memory: self.memory, extended: self.extended.clone() };
        assert(copy.extended@ =~= self.extended@);
        copy
    }

    /// Componentwise sum, over the union of the extended resources asked for.
    #[must_use]
    pub fn plus(self, other: Self) -> (sum: Self)
        ensures
            sum@ == self@.plus(other@),
    {
        let mut extended = self.extended;
        let count = other.extended.len();
        let ghost mine = extended@;
        let ghost theirs = other.extended@;
        let ghost names = other.extended.names();
        let mut i: usize = 0;
        while i < count
            invariant
                count == names.len(),
                names == other.extended.names(),
                theirs == other.extended@,
                crate::name_map::in_order(names),
                i <= count,
                forall|name: Seq<char>|
                    #![trigger extended@.contains_key(name)]
                    extended@.contains_key(name) <==> mine.contains_key(name) || names.take(
                        i as int,
                    ).contains(name),
                forall|name: Seq<char>|
                    #![trigger extended@[name]]
                    extended@.contains_key(name) ==> extended@[name] == if names.take(
                        i as int,
                    ).contains(name) {
                        sum_of(amount(mine, name), theirs[name])
                    } else {
                        mine[name]
                    },
            decreases count - i,
        {
            let name = other.extended.name_at(i);
            let more = *other.extended.value_at(i);
            proof {
                lemma_next_name(names, i as int);
            }
            let so_far = match extended.get(name) {
                Some(so_far) => *so_far,
                None => Quantity::default(),
            };
            extended.insert(name.to_owned(), so_far + more);
            i = i + 1;
        }
        proof {
            assert(names.take(i as int) =~= names);
            assert(forall|name: Seq<char>|
                theirs.contains_key(name) <==> #[trigger] names.to_set().contains(name));
            assert(forall|name: Seq<char>|
                names.contains(name) <==> #[trigger] names.to_set().contains(name));
            assert(extended@ =~= self@.plus(other@).extended);
        }
        Requests { cpu: self.cpu + other.cpu, memory: self.memory + other.memory, extended }
    }

    /// Componentwise maximum.
    ///
    /// Per-resource rather than picking the single "largest" container, which
    /// is what the scheduler does: a pod with a memory-hungry init container
    /// and a CPU-hungry one needs the peak of each.
    #[must_use]
    pub fn max(self, other: Self) -> (most: Self)
        ensures
            most@ == self@.max(other@),
    {
        let mut extended = self.extended;
        let count = other.extended.len();
        let ghost mine = extended@;
        let ghost theirs = other.extended@;
        let ghost names = other.extended.names();
        let mut i: usize = 0;
        while i < count
            invariant
                count == names.len(),
                names == other.extended.names(),
                theirs == other.extended@,
                crate::name_map::in_order(names),
                i <= count,
                forall|name: Seq<char>|
                    #![trigger extended@.contains_key(name)]
                    extended@.contains_key(name) <==> mine.contains_key(name) || names.take(
                        i as int,
                    ).contains(name),
                forall|name: Seq<char>|
                    #![trigger extended@[name]]
                    extended@.contains_key(name) ==> extended@[name] == if names.take(
                        i as int,
                    ).contains(name) {
                        larger(amount(mine, name), theirs[name])
                    } else {
                        mine[name]
                    },
            decreases count - i,
        {
            let name = other.extended.name_at(i);
            let more = *other.extended.value_at(i);
            proof {
                lemma_next_name(names, i as int);
            }
            let so_far = match extended.get(name) {
                Some(so_far) => *so_far,
                None => Quantity::default(),
            };
            extended.insert(name.to_owned(), max_of(so_far, more));
            i = i + 1;
        }
        proof {
            assert(names.take(i as int) =~= names);
            assert(forall|name: Seq<char>|
                theirs.contains_key(name) <==> #[trigger] names.to_set().contains(name));
            assert(forall|name: Seq<char>|
                names.contains(name) <==> #[trigger] names.to_set().contains(name));
            assert(extended@ =~= self@.max(other@).extended);
        }
        Requests {
            cpu: max_of(self.cpu, other.cpu),
            memory: max_of(self.memory, other.memory),
            extended,
        }
    }

    /// How much of one extended resource was asked for, zero if none was.
    #[must_use]
    pub fn extended(&self, resource: &str) -> (quantity: Quantity)
        ensures
            quantity == amount(self.extended@, resource@),
    {
        match self.extended.get(resource) {
            Some(quantity) => *quantity,
            None => Quantity::default(),
        }
    }

    /// Read a container's requests out of a resource map, treating an absent or
    /// unreadable entry as nothing asked for.
    ///
    /// Every extended resource in the map is carried through, rather than a
    /// list of known names: a cluster can invent one.
    fn read(map: Option<&NameMap<ApiQuantity>>) -> (requests: Self)
        ensures
            requests@ == asked_by(
                match map {
                    Some(map) => Some(*map),
                    None => None,
                },
            ),
    {
        let ghost source = match map {
            Some(map) => Some(*map),
            None => None,
        };
        let mut extended: NameMap<Quantity> = NameMap::new();
        if let Some(listed) = map {
            let count = listed.len();
            let ghost names = listed.names();
            let mut i: usize = 0;
            while i < count
                invariant
                    count == names.len(),
                    names == listed.names(),
                    crate::name_map::in_order(names),
                    map == Some(listed),
                    source == Some(*listed),
                    i <= count,
                    forall|name: Seq<char>|
                        #![trigger extended@.contains_key(name)]
                        extended@.contains_key(name) <==> names.take(i as int).contains(name)
                            && extended_name(name) && reported(source, name) is Some,
                    forall|name: Seq<char>|
                        #![trigger extended@[name]]
                        extended@.contains_key(name) ==> Some(extended@[name]) == reported(
                            source,
                            name,
                        ),
                decreases count - i,
            {
                let name = listed.name_at(i);
                proof {
                    lemma_next_name(names, i as int);
                }
                if resource::is_extended(name) {
                    if let Some(quantity) = Quantity::lookup(map, name) {
                        extended.insert(name.to_owned(), quantity);
                    }
                }
                i = i + 1;
            }
            proof {
                assert(names.take(i as int) =~= names);
                assert(forall|name: Seq<char>|
                    listed@.contains_key(name) <==> #[trigger] names.to_set().contains(name));
                assert(forall|name: Seq<char>|
                    names.contains(name) <==> #[trigger] names.to_set().contains(name));
            }
        }
        assert(extended@ =~= asked_by(source).extended);
        Requests { cpu: read_or_zero(map, "cpu"), memory: read_or_zero(map, "memory"), extended }
    }
}

/// The map of what a container asks for, if it has one.
pub open spec fn container_map(container: Container) -> Option<NameMap<ApiQuantity>> {
    match container.resources {
        Some(resources) => resources.requests,
        None => None,
    }
}

/// Whether an init container never exits, so that it is charged like an app
/// container.
pub open spec fn sidecar(container: Container) -> bool {
    held(container.restart_policy) == Some("Always"@)
}

/// What the sidecars among these init containers book between them.
pub open spec fn sidecars_booked(inits: Seq<Container>) -> Booking
    decreases inits.len(),
{
    if inits.len() == 0 {
        Booking::nothing()
    } else if sidecar(inits.last()) {
        sidecars_booked(inits.drop_last()).plus(asked_by(container_map(inits.last())))
    } else {
        sidecars_booked(inits.drop_last())
    }
}

/// The most these init containers book at a time: each runs beside the sidecars
/// that were started before it.
pub open spec fn init_peak(inits: Seq<Container>) -> Booking
    decreases inits.len(),
{
    if inits.len() == 0 {
        Booking::nothing()
    } else {
        let before = inits.drop_last();
        init_peak(before).max(sidecars_booked(before).plus(asked_by(container_map(inits.last()))))
    }
}

/// What app containers book beside what is already running.
pub open spec fn running_booked(base: Booking, containers: Seq<Container>) -> Booking
    decreases containers.len(),
{
    if containers.len() == 0 {
        base
    } else {
        running_booked(base, containers.drop_last()).plus(
            asked_by(container_map(containers.last())),
        )
    }
}

/// The init containers of a pod.
pub open spec fn inits_of(spec: PodSpec) -> Seq<Container> {
    match spec.init_containers {
        Some(inits) => inits@,
        None => seq![],
    }
}

/// What one pod books on the node it landed on: the larger of what runs
/// together and what the init phase peaks at, and the pod's overhead on top.
pub open spec fn booked_by(pod: Pod) -> Booking {
    match pod.spec {
        None => Booking::nothing(),
        Some(spec) => running_booked(
            sidecars_booked(inits_of(spec)),
            spec.containers@,
        ).max(init_peak(inits_of(spec))).plus(asked_by(spec.overhead)),
    }
}

/// What one pod has booked on the node it landed on.
///
/// `max(sum of containers and sidecars, peak init container)` plus pod
/// overhead. See the module docs for why each term is there.
#[must_use]
pub fn effective_requests(pod: &Pod) -> (requests: Requests)
    ensures
        requests@ == booked_by(*pod),
{
    let spec = match &pod.spec {
        Some(spec) => spec,
        None => {
            return Requests::default();
        },
    };
    let mut sidecars = Requests::default();
    let mut peak = Requests::default();
    if let Some(inits) = &spec.init_containers {
        let mut i: usize = 0;
        while i < inits.len()
            invariant
                i <= inits@.len(),
                sidecars@ == sidecars_booked(inits@.take(i as int)),
                peak@ == init_peak(inits@.take(i as int)),
            decreases inits@.len() - i,
        {
            let ghost upto = inits@.take(i + 1);
            assert(upto.drop_last() =~= inits@.take(i as int));
            assert(upto.last() == inits@[i as int]);
            let requests = container_requests(&inits[i]);
            peak = peak.max(sidecars.copied().plus(requests.copied()));
            if is_sidecar(&inits[i]) {
                sidecars = sidecars.plus(requests);
            }
            i = i + 1;
        }
        assert(inits@.take(i as int) =~= inits@);
    }
    let mut running = sidecars;
    let ghost base = running@;
    let mut i: usize = 0;
    while i < spec.containers.len()
        invariant
            i <= spec.containers@.len(),
            running@ == running_booked(base, spec.containers@.take(i as int)),
        decreases spec.containers@.len() - i,
    {
        let ghost upto = spec.containers@.take(i + 1);
        assert(upto.drop_last() =~= spec.containers@.take(i as int));
        running = running.plus(container_requests(&spec.containers[i]));
        i = i + 1;
    }
    assert(spec.containers@.take(i as int) =~= spec.containers@);
    running.max(peak).plus(overhead(spec))
}

/// Whether an optional string holds exactly this text.
pub(crate) fn holds(text: &Option<String>, wanted: &str) -> (answer: bool)
    ensures
        answer == (held(*text) == Some(wanted@)),
{
    match text {
        Some(text) => text::same(text.as_str(), wanted),
        None => false,
    }
}

/// An init container that never exits, so it is charged like an app container.
///
/// `restartPolicy: Always` on an init container is the only thing that makes it
/// a sidecar; the field is meaningless on an app container.
pub(crate) fn is_sidecar(container: &Container) -> (answer: bool)
    ensures
        answer == sidecar(*container),
{
    holds(&container.restart_policy, "Always")
}

/// What one container asks for. The API server has already defaulted a missing
/// request to the matching limit.
fn container_requests(container: &Container) -> (requests: Requests)
    ensures
        requests@ == asked_by(container_map(*container)),
{
    match &container.resources {
        Some(resources) => Requests::read(resources.requests.as_ref()),
        None => Requests::read(None),
    }
}

/// What the runtime sandbox itself costs, when a `RuntimeClass` declares it.
fn overhead(spec: &PodSpec) -> (requests: Requests)
    ensures
        requests@ == asked_by(spec.overhead),
{
    Requests::read(spec.overhead.as_ref())
}

/// What the pods on one node add up to.
///
/// Two facts from one walk: a node's pod count and its request totals both
/// rest on deciding, pod by pod, which ones are still occupying the node.
#[derive(Debug, Clone, PartialEq, Eq)]
pub struct Placed {
    /// How many pods are on the node.
    pub pods: u32,
    /// What those pods have booked between them.
    pub requests: Requests,
}

impl Default for Placed {
    /// No pods, holding nothing.
    fn default() -> (placed: Self)
        ensures
            placed.pods == 0,
            placed.requests@ == Booking::nothing(),
    {
        Placed { pods: 0, requests: Requests::default() }
    }
}

/// The phase a pod reports, if it reports one.
pub open spec fn phase_of(pod: Pod) -> Option<Seq<char>> {
    match pod.status {
        Some(status) => held(status.phase),
        None => None,
    }
}

/// Whether a pod has finished.
pub open spec fn finished(pod: Pod) -> bool {
    phase_of(pod) == Some("Succeeded"@) || phase_of(pod) == Some("Failed"@)
}

/// The node a pod is occupying, if it is occupying one.
pub open spec fn node_of(pod: Pod) -> Option<Seq<char>> {
    if finished(pod) {
        None
    } else {
        match pod.spec {
            Some(spec) => match held(spec.node_name) {
                Some(name) => if name.len() > 0 {
                    Some(name)
                } else {
                    None
                },
                None => None,
            },
            None => None,
        }
    }
}

/// What each pod on one node has booked, in the order of the listing.
pub open spec fn bookings_on(pods: Seq<Pod>, node: Seq<char>) -> Seq<Booking>
    decreases pods.len(),
{
    if pods.len() == 0 {
        seq![]
    } else if node_of(pods.last()) == Some(node) {
        bookings_on(pods.drop_last(), node).push(booked_by(pods.last()))
    } else {
        bookings_on(pods.drop_last(), node)
    }
}

/// What several bookings add up to, from the first to the last.
pub open spec fn all_of(bookings: Seq<Booking>) -> Booking
    decreases bookings.len(),
{
    if bookings.len() == 0 {
        Booking::nothing()
    } else {
        all_of(bookings.drop_last()).plus(bookings.last())
    }
}

/// Whether a node's entry says what the pods on it add up to. The count pins at
/// the end of its range.
pub open spec fn places(placed: Placed, bookings: Seq<Booking>) -> bool {
    &&& placed.pods == if bookings.len() > u32::MAX {
        u32::MAX as nat
    } else {
        bookings.len()
    }
    &&& placed.requests@ == all_of(bookings)
}

/// Total what every pod has placed on the node it is on.
///
/// Pods that have finished, and pods the scheduler has not placed yet, are
/// left out: neither is holding anything on a node. A node with no pods is
/// simply absent from the map.
#[must_use]
pub fn by_node(pods: &[Pod]) -> (totals: NameMap<Placed>)
    ensures
        forall|node: Seq<char>| #[trigger]
            totals@.contains_key(node) <==> bookings_on(pods@, node).len() > 0,
        forall|node: Seq<char>| #[trigger]
            totals@.contains_key(node) ==> places(totals@[node], bookings_on(pods@, node)),
{
    let mut totals: NameMap<Placed> = NameMap::new();
    let mut i: usize = 0;
    while i < pods.len()
        invariant
            i <= pods@.len(),
            forall|node: Seq<char>| #[trigger]
                totals@.contains_key(node) <==> bookings_on(pods@.take(i as int), node).len() > 0,
            forall|node: Seq<char>| #[trigger]
                totals@.contains_key(node) ==> places(
                    totals@[node],
                    bookings_on(pods@.take(i as int), node),
                ),
        decreases pods@.len() - i,
    {
        let ghost upto = pods@.take(i + 1);
        assert(upto.drop_last() =~= pods@.take(i as int));
        assert(upto.last() == pods@[i as int]);
        if let Some(node) = occupied_node(&pods[i]) {
            let so_far = match totals.remove(node) {
                Some(so_far) => so_far,
                None => Placed::default(),
            };
            let ghost before = bookings_on(pods@.take(i as int), node@);
            assert(places(so_far, before));
            let more = effective_requests(&pods[i]);
            let placed = Placed {
                pods: so_far.pods.saturating_add(1),
                requests: so_far.requests.plus(more),
            };
            proof {
                let after = bookings_on(upto, node@);
                assert(after.drop_last() =~= before);
                assert(places(placed, after));
            }
            totals.insert(node.to_owned(), placed);
        }
        i = i + 1;
    }
    assert(pods@.take(i as int) =~= pods@);
    totals
}

/// The node a pod is currently occupying, if it is occupying one.
///
/// A pod being deleted is still on its node until the kubelet confirms it is
/// gone, so it counts. Only the two terminal phases do not.
fn occupied_node(pod: &Pod) -> (node: Option<&str>)
    ensures
        match node {
            Some(node) => node_of(*pod) == Some(node@),
            None => node_of(*pod) is None,
        },
{
    if let Some(status) = &pod.status {
        if holds(&status.phase, "Succeeded") || holds(&status.phase, "Failed") {
            return None;
        }
    }
    match &pod.spec {
        Some(spec) => match &spec.node_name {
            Some(name) => {
                if name.as_str().is_empty() {
                    None
                } else {
                    Some(name.as_str())
                }
            },
            None => None,
        },
        None => None,
    }
}

/// A device only one side of a sum or a peak names is not dropped by the side
/// that does not know about it.
pub proof fn law_every_device_survives(left: Booking, right: Booking, name: Seq<char>)
    requires
        left.extended.contains_key(name) || right.extended.contains_key(name),
    ensures
        left.plus(right).extended.contains_key(name),
        left.max(right).extended.contains_key(name),
        amount(left.plus(right).extended, name) == sum_of(
            amount(left.extended, name),
            amount(right.extended, name),
        ),
        left.extended.contains_key(name) && right.extended.contains_key(name) ==> amount(
            left.max(right).extended,
            name,
        ) == larger(amount(left.extended, name), amount(right.extended, name)),
{
}

/// A sum takes its sides in either order.
pub proof fn law_sum_commutes(left: Booking, right: Booking)
    ensures
        left.plus(right) == right.plus(left),
{
    assert(left.plus(right) =~= right.plus(left));
}

/// A peak takes its sides in either order, unless a device that only one side
/// names is asked for in a negative amount.
pub proof fn law_peak_commutes(left: Booking, right: Booking)
    requires
        forall|name: Seq<char>| #[trigger]
            left.extended.contains_key(name) && !right.extended.contains_key(name)
                ==> left.extended[name].thousandths >= 0,
        forall|name: Seq<char>| #[trigger]
            right.extended.contains_key(name) && !left.extended.contains_key(name)
                ==> right.extended[name].thousandths >= 0,
    ensures
        left.max(right) == right.max(left),
{
    assert(left.max(right) =~= right.max(left));
}

/// A pod that has finished, or that the scheduler has not placed, holds nothing
/// on any node: listing it or not makes no difference.
pub proof fn law_finished_pods_hold_nothing(
    before: Seq<Pod>,
    pod: Pod,
    after: Seq<Pod>,
    node: Seq<char>,
)
    requires
        node_of(pod) is None,
    ensures
        bookings_on(before + seq![pod] + after, node) == bookings_on(before + after, node),
    decreases after.len(),
{
    let with = before + seq![pod] + after;
    let without = before + after;
    if after.len() == 0 {
        assert(with.drop_last() =~= before);
        assert(without =~= before);
        assert(with.last() == pod);
    } else {
        law_finished_pods_hold_nothing(before, pod, after.drop_last(), node);
        assert(with.drop_last() =~= before + seq![pod] + after.drop_last());
        assert(without.drop_last() =~= before + after.drop_last());
        assert(with.last() == after.last());
        assert(without.last() == after.last());
    }
}

/// A pod is charged to the node it occupies and to no other.
pub proof fn law_charged_to_one_node(pods: Seq<Pod>, pod: Pod, node: Seq<char>)
    ensures
        bookings_on(pods.push(pod), node) == if node_of(pod) == Some(node) {
            bookings_on(pods, node).push(booked_by(pod))
        } else {
            bookings_on(pods, node)
        },
{
    assert(pods.push(pod).drop_last() =~= pods);
}

proof fn lemma_next_name(names: Seq<Seq<char>>, i: int)
    requires
        crate::name_map::in_order(names),
        0 <= i < names.len(),
    ensures
        !names.take(i).contains(names[i]),
        forall|name: Seq<char>|
            #![trigger names.take(i + 1).contains(name)]
            #![trigger names.take(i).contains(name)]
            names.take(i + 1).contains(name) <==> names.take(i).contains(name) || name == names[i],
{
    let before = names.take(i);
    let after = names.take(i + 1);
    if before.contains(names[i]) {
        let j = before.index_of(names[i]);
        assert(names[j] == names[i]);
        text::lemma_sorts_before_total(names[j], names[i]);
    }
    assert forall|name: Seq<char>| after.contains(name) implies before.contains(name) || name
        == names[i] by {
        let j = after.index_of(name);
        if j < i {
            assert(before[j] == name);
        }
    }
    assert forall|name: Seq<char>| before.contains(name) || name == names[i] implies after.contains(
        name,
    ) by {
        if name == names[i] {
            assert(after[i] == name);
        } else {
            let j = before.index_of(name);
            assert(after[j] == name);
        }
    }
}

} // verus!
