//! The parts of the API server's objects that anything here reads.
//!
//! The names and the optionality of every field are the API's: what a server
//! may leave out is an `Option`, and a map or a list it left out is told apart
//! from an empty one.

use vstd::prelude::*;
use vstd::string::*;

use crate::name_map::NameMap;
use crate::time::Timestamp;

verus! {

/// A resource quantity as the API server writes it.
#[derive(Debug, Clone, Default, PartialEq, Eq)]
pub struct ApiQuantity(pub String);

/// What every object carries.
#[derive(Debug, Clone, Default, PartialEq, Eq)]
pub struct ObjectMeta {
    pub name: Option<String>,
    pub namespace: Option<String>,
    pub creation_timestamp: Option<Timestamp>,
    pub deletion_timestamp: Option<Timestamp>,
}

/// What a container asks for.
#[derive(Debug, Clone, Default, PartialEq, Eq)]
pub struct ResourceRequirements {
    pub requests: Option<NameMap<ApiQuantity>>,
}

/// One container of a pod, as declared.
#[derive(Debug, Clone, Default, PartialEq, Eq)]
pub struct Container {
    pub name: String,
    pub image: Option<String>,
    pub restart_policy: Option<String>,
    pub resources: Option<ResourceRequirements>,
}

/// A condition a pod has to meet, beyond its containers being ready.
#[derive(Debug, Clone, Default, PartialEq, Eq)]
pub struct PodReadinessGate {
    pub condition_type: String,
}

/// A pod, as declared.
#[derive(Debug, Clone, Default, PartialEq, Eq)]
pub struct PodSpec {
    pub containers: Vec<Container>,
    pub init_containers: Option<Vec<Container>>,
    pub node_name: Option<String>,
    pub overhead: Option<NameMap<ApiQuantity>>,
    pub readiness_gates: Option<Vec<PodReadinessGate>>,
}

/// One aspect of a pod's state.
#[derive(Debug, Clone, Default, PartialEq, Eq)]
pub struct PodCondition {
    pub type_: String,
    pub status: String,
    pub reason: Option<String>,
}

/// One address of a pod.
#[derive(Debug, Clone, Default, PartialEq, Eq)]
pub struct PodIP {
    pub ip: String,
}

/// A container that is running.
#[derive(Debug, Clone, Default, PartialEq, Eq)]
pub struct ContainerStateRunning {
    pub started_at: Option<Timestamp>,
}

/// A container that waits.
#[derive(Debug, Clone, Default, PartialEq, Eq)]
pub struct ContainerStateWaiting {
    pub reason: Option<String>,
}

/// A container that has ended.
#[derive(Debug, Clone, Default, PartialEq, Eq)]
pub struct ContainerStateTerminated {
    pub exit_code: i32,
    pub signal: Option<i32>,
    pub reason: Option<String>,
    pub finished_at: Option<Timestamp>,
}

/// What a container is doing. At most one of the three is there.
#[derive(Debug, Clone, Default, PartialEq, Eq)]
pub struct ContainerState {
    pub running: Option<ContainerStateRunning>,
    pub terminated: Option<ContainerStateTerminated>,
    pub waiting: Option<ContainerStateWaiting>,
}

/// One container of a pod, as observed.
#[derive(Debug, Clone, Default, PartialEq, Eq)]
pub struct ContainerStatus {
    pub name: String,
    pub image: String,
    pub ready: bool,
    pub restart_count: i32,
    pub started: Option<bool>,
    pub state: Option<ContainerState>,
    pub last_state: Option<ContainerState>,
}

/// A pod, as observed.
#[derive(Debug, Clone, Default, PartialEq, Eq)]
pub struct PodStatus {
    pub phase: Option<String>,
    pub reason: Option<String>,
    pub conditions: Option<Vec<PodCondition>>,
    pub container_statuses: Option<Vec<ContainerStatus>>,
    pub init_container_statuses: Option<Vec<ContainerStatus>>,
    pub nominated_node_name: Option<String>,
    pub pod_ip: Option<String>,
    pub pod_ips: Option<Vec<PodIP>>,
}

/// A pod.
#[derive(Debug, Clone, Default, PartialEq, Eq)]
pub struct Pod {
    pub metadata: ObjectMeta,
    pub spec: Option<PodSpec>,
    pub status: Option<PodStatus>,
}

/// Repeats of one event, batched by the server.
#[derive(Debug, Clone, Default, PartialEq, Eq)]
pub struct EventSeries {
    pub count: Option<i32>,
    pub last_observed_time: Option<Timestamp>,
}

/// Something that happened to an object.
#[derive(Debug, Clone, Default, PartialEq, Eq)]
pub struct Event {
    pub metadata: ObjectMeta,
    pub reason: Option<String>,
    pub message: Option<String>,
    pub type_: Option<String>,
    pub count: Option<i32>,
    pub event_time: Option<Timestamp>,
    pub last_timestamp: Option<Timestamp>,
    pub series: Option<EventSeries>,
}

} // verus!
