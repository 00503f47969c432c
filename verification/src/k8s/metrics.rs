//! What metrics-server samples.

use vstd::prelude::*;

use crate::k8s::api::ApiQuantity;
use crate::k8s::pods::reported;
use crate::k8s::quantity::{total_of, Quantity};
use crate::name_map::NameMap;

verus! {

/// What something is actually using. A figure that could not be had is missing
/// rather than zero.
#[derive(Debug, Clone, Copy, PartialEq, Eq, Structural)]
pub struct Usage {
    /// Cores in use.
    pub cpu: Option<Quantity>,
    /// Memory in use.
    pub memory: Option<Quantity>,
}

/// What one container is using: an amount by name of resource.
#[derive(Debug, Clone)]
pub struct ContainerSample {
    /// The amounts, as the API server writes them.
    pub usage: NameMap<ApiQuantity>,
}

/// How much of a resource a container uses, where a figure was sampled and can be
/// read.
pub open spec fn figure(sample: ContainerSample, name: Seq<char>) -> Option<Quantity> {
    reported(Some(sample.usage), name)
}

/// The figures of these containers, in order, where each has one.
pub open spec fn figures(containers: Seq<ContainerSample>, name: Seq<char>) -> Seq<Quantity> {
    Seq::new(containers.len(), |i: int| figure(containers[i], name)->0)
}

/// How much of a resource these containers use together. There is no such figure
/// where there is no container, or where one of them has none: the sum of the
/// others would be a smaller amount than is in use.
pub open spec fn together(containers: Seq<ContainerSample>, name: Seq<char>) -> Option<Quantity> {
    if containers.len() > 0 && forall|i: int|
        0 <= i < containers.len() ==> figure(#[trigger] containers[i], name) is Some {
        Some(total_of(figures(containers, name)))
    } else {
        None
    }
}

fn figure_of(sample: &ContainerSample, name: &str) -> (used: Option<Quantity>)
    ensures
        used == figure(*sample, name@),
{
    Quantity::lookup(Some(&sample.usage), name)
}

fn together_of(containers: &[ContainerSample], name: &str) -> (used: Option<Quantity>)
    ensures
        used == together(containers@, name@),
{
    let mut total = Quantity { thousandths: 0 };
    let mut i: usize = 0;
    while i < containers.len()
        invariant
            i <= containers@.len(),
            total == total_of(figures(containers@.take(i as int), name@)),
            forall|j: int|
                0 <= j < i ==> figure(#[trigger] containers@[j], name@) is Some,
        decreases containers@.len() - i,
    {
        let used = match figure_of(&containers[i], name) {
            Some(used) => used,
            None => {
                assert(figure(containers@[i as int], name@) is None);
                return None;
            },
        };
        proof {
            let before = figures(containers@.take(i as int), name@);
            let after = figures(containers@.take(i + 1), name@);
            assert(after.drop_last() =~= before);
            assert(after.last() == used);
        }
        total = total + used;
        i = i + 1;
    }
    assert(containers@.take(i as int) =~= containers@);
    if i == 0 {
        return None;
    }
    Some(total)
}

/// What a pod is using: what its containers use together.
#[must_use]
pub fn pod_usage(containers: &[ContainerSample]) -> (usage: Usage)
    ensures
        usage.cpu == together(containers@, "cpu"@),
        usage.memory == together(containers@, "memory"@),
{
    Usage { cpu: together_of(containers, "cpu"), memory: together_of(containers, "memory") }
}

} // verus!
