//! What a pod books, in plain numbers.

use vstd::prelude::*;

use crate::k8s::api::{ApiQuantity, Container, Pod, PodSpec};
use crate::k8s::pods::{
    all_of, asked_by, booked_by, bookings_on, container_map, init_peak, inits_of, places,
    running_booked, sidecars_booked, Booking, Placed,
};
use crate::k8s::quantity::{reading, Reading};
use crate::k8s::resource::extended_name;
use crate::laws::{lemma_sum_at_least, lemma_sum_push, sum};
use crate::name_map::NameMap;

verus! {

/// How many thousandths of a resource a list of requests names: none where it does
/// not name the resource, or names an amount that cannot be read.
pub open spec fn asks(map: Option<NameMap<ApiQuantity>>, name: Seq<char>) -> int {
    if map is Some && map->0@.contains_key(name) {
        match reading(map->0@[name].0@) {
            Reading::Thousandths(thousandths) => thousandths,
            _ => 0,
        }
    } else {
        0
    }
}

/// How many thousandths of a resource a container asks for.
pub open spec fn container_asks(container: Container, name: Seq<char>) -> int {
    if container.resources is Some {
        asks(container.resources->0.requests, name)
    } else {
        0
    }
}

/// Whether an init container goes on running beside the app containers.
pub open spec fn keeps_running(container: Container) -> bool {
    container.restart_policy is Some && container.restart_policy->0@ == "Always"@
}

/// What each of these containers asks for.
pub open spec fn each_asks(containers: Seq<Container>, name: Seq<char>) -> Seq<int> {
    Seq::new(containers.len(), |i: int| container_asks(containers[i], name))
}

/// What each of these init containers asks for that goes on running, and nothing
/// for the others.
pub open spec fn each_keeps(inits: Seq<Container>, name: Seq<char>) -> Seq<int> {
    Seq::new(
        inits.len(),
        |i: int|
            if keeps_running(inits[i]) {
                container_asks(inits[i], name)
            } else {
                0
            },
    )
}

/// What is booked while the init container at a place runs: what it asks for, and
/// what is kept of those before it.
pub open spec fn while_starting(inits: Seq<Container>, name: Seq<char>, place: int) -> int {
    sum(each_keeps(inits, name).take(place)) + container_asks(inits[place], name)
}

/// How many thousandths of a resource a booking holds.
pub open spec fn figure(booking: Booking, name: Seq<char>) -> int {
    if name == "cpu"@ {
        booking.cpu.thousandths as int
    } else if name == "memory"@ {
        booking.memory.thousandths as int
    } else if booking.extended.contains_key(name) {
        booking.extended[name].thousandths as int
    } else {
        0
    }
}

/// Whether a resource is one that is booked: CPU, memory, or a device.
pub open spec fn is_booked(name: Seq<char>) -> bool {
    name == "cpu"@ || name == "memory"@ || extended_name(name)
}

/// Whether none of these containers asks for a negative amount.
pub open spec fn owes_nothing(containers: Seq<Container>, name: Seq<char>) -> bool {
    forall|i: int|
        0 <= i < containers.len() ==> container_asks(#[trigger] containers[i], name) >= 0
}

/// The init containers that a pod declares.
pub open spec fn starting(spec: PodSpec) -> Seq<Container> {
    if spec.init_containers is Some {
        spec.init_containers->0@
    } else {
        seq![]
    }
}

/// Whether the amounts a pod asks for of a resource are not negative, and add up to
/// a number that can be held.
pub open spec fn countable(spec: PodSpec, name: Seq<char>) -> bool {
    &&& owes_nothing(starting(spec), name)
    &&& owes_nothing(spec.containers@, name)
    &&& asks(spec.overhead, name) >= 0
    &&& sum(each_asks(starting(spec), name)) + sum(each_asks(spec.containers@, name)) + asks(
        spec.overhead,
        name,
    ) <= i128::MAX
}

proof fn lemma_asked(map: Option<NameMap<ApiQuantity>>, name: Seq<char>)
    requires
        is_booked(name),
    ensures
        figure(asked_by(map), name) == asks(map, name),
        i128::MIN <= asks(map, name) <= i128::MAX,
{
}

proof fn lemma_container(container: Container, name: Seq<char>)
    requires
        is_booked(name),
    ensures
        figure(asked_by(container_map(container)), name) == container_asks(container, name),
{
    lemma_asked(container_map(container), name);
}

proof fn lemma_plus(left: Booking, right: Booking, name: Seq<char>)
    requires
        i128::MIN <= figure(left, name) + figure(right, name) <= i128::MAX,
    ensures
        figure(left.plus(right), name) == figure(left, name) + figure(right, name),
{
}

proof fn lemma_max(left: Booking, right: Booking, name: Seq<char>)
    requires
        figure(left, name) >= 0,
        figure(right, name) >= 0,
    ensures
        figure(left.max(right), name) == if figure(left, name) >= figure(right, name) {
            figure(left, name)
        } else {
            figure(right, name)
        },
{
}

proof fn lemma_asks_longer(containers: Seq<Container>, name: Seq<char>)
    requires
        containers.len() > 0,
    ensures
        sum(each_asks(containers, name)) == sum(each_asks(containers.drop_last(), name))
            + container_asks(containers.last(), name),
        sum(each_keeps(containers, name)) == sum(each_keeps(containers.drop_last(), name)) + if
            keeps_running(containers.last()) {
            container_asks(containers.last(), name)
        } else {
            0
        },
{
    let before = containers.drop_last();
    assert(each_asks(containers, name).drop_last() =~= each_asks(before, name));
    assert(each_keeps(containers, name).drop_last() =~= each_keeps(before, name));
}

proof fn lemma_owes_nothing(containers: Seq<Container>, name: Seq<char>)
    requires
        owes_nothing(containers, name),
    ensures
        containers.len() > 0 ==> owes_nothing(containers.drop_last(), name) && container_asks(
            containers.last(),
            name,
        ) >= 0,
        0 <= sum(each_keeps(containers, name)) <= sum(each_asks(containers, name)),
    decreases containers.len(),
{
    if containers.len() > 0 {
        let before = containers.drop_last();
        assert forall|i: int| 0 <= i < before.len() implies container_asks(
            #[trigger] before[i],
            name,
        ) >= 0 by {
            assert(before[i] == containers[i]);
        }
        assert(containers.last() == containers[containers.len() - 1]);
        lemma_owes_nothing(before, name);
        lemma_asks_longer(containers, name);
    }
}

proof fn lemma_sidecars(inits: Seq<Container>, name: Seq<char>)
    requires
        is_booked(name),
        owes_nothing(inits, name),
        sum(each_asks(inits, name)) <= i128::MAX,
    ensures
        figure(sidecars_booked(inits), name) == sum(each_keeps(inits, name)),
    decreases inits.len(),
{
    if inits.len() > 0 {
        let before = inits.drop_last();
        lemma_owes_nothing(inits, name);
        lemma_owes_nothing(before, name);
        lemma_asks_longer(inits, name);
        lemma_sidecars(before, name);
        lemma_container(inits.last(), name);
        if keeps_running(inits.last()) {
            lemma_plus(
                sidecars_booked(before),
                asked_by(container_map(inits.last())),
                name,
            );
        }
    }
}

proof fn lemma_running(base: Booking, apps: Seq<Container>, name: Seq<char>)
    requires
        is_booked(name),
        owes_nothing(apps, name),
        figure(base, name) >= 0,
        figure(base, name) + sum(each_asks(apps, name)) <= i128::MAX,
    ensures
        figure(running_booked(base, apps), name) == figure(base, name) + sum(
            each_asks(apps, name),
        ),
    decreases apps.len(),
{
    lemma_owes_nothing(apps, name);
    if apps.len() > 0 {
        let before = apps.drop_last();
        lemma_owes_nothing(before, name);
        lemma_asks_longer(apps, name);
        lemma_running(base, before, name);
        lemma_container(apps.last(), name);
        lemma_plus(
            running_booked(base, before),
            asked_by(container_map(apps.last())),
            name,
        );
    }
}

proof fn lemma_peak(inits: Seq<Container>, name: Seq<char>)
    requires
        is_booked(name),
        owes_nothing(inits, name),
        sum(each_asks(inits, name)) <= i128::MAX,
    ensures
        figure(init_peak(inits), name) >= 0,
        figure(init_peak(inits), name) <= sum(each_asks(inits, name)),
        forall|i: int|
            0 <= i < inits.len() ==> figure(init_peak(inits), name) >= #[trigger] while_starting(
                inits,
                name,
                i,
            ),
        figure(init_peak(inits), name) == 0 || exists|i: int|
            0 <= i < inits.len() && figure(init_peak(inits), name) == #[trigger] while_starting(
                inits,
                name,
                i,
            ),
    decreases inits.len(),
{
    if inits.len() > 0 {
        let before = inits.drop_last();
        let last = inits.len() - 1;
        lemma_owes_nothing(inits, name);
        lemma_owes_nothing(before, name);
        lemma_asks_longer(inits, name);
        lemma_peak(before, name);
        lemma_sidecars(before, name);
        lemma_container(inits.last(), name);
        let now = sidecars_booked(before).plus(asked_by(container_map(inits.last())));
        lemma_plus(sidecars_booked(before), asked_by(container_map(inits.last())), name);
        lemma_max(init_peak(before), now, name);
        assert(each_keeps(inits, name).take(last) =~= each_keeps(before, name));
        assert(figure(now, name) == while_starting(inits, name, last));
        assert forall|i: int| 0 <= i < last implies #[trigger] while_starting(inits, name, i)
            == while_starting(before, name, i) by {
            assert(each_keeps(inits, name).take(i) =~= each_keeps(before, name).take(i));
        }
        assert forall|i: int| 0 <= i < inits.len() implies figure(init_peak(inits), name)
            >= #[trigger] while_starting(inits, name, i) by {
            if i < last {
                assert(figure(init_peak(before), name) >= while_starting(before, name, i));
            }
        }
        if figure(init_peak(inits), name) != 0 {
            if figure(init_peak(before), name) >= figure(now, name) {
                let i = choose|i: int|
                    0 <= i < before.len() && figure(init_peak(before), name)
                        == #[trigger] while_starting(before, name, i);
                assert(while_starting(inits, name, i) == while_starting(before, name, i));
            } else {
                assert(while_starting(inits, name, last) == figure(now, name));
            }
        }
    }
}

/// What a pod books of a resource, its overhead aside, covers what its app
/// containers and sidecars ask for together, and what is booked while each init
/// container runs; and it is no more than the largest of these.
pub proof fn law_booking_is_what_is_needed_at_most_at_once(
    pod: Pod,
    spec: PodSpec,
    name: Seq<char>,
)
    requires
        pod.spec == Some(spec),
        is_booked(name),
        countable(spec, name),
    ensures
        ({
            let inits = starting(spec);
            let booked = figure(booked_by(pod), name) - asks(spec.overhead, name);
            let together = sum(each_keeps(inits, name)) + sum(each_asks(spec.containers@, name));
            &&& booked >= together
            &&& forall|i: int|
                0 <= i < inits.len() ==> booked >= #[trigger] while_starting(inits, name, i)
            &&& booked == together || exists|i: int|
                0 <= i < inits.len() && booked == #[trigger] while_starting(inits, name, i)
        }),
{
    let inits = starting(spec);
    let apps = spec.containers@;
    assert(inits == inits_of(spec));
    lemma_owes_nothing(inits, name);
    lemma_owes_nothing(apps, name);
    lemma_sidecars(inits, name);
    lemma_peak(inits, name);
    let base = sidecars_booked(inits);
    lemma_running(base, apps, name);
    let running = running_booked(base, apps);
    lemma_max(running, init_peak(inits), name);
    lemma_asked(spec.overhead, name);
    lemma_plus(running.max(init_peak(inits)), asked_by(spec.overhead), name);
    if figure(init_peak(inits), name) == 0 {
        assert(figure(running, name) >= 0);
    }
}

/// Where every init container is a sidecar, a pod books the sum of what its sidecars
/// and its app containers ask for, and its overhead.
pub proof fn law_sidecars_are_charged_in_full(pod: Pod, spec: PodSpec, name: Seq<char>)
    requires
        pod.spec == Some(spec),
        is_booked(name),
        countable(spec, name),
        forall|i: int| 0 <= i < starting(spec).len() ==> keeps_running(#[trigger] starting(spec)[i]),
    ensures
        figure(booked_by(pod), name) == sum(each_asks(starting(spec), name)) + sum(
            each_asks(spec.containers@, name),
        ) + asks(spec.overhead, name),
{
    let inits = starting(spec);
    law_booking_is_what_is_needed_at_most_at_once(pod, spec, name);
    lemma_owes_nothing(spec.containers@, name);
    let kept = each_keeps(inits, name);
    let all = each_asks(inits, name);
    assert(kept =~= all);
    assert forall|i: int| 0 <= i < kept.len() implies #[trigger] kept[i] >= 0 by {
        assert(container_asks(inits[i], name) >= 0);
    }
    lemma_sum_at_least(kept);
    assert forall|i: int| 0 <= i < inits.len() implies #[trigger] while_starting(inits, name, i)
        <= sum(all) by {
        assert(kept.take(i + 1) =~= kept.take(i).push(kept[i]));
        lemma_sum_push(kept.take(i), kept[i]);
        assert(sum(kept.take(i + 1)) <= sum(kept));
    }
}

/// One more sidecar raises what such a pod books by exactly what it asks for,
/// whatever other sidecars there are.
pub proof fn law_one_more_sidecar_costs_what_it_asks(
    fewer: Pod,
    fewer_spec: PodSpec,
    more: Pod,
    more_spec: PodSpec,
    sidecar: Container,
    name: Seq<char>,
)
    requires
        fewer.spec == Some(fewer_spec),
        more.spec == Some(more_spec),
        is_booked(name),
        countable(more_spec, name),
        keeps_running(sidecar),
        forall|i: int|
            0 <= i < starting(fewer_spec).len() ==> keeps_running(
                #[trigger] starting(fewer_spec)[i],
            ),
        starting(more_spec) == starting(fewer_spec).push(sidecar),
        more_spec.containers@ == fewer_spec.containers@,
        more_spec.overhead == fewer_spec.overhead,
    ensures
        figure(booked_by(more), name) == figure(booked_by(fewer), name) + container_asks(
            sidecar,
            name,
        ),
{
    let inits = starting(more_spec);
    lemma_owes_nothing(inits, name);
    lemma_asks_longer(inits, name);
    assert(inits.drop_last() =~= starting(fewer_spec));
    assert forall|i: int| 0 <= i < inits.len() implies keeps_running(#[trigger] inits[i]) by {
        if i < starting(fewer_spec).len() {
            assert(inits[i] == starting(fewer_spec)[i]);
        }
    }
    law_sidecars_are_charged_in_full(more, more_spec, name);
    law_sidecars_are_charged_in_full(fewer, fewer_spec, name);
}

/// Only what is a device is booked beside CPU and memory: nothing else a container
/// names adds an entry.
pub proof fn law_only_devices_are_extended(pod: Pod, name: Seq<char>)
    requires
        booked_by(pod).extended.contains_key(name),
    ensures
        extended_name(name),
        pod.spec is Some,
        one_names(starting(pod.spec->0), name) || one_names(pod.spec->0.containers@, name)
            || names(pod.spec->0.overhead, name),
{
    let spec = pod.spec->0;
    let inits = starting(spec);
    let base = sidecars_booked(inits);
    assert(inits == inits_of(spec));
    if running_booked(base, spec.containers@).extended.contains_key(name) {
        lemma_running_names(base, spec.containers@, name);
        if base.extended.contains_key(name) {
            lemma_sidecars_name(inits, name);
        }
    } else if init_peak(inits).extended.contains_key(name) {
        lemma_peak_names(inits, name);
    }
}

/// Whether a list of requests names a resource.
pub open spec fn names(map: Option<NameMap<ApiQuantity>>, name: Seq<char>) -> bool {
    map is Some && map->0@.contains_key(name)
}

/// Whether one of these containers names a resource among its requests.
pub open spec fn one_names(containers: Seq<Container>, name: Seq<char>) -> bool {
    exists|i: int|
        0 <= i < containers.len() && (#[trigger] containers[i]).resources is Some && names(
            containers[i].resources->0.requests,
            name,
        )
}

proof fn lemma_one_names(containers: Seq<Container>, name: Seq<char>)
    requires
        containers.len() > 0,
        one_names(containers.drop_last(), name) || names(container_map(containers.last()), name),
    ensures
        one_names(containers, name),
{
    if one_names(containers.drop_last(), name) {
        let before = containers.drop_last();
        let i = choose|i: int|
            0 <= i < before.len() && (#[trigger] before[i]).resources is Some && names(
                before[i].resources->0.requests,
                name,
            );
        assert(containers[i] == before[i]);
    } else {
        assert(containers[containers.len() - 1] == containers.last());
    }
}

proof fn lemma_sidecars_name(inits: Seq<Container>, name: Seq<char>)
    requires
        sidecars_booked(inits).extended.contains_key(name),
    ensures
        extended_name(name),
        one_names(inits, name),
    decreases inits.len(),
{
    if inits.len() > 0 {
        if sidecars_booked(inits.drop_last()).extended.contains_key(name) {
            lemma_sidecars_name(inits.drop_last(), name);
        }
        lemma_one_names(inits, name);
    }
}

proof fn lemma_peak_names(inits: Seq<Container>, name: Seq<char>)
    requires
        init_peak(inits).extended.contains_key(name),
    ensures
        extended_name(name),
        one_names(inits, name),
    decreases inits.len(),
{
    if inits.len() > 0 {
        let before = inits.drop_last();
        if init_peak(before).extended.contains_key(name) {
            lemma_peak_names(before, name);
        } else if sidecars_booked(before).extended.contains_key(name) {
            lemma_sidecars_name(before, name);
        }
        lemma_one_names(inits, name);
    }
}

proof fn lemma_running_names(base: Booking, apps: Seq<Container>, name: Seq<char>)
    requires
        running_booked(base, apps).extended.contains_key(name),
    ensures
        base.extended.contains_key(name) || extended_name(name) && one_names(apps, name),
    decreases apps.len(),
{
    if apps.len() > 0 {
        let before = apps.drop_last();
        if running_booked(base, before).extended.contains_key(name) {
            lemma_running_names(base, before, name);
            if !base.extended.contains_key(name) {
                lemma_one_names(apps, name);
            }
        } else {
            lemma_one_names(apps, name);
        }
    }
}

/// Whether a pod is on a node: it was placed there, and has not finished.
pub open spec fn is_on(pod: Pod, node: Seq<char>) -> bool {
    &&& node.len() > 0
    &&& pod.spec is Some
    &&& pod.spec->0.node_name is Some
    &&& pod.spec->0.node_name->0@ == node
    &&& !(pod.status is Some && pod.status->0.phase is Some && (pod.status->0.phase->0@
        == "Succeeded"@ || pod.status->0.phase->0@ == "Failed"@))
}

/// What each pod books of a resource on a node: nothing where it is not there.
pub open spec fn each_books(pods: Seq<Pod>, node: Seq<char>, name: Seq<char>) -> Seq<int> {
    Seq::new(
        pods.len(),
        |i: int|
            if is_on(pods[i], node) {
                figure(booked_by(pods[i]), name)
            } else {
                0
            },
    )
}

/// One for each pod on a node.
pub open spec fn each_counts(pods: Seq<Pod>, node: Seq<char>) -> Seq<int> {
    Seq::new(
        pods.len(),
        |i: int|
            if is_on(pods[i], node) {
                1int
            } else {
                0
            },
    )
}

/// The pods on a node are counted one by one, and what is booked there is the sum of
/// what each of them books.
pub proof fn law_node_total_is_the_sum_of_its_pods(
    pods: Seq<Pod>,
    node: Seq<char>,
    name: Seq<char>,
)
    ensures
        bookings_on(pods, node).len() == sum(each_counts(pods, node)),
        (forall|i: int|
            0 <= i < pods.len() ==> #[trigger] each_books(pods, node, name)[i] >= 0) && sum(
            each_books(pods, node, name),
        ) <= i128::MAX ==> figure(all_of(bookings_on(pods, node)), name) == sum(
            each_books(pods, node, name),
        ),
    decreases pods.len(),
{
    let all = each_books(pods, node, name);
    if pods.len() > 0 {
        let before = pods.drop_last();
        law_node_total_is_the_sum_of_its_pods(before, node, name);
        assert(all.drop_last() =~= each_books(before, node, name));
        assert(each_counts(pods, node).drop_last() =~= each_counts(before, node));
        assert(is_on(pods.last(), node) == (crate::k8s::pods::node_of(pods.last()) == Some(node)));
        if (forall|i: int| 0 <= i < pods.len() ==> #[trigger] all[i] >= 0) && sum(all)
            <= i128::MAX {
            let had = each_books(before, node, name);
            assert forall|i: int| 0 <= i < before.len() implies #[trigger] had[i] >= 0 by {
                assert(had[i] == all[i]);
            }
            assert(all[pods.len() - 1] >= 0);
            lemma_sum_at_least(had);
            let list = bookings_on(before, node);
            if is_on(pods.last(), node) {
                assert(bookings_on(pods, node).drop_last() =~= list);
                lemma_plus(all_of(list), booked_by(pods.last()), name);
            }
        }
    }
}

/// A node counts every booking on it, up to the largest count there is.
pub proof fn law_nodes_count_their_bookings(placed: Placed, bookings: Seq<Booking>)
    requires
        places(placed, bookings),
    ensures
        bookings.len() <= 4_294_967_295 ==> placed.pods == bookings.len(),
        bookings.len() > 4_294_967_295 ==> placed.pods == 4_294_967_295,
        placed.requests@ == all_of(bookings),
{
}

/// Whether a domain is Kubernetes' own, or below it.
pub open spec fn is_kubernetes(domain: Seq<char>) -> bool {
    let own = "kubernetes.io"@;
    ||| domain == own
    ||| domain.len() > own.len() && domain.skip(domain.len() - own.len()) == own
        && domain[domain.len() - own.len() - 1] == '.'
}

/// A device is named by a domain that is not Kubernetes', a slash, and something
/// behind it; a name without a slash is none.
pub proof fn law_devices_are_named_by_a_domain(domain: Seq<char>, rest: Seq<char>)
    requires
        !domain.contains('/'),
    ensures
        extended_name(domain + seq!['/'] + rest) <==> rest.len() > 0 && !is_kubernetes(domain),
        !extended_name(domain),
{
    let name = domain + seq!['/'] + rest;
    let slash = domain.len() as int;
    reveal_strlit("kubernetes.io");
    reveal_strlit(".kubernetes.io");
    assert(".kubernetes.io"@ =~= seq!['.'] + "kubernetes.io"@);
    assert(name[slash] == '/');
    assert(name.contains('/'));
    name.index_of_first_ensures('/');
    let first = name.index_of_first('/')->0;
    assert(first == slash) by {
        if first < slash {
            assert(name[first] == domain[first]);
            assert(domain.contains('/'));
        }
    }
    assert(name.take(slash) =~= domain);
    let own = "kubernetes.io"@;
    let below = ".kubernetes.io"@;
    if below.is_suffix_of(domain) {
        let tail = domain.subrange(domain.len() - below.len(), domain.len() as int);
        assert(tail == below);
        assert(domain.skip(domain.len() - own.len()) =~= tail.skip(1));
        assert(tail.skip(1) =~= own);
        assert(domain[domain.len() - own.len() - 1] == tail[0]);
    }
    if is_kubernetes(domain) && domain != own {
        let tail = domain.subrange(domain.len() - below.len(), domain.len() as int);
        assert forall|i: int| 0 <= i < below.len() implies tail[i] == below[i] by {
            if i > 0 {
                assert(domain.skip(domain.len() - own.len())[i - 1] == own[i - 1]);
            }
        }
        assert(tail =~= below);
    }
}

} // verus!
