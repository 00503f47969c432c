//! How a listing of pods is ordered, and what its rows and columns are.

use vstd::prelude::*;

use crate::format::{duration_text, percentage_text, Width};
use crate::k8s::api::{Pod, PodReadinessGate};
use crate::k8s::metrics::{together, ContainerSample, Usage};
use crate::k8s::order::{Cause, Direction};
use crate::k8s::pods::order::{
    alternatives, any_ranked, arranged, choice_of, is_ranked, law_sorting_arranges, note_text,
    others, placement, unranked_text, Order,
};
use crate::k8s::pods::row::{
    columns_of, describes, drops, empty_text, gates_met, kept, layout, narrowed, rendered,
    selector_text, Column, PodRow,
};
use crate::k8s::pods::status::{
    expected, ready_count, restarts_that_matter, severity_of, status_text,
};
use crate::k8s::pods::{booked_by, Scope, Selectors};
use crate::k8s::quantity::{cpu_text, memory_text, Quantity, Ratio};
use crate::laws::booking::figure;
use crate::laws::status::{is_true, lemma_is_true};
use crate::laws::sum;
use crate::text::{decimal, decimal_nat, joined, sorts_before};
use crate::time::{seconds_between, Timestamp};

verus! {

/// Whether a row does not come behind another in the alphabet: by namespace, and by
/// name within one.
pub open spec fn alphabet_allows(left: PodRow, right: PodRow) -> bool {
    &&& !sorts_before(right.namespace@, left.namespace@)
    &&& left.namespace@ == right.namespace@ ==> !sorts_before(right.name@, left.name@)
}

/// The number that an ordering goes by, where a row has one.
pub open spec fn measure_of(row: PodRow, order: Order) -> Option<int> {
    if order is Age && row.created_at is Some {
        Some(row.created_at->0.nanosecond as int)
    } else if order is Restarts && row.last_restart is Some {
        Some(row.last_restart->0.nanosecond as int)
    } else if order is Cpu && row.cpu_used is Some {
        Some(row.cpu_used->0.thousandths as int)
    } else if order is Memory && row.memory_used is Some {
        Some(row.memory_used->0.thousandths as int)
    } else {
        None
    }
}

/// Of two rows of a sorted listing, the first has what the ordering goes by if the
/// second has; of two that have it, the larger comes first, or last in reverse; and
/// the alphabet decides between two that are alike. Rows that restarted at the same
/// moment go by how often, and where no moment is known, those that restarted at all
/// come before those that did not.
pub proof fn law_sorted_rows_run_down(
    rows: Seq<PodRow>,
    order: Order,
    direction: Direction,
    i: int,
    j: int,
)
    requires
        0 <= i < j < rows.len(),
    ensures
        ({
            let sorted = arranged(rows, order, direction);
            let left = sorted[i];
            let right = sorted[j];
            let a = measure_of(left, order);
            let b = measure_of(right, order);
            &&& sorted.len() == rows.len()
            &&& sorted.to_multiset() == rows.to_multiset()
            &&& order is Name && direction is Natural ==> alphabet_allows(left, right)
            &&& order is Name && direction is Reversed ==> alphabet_allows(right, left)
            &&& !(order is Name) ==> {
                &&& b is Some ==> a is Some
                &&& a is Some && b is Some && direction is Natural ==> a->0 >= b->0
                &&& a is Some && b is Some && direction is Reversed ==> a->0 <= b->0
                &&& !(order is Restarts) && a == b ==> alphabet_allows(left, right)
            }
            &&& order is Restarts && a is Some && a == b ==> {
                &&& direction is Natural ==> left.restarts >= right.restarts
                &&& direction is Reversed ==> left.restarts <= right.restarts
                &&& left.restarts == right.restarts ==> alphabet_allows(left, right)
            }
            &&& order is Restarts && a is None && b is None ==> {
                &&& right.restarts > 0 ==> left.restarts > 0
                &&& left.restarts == right.restarts ==> alphabet_allows(left, right)
            }
        }),
{
    law_sorting_arranges(rows, order, direction);
    let sorted = arranged(rows, order, direction);
    let left = sorted[i];
    let right = sorted[j];
    assert(!(placement(left, right, order, direction) is After));
    crate::text::lemma_sorts_before_total(left.namespace@, right.namespace@);
    crate::text::lemma_sorts_before_total(right.namespace@, left.namespace@);
    crate::text::lemma_sorts_before_total(left.name@, right.name@);
    crate::text::lemma_sorts_before_total(right.name@, left.name@);
}

/// An ordering has something to rank exactly where a row has what it goes by, or has
/// restarted where it goes by restarts; and every row has a name.
pub proof fn law_rankable_is_what_has_a_measure(rows: Seq<PodRow>, order: Order)
    ensures
        any_ranked(rows, order) <==> exists|i: int|
            0 <= i < rows.len() && (order is Name || measure_of(#[trigger] rows[i], order) is Some
                || order is Restarts && rows[i].restarts > 0),
{
    if any_ranked(rows, order) {
        let i = choose|i: int| 0 <= i < rows.len() && is_ranked(#[trigger] rows[i], order);
        assert(order is Name || measure_of(rows[i], order) is Some || rows[i].restarts > 0);
    }
    if exists|i: int|
        0 <= i < rows.len() && (order is Name || measure_of(#[trigger] rows[i], order) is Some
            || order is Restarts && rows[i].restarts > 0) {
        let i = choose|i: int|
            0 <= i < rows.len() && (order is Name || measure_of(#[trigger] rows[i], order) is Some
                || order is Restarts && rows[i].restarts > 0);
        assert(is_ranked(rows[i], order));
    }
}

/// The first address of a pod: that of its list where it has one, and else the single
/// one.
pub open spec fn first_address(pod: Pod) -> Seq<char> {
    if pod.status is Some && pod.status->0.pod_ips is Some && pod.status->0.pod_ips->0@.len() > 0 {
        pod.status->0.pod_ips->0@[0].ip@
    } else if pod.status is Some && pod.status->0.pod_ip is Some {
        pod.status->0.pod_ip->0@
    } else {
        seq![]
    }
}

/// A text, or a dash where there is none.
pub open spec fn shown(text: Seq<char>) -> Seq<char> {
    if text.len() > 0 {
        text
    } else {
        seq!['-']
    }
}

/// A text that may be missing, or nothing.
pub open spec fn plain(text: Option<String>) -> Seq<char> {
    if text is Some {
        text->0@
    } else {
        seq![]
    }
}

/// One for each gate that a pod's conditions satisfy.
pub open spec fn each_met(gates: Seq<PodReadinessGate>, pod: Pod) -> Seq<int> {
    Seq::new(
        gates.len(),
        |i: int|
            if is_true(pod.status, gates[i].condition_type@) {
                1int
            } else {
                0
            },
    )
}

proof fn lemma_gates_met(gates: Seq<PodReadinessGate>, pod: Pod)
    ensures
        gates_met(gates, pod.status) == sum(each_met(gates, pod)),
    decreases gates.len(),
{
    if gates.len() > 0 {
        lemma_gates_met(gates.drop_last(), pod);
        lemma_is_true(pod.status, gates.last().condition_type@);
        assert(each_met(gates, pod).drop_last() =~= each_met(gates.drop_last(), pod));
    }
}

/// A row says of a pod where it is, how old it is, and what it uses, with a dash for
/// what is not known; and how many of its gates are satisfied, where it has any.
pub proof fn law_row_says_where_a_pod_is(
    row: PodRow,
    pod: Pod,
    used: Option<Usage>,
    now: Timestamp,
)
    requires
        describes(row, pod, used, now),
    ensures
        pod.metadata.name is Some ==> row.name@ == pod.metadata.name->0@,
        pod.metadata.namespace is Some ==> row.namespace@ == pod.metadata.namespace->0@,
        row.ip@ == shown(first_address(pod)),
        row.node@ == if pod.spec is Some {
            shown(plain(pod.spec->0.node_name))
        } else {
            seq!['-']
        },
        row.nominated_node@ == if pod.status is Some {
            shown(plain(pod.status->0.nominated_node_name))
        } else {
            seq!['-']
        },
        row.created_at == pod.metadata.creation_timestamp,
        pod.metadata.creation_timestamp is None ==> row.age@ == seq!['-'],
        used is None ==> row.cpu_used is None && row.memory_used is None,
        used is Some ==> row.cpu_used == used->0.cpu && row.memory_used == used->0.memory,
        row.restart_age is Some <==> row.last_restart is Some,
        ({
            let gated = pod.spec is Some && pod.spec->0.readiness_gates is Some
                && pod.spec->0.readiness_gates->0@.len() > 0;
            let gates = pod.spec->0.readiness_gates->0@;
            &&& row.readiness_gates is Some <==> gated
            &&& gated ==> row.readiness_gates->0@ == decimal_nat(sum(each_met(gates, pod)) as nat)
                + seq!['/'] + decimal_nat(gates.len())
        }),
{
    reveal_strlit("-");
    reveal_strlit("/");
    assert("-"@ =~= seq!['-']);
    assert("/"@ =~= seq!['/']);
    if pod.spec is Some && pod.spec->0.readiness_gates is Some {
        lemma_gates_met(pod.spec->0.readiness_gates->0@, pod);
    }
}

/// A row carries what the pod's containers and requests come to, and says how long
/// ago it was created and last restarted.
pub proof fn law_row_carries_what_was_derived(
    row: PodRow,
    pod: Pod,
    used: Option<Usage>,
    now: Timestamp,
)
    requires
        describes(row, pod, used, now),
    ensures
        row.status@ == status_text(pod),
        row.ready@ == decimal_nat(ready_count(pod)) + seq!['/'] + decimal_nat(expected(pod)),
        row.severity == severity_of(row.status@, ready_count(pod) as int, expected(pod) as int),
        row.restarts == restarts_that_matter(pod).restarts,
        row.last_restart == restarts_that_matter(pod).last,
        row.cpu_requested.thousandths == figure(booked_by(pod), "cpu"@),
        row.memory_requested.thousandths == figure(booked_by(pod), "memory"@),
        pod.metadata.creation_timestamp is Some ==> row.age@ == duration_text(
            seconds_between(pod.metadata.creation_timestamp->0, now),
        ),
        row.last_restart is Some ==> row.restart_age is Some && row.restart_age->0@
            == duration_text(seconds_between(row.last_restart->0, now)),
{
    reveal_strlit("/");
    assert("/"@ =~= seq!['/']);
    reveal_strlit("cpu");
    reveal_strlit("memory");
    assert("cpu"@.len() == 3);
    assert("memory"@.len() == 6);
}

/// A share as a percentage, in brackets, behind what it is a share of.
pub open spec fn against(used: Seq<char>, requested: Seq<char>, ratio: Ratio) -> Seq<char> {
    used + seq!['/'] + requested + seq![' ', '('] + percentage_text(ratio) + seq![')']
}

/// What a cell says of usage, given the texts of what is used and of what was asked
/// for.
pub open spec fn usage_cell(
    used: Option<Quantity>,
    requested: Quantity,
    used_text: Seq<char>,
    requested_text: Seq<char>,
) -> Seq<char> {
    if used is None {
        seq!['-']
    } else if requested.thousandths <= 0 {
        used_text
    } else {
        against(
            used_text,
            requested_text,
            Ratio { part: used->0.thousandths, whole: requested.thousandths },
        )
    }
}

/// Each cell comes from the field that its column is called after: usage stands
/// against the request where there is one, and a dash stands for what is not known.
pub proof fn law_cells_come_from_their_field(row: PodRow, against_request: bool)
    ensures
        Column::Namespace.text(row) == row.namespace@,
        Column::Name.text(row) == row.name@,
        Column::Ready.text(row) == row.ready@,
        Column::Status.text(row) == row.status@,
        Column::Age.text(row) == row.age@,
        Column::Ip.text(row) == row.ip@,
        Column::Node.text(row) == row.node@,
        Column::NominatedNode.text(row) == row.nominated_node@,
        Column::ReadinessGates.text(row) == if row.readiness_gates is Some {
            row.readiness_gates->0@
        } else {
            seq!['-']
        },
        Column::Restarts.text(row) == if row.restart_age is Some {
            decimal(row.restarts as int) + seq![' ', '('] + row.restart_age->0@ + " ago)"@
        } else {
            decimal(row.restarts as int)
        },
        usage_cell(
            row.cpu_used,
            row.cpu_requested,
            cpu_text(row.cpu_used->0),
            cpu_text(row.cpu_requested),
        ) == (Column::Cpu { against_request }).text(row),
        usage_cell(
            row.memory_used,
            row.memory_requested,
            memory_text(row.memory_used->0),
            memory_text(row.memory_requested),
        ) == (Column::Memory { against_request }).text(row),
{
    reveal_strlit("-");
    reveal_strlit("/");
    reveal_strlit(" (");
    reveal_strlit(")");
    assert("-"@ =~= seq!['-']);
    assert("/"@ =~= seq!['/']);
    assert(" ("@ =~= seq![' ', '(']);
    assert(")"@ =~= seq![')']);
}

/// What a column is called.
pub open spec fn title(column: Column) -> Seq<char> {
    match column {
        Column::Namespace => "NAMESPACE"@,
        Column::Name => "NAME"@,
        Column::Ready => "READY"@,
        Column::Status => "STATUS"@,
        Column::Restarts => "RESTARTS"@,
        Column::Cpu { against_request } => "CPU"@ + requested_mark(against_request),
        Column::Memory { against_request } => "MEMORY"@ + requested_mark(against_request),
        Column::Age => "AGE"@,
        Column::Ip => "IP"@,
        Column::Node => "NODE"@,
        Column::NominatedNode => "NOMINATED NODE"@,
        Column::ReadinessGates => "READINESS GATES"@,
    }
}

/// Each column is headed by its own name.
pub proof fn law_headings_name_their_column(column: Column)
    ensures
        column.heading() == title(column),
{
    reveal_strlit("CPU");
    reveal_strlit("CPU/REQ");
    reveal_strlit("MEMORY");
    reveal_strlit("MEMORY/REQ");
    assert("CPU/REQ"@ =~= "CPU"@ + requested_mark(true));
    assert("CPU"@ =~= "CPU"@ + requested_mark(false));
    assert("MEMORY/REQ"@ =~= "MEMORY"@ + requested_mark(true));
    assert("MEMORY"@ =~= "MEMORY"@ + requested_mark(false));
}

/// What a heading says where its cells stand against a request.
pub open spec fn requested_mark(against_request: bool) -> Seq<char> {
    if against_request {
        seq!['/', 'R', 'E', 'Q']
    } else {
        seq![]
    }
}

/// An order that was asked for is named under the listing, and the usual one is not.
pub proof fn law_orders_are_named_where_asked_for(order: Order, direction: Direction)
    ensures
        note_text(order, direction) is None <==> order is Name && direction is Natural,
        !(order is Name) && direction is Natural ==> note_text(order, direction) == Some(
            "Sorted by "@ + word_for(order) + "."@,
        ),
        direction is Reversed ==> note_text(order, direction) == Some(
            "Sorted by "@ + word_for(order) + ", reversed"@ + "."@,
        ),
{
}

/// What an order is called.
pub open spec fn word_for(order: Order) -> Seq<char> {
    match order {
        Order::Name => "name"@,
        Order::Restarts => "restarts"@,
        Order::Age => "age"@,
        Order::Cpu => "cpu"@,
        Order::Memory => "memory"@,
    }
}

/// A note that nothing could be sorted is there exactly where nothing could be, and
/// what it offers instead are the other orders that would have something to sort.
pub proof fn law_offers_are_orders_that_would_work(
    rows: Seq<PodRow>,
    order: Order,
    cause: Cause,
    other: Order,
)
    requires
        !(other is Name),
    ensures
        unranked_text(rows, order, cause) is Some <==> !any_ranked(rows, order),
        alternatives(rows, order, others()).contains(word_for(other)) <==> other != order
            && any_ranked(rows, other),
{
    reveal_strlit("restarts");
    reveal_strlit("age");
    reveal_strlit("cpu");
    reveal_strlit("memory");
    assert("restarts"@.len() == 8 && "age"@.len() == 3 && "cpu"@.len() == 3 && "memory"@.len()
        == 6);
    assert("age"@[0] == 'a' && "cpu"@[0] == 'c');
    let four = others();
    let three = four.drop_last();
    let two = three.drop_last();
    let one = two.drop_last();
    let none = one.drop_last();
    assert(none =~= seq![]);
    assert(one =~= seq![Order::Restarts]);
    assert(two =~= seq![Order::Restarts, Order::Age]);
    assert(three =~= seq![Order::Restarts, Order::Age, Order::Cpu]);
    let word = word_for(other);
    lemma_offered(rows, order, none, word);
    lemma_offered(rows, order, one, word);
    lemma_offered(rows, order, two, word);
    lemma_offered(rows, order, three, word);
    lemma_offered(rows, order, four, word);
}

proof fn lemma_offered(rows: Seq<PodRow>, order: Order, orders: Seq<Order>, word: Seq<char>)
    ensures
        orders.len() == 0 ==> !alternatives(rows, order, orders).contains(word),
        orders.len() > 0 ==> (alternatives(rows, order, orders).contains(word) <==> alternatives(
            rows,
            order,
            orders.drop_last(),
        ).contains(word) || (orders.last() != order && any_ranked(rows, orders.last())
            && crate::k8s::pods::order::order_name(orders.last()) == word)),
{
    if orders.len() > 0 {
        let before = alternatives(rows, order, orders.drop_last());
        let name = crate::k8s::pods::order::order_name(orders.last());
        let more = before.push(name);
        if before.contains(word) {
            assert(more[before.index_of(word)] == word);
        }
        if name == word {
            assert(more[before.len() as int] == word);
        }
        if more.contains(word) && name != word {
            assert(before[more.index_of(word)] == word);
        }
    }
}

/// Names are offered with `or` before the last of them, and with commas from three on.
pub proof fn law_choices_read_as_a_list(
    first: Seq<char>,
    second: Seq<char>,
    third: Seq<char>,
    names: Seq<Seq<char>>,
)
    ensures
        choice_of(seq![first]) == first,
        choice_of(seq![first, second]) == first + " or "@ + second,
        choice_of(seq![first, second, third]) == first + ", "@ + second + ", or "@ + third,
        names.len() >= 3 ==> choice_of(seq![first] + names) == first + ", "@ + choice_of(names),
{
    let three = seq![first, second, third];
    assert(three.drop_last() =~= seq![first, second]);
    let two = seq![first, second];
    assert(two.drop_last() =~= seq![first]);
    assert(joined(seq![first], ", "@) == first);
    assert(joined(two, ", "@) == first + ", "@ + second);
    if names.len() >= 3 {
        let more = seq![first] + names;
        assert(more.drop_last() =~= seq![first] + names.drop_last());
        assert(more.last() == names.last());
        let front = more.drop_last();
        assert(front[0] == first);
        assert(front.skip(1) =~= names.drop_last());
        crate::text::lemma_joined_first(front, ", "@);
        assert(choice_of(more) =~= first + ", "@ + choice_of(names));
    }
}

/// A note that nothing could be sorted names the order, says whether the reason has
/// been given already, and offers what would work where something would.
pub proof fn law_unsorted_listings_say_why(rows: Seq<PodRow>, order: Order, cause: Cause)
    requires
        !any_ranked(rows, order),
    ensures
        ({
            let start = "Nothing here has "@ + word_for(order) + " to sort by"@;
            let reason = if cause is Explained {
                ", for the reason above."@
            } else {
                "."@
            };
            let offered = alternatives(rows, order, others());
            &&& offered.len() == 0 ==> unranked_text(rows, order, cause) == Some(start + reason)
            &&& offered.len() > 0 ==> unranked_text(rows, order, cause) == Some(
                start + reason + "\nSort by "@ + choice_of(offered) + " instead."@,
            )
        }),
{
    reveal_strlit(", for the reason above");
    reveal_strlit(", for the reason above.");
    reveal_strlit(".");
    assert(", for the reason above."@ =~= ", for the reason above"@ + "."@);
    let start = "Nothing here has "@ + word_for(order) + " to sort by"@;
    let reason = if cause is Explained {
        ", for the reason above."@
    } else {
        "."@
    };
    let offered = alternatives(rows, order, others());
    let text = unranked_text(rows, order, cause)->0;
    if offered.len() == 0 {
        assert(text =~= start + reason);
    } else {
        assert(text =~= start + reason + "\nSort by "@ + choice_of(offered) + " instead."@);
    }
}

/// Each selector is named as what it is; two are named one after the other; and
/// without one there is nothing to name.
pub proof fn law_selectors_are_named(label: String, field: String)
    ensures
        selector_text((Selectors { label: None, field: None })) is None,
        selector_text((Selectors { label: Some(label), field: None })) == Some(
            "label selector `"@ + label@ + "`"@,
        ),
        selector_text((Selectors { label: None, field: Some(field) })) == Some(
            "field selector `"@ + field@ + "`"@,
        ),
        selector_text((Selectors { label: Some(label), field: Some(field) })) == Some(
            selector_text((Selectors { label: Some(label), field: None }))->0 + " and "@
                + selector_text((Selectors { label: None, field: Some(field) }))->0,
        ),
{
    reveal_strlit("`");
    reveal_strlit(" and ");
    reveal_strlit("field selector `");
    reveal_strlit("` and field selector `");
    assert("` and field selector `"@ =~= "`"@ + " and "@ + "field selector `"@);
    assert("label selector `"@ + label@ + "` and field selector `"@ + field@ + "`"@
        =~= "label selector `"@ + label@ + "`"@ + " and "@ + ("field selector `"@ + field@
        + "`"@));
}

/// Each note follows on a line of its own, with an empty one before it; and where
/// there is nothing to list, the answer names the selectors, or else the namespace.
pub proof fn law_notes_follow_the_table(
    rows: Seq<PodRow>,
    cluster: Seq<char>,
    scope: Scope,
    selectors: Selectors,
    notes: Seq<Seq<char>>,
    note: Seq<char>,
    width: Width,
)
    ensures
        rows.len() > 0 ==> rendered(rows, cluster, scope, selectors, notes.push(note), width)
            == rendered(rows, cluster, scope, selectors, notes, width) + seq!['\n', '\n'] + note,
        rows.len() == 0 ==> rendered(rows, cluster, scope, selectors, notes, width) == empty_text(
            cluster,
            scope,
            selectors,
        ),
        selector_text(selectors) is Some ==> empty_text(cluster, scope, selectors) == cluster
            + " has no pods matching "@ + selector_text(selectors)->0 + "."@,
{
    reveal_strlit("\n\n");
    assert("\n\n"@ =~= seq!['\n', '\n']);
    let more = notes.push(note);
    assert(more.drop_last() =~= notes);
    assert(more.last() == note);
    if rows.len() > 0 {
        assert(rendered(rows, cluster, scope, selectors, more, width) =~= rendered(
            rows,
            cluster,
            scope,
            selectors,
            notes,
            width,
        ) + seq!['\n', '\n'] + note);
    }
}

/// Which listings have a column.
pub open spec fn is_offered(column: Column, scope: Scope, rows: Seq<PodRow>, wide: bool) -> bool {
    match column {
        Column::Namespace => scope is All,
        Column::Name | Column::Ready | Column::Status | Column::Restarts | Column::Age
        | Column::Node => true,
        Column::Ip | Column::NominatedNode | Column::ReadinessGates => wide,
        Column::Cpu { against_request } => (exists|i: int|
            0 <= i < rows.len() && ((#[trigger] rows[i]).cpu_used is Some
                || rows[i].memory_used is Some)) && (against_request <==> exists|i: int|
            0 <= i < rows.len() && (#[trigger] rows[i]).cpu_used is Some
                && rows[i].cpu_requested.thousandths > 0),
        Column::Memory { against_request } => (exists|i: int|
            0 <= i < rows.len() && ((#[trigger] rows[i]).cpu_used is Some
                || rows[i].memory_used is Some)) && (against_request <==> exists|i: int|
            0 <= i < rows.len() && (#[trigger] rows[i]).memory_used is Some
                && rows[i].memory_requested.thousandths > 0),
    }
}

/// Where a column stands among the others.
pub open spec fn rank_in_row(column: Column) -> int {
    match column {
        Column::Namespace => 0,
        Column::Name => 1,
        Column::Ready => 2,
        Column::Status => 3,
        Column::Restarts => 4,
        Column::Cpu { against_request } => 5,
        Column::Memory { against_request } => 6,
        Column::Age => 7,
        Column::Ip => 8,
        Column::Node => 9,
        Column::NominatedNode => 10,
        Column::ReadinessGates => 11,
    }
}

/// A listing that is not narrowed has exactly the columns that it is to offer, in
/// their order.
pub proof fn law_columns_are_those_on_offer(scope: Scope, rows: Seq<PodRow>, width: Width)
    requires
        !(width is Narrow),
    ensures
        ({
            let columns = columns_of(scope, rows, width);
            &&& forall|column: Column| #[trigger]
                columns.contains(column) <==> is_offered(column, scope, rows, width is Wide)
            &&& forall|i: int, j: int|
                0 <= i < j < columns.len() ==> rank_in_row(#[trigger] columns[i]) < rank_in_row(
                    #[trigger] columns[j],
                )
        }),
{
    let columns = columns_of(scope, rows, width);
    lemma_layout(scope, rows, width is Wide);
}

proof fn lemma_usage_exists(rows: Seq<PodRow>)
    ensures
        crate::k8s::pods::row::any_usage(rows) <==> exists|i: int|
            0 <= i < rows.len() && ((#[trigger] rows[i]).cpu_used is Some
                || rows[i].memory_used is Some),
        crate::k8s::pods::row::any_cpu_pair(rows) <==> exists|i: int|
            0 <= i < rows.len() && (#[trigger] rows[i]).cpu_used is Some
                && rows[i].cpu_requested.thousandths > 0,
        crate::k8s::pods::row::any_memory_pair(rows) <==> exists|i: int|
            0 <= i < rows.len() && (#[trigger] rows[i]).memory_used is Some
                && rows[i].memory_requested.thousandths > 0,
{
    if exists|i: int|
        0 <= i < rows.len() && ((#[trigger] rows[i]).cpu_used is Some
            || rows[i].memory_used is Some) {
        let i = choose|i: int|
            0 <= i < rows.len() && ((#[trigger] rows[i]).cpu_used is Some
                || rows[i].memory_used is Some);
        assert(crate::k8s::pods::row::has_usage(rows[i]));
    }
    if crate::k8s::pods::row::any_usage(rows) {
        let i = choose|i: int|
            0 <= i < rows.len() && crate::k8s::pods::row::has_usage(#[trigger] rows[i]);
        assert(rows[i].cpu_used is Some || rows[i].memory_used is Some);
    }
}

proof fn lemma_layout(scope: Scope, rows: Seq<PodRow>, wide: bool)
    ensures
        ({
            let columns = layout(scope, rows, wide);
            &&& forall|column: Column| #[trigger]
                columns.contains(column) <==> is_offered(column, scope, rows, wide)
            &&& forall|i: int, j: int|
                0 <= i < j < columns.len() ==> rank_in_row(#[trigger] columns[i]) < rank_in_row(
                    #[trigger] columns[j],
                )
        }),
{
    lemma_usage_exists(rows);
    let columns = layout(scope, rows, wide);
    let n: int = if scope is All {
        1
    } else {
        0
    };
    let used = crate::k8s::pods::row::any_usage(rows);
    let u: int = if used {
        2
    } else {
        0
    };
    let w: int = if wide {
        1
    } else {
        0
    };
    if scope is All {
        assert(columns[0] == Column::Namespace);
    }
    assert(columns[n] == Column::Name);
    assert(columns[n + 1] == Column::Ready);
    assert(columns[n + 2] == Column::Status);
    assert(columns[n + 3] == Column::Restarts);
    let cpu = Column::Cpu { against_request: crate::k8s::pods::row::any_cpu_pair(rows) };
    let memory = Column::Memory { against_request: crate::k8s::pods::row::any_memory_pair(rows) };
    if used {
        assert(columns[n + 4] == cpu);
        assert(columns[n + 5] == memory);
    }
    assert(columns[n + 4 + u] == Column::Age);
    if wide {
        assert(columns[n + 5 + u] == Column::Ip);
        assert(columns[n + 7 + u] == Column::NominatedNode);
        assert(columns[n + 8 + u] == Column::ReadinessGates);
    }
    assert(columns[n + 5 + u + w] == Column::Node);
    assert(columns.len() == n + 6 + u + 3 * w);
    assert forall|column: Column| is_offered(column, scope, rows, wide) implies
        #[trigger] columns.contains(column) by {
        match column {
            Column::Cpu { against_request } => {
                assert(column == cpu);
            },
            Column::Memory { against_request } => {
                assert(column == memory);
            },
            _ => {},
        }
    }
    assert forall|column: Column| #[trigger] columns.contains(column) implies is_offered(
        column,
        scope,
        rows,
        wide,
    ) by {
        let i = columns.index_of(column);
        assert(columns[i] == column);
    }
}

/// When a column is given up: the earlier it is, the sooner. Those that identify a
/// row are never given up.
pub open spec fn given_up(column: Column) -> Option<int> {
    match column {
        Column::Age => Some(0),
        Column::Node => Some(1),
        Column::Cpu { against_request } => Some(2),
        Column::Memory { against_request } => Some(2),
        Column::Restarts => Some(3),
        Column::Ready => Some(4),
        Column::Status => Some(5),
        _ => None,
    }
}

/// A narrow listing gives columns up in their order of worth: where one is gone, all
/// that are worth less are gone too; and none that is never given up is.
pub proof fn law_columns_are_given_up_in_order(
    scope: Scope,
    rows: Seq<PodRow>,
    target: u16,
    gone: Column,
    left: Column,
)
    requires
        is_offered(gone, scope, rows, false),
        !columns_of(scope, rows, Width::Narrow(target)).contains(gone),
        columns_of(scope, rows, Width::Narrow(target)).contains(left),
    ensures
        given_up(gone) is Some,
        given_up(left) is None || given_up(left)->0 > given_up(gone)->0,
        is_offered(left, scope, rows, false),
{
    lemma_layout(scope, rows, false);
    let columns = layout(scope, rows, false);
    lemma_given_up(columns, rows, target as nat, 0, gone, left);
}

proof fn lemma_given_up(
    columns: Seq<Column>,
    rows: Seq<PodRow>,
    target: nat,
    step: int,
    gone: Column,
    left: Column,
)
    requires
        0 <= step <= 6,
        columns.contains(gone),
        !narrowed(columns, rows, target, step).contains(gone),
        narrowed(columns, rows, target, step).contains(left),
        forall|column: Column| #[trigger]
            columns.contains(column) ==> given_up(column) is None || given_up(column)->0 >= step,
    ensures
        given_up(gone) is Some,
        given_up(left) is None || given_up(left)->0 > given_up(gone)->0,
        columns.contains(left),
    decreases 6 - step,
{
    if step < 6 && crate::k8s::pods::row::width_of(columns, rows) > target {
        let fewer = kept(columns, step);
        assert(narrowed(columns, rows, target, step) == narrowed(fewer, rows, target, step + 1));
        lemma_kept_columns(columns, step);
        assert forall|column: Column| #[trigger] drops(step, column) == (given_up(column) == Some(
            step,
        )) by {}
        assert forall|column: Column| #[trigger] fewer.contains(column) implies given_up(
            column,
        ) is None || given_up(column)->0 >= step + 1 by {
            assert(columns.contains(column));
            assert(!drops(step, column));
            assert(given_up(column) != Some(step));
        }
        if fewer.contains(gone) {
            lemma_given_up(fewer, rows, target, step + 1, gone, left);
        } else {
            assert(drops(step, gone));
            assert(given_up(gone) == Some(step));
            crate::k8s::pods::row::law_narrowing_only_drops(fewer, rows, target, step + 1);
            assert(fewer.contains(left));
        }
    }
}

proof fn lemma_kept_columns(columns: Seq<Column>, step: int)
    ensures
        forall|column: Column| #[trigger]
            kept(columns, step).contains(column) <==> columns.contains(column) && !drops(
                step,
                column,
            ),
{
    assert forall|column: Column| #[trigger] kept(columns, step).contains(column) <==> columns.contains(
        column,
    ) && !drops(step, column) by {
        crate::k8s::pods::row::lemma_kept(columns, step, column);
    }
}

/// Whether the texts differ first at a place: the first goes before the second there,
/// or ends there.
pub open spec fn goes_first_at(left: Seq<char>, right: Seq<char>, place: int) -> bool {
    &&& 0 <= place <= left.len()
    &&& place < right.len()
    &&& forall|i: int| 0 <= i < place ==> #[trigger] left[i] == right[i]
    &&& place == left.len() || left[place] < right[place]
}

/// Text sorts by the first character that differs, and a text before what it starts.
pub proof fn law_text_sorts_by_its_first_difference(left: Seq<char>, right: Seq<char>)
    ensures
        sorts_before(left, right) <==> exists|place: int| #[trigger]
            goes_first_at(left, right, place),
    decreases left.len(),
{
    if right.len() == 0 {
    } else if left.len() == 0 {
        assert(goes_first_at(left, right, 0));
    } else if left[0] == right[0] {
        let l = left.skip(1);
        let r = right.skip(1);
        law_text_sorts_by_its_first_difference(l, r);
        if sorts_before(l, r) {
            let place = choose|place: int| #[trigger] goes_first_at(l, r, place);
            assert forall|i: int| 0 <= i < place + 1 implies #[trigger] left[i] == right[i] by {
                if i > 0 {
                    assert(l[i - 1] == r[i - 1]);
                }
            }
            assert(goes_first_at(left, right, place + 1));
        }
        if exists|place: int| #[trigger] goes_first_at(left, right, place) {
            let place = choose|place: int| #[trigger] goes_first_at(left, right, place);
            assert forall|i: int| 0 <= i < place - 1 implies #[trigger] l[i] == r[i] by {
                assert(left[i + 1] == right[i + 1]);
            }
            assert(goes_first_at(l, r, place - 1));
        }
    } else {
        if left[0] < right[0] {
            assert(goes_first_at(left, right, 0));
        }
        if exists|place: int| #[trigger] goes_first_at(left, right, place) {
            let place = choose|place: int| #[trigger] goes_first_at(left, right, place);
            if place > 0 {
                assert(left[0] == right[0]);
            }
        }
    }
}

/// How many thousandths of a resource each container uses, where each was sampled.
pub open spec fn each_used(containers: Seq<ContainerSample>, name: Seq<char>) -> Seq<int> {
    Seq::new(
        containers.len(),
        |i: int| crate::laws::booking::asks(Some(containers[i].usage), name),
    )
}

/// Whether a container was sampled using a resource, in a figure that can be read.
pub open spec fn is_sampled(container: ContainerSample, name: Seq<char>) -> bool {
    container.usage@.contains_key(name) && crate::k8s::quantity::reading(
        container.usage@[name].0@,
    ) is Thousandths
}

/// A pod uses the sum of what its containers use, where every one of them was
/// sampled; and there is no figure where one was not, or there is no container.
pub proof fn law_usage_is_the_sum_of_the_containers(
    containers: Seq<ContainerSample>,
    name: Seq<char>,
)
    ensures
        together(containers, name) is Some <==> containers.len() > 0 && forall|i: int|
            0 <= i < containers.len() ==> is_sampled(#[trigger] containers[i], name),
        together(containers, name) is Some && (forall|i: int|
            0 <= i < containers.len() ==> #[trigger] each_used(containers, name)[i] >= 0) && sum(
            each_used(containers, name),
        ) <= i128::MAX ==> together(containers, name)->0.thousandths == sum(
            each_used(containers, name),
        ),
{
    use_figures(containers, name);
    let figures = crate::k8s::metrics::figures(containers, name);
    if together(containers, name) is Some {
        let used = each_used(containers, name);
        assert forall|i: int| 0 <= i < containers.len() implies figures[i].thousandths
            == #[trigger] used[i] by {
            assert(crate::k8s::metrics::figure(containers[i], name) is Some);
        }
        if (forall|i: int| 0 <= i < containers.len() ==> #[trigger] used[i] >= 0) {
            assert forall|i: int| 0 <= i < figures.len() implies (
            #[trigger] figures[i]).thousandths >= 0 by {
                assert(used[i] >= 0);
            }
            let zero = crate::k8s::quantity::Quantity { thousandths: 0 };
            crate::laws::quantity::law_totals_add_up(figures, zero, zero);
            assert(crate::laws::quantity::each_thousandths(figures) =~= used);
        }
    }
}

proof fn use_figures(containers: Seq<ContainerSample>, name: Seq<char>)
    ensures
        forall|i: int|
            0 <= i < containers.len() ==> (crate::k8s::metrics::figure(
                #[trigger] containers[i],
                name,
            ) is Some <==> is_sampled(containers[i], name)),
{
}

} // verus!
