//! How a pod listing is ordered.
//!
//! The default is alphabetical, which is the right answer for reading a
//! namespace and the wrong one for every column that carries a number.
//!
//! [`sort`] is a function of the rows alone. Every ordering here is total: two
//! rows only ever compare equal if they are the same pod in the same namespace,
//! so one listing always renders the same way twice.

use vstd::prelude::*;
use vstd::string::*;

use crate::k8s::order::{compare, placed, Cause, Direction, Placement, Rank};
use crate::k8s::pods::{held, PodRow};
use crate::k8s::quantity::Quantity;
use crate::text;
use crate::text::{
    joined, lemma_sorts_before_total, lemma_sorts_before_transitive, sorts_before, texts,
};

verus! {

/// The order the rows of a pod listing are printed in.
#[derive(Debug, Clone, Copy, PartialEq, Eq, Structural)]
pub enum Order {
    /// Namespace, then name, which is the default.
    Name,
    /// Most recently restarted first; pods that have never restarted last.
    Restarts,
    /// Youngest first; pods with no creation timestamp last.
    Age,
    /// Most CPU first; pods with no sample last.
    Cpu,
    /// Most memory first; pods with no sample last.
    Memory,
}

impl Default for Order {
    /// Namespace, then name.
    fn default() -> (order: Self)
        ensures
            order == Order::Name,
    {
        Order::Name
    }
}

/// What an ordering makes of a row. Nothing is ranked by the alphabet, which is
/// compared apart.
pub open spec fn rank_of(row: PodRow, order: Order) -> Rank {
    match order {
        Order::Name => Rank::By(0),
        Order::Restarts => match row.last_restart {
            Some(at) => Rank::By(at.nanosecond),
            None => if row.restarts > 0 {
                Rank::Unranked(0)
            } else {
                Rank::Unranked(1)
            },
        },
        Order::Age => match row.created_at {
            Some(at) => Rank::By(at.nanosecond),
            None => Rank::Unranked(0),
        },
        Order::Cpu => match row.cpu_used {
            Some(used) => Rank::By(used.thousandths),
            None => Rank::Unranked(0),
        },
        Order::Memory => match row.memory_used {
            Some(used) => Rank::By(used.thousandths),
            None => Rank::Unranked(0),
        },
    }
}

/// Where one row stands in the alphabet with respect to another: namespace, then
/// name.
pub open spec fn alphabetical(left: PodRow, right: PodRow) -> Placement {
    if sorts_before(left.namespace@, right.namespace@) {
        Placement::Before
    } else if sorts_before(right.namespace@, left.namespace@) {
        Placement::After
    } else if sorts_before(left.name@, right.name@) {
        Placement::Before
    } else if sorts_before(right.name@, left.name@) {
        Placement::After
    } else {
        Placement::Same
    }
}

/// Where one row stands by its restart count with respect to another: the larger
/// count first.
pub open spec fn by_count(left: PodRow, right: PodRow) -> Placement {
    if left.restarts > right.restarts {
        Placement::Before
    } else if left.restarts == right.restarts {
        Placement::Same
    } else {
        Placement::After
    }
}

/// The first of two placements that separates the rows.
pub open spec fn or_else(first: Placement, second: Placement) -> Placement {
    if first is Same {
        second
    } else {
        first
    }
}

/// The ordering's own comparison, before the alphabetical tie-break.
///
/// Under [`Order::Restarts`] the count is only the tie-break, never the key:
/// sorting by how *many* times a pod has restarted puts a pod that failed two
/// hundred times last week above one that started crashing a minute ago.
pub open spec fn ranked_placement(
    left: PodRow,
    right: PodRow,
    order: Order,
    direction: Direction,
) -> Placement {
    let ranks = placed(rank_of(left, order), rank_of(right, order), direction);
    match order {
        Order::Name => direction.applied(alphabetical(left, right)),
        Order::Restarts => or_else(ranks, direction.applied(by_count(left, right))),
        _ => ranks,
    }
}

/// Where one row of a listing stands with respect to another. The alphabet is
/// the last word under every ordering and in either direction.
pub open spec fn placement(
    left: PodRow,
    right: PodRow,
    order: Order,
    direction: Direction,
) -> Placement {
    or_else(ranked_placement(left, right, order, direction), alphabetical(left, right))
}

/// Whether no row of a listing comes before one that it should follow.
pub open spec fn in_order(rows: Seq<PodRow>, order: Order, direction: Direction) -> bool {
    forall|i: int, j: int|
        0 <= i < j < rows.len() ==> !(placement(
            #[trigger] rows[i],
            #[trigger] rows[j],
            order,
            direction,
        ) is After)
}

/// Where a row goes in a sorted listing: before the first row that it comes
/// before.
pub open spec fn slot(rows: Seq<PodRow>, row: PodRow, order: Order, direction: Direction) -> int
    decreases rows.len(),
{
    if rows.len() == 0 || placement(row, rows[0], order, direction) is Before {
        0
    } else {
        1 + slot(rows.skip(1), row, order, direction)
    }
}

/// A listing, sorted. Rows that nothing separates stay in the order they had.
pub open spec fn arranged(rows: Seq<PodRow>, order: Order, direction: Direction) -> Seq<PodRow>
    decreases rows.len(),
{
    if rows.len() == 0 {
        seq![]
    } else {
        let before = arranged(rows.drop_last(), order, direction);
        before.insert(slot(before, rows.last(), order, direction), rows.last())
    }
}

proof fn lemma_slot(rows: Seq<PodRow>, row: PodRow, order: Order, direction: Direction)
    ensures
        0 <= slot(rows, row, order, direction) <= rows.len(),
        forall|i: int|
            0 <= i < slot(rows, row, order, direction) ==> !(placement(
                row,
                #[trigger] rows[i],
                order,
                direction,
            ) is Before),
        slot(rows, row, order, direction) < rows.len() ==> placement(
            row,
            rows[slot(rows, row, order, direction)],
            order,
            direction,
        ) is Before,
    decreases rows.len(),
{
    if rows.len() > 0 && !(placement(row, rows[0], order, direction) is Before) {
        let rest = rows.skip(1);
        lemma_slot(rest, row, order, direction);
        assert forall|i: int| 0 <= i < slot(rows, row, order, direction) implies !(placement(
            row,
            #[trigger] rows[i],
            order,
            direction,
        ) is Before) by {
            if i > 0 {
                assert(rest[i - 1] == rows[i]);
            }
        }
    }
}

proof fn lemma_alphabetical(left: PodRow, right: PodRow)
    ensures
        alphabetical(right, left) == alphabetical(left, right).flipped(),
        alphabetical(left, right) is Same <==> left.namespace@ == right.namespace@ && left.name@
            == right.name@,
{
    lemma_sorts_before_total(left.namespace@, right.namespace@);
    lemma_sorts_before_total(right.namespace@, left.namespace@);
    lemma_sorts_before_total(left.name@, right.name@);
    lemma_sorts_before_total(right.name@, left.name@);
}

proof fn lemma_alphabetical_transitive(left: PodRow, middle: PodRow, right: PodRow)
    ensures
        !(alphabetical(left, middle) is After) && !(alphabetical(middle, right) is After) ==> {
            &&& !(alphabetical(left, right) is After)
            &&& alphabetical(left, right) is Same <==> alphabetical(left, middle) is Same
                && alphabetical(middle, right) is Same
        },
{
    lemma_alphabetical(left, middle);
    lemma_alphabetical(middle, right);
    lemma_alphabetical(left, right);
    if sorts_before(left.namespace@, middle.namespace@) && sorts_before(
        middle.namespace@,
        right.namespace@,
    ) {
        lemma_sorts_before_transitive(left.namespace@, middle.namespace@, right.namespace@);
    }
    if sorts_before(left.name@, middle.name@) && sorts_before(middle.name@, right.name@) {
        lemma_sorts_before_transitive(left.name@, middle.name@, right.name@);
    }
    lemma_sorts_before_total(left.namespace@, middle.namespace@);
    lemma_sorts_before_total(middle.namespace@, right.namespace@);
    lemma_sorts_before_total(left.namespace@, right.namespace@);
    lemma_sorts_before_total(left.name@, middle.name@);
    lemma_sorts_before_total(middle.name@, right.name@);
    lemma_sorts_before_total(left.name@, right.name@);
}

proof fn lemma_ranked_symmetric(left: PodRow, right: PodRow, order: Order, direction: Direction)
    ensures
        ranked_placement(right, left, order, direction) == ranked_placement(
            left,
            right,
            order,
            direction,
        ).flipped(),
{
    lemma_alphabetical(left, right);
}

proof fn lemma_ranked_transitive(
    left: PodRow,
    middle: PodRow,
    right: PodRow,
    order: Order,
    direction: Direction,
)
    ensures
        !(ranked_placement(left, middle, order, direction) is After) && !(ranked_placement(
            middle,
            right,
            order,
            direction,
        ) is After) ==> {
            &&& !(ranked_placement(left, right, order, direction) is After)
            &&& ranked_placement(left, right, order, direction) is Same <==> ranked_placement(
                left,
                middle,
                order,
                direction,
            ) is Same && ranked_placement(middle, right, order, direction) is Same
        },
{
    lemma_alphabetical(left, middle);
    lemma_alphabetical(middle, right);
    lemma_alphabetical(left, right);
    lemma_alphabetical_transitive(left, middle, right);
    lemma_alphabetical_transitive(right, middle, left);
}

/// Every ordering is total: of two rows one comes first, whichever is asked
/// about, unless they are the same pod in the same namespace.
pub proof fn law_order_is_total(left: PodRow, right: PodRow, order: Order, direction: Direction)
    ensures
        placement(right, left, order, direction) == placement(
            left,
            right,
            order,
            direction,
        ).flipped(),
        placement(left, right, order, direction) is Same ==> left.namespace@ == right.namespace@
            && left.name@ == right.name@,
{
    lemma_ranked_symmetric(left, right, order, direction);
    lemma_alphabetical(left, right);
}

/// Every ordering is transitive: a row that does not come after a second, which
/// does not come after a third, does not come after the third.
pub proof fn law_order_is_transitive(
    left: PodRow,
    middle: PodRow,
    right: PodRow,
    order: Order,
    direction: Direction,
)
    requires
        !(placement(left, middle, order, direction) is After),
        !(placement(middle, right, order, direction) is After),
    ensures
        !(placement(left, right, order, direction) is After),
        placement(left, right, order, direction) is Same <==> placement(
            left,
            middle,
            order,
            direction,
        ) is Same && placement(middle, right, order, direction) is Same,
{
    lemma_ranked_transitive(left, middle, right, order, direction);
    lemma_alphabetical_transitive(left, middle, right);
}

/// Sorting keeps every row, and leaves none before one that it should follow.
pub proof fn law_sorting_arranges(rows: Seq<PodRow>, order: Order, direction: Direction)
    ensures
        in_order(arranged(rows, order, direction), order, direction),
        arranged(rows, order, direction).to_multiset() == rows.to_multiset(),
        arranged(rows, order, direction).len() == rows.len(),
    decreases rows.len(),
{
    broadcast use vstd::seq_lib::group_to_multiset_ensures;

    if rows.len() == 0 {
        assert(rows =~= seq![]);
    } else {
        let row = rows.last();
        let before = arranged(rows.drop_last(), order, direction);
        law_sorting_arranges(rows.drop_last(), order, direction);
        lemma_slot(before, row, order, direction);
        let at = slot(before, row, order, direction);
        let after = before.insert(at, row);
        assert(rows =~= rows.drop_last().push(row));
        assert(after.to_multiset() =~= before.to_multiset().insert(row)) by {
            lemma_insert_multiset(before, at, row);
        }
        assert forall|i: int, j: int| 0 <= i < j < after.len() implies !(placement(
            #[trigger] after[i],
            #[trigger] after[j],
            order,
            direction,
        ) is After) by {
            let left = if i < at {
                i
            } else {
                i - 1
            };
            let right = if j < at {
                j
            } else {
                j - 1
            };
            if i == at {
                assert(after[j] == before[right]);
                if right > at {
                    law_order_is_transitive(row, before[at], before[right], order, direction);
                }
            } else if j == at {
                assert(after[i] == before[left]);
                law_order_is_total(row, before[left], order, direction);
            } else {
                assert(after[i] == before[left]);
                assert(after[j] == before[right]);
            }
        }
    }
}

proof fn lemma_insert_multiset(rows: Seq<PodRow>, at: int, row: PodRow)
    requires
        0 <= at <= rows.len(),
    ensures
        rows.insert(at, row).to_multiset() == rows.to_multiset().insert(row),
{
    broadcast use vstd::seq_lib::group_to_multiset_ensures;

    let head = rows.take(at);
    let tail = rows.skip(at);
    assert(rows =~= head + tail);
    assert(rows.insert(at, row) =~= (head.push(row)) + tail);
    vstd::seq_lib::lemma_multiset_commutative(head, tail);
    vstd::seq_lib::lemma_multiset_commutative(head.push(row), tail);
    assert(rows.insert(at, row).to_multiset() =~= rows.to_multiset().insert(row));
}

/// Whether rows of the same name and namespace are the same row.
pub open spec fn each_named_once(rows: Seq<PodRow>) -> bool {
    forall|i: int, j: int|
        0 <= i < rows.len() && 0 <= j < rows.len() && (#[trigger] rows[i]).namespace@ == (
        #[trigger] rows[j]).namespace@ && rows[i].name@ == rows[j].name@ ==> rows[i] == rows[j]
}

/// A listing always renders the same way twice: whatever order the rows arrive
/// in, sorting gives the same arrangement.
pub proof fn law_arrival_order_does_not_matter(
    first: Seq<PodRow>,
    second: Seq<PodRow>,
    order: Order,
    direction: Direction,
)
    requires
        first.to_multiset() == second.to_multiset(),
        each_named_once(first),
    ensures
        arranged(first, order, direction) == arranged(second, order, direction),
{
    law_sorting_arranges(first, order, direction);
    law_sorting_arranges(second, order, direction);
    let left = arranged(first, order, direction);
    lemma_same_rows(left, first);
    let right = arranged(second, order, direction);
    assert(each_named_once(left)) by {
        assert forall|i: int, j: int|
            0 <= i < left.len() && 0 <= j < left.len() && (#[trigger] left[i]).namespace@ == (
            #[trigger] left[j]).namespace@ && left[i].name@ == left[j].name@ implies left[i]
            == left[j] by {
            assert(left.contains(left[i]));
            assert(left.contains(left[j]));
            assert(first.contains(left[i]));
            assert(first.contains(left[j]));
            let a = first.index_of(left[i]);
            let b = first.index_of(left[j]);
            assert(first[a] == left[i]);
            assert(first[b] == left[j]);
        }
    }
    lemma_one_arrangement(left, right, order, direction);
}

proof fn lemma_same_rows(left: Seq<PodRow>, right: Seq<PodRow>)
    requires
        left.to_multiset() == right.to_multiset(),
    ensures
        left.len() == right.len(),
        forall|row: PodRow| #[trigger] left.contains(row) <==> right.contains(row),
{
    left.to_multiset_ensures();
    right.to_multiset_ensures();
    assert forall|row: PodRow| #[trigger] left.contains(row) <==> right.contains(row) by {
        assert(left.contains(row) <==> left.to_multiset().count(row) > 0);
        assert(right.contains(row) <==> right.to_multiset().count(row) > 0);
    }
}

proof fn lemma_one_arrangement(
    left: Seq<PodRow>,
    right: Seq<PodRow>,
    order: Order,
    direction: Direction,
)
    requires
        left.to_multiset() == right.to_multiset(),
        in_order(left, order, direction),
        in_order(right, order, direction),
        each_named_once(left),
    ensures
        left == right,
    decreases left.len(),
{
    lemma_same_rows(left, right);
    if left.len() == 0 {
        assert(left =~= right);
    } else {
        let a = left[0];
        let b = right[0];
        assert(left.contains(a));
        assert(right.contains(b));
        assert(right.contains(a));
        assert(left.contains(b));
        let i = left.index_of(b);
        let j = right.index_of(a);
        assert(left[i] == b);
        assert(right[j] == a);
        law_order_is_total(a, b, order, direction);
        assert(a == b) by {
            if i > 0 && j > 0 {
                assert(!(placement(left[0], left[i], order, direction) is After));
                assert(!(placement(right[0], right[j], order, direction) is After));
                assert(placement(a, b, order, direction) is Same);
            }
        }
        let left_rest = left.skip(1);
        let right_rest = right.skip(1);
        assert(left_rest =~= left.remove(0));
        assert(right_rest =~= right.remove(0));
        left.to_multiset_ensures();
        right.to_multiset_ensures();
        assert(left_rest.to_multiset() == left.to_multiset().remove(a));
        assert(right_rest.to_multiset() == right.to_multiset().remove(b));
        assert forall|i: int, j: int| 0 <= i < j < left_rest.len() implies !(placement(
            #[trigger] left_rest[i],
            #[trigger] left_rest[j],
            order,
            direction,
        ) is After) by {
            assert(left_rest[i] == left[i + 1]);
            assert(left_rest[j] == left[j + 1]);
        }
        assert forall|i: int, j: int| 0 <= i < j < right_rest.len() implies !(placement(
            #[trigger] right_rest[i],
            #[trigger] right_rest[j],
            order,
            direction,
        ) is After) by {
            assert(right_rest[i] == right[i + 1]);
            assert(right_rest[j] == right[j + 1]);
        }
        assert(each_named_once(left_rest)) by {
            assert(forall|i: int| 0 <= i < left_rest.len() ==> left_rest[i] == left[i + 1]);
        }
        lemma_one_arrangement(left_rest, right_rest, order, direction);
        assert(left =~= seq![a] + left_rest);
        assert(right =~= seq![b] + right_rest);
    }
}

/// The rows an ordering cannot rank come last in either direction, in the same
/// tiers: reversing a listing does not put them on top.
pub proof fn law_unranked_rows_stay_last(
    rows: Seq<PodRow>,
    order: Order,
    direction: Direction,
    i: int,
    j: int,
)
    requires
        0 <= i < j < rows.len(),
        rank_of(arranged(rows, order, direction)[i], order) is Unranked,
    ensures
        rank_of(arranged(rows, order, direction)[j], order) is Unranked,
        rank_of(arranged(rows, order, direction)[i], order)->Unranked_0 <= rank_of(
            arranged(rows, order, direction)[j],
            order,
        )->Unranked_0,
{
    law_sorting_arranges(rows, order, direction);
    let sorted = arranged(rows, order, direction);
    assert(!(placement(sorted[i], sorted[j], order, direction) is After));
}

/// Reversing turns round the rows that are ranked apart.
pub proof fn law_reversing_turns_ranked_rows(left: PodRow, right: PodRow, order: Order)
    requires
        rank_of(left, order) is By,
        rank_of(right, order) is By,
        !(ranked_placement(left, right, order, Direction::Natural) is Same),
    ensures
        placement(left, right, order, Direction::Reversed) == placement(
            left,
            right,
            order,
            Direction::Natural,
        ).flipped(),
{
}

fn side_by_name(left: &PodRow, right: &PodRow) -> (side: Placement)
    ensures
        side == alphabetical(*left, *right),
{
    if text::precedes(left.namespace.as_str(), right.namespace.as_str()) {
        Placement::Before
    } else if text::precedes(right.namespace.as_str(), left.namespace.as_str()) {
        Placement::After
    } else if text::precedes(left.name.as_str(), right.name.as_str()) {
        Placement::Before
    } else if text::precedes(right.name.as_str(), left.name.as_str()) {
        Placement::After
    } else {
        Placement::Same
    }
}

/// Where a row sits in restart order: dated newest-first, then undated, then
/// never restarted.
fn recency(row: &PodRow) -> (rank: Rank)
    ensures
        rank == rank_of(*row, Order::Restarts),
{
    match row.last_restart {
        Some(at) => Rank::By(at.nanosecond),
        None => {
            if row.restarts > 0 {
                Rank::Unranked(0)
            } else {
                Rank::Unranked(1)
            }
        },
    }
}

/// Where a row sits in age order: youngest first, undatable pods last.
///
/// Youngest rather than oldest because the question behind an age during an
/// incident is "what changed".
fn youngest(row: &PodRow) -> (rank: Rank)
    ensures
        rank == rank_of(*row, Order::Age),
{
    match row.created_at {
        Some(at) => Rank::By(at.nanosecond),
        None => Rank::Unranked(0),
    }
}

/// Where a row sits in usage order: largest first, unsampled pods last.
///
/// A pod metrics-server has not sampled is unranked rather than zero, which
/// would be a claim about the pod rather than about the scraper.
fn largest(used: Option<Quantity>) -> (rank: Rank)
    ensures
        rank == match used {
            Some(used) => Rank::By(used.thousandths),
            None => Rank::Unranked(0),
        },
{
    match used {
        Some(used) => Rank::By(used.thousandths),
        None => Rank::Unranked(0),
    }
}

/// The ordering's own comparison, before the alphabetical tie-break.
fn rank(left: &PodRow, right: &PodRow, order: Order, direction: Direction) -> (side: Placement)
    ensures
        side == ranked_placement(*left, *right, order, direction),
{
    match order {
        Order::Name => direction.apply(side_by_name(left, right)),
        Order::Restarts => {
            let ranks = compare(recency(left), recency(right), direction);
            if ranks == Placement::Same {
                direction.apply(
                    if left.restarts > right.restarts {
                        Placement::Before
                    } else if left.restarts == right.restarts {
                        Placement::Same
                    } else {
                        Placement::After
                    },
                )
            } else {
                ranks
            }
        },
        Order::Age => compare(youngest(left), youngest(right), direction),
        Order::Cpu => compare(largest(left.cpu_used), largest(right.cpu_used), direction),
        Order::Memory => compare(largest(left.memory_used), largest(right.memory_used), direction),
    }
}

/// Where one row stands with respect to another, the alphabet being the last
/// word.
fn side(left: &PodRow, right: &PodRow, order: Order, direction: Direction) -> (side: Placement)
    ensures
        side == placement(*left, *right, order, direction),
{
    let ranked_side = rank(left, right, order, direction);
    if ranked_side == Placement::Same {
        side_by_name(left, right)
    } else {
        ranked_side
    }
}

/// The rows at these places.
spec fn rows_at(rows: Seq<PodRow>, places: Seq<usize>) -> Seq<PodRow> {
    Seq::new(places.len(), |i: int| rows[places[i] as int])
}

/// Where a row goes among rows in order, the rows being given by their places.
fn find_slot(
    rows: &Vec<PodRow>,
    places: &Vec<usize>,
    row: usize,
    order: Order,
    direction: Direction,
) -> (at: usize)
    requires
        row < rows@.len(),
        forall|i: int| 0 <= i < places@.len() ==> (#[trigger] places@[i]) < rows@.len(),
        in_order(rows_at(rows@, places@), order, direction),
    ensures
        at == slot(rows_at(rows@, places@), rows@[row as int], order, direction),
        at <= places@.len(),
{
    let ghost sorted = rows_at(rows@, places@);
    let ghost new = rows@[row as int];
    let mut low: usize = 0;
    let mut high: usize = places.len();
    while low < high
        invariant
            row < rows@.len(),
            forall|i: int| 0 <= i < places@.len() ==> (#[trigger] places@[i]) < rows@.len(),
            sorted == rows_at(rows@, places@),
            new == rows@[row as int],
            in_order(sorted, order, direction),
            low <= high <= places@.len(),
            forall|i: int|
                0 <= i < low ==> !(placement(new, #[trigger] sorted[i], order, direction) is Before),
            forall|i: int|
                high <= i < sorted.len() ==> placement(new, #[trigger] sorted[i], order, direction)
                    is Before,
        decreases high - low,
    {
        let middle: usize = low + (high - low) / 2;
        let before = side(&rows[row], &rows[places[middle]], order, direction)
            == Placement::Before;
        proof {
            let pivot = sorted[middle as int];
            assert(before == (placement(new, pivot, order, direction) is Before));
            assert forall|i: int| middle <= i < sorted.len() && before implies placement(
                new,
                #[trigger] sorted[i],
                order,
                direction,
            ) is Before by {
                if i > middle {
                    law_order_is_transitive(new, pivot, sorted[i], order, direction);
                }
            }
            assert forall|i: int| 0 <= i <= middle && !before implies !(placement(
                new,
                #[trigger] sorted[i],
                order,
                direction,
            ) is Before) by {
                if i < middle && placement(new, sorted[i], order, direction) is Before {
                    law_order_is_transitive(new, sorted[i], pivot, order, direction);
                }
            }
        }
        if before {
            high = middle;
        } else {
            low = middle + 1;
        }
    }
    proof {
        lemma_slot(sorted, new, order, direction);
        let at = slot(sorted, new, order, direction);
        if at < low {
            assert(!(placement(new, sorted[at], order, direction) is Before));
        }
        if low < at {
            assert(placement(new, sorted[low as int], order, direction) is Before);
        }
    }
    low
}

/// Whether each of the first places is listed exactly once.
spec fn lists_each_once(places: Seq<usize>, count: int) -> bool {
    &&& places.len() == count
    &&& forall|i: int| 0 <= i < places.len() ==> (#[trigger] places[i]) < count
    &&& forall|i: int, j: int|
        0 <= i < j < places.len() ==> (#[trigger] places[i]) != (#[trigger] places[j])
}

/// The places of the rows, in the order the rows are to have.
fn sorted_places(rows: &Vec<PodRow>, order: Order, direction: Direction) -> (places: Vec<usize>)
    ensures
        lists_each_once(places@, rows@.len() as int),
        rows_at(rows@, places@) == arranged(rows@, order, direction),
{
    let mut places: Vec<usize> = Vec::new();
    let mut row: usize = 0;
    assert(rows@.take(0) =~= seq![]);
    assert(rows_at(rows@, places@) =~= seq![]);
    while row < rows.len()
        invariant
            row <= rows@.len(),
            lists_each_once(places@, row as int),
            rows_at(rows@, places@) == arranged(rows@.take(row as int), order, direction),
        decreases rows@.len() - row,
    {
        let ghost had = places@;
        let ghost upto = rows@.take(row + 1);
        assert(upto.drop_last() =~= rows@.take(row as int));
        assert(upto.last() == rows@[row as int]);
        proof {
            law_sorting_arranges(rows@.take(row as int), order, direction);
        }
        let at = find_slot(rows, &places, row, order, direction);
        places.insert(at, row);
        proof {
            assert(rows_at(rows@, places@) =~= rows_at(rows@, had).insert(
                at as int,
                rows@[row as int],
            ));
            assert forall|i: int| 0 <= i < places@.len() implies (#[trigger] places@[i]) == if i
                < at {
                had[i]
            } else if i == at {
                row
            } else {
                had[i - 1]
            } by {}
            assert forall|i: int, j: int| 0 <= i < j < places@.len() implies (
            #[trigger] places@[i]) != (#[trigger] places@[j]) by {
                let a = if i < at {
                    i
                } else {
                    i - 1
                };
                let b = if j < at {
                    j
                } else {
                    j - 1
                };
                if i != at && j != at {
                    assert(had[a] != had[b]);
                } else if i == at {
                    assert(had[b] < row);
                } else {
                    assert(had[a] < row);
                }
            }
        }
        row = row + 1;
    }
    assert(rows@.take(row as int) =~= rows@);
    places
}

/// Sort a listing in place.
///
/// The alphabet is the last word under every ordering and in either direction,
/// so a listing with nothing left to separate two rows still cannot shuffle
/// between two runs of one command.
pub fn sort(rows: &mut Vec<PodRow>, order: Order, direction: Direction)
    ensures
        final(rows)@ == arranged(old(rows)@, order, direction),
        in_order(final(rows)@, order, direction),
        final(rows)@.to_multiset() == old(rows)@.to_multiset(),
{
    let ghost given = rows@;
    let places = sorted_places(rows, order, direction);
    let mut taken: Vec<PodRow> = Vec::new();
    core::mem::swap(&mut taken, rows);
    let mut cells: Vec<Option<PodRow>> = Vec::new();
    for row in rest: taken
        invariant
            rest.seq() == given,
            cells@.len() == rest.index(),
            forall|i: int| 0 <= i < rest.index() ==> #[trigger] cells@[i] == Some(given[i]),
    {
        cells.push(Some(row));
    }
    let mut sorted: Vec<PodRow> = Vec::new();
    let mut next: usize = 0;
    while next < places.len()
        invariant
            lists_each_once(places@, given.len() as int),
            cells@.len() == given.len(),
            next <= places@.len(),
            forall|i: int|
                next <= i < places@.len() ==> cells@[(#[trigger] places@[i]) as int] == Some(
                    given[places@[i] as int],
                ),
            sorted@ == rows_at(given, places@).take(next as int),
        decreases places@.len() - next,
    {
        let place = places[next];
        assert(cells@[place as int] == Some(given[place as int]));
        let cell = &mut cells[place];
        let row = cell.take();
        if let Some(row) = row {
            sorted.push(row);
        }
        assert(sorted@ =~= rows_at(given, places@).take(next + 1));
        next = next + 1;
    }
    assert(rows_at(given, places@).take(next as int) =~= rows_at(given, places@));
    proof {
        law_sorting_arranges(given, order, direction);
    }
    *rows = sorted;
}

/// Whether one row carries what an ordering sorts on. A restart count is
/// something to sort on, though there is no moment to go with it.
pub open spec fn is_ranked(row: PodRow, order: Order) -> bool {
    rank_of(row, order) is By || (order is Restarts && row.restarts > 0)
}

/// Whether one row carries what an ordering sorts on.
fn ranked(row: &PodRow, order: Order) -> (answer: bool)
    ensures
        answer == is_ranked(*row, order),
{
    match order {
        Order::Name => true,
        Order::Restarts => recency(row).is_ranked() || row.restarts > 0,
        Order::Age => youngest(row).is_ranked(),
        Order::Cpu => largest(row.cpu_used).is_ranked(),
        Order::Memory => largest(row.memory_used).is_ranked(),
    }
}

/// Whether some row carries what an ordering sorts on.
pub open spec fn any_ranked(rows: Seq<PodRow>, order: Order) -> bool {
    exists|i: int| 0 <= i < rows.len() && is_ranked(#[trigger] rows[i], order)
}

/// Whether an ordering has anything at all to rank in these rows.
///
/// One ranked row is enough: it puts the pod a person went looking for at an end
/// of the table.
#[must_use]
pub fn ranks_any(rows: &[PodRow], order: Order) -> (answer: bool)
    ensures
        answer == any_ranked(rows@, order),
{
    let mut i: usize = 0;
    while i < rows.len()
        invariant
            i <= rows@.len(),
            forall|j: int| 0 <= j < i ==> !is_ranked(#[trigger] rows@[j], order),
        decreases rows@.len() - i,
    {
        if ranked(&rows[i], order) {
            assert(is_ranked(rows@[i as int], order));
            return true;
        }
        i = i + 1;
    }
    false
}

/// Whether an ordering separates two of these rows.
pub open spec fn separates(rows: Seq<PodRow>, order: Order) -> bool {
    exists|i: int, j: int|
        0 <= i < rows.len() && 0 <= j < rows.len() && !(ranked_placement(
            #[trigger] rows[i],
            #[trigger] rows[j],
            order,
            Direction::Natural,
        ) is Same)
}

/// Whether this ordering would put two of these rows in a different
/// arrangement than the alphabet does.
///
/// Compared against the first row rather than every pair, which is enough: if
/// every row compares equal to the first, they compare equal to each other.
#[must_use]
pub fn distinguishes(rows: &[PodRow], order: Order) -> (answer: bool)
    ensures
        answer == separates(rows@, order),
{
    let mut i: usize = 1;
    while i < rows.len()
        invariant
            1 <= i,
            i <= rows@.len() || i == 1,
            forall|j: int|
                1 <= j < i ==> ranked_placement(
                    rows@[0],
                    #[trigger] rows@[j],
                    order,
                    Direction::Natural,
                ) is Same,
        decreases rows@.len() - i,
    {
        if rank(&rows[0], &rows[i], order, Direction::Natural) != Placement::Same {
            assert(!(ranked_placement(rows@[0], rows@[i as int], order, Direction::Natural) is Same));
            return true;
        }
        i = i + 1;
    }
    proof {
        assert forall|a: int, b: int| 0 <= a < rows@.len() && 0 <= b < rows@.len() implies
            ranked_placement(
            #[trigger] rows@[a],
            #[trigger] rows@[b],
            order,
            Direction::Natural,
        ) is Same by {
            let first = rows@[0];
            lemma_ranked_symmetric(first, first, order, Direction::Natural);
            lemma_ranked_symmetric(first, rows@[a], order, Direction::Natural);
            lemma_ranked_transitive(rows@[a], first, rows@[b], order, Direction::Natural);
        }
    }
    false
}

/// Where an ordering separates no two rows, the alphabet decides the whole
/// listing, in either direction.
pub proof fn law_alphabet_decides_what_is_left(
    rows: Seq<PodRow>,
    order: Order,
    direction: Direction,
)
    requires
        !separates(rows, order),
    ensures
        arranged(rows, order, direction) == arranged(rows, Order::Name, Direction::Natural),
    decreases rows.len(),
{
    if rows.len() > 0 {
        let before = rows.drop_last();
        let row = rows.last();
        assert(!separates(before, order)) by {
            assert forall|i: int, j: int| 0 <= i < before.len() && 0 <= j < before.len() implies
                ranked_placement(
                #[trigger] before[i],
                #[trigger] before[j],
                order,
                Direction::Natural,
            ) is Same by {
                assert(before[i] == rows[i]);
                assert(before[j] == rows[j]);
            }
        }
        law_alphabet_decides_what_is_left(before, order, direction);
        law_sorting_arranges(before, order, direction);
        let sorted = arranged(before, order, direction);
        assert forall|i: int| 0 <= i < sorted.len() implies placement(
            row,
            #[trigger] sorted[i],
            order,
            direction,
        ) == placement(row, sorted[i], Order::Name, Direction::Natural) by {
            lemma_same_rows(sorted, before);
            assert(sorted.contains(sorted[i]));
            assert(before.contains(sorted[i]));
            let j = before.index_of(sorted[i]);
            assert(rows[j] == sorted[i]);
            assert(rows[rows.len() - 1] == row);
            assert(ranked_placement(
                rows[rows.len() - 1],
                rows[j],
                order,
                Direction::Natural,
            ) is Same);
        }
        lemma_same_slot(sorted, row, order, direction);
    }
}

proof fn lemma_same_slot(rows: Seq<PodRow>, row: PodRow, order: Order, direction: Direction)
    requires
        forall|i: int|
            0 <= i < rows.len() ==> placement(row, #[trigger] rows[i], order, direction)
                == placement(row, rows[i], Order::Name, Direction::Natural),
    ensures
        slot(rows, row, order, direction) == slot(rows, row, Order::Name, Direction::Natural),
    decreases rows.len(),
{
    if rows.len() > 0 {
        assert(forall|i: int| 0 <= i < rows.skip(1).len() ==> rows.skip(1)[i] == rows[i + 1]);
        assert(placement(row, rows[0], order, direction) == placement(
            row,
            rows[0],
            Order::Name,
            Direction::Natural,
        ));
        lemma_same_slot(rows.skip(1), row, order, direction);
    }
}

/// Where an ordering has nothing to rank, it separates no two rows, so that the
/// alphabet decides the whole listing. A restart count below zero is the one
/// thing that an ordering can tell apart and does not rank.
pub proof fn law_nothing_ranked_means_alphabetical(
    rows: Seq<PodRow>,
    order: Order,
    direction: Direction,
)
    requires
        !any_ranked(rows, order),
        order is Restarts ==> forall|i: int|
            0 <= i < rows.len() ==> (#[trigger] rows[i]).restarts >= 0,
    ensures
        !separates(rows, order),
        arranged(rows, order, direction) == arranged(rows, Order::Name, Direction::Natural),
{
    assert forall|i: int, j: int| 0 <= i < rows.len() && 0 <= j < rows.len() implies
        ranked_placement(
        #[trigger] rows[i],
        #[trigger] rows[j],
        order,
        Direction::Natural,
    ) is Same by {
        assert(!is_ranked(rows[i], order));
        assert(!is_ranked(rows[j], order));
    }
    law_alphabet_decides_what_is_left(rows, order, direction);
}

/// Which of the pod table's optional columns this listing could not fill in.
#[derive(Debug, Clone, Copy, PartialEq, Eq, Structural)]
pub struct Missing {
    /// There is no live usage in the table, so `CPU` and `MEMORY` are absent,
    /// and a footnote above the table says so.
    pub usage: bool,
}

impl Default for Missing {
    /// Nothing is missing.
    fn default() -> (missing: Self)
        ensures
            !missing.usage,
    {
        Missing { usage: false }
    }
}

/// Whether a footnote above the table already accounts for an ordering that
/// ranked nothing.
///
/// A namespace where nothing has ever crashed ranks nothing under
/// [`Order::Restarts`], and there is no failure above the table to point at,
/// because there was no failure.
#[must_use]
pub fn cause(order: Order, missing: Missing) -> (cause: Cause)
    ensures
        cause == if missing.usage && (order is Cpu || order is Memory) {
            Cause::Explained
        } else {
            Cause::Unexplained
        },
{
    Cause::explained(
        match order {
            Order::Cpu | Order::Memory => missing.usage,
            Order::Name | Order::Restarts | Order::Age => false,
        },
    )
}

/// What an ordering is called.
pub open spec fn order_name(order: Order) -> Seq<char> {
    match order {
        Order::Name => "name"@,
        Order::Restarts => "restarts"@,
        Order::Age => "age"@,
        Order::Cpu => "cpu"@,
        Order::Memory => "memory"@,
    }
}

fn name_of(order: Order) -> (name: &'static str)
    ensures
        name@ == order_name(order),
{
    match order {
        Order::Name => "name",
        Order::Restarts => "restarts",
        Order::Age => "age",
        Order::Cpu => "cpu",
        Order::Memory => "memory",
    }
}

/// What [`note`] says.
pub open spec fn note_text(order: Order, direction: Direction) -> Option<Seq<char>> {
    if order is Name && direction is Natural {
        None
    } else if direction is Natural {
        Some("Sorted by "@ + order_name(order) + "."@)
    } else {
        Some("Sorted by "@ + order_name(order) + ", reversed"@ + "."@)
    }
}

/// The line under a listing that says which order it is in.
///
/// A sorted table and an unsorted one look alike to anyone who did not type the
/// command. A listing nobody reordered says nothing.
#[must_use]
pub fn note(order: Order, direction: Direction) -> (note: Option<String>)
    ensures
        held(note) == note_text(order, direction),
{
    if order == Order::Name && direction == Direction::Natural {
        return None;
    }
    let sorted = "Sorted by ".to_owned().concat(name_of(order));
    Some(
        match direction {
            Direction::Natural => sorted.concat("."),
            Direction::Reversed => sorted.concat(", reversed").concat("."),
        },
    )
}

/// The orderings a listing can be told to try instead.
pub open spec fn others() -> Seq<Order> {
    seq![Order::Restarts, Order::Age, Order::Cpu, Order::Memory]
}

/// The names of the orderings among these, other than one, that would rank a row.
pub open spec fn alternatives(rows: Seq<PodRow>, order: Order, orders: Seq<Order>) -> Seq<Seq<char>>
    decreases orders.len(),
{
    if orders.len() == 0 {
        seq![]
    } else {
        let before = alternatives(rows, order, orders.drop_last());
        if orders.last() != order && any_ranked(rows, orders.last()) {
            before.push(order_name(orders.last()))
        } else {
            before
        }
    }
}

/// Names as a choice: `a`, `a or b`, `a, b, or c`.
pub open spec fn choice_of(names: Seq<Seq<char>>) -> Seq<char> {
    if names.len() == 0 {
        seq![]
    } else if names.len() == 1 {
        names[0]
    } else if names.len() == 2 {
        names[0] + " or "@ + names[1]
    } else {
        joined(names.drop_last(), ", "@) + ", or "@ + names.last()
    }
}

/// What [`unranked_note`] says.
pub open spec fn unranked_text(rows: Seq<PodRow>, order: Order, cause: Cause) -> Option<Seq<char>> {
    let reason = if cause is Explained {
        ", for the reason above"@
    } else {
        seq![]
    };
    let names = alternatives(rows, order, others());
    let advice = if names.len() > 0 {
        "\nSort by "@ + choice_of(names) + " instead."@
    } else {
        seq![]
    };
    if any_ranked(rows, order) {
        None
    } else {
        Some("Nothing here has "@ + order_name(order) + " to sort by"@ + reason + "."@ + advice)
    }
}

fn show_choice(names: Vec<String>) -> (text: String)
    requires
        names@.len() > 0,
    ensures
        text@ == choice_of(texts(names@)),
{
    let ghost all = texts(names@);
    assert(all.len() == names@.len());
    if names.len() == 1 {
        return names[0].clone();
    }
    if names.len() == 2 {
        return names[0].clone().concat(" or ").concat(names[1].as_str());
    }
    let mut head = names;
    let last = head.len() - 1;
    let tail = head.remove(last);
    assert(texts(head@) =~= all.drop_last());
    text::join(&head, ", ").concat(", or ").concat(tail.as_str())
}

/// The line under a listing that an ordering ranked nothing in.
///
/// Without it the line that names the ordering describes rows the alphabet put in
/// that order. It points at the footnote that says why, where there is one, and
/// names the orderings that would have worked here.
#[must_use]
pub fn unranked_note(order: Order, cause: Cause, rows: &[PodRow]) -> (note: Option<String>)
    ensures
        held(note) == unranked_text(rows@, order, cause),
{
    if ranks_any(rows, order) {
        return None;
    }
    let mut text = "Nothing here has ".to_owned().concat(name_of(order)).concat(" to sort by");
    if cause == Cause::Explained {
        text.append(", for the reason above");
    }
    text.append(".");
    let candidates: [Order; 4] = [Order::Restarts, Order::Age, Order::Cpu, Order::Memory];
    let ghost all = others();
    assert(candidates@ =~= all);
    let mut names: Vec<String> = Vec::new();
    let mut i: usize = 0;
    assert(texts(names@) =~= seq![]);
    while i < 4
        invariant
            i <= 4,
            candidates@ == all,
            all.len() == 4,
            texts(names@) == alternatives(rows@, order, all.take(i as int)),
        decreases 4 - i,
    {
        assert(all.take(i + 1).drop_last() =~= all.take(i as int));
        let candidate = candidates[i];
        assert(all.take(i + 1).last() == candidate);
        if candidate != order && ranks_any(rows, candidate) {
            let ghost had = texts(names@);
            let name = name_of(candidate).to_owned();
            names.push(name);
            assert(texts(names@) =~= had.push(name@));
        }
        i = i + 1;
    }
    assert(all.take(i as int) =~= all);
    let ghost said = text@;
    assert(texts(names@).len() == names@.len());
    if names.len() > 0 {
        text.append("\nSort by ");
        text.append(show_choice(names).as_str());
        text.append(" instead.");
    }
    proof {
        let reason = if cause is Explained {
            ", for the reason above"@
        } else {
            seq![]
        };
        let front = "Nothing here has "@ + order_name(order) + " to sort by"@;
        assert(said =~= front + reason + "."@);
        assert(text@ =~= unranked_text(rows@, order, cause)->0);
    }
    Some(text)
}

} // verus!
