//! What the operations of this library are for, said of their inputs and results.
//!
//! The contract of an operation says what it returns through spec functions of its
//! module. The laws here say it again from outside: over the fields and characters
//! that come in, with plain sums, places and the words themselves spelled out.

pub mod booking;
pub mod events;
pub mod format;
pub mod kubeconfig;
pub mod listing;
pub mod quantity;
pub mod selector;
pub mod status;
pub mod terminal;

use vstd::prelude::*;

verus! {

/// What numbers add up to.
pub open spec fn sum(numbers: Seq<int>) -> int
    decreases numbers.len(),
{
    if numbers.len() == 0 {
        0
    } else {
        sum(numbers.drop_last()) + numbers.last()
    }
}

pub(crate) proof fn lemma_sum_push(numbers: Seq<int>, more: int)
    ensures
        sum(numbers.push(more)) == sum(numbers) + more,
{
    assert(numbers.push(more).drop_last() =~= numbers);
}

pub(crate) proof fn lemma_sum_at_least(numbers: Seq<int>)
    requires
        forall|i: int| 0 <= i < numbers.len() ==> #[trigger] numbers[i] >= 0,
    ensures
        sum(numbers) >= 0,
        forall|i: int| 0 <= i <= numbers.len() ==> sum(#[trigger] numbers.take(i)) <= sum(numbers),
    decreases numbers.len(),
{
    if numbers.len() > 0 {
        let before = numbers.drop_last();
        assert(forall|i: int| 0 <= i < before.len() ==> before[i] == numbers[i]);
        lemma_sum_at_least(before);
        assert(numbers.last() == numbers[numbers.len() - 1]);
        assert forall|i: int| 0 <= i <= numbers.len() implies sum(#[trigger] numbers.take(i))
            <= sum(numbers) by {
            if i < numbers.len() {
                assert(numbers.take(i) =~= before.take(i));
            } else {
                assert(numbers.take(i) =~= numbers);
            }
        }
    } else {
        assert forall|i: int| 0 <= i <= numbers.len() implies sum(#[trigger] numbers.take(i))
            <= sum(numbers) by {
            assert(numbers.take(i) =~= numbers);
        }
    }
}

} // verus!
