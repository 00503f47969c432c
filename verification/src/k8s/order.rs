//! The rules every sorted listing follows: which way round an ordering runs, and
//! what happens to the rows it cannot rank.

use vstd::prelude::*;

verus! {

/// Which way round an ordering runs.
#[derive(Debug, Clone, Copy, PartialEq, Eq, Structural)]
pub enum Direction {
    /// The way the ordering describes itself.
    Natural,
    /// The other way round.
    Reversed,
}

impl Default for Direction {
    /// The natural way round.
    fn default() -> (direction: Self)
        ensures
            direction == Direction::Natural,
    {
        Direction::Natural
    }
}

/// Where one row stands with respect to another.
#[derive(Debug, Clone, Copy, PartialEq, Eq, Structural)]
pub enum Placement {
    /// It comes first.
    Before,
    /// Nothing separates the two.
    Same,
    /// The other comes first.
    After,
}

impl Placement {
    /// The same, seen from the other row.
    pub open spec fn flipped(self) -> Placement {
        match self {
            Placement::Before => Placement::After,
            Placement::Same => Placement::Same,
            Placement::After => Placement::Before,
        }
    }
}

impl Direction {
    /// The direction for a yes or a no to reversing.
    #[must_use]
    pub fn reversed(answer: bool) -> (direction: Direction)
        ensures
            direction == if answer {
                Direction::Reversed
            } else {
                Direction::Natural
            },
    {
        if answer {
            Direction::Reversed
        } else {
            Direction::Natural
        }
    }

    /// A placement under this direction.
    pub open spec fn applied(self, natural: Placement) -> Placement {
        match self {
            Direction::Natural => natural,
            Direction::Reversed => natural.flipped(),
        }
    }

    /// A placement under this direction.
    #[must_use]
    pub fn apply(self, natural: Placement) -> (placement: Placement)
        ensures
            placement == self.applied(natural),
    {
        match self {
            Direction::Natural => natural,
            Direction::Reversed => match natural {
                Placement::Before => Placement::After,
                Placement::Same => Placement::Same,
                Placement::After => Placement::Before,
            },
        }
    }
}

/// What an ordering makes of a row.
#[derive(Debug, Clone, Copy, PartialEq, Eq, Structural)]
pub enum Rank {
    /// It is ranked by this number, the largest first.
    By(i128),
    /// It has nothing to be ranked by. Such rows come last in either direction,
    /// those with a smaller number before those with a larger one.
    Unranked(u8),
}

impl Rank {
    /// Whether the row is ranked at all.
    #[must_use]
    pub fn is_ranked(self) -> (answer: bool)
        ensures
            answer == (self is By),
    {
        matches!(self, Rank::By(_))
    }
}

/// Where a row of one rank stands with respect to a row of another.
pub open spec fn placed(left: Rank, right: Rank, direction: Direction) -> Placement {
    match (left, right) {
        (Rank::By(a), Rank::By(b)) => direction.applied(
            if a > b {
                Placement::Before
            } else if a == b {
                Placement::Same
            } else {
                Placement::After
            },
        ),
        (Rank::By(a), Rank::Unranked(b)) => Placement::Before,
        (Rank::Unranked(a), Rank::By(b)) => Placement::After,
        (Rank::Unranked(a), Rank::Unranked(b)) => if a < b {
            Placement::Before
        } else if a == b {
            Placement::Same
        } else {
            Placement::After
        },
    }
}

/// Where a row of one rank stands with respect to a row of another.
///
/// The direction turns the ranked rows round and leaves the others where they
/// are: reversing a listing must not put the rows it knows nothing about on top.
#[must_use]
pub fn compare(left: Rank, right: Rank, direction: Direction) -> (placement: Placement)
    ensures
        placement == placed(left, right, direction),
{
    match (left, right) {
        (Rank::By(a), Rank::By(b)) => direction.apply(
            if a > b {
                Placement::Before
            } else if a == b {
                Placement::Same
            } else {
                Placement::After
            },
        ),
        (Rank::By(_), Rank::Unranked(_)) => Placement::Before,
        (Rank::Unranked(_), Rank::By(_)) => Placement::After,
        (Rank::Unranked(a), Rank::Unranked(b)) => {
            if a < b {
                Placement::Before
            } else if a == b {
                Placement::Same
            } else {
                Placement::After
            }
        },
    }
}

/// Whether something printed above a listing already accounts for an ordering
/// that ranked nothing.
#[derive(Debug, Clone, Copy, PartialEq, Eq, Structural)]
pub enum Cause {
    /// It does.
    Explained,
    /// It does not.
    Unexplained,
}

impl Cause {
    /// The cause for a yes or a no.
    #[must_use]
    pub fn explained(answer: bool) -> (cause: Cause)
        ensures
            cause == if answer {
                Cause::Explained
            } else {
                Cause::Unexplained
            },
    {
        if answer {
            Cause::Explained
        } else {
            Cause::Unexplained
        }
    }
}

} // verus!
