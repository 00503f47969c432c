//! Points in time, as the API server reports them.

use vstd::prelude::*;

use crate::k8s::quantity::{saturated, toward_zero};

verus! {

/// A point in time: nanoseconds since the Unix epoch.
#[derive(Debug, Clone, Copy, PartialEq, Eq, Structural, PartialOrd, Ord)]
pub struct Timestamp {
    /// Nanoseconds since the Unix epoch, negative before it.
    pub nanosecond: i128,
}

/// Whole seconds from one point in time to another, the fraction dropped.
/// Negative where the second comes first.
pub open spec fn seconds_between(earlier: Timestamp, later: Timestamp) -> int {
    toward_zero(saturated(later.nanosecond - earlier.nanosecond), 1_000_000_000)
}

impl Timestamp {
    /// Whole seconds since an earlier point in time, the fraction dropped.
    /// Negative where that point is still to come.
    #[must_use]
    pub fn seconds_since(self, earlier: Timestamp) -> (seconds: i128)
        ensures
            seconds == seconds_between(earlier, self),
    {
        let nanoseconds: i128 = match self.nanosecond.checked_sub(earlier.nanosecond) {
            Some(difference) => difference,
            None => if earlier.nanosecond < 0 {
                i128::MAX
            } else {
                i128::MIN
            },
        };
        if nanoseconds >= 0 {
            nanoseconds / 1_000_000_000
        } else if nanoseconds == i128::MIN {
            -170141183460469231731687303715
        } else {
            -(-nanoseconds / 1_000_000_000)
        }
    }
}

} // verus!
