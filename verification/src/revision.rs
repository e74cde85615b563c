//! The database version counter that drives incremental validation.

use std::cmp::Ordering;
use vstd::prelude::*;
use vstd::std_specs::cmp::PartialOrdSpec;

use crate::text::{decimal, push_decimal};

verus! {

/// A monotonic version stamp for the database.
///
/// Every time an input changes value, the database advances its revision by
/// one. Two stamps live on every memoized query: the revision it was last
/// verified at, and the revision its value last changed at. Whether a cached
/// query is still good reduces to comparing revisions.
///
/// Revisions are ordered: newer revisions compare greater than older ones.
#[derive(Debug, Clone, Copy, PartialEq, Eq, Ord, Hash)]
pub struct Revision(pub u64);

/// The successor of a counter value, stopping at `u64::MAX`.
pub open spec fn next_stamp(n: u64) -> u64 {
    if n == u64::MAX {
        n
    } else {
        (n + 1) as u64
    }
}

/// How two counter values compare.
pub open spec fn order_of(a: u64, b: u64) -> Ordering {
    if a < b {
        Ordering::Less
    } else if a == b {
        Ordering::Equal
    } else {
        Ordering::Greater
    }
}

impl PartialOrd for Revision {
    /// Revisions compare by their counters: a newer revision is greater.
    fn partial_cmp(&self, other: &Self) -> (r: Option<Ordering>) {
        if self.0 < other.0 {
            Some(Ordering::Less)
        } else if self.0 == other.0 {
            Some(Ordering::Equal)
        } else {
            Some(Ordering::Greater)
        }
    }
}

impl vstd::std_specs::cmp::PartialOrdSpecImpl for Revision {
    open spec fn obeys_partial_cmp_spec() -> bool {
        true
    }

    open spec fn partial_cmp_spec(&self, other: &Self) -> Option<Ordering> {
        Some(order_of(self.0, other.0))
    }
}

impl Default for Revision {
    /// The revision of a freshly created database.
    fn default() -> (r: Revision)
        ensures
            r.0 == 0,
    {
        Revision(0)
    }
}

/// Revisions are ordered by age, totally: any two revisions compare, a
/// revision compares greater exactly when its counter is larger (so, below the
/// top of the clock, the next revision compares greater than the current one),
/// less exactly when it is smaller, and equal exactly when they are the same;
/// the revision of a fresh database is never greater than any other.
pub proof fn law_next_revision_compares_greater(r: Revision, other: Revision)
    ensures
        r.partial_cmp_spec(&other) is Some,
        r.partial_cmp_spec(&other) == Some(Ordering::Greater) <==> r.0 > other.0,
        r.0 < u64::MAX ==> Revision(next_stamp(r.0)).partial_cmp_spec(&r) == Some(Ordering::Greater),
        r.0 < u64::MAX ==> r.partial_cmp_spec(&Revision(next_stamp(r.0))) == Some(Ordering::Less),
        Revision(0).partial_cmp_spec(&other) != Some(Ordering::Greater),
        r.partial_cmp_spec(&other) == Some(Ordering::Less) <==> r.0 < other.0,
        r.partial_cmp_spec(&other) == Some(Ordering::Equal) <==> r == other,
{
}

impl Revision {
    /// The revision of a freshly created database, before any input is set.
    pub fn start() -> (r: Revision)
        ensures
            r.0 == 0,
    {
        Revision(0)
    }

    /// The next revision after this one.
    ///
    /// Saturating rather than wrapping: at `u64::MAX` the counter stops instead
    /// of wrapping back to an older-looking value.
    pub fn next(self) -> (r: Revision)
        ensures
            r.0 == next_stamp(self.0),
    {
        Revision(self.0.saturating_add(1))
    }

    /// The underlying counter value.
    pub fn as_u64(self) -> (r: u64)
        ensures
            r == self.0,
    {
        self.0
    }

    /// The revision as text: `r` followed by the counter in decimal.
    pub fn to_string(&self) -> (s: String)
        ensures
            s@ == seq!['r'] + decimal(self.0 as nat),
    {
        let mut s = String::from_str("r");
        proof {
            reveal_strlit("r");
        }
        push_decimal(&mut s, self.0);
        s
    }
}

} // verus!
