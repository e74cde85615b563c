//! The error a query resolution returns when it cannot complete.

use vstd::prelude::*;

verus! {

/// The error returned from a query resolution that cannot complete.
///
/// A derived query is resolved by running its `compute`, which reads other
/// queries. If a query asks, directly or through a chain of other queries, for
/// a result that is itself still being computed, the queries form a cycle and
/// the whole chain unwinds with [`QueryError::Cycle`].
#[derive(Debug, Clone, Copy, PartialEq, Eq, Hash)]
#[non_exhaustive]
pub enum QueryError {
    /// A query depended on itself, directly or through a chain of other queries.
    Cycle,
}

/// The message that describes a cycle.
pub open spec fn cycle_message() -> Seq<char> {
    "query cycle detected: a query depends on itself"@
}

impl QueryError {
    /// A human-readable description of the error.
    pub fn to_string(&self) -> (s: String)
        ensures
            s@ == cycle_message(),
    {
        match self {
            QueryError::Cycle => String::from_str("query cycle detected: a query depends on itself"),
        }
    }
}

} // verus!
