//! The trait a consumer implements to define its derived queries.

use vstd::prelude::*;

use crate::error::QueryError;
use crate::model::{agrees, all_read, read_values, Derive, Pending};
use crate::runtime::Runtime;

verus! {

/// The definition of a query system: how every derived query is computed.
///
/// A single `Key` type names every query. A key is an input once its value is
/// placed into the database with `Database::set`; every other key is derived,
/// and its value comes from [`compute`](System::compute).
///
/// `compute` must be a pure function of the queries it reads: it must read
/// every value it depends on through [`Runtime::get`], passing itself as the
/// system, and propagate a failed read. A system may state the function its
/// `compute` computes as [`spec_compute`](System::spec_compute); the engine
/// then keeps its cache consistent with it. The `ensures` of `compute` states
/// that contract; it is believed, not checked, for each implementation.
pub trait System: Sized {
    /// The identifier that names a query. Cheap to clone and totally ordered.
    type Key: Clone + Ord;

    /// The value a query produces. Cloned to return and compared for early
    /// cutoff.
    type Value: Clone + Eq;

    /// The value `compute` gives for `key` when every query it reads has the
    /// value `env` gives it. A system that states it also returns `true` from
    /// [`describes_compute`](System::describes_compute); otherwise nothing is
    /// claimed of it.
    open spec fn spec_compute(&self, key: Self::Key, env: spec_fn(Self::Key) -> Self::Value) -> Self::Value {
        vstd::pervasive::arbitrary()
    }

    /// Whether [`spec_compute`](System::spec_compute) describes `compute`.
    open spec fn describes_compute() -> bool {
        false
    }

    /// A rank for each key. A system that ranks its reads (see
    /// [`ranks_reads`](System::ranks_reads)) reads, in computing a key, only
    /// keys of lower rank, so its queries form no cycle.
    open spec fn rank(&self, key: Self::Key) -> nat {
        0
    }

    /// Whether [`rank`](System::rank) ranks the reads of `compute`.
    open spec fn ranks_reads() -> bool {
        false
    }

    /// Compute the value of a derived query, reading dependencies through `db`.
    ///
    /// Returns `QueryError::Cycle` when a dependency closes a cycle back onto a
    /// query still being computed; a failed read is propagated.
    ///
    /// It is called with the engine ready for reads: the resolutions in
    /// progress are sound, the innermost one is the computation of `key`, and its
    /// dependency record is open and empty. What the
    /// `ensures` claims: the body only resolves queries through
    /// `db.get(self, ..)`, so the engine changes as a resolution may; and, for a
    /// system that describes its `compute`, the engine stays consistent with it,
    /// and a successful result means every read succeeded and the result is
    /// `spec_compute` of the key for any assignment of values that agrees with
    /// what was read. For a system that ranks its reads: it fails only by
    /// passing on a failed read, and, from a state that agrees with the rank,
    /// it reads only keys ranked below the key and leaves a state that agrees
    /// with the rank, all its reads having succeeded.
    fn compute(&self, db: &mut Runtime<Self::Key, Self::Value>, key: &Self::Key) -> (r: Result<
        Self::Value,
        QueryError,
    >)
        requires
            old(db)@.structured(),
            old(db)@.may_read(),
            old(db)@.pending.len() > 0,
            old(db)@.pending.last() == (Pending::Computing { key: *key }),
            old(db)@.frames.len() > 0,
            old(db)@.frames.last().len() == 0,
            old(db)@.reads.len() > 0,
            old(db)@.reads.last().len() == 0,
        ensures
            old(db)@.query_step(final(db)@),
            Self::describes_compute() && old(db)@.consistent(
                |k: Self::Key, env: spec_fn(Self::Key) -> Self::Value| self.spec_compute(k, env),
            ) ==> final(db)@.consistent(
                |k: Self::Key, env: spec_fn(Self::Key) -> Self::Value| self.spec_compute(k, env),
            ),
            Self::ranks_reads() ==> (r is Err ==> !all_read(final(db)@.reads.last())),
            Self::ranks_reads() && old(db)@.ranked(|k: Self::Key| self.rank(k)) ==> {
                &&& final(db)@.ranked(|k: Self::Key| self.rank(k))
                &&& forall|j: int|
                    0 <= j < final(db)@.frames.last().len() ==> self.rank(
                        #[trigger] final(db)@.frames.last()[j],
                    ) < self.rank(*key)
            },
            Self::describes_compute() && old(db)@.reads.len() > 0 ==> (r matches Ok(v) ==> {
                &&& all_read(final(db)@.reads.last())
                &&& forall|env: spec_fn(Self::Key) -> Self::Value| #[trigger]
                    agrees(env, final(db)@.frames.last(), read_values(final(db)@.reads.last()))
                        ==> v == self.spec_compute(*key, env)
            }),
    ;
}

/// The rank a system gives its keys, as a value.
pub open spec fn rank_of<S: System>(system: S) -> spec_fn(S::Key) -> nat {
    |k: S::Key| system.rank(k)
}

/// The function a system computes, as a value.
pub open spec fn derive_of<S: System>(system: S) -> Derive<S::Key, S::Value> {
    |k: S::Key, env: spec_fn(S::Key) -> S::Value| system.spec_compute(k, env)
}

} // verus!
