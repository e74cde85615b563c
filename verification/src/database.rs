//! The public database: a query system together with the engine state it drives.

use vstd::prelude::*;

use crate::error::QueryError;
use crate::revision::Revision;
use crate::laws::{
    law_initial_is_consistent, law_recording_a_read_is_a_query_step, law_set_keeps_cache_consistent,
};
use crate::model::{Memo, RuntimeView};
use crate::runtime::{lawful_key, lawful_value, lemma_initial_is_ranked, with_last_read, Runtime};
use crate::system::{derive_of, rank_of};
use crate::stats::{sat_add, Stats};
use crate::system::System;
use crate::text::{decimal, push_decimal};

verus! {

/// An incremental query database: the store of inputs and the cache of derived
/// results, with automatic dependency tracking and invalidation.
///
/// A consumer defines its queries by implementing [`System`], hands the system
/// to [`new`](Database::new), seeds the base facts with [`set`](Database::set),
/// and asks for results with [`get`](Database::get). Between calls no query is
/// in progress.
pub struct Database<S: System> {
    system: S,
    rt: Runtime<S::Key, S::Value>,
}

impl<S: System> View for Database<S> {
    type V = RuntimeView<S::Key, S::Value>;

    closed spec fn view(&self) -> RuntimeView<S::Key, S::Value> {
        self.rt@
    }
}

/// The text the debug rendering of a database gives for the given state.
pub open spec fn debug_text<K, V>(v: RuntimeView<K, V>) -> Seq<char> {
    "Database { revision: Revision("@ + decimal(v.revision as nat) + "), inputs: "@ + decimal(
        v.inputs.len(),
    ) + ", memos: "@ + decimal(v.memos.len()) + ", stats: Stats { computed: "@ + decimal(
        v.stats.computed as nat,
    ) + ", validated: "@ + decimal(v.stats.validated as nat) + ", hits: "@ + decimal(
        v.stats.hits as nat,
    ) + " } }"@
}

impl<S: System> Database<S> {
    #[verifier::type_invariant]
    spec fn idle_and_consistent(self) -> bool {
        &&& self.rt@.idle()
        &&& S::describes_compute() ==> self.rt@.consistent(derive_of(self.system))
        &&& S::ranks_reads() ==> {
            &&& self.rt@.ranked(rank_of(self.system))
            &&& forall|k: S::Key| #[trigger] self.system.rank(k) < u64::MAX
        }
    }

    /// The query system backing this database.
    pub closed spec fn spec_system(self) -> S {
        self.system
    }

    /// Create an empty database for the given query system: revision zero, no
    /// inputs, an empty cache and zeroed counters.
    pub fn new(system: S) -> (db: Self)
        requires
            lawful_key::<S::Key>(),
            lawful_value::<S::Value>(),
            S::ranks_reads() ==> forall|k: S::Key| #[trigger] system.rank(k) < u64::MAX,
        ensures
            db@ == RuntimeView::<S::Key, S::Value>::initial(),
            db@.well_formed(),
            db.spec_system() == system,
            S::describes_compute() ==> db@.consistent(derive_of(db.spec_system())),
    {
        proof {
            law_initial_is_consistent(derive_of(system));
            lemma_initial_is_ranked::<S::Key, S::Value>(rank_of(system));
        }
        Database { system, rt: Runtime::new() }
    }

    /// Set an input to a value, advancing the revision if the value changed.
    ///
    /// Once set, a key is an input: `get` returns the stored value directly and
    /// `compute` is never called for it. Setting the value a key already holds
    /// changes nothing; setting a derived key discards its cached result.
    pub fn set(&mut self, key: S::Key, value: S::Value)
        ensures
            final(self)@ == old(self)@.after_set(key, value),
            final(self)@.well_formed(),
            final(self).spec_system() == old(self).spec_system(),
            S::describes_compute() ==> final(self)@.consistent(derive_of(final(self).spec_system())),
    {
        proof {
            use_type_invariant(&*self);
        }
        self.rt.check_well_formed();
        let mut rt = self.rt.fresh();
        proof {
            law_initial_is_consistent(derive_of(self.system));
            lemma_initial_is_ranked::<S::Key, S::Value>(rank_of(self.system));
        }
        std::mem::swap(&mut rt, &mut self.rt);
        let ghost before = rt@;
        rt.set(key, value);
        proof {
            if S::describes_compute() {
                law_set_keeps_cache_consistent(before, key, value, derive_of(self.system));
            }
            if S::ranks_reads() {
                let t = before.after_set(key, value);
                assert forall|k: S::Key, j: int|
                    #![trigger t.memos[k].deps@[j]]
                    t.memos.contains_key(k) && 0 <= j < t.memos[k].deps@.len() implies rank_of(self.system)(
                        t.memos[k].deps@[j],
                    ) < rank_of(self.system)(k) by {
                    assert(before.memos.contains_key(k));
                }
            }
        }
        std::mem::swap(&mut rt, &mut self.rt);
        self.rt.check_well_formed();
    }

    /// Resolve a query to its value, computing and caching it as needed.
    ///
    /// An input's value is returned directly. A derived query verified at the
    /// current revision is a hit. A stale one is revalidated against the
    /// queries it read and recomputed only when one of them changed after it was
    /// last verified (early cutoff). A query read while it is itself being
    /// computed resolves to [`QueryError::Cycle`]. For a system that ranks its
    /// reads (see `System::rank`), and so has no cycle, every query resolves.
    pub fn get(&mut self, key: &S::Key) -> (r: Result<S::Value, QueryError>)
        ensures
            final(self).spec_system() == old(self).spec_system(),
            old(self)@.query_step_exact(final(self)@),
            final(self)@.well_formed(),
            S::describes_compute() ==> final(self)@.consistent(derive_of(final(self).spec_system())),
            S::ranks_reads() ==> r is Ok,
            r is Err ==> !final(self)@.is_current(*key),
            old(self)@.memos.contains_key(*key) && !old(self)@.is_fresh(*key)
                && final(self)@.deps_unchanged_since(old(self)@.memos[*key]) ==> r is Ok,
            r is Err ==> final(self)@.memos.contains_key(*key) == old(self)@.memos.contains_key(*key)
                && (old(self)@.memos.contains_key(*key) ==> final(self)@.memos[*key]
                == old(self)@.memos[*key]),
            old(self)@.inputs.contains_key(*key) ==> {
                &&& r == Ok::<S::Value, QueryError>(old(self)@.inputs[*key].value)
                &&& final(self)@ == old(self)@
            },
            old(self)@.is_fresh(*key) ==> {
                &&& r == Ok::<S::Value, QueryError>(old(self)@.memos[*key].value)
                &&& final(self)@ == old(self)@.with_hit()
            },
            r matches Ok(v) ==> {
                &&& final(self)@.is_current(*key)
                &&& final(self)@.held_value(*key) == v
            },
            old(self)@.memos.contains_key(*key) && !old(self)@.is_fresh(*key)
                && old(self)@.deps_unchanged_since(old(self)@.memos[*key]) ==> {
                &&& r == Ok::<S::Value, QueryError>(old(self)@.memos[*key].value)
                &&& final(self)@.memos == old(self)@.memos.insert(
                    *key,
                    Memo { verified_at: Revision(old(self)@.revision), ..old(self)@.memos[*key] },
                )
                &&& final(self)@.stats.computed == old(self)@.stats.computed
                &&& final(self)@.stats.validated == sat_add(old(self)@.stats.validated, 1)
            },
            old(self)@.memos.contains_key(*key) && !old(self)@.is_fresh(*key) ==> (r matches Ok(v)
                ==> if final(self)@.deps_unchanged_since(old(self)@.memos[*key]) {
                &&& v == old(self)@.memos[*key].value
                &&& final(self)@.memos[*key] == (Memo {
                    verified_at: Revision(old(self)@.revision),
                    ..old(self)@.memos[*key]
                })
                &&& (old(self)@.stats.validated < final(self)@.stats.validated
                    || final(self)@.stats.validated == u64::MAX)
                &&& old(self)@.stats.counts_le(final(self)@.counted_from)
                &&& final(self)@.stats == (Stats {
                    validated: sat_add(final(self)@.counted_from.validated, 1),
                    ..final(self)@.counted_from
                })
            } else {
                &&& (old(self)@.stats.computed < final(self)@.stats.computed
                    || final(self)@.stats.computed == u64::MAX)
                &&& old(self)@.stats.counts_le(final(self)@.counted_from)
                &&& final(self)@.stats == (Stats {
                    computed: sat_add(final(self)@.counted_from.computed, 1),
                    ..final(self)@.counted_from
                })
            }),
            !old(self)@.inputs.contains_key(*key) && !old(self)@.memos.contains_key(*key)
                && !old(self)@.active.contains(*key) ==> {
                &&& old(self)@.stats.counts_le(final(self)@.counted_from)
                &&& final(self)@.stats == (Stats {
                    computed: sat_add(final(self)@.counted_from.computed, 1),
                    ..final(self)@.counted_from
                })
            },
            !old(self)@.inputs.contains_key(*key) ==> (r matches Ok(v) ==> {
                &&& old(self)@.stats.counted(final(self)@.stats)
                &&& final(self)@.stamp(*key) == old(self)@.stamp_for(*key, v)
                &&& final(self)@.memos.contains_key(*key)
                &&& final(self)@.memos[*key].verified_at.0 == old(self)@.revision
            }),
            !old(self)@.inputs.contains_key(*key) && !old(self)@.memos.contains_key(*key) ==> (
            old(self)@.stats.computed < final(self)@.stats.computed || final(self)@.stats.computed
                == u64::MAX),
            !old(self)@.inputs.contains_key(*key) && !old(self)@.memos.contains_key(*key) ==> (
            r matches Ok(v) ==> {
                &&& final(self)@.memos[*key].value == v
                &&& final(self)@.memos[*key].changed_at.0 == old(self)@.revision
                &&& (old(self)@.stats.computed < final(self)@.stats.computed
                    || old(self)@.stats.computed == u64::MAX)
            }),
    {
        proof {
            use_type_invariant(&*self);
        }
        let mut rt = self.rt.fresh();
        proof {
            law_initial_is_consistent(derive_of(self.system));
            lemma_initial_is_ranked::<S::Key, S::Value>(rank_of(self.system));
        }
        std::mem::swap(&mut rt, &mut self.rt);
        let ghost before = rt@;
        let r = rt.get(&self.system, key);
        proof {
            law_recording_a_read_is_a_query_step(before, *key, None);
            assert(before.with_read(*key, None) == before);
            match &r {
                Ok(v) => {
                    assert(with_last_read(before.reads, Some(*v)) == before.reads);
                },
                Err(_) => {},
            }
        }
        std::mem::swap(&mut rt, &mut self.rt);
        self.rt.check_well_formed();
        r
    }

    /// The current revision: advances by one each time `set` gives an input a
    /// new value.
    pub fn revision(&self) -> (r: Revision)
        ensures
            r.0 == self@.revision,
    {
        self.rt.revision()
    }

    /// A snapshot of the cumulative resolution counters.
    pub fn stats(&self) -> (s: Stats)
        ensures
            s == self@.stats,
    {
        self.rt.stats()
    }

    /// The query system backing this database.
    pub fn system(&self) -> (s: &S)
        ensures
            *s == self.spec_system(),
    {
        &self.system
    }

    /// A debug rendering of the database's shape: its revision, how many inputs
    /// and memos it holds, and its counters.
    pub fn debug_string(&self) -> (s: String)
        ensures
            s@ == debug_text(self@),
    {
        let stats = self.rt.stats();
        let mut s = String::from_str("Database { revision: Revision(");
        push_decimal(&mut s, self.rt.revision().0);
        s.append("), inputs: ");
        push_decimal(&mut s, self.rt.input_count() as u64);
        s.append(", memos: ");
        push_decimal(&mut s, self.rt.memo_count() as u64);
        s.append(", stats: Stats { computed: ");
        push_decimal(&mut s, stats.computed);
        s.append(", validated: ");
        push_decimal(&mut s, stats.validated);
        s.append(", hits: ");
        push_decimal(&mut s, stats.hits);
        s.append(" } }");
        s
    }
}

} // verus!
