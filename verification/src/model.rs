//! The abstract state of the engine and the predicates its contracts use.

use vstd::prelude::*;

use crate::revision::{next_stamp, Revision};
use crate::stats::{sat_add, Stats};

verus! {

/// A stored input: a value placed into the database directly.
pub struct Input<V> {
    /// The value.
    pub value: V,
    /// The revision at which this input last took a new value.
    pub changed_at: Revision,
}

/// A memoized derived query: its cached value, what it read, and when.
pub struct Memo<K, V> {
    /// The cached value.
    pub value: V,
    /// The queries this value was computed from, in read order.
    pub deps: Vec<K>,
    /// The values those queries gave when this value was computed.
    pub reads: Ghost<Seq<V>>,
    /// The revision at which the value last became a different value.
    pub changed_at: Revision,
    /// The revision at which this memo was last confirmed current.
    pub verified_at: Revision,
}

/// A resolution in progress up the call chain, as the engine's ghost state
/// records it.
pub enum Pending<K> {
    /// The memo of `key` is being validated; its dependencies before `index`
    /// were found unchanged, and the one at `index` is being resolved.
    Validating { key: K, index: nat },
    /// The `compute` of `key` is running.
    Computing { key: K },
}

impl<K> Pending<K> {
    /// The key being resolved.
    pub open spec fn key(self) -> K {
        match self {
            Pending::Validating { key, .. } => key,
            Pending::Computing { key } => key,
        }
    }
}

/// What a query system computes: the value of a derived key when every query
/// it reads has the value `env` gives.
pub type Derive<K, V> = spec_fn(K, spec_fn(K) -> V) -> V;

/// `env` gives each of `keys` the matching one of `values`.
pub open spec fn agrees<K, V>(env: spec_fn(K) -> V, keys: Seq<K>, values: Seq<V>) -> bool {
    &&& keys.len() == values.len()
    &&& forall|j: int| 0 <= j < keys.len() ==> env(keys[j]) == values[j]
}

/// Every read of a dependency record succeeded.
pub open spec fn all_read<V>(reads: Seq<Option<V>>) -> bool {
    forall|j: int| 0 <= j < reads.len() ==> (#[trigger] reads[j]) is Some
}

/// The values of the successful reads of a dependency record.
pub open spec fn read_values<V>(reads: Seq<Option<V>>) -> Seq<V> {
    reads.map_values(|o: Option<V>| o->0)
}

/// The stored part of the engine state is consistent: a key is an input or a
/// derived query, never both; no stamp runs ahead of the clock, and no memo
/// changed after it was last verified.
pub open spec fn store_well_formed<K, V>(
    revision: u64,
    inputs: Map<K, Input<V>>,
    memos: Map<K, Memo<K, V>>,
) -> bool {
    &&& forall|k: K| #[trigger] inputs.contains_key(k) ==> !memos.contains_key(k)
    &&& forall|k: K| #[trigger] inputs.contains_key(k) ==> inputs[k].changed_at.0 <= revision
    &&& forall|k: K| #[trigger]
        memos.contains_key(k) ==> memos[k].changed_at.0 <= memos[k].verified_at.0 <= revision
}

/// The abstract state of the engine.
#[verifier::reject_recursive_types(K)]
pub struct RuntimeView<K, V> {
    /// The current revision.
    pub revision: u64,
    /// The set inputs.
    pub inputs: Map<K, Input<V>>,
    /// The memoized derived queries.
    pub memos: Map<K, Memo<K, V>>,
    /// The keys whose `compute` is in progress, outermost first.
    pub active: Seq<K>,
    /// For each `compute` in progress, outermost first, the keys it read.
    pub frames: Seq<Seq<K>>,
    /// For each `compute` in progress, the value each of its reads gave, or
    /// `None` for a read that failed or has not returned yet.
    pub reads: Seq<Seq<Option<V>>>,
    /// The resolutions in progress, outermost first.
    pub pending: Seq<Pending<K>>,
    /// The resolution counters.
    pub stats: Stats,
    /// The counters just before the latest resolution counted its own path:
    /// everything its dependency checks and its `compute` counted included.
    pub counted_from: Stats,
    /// The clock saturated on a change; the cache makes no consistency claim
    /// since.
    pub tainted: bool,
}

impl<K, V> RuntimeView<K, V> {
    /// The state of a fresh engine: revision zero, nothing stored, nothing running.
    pub open spec fn initial() -> Self {
        RuntimeView {
            revision: 0,
            inputs: Map::empty(),
            memos: Map::empty(),
            active: Seq::empty(),
            frames: Seq::empty(),
            reads: Seq::empty(),
            pending: Seq::empty(),
            stats: Stats { computed: 0, validated: 0, hits: 0 },
            counted_from: Stats { computed: 0, validated: 0, hits: 0 },
            tainted: false,
        }
    }

    /// See [`store_well_formed`].
    pub open spec fn well_formed(self) -> bool {
        store_well_formed(self.revision, self.inputs, self.memos)
    }

    /// No resolution is in progress.
    pub open spec fn idle(self) -> bool {
        &&& self.active.len() == 0
        &&& self.frames.len() == 0
        &&& self.reads.len() == 0
        &&& self.pending.len() == 0
    }

    /// The state after `set(key, value)`: the key's memo is dropped; a new or
    /// different value advances the revision and is stamped with it, and the
    /// value the key already holds changes nothing else.
    pub open spec fn after_set(self, key: K, value: V) -> Self {
        let memos = self.memos.remove(key);
        if self.inputs.contains_key(key) && self.inputs[key].value == value {
            RuntimeView { memos, ..self }
        } else {
            let r = next_stamp(self.revision);
            RuntimeView {
                revision: r,
                inputs: self.inputs.insert(key, Input { value, changed_at: Revision(r) }),
                memos,
                tainted: self.tainted || self.revision == u64::MAX,
                ..self
            }
        }
    }

    /// The state after `key` is recorded as read, with outcome `read`, by the
    /// innermost `compute` in progress, if any.
    pub open spec fn with_read(self, key: K, read: Option<V>) -> Self {
        RuntimeView {
            frames: if self.frames.len() == 0 {
                self.frames
            } else {
                self.frames.drop_last().push(self.frames.last().push(key))
            },
            reads: if self.reads.len() == 0 {
                self.reads
            } else {
                self.reads.drop_last().push(self.reads.last().push(read))
            },
            ..self
        }
    }

    /// `key` is derived and its memo was verified at the current revision.
    pub open spec fn is_fresh(self, key: K) -> bool {
        &&& !self.inputs.contains_key(key)
        &&& self.memos.contains_key(key)
        &&& self.memos[key].verified_at.0 == self.revision
    }

    /// `key` is an input or a derived query verified at the current revision.
    pub open spec fn is_current(self, key: K) -> bool {
        self.inputs.contains_key(key) || self.is_fresh(key)
    }

    /// `key` holds a value: it is an input or it has a memo.
    pub open spec fn has_stamp(self, key: K) -> bool {
        self.inputs.contains_key(key) || self.memos.contains_key(key)
    }

    /// The value `key` holds: its input value, else its cached value.
    pub open spec fn held_value(self, key: K) -> V {
        if self.inputs.contains_key(key) {
            self.inputs[key].value
        } else {
            self.memos[key].value
        }
    }

    /// The revision at which the value `key` holds last changed.
    pub open spec fn stamp(self, key: K) -> u64 {
        if self.inputs.contains_key(key) {
            self.inputs[key].changed_at.0
        } else {
            self.memos[key].changed_at.0
        }
    }

    /// The state after one more hit, counted from the current counters.
    pub open spec fn with_hit(self) -> Self {
        RuntimeView {
            stats: Stats { hits: sat_add(self.stats.hits, 1), ..self.stats },
            counted_from: self.stats,
            ..self
        }
    }

    /// The change stamp a resolution of the derived `key` to `value` carries:
    /// the old stamp when the value is the one already cached (early cutoff),
    /// the current revision otherwise.
    pub open spec fn stamp_for(self, key: K, value: V) -> u64 {
        if self.memos.contains_key(key) && self.memos[key].value == value {
            self.memos[key].changed_at.0
        } else {
            self.revision
        }
    }

    /// `key` is being resolved somewhere up the call chain.
    pub open spec fn is_pending(self, key: K) -> bool {
        exists|t: int| 0 <= t < self.pending.len() && (#[trigger] self.pending[t]).key() == key
    }

    /// Dependency `j` of the memo of `key` is current and has not changed
    /// since the memo was verified.
    pub open spec fn dep_unchanged(self, key: K, j: int) -> bool {
        &&& self.is_current(self.memos[key].deps@[j])
        &&& self.stamp(self.memos[key].deps@[j]) <= self.memos[key].verified_at.0
    }

    /// Every dependency `memo` read is current and has not changed since
    /// `memo` was verified.
    pub open spec fn deps_unchanged_since(self, memo: Memo<K, V>) -> bool {
        forall|j: int|
            0 <= j < memo.deps@.len() ==> {
                &&& self.is_current(#[trigger] memo.deps@[j])
                &&& self.stamp(memo.deps@[j]) <= memo.verified_at.0
            }
    }

    /// Dependency `j` of the memo of `key` is current and changed after the
    /// memo was verified.
    pub open spec fn dep_changed(self, key: K, j: int) -> bool {
        &&& self.is_current(self.memos[key].deps@[j])
        &&& self.stamp(self.memos[key].deps@[j]) > self.memos[key].verified_at.0
    }

    /// What the resolution in progress at position `t` relies on: its key is
    /// derived and not verified now; a validation's memo is there and the
    /// dependencies it already checked are unchanged, and the resolution above
    /// it is the one of the dependency it is checking; a computation's key is
    /// marked active, and if it has a memo, a dependency of it changed.
    pub open spec fn pending_sound_at(self, t: int) -> bool {
        &&& !self.inputs.contains_key(self.pending[t].key())
        &&& !self.is_fresh(self.pending[t].key())
        &&& match self.pending[t] {
            Pending::Validating { key, index } => {
                &&& self.memos.contains_key(key)
                &&& index <= self.memos[key].deps@.len()
                &&& forall|j: int| 0 <= j < index ==> #[trigger] self.dep_unchanged(key, j)
                &&& t + 1 < self.pending.len() ==> {
                    &&& index < self.memos[key].deps@.len()
                    &&& self.pending[t + 1].key() == self.memos[key].deps@[index as int]
                }
            },
            Pending::Computing { key } => {
                &&& self.active.contains(key)
                &&& self.memos.contains_key(key) ==> exists|j: int|
                    0 <= j < self.memos[key].deps@.len() && #[trigger] self.dep_changed(key, j)
            },
        }
    }

    /// Every resolution in progress is sound.
    pub open spec fn structured(self) -> bool {
        forall|t: int| 0 <= t < self.pending.len() ==> #[trigger] self.pending_sound_at(t)
    }

    /// A resolution of `key` may start here: the innermost resolution in
    /// progress, if it is a validation, is checking exactly `key`.
    pub open spec fn may_resolve(self, key: K) -> bool {
        self.pending.len() > 0 ==> match self.pending.last() {
            Pending::Validating { key: k, index } => {
                &&& index < self.memos[k].deps@.len()
                &&& self.memos[k].deps@[index as int] == key
            },
            Pending::Computing { .. } => true,
        }
    }

    /// A `compute` may read any key here: no resolution is in progress, or the
    /// innermost one is a computation.
    pub open spec fn may_read(self) -> bool {
        self.pending.len() > 0 ==> self.pending.last() is Computing
    }

    /// The state agrees with a ranking of the keys: every memo depends only
    /// on keys of lower rank than its own; each resolution in progress is of a
    /// key ranked below those of the resolutions it runs inside, and below
    /// `u64::MAX`; and every key being computed is being resolved.
    pub open spec fn ranked_core(self, rank: spec_fn(K) -> nat) -> bool {
        &&& forall|k: K, j: int|
            #![trigger self.memos[k].deps@[j]]
            self.memos.contains_key(k) && 0 <= j < self.memos[k].deps@.len() ==> rank(
                self.memos[k].deps@[j],
            ) < rank(k)
        &&& forall|t1: int, t2: int|
            0 <= t1 < t2 < self.pending.len() ==> rank(#[trigger] self.pending[t2].key()) < rank(
                #[trigger] self.pending[t1].key(),
            )
        &&& forall|t: int|
            0 <= t < self.pending.len() ==> rank(#[trigger] self.pending[t].key()) < u64::MAX
        &&& forall|k: K| #[trigger] self.active.contains(k) ==> self.is_pending(k)
    }

    /// [`ranked_core`](RuntimeView::ranked_core), and every read the innermost
    /// `compute` in progress made succeeded.
    pub open spec fn ranked(self, rank: spec_fn(K) -> nat) -> bool {
        &&& self.ranked_core(rank)
        &&& self.reads.len() > 0 ==> all_read(self.reads.last())
    }

    /// `key` is ranked below `u64::MAX` and below every key being resolved.
    pub open spec fn ranked_below(self, rank: spec_fn(K) -> nat, key: K) -> bool {
        &&& rank(key) < u64::MAX
        &&& forall|t: int|
            0 <= t < self.pending.len() ==> rank(key) < rank(#[trigger] self.pending[t].key())
    }

    /// What resolving queries may do to the engine: the revision, the inputs,
    /// the stack of queries in progress and the resolutions in progress stay;
    /// every dependency record but the innermost stays; memos are added or
    /// refreshed (and then stamped verified now), never dropped, and the memo of
    /// a key being resolved up the call chain is not touched; a current key
    /// stays current with the same value and change stamp; the counters only
    /// grow.
    pub open spec fn query_step(self, after: Self) -> bool {
        &&& after.revision == self.revision
        &&& after.inputs == self.inputs
        &&& after.active == self.active
        &&& after.pending == self.pending
        &&& after.tainted == self.tainted
        &&& after.frames.len() == self.frames.len()
        &&& forall|i: int| 0 <= i < self.frames.len() - 1 ==> after.frames[i] == self.frames[i]
        &&& after.reads.len() == self.reads.len()
        &&& forall|i: int| 0 <= i < self.reads.len() - 1 ==> after.reads[i] == self.reads[i]
        &&& forall|k: K| self.memos.contains_key(k) ==> #[trigger] after.memos.contains_key(k)
        &&& forall|k: K| #[trigger]
            after.memos.contains_key(k) ==> (self.memos.contains_key(k) && after.memos[k]
                == self.memos[k]) || after.memos[k].verified_at.0 == self.revision
        &&& forall|k: K| #[trigger]
            self.is_pending(k) ==> (after.memos.contains_key(k) == self.memos.contains_key(k)
                && (self.memos.contains_key(k) ==> after.memos[k] == self.memos[k]))
        &&& forall|k: K| #[trigger]
            self.is_current(k) ==> {
                &&& after.is_current(k)
                &&& after.held_value(k) == self.held_value(k)
                &&& after.stamp(k) == self.stamp(k)
            }
        &&& self.stats.counts_le(after.stats)
    }

    /// A query step that leaves every dependency record as it was.
    pub open spec fn query_step_exact(self, after: Self) -> bool {
        &&& self.query_step(after)
        &&& after.frames == self.frames
        &&& after.reads == self.reads
    }

    /// One outcome recorded per key read, for every `compute` in progress.
    pub open spec fn frames_shaped(self) -> bool {
        &&& self.reads.len() == self.frames.len()
        &&& forall|i: int| 0 <= i < self.frames.len() ==> #[trigger] self.reads[i].len() == self.frames[i].len()
    }

    /// Every successful read of a `compute` in progress is still current and
    /// holds the value that was read.
    pub open spec fn reads_current(self) -> bool {
        forall|i: int, j: int|
            0 <= i < self.frames.len() && 0 <= j < self.frames[i].len() && (#[trigger] self.reads[i][j]) is Some
                ==> self.is_current(self.frames[i][j]) && self.held_value(self.frames[i][j])
                == self.reads[i][j]->0
    }

    /// Every cached value is what the system computes from the values its
    /// dependencies had when it was computed.
    pub open spec fn memos_pure(self, derive: Derive<K, V>) -> bool {
        forall|k: K| #[trigger]
            self.memos.contains_key(k) ==> {
                &&& self.memos[k].deps@.len() == self.memos[k].reads@.len()
                &&& forall|env: spec_fn(K) -> V| #[trigger]
                    agrees(env, self.memos[k].deps@, self.memos[k].reads@) ==> self.memos[k].value
                        == derive(k, env)
            }
    }

    /// A dependency whose value has not changed since a memo was verified still
    /// holds the value that memo read.
    pub open spec fn stamps_sound(self) -> bool {
        forall|k: K, i: int|
            #![trigger self.memos[k].deps@[i]]
            self.memos.contains_key(k) && 0 <= i < self.memos[k].deps@.len() && self.has_stamp(
                self.memos[k].deps@[i],
            ) && self.stamp(self.memos[k].deps@[i]) <= self.memos[k].verified_at.0
                ==> self.held_value(self.memos[k].deps@[i]) == self.memos[k].reads@[i]
    }

    /// Every dependency of a memo verified now is itself current.
    pub open spec fn fresh_closed(self) -> bool {
        forall|k: K, i: int|
            #![trigger self.memos[k].deps@[i]]
            self.is_fresh(k) && 0 <= i < self.memos[k].deps@.len() ==> self.is_current(
                self.memos[k].deps@[i],
            )
    }

    /// The cache is consistent with the system `derive`, unless tainted.
    pub open spec fn consistent(self, derive: Derive<K, V>) -> bool {
        self.tainted || {
            &&& self.frames_shaped()
            &&& self.reads_current()
            &&& self.memos_pure(derive)
            &&& self.stamps_sound()
            &&& self.fresh_closed()
        }
    }

    /// Every memo that is not verified now and that read `key` when `key` had
    /// not changed since `stamp`, read `value`: `key` may be given the value
    /// `value` with stamp `stamp` without misleading those memos.
    pub open spec fn prev_ok(self, key: K, value: V, stamp: u64) -> bool {
        forall|m: K, i: int|
            #![trigger self.memos[m].deps@[i]]
            self.memos.contains_key(m) && !self.is_fresh(m) && 0 <= i
                < self.memos[m].deps@.len() && self.memos[m].deps@[i] == key && stamp
                <= self.memos[m].verified_at.0 ==> self.memos[m].reads@[i] == value
    }
}

} // verus!
