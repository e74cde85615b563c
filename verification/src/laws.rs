//! Laws of the engine, stated over its abstract state.

use vstd::prelude::*;

use crate::model::{agrees, Derive, RuntimeView};
use crate::revision::next_stamp;
use crate::stats::{sat_add, Stats};

verus! {

/// Resolution steps compose: a step after a step is a step.
pub proof fn law_query_steps_compose<K, V>(
    a: RuntimeView<K, V>,
    b: RuntimeView<K, V>,
    c: RuntimeView<K, V>,
)
    requires
        a.query_step(b),
        b.query_step(c),
    ensures
        a.query_step(c),
{
    assert forall|i: int| 0 <= i < a.frames.len() - 1 implies c.frames[i] == a.frames[i] by {
        assert(c.frames[i] == b.frames[i]);
    }
    assert forall|i: int| 0 <= i < a.reads.len() - 1 implies c.reads[i] == a.reads[i] by {
        assert(c.reads[i] == b.reads[i]);
    }
    assert forall|k: K| a.memos.contains_key(k) implies #[trigger] c.memos.contains_key(k) by {
        assert(b.memos.contains_key(k));
    }
    assert forall|k: K| #[trigger] c.memos.contains_key(k) implies (a.memos.contains_key(k)
        && c.memos[k] == a.memos[k]) || c.memos[k].verified_at.0 == a.revision by {
        if c.memos[k].verified_at.0 != a.revision {
            assert(b.memos.contains_key(k) && c.memos[k] == b.memos[k]);
        }
    }
    assert forall|k: K| #[trigger] a.is_pending(k) implies (c.memos.contains_key(k)
        == a.memos.contains_key(k) && (a.memos.contains_key(k) ==> c.memos[k] == a.memos[k])) by {
        assert(b.is_pending(k));
    }
    assert forall|k: K| #[trigger] a.is_current(k) implies {
        &&& c.is_current(k)
        &&& c.held_value(k) == a.held_value(k)
        &&& c.stamp(k) == a.stamp(k)
    } by {
        assert(b.is_current(k));
    }
}

/// Recording a read is a resolution step, and it appends the key read, with
/// its outcome, to the innermost dependency record.
pub proof fn law_recording_a_read_is_a_query_step<K, V>(a: RuntimeView<K, V>, key: K, read: Option<V>)
    ensures
        a.query_step(a.with_read(key, read)),
        a.frames.len() > 0 ==> a.with_read(key, read).frames.last() == a.frames.last().push(key),
        a.reads.len() > 0 ==> a.with_read(key, read).reads.last() == a.reads.last().push(read),
        a.idle() ==> a.with_read(key, read) == a,
{
    let b = a.with_read(key, read);
    assert forall|k: K| #[trigger] a.is_pending(k) implies (b.memos.contains_key(k)
        == a.memos.contains_key(k) && (a.memos.contains_key(k) ==> b.memos[k] == a.memos[k])) by {}
    assert forall|k: K| #[trigger] a.is_current(k) implies {
        &&& b.is_current(k)
        &&& b.held_value(k) == a.held_value(k)
        &&& b.stamp(k) == a.stamp(k)
    } by {}
}

/// `set` keeps the cache consistent: a changed input gets a stamp later than
/// every verification, so no cached value can be mistaken for current.
pub proof fn law_set_keeps_cache_consistent<K, V>(
    s: RuntimeView<K, V>,
    key: K,
    value: V,
    derive: Derive<K, V>,
)
    requires
        s.well_formed(),
        s.idle(),
        s.consistent(derive),
    ensures
        s.after_set(key, value).consistent(derive),
{
    let t = s.after_set(key, value);
    if !t.tainted {
        if s.inputs.contains_key(key) && s.inputs[key].value == value {
            assert(t.memos =~= s.memos);
        } else {
            assert(t.revision == s.revision + 1);
            assert forall|k: K, i: int|
                #![trigger t.memos[k].deps@[i]]
                t.memos.contains_key(k) && 0 <= i < t.memos[k].deps@.len() && t.has_stamp(
                    t.memos[k].deps@[i],
                ) && t.stamp(t.memos[k].deps@[i]) <= t.memos[k].verified_at.0 implies t.held_value(
                t.memos[k].deps@[i],
            ) == t.memos[k].reads@[i] by {
                let x = t.memos[k].deps@[i];
                assert(s.memos.contains_key(k));
                assert(s.memos[k].deps@[i] == x);
                if x == key {
                    assert(t.stamp(x) == t.revision);
                } else {
                    assert(s.has_stamp(x));
                }
            }
            assert forall|k: K, i: int|
                #![trigger t.memos[k].deps@[i]]
                t.is_fresh(k) && 0 <= i < t.memos[k].deps@.len() implies t.is_current(
                t.memos[k].deps@[i],
            ) by {
                assert(s.memos.contains_key(k));
            }
            assert forall|k: K| #[trigger] t.memos.contains_key(k) implies {
                &&& t.memos[k].deps@.len() == t.memos[k].reads@.len()
                &&& forall|env: spec_fn(K) -> V| #[trigger]
                    crate::model::agrees(env, t.memos[k].deps@, t.memos[k].reads@) ==> t.memos[k].value
                        == derive(k, env)
            } by {
                assert(s.memos.contains_key(k));
            }
        }
    }
}

/// Read after write: once `set(key, value)` has run, `key` is an input that
/// holds `value` and has no memo, so a `get(key)` returns `value` without
/// running `compute`.
pub proof fn law_read_after_write<K, V>(s: RuntimeView<K, V>, key: K, value: V)
    ensures
        s.after_set(key, value).inputs.contains_key(key),
        s.after_set(key, value).inputs[key].value == value,
        !s.after_set(key, value).memos.contains_key(key),
{
}

/// Setting an input to the value it already holds changes nothing at all: the
/// revision does not advance and no cached result is invalidated.
pub proof fn law_same_value_set_changes_nothing<K, V>(s: RuntimeView<K, V>, key: K, value: V)
    requires
        s.well_formed(),
        s.inputs.contains_key(key),
        s.inputs[key].value == value,
    ensures
        s.after_set(key, value) == s,
{
    assert(s.memos.remove(key) =~= s.memos);
}

/// Setting a new key, or an input to a different value, advances the revision
/// by one (stopping at `u64::MAX`) and stamps the input with the new revision.
pub proof fn law_new_value_advances_revision<K, V>(s: RuntimeView<K, V>, key: K, value: V)
    requires
        !(s.inputs.contains_key(key) && s.inputs[key].value == value),
    ensures
        s.after_set(key, value).revision == next_stamp(s.revision),
        s.revision < u64::MAX ==> s.after_set(key, value).revision == s.revision + 1,
        s.after_set(key, value).inputs[key].changed_at.0 == s.after_set(key, value).revision,
{
}

/// The revision never runs backwards: `set` keeps or advances it, and resolving
/// queries keeps it.
pub proof fn law_revision_never_decreases<K, V>(
    s: RuntimeView<K, V>,
    key: K,
    value: V,
    t: RuntimeView<K, V>,
)
    ensures
        s.after_set(key, value).revision >= s.revision,
        s.query_step(t) ==> t.revision == s.revision,
{
}

/// `set` touches only its own key: every other input and memo stays, and the
/// counters and the queries in progress are untouched.
pub proof fn law_set_touches_only_its_key<K, V>(s: RuntimeView<K, V>, key: K, value: V, other: K)
    requires
        other != key,
    ensures
        s.after_set(key, value).inputs.contains_key(other) == s.inputs.contains_key(other),
        s.inputs.contains_key(other) ==> s.after_set(key, value).inputs[other] == s.inputs[other],
        s.after_set(key, value).memos.contains_key(other) == s.memos.contains_key(other),
        s.memos.contains_key(other) ==> s.after_set(key, value).memos[other] == s.memos[other],
        s.after_set(key, value).stats == s.stats,
        s.after_set(key, value).active == s.active,
        s.after_set(key, value).frames == s.frames,
{
}

/// `set` keeps the engine state well formed.
pub proof fn law_set_preserves_well_formed<K, V>(s: RuntimeView<K, V>, key: K, value: V)
    requires
        s.well_formed(),
    ensures
        s.after_set(key, value).well_formed(),
{
    let t = s.after_set(key, value);
    assert forall|k: K| #[trigger] t.inputs.contains_key(k) implies !t.memos.contains_key(k) by {
        if k != key {
            assert(s.inputs.contains_key(k));
        }
    }
    assert forall|k: K| #[trigger] t.inputs.contains_key(k) implies t.inputs[k].changed_at.0
        <= t.revision by {
        if k != key {
            assert(s.inputs.contains_key(k));
        }
    }
    assert forall|k: K| #[trigger] t.memos.contains_key(k) implies t.memos[k].changed_at.0
        <= t.memos[k].verified_at.0 <= t.revision by {
        assert(s.memos.contains_key(k));
    }
}

/// Resolving queries keeps the inputs, the revision and the queries in
/// progress, never taints the state, never drops a cached result, keeps a
/// current key current with its value and change stamp, and only increases the
/// counters.
pub proof fn law_queries_keep_inputs_and_grow_counters<K, V>(
    a: RuntimeView<K, V>,
    b: RuntimeView<K, V>,
    key: K,
)
    requires
        a.query_step(b),
    ensures
        b.inputs == a.inputs,
        b.revision == a.revision,
        b.active == a.active,
        b.tainted == a.tainted,
        a.memos.contains_key(key) ==> b.memos.contains_key(key),
        a.is_current(key) ==> b.is_current(key) && b.held_value(key) == a.held_value(key)
            && b.stamp(key) == a.stamp(key),
        a.stats.computed <= b.stats.computed,
        a.stats.validated <= b.stats.validated,
        a.stats.hits <= b.stats.hits,
{
}

/// A hit changes nothing but the hit counter, which grows by one (stopping at
/// `u64::MAX`).
pub proof fn law_hit_only_counts<K, V>(a: RuntimeView<K, V>)
    ensures
        a.query_step_exact(a.with_hit()),
        a.with_hit().memos == a.memos,
        a.with_hit().stats.computed == a.stats.computed,
        a.with_hit().stats.validated == a.stats.validated,
        a.stats.hits < u64::MAX ==> a.with_hit().stats.hits == a.stats.hits + 1,
{
}

/// Early cutoff: a derived query that resolves to the value it already had
/// keeps its old change stamp; any other value is stamped with the current
/// revision.
pub proof fn law_early_cutoff_keeps_stamp<K, V>(a: RuntimeView<K, V>, key: K, value: V)
    requires
        a.well_formed(),
    ensures
        a.memos.contains_key(key) && a.memos[key].value == value ==> a.stamp_for(key, value)
            == a.memos[key].changed_at.0,
        !(a.memos.contains_key(key) && a.memos[key].value == value) ==> a.stamp_for(key, value)
            == a.revision,
        a.stamp_for(key, value) <= a.revision,
{
}

/// The revision successor is strictly later, except at `u64::MAX` where it
/// stays.
pub proof fn law_next_revision_is_later(n: u64)
    ensures
        n < u64::MAX ==> next_stamp(n) == n + 1,
        n == u64::MAX ==> next_stamp(n) == n,
        next_stamp(n) >= n,
{
}

/// Incremental results are from-scratch results. In a consistent, untainted
/// state, take any assignment of values that gives every input its stored
/// value and every current derived query its cached value: each current
/// derived query's cached value is what the system computes under that
/// assignment. So the current cache satisfies the system's equations, and a
/// cached value is the value a fresh computation from the current inputs
/// gives wherever those equations determine it.
pub proof fn law_cache_solves_the_queries<K, V>(
    s: RuntimeView<K, V>,
    derive: Derive<K, V>,
    env: spec_fn(K) -> V,
    key: K,
)
    requires
        s.well_formed(),
        s.consistent(derive),
        !s.tainted,
        forall|k: K| #[trigger] s.is_current(k) ==> env(k) == s.held_value(k),
        s.is_fresh(key),
    ensures
        s.memos[key].value == derive(key, env),
{
    let m = s.memos[key];
    assert forall|j: int| 0 <= j < m.deps@.len() implies env(m.deps@[j]) == m.reads@[j] by {
        assert(s.memos[key].deps@[j] == m.deps@[j]);
        assert(s.is_current(m.deps@[j]));
        assert(s.has_stamp(m.deps@[j]));
    }
    assert(agrees(env, m.deps@, m.reads@));
}

/// Incremental results are the results of a cold build. Let the system be
/// well founded: what it computes for a key depends only on the values of keys
/// of lower rank. Let `f` give every key the value a from-scratch evaluation
/// over the current inputs gives it: an input's stored value, and for every
/// other key what the system computes from `f` itself. Then, in a consistent,
/// untainted state, every query verified at the current revision holds the
/// value `f` gives it.
pub proof fn law_cache_matches_cold_build<K, V>(
    s: RuntimeView<K, V>,
    derive: Derive<K, V>,
    rank: spec_fn(K) -> nat,
    f: spec_fn(K) -> V,
    key: K,
)
    requires
        s.well_formed(),
        s.consistent(derive),
        !s.tainted,
        forall|k: K, e1: spec_fn(K) -> V, e2: spec_fn(K) -> V|
            (forall|x: K| #![trigger e1(x)] rank(x) < rank(k) ==> e1(x) == e2(x)) ==> #[trigger] derive(k, e1)
                == #[trigger] derive(k, e2),
        forall|k: K| #[trigger] s.inputs.contains_key(k) ==> f(k) == s.inputs[k].value,
        forall|k: K| !s.inputs.contains_key(k) ==> #[trigger] f(k) == derive(k, f),
        s.is_fresh(key),
    ensures
        s.memos[key].value == f(key),
    decreases rank(key),
{
    let m = s.memos[key];
    let env = |x: K|
        if rank(x) < rank(key) {
            f(x)
        } else {
            s.held_value(x)
        };
    assert forall|j: int| 0 <= j < m.deps@.len() implies env(m.deps@[j]) == m.reads@[j] by {
        let d = m.deps@[j];
        assert(s.memos[key].deps@[j] == d);
        assert(s.is_current(d));
        assert(s.has_stamp(d));
        if rank(d) < rank(key) && !s.inputs.contains_key(d) {
            law_cache_matches_cold_build(s, derive, rank, f, d);
        }
    }
    assert(agrees(env, m.deps@, m.reads@));
    assert(m.value == derive(key, env));
    assert(derive(key, env) == derive(key, f));
}

/// Validation is sound. In a consistent, untainted state, take any assignment
/// of values that gives every input its stored value and every current derived
/// query its cached value: a cached value whose dependencies are all current
/// and have not changed since it was last verified is what the system computes
/// under that assignment, so reusing it (early cutoff) gives what recomputing
/// it would.
pub proof fn law_unchanged_dependencies_keep_value<K, V>(
    s: RuntimeView<K, V>,
    derive: Derive<K, V>,
    env: spec_fn(K) -> V,
    key: K,
)
    requires
        s.well_formed(),
        s.consistent(derive),
        !s.tainted,
        forall|k: K| #[trigger] s.is_current(k) ==> env(k) == s.held_value(k),
        s.memos.contains_key(key),
        forall|j: int| 0 <= j < s.memos[key].deps@.len() ==> #[trigger] s.dep_unchanged(key, j),
    ensures
        s.memos[key].value == derive(key, env),
{
    let m = s.memos[key];
    assert forall|j: int| 0 <= j < m.deps@.len() implies env(m.deps@[j]) == m.reads@[j] by {
        assert(s.dep_unchanged(key, j));
        assert(s.memos[key].deps@[j] == m.deps@[j]);
        assert(s.has_stamp(m.deps@[j]));
    }
    assert(agrees(env, m.deps@, m.reads@));
}

/// A fresh engine is well formed, idle, untainted and consistent with every
/// system.
pub proof fn law_initial_is_consistent<K, V>(derive: Derive<K, V>)
    ensures
        RuntimeView::<K, V>::initial().well_formed(),
        RuntimeView::<K, V>::initial().idle(),
        !RuntimeView::<K, V>::initial().tainted,
        RuntimeView::<K, V>::initial().consistent(derive),
        RuntimeView::<K, V>::initial().revision == 0,
{
}

/// Below the top of the clock, `set` never taints the state.
pub proof fn law_set_below_saturation_does_not_taint<K, V>(s: RuntimeView<K, V>, key: K, value: V)
    requires
        !s.tainted,
        s.revision < u64::MAX,
    ensures
        !s.after_set(key, value).tainted,
{
}


/// The state after the sets `ops`, in order.
pub open spec fn after_sets<K, V>(s: RuntimeView<K, V>, ops: Seq<(K, V)>) -> RuntimeView<K, V>
    decreases ops.len(),
{
    if ops.len() == 0 {
        s
    } else {
        after_sets(s.after_set(ops[0].0, ops[0].1), ops.drop_first())
    }
}

/// How many of the sets `ops`, in order, give their key a new value.
pub open spec fn effective_sets<K, V>(s: RuntimeView<K, V>, ops: Seq<(K, V)>) -> nat
    decreases ops.len(),
{
    if ops.len() == 0 {
        0
    } else {
        let t = s.after_set(ops[0].0, ops[0].1);
        (if t.revision == s.revision {
            0nat
        } else {
            1nat
        }) + effective_sets(t, ops.drop_first())
    }
}

/// Over any sequence of sets, below the top of the clock, the revision
/// advances by exactly the number of sets that gave their key a new value.
pub proof fn law_revision_counts_changes<K, V>(s: RuntimeView<K, V>, ops: Seq<(K, V)>)
    requires
        s.revision + ops.len() < u64::MAX,
    ensures
        after_sets(s, ops).revision == s.revision + effective_sets(s, ops),
    decreases ops.len(),
{
    if ops.len() > 0 {
        let t = s.after_set(ops[0].0, ops[0].1);
        assert(t.revision == s.revision || t.revision == s.revision + 1);
        law_revision_counts_changes(t, ops.drop_first());
    }
}

/// Read after write over a sequence: once `set(key, value)` has run, sets of
/// other keys leave `key` an input holding `value` with no memo, so every
/// later `get(key)` returns `value`.
pub proof fn law_write_survives_other_sets<K, V>(s: RuntimeView<K, V>, key: K, value: V, ops: Seq<(K, V)>)
    requires
        forall|i: int| 0 <= i < ops.len() ==> (#[trigger] ops[i]).0 != key,
    ensures
        after_sets(s.after_set(key, value), ops).inputs.contains_key(key),
        after_sets(s.after_set(key, value), ops).inputs[key].value == value,
        !after_sets(s.after_set(key, value), ops).memos.contains_key(key),
    decreases ops.len(),
{
    lemma_write_survives(s.after_set(key, value), key, value, ops);
}

/// Sets of other keys keep an input and the absence of its memo.
proof fn lemma_write_survives<K, V>(t: RuntimeView<K, V>, key: K, value: V, ops: Seq<(K, V)>)
    requires
        t.inputs.contains_key(key),
        t.inputs[key].value == value,
        !t.memos.contains_key(key),
        forall|i: int| 0 <= i < ops.len() ==> (#[trigger] ops[i]).0 != key,
    ensures
        after_sets(t, ops).inputs.contains_key(key),
        after_sets(t, ops).inputs[key].value == value,
        !after_sets(t, ops).memos.contains_key(key),
    decreases ops.len(),
{
    if ops.len() > 0 {
        assert(ops[0].0 != key);
        let u = t.after_set(ops[0].0, ops[0].1);
        assert forall|i: int| 0 <= i < ops.drop_first().len() implies (#[trigger] ops.drop_first()[i]).0
            != key by {
            assert(ops.drop_first()[i] == ops[i + 1]);
        }
        lemma_write_survives(u, key, value, ops.drop_first());
    }
}


/// A resolution counts exactly one path of its own. Whichever of the three
/// counters a resolution moves from the counters it was counted from (the
/// forms the contracts of `get` state for a hit, a validation and a
/// computation), below saturation that counter grows by one, the other two
/// stay, and the total grows by exactly one; no two paths give the same
/// counters.
pub proof fn law_each_resolution_counts_one_path(from: Stats, to: Stats)
    requires
        from.computed < u64::MAX,
        from.validated < u64::MAX,
        from.hits < u64::MAX,
        to == (Stats { hits: sat_add(from.hits, 1), ..from }) || to == (Stats {
            validated: sat_add(from.validated, 1),
            ..from
        }) || to == (Stats { computed: sat_add(from.computed, 1), ..from }),
    ensures
        to.computed + to.validated + to.hits == from.computed + from.validated + from.hits + 1,
        (to.computed == from.computed + 1) as int + (to.validated == from.validated + 1) as int + (
        to.hits == from.hits + 1) as int == 1,
        to.computed >= from.computed,
        to.validated >= from.validated,
        to.hits >= from.hits,
{
}

} // verus!
