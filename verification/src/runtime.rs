//! The incremental engine: input storage, memoization, dependency recording,
//! validation and cycle detection.

use std::collections::BTreeMap;
use vstd::laws_cmp::obeys_cmp;
use vstd::laws_eq::obeys_concrete_eq;
use vstd::prelude::*;

use crate::error::QueryError;
use crate::laws::{law_query_steps_compose, law_recording_a_read_is_a_query_step};
use crate::model::{
    agrees, all_read, read_values, store_well_formed, Derive, Input, Memo, Pending, RuntimeView,
};
use crate::revision::{next_stamp, Revision};
use crate::stats::{sat_add, Stats};
use crate::system::{derive_of, rank_of, System};

verus! {

broadcast use vstd::std_specs::btree::group_btree_axioms;

/// A value whose `clone` gives back an equal value.
pub open spec fn clone_exact<T: Clone>() -> bool {
    forall|a: T, b: T| #[trigger] vstd::pervasive::strictly_cloned(a, b) ==> a == b
}

/// What the engine needs of a key type: `Ord` and `==` behave as a total order
/// and as equality, and a clone is the same key.
pub open spec fn lawful_key<K: Clone + Ord>() -> bool {
    &&& obeys_cmp::<K>()
    &&& obeys_concrete_eq::<K>()
    &&& clone_exact::<K>()
}

/// What the engine needs of a value type: `==` is equality, and a clone is the
/// same value.
pub open spec fn lawful_value<V: Clone + Eq>() -> bool {
    &&& obeys_concrete_eq::<V>()
    &&& clone_exact::<V>()
}

/// A copy of `a`, for a type whose clone is exact.
fn dup<T: Clone>(a: &T) -> (b: T)
    requires
        clone_exact::<T>(),
    ensures
        b == *a,
{
    let b = call_once(T::clone, a);
    assert(vstd::pervasive::strictly_cloned(*a, b));
    b
}

/// A copy of a list of keys whose clone is exact.
fn dup_keys<T: Clone>(v: &Vec<T>) -> (w: Vec<T>)
    requires
        clone_exact::<T>(),
    ensures
        w@ == v@,
{
    let w = v.clone();
    assert forall|i: int| 0 <= i < v.len() implies w@[i] == v@[i] by {
        assert(vstd::pervasive::cloned::<T>(v[i], w[i]));
        if vstd::pervasive::strictly_cloned(v[i], w[i]) {
        }
    }
    assert(w@ =~= v@);
    w
}

/// `a == b`, for a type whose `==` is equality.
fn same<T: PartialEq>(a: &T, b: &T) -> (r: bool)
    requires
        obeys_concrete_eq::<T>(),
    ensures
        r == (*a == *b),
{
    proof {
        reveal(obeys_concrete_eq);
    }
    *a == *b
}

fn call_once<T, F: Fn(&T) -> T>(f: F, a: &T) -> (b: T)
    requires
        f.requires((a,)),
    ensures
        f.ensures((a,), b),
{
    f(a)
}

/// The engine state behind a database: inputs, memos, the revision clock, the
/// stack of queries in progress and their dependency records, and counters.
///
/// A `compute` receives the runtime and reads its dependencies through
/// [`get`](Runtime::get).
pub struct Runtime<K: Clone + Ord, V: Clone + Eq> {
    revision: Revision,
    inputs: BTreeMap<K, Input<V>>,
    memos: BTreeMap<K, Memo<K, V>>,
    frames: Vec<Vec<K>>,
    reads: Ghost<Seq<Seq<Option<V>>>>,
    active: Vec<K>,
    pending: Ghost<Seq<Pending<K>>>,
    stats: Stats,
    counted_from: Ghost<Stats>,
    tainted: Ghost<bool>,
}

impl<K: Clone + Ord, V: Clone + Eq> View for Runtime<K, V> {
    type V = RuntimeView<K, V>;

    closed spec fn view(&self) -> RuntimeView<K, V> {
        RuntimeView {
            revision: self.revision.0,
            inputs: self.inputs@,
            memos: self.memos@,
            active: self.active@,
            frames: self.frames@.map_values(|f: Vec<K>| f@),
            reads: self.reads@,
            pending: self.pending@,
            stats: self.stats,
            counted_from: self.counted_from@,
            tainted: self.tainted@,
        }
    }
}

impl<K: Clone + Ord, V: Clone + Eq> Runtime<K, V> {
    #[verifier::type_invariant]
    spec fn engine_invariant(self) -> bool {
        &&& lawful_key::<K>()
        &&& lawful_value::<V>()
        &&& store_well_formed(self.revision.0, self.inputs@, self.memos@)
    }

    /// A fresh engine.
    pub(crate) fn new() -> (rt: Self)
        requires
            lawful_key::<K>(),
            lawful_value::<V>(),
        ensures
            rt@ == RuntimeView::<K, V>::initial(),
    {
        let rt = Runtime {
            revision: Revision::start(),
            inputs: BTreeMap::new(),
            memos: BTreeMap::new(),
            frames: Vec::new(),
            reads: Ghost(Seq::empty()),
            active: Vec::new(),
            pending: Ghost(Seq::empty()),
            stats: Stats { computed: 0, validated: 0, hits: 0 },
            counted_from: Ghost(Stats { computed: 0, validated: 0, hits: 0 }),
            tainted: Ghost(false),
        };
        assert(rt@.frames =~= Seq::<Seq<K>>::empty());
        assert(rt@.stats == RuntimeView::<K, V>::initial().stats);
        rt
    }

    /// A fresh engine for the same key and value types.
    pub(crate) fn fresh(&self) -> (rt: Self)
        ensures
            rt@ == RuntimeView::<K, V>::initial(),
    {
        proof {
            use_type_invariant(self);
        }
        Runtime::new()
    }

    /// The state is well formed and the key and value types are lawful.
    pub(crate) fn check_well_formed(&self)
        ensures
            self@.well_formed(),
            lawful_key::<K>(),
            lawful_value::<V>(),
    {
        proof {
            use_type_invariant(self);
        }
    }

    /// The current revision. A `compute` may read it.
    pub fn revision(&self) -> (r: Revision)
        ensures
            r.0 == self@.revision,
    {
        self.revision
    }

    /// The resolution counters. A `compute` may read them.
    pub fn stats(&self) -> (s: Stats)
        ensures
            s == self@.stats,
    {
        self.stats
    }

    /// The number of set inputs.
    pub(crate) fn input_count(&self) -> (n: usize)
        ensures
            n == self@.inputs.len(),
    {
        proof {
            use_type_invariant(self);
        }
        self.inputs.len()
    }

    /// The number of memoized derived queries.
    pub(crate) fn memo_count(&self) -> (n: usize)
        ensures
            n == self@.memos.len(),
    {
        proof {
            use_type_invariant(self);
        }
        self.memos.len()
    }
}

impl<K: Clone + Ord, V: Clone + Eq> Runtime<K, V> {
    /// Removes the memo of `key`, handing it back.
    fn take_memo(&mut self, key: &K) -> (m: Option<Memo<K, V>>)
        ensures
            final(self)@ == (RuntimeView { memos: old(self)@.memos.remove(*key), ..old(self)@ }),
            m == (if old(self)@.memos.contains_key(*key) {
                Some(old(self)@.memos[*key])
            } else {
                None
            }),
    {
        proof {
            use_type_invariant(&*self);
        }
        let ghost start = self@;
        let mut memos = BTreeMap::new();
        proof {
            assert(RuntimeView { memos: Map::empty(), ..start }.well_formed());
        }
        std::mem::swap(&mut memos, &mut self.memos);
        let m = memos.remove(key);
        proof {
            assert(RuntimeView { memos: start.memos.remove(*key), ..start }.well_formed());
        }
        std::mem::swap(&mut memos, &mut self.memos);
        m
    }

    /// Stores `memo` as the memo of `key`.
    fn put_memo(&mut self, key: K, memo: Memo<K, V>)
        requires
            (RuntimeView { memos: old(self)@.memos.insert(key, memo), ..old(self)@ }).well_formed(),
        ensures
            final(self)@ == (RuntimeView { memos: old(self)@.memos.insert(key, memo), ..old(self)@ }),
    {
        proof {
            use_type_invariant(&*self);
        }
        let ghost start = self@;
        let mut memos = BTreeMap::new();
        proof {
            assert(RuntimeView { memos: Map::empty(), ..start }.well_formed());
        }
        std::mem::swap(&mut memos, &mut self.memos);
        memos.insert(key, memo);
        std::mem::swap(&mut memos, &mut self.memos);
    }

    /// Marks `key` as being computed.
    fn push_active(&mut self, key: K)
        ensures
            final(self)@ == (RuntimeView { active: old(self)@.active.push(key), ..old(self)@ }),
    {
        proof {
            use_type_invariant(&*self);
        }
        let mut active = Vec::new();
        std::mem::swap(&mut active, &mut self.active);
        active.push(key);
        std::mem::swap(&mut active, &mut self.active);
    }

    /// Unmarks the innermost key being computed.
    fn pop_active(&mut self)
        requires
            old(self)@.active.len() > 0,
        ensures
            final(self)@ == (RuntimeView { active: old(self)@.active.drop_last(), ..old(self)@ }),
    {
        proof {
            use_type_invariant(&*self);
        }
        let mut active = Vec::new();
        std::mem::swap(&mut active, &mut self.active);
        let _ = active.pop();
        std::mem::swap(&mut active, &mut self.active);
        assert(self@.active =~= old(self)@.active.drop_last());
    }

    /// Opens a new, empty dependency record.
    fn push_frame(&mut self)
        ensures
            final(self)@ == (RuntimeView {
                frames: old(self)@.frames.push(Seq::empty()),
                reads: old(self)@.reads.push(Seq::empty()),
                ..old(self)@
            }),
    {
        proof {
            use_type_invariant(&*self);
        }
        let mut frames = Vec::new();
        std::mem::swap(&mut frames, &mut self.frames);
        frames.push(Vec::new());
        std::mem::swap(&mut frames, &mut self.frames);
        self.reads = Ghost(self.reads@.push(Seq::empty()));
        assert(self@.frames =~= old(self)@.frames.push(Seq::empty()));
    }

    /// Closes the innermost dependency record, handing back the keys it holds.
    fn pop_frame(&mut self) -> (deps: Vec<K>)
        requires
            old(self)@.frames.len() > 0,
        ensures
            final(self)@ == (RuntimeView {
                frames: old(self)@.frames.drop_last(),
                reads: old(self)@.reads.drop_last(),
                ..old(self)@
            }),
            deps@ == old(self)@.frames.last(),
    {
        proof {
            use_type_invariant(&*self);
        }
        let mut frames = Vec::new();
        std::mem::swap(&mut frames, &mut self.frames);
        let deps = match frames.pop() {
            Some(top) => top,
            None => Vec::new(),
        };
        std::mem::swap(&mut frames, &mut self.frames);
        self.reads = Ghost(self.reads@.drop_last());
        assert(self@.frames =~= old(self)@.frames.drop_last());
        deps
    }

    /// Records `key` as read by the innermost `compute` in progress, if any,
    /// with its outcome still open.
    fn record_read(&mut self, key: K)
        ensures
            final(self)@ == old(self)@.with_read(key, None),
    {
        proof {
            use_type_invariant(&*self);
        }
        let mut frames = Vec::new();
        std::mem::swap(&mut frames, &mut self.frames);
        match frames.pop() {
            Some(mut top) => {
                top.push(key);
                frames.push(top);
            },
            None => {},
        }
        std::mem::swap(&mut frames, &mut self.frames);
        self.reads = Ghost(
            if self.reads@.len() > 0 {
                self.reads@.drop_last().push(self.reads@.last().push(None))
            } else {
                self.reads@
            },
        );
        assert(self@ == old(self)@.with_read(key, None)) by {
            if old(self)@.frames.len() > 0 {
                assert(self@.frames =~= old(self)@.frames.drop_last().push(
                    old(self)@.frames.last().push(key),
                ));
            } else {
                assert(self@.frames =~= old(self)@.frames);
            }
        }
    }
}

impl<K: Clone + Ord, V: Clone + Eq> Runtime<K, V> {
    /// Set an input, advancing the revision if the value changed.
    pub(crate) fn set(&mut self, key: K, value: V)
        ensures
            final(self)@ == old(self)@.after_set(key, value),
    {
        proof {
            use_type_invariant(&*self);
        }
        let ghost start = self@;
        let mut memos = BTreeMap::new();
        proof {
            assert(RuntimeView { memos: Map::empty(), ..start }.well_formed());
        }
        std::mem::swap(&mut memos, &mut self.memos);
        let _ = memos.remove(&key);
        proof {
            assert(RuntimeView { memos: start.memos.remove(key), ..start }.well_formed());
        }
        std::mem::swap(&mut memos, &mut self.memos);
        let same_value = match self.inputs.get(&key) {
            Some(existing) => same(&existing.value, &value),
            None => false,
        };
        if !same_value {
            let ghost mid = self@;
            proof {
                assert(RuntimeView { revision: next_stamp(mid.revision), ..mid }.well_formed());
            }
            let ghost saturated = mid.tainted || mid.revision == u64::MAX;
            self.tainted = Ghost(saturated);
            self.revision = self.revision.next();
            let changed_at = self.revision;
            let ghost mid2 = self@;
            let mut inputs = BTreeMap::new();
            proof {
                assert(RuntimeView { inputs: Map::empty(), ..mid2 }.well_formed());
            }
            std::mem::swap(&mut inputs, &mut self.inputs);
            inputs.insert(key, Input { value, changed_at });
            proof {
                assert(RuntimeView {
                    inputs: mid2.inputs.insert(key, Input { value, changed_at }),
                    ..mid2
                }.well_formed());
            }
            std::mem::swap(&mut inputs, &mut self.inputs);
        }
        assert(self@ == old(self)@.after_set(key, value));
    }
}

/// Opening an empty dependency record keeps the cache consistent.
proof fn lemma_push_frame_consistent<K, V>(a: RuntimeView<K, V>, derive: Derive<K, V>)
    requires
        a.consistent(derive),
    ensures
        (RuntimeView {
            frames: a.frames.push(Seq::empty()),
            reads: a.reads.push(Seq::empty()),
            ..a
        }).consistent(derive),
{
    let b = RuntimeView { frames: a.frames.push(Seq::empty()), reads: a.reads.push(Seq::empty()), ..a };
    if !a.tainted {
        assert forall|i: int| 0 <= i < b.frames.len() implies #[trigger] b.reads[i].len()
            == b.frames[i].len() by {
            if i < a.frames.len() {
                assert(b.reads[i] == a.reads[i]);
                assert(b.frames[i] == a.frames[i]);
            }
        }
        assert forall|i: int, j: int|
            0 <= i < b.frames.len() && 0 <= j < b.frames[i].len() && (#[trigger] b.reads[i][j]) is Some
            implies b.is_current(b.frames[i][j]) && b.held_value(b.frames[i][j]) == b.reads[i][j]->0 by {
            assert(i < a.frames.len());
            assert(b.reads[i] == a.reads[i]);
            assert(b.frames[i] == a.frames[i]);
            assert(a.reads[i][j] is Some);
        }
    }
}

/// Closing the innermost dependency record keeps the cache consistent.
proof fn lemma_pop_frame_consistent<K, V>(a: RuntimeView<K, V>, derive: Derive<K, V>)
    requires
        a.consistent(derive),
        a.frames.len() > 0,
    ensures
        (RuntimeView { frames: a.frames.drop_last(), reads: a.reads.drop_last(), ..a }).consistent(
            derive,
        ),
{
    let b = RuntimeView { frames: a.frames.drop_last(), reads: a.reads.drop_last(), ..a };
    if !a.tainted {
        assert forall|i: int| 0 <= i < b.frames.len() implies #[trigger] b.reads[i].len()
            == b.frames[i].len() by {
            assert(b.reads[i] == a.reads[i]);
            assert(b.frames[i] == a.frames[i]);
        }
        assert forall|i: int, j: int|
            0 <= i < b.frames.len() && 0 <= j < b.frames[i].len() && (#[trigger] b.reads[i][j]) is Some
            implies b.is_current(b.frames[i][j]) && b.held_value(b.frames[i][j]) == b.reads[i][j]->0 by {
            assert(b.reads[i] == a.reads[i]);
            assert(b.frames[i] == a.frames[i]);
            assert(a.reads[i][j] is Some);
        }
    }
}

/// What `prev_ok` says of memos that are not verified now survives a
/// resolution step: such a memo was not touched by it.
proof fn lemma_prev_ok_step<K, V>(a: RuntimeView<K, V>, b: RuntimeView<K, V>, key: K, value: V, stamp: u64)
    requires
        a.prev_ok(key, value, stamp),
        a.query_step(b),
        b.well_formed(),
    ensures
        b.prev_ok(key, value, stamp),
{
    assert forall|m: K, i: int|
        #![trigger b.memos[m].deps@[i]]
        b.memos.contains_key(m) && !b.is_fresh(m) && 0 <= i < b.memos[m].deps@.len()
            && b.memos[m].deps@[i] == key && stamp <= b.memos[m].verified_at.0 implies b.memos[m].reads@[i]
        == value by {
        if b.memos[m].verified_at.0 == a.revision {
            assert(!b.inputs.contains_key(m));
            assert(b.is_fresh(m));
        }
        assert(a.memos.contains_key(m) && b.memos[m] == a.memos[m]);
        assert(a.memos[m].deps@[i] == key);
    }
}

/// Caching a freshly computed value keeps the cache consistent, when the key
/// was not current, its dependencies are current with the values read, the
/// value is what the system computes from them, and its stamp is the current
/// revision or one that misleads no memo.
proof fn lemma_insert_computed<K, V>(
    b: RuntimeView<K, V>,
    key: K,
    memo: Memo<K, V>,
    reads: Seq<Option<V>>,
    derive: Derive<K, V>,
)
    requires
        b.consistent(derive),
        !b.tainted,
        b.well_formed(),
        !b.is_current(key),
        memo.verified_at.0 == b.revision,
        memo.changed_at.0 <= b.revision,
        memo.deps@.len() == reads.len(),
        memo.reads@ == read_values(reads),
        all_read(reads),
        forall|j: int| 0 <= j < reads.len() ==> b.is_current(#[trigger] memo.deps@[j])
            && b.held_value(memo.deps@[j]) == reads[j]->0,
        forall|env: spec_fn(K) -> V| #[trigger]
            agrees(env, memo.deps@, memo.reads@) ==> memo.value == derive(key, env),
        memo.changed_at.0 == b.revision || b.prev_ok(key, memo.value, memo.changed_at.0),
    ensures
        (RuntimeView { memos: b.memos.insert(key, memo), ..b }).consistent(derive),
{
    let t = RuntimeView { memos: b.memos.insert(key, memo), ..b };
    assert forall|x: K| #[trigger] b.is_current(x) implies t.is_current(x) && t.held_value(x)
        == b.held_value(x) by {
        assert(x != key);
    }
    assert forall|i: int, j: int|
        0 <= i < t.frames.len() && 0 <= j < t.frames[i].len() && (#[trigger] t.reads[i][j]) is Some
        implies t.is_current(t.frames[i][j]) && t.held_value(t.frames[i][j]) == t.reads[i][j]->0 by {
        assert(b.is_current(b.frames[i][j]));
    }
    assert forall|k: K| #[trigger] t.memos.contains_key(k) implies {
        &&& t.memos[k].deps@.len() == t.memos[k].reads@.len()
        &&& forall|env: spec_fn(K) -> V| #[trigger]
            agrees(env, t.memos[k].deps@, t.memos[k].reads@) ==> t.memos[k].value == derive(k, env)
    } by {
        if k != key {
            assert(b.memos.contains_key(k));
        }
    }
    assert forall|k: K, i: int|
        #![trigger t.memos[k].deps@[i]]
        t.memos.contains_key(k) && 0 <= i < t.memos[k].deps@.len() && t.has_stamp(
            t.memos[k].deps@[i],
        ) && t.stamp(t.memos[k].deps@[i]) <= t.memos[k].verified_at.0 implies t.held_value(
        t.memos[k].deps@[i],
    ) == t.memos[k].reads@[i] by {
        let x = t.memos[k].deps@[i];
        if k == key {
            assert(b.is_current(memo.deps@[i]));
            assert(x != key);
            assert(memo.reads@[i] == reads[i]->0);
        } else {
            assert(b.memos.contains_key(k));
            assert(b.memos[k].deps@[i] == x);
            if x == key {
                if b.memos[k].verified_at.0 == b.revision {
                    assert(b.is_fresh(k));
                    assert(b.is_current(b.memos[k].deps@[i]));
                }
                assert(!b.is_fresh(k));
                if memo.changed_at.0 == b.revision {
                    assert(b.memos[k].verified_at.0 <= b.revision);
                }
            } else {
                assert(b.has_stamp(x));
            }
        }
    }
    assert forall|k: K, i: int|
        #![trigger t.memos[k].deps@[i]]
        t.is_fresh(k) && 0 <= i < t.memos[k].deps@.len() implies t.is_current(t.memos[k].deps@[i]) by {
        if k == key {
            assert(b.is_current(memo.deps@[i]));
        } else {
            assert(b.is_fresh(k));
            assert(b.is_current(b.memos[k].deps@[i]));
        }
    }
}

/// Marking a memo verified now keeps the cache consistent, when every one of
/// its dependencies is current with the value it read.
proof fn lemma_mark_verified<K, V>(b: RuntimeView<K, V>, key: K, derive: Derive<K, V>)
    requires
        b.consistent(derive),
        !b.tainted,
        b.well_formed(),
        !b.inputs.contains_key(key),
        b.memos.contains_key(key),
        forall|j: int| 0 <= j < b.memos[key].deps@.len() ==> b.is_current(#[trigger] b.memos[key].deps@[j])
            && b.held_value(b.memos[key].deps@[j]) == b.memos[key].reads@[j],
    ensures
        (RuntimeView {
            memos: b.memos.insert(key, Memo { verified_at: Revision(b.revision), ..b.memos[key] }),
            ..b
        }).consistent(derive),
{
    let old_memo = b.memos[key];
    let memo = Memo { verified_at: Revision(b.revision), ..old_memo };
    let t = RuntimeView { memos: b.memos.insert(key, memo), ..b };
    assert forall|x: K| #[trigger] b.is_current(x) implies t.is_current(x) && t.held_value(x)
        == b.held_value(x) by {}
    assert forall|i: int, j: int|
        0 <= i < t.frames.len() && 0 <= j < t.frames[i].len() && (#[trigger] t.reads[i][j]) is Some
        implies t.is_current(t.frames[i][j]) && t.held_value(t.frames[i][j]) == t.reads[i][j]->0 by {
        assert(b.is_current(b.frames[i][j]));
    }
    assert forall|k: K| #[trigger] t.memos.contains_key(k) implies {
        &&& t.memos[k].deps@.len() == t.memos[k].reads@.len()
        &&& forall|env: spec_fn(K) -> V| #[trigger]
            agrees(env, t.memos[k].deps@, t.memos[k].reads@) ==> t.memos[k].value == derive(k, env)
    } by {
        assert(b.memos.contains_key(k));
    }
    assert forall|k: K, i: int|
        #![trigger t.memos[k].deps@[i]]
        t.memos.contains_key(k) && 0 <= i < t.memos[k].deps@.len() && t.has_stamp(
            t.memos[k].deps@[i],
        ) && t.stamp(t.memos[k].deps@[i]) <= t.memos[k].verified_at.0 implies t.held_value(
        t.memos[k].deps@[i],
    ) == t.memos[k].reads@[i] by {
        let x = t.memos[k].deps@[i];
        assert(b.memos.contains_key(k));
        assert(b.memos[k].deps@[i] == x);
        if k == key {
            assert(b.is_current(b.memos[key].deps@[i]));
        } else {
            assert(b.has_stamp(x));
        }
    }
    assert forall|k: K, i: int|
        #![trigger t.memos[k].deps@[i]]
        t.is_fresh(k) && 0 <= i < t.memos[k].deps@.len() implies t.is_current(t.memos[k].deps@[i]) by {
        if k == key {
            assert(b.is_current(b.memos[key].deps@[i]));
        } else {
            assert(b.is_fresh(k));
            assert(b.is_current(b.memos[k].deps@[i]));
        }
    }
}

/// What a key being resolved up the call chain is: derived and not verified
/// now; without a memo, its `compute` is running.
proof fn lemma_pending_facts<K, V>(s: RuntimeView<K, V>, key: K)
    requires
        s.structured(),
        s.is_pending(key),
    ensures
        !s.inputs.contains_key(key),
        !s.is_fresh(key),
        !s.memos.contains_key(key) ==> s.active.contains(key),
{
    let t = choose|t: int| 0 <= t < s.pending.len() && (#[trigger] s.pending[t]).key() == key;
    assert(s.pending_sound_at(t));
}

/// The resolutions in progress stay sound in a state that keeps the inputs,
/// the revision, the active keys and the resolutions in progress, leaves the
/// memos of the keys being resolved alone, and keeps every current key current
/// with its change stamp.
proof fn lemma_structured_carries_over<K, V>(a: RuntimeView<K, V>, b: RuntimeView<K, V>)
    requires
        a.structured(),
        b.pending == a.pending,
        b.inputs == a.inputs,
        b.revision == a.revision,
        b.active == a.active,
        forall|k: K| #[trigger]
            a.is_pending(k) ==> (b.memos.contains_key(k) == a.memos.contains_key(k) && (
            a.memos.contains_key(k) ==> b.memos[k] == a.memos[k])),
        forall|k: K| #[trigger] a.is_current(k) ==> b.is_current(k) && b.stamp(k) == a.stamp(k),
    ensures
        b.structured(),
{
    assert forall|t: int| 0 <= t < b.pending.len() implies #[trigger] b.pending_sound_at(t) by {
        assert(a.pending_sound_at(t));
        let k = a.pending[t].key();
        assert(a.is_pending(k));
        match a.pending[t] {
            Pending::Validating { key, index } => {
                assert forall|j: int| 0 <= j < index implies #[trigger] b.dep_unchanged(key, j) by {
                    assert(a.dep_unchanged(key, j));
                }
            },
            Pending::Computing { key } => {
                if b.memos.contains_key(key) {
                    let j = choose|j: int|
                        0 <= j < a.memos[key].deps@.len() && #[trigger] a.dep_changed(key, j);
                    assert(b.dep_changed(key, j));
                }
            },
        }
    }
}

/// A query step keeps the resolutions in progress sound.
proof fn lemma_step_keeps_structured<K, V>(a: RuntimeView<K, V>, b: RuntimeView<K, V>)
    requires
        a.structured(),
        a.query_step(b),
    ensures
        b.structured(),
{
    lemma_structured_carries_over(a, b);
}

/// Finishing the innermost resolution in progress keeps the others sound.
proof fn lemma_structured_pop<K, V>(a: RuntimeView<K, V>)
    requires
        a.structured(),
        a.pending.len() > 0,
    ensures
        (RuntimeView { pending: a.pending.drop_last(), ..a }).structured(),
{
    let b = RuntimeView { pending: a.pending.drop_last(), ..a };
    assert forall|t: int| 0 <= t < b.pending.len() implies #[trigger] b.pending_sound_at(t) by {
        assert(a.pending_sound_at(t));
        assert(b.pending[t] == a.pending[t]);
        if t + 1 < b.pending.len() {
            assert(b.pending[t + 1] == a.pending[t + 1]);
        }
        match a.pending[t] {
            Pending::Validating { key, index } => {
                assert forall|j: int| 0 <= j < index implies #[trigger] b.dep_unchanged(key, j) by {
                    assert(a.dep_unchanged(key, j));
                }
            },
            Pending::Computing { key } => {
                if b.memos.contains_key(key) {
                    let j = choose|j: int|
                        0 <= j < a.memos[key].deps@.len() && #[trigger] a.dep_changed(key, j);
                    assert(b.dep_changed(key, j));
                }
            },
        }
    }
}

/// Starting the resolution of a key ranked below every resolution in progress
/// keeps the state in agreement with the rank.
proof fn lemma_ranked_push<K, V>(a: RuntimeView<K, V>, p: Pending<K>, rank: spec_fn(K) -> nat)
    requires
        a.ranked_core(rank),
        a.ranked_below(rank, p.key()),
    ensures
        (RuntimeView { pending: a.pending.push(p), ..a }).ranked_core(rank),
{
    let b = RuntimeView { pending: a.pending.push(p), ..a };
    assert forall|t1: int, t2: int|
        0 <= t1 < t2 < b.pending.len() implies rank(#[trigger] b.pending[t2].key()) < rank(
        #[trigger] b.pending[t1].key(),
    ) by {
        assert(b.pending[t1] == a.pending[t1]);
        if t2 < a.pending.len() {
            assert(b.pending[t2] == a.pending[t2]);
        }
    }
    assert forall|t: int| 0 <= t < b.pending.len() implies rank(#[trigger] b.pending[t].key()) < u64::MAX by {
        if t < a.pending.len() {
            assert(b.pending[t] == a.pending[t]);
        }
    }
    assert forall|k: K| #[trigger] b.active.contains(k) implies b.is_pending(k) by {
        assert(a.is_pending(k));
        let t = choose|t: int| 0 <= t < a.pending.len() && (#[trigger] a.pending[t]).key() == k;
        assert(b.pending[t] == a.pending[t]);
    }
}

/// A fresh engine agrees with every rank.
pub(crate) proof fn lemma_initial_is_ranked<K, V>(rank: spec_fn(K) -> nat)
    ensures
        RuntimeView::<K, V>::initial().ranked(rank),
{
    let s = RuntimeView::<K, V>::initial();
    assert forall|k: K| #[trigger] s.active.contains(k) implies s.is_pending(k) by {}
}

/// Agreement with a rank depends only on the memos, the resolutions in
/// progress and the active keys.
proof fn lemma_ranked_same<K, V>(a: RuntimeView<K, V>, b: RuntimeView<K, V>, rank: spec_fn(K) -> nat)
    requires
        a.ranked_core(rank),
        b.memos == a.memos,
        b.pending == a.pending,
        b.active == a.active,
    ensures
        b.ranked_core(rank),
{
    assert forall|k: K| #[trigger] b.active.contains(k) implies b.is_pending(k) by {
        assert(a.active.contains(k));
        assert(a.is_pending(k));
        let t = choose|t: int| 0 <= t < a.pending.len() && (#[trigger] a.pending[t]).key() == k;
        assert(b.pending[t] == a.pending[t]);
    }
}

/// A state whose memos agree with the rank, put back on the resolutions in
/// progress and the active keys of a state that agrees with it, agrees with it.
proof fn lemma_ranked_rebase<K, V>(base: RuntimeView<K, V>, s: RuntimeView<K, V>, rank: spec_fn(K) -> nat)
    requires
        base.ranked_core(rank),
        s.ranked_core(rank),
        s.active == base.active,
    ensures
        (RuntimeView { pending: base.pending, ..s }).ranked_core(rank),
{
    let b = RuntimeView { pending: base.pending, ..s };
    assert forall|k: K| #[trigger] b.active.contains(k) implies b.is_pending(k) by {
        assert(base.active.contains(k));
        assert(base.is_pending(k));
        let t = choose|t: int| 0 <= t < base.pending.len() && (#[trigger] base.pending[t]).key() == k;
        assert(b.pending[t] == base.pending[t]);
    }
}

/// A query step stays a query step when both states are given the same
/// resolutions in progress, as long as no more keys are being resolved than
/// before.
proof fn lemma_step_with_pending<K, V>(a: RuntimeView<K, V>, b: RuntimeView<K, V>, p: Seq<Pending<K>>)
    requires
        a.query_step(b),
        forall|k: K| #[trigger] (RuntimeView { pending: p, ..a }).is_pending(k) ==> a.is_pending(k),
    ensures
        (RuntimeView { pending: p, ..a }).query_step(RuntimeView { pending: p, ..b }),
        a.query_step_exact(b) ==> (RuntimeView { pending: p, ..a }).query_step_exact(
            RuntimeView { pending: p, ..b },
        ),
{
    let a2 = RuntimeView { pending: p, ..a };
    let b2 = RuntimeView { pending: p, ..b };
    assert forall|k: K| #[trigger] a2.is_pending(k) implies (b2.memos.contains_key(k)
        == a2.memos.contains_key(k) && (a2.memos.contains_key(k) ==> b2.memos[k] == a2.memos[k])) by {
        assert(a.is_pending(k));
    }
    assert forall|k: K| #[trigger] a2.is_current(k) implies {
        &&& b2.is_current(k)
        &&& b2.held_value(k) == a2.held_value(k)
        &&& b2.stamp(k) == a2.stamp(k)
    } by {
        assert(a.is_current(k));
    }
    assert forall|k: K| a2.memos.contains_key(k) implies #[trigger] b2.memos.contains_key(k) by {
        assert(a.memos.contains_key(k));
    }
    assert forall|k: K| #[trigger] b2.memos.contains_key(k) implies (a2.memos.contains_key(k)
        && b2.memos[k] == a2.memos[k]) || b2.memos[k].verified_at.0 == a2.revision by {
        assert(b.memos.contains_key(k));
    }
}

/// Starting a sound resolution of a key that may be resolved here keeps the
/// resolutions in progress sound.
proof fn lemma_structured_push<K, V>(a: RuntimeView<K, V>, b: RuntimeView<K, V>, p: Pending<K>)
    requires
        a.structured(),
        a.may_resolve(p.key()),
        b == (RuntimeView { pending: a.pending.push(p), ..a }),
        b.pending_sound_at(a.pending.len() as int),
    ensures
        b.structured(),
{
    assert forall|t: int| 0 <= t < b.pending.len() implies #[trigger] b.pending_sound_at(t) by {
        if t < a.pending.len() {
            assert(a.pending_sound_at(t));
            assert(b.pending[t] == a.pending[t]);
            if t + 1 < a.pending.len() {
                assert(b.pending[t + 1] == a.pending[t + 1]);
            }
            match a.pending[t] {
                Pending::Validating { key, index } => {
                    assert forall|j: int| 0 <= j < index implies #[trigger] b.dep_unchanged(key, j) by {
                        assert(a.dep_unchanged(key, j));
                    }
                },
                Pending::Computing { key } => {
                    if b.memos.contains_key(key) {
                        let j = choose|j: int|
                            0 <= j < a.memos[key].deps@.len() && #[trigger] a.dep_changed(key, j);
                        assert(b.dep_changed(key, j));
                    }
                },
            }
        }
    }
}

/// Starting the `compute` of a derived key that is not verified now, that may
/// be resolved here, and that has no memo or a memo with a changed dependency,
/// keeps the resolutions in progress sound.
proof fn lemma_structured_enter_compute<K, V>(a: RuntimeView<K, V>, b: RuntimeView<K, V>, key: K)
    requires
        a.structured(),
        a.may_resolve(key),
        !a.inputs.contains_key(key),
        !a.is_fresh(key),
        a.memos.contains_key(key) ==> exists|j: int|
            0 <= j < a.memos[key].deps@.len() && #[trigger] a.dep_changed(key, j),
        b.pending == a.pending.push(Pending::Computing { key }),
        b.active == a.active.push(key),
        b.inputs == a.inputs,
        b.memos == a.memos,
        b.revision == a.revision,
    ensures
        b.structured(),
        b.may_read(),
{
    assert forall|t: int| 0 <= t < b.pending.len() implies #[trigger] b.pending_sound_at(t) by {
        if t < a.pending.len() {
            assert(a.pending_sound_at(t));
            assert(b.pending[t] == a.pending[t]);
            if t + 1 < a.pending.len() {
                assert(b.pending[t + 1] == a.pending[t + 1]);
            }
            match a.pending[t] {
                Pending::Validating { key: k, index } => {
                    assert forall|j: int| 0 <= j < index implies #[trigger] b.dep_unchanged(k, j) by {
                        assert(a.dep_unchanged(k, j));
                    }
                },
                Pending::Computing { key: k } => {
                    assert(a.active.contains(k));
                    let n = choose|n: int| 0 <= n < a.active.len() && a.active[n] == k;
                    assert(b.active[n] == k);
                    if b.memos.contains_key(k) {
                        let j = choose|j: int|
                            0 <= j < a.memos[k].deps@.len() && #[trigger] a.dep_changed(k, j);
                        assert(b.dep_changed(k, j));
                    }
                },
            }
        } else {
            assert(b.pending[t] == Pending::Computing { key });
            assert(b.active[a.active.len() as int] == key);
            if b.memos.contains_key(key) {
                let j = choose|j: int| 0 <= j < a.memos[key].deps@.len() && #[trigger] a.dep_changed(key, j);
                assert(b.dep_changed(key, j));
            }
        }
    }
}

/// The change stamp a computation of a derived key to `value` carries: the
/// stamp its previous value had when `value` is that value (early cutoff), the
/// current revision otherwise.
pub open spec fn cutoff_stamp<V>(previous: Option<(V, Revision)>, value: V, revision: u64) -> u64 {
    match previous {
        Some((pv, pc)) => if pv == value {
            pc.0
        } else {
            revision
        },
        None => revision,
    }
}

/// What a computation's result becomes: its error, or its value with the
/// change stamp [`cutoff_stamp`] gives.
pub open spec fn computed_outcome<V>(
    result: Result<V, QueryError>,
    previous: Option<(V, Revision)>,
    revision: u64,
) -> Result<(V, Revision), QueryError> {
    match result {
        Ok(v) => Ok((v, Revision(cutoff_stamp(previous, v, revision)))),
        Err(e) => Err(e),
    }
}

impl<K: Clone + Ord, V: Clone + Eq> Runtime<K, V> {
    /// Finishes a computation of `key` that read `deps` and gave `result`. It
    /// counts the computation. A failed one changes nothing else and hands its
    /// error back. A
    /// successful one is cached with the keys it read, stamped with
    /// [`cutoff_stamp`] and verified now, and is returned with its stamp.
    ///
    /// When `sound`, the state is consistent with `derive`, the keys read are
    /// current with the values `reads` records, and a successful value is what
    /// `derive` gives for any assignment agreeing with them; the cache then
    /// stays consistent.
    fn finish_compute(
        &mut self,
        key: &K,
        result: Result<V, QueryError>,
        deps: Vec<K>,
        previous: Option<(V, Revision)>,
        Ghost(reads): Ghost<Seq<Option<V>>>,
        Ghost(derive): Ghost<Derive<K, V>>,
        Ghost(sound): Ghost<bool>,
    ) -> (r: Result<(V, Revision), QueryError>)
        requires
            old(self)@.structured(),
            !old(self)@.inputs.contains_key(*key),
            !old(self)@.is_fresh(*key),
            !old(self)@.is_pending(*key),
            previous matches Some((_, c)) ==> c.0 <= old(self)@.revision,
            sound ==> {
                &&& old(self)@.consistent(derive)
                &&& !old(self)@.tainted
                &&& previous matches Some((pv, pc)) ==> old(self)@.prev_ok(*key, pv, pc.0)
                &&& deps@.len() == reads.len()
                &&& result matches Ok(v) ==> {
                    &&& all_read(reads)
                    &&& forall|j: int|
                        0 <= j < reads.len() ==> old(self)@.is_current(#[trigger] deps@[j])
                            && old(self)@.held_value(deps@[j]) == reads[j]->0
                    &&& forall|env: spec_fn(K) -> V| #[trigger]
                        agrees(env, deps@, read_values(reads)) ==> v == derive(*key, env)
                }
            },
        ensures
            r == computed_outcome(result, previous, old(self)@.revision),
            result matches Err(e) ==> final(self)@ == (RuntimeView {
                stats: Stats { computed: sat_add(old(self)@.stats.computed, 1), ..old(self)@.stats },
                counted_from: old(self)@.stats,
                ..old(self)@
            }),
            result matches Ok(v) ==> {
                &&& r == Ok::<(V, Revision), QueryError>(
                    (v, Revision(cutoff_stamp(previous, v, old(self)@.revision))),
                )
                &&& final(self)@.memos.contains_key(*key)
                &&& final(self)@.memos[*key].value == v
                &&& final(self)@.memos[*key].deps == deps
                &&& final(self)@.memos[*key].reads@ == read_values(reads)
                &&& final(self)@.memos[*key].changed_at.0 == cutoff_stamp(
                    previous,
                    v,
                    old(self)@.revision,
                )
                &&& final(self)@.memos[*key].verified_at.0 == old(self)@.revision
                &&& final(self)@ == (RuntimeView {
                    memos: old(self)@.memos.insert(*key, final(self)@.memos[*key]),
                    stats: Stats {
                        computed: sat_add(old(self)@.stats.computed, 1),
                        ..old(self)@.stats
                    },
                    counted_from: old(self)@.stats,
                    ..old(self)@
                })
            },
            old(self)@.query_step_exact(final(self)@),
            final(self)@.structured(),
            sound ==> final(self)@.consistent(derive),
    {
        proof {
            use_type_invariant(&*self);
        }
        let ghost start = self@;
        self.counted_from = Ghost(self.stats);
        self.stats.computed = self.stats.computed.saturating_add(1);
        let ghost counted = self@;
        proof {
            assert(start.query_step_exact(counted)) by {
                assert forall|k: K| #[trigger] start.is_current(k) implies {
                    &&& counted.is_current(k)
                    &&& counted.held_value(k) == start.held_value(k)
                    &&& counted.stamp(k) == start.stamp(k)
                } by {}
                assert forall|k: K| #[trigger] start.is_pending(k) implies (counted.memos.contains_key(k)
                    == start.memos.contains_key(k) && (start.memos.contains_key(k) ==> counted.memos[k]
                    == start.memos[k])) by {}
            }
            lemma_step_keeps_structured(start, counted);
        }
        let value = match result {
            Ok(v) => v,
            Err(e) => {
                return Err(e);
            },
        };
        let changed_at = match &previous {
            Some((old_value, old_changed_at)) => {
                if same(old_value, &value) {
                    *old_changed_at
                } else {
                    self.revision
                }
            },
            None => self.revision,
        };
        let memo = Memo {
            value: dup(&value),
            deps,
            reads: Ghost(read_values(reads)),
            changed_at,
            verified_at: self.revision,
        };
        let ghost before_put = self@;
        proof {
            assert(!before_put.is_current(*key));
            if sound {
                assert(before_put.consistent(derive));
                match previous {
                    Some((pv, pc)) => {
                        assert(before_put.prev_ok(*key, pv, pc.0));
                    },
                    None => {},
                }
                lemma_insert_computed(before_put, *key, memo, reads, derive);
            }
        }
        self.put_memo(dup(key), memo);
        proof {
            let fin = self@;
            assert(fin.memos =~= start.memos.insert(*key, fin.memos[*key]));
            assert(before_put.query_step(fin)) by {
                assert forall|k: K| #[trigger] before_put.is_current(k) implies {
                    &&& fin.is_current(k)
                    &&& fin.held_value(k) == before_put.held_value(k)
                    &&& fin.stamp(k) == before_put.stamp(k)
                } by {
                    assert(k != *key);
                }
                assert forall|k: K| #[trigger] before_put.is_pending(k) implies (fin.memos.contains_key(k)
                    == before_put.memos.contains_key(k) && (before_put.memos.contains_key(k) ==> fin.memos[k]
                    == before_put.memos[k])) by {
                    assert(start.is_pending(k));
                    assert(k != *key);
                }
            }
            assert(start.query_step(before_put)) by {
                assert forall|k: K| #[trigger] start.is_current(k) implies {
                    &&& before_put.is_current(k)
                    &&& before_put.held_value(k) == start.held_value(k)
                    &&& before_put.stamp(k) == start.stamp(k)
                } by {}
                assert forall|k: K| #[trigger] start.is_pending(k) implies (before_put.memos.contains_key(k)
                    == start.memos.contains_key(k) && (start.memos.contains_key(k) ==> before_put.memos[k]
                    == start.memos[k])) by {}
            }
            law_query_steps_compose(start, before_put, fin);
            lemma_step_keeps_structured(start, fin);
        }
        Ok((value, changed_at))
    }
}

impl<K: Clone + Ord, V: Clone + Eq> Runtime<K, V> {
    /// Run `compute` for `key`, recording the dependencies it reads and caching
    /// the result. `previous` is the value and change stamp the memo of `key`
    /// held before, used for early cutoff. `consistent_before` says the caller
    /// started from a cache consistent with `system`.
    fn recompute<S: System<Key = K, Value = V>>(
        &mut self,
        system: &S,
        key: &K,
        previous: Option<(V, Revision)>,
        Ghost(consistent_before): Ghost<bool>,
    ) -> (out: (
        Result<(V, Revision), QueryError>,
        Ghost<Option<(Result<V, QueryError>, Stats, Seq<K>, Seq<Option<V>>)>>,
    ))
        requires
            old(self)@.structured(),
            old(self)@.may_resolve(*key),
            !old(self)@.inputs.contains_key(*key),
            !old(self)@.is_fresh(*key),
            old(self)@.is_pending(*key) ==> old(self)@.active.contains(*key),
            old(self)@.memos.contains_key(*key) ==> exists|j: int|
                0 <= j < old(self)@.memos[*key].deps@.len() && #[trigger] old(self)@.dep_changed(*key, j),
            previous matches Some((_, c)) ==> c.0 <= old(self)@.revision,
            consistent_before ==> S::describes_compute() && old(self)@.consistent(derive_of(*system)),
            consistent_before && !old(self)@.tainted ==> (previous matches Some((pv, pc))
                ==> old(self)@.prev_ok(*key, pv, pc.0)),
        ensures
            old(self)@.query_step_exact(final(self)@),
            final(self)@.structured(),
            old(self)@.active.contains(*key) ==> out.0 == Err::<(V, Revision), QueryError>(
                QueryError::Cycle,
            ) && out.1@ is None && final(self)@ == old(self)@,
            !old(self)@.active.contains(*key) ==> (out.1@ matches Some(
                (result, after_compute, read, outcomes),
            ) && {
                &&& out.0 == computed_outcome(result, previous, old(self)@.revision)
                &&& out.0 is Ok ==> final(self)@.memos[*key].deps@ == read
                    && final(self)@.memos[*key].reads@ == read_values(outcomes)
                &&& old(self)@.stats.counts_le(after_compute)
                &&& final(self)@.stats == (Stats {
                    computed: sat_add(after_compute.computed, 1),
                    ..after_compute
                })
                &&& final(self)@.counted_from == after_compute
            }),
            out.0 is Err ==> final(self)@.memos.contains_key(*key) == old(self)@.memos.contains_key(
                *key,
            ) && (old(self)@.memos.contains_key(*key) ==> final(self)@.memos[*key]
                == old(self)@.memos[*key]),
            out.0 matches Ok((v, c)) ==> {
                &&& final(self)@.memos.contains_key(*key)
                &&& final(self)@.memos[*key].value == v
                &&& final(self)@.memos[*key].changed_at == c
                &&& final(self)@.memos[*key].verified_at.0 == old(self)@.revision
                &&& c.0 == cutoff_stamp(previous, v, old(self)@.revision)
                &&& (old(self)@.stats.computed < final(self)@.stats.computed
                    || old(self)@.stats.computed == u64::MAX)
                &&& final(self)@.is_current(*key)
                &&& final(self)@.held_value(*key) == v
                &&& final(self)@.stamp(*key) == c.0
            },
            consistent_before ==> final(self)@.consistent(derive_of(*system)),
            S::ranks_reads() && old(self)@.ranked_core(rank_of(*system)) && old(self)@.ranked_below(
                rank_of(*system),
                *key,
            ) ==> out.0 is Ok && final(self)@.ranked_core(rank_of(*system)),
    {
        proof {
            use_type_invariant(&*self);
        }
        let ghost start = self@;
        let ghost derive = derive_of(*system);
        let ghost rank = rank_of(*system);
        let ghost ranked_ok = S::ranks_reads() && start.ranked_core(rank) && start.ranked_below(rank, *key);
        proof {
            if ranked_ok {
                if start.is_pending(*key) {
                    let t = choose|t: int| 0 <= t < start.pending.len() && (#[trigger] start.pending[t]).key() == *key;
                    assert(rank(*key) < rank(start.pending[t].key()));
                }
                assert(!start.active.contains(*key));
            }
        }
        // A key already being computed further up the call chain closes a cycle.
        let mut i: usize = 0;
        while i < self.active.len()
            invariant
                self@ == start,
                start == old(self)@,
                start.structured(),
                consistent_before ==> S::describes_compute() && start.consistent(derive_of(*system)),
                i <= self@.active.len(),
                obeys_concrete_eq::<K>(),
                forall|j: int| 0 <= j < i ==> self@.active[j] != *key,
                ranked_ok ==> !start.active.contains(*key),
            decreases self@.active.len() - i,
        {
            if same(&self.active[i], key) {
                assert(self@.active.contains(*key));
                return (Err(QueryError::Cycle), Ghost(None));
            }
            i = i + 1;
        }
        assert(!start.active.contains(*key));
        assert(!start.is_pending(*key));

        self.push_active(dup(key));
        self.push_frame();
        self.pending = Ghost(self.pending@.push(Pending::Computing { key: *key }));
        let ghost pushed = self@;
        proof {
            lemma_structured_enter_compute(start, pushed, *key);
            if consistent_before {
                lemma_push_frame_consistent(RuntimeView { active: start.active.push(*key), ..start }, derive);
                assert(pushed == RuntimeView {
                    frames: start.frames.push(Seq::empty()),
                    reads: start.reads.push(Seq::empty()),
                    ..RuntimeView { active: start.active.push(*key), pending: start.pending.push(Pending::Computing { key: *key }), ..start }
                });
            }
            assert(pushed.is_pending(*key)) by {
                assert(pushed.pending[start.pending.len() as int].key() == *key);
            }
            if ranked_ok {
                assert(rank == (|k: K| system.rank(k)));
                assert forall|t1: int, t2: int|
                    0 <= t1 < t2 < pushed.pending.len() implies rank(#[trigger] pushed.pending[t2].key()) < rank(
                    #[trigger] pushed.pending[t1].key(),
                ) by {
                    assert(pushed.pending[t1] == start.pending[t1]);
                    if t2 < start.pending.len() {
                        assert(pushed.pending[t2] == start.pending[t2]);
                    }
                }
                assert forall|t: int| 0 <= t < pushed.pending.len() implies rank(
                    #[trigger] pushed.pending[t].key(),
                ) < u64::MAX by {
                    if t < start.pending.len() {
                        assert(pushed.pending[t] == start.pending[t]);
                    }
                }
                assert forall|k: K| #[trigger] pushed.active.contains(k) implies pushed.is_pending(k) by {
                    if k != *key {
                        let n = choose|n: int| 0 <= n < pushed.active.len() && pushed.active[n] == k;
                        assert(start.active[n] == k);
                        assert(start.active.contains(k));
                        assert(start.is_pending(k));
                        let t = choose|t: int| 0 <= t < start.pending.len() && (#[trigger] start.pending[t]).key() == k;
                        assert(pushed.pending[t] == start.pending[t]);
                    }
                }
                assert(pushed.reads.last() == Seq::<Option<V>>::empty());
                assert(pushed.ranked(rank));
            }
        }
        let result = system.compute(self, key);
        proof {
            use_type_invariant(&*self);
            assert(derive == (|k: K, env: spec_fn(K) -> V| system.spec_compute(k, env)));
        }
        let ghost computed = self@;
        assert(computed.frames.len() == pushed.frames.len());
        let deps = self.pop_frame();
        self.pop_active();
        self.pending = Ghost(start.pending);
        let ghost popped = self@;
        assert(self@.frames =~= start.frames) by {
            assert forall|j: int| 0 <= j < start.frames.len() implies self@.frames[j] == start.frames[j] by {
                assert(computed.frames[j] == pushed.frames[j]);
            }
        }
        assert(self@.reads =~= start.reads) by {
            assert forall|j: int| 0 <= j < start.reads.len() implies self@.reads[j] == start.reads[j] by {
                assert(computed.reads[j] == pushed.reads[j]);
            }
        }
        assert(self@.active =~= start.active);
        proof {
            if consistent_before {
                lemma_pop_frame_consistent(
                    RuntimeView { active: start.active, pending: start.pending, ..computed },
                    derive,
                );
            }
            assert(pushed.memos == start.memos);
            assert forall|k: K| #[trigger] start.is_pending(k) implies pushed.is_pending(k) by {
                let t = choose|t: int| 0 <= t < start.pending.len() && (#[trigger] start.pending[t]).key() == k;
                assert(pushed.pending[t] == start.pending[t]);
            }
            assert forall|k: K| #[trigger] start.is_current(k) implies pushed.is_current(k) by {}
            assert(start.query_step(popped)) by {
                assert forall|k: K| #[trigger] start.is_current(k) implies {
                    &&& popped.is_current(k)
                    &&& popped.held_value(k) == start.held_value(k)
                    &&& popped.stamp(k) == start.stamp(k)
                } by {
                    assert(pushed.is_current(k));
                }
                assert forall|k: K| #[trigger] start.is_pending(k) implies (popped.memos.contains_key(k)
                    == start.memos.contains_key(k) && (start.memos.contains_key(k) ==> popped.memos[k]
                    == start.memos[k])) by {
                    assert(pushed.is_pending(k));
                }
                assert forall|k: K| #[trigger] popped.memos.contains_key(k) implies (start.memos.contains_key(k)
                    && popped.memos[k] == start.memos[k]) || popped.memos[k].verified_at.0 == start.revision by {
                    assert(computed.memos.contains_key(k));
                }
            }
            lemma_step_keeps_structured(start, popped);
            if ranked_ok {
                assert(computed.ranked(rank));
                assert(result is Ok);
                assert(popped.ranked_core(rank)) by {
                    assert forall|k: K| #[trigger] popped.active.contains(k) implies popped.is_pending(k) by {
                        assert(start.active.contains(k));
                    }
                }
            }
            // The memo of `key` was left alone while its compute ran.
            assert(popped.memos.contains_key(*key) == start.memos.contains_key(*key));
            assert(start.memos.contains_key(*key) ==> popped.memos[*key] == start.memos[*key]);
        }
        let ghost top_reads = computed.reads.last();
        let ghost sound = consistent_before && !start.tainted;
        proof {
            if sound {
                assert(popped.consistent(derive));
                if previous is Some {
                    let (pv, pc) = previous->0;
                    lemma_prev_ok_step(start, popped, *key, pv, pc.0);
                }
                assert(computed.frames_shaped());
                let n = (computed.frames.len() - 1) as int;
                assert(computed.frames.last() == computed.frames[n]);
                assert(computed.reads[n].len() == computed.frames[n].len());
                if result is Ok {
                    assert forall|j: int| 0 <= j < top_reads.len() implies popped.is_current(
                        #[trigger] deps@[j],
                    ) && popped.held_value(deps@[j]) == top_reads[j]->0 by {
                        assert(computed.reads[n][j] is Some);
                    }
                }
            }
        }
        let ghost called = (result, popped.stats, computed.frames.last(), computed.reads.last());
        let r = self.finish_compute(key, result, deps, previous, Ghost(top_reads), Ghost(derive), Ghost(sound));
        proof {
            law_query_steps_compose(start, popped, self@);
            if ranked_ok {
                let fin = self@;
                assert forall|k: K, j: int|
                    #![trigger fin.memos[k].deps@[j]]
                    fin.memos.contains_key(k) && 0 <= j < fin.memos[k].deps@.len() implies rank(
                        fin.memos[k].deps@[j],
                    ) < rank(k) by {
                    if k == *key {
                        assert(fin.memos[k].deps@ == computed.frames.last());
                        assert(rank(computed.frames.last()[j]) < rank(*key));
                    } else {
                        assert(popped.memos.contains_key(k));
                    }
                }
                assert forall|k: K| #[trigger] fin.active.contains(k) implies fin.is_pending(k) by {
                    assert(popped.active.contains(k));
                }
            }
        }
        (r, Ghost(Some(called)))
    }
}

impl<K: Clone + Ord, V: Clone + Eq> Runtime<K, V> {
    /// Ensure `key` is current and return its value together with the revision
    /// at which that value last changed. Records no dependency.
    ///
    /// `budget` bounds how deeply revalidation may descend through recorded
    /// dependencies; a chain deeper than the budget is reported as a cycle.
    fn eval<S: System<Key = K, Value = V>>(&mut self, system: &S, key: &K, budget: u64) -> (r:
        Result<(V, Revision), QueryError>)
        requires
            old(self)@.structured(),
            old(self)@.may_resolve(*key),
        ensures
            old(self)@.query_step_exact(final(self)@),
            final(self)@.structured(),
            old(self)@.inputs.contains_key(*key) ==> {
                &&& r == Ok::<(V, Revision), QueryError>(
                    (old(self)@.inputs[*key].value, old(self)@.inputs[*key].changed_at),
                )
                &&& final(self)@ == old(self)@
            },
            old(self)@.is_fresh(*key) ==> {
                &&& r == Ok::<(V, Revision), QueryError>(
                    (old(self)@.memos[*key].value, old(self)@.memos[*key].changed_at),
                )
                &&& final(self)@ == old(self)@.with_hit()
            },
            old(self)@.is_pending(*key) ==> r is Err,
            r is Err ==> !final(self)@.is_current(*key),
            budget > 0 && old(self)@.memos.contains_key(*key) && !old(self)@.is_fresh(*key)
                && final(self)@.deps_unchanged_since(old(self)@.memos[*key]) ==> r is Ok,
            r is Err ==> final(self)@.memos.contains_key(*key) == old(self)@.memos.contains_key(*key)
                && (old(self)@.memos.contains_key(*key) ==> final(self)@.memos[*key]
                == old(self)@.memos[*key]),
            budget > 0 && old(self)@.memos.contains_key(*key) && !old(self)@.is_fresh(*key)
                && old(self)@.deps_unchanged_since(old(self)@.memos[*key]) ==> {
                &&& r == Ok::<(V, Revision), QueryError>(
                    (old(self)@.memos[*key].value, old(self)@.memos[*key].changed_at),
                )
                &&& final(self)@.memos == old(self)@.memos.insert(
                    *key,
                    Memo { verified_at: Revision(old(self)@.revision), ..old(self)@.memos[*key] },
                )
                &&& final(self)@.stats.computed == old(self)@.stats.computed
                &&& final(self)@.stats.validated == sat_add(old(self)@.stats.validated, 1)
            },
            old(self)@.memos.contains_key(*key) && !old(self)@.is_fresh(*key) ==> (r matches Ok(
                (v, c),
            ) ==> if final(self)@.deps_unchanged_since(old(self)@.memos[*key]) {
                &&& v == old(self)@.memos[*key].value
                &&& c == old(self)@.memos[*key].changed_at
                &&& final(self)@.memos[*key] == (Memo {
                    verified_at: Revision(old(self)@.revision),
                    ..old(self)@.memos[*key]
                })
                &&& (old(self)@.stats.validated < final(self)@.stats.validated
                    || final(self)@.stats.validated == u64::MAX)
                &&& old(self)@.stats.counts_le(final(self)@.counted_from)
                &&& final(self)@.stats == (Stats {
                    validated: sat_add(final(self)@.counted_from.validated, 1),
                    ..final(self)@.counted_from
                })
            } else {
                &&& (old(self)@.stats.computed < final(self)@.stats.computed
                    || final(self)@.stats.computed == u64::MAX)
                &&& old(self)@.stats.counts_le(final(self)@.counted_from)
                &&& final(self)@.stats == (Stats {
                    computed: sat_add(final(self)@.counted_from.computed, 1),
                    ..final(self)@.counted_from
                })
            }),
            !old(self)@.inputs.contains_key(*key) ==> (r matches Ok((v, c)) ==> {
                &&& old(self)@.stats.counted(final(self)@.stats)
                &&& c.0 == old(self)@.stamp_for(*key, v)
                &&& final(self)@.memos.contains_key(*key)
                &&& final(self)@.memos[*key].verified_at.0 == old(self)@.revision
            }),
            !old(self)@.inputs.contains_key(*key) && !old(self)@.memos.contains_key(*key) ==> {
                &&& old(self)@.active.contains(*key) ==> r == Err::<(V, Revision), QueryError>(
                    QueryError::Cycle,
                )
                &&& !old(self)@.active.contains(*key) ==> (old(self)@.stats.computed
                    < final(self)@.stats.computed || final(self)@.stats.computed == u64::MAX)
                &&& !old(self)@.active.contains(*key) ==> {
                    &&& old(self)@.stats.counts_le(final(self)@.counted_from)
                    &&& final(self)@.stats == (Stats {
                        computed: sat_add(final(self)@.counted_from.computed, 1),
                        ..final(self)@.counted_from
                    })
                }
                &&& r matches Ok((v, c)) ==> {
                    &&& final(self)@.memos[*key].value == v
                    &&& final(self)@.memos[*key].changed_at == c
                    &&& (old(self)@.stats.computed < final(self)@.stats.computed
                        || old(self)@.stats.computed == u64::MAX)
                }
            },
            r matches Ok((v, c)) ==> {
                &&& final(self)@.is_current(*key)
                &&& final(self)@.held_value(*key) == v
                &&& final(self)@.stamp(*key) == c.0
            },
            S::describes_compute() && old(self)@.consistent(derive_of(*system))
                ==> final(self)@.consistent(derive_of(*system)),
            S::ranks_reads() && old(self)@.ranked_core(rank_of(*system)) && old(self)@.ranked_below(
                rank_of(*system),
                *key,
            ) && system.rank(*key) < budget ==> r is Ok && final(self)@.ranked_core(rank_of(*system)),
        decreases budget,
    {
        proof {
            use_type_invariant(&*self);
        }
        let ghost start = self@;
        let ghost derive = derive_of(*system);
        let ghost was_consistent = S::describes_compute() && start.consistent(derive);
        let ghost rank = rank_of(*system);
        let ghost ranked_ok = S::ranks_reads() && start.ranked_core(rank) && start.ranked_below(rank, *key)
            && system.rank(*key) < budget;
        proof {
            if start.is_pending(*key) {
                lemma_pending_facts(start, *key);
            }
        }
        // Inputs are always current at their own change stamp.
        match self.inputs.get(key) {
            Some(input) => {
                return Ok((dup(&input.value), input.changed_at));
            },
            None => {},
        }
        // A memo already verified at the current revision is a hit; a stale one
        // is snapshotted for revalidation.
        let snapshot = match self.memos.get(key) {
            Some(memo) => {
                if memo.verified_at.0 == self.revision.0 {
                    let value = dup(&memo.value);
                    let changed_at = memo.changed_at;
                    self.counted_from = Ghost(self.stats);
                    self.stats.hits = self.stats.hits.saturating_add(1);
                    assert(self@ == start.with_hit());
                    proof {
                        lemma_structured_carries_over(start, self@);
                        if ranked_ok {
                            lemma_ranked_same(start, self@, rank);
                        }
                    }
                    return Ok((value, changed_at));
                }
                Some((dup_keys(&memo.deps), memo.verified_at, dup(&memo.value), memo.changed_at))
            },
            None => None,
        };
        match snapshot {
            None => {
                let (r, called) = self.recompute(system, key, None, Ghost(was_consistent));
                r
            },
            Some((deps, verified_at, value, changed_at)) => {
                let ghost snap = start.memos[*key];
                proof {
                    if was_consistent && !start.tainted {
                        assert forall|m: K, i: int|
                            #![trigger start.memos[m].deps@[i]]
                            start.memos.contains_key(m) && !start.is_fresh(m) && 0 <= i
                                < start.memos[m].deps@.len() && start.memos[m].deps@[i] == *key
                                && snap.changed_at.0 <= start.memos[m].verified_at.0
                            implies start.memos[m].reads@[i] == snap.value by {
                            assert(start.has_stamp(start.memos[m].deps@[i]));
                        }
                    }
                }
                // What the resolutions of `key` already in progress up the call
                // chain, if any, say of its memo.
                let ghost c_pending = exists|t: int|
                    0 <= t < start.pending.len() && (#[trigger] start.pending[t]) == (Pending::Computing {
                        key: *key,
                    });
                let ghost cw: int = if c_pending {
                    choose|j: int| 0 <= j < snap.deps@.len() && #[trigger] start.dep_changed(*key, j)
                } else {
                    0
                };
                proof {
                    if c_pending {
                        let t = choose|t: int|
                            0 <= t < start.pending.len() && (#[trigger] start.pending[t]) == (
                            Pending::Computing { key: *key });
                        assert(start.pending_sound_at(t));
                    }
                    assert forall|t: int|
                        0 <= t < start.pending.len() && (#[trigger] start.pending[t]) is Validating
                            && start.pending[t].key() == *key implies {
                        &&& start.pending[t]->index < snap.deps@.len()
                        &&& start.is_pending(snap.deps@[start.pending[t]->index as int])
                        &&& forall|j: int|
                            0 <= j < start.pending[t]->index ==> #[trigger] start.dep_unchanged(*key, j)
                    } by {
                        assert(start.pending_sound_at(t));
                        if t + 1 < start.pending.len() {
                            assert(start.pending[t + 1].key() == snap.deps@[start.pending[t]->index as int]);
                        } else {
                            assert(start.pending.last() == start.pending[t]);
                            assert(start.pending[t].key() == *key);
                        }
                    }
                }
                self.pending = Ghost(self.pending@.push(Pending::Validating { key: *key, index: 0 }));
                proof {
                    let p = Pending::Validating { key: *key, index: 0 };
                    lemma_structured_push(start, self@, p);
                }
                // Every dependency is current and unchanged: validation will
                // resolve each of them at once and reuse the cached value.
                let ghost ready = budget > 0 && start.deps_unchanged_since(snap);
                proof {
                    if ranked_ok {
                        lemma_ranked_push(start, Pending::Validating { key: *key, index: 0 }, rank);
                    }
                }
                let mut inputs_changed = false;
                let ghost mut witness: int = 0;
                let mut i: usize = 0;
                while i < deps.len() && !inputs_changed
                    invariant
                        start == old(self)@,
                        start.structured(),
                        start.may_resolve(*key),
                        derive == derive_of(*system),
                        was_consistent == (S::describes_compute() && start.consistent(derive)),
                        start.query_step_exact(RuntimeView { pending: start.pending, ..self@ }),
                        self@.pending == start.pending.push(Pending::Validating { key: *key, index: i as nat }),
                        self@.structured(),
                        !start.inputs.contains_key(*key),
                        start.memos.contains_key(*key),
                        !start.is_fresh(*key),
                        snap == start.memos[*key],
                        self@.memos.contains_key(*key),
                        self@.memos[*key] == snap,
                        deps@ == snap.deps@,
                        verified_at == snap.verified_at,
                        value == snap.value,
                        changed_at == snap.changed_at,
                        i <= deps.len(),
                        inputs_changed ==> 0 <= witness < deps.len() && self@.dep_changed(*key, witness),
                        forall|t: int|
                            0 <= t < start.pending.len() && (#[trigger] start.pending[t]) is Validating
                                && start.pending[t].key() == *key ==> {
                                &&& !inputs_changed
                                &&& i <= start.pending[t]->index
                                &&& start.pending[t]->index < snap.deps@.len()
                                &&& start.is_pending(snap.deps@[start.pending[t]->index as int])
                                &&& forall|j: int|
                                    0 <= j < start.pending[t]->index ==> #[trigger] start.dep_unchanged(*key, j)
                            },
                        c_pending ==> 0 <= cw < deps.len() && start.dep_changed(*key, cw),
                        c_pending ==> inputs_changed || i <= cw,
                        ready == (budget > 0 && start.deps_unchanged_since(snap)),
                        rank == rank_of(*system),
                        ranked_ok == (S::ranks_reads() && start.ranked_core(rank) && start.ranked_below(
                            rank,
                            *key,
                        ) && system.rank(*key) < budget),
                        ranked_ok ==> self@.ranked_core(rank),
                        ready ==> {
                            &&& !inputs_changed
                            &&& self@.memos == start.memos
                            &&& self@.stats.computed == start.stats.computed
                            &&& self@.stats.validated == start.stats.validated
                        },
                        was_consistent ==> self@.consistent(derive),
                        was_consistent && !start.tainted ==> self@.prev_ok(
                            *key,
                            snap.value,
                            snap.changed_at.0,
                        ),
                        was_consistent && !start.tainted && !inputs_changed ==> forall|j: int|
                            0 <= j < i ==> self@.is_current(#[trigger] snap.deps@[j])
                                && self@.held_value(snap.deps@[j]) == snap.reads@[j],
                    decreases deps.len() - i + (if inputs_changed {
                        0int
                    } else {
                        1int
                    }),
                {
                    proof {
                        use_type_invariant(&*self);
                    }
                    let ghost before = self@;
                    let ghost before_base = RuntimeView { pending: start.pending, ..before };
                    if budget == 0 {
                        self.pending = Ghost(start.pending);
                        proof {
                            lemma_structured_pop(before);
                            assert(before.pending.drop_last() =~= start.pending);
                            assert(self@ == before_base);
                        }
                        return Err(QueryError::Cycle);
                    }
                    proof {
                        if ranked_ok {
                            let d = deps@[i as int];
                            assert(start.memos[*key].deps@[i as int] == d);
                            assert(rank(d) < rank(*key));
                            assert forall|t: int| 0 <= t < before.pending.len() implies rank(d) < rank(
                                #[trigger] before.pending[t].key(),
                            ) by {
                                if t < start.pending.len() {
                                    assert(before.pending[t] == start.pending[t]);
                                    assert(rank(*key) < rank(start.pending[t].key()));
                                } else {
                                    assert(before.pending[t].key() == *key);
                                }
                            }
                            assert(before.ranked_below(rank, d));
                            assert(system.rank(d) < budget - 1);
                        }
                    }
                    let res = self.eval(system, &deps[i], budget - 1);
                    let ghost after = self@;
                    let ghost after_base = RuntimeView { pending: start.pending, ..after };
                    proof {
                        use_type_invariant(&*self);
                        assert(before.is_pending(*key)) by {
                            assert(before.pending[start.pending.len() as int].key() == *key);
                        }
                        assert forall|k: K| #[trigger] before_base.is_pending(k) implies before.is_pending(k) by {
                            let t = choose|t: int|
                                0 <= t < before_base.pending.len() && (
                                #[trigger] before_base.pending[t]).key() == k;
                            assert(before.pending[t] == before_base.pending[t]);
                        }
                        lemma_step_with_pending(before, after, start.pending);
                        law_query_steps_compose(start, before_base, after_base);
                        // Every key being resolved up the call chain is being
                        // resolved here too.
                        assert forall|k: K| #[trigger] start.is_pending(k) implies before.is_pending(k) by {
                            let t = choose|t: int|
                                0 <= t < start.pending.len() && (#[trigger] start.pending[t]).key() == k;
                            assert(before.pending[t] == start.pending[t]);
                        }
                    }
                    let dep_changed_at = match res {
                        Ok((_, c)) => c,
                        Err(e) => {
                            self.pending = Ghost(start.pending);
                            proof {
                                lemma_structured_pop(after);
                                assert(after.pending.drop_last() =~= start.pending);
                                assert(self@ == after_base);
                            }
                            return Err(e);
                        },
                    };
                    proof {
                        if ready {
                            assert(start.is_current(snap.deps@[i as int]));
                            assert(before.is_current(deps@[i as int]));
                            assert(after.memos == before.memos);
                            assert(dep_changed_at.0 <= verified_at.0);
                        }
                        if was_consistent && !start.tainted {
                            lemma_prev_ok_step(before, after, *key, snap.value, snap.changed_at.0);
                        }
                        assert(after.is_current(deps@[i as int]));
                        assert(after.stamp(deps@[i as int]) == dep_changed_at.0);
                        // A dependency already found unchanged up the call chain
                        // is current and unchanged still.
                        assert forall|j: int| 0 <= j < snap.deps@.len() && #[trigger] start.dep_unchanged(*key, j)
                            implies after.dep_unchanged(*key, j) by {
                            assert(start.is_current(snap.deps@[j]));
                        }
                        assert forall|j: int| 0 <= j < snap.deps@.len() && #[trigger] start.dep_changed(*key, j)
                            implies after.dep_changed(*key, j) by {
                            assert(start.is_current(snap.deps@[j]));
                        }
                    }
                    if dep_changed_at.0 > verified_at.0 {
                        inputs_changed = true;
                        proof {
                            witness = i as int;
                            assert(after.dep_changed(*key, witness));
                            assert forall|t: int|
                                0 <= t < start.pending.len() && (#[trigger] start.pending[t]) is Validating
                                    && start.pending[t].key() == *key implies false by {
                                let idx = start.pending[t]->index as int;
                                if i < idx {
                                    assert(start.dep_unchanged(*key, i as int));
                                    assert(after.dep_unchanged(*key, i as int));
                                } else {
                                    assert(start.is_pending(snap.deps@[idx]));
                                    assert(before.is_pending(snap.deps@[idx]));
                                }
                            }
                        }
                    } else {
                        proof {
                            assert(after.dep_unchanged(*key, i as int));
                            if was_consistent && !start.tainted {
                                assert(after.has_stamp(deps@[i as int]));
                                assert forall|j: int| 0 <= j < i + 1 implies after.is_current(
                                    #[trigger] snap.deps@[j],
                                ) && after.held_value(snap.deps@[j]) == snap.reads@[j] by {
                                    if j < i {
                                        assert(before.is_current(snap.deps@[j]));
                                    }
                                }
                            }
                            assert forall|t: int|
                                0 <= t < start.pending.len() && (#[trigger] start.pending[t]) is Validating
                                    && start.pending[t].key() == *key implies i + 1 <= start.pending[t]->index by {
                                let idx = start.pending[t]->index as int;
                                if i == idx {
                                    assert(start.is_pending(snap.deps@[idx]));
                                    assert(before.is_pending(snap.deps@[idx]));
                                }
                            }
                            if c_pending {
                                if i == cw {
                                    assert(after.dep_changed(*key, cw));
                                }
                            }
                        }
                        let ghost advanced = i + 1;
                        self.pending = Ghost(start.pending.push(Pending::Validating { key: *key, index: advanced as nat }));
                        proof {
                            lemma_structured_pop(after);
                            assert(after.pending.drop_last() =~= start.pending);
                            let popped_top = RuntimeView { pending: after.pending.drop_last(), ..after };
                            assert(popped_top.pending == start.pending);
                            assert(popped_top == after_base);
                            assert(after_base.may_resolve(*key)) by {
                                if start.pending.len() > 0 {
                                    let top = start.pending.last();
                                    assert(start.pending_sound_at(start.pending.len() - 1));
                                    assert(start.is_pending(top.key())) by {
                                        assert(start.pending[start.pending.len() - 1] == top);
                                    }
                                }
                            }
                            let p = Pending::Validating { key: *key, index: advanced as nat };
                            assert forall|j: int| 0 <= j < advanced implies #[trigger] self@.dep_unchanged(*key, j) by {
                                if j < i {
                                    assert(after.pending_sound_at(start.pending.len() as int));
                                    assert(after.dep_unchanged(*key, j));
                                }
                            }
                            lemma_structured_push(after_base, self@, p);
                            if ranked_ok {
                                lemma_ranked_rebase(start, after, rank);
                                lemma_ranked_push(after_base, p, rank);
                            }
                        }
                        i = i + 1;
                    }
                }
                let ghost looped = self@;
                proof {
                    use_type_invariant(&*self);
                }
                self.pending = Ghost(start.pending);
                let ghost popped = self@;
                proof {
                    lemma_structured_pop(looped);
                    assert(looped.pending.drop_last() =~= start.pending);
                    assert(popped == RuntimeView { pending: start.pending, ..looped });
                    if ranked_ok {
                        lemma_ranked_rebase(start, looped, rank);
                    }
                }
                if inputs_changed {
                    proof {
                        assert(popped.may_resolve(*key)) by {
                            if start.pending.len() > 0 {
                                let top = start.pending.last();
                                assert(start.pending_sound_at(start.pending.len() - 1));
                                assert(start.is_pending(top.key())) by {
                                    assert(start.pending[start.pending.len() - 1] == top);
                                }
                                assert(popped.pending.last() == top);
                            }
                        }
                        assert(popped.dep_changed(*key, witness));
                        if start.is_pending(*key) {
                            let t = choose|t: int|
                                0 <= t < start.pending.len() && (#[trigger] start.pending[t]).key() == *key;
                            assert(start.pending_sound_at(t));
                            if start.pending[t] is Validating {
                                assert(false);
                            }
                        }
                    }
                    let (r, _) = self.recompute(
                        system,
                        key,
                        Some((value, changed_at)),
                        Ghost(was_consistent),
                    );
                    proof {
                        law_query_steps_compose(start, popped, self@);
                        // The dependency found changed is current and changed still.
                        assert(popped.is_current(snap.deps@[witness]));
                        assert(!self@.deps_unchanged_since(snap));
                    }
                    return r;
                }
                // Early cutoff: nothing this query read changed since it was last
                // verified. Reuse the cached value; only its stamp moves forward.
                proof {
                    assert(i == deps.len());
                    if start.is_pending(*key) {
                        let t = choose|t: int|
                            0 <= t < start.pending.len() && (#[trigger] start.pending[t]).key() == *key;
                        assert(start.pending_sound_at(t));
                        if start.pending[t] is Computing {
                            assert(c_pending);
                        }
                        assert(false);
                    }
                }
                let ghost before = self@;
                proof {
                    use_type_invariant(&*self);
                }
                self.counted_from = Ghost(self.stats);
                match self.take_memo(key) {
                    Some(mut memo) => {
                        memo.verified_at = self.revision;
                        proof {
                            if was_consistent && !before.tainted {
                                assert(before.consistent(derive));
                                assert forall|j: int| 0 <= j < before.memos[*key].deps@.len() implies before.is_current(
                                    #[trigger] before.memos[*key].deps@[j],
                                ) && before.held_value(before.memos[*key].deps@[j]) == before.memos[*key].reads@[j] by {
                                    assert(looped.is_current(snap.deps@[j]));
                                }
                                lemma_mark_verified(before, *key, derive);
                                assert(before.memos.remove(*key).insert(*key, memo) =~= before.memos.insert(*key, memo));
                            }
                        }
                        self.put_memo(dup(key), memo);
                    },
                    None => {},
                }
                self.stats.validated = self.stats.validated.saturating_add(1);
                proof {
                    let fin = self@;
                    assert(fin.memos =~= before.memos.insert(*key, Memo { verified_at: Revision(start.revision), ..snap }));
                    assert(before.query_step(fin)) by {
                        assert forall|k: K| #[trigger] before.is_current(k) implies {
                            &&& fin.is_current(k)
                            &&& fin.held_value(k) == before.held_value(k)
                            &&& fin.stamp(k) == before.stamp(k)
                        } by {
                            assert(k != *key);
                        }
                        assert forall|k: K| #[trigger] before.is_pending(k) implies (fin.memos.contains_key(k)
                            == before.memos.contains_key(k) && (before.memos.contains_key(k) ==> fin.memos[k]
                            == before.memos[k])) by {
                            assert(start.is_pending(k));
                            assert(k != *key);
                        }
                    }
                    law_query_steps_compose(start, before, fin);
                    lemma_step_keeps_structured(start, fin);
                    assert forall|j: int| 0 <= j < snap.deps@.len() implies {
                        &&& fin.is_current(#[trigger] snap.deps@[j])
                        &&& fin.stamp(snap.deps@[j]) <= snap.verified_at.0
                    } by {
                        assert(looped.pending_sound_at(start.pending.len() as int));
                        assert(looped.dep_unchanged(*key, j));
                        assert(before.is_current(snap.deps@[j]));
                    }
                    assert(fin.deps_unchanged_since(snap));
                    if ranked_ok {
                        assert forall|k: K, j: int|
                            #![trigger fin.memos[k].deps@[j]]
                            fin.memos.contains_key(k) && 0 <= j < fin.memos[k].deps@.len() implies rank(
                                fin.memos[k].deps@[j],
                            ) < rank(k) by {
                            if k == *key {
                                assert(start.memos[*key].deps@[j] == fin.memos[k].deps@[j]);
                            } else {
                                assert(before.memos.contains_key(k));
                            }
                        }
                        assert forall|k: K| #[trigger] fin.active.contains(k) implies fin.is_pending(k) by {
                            assert(before.active.contains(k));
                        }
                    }
                }
                Ok((value, changed_at))
            },
        }
    }
}

/// Recording a read whose outcome is still open keeps the cache consistent.
proof fn lemma_record_read_consistent<K, V>(a: RuntimeView<K, V>, key: K, derive: Derive<K, V>)
    requires
        a.consistent(derive),
    ensures
        a.with_read(key, None).consistent(derive),
{
    let b = a.with_read(key, None);
    if !a.tainted && a.frames.len() > 0 {
        let n = a.frames.len() - 1;
        assert forall|i: int| 0 <= i < b.frames.len() implies #[trigger] b.reads[i].len()
            == b.frames[i].len() by {
            if i < n {
                assert(b.reads[i] == a.reads[i]);
                assert(b.frames[i] == a.frames[i]);
            } else {
                assert(a.reads[i].len() == a.frames[i].len());
            }
        }
        assert forall|i: int, j: int|
            0 <= i < b.frames.len() && 0 <= j < b.frames[i].len() && (#[trigger] b.reads[i][j]) is Some
            implies b.is_current(b.frames[i][j]) && b.held_value(b.frames[i][j]) == b.reads[i][j]->0 by {
            if i < n {
                assert(b.reads[i] == a.reads[i]);
                assert(b.frames[i] == a.frames[i]);
                assert(a.reads[i][j] is Some);
            } else {
                assert(a.reads[i].len() == a.frames[i].len());
                assert(j < a.frames[i].len());
                assert(b.reads[i][j] == a.reads[i][j]);
                assert(b.frames[i][j] == a.frames[i][j]);
                assert(a.reads[i][j] is Some);
            }
        }
    }
}

/// The reads of the innermost `compute` in progress, with the outcome of the
/// last one set to `read`.
pub open spec fn with_last_read<V>(reads: Seq<Seq<Option<V>>>, read: Option<V>) -> Seq<Seq<Option<V>>> {
    if reads.len() > 0 && reads.last().len() > 0 {
        reads.drop_last().push(reads.last().drop_last().push(read))
    } else {
        reads
    }
}

/// Filling in the outcome of the last read with the value of a current key
/// keeps the cache consistent.
proof fn lemma_fill_read_consistent<K, V>(a: RuntimeView<K, V>, key: K, value: V, derive: Derive<K, V>)
    requires
        a.consistent(derive),
        !a.tainted ==> a.is_current(key) && a.held_value(key) == value,
        a.frames.len() > 0 ==> a.frames.last().len() > 0 && a.frames.last().last() == key,
    ensures
        (RuntimeView { reads: with_last_read(a.reads, Some(value)), ..a }).consistent(derive),
{
    let b = RuntimeView { reads: with_last_read(a.reads, Some(value)), ..a };
    if !a.tainted && a.reads.len() > 0 && a.reads.last().len() > 0 {
        let n = a.reads.len() - 1;
        assert forall|i: int| 0 <= i < b.frames.len() implies #[trigger] b.reads[i].len()
            == b.frames[i].len() by {
            if i < n {
                assert(b.reads[i] == a.reads[i]);
            } else {
                assert(a.reads[i].len() == a.frames[i].len());
            }
        }
        assert forall|i: int, j: int|
            0 <= i < b.frames.len() && 0 <= j < b.frames[i].len() && (#[trigger] b.reads[i][j]) is Some
            implies b.is_current(b.frames[i][j]) && b.held_value(b.frames[i][j]) == b.reads[i][j]->0 by {
            if i < n {
                assert(b.reads[i] == a.reads[i]);
                assert(a.reads[i][j] is Some);
            } else {
                assert(a.reads[i].len() == a.frames[i].len());
                if j < a.reads[i].len() - 1 {
                    assert(b.reads[i][j] == a.reads[i][j]);
                    assert(a.reads[i][j] is Some);
                } else {
                    assert(b.frames[i][j] == key);
                }
            }
        }
    }
}

impl<K: Clone + Ord, V: Clone + Eq> Runtime<K, V> {
    /// Resolve a query to its value, computing and caching it as needed, and
    /// record it as a dependency of the `compute` in progress, if any.
    ///
    /// Called from inside a `compute`, pass the system being computed. An input
    /// is returned directly; a derived query verified at the current revision is
    /// a hit; a stale one is revalidated against its recorded dependencies and
    /// recomputed only if one of them changed after it was last verified; a
    /// query with no memo is computed. A query that is already being computed
    /// further up the call chain resolves to [`QueryError::Cycle`], and one
    /// that is being resolved further up the call chain, to an error.
    pub fn get<S: System<Key = K, Value = V>>(&mut self, system: &S, key: &K) -> (r: Result<
        V,
        QueryError,
    >)
        requires
            old(self)@.structured(),
            old(self)@.may_read(),
        ensures
            old(self)@.query_step(final(self)@),
            final(self)@.structured(),
            old(self)@.is_pending(*key) ==> r is Err,
            r is Err ==> !final(self)@.is_current(*key),
            old(self)@.memos.contains_key(*key) && !old(self)@.is_fresh(*key)
                && final(self)@.deps_unchanged_since(old(self)@.memos[*key]) ==> r is Ok,
            r is Err ==> final(self)@.memos.contains_key(*key) == old(self)@.memos.contains_key(*key)
                && (old(self)@.memos.contains_key(*key) ==> final(self)@.memos[*key]
                == old(self)@.memos[*key]),
            S::ranks_reads() && old(self)@.ranked(rank_of(*system)) && old(self)@.ranked_below(
                rank_of(*system),
                *key,
            ) ==> r is Ok && final(self)@.ranked(rank_of(*system)),
            final(self)@.frames == old(self)@.with_read(*key, None).frames,
            final(self)@.reads == match r {
                Ok(v) => with_last_read(old(self)@.with_read(*key, None).reads, Some(v)),
                Err(_) => old(self)@.with_read(*key, None).reads,
            },
            old(self)@.inputs.contains_key(*key) ==> {
                &&& r == Ok::<V, QueryError>(old(self)@.inputs[*key].value)
                &&& final(self)@ == old(self)@.with_read(*key, Some(old(self)@.inputs[*key].value))
            },
            old(self)@.is_fresh(*key) ==> {
                &&& r == Ok::<V, QueryError>(old(self)@.memos[*key].value)
                &&& final(self)@ == old(self)@.with_read(
                    *key,
                    Some(old(self)@.memos[*key].value),
                ).with_hit()
            },
            old(self)@.memos.contains_key(*key) && !old(self)@.is_fresh(*key)
                && old(self)@.deps_unchanged_since(old(self)@.memos[*key]) ==> {
                &&& r == Ok::<V, QueryError>(old(self)@.memos[*key].value)
                &&& final(self)@.memos == old(self)@.memos.insert(
                    *key,
                    Memo { verified_at: Revision(old(self)@.revision), ..old(self)@.memos[*key] },
                )
                &&& final(self)@.stats.computed == old(self)@.stats.computed
                &&& final(self)@.stats.validated == sat_add(old(self)@.stats.validated, 1)
            },
            old(self)@.memos.contains_key(*key) && !old(self)@.is_fresh(*key) ==> (r matches Ok(v)
                ==> if final(self)@.deps_unchanged_since(old(self)@.memos[*key]) {
                &&& v == old(self)@.memos[*key].value
                &&& final(self)@.memos[*key] == (Memo {
                    verified_at: Revision(old(self)@.revision),
                    ..old(self)@.memos[*key]
                })
                &&& (old(self)@.stats.validated < final(self)@.stats.validated
                    || final(self)@.stats.validated == u64::MAX)
                &&& old(self)@.stats.counts_le(final(self)@.counted_from)
                &&& final(self)@.stats == (Stats {
                    validated: sat_add(final(self)@.counted_from.validated, 1),
                    ..final(self)@.counted_from
                })
            } else {
                &&& (old(self)@.stats.computed < final(self)@.stats.computed
                    || final(self)@.stats.computed == u64::MAX)
                &&& old(self)@.stats.counts_le(final(self)@.counted_from)
                &&& final(self)@.stats == (Stats {
                    computed: sat_add(final(self)@.counted_from.computed, 1),
                    ..final(self)@.counted_from
                })
            }),
            !old(self)@.inputs.contains_key(*key) && !old(self)@.memos.contains_key(*key)
                && !old(self)@.active.contains(*key) ==> {
                &&& old(self)@.stats.counts_le(final(self)@.counted_from)
                &&& final(self)@.stats == (Stats {
                    computed: sat_add(final(self)@.counted_from.computed, 1),
                    ..final(self)@.counted_from
                })
            },
            !old(self)@.inputs.contains_key(*key) ==> (r matches Ok(v) ==> {
                &&& old(self)@.stats.counted(final(self)@.stats)
                &&& final(self)@.stamp(*key) == old(self)@.stamp_for(*key, v)
                &&& final(self)@.memos.contains_key(*key)
                &&& final(self)@.memos[*key].verified_at.0 == old(self)@.revision
            }),
            !old(self)@.inputs.contains_key(*key) && !old(self)@.memos.contains_key(*key) ==> {
                &&& old(self)@.active.contains(*key) ==> r == Err::<V, QueryError>(
                    QueryError::Cycle,
                )
                &&& !old(self)@.active.contains(*key) ==> (old(self)@.stats.computed
                    < final(self)@.stats.computed || final(self)@.stats.computed == u64::MAX)
                &&& r matches Ok(v) ==> {
                    &&& final(self)@.memos[*key].value == v
                    &&& final(self)@.memos[*key].changed_at.0 == old(self)@.revision
                    &&& (old(self)@.stats.computed < final(self)@.stats.computed
                        || old(self)@.stats.computed == u64::MAX)
                }
            },
            S::describes_compute() && old(self)@.consistent(derive_of(*system))
                ==> final(self)@.consistent(derive_of(*system)),
            r matches Ok(v) ==> {
                &&& final(self)@.is_current(*key)
                &&& final(self)@.held_value(*key) == v
            },
    {
        proof {
            use_type_invariant(&*self);
        }
        let ghost start = self@;
        let ghost derive = derive_of(*system);
        self.record_read(dup(key));
        let ghost read = self@;
        proof {
            law_recording_a_read_is_a_query_step(start, *key, None);
            lemma_step_keeps_structured(start, read);
            if S::ranks_reads() && start.ranked(rank_of(*system)) {
                lemma_ranked_same(start, read, rank_of(*system));
            }
            if S::describes_compute() && start.consistent(derive) {
                lemma_record_read_consistent(start, *key, derive);
            }
        }
        let r = self.eval(system, key, u64::MAX);
        let ghost evaluated = self@;
        proof {
            law_query_steps_compose(start, read, evaluated);
        }
        match r {
            Ok((v, _)) => {
                let ghost value = v;
                proof {
                    use_type_invariant(&*self);
                }
                self.reads = Ghost(with_last_read(self.reads@, Some(value)));
                proof {
                    let fin = self@;
                    if start.reads.len() > 0 {
                        assert(start.reads.last().push(None).drop_last().push(Some(value)) =~= start.reads.last().push(
                            Some(value),
                        ));
                        assert(start.with_read(*key, None).reads.drop_last() =~= start.reads.drop_last());
                        assert(fin.reads =~= start.with_read(*key, Some(value)).reads);
                    } else {
                        assert(fin.reads =~= start.with_read(*key, Some(value)).reads);
                    }
                    if S::describes_compute() && start.consistent(derive) {
                        lemma_fill_read_consistent(evaluated, *key, value, derive);
                    }
                    assert(evaluated.query_step(fin)) by {
                        assert forall|i: int| 0 <= i < evaluated.reads.len() - 1 implies fin.reads[i]
                            == evaluated.reads[i] by {}
                    }
                    law_query_steps_compose(start, evaluated, fin);
                    lemma_step_keeps_structured(evaluated, fin);
                    if S::ranks_reads() && start.ranked(rank_of(*system)) && start.ranked_below(
                        rank_of(*system),
                        *key,
                    ) {
                        lemma_ranked_same(evaluated, fin, rank_of(*system));
                        if start.reads.len() > 0 {
                            assert(fin.reads.last() == start.reads.last().push(Some(value)));
                            assert forall|j: int| 0 <= j < fin.reads.last().len() implies (
                                #[trigger] fin.reads.last()[j]) is Some by {
                                if j < start.reads.last().len() {
                                    assert(start.reads.last()[j] is Some);
                                }
                            }
                        }
                    }
                    if start.inputs.contains_key(*key) {
                        assert(fin == start.with_read(*key, Some(value)));
                    }
                    if start.is_fresh(*key) {
                        assert(fin == start.with_read(*key, Some(value)).with_hit());
                    }
                }
                Ok(v)
            },
            Err(e) => Err(e),
        }
    }
}

} // verus!
