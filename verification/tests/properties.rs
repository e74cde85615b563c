//! The engine held to its promises on concrete scripts: incrementally maintained
//! results equal a from-scratch computation, the clock only moves forward, and
//! the counters and renderings say exactly what happened.

use std::cell::Cell;
use std::collections::BTreeMap;

use query_lang::{Database, QueryError, Revision, Runtime, Stats, System};

/// Number of input slots the model uses.
const SLOTS: u32 = 6;

#[derive(Clone, PartialEq, Eq, PartialOrd, Ord, Debug)]
enum Key {
    /// Input slot `i`.
    In(u32),
    /// Derived: `In(i) * 2`.
    Doubled(u32),
    /// Derived: the sum over all slots of `Doubled(i)`.
    Total,
}

/// Sum-of-doubles system with a recomputation counter for cost assertions.
struct Model {
    doubled_runs: Cell<u64>,
}

impl Model {
    fn new() -> Self {
        Self {
            doubled_runs: Cell::new(0),
        }
    }
}

impl System for Model {
    type Key = Key;
    type Value = i64;

    fn compute(&self, db: &mut Runtime<Key, i64>, key: &Key) -> Result<i64, QueryError> {
        match key {
            Key::In(_) => Ok(0),
            Key::Doubled(i) => {
                self.doubled_runs.set(self.doubled_runs.get() + 1);
                Ok(db.get(self, &Key::In(*i))?.wrapping_mul(2))
            }
            Key::Total => {
                let mut total: i64 = 0;
                for i in 0..SLOTS {
                    total = total.wrapping_add(db.get(self, &Key::Doubled(i))?);
                }
                Ok(total)
            }
        }
    }
}

/// The total computed directly from the current inputs.
fn oracle_total(inputs: &BTreeMap<u32, i64>) -> i64 {
    (0..SLOTS)
        .map(|i| inputs.get(&i).copied().unwrap_or(0).wrapping_mul(2))
        .fold(0i64, i64::wrapping_add)
}

/// A small deterministic generator for edit scripts.
struct Lcg(u64);

impl Lcg {
    fn next(&mut self) -> u64 {
        self.0 = self
            .0
            .wrapping_mul(6364136223846793005)
            .wrapping_add(1442695040888963407);
        self.0 >> 17
    }

    fn slot(&mut self) -> u32 {
        (self.next() % u64::from(SLOTS)) as u32
    }

    fn value(&mut self) -> i64 {
        // A narrow range makes repeated values, and so no-op edits, common.
        (self.next() % 7) as i64 - 3
    }
}

#[test]
fn test_total_always_matches_oracle() {
    for seed in 0..20u64 {
        let mut rng = Lcg(seed);
        let mut db = Database::new(Model::new());
        let mut inputs: BTreeMap<u32, i64> = BTreeMap::new();
        for _ in 0..80 {
            match rng.next() % 3 {
                0 => {
                    let (i, v) = (rng.slot(), rng.value());
                    db.set(Key::In(i), v);
                    inputs.insert(i, v);
                }
                1 => assert_eq!(db.get(&Key::Total).unwrap(), oracle_total(&inputs)),
                _ => {
                    let i = rng.slot();
                    let expected = inputs.get(&i).copied().unwrap_or(0).wrapping_mul(2);
                    assert_eq!(db.get(&Key::Doubled(i)).unwrap(), expected);
                }
            }
        }
        assert_eq!(db.get(&Key::Total).unwrap(), oracle_total(&inputs));
    }
}

#[test]
fn test_incremental_matches_cold_build() {
    for seed in 100..120u64 {
        let mut rng = Lcg(seed);
        let mut incremental = Database::new(Model::new());
        let mut inputs: BTreeMap<u32, i64> = BTreeMap::new();
        for _ in 0..60 {
            let (i, v) = (rng.slot(), rng.value());
            incremental.set(Key::In(i), v);
            let _ = incremental.get(&Key::Total).unwrap();
            inputs.insert(i, v);
        }
        let mut cold = Database::new(Model::new());
        for (&i, &v) in &inputs {
            cold.set(Key::In(i), v);
        }
        assert_eq!(
            incremental.get(&Key::Total).unwrap(),
            cold.get(&Key::Total).unwrap()
        );
        for i in 0..SLOTS {
            assert_eq!(
                incremental.get(&Key::Doubled(i)).unwrap(),
                cold.get(&Key::Doubled(i)).unwrap()
            );
        }
    }
}

#[test]
fn test_revision_is_monotonic_and_counts_changes() {
    let mut rng = Lcg(7);
    let mut db = Database::new(Model::new());
    let mut inputs: BTreeMap<u32, i64> = BTreeMap::new();
    let mut prev: Revision = db.revision();
    for _ in 0..60 {
        let (i, v) = (rng.slot(), rng.value());
        let existed_same = inputs.get(&i) == Some(&v);
        db.set(Key::In(i), v);
        let now = db.revision();
        if existed_same {
            assert_eq!(now, prev);
        } else {
            assert_eq!(now.as_u64(), prev.as_u64() + 1);
        }
        prev = now;
        inputs.insert(i, v);
    }
}

#[test]
fn test_unchanged_input_never_recomputes() {
    for i in 0..SLOTS {
        let mut db = Database::new(Model::new());
        db.set(Key::In(i), 41);
        let _ = db.get(&Key::Doubled(i)).unwrap();
        let runs_after_first = db.system().doubled_runs.get();
        for _ in 0..5 {
            db.set(Key::In(i), 41);
            assert_eq!(db.get(&Key::Doubled(i)).unwrap(), 82);
        }
        assert_eq!(db.system().doubled_runs.get(), runs_after_first);
    }
}

#[test]
fn test_read_after_write_gives_the_written_value() {
    let mut db = Database::new(Model::new());
    db.set(Key::In(2), 5);
    assert_eq!(db.get(&Key::In(2)).unwrap(), 5);
    db.set(Key::In(2), -9);
    assert_eq!(db.get(&Key::In(2)).unwrap(), -9);
    // Reading an input runs nothing and counts nothing.
    assert_eq!(db.stats().total(), 0);
}

#[test]
fn test_setting_a_derived_key_makes_it_an_input() {
    let mut db = Database::new(Model::new());
    db.set(Key::In(0), 4);
    assert_eq!(db.get(&Key::Doubled(0)).unwrap(), 8);
    db.set(Key::Doubled(0), 100);
    assert_eq!(db.get(&Key::Doubled(0)).unwrap(), 100);
    assert_eq!(db.get(&Key::Total).unwrap(), 100);
    db.set(Key::In(0), 5);
    assert_eq!(db.get(&Key::Doubled(0)).unwrap(), 100);
}

#[test]
fn test_new_value_advances_revision_by_one() {
    let mut db = Database::new(Model::new());
    assert_eq!(db.revision(), Revision::start());
    db.set(Key::In(0), 1);
    assert_eq!(db.revision().as_u64(), 1);
    db.set(Key::In(1), 1);
    assert_eq!(db.revision().as_u64(), 2);
    db.set(Key::In(1), 1);
    assert_eq!(db.revision().as_u64(), 2);
    db.set(Key::In(1), 2);
    assert_eq!(db.revision().as_u64(), 3);
}

#[test]
fn test_queries_never_move_the_clock() {
    let mut db = Database::new(Model::new());
    db.set(Key::In(3), 2);
    let r = db.revision();
    let _ = db.get(&Key::Total).unwrap();
    let _ = db.get(&Key::Doubled(3)).unwrap();
    assert_eq!(db.revision(), r);
}

#[test]
fn test_hit_counts_exactly_one() {
    let mut db = Database::new(Model::new());
    db.set(Key::In(0), 3);
    let _ = db.get(&Key::Doubled(0)).unwrap();
    let before = db.stats();
    let _ = db.get(&Key::Doubled(0)).unwrap();
    let after = db.stats();
    assert_eq!(after.hits, before.hits + 1);
    assert_eq!(after.computed, before.computed);
    assert_eq!(after.validated, before.validated);
}

#[test]
fn test_counters_follow_each_path() {
    let mut db = Database::new(Model::new());
    db.set(Key::In(0), 3);
    // Cold: Total, every Doubled, and the five unset slots (derived, with
    // their default) are computed.
    assert_eq!(db.get(&Key::Total).unwrap(), 6);
    let s = db.stats();
    assert_eq!((s.computed, s.validated, s.hits), (12, 0, 0));
    // An edit to slot 1: validating Total reaches Doubled(0), validated, then
    // Doubled(1), recomputed with a new value, so Total recomputes. Its
    // compute hits the two doubles already verified and validates the other
    // four together with their unset slots.
    db.set(Key::In(1), 10);
    assert_eq!(db.get(&Key::Total).unwrap(), 26);
    let s = db.stats();
    assert_eq!((s.computed, s.validated, s.hits), (14, 9, 2));
}

#[test]
fn test_counters_never_decrease() {
    let mut rng = Lcg(3);
    let mut db = Database::new(Model::new());
    let mut prev = db.stats();
    for _ in 0..50 {
        if rng.next() % 2 == 0 {
            db.set(Key::In(rng.slot()), rng.value());
        } else {
            let _ = db.get(&Key::Total).unwrap();
        }
        let now = db.stats();
        assert!(now.computed >= prev.computed);
        assert!(now.validated >= prev.validated);
        assert!(now.hits >= prev.hits);
        prev = now;
    }
}

#[test]
fn test_debug_string_renders_shape() {
    #[derive(Clone, PartialEq, Eq, PartialOrd, Ord)]
    enum K {
        A,
        B,
    }
    struct Copy1;
    impl System for Copy1 {
        type Key = K;
        type Value = u8;
        fn compute(&self, db: &mut Runtime<K, u8>, key: &K) -> Result<u8, QueryError> {
            match key {
                K::A => Ok(0),
                K::B => db.get(self, &K::A),
            }
        }
    }
    let mut db = Database::new(Copy1);
    assert_eq!(
        db.debug_string(),
        "Database { revision: Revision(0), inputs: 0, memos: 0, stats: Stats { computed: 0, validated: 0, hits: 0 } }"
    );
    db.set(K::A, 1);
    let _ = db.get(&K::B).unwrap();
    assert_eq!(
        db.debug_string(),
        "Database { revision: Revision(1), inputs: 1, memos: 1, stats: Stats { computed: 1, validated: 0, hits: 0 } }"
    );
}

#[test]
fn test_revision_renders_extremes() {
    assert_eq!(Revision::start().to_string(), "r0");
    assert_eq!(Revision(u64::MAX).to_string(), "r18446744073709551615");
    assert_eq!(Revision(10).to_string(), "r10");
}

#[test]
fn test_stats_total_saturates() {
    let s = Stats {
        computed: u64::MAX,
        validated: 1,
        hits: 1,
    };
    assert_eq!(s.total(), u64::MAX);
    let t = Stats {
        computed: u64::MAX - 3,
        validated: 1,
        hits: 1,
    };
    assert_eq!(t.total(), u64::MAX - 1);
    assert_eq!(
        Stats {
            computed: 0,
            validated: 10,
            hits: 205
        }
        .to_string(),
        "computed=0, validated=10, hits=205"
    );
}

#[test]
fn test_cycle_error_leaves_database_usable() {
    struct Loop;
    impl System for Loop {
        type Key = u8;
        type Value = u8;
        fn compute(&self, db: &mut Runtime<u8, u8>, k: &u8) -> Result<u8, QueryError> {
            match k {
                0 => db.get(self, &1),
                1 => db.get(self, &0),
                _ => Ok(*k),
            }
        }
    }
    let mut db = Database::new(Loop);
    assert_eq!(db.get(&0), Err(QueryError::Cycle));
    assert_eq!(db.get(&1), Err(QueryError::Cycle));
    assert_eq!(db.get(&5), Ok(5));
    // Breaking the cycle with an input lets the rest resolve.
    db.set(1, 9);
    assert_eq!(db.get(&0), Ok(9));
}

#[test]
fn test_readme_pipeline_example() {
    #[derive(Clone, PartialEq, Eq, PartialOrd, Ord)]
    enum K {
        Source,
        Parsed,
        Squared,
    }
    struct Pipeline;
    impl System for Pipeline {
        type Key = K;
        type Value = i64;
        fn compute(&self, db: &mut Runtime<K, i64>, key: &K) -> Result<i64, QueryError> {
            match key {
                K::Source => Ok(0),
                K::Parsed => db.get(self, &K::Source),
                K::Squared => {
                    let n = db.get(self, &K::Parsed)?;
                    Ok(n * n)
                }
            }
        }
    }
    let mut db = Database::new(Pipeline);
    db.set(K::Source, 12);
    assert_eq!(db.get(&K::Squared), Ok(144));
    assert_eq!(db.stats().computed, 2);
    assert_eq!(db.get(&K::Squared), Ok(144));
    assert_eq!(db.stats().hits, 1);
}

#[test]
fn test_layout_example_with_string_values() {
    #[derive(Clone, PartialEq, Eq, PartialOrd, Ord)]
    enum K {
        Width,
        Doubled,
        Labeled,
    }
    struct Layout;
    impl System for Layout {
        type Key = K;
        type Value = String;
        fn compute(&self, db: &mut Runtime<K, String>, key: &K) -> Result<String, QueryError> {
            match key {
                K::Width => Ok("0".into()),
                K::Doubled => {
                    let w: i64 = db.get(self, &K::Width)?.parse().unwrap_or(0);
                    Ok((w * 2).to_string())
                }
                K::Labeled => Ok(format!("w={}", db.get(self, &K::Doubled)?)),
            }
        }
    }
    let mut db = Database::new(Layout);
    db.set(K::Width, "10".into());
    assert_eq!(db.get(&K::Labeled).unwrap(), "w=20");
    assert_eq!(db.stats().computed, 2);
    assert_eq!(db.get(&K::Labeled).unwrap(), "w=20");
    assert_eq!(db.stats().hits, 1);
}

#[test]
fn test_memoized_fibonacci() {
    struct Fib;
    impl System for Fib {
        type Key = u64;
        type Value = u64;
        fn compute(&self, db: &mut Runtime<u64, u64>, n: &u64) -> Result<u64, QueryError> {
            if *n < 2 {
                return Ok(*n);
            }
            Ok(db.get(self, &(n - 1))?.wrapping_add(db.get(self, &(n - 2))?))
        }
    }
    let mut db = Database::new(Fib);
    assert_eq!(db.get(&50), Ok(12586269025));
    // Each of fib(0)..fib(50) ran once.
    assert_eq!(db.stats().computed, 51);
}

#[test]
fn test_failed_compute_is_counted() {
    struct SelfRead;
    impl System for SelfRead {
        type Key = u32;
        type Value = u32;
        fn compute(&self, db: &mut Runtime<u32, u32>, k: &u32) -> Result<u32, QueryError> {
            db.get(self, k)
        }
    }
    let mut db = Database::new(SelfRead);
    assert_eq!(db.get(&1), Err(QueryError::Cycle));
    // The compute of key 1 ran once, and failed; nothing was cached.
    assert_eq!(db.stats().computed, 1);
    assert_eq!(
        db.debug_string(),
        "Database { revision: Revision(0), inputs: 0, memos: 0, stats: Stats { computed: 1, validated: 0, hits: 0 } }"
    );
}

#[test]
fn test_compute_can_read_revision_and_stats() {
    struct Clocked;
    impl System for Clocked {
        type Key = u8;
        type Value = u64;
        fn compute(&self, db: &mut Runtime<u8, u64>, k: &u8) -> Result<u64, QueryError> {
            match k {
                0 => Ok(0),
                _ => Ok(db.revision().as_u64() * 100 + db.stats().computed),
            }
        }
    }
    let mut db = Database::new(Clocked);
    db.set(0, 5);
    assert_eq!(db.get(&1), Ok(100));
}
