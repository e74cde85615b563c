//! Resolution behaviour of the database: inputs, hits, validation, recomputation,
//! cycles and dependency tracking.

use std::cell::Cell as StdCell;

use query_lang::{Database, QueryError, Runtime, System};

/// A system whose `compute` counts how many times each key ran, so tests can
/// assert exactly which queries recomputed.
struct Counting {
    // key -> number of times computed
    runs: StdCell<[u32; 8]>,
}

impl Counting {
    fn new() -> Self {
        Self {
            runs: StdCell::new([0; 8]),
        }
    }

    fn runs_of(&self, key: usize) -> u32 {
        self.runs.get()[key]
    }

    fn bump(&self, key: usize) {
        let mut r = self.runs.get();
        r[key] += 1;
        self.runs.set(r);
    }
}

// Key layout: 0 = input A, 1 = input B, 2 = A*10, 3 = (A*10)+(B), 4 = sign of 2
impl System for Counting {
    type Key = usize;
    type Value = i64;
    fn compute(&self, db: &mut Runtime<usize, i64>, key: &usize) -> Result<i64, QueryError> {
        self.bump(*key);
        match key {
            0 | 1 => Ok(0), // default when the input was never set
            2 => Ok(db.get(self, &0)? * 10),
            3 => Ok(db.get(self, &2)? + db.get(self, &1)?),
            4 => Ok(db.get(self, &2)?.signum()),
            _ => Ok(0),
        }
    }
}

#[test]
fn test_input_get_returns_set_value() {
    let mut db = Database::new(Counting::new());
    db.set(0, 7);
    assert_eq!(db.get(&0).unwrap(), 7);
    // Inputs never invoke compute.
    assert_eq!(db.system().runs_of(0), 0);
}

#[test]
fn test_first_get_computes_once() {
    let mut db = Database::new(Counting::new());
    db.set(0, 3);
    assert_eq!(db.get(&2).unwrap(), 30);
    assert_eq!(db.system().runs_of(2), 1);
    // Only key 2 computed; key 0 is a set input and never runs compute.
    assert_eq!(db.stats().computed, 1);
}

#[test]
fn test_second_get_is_a_hit() {
    let mut db = Database::new(Counting::new());
    db.set(0, 3);
    assert_eq!(db.get(&2).unwrap(), 30);
    let before = db.stats();
    assert_eq!(db.get(&2).unwrap(), 30);
    let after = db.stats();
    assert_eq!(after.hits - before.hits, 1);
    assert_eq!(after.computed, before.computed); // no recompute
}

#[test]
fn test_input_change_recomputes_dependents() {
    let mut db = Database::new(Counting::new());
    db.set(0, 3);
    assert_eq!(db.get(&2).unwrap(), 30);
    db.set(0, 4);
    assert_eq!(db.get(&2).unwrap(), 40);
    assert_eq!(db.system().runs_of(2), 2);
}

#[test]
fn test_unchanged_input_set_does_not_recompute() {
    let mut db = Database::new(Counting::new());
    db.set(0, 3);
    assert_eq!(db.get(&2).unwrap(), 30);
    db.set(0, 3); // same value -> no revision bump
    assert_eq!(db.get(&2).unwrap(), 30);
    // Still verified at the current revision: a hit, not a recompute.
    assert_eq!(db.system().runs_of(2), 1);
}

#[test]
fn test_multilayer_hit_after_no_change() {
    let mut db = Database::new(Counting::new());
    db.set(0, 3);
    // key 4 = signum(A*10); depends on key 2, which depends on input 0.
    assert_eq!(db.get(&4).unwrap(), 1);
    assert_eq!(db.system().runs_of(4), 1);
    assert_eq!(db.system().runs_of(2), 1);

    // Re-setting the input to the same value does not advance the revision,
    // so the next query is a plain hit and nothing recomputes.
    db.set(0, 3);
    assert_eq!(db.get(&4).unwrap(), 1);
    assert_eq!(db.system().runs_of(4), 1);
    assert_eq!(db.system().runs_of(2), 1);
}

#[test]
fn test_early_cutoff_when_intermediate_value_is_stable() {
    // A system where an input change leaves an intermediate query's value
    // unchanged, so the top query is validated, not recomputed.
    struct AbsChain {
        top_runs: StdCell<u32>,
    }
    #[derive(Clone, PartialEq, Eq, PartialOrd, Ord)]
    enum K {
        In,
        Abs,
        Plus1,
    }
    impl System for AbsChain {
        type Key = K;
        type Value = i64;
        fn compute(&self, db: &mut Runtime<K, i64>, key: &K) -> Result<i64, QueryError> {
            match key {
                K::In => Ok(0),
                K::Abs => Ok(db.get(self, &K::In)?.abs()),
                K::Plus1 => {
                    self.top_runs.set(self.top_runs.get() + 1);
                    Ok(db.get(self, &K::Abs)? + 1)
                }
            }
        }
    }

    let mut db = Database::new(AbsChain {
        top_runs: StdCell::new(0),
    });
    db.set(K::In, 5);
    assert_eq!(db.get(&K::Plus1).unwrap(), 6);
    assert_eq!(db.system().top_runs.get(), 1);

    // -5 and 5 have the same abs, so Abs recomputes to the same value and
    // Plus1 is validated (early cutoff), not recomputed.
    db.set(K::In, -5);
    assert_eq!(db.get(&K::Plus1).unwrap(), 6);
    assert_eq!(db.system().top_runs.get(), 1);
    assert!(db.stats().validated >= 1);
}

#[test]
fn test_default_value_when_input_unset() {
    let mut db = Database::new(Counting::new());
    // Input 0 was never set; compute(0) returns its default of 0.
    assert_eq!(db.get(&2).unwrap(), 0);
}

#[test]
fn test_direct_self_cycle_is_error() {
    struct SelfDep;
    impl System for SelfDep {
        type Key = u32;
        type Value = u32;
        fn compute(&self, db: &mut Runtime<u32, u32>, k: &u32) -> Result<u32, QueryError> {
            db.get(self, k)
        }
    }
    let mut db = Database::new(SelfDep);
    assert_eq!(db.get(&1), Err(QueryError::Cycle));
}

#[test]
fn test_indirect_cycle_is_error() {
    struct PingPong;
    impl System for PingPong {
        type Key = u32;
        type Value = u32;
        fn compute(&self, db: &mut Runtime<u32, u32>, k: &u32) -> Result<u32, QueryError> {
            // 0 depends on 1, 1 depends on 0.
            match k {
                0 => db.get(self, &1),
                _ => db.get(self, &0),
            }
        }
    }
    let mut db = Database::new(PingPong);
    assert_eq!(db.get(&0), Err(QueryError::Cycle));
}

#[test]
fn test_state_is_clean_after_cycle_error() {
    struct SelfDep;
    impl System for SelfDep {
        type Key = u32;
        type Value = u32;
        fn compute(&self, db: &mut Runtime<u32, u32>, k: &u32) -> Result<u32, QueryError> {
            if *k == 0 { db.get(self, &0) } else { Ok(*k) }
        }
    }
    let mut db = Database::new(SelfDep);
    assert_eq!(db.get(&0), Err(QueryError::Cycle));
    // A non-cyclic query still resolves normally afterwards.
    assert_eq!(db.get(&9).unwrap(), 9);
}

#[test]
fn test_set_promotes_derived_key_to_input() {
    let mut db = Database::new(Counting::new());
    db.set(0, 3);
    assert_eq!(db.get(&2).unwrap(), 30); // key 2 derived and cached
    db.set(2, 999); // promote key 2 to an input
    assert_eq!(db.get(&2).unwrap(), 999);
    // It is now an input: compute is never called for it again.
    let runs_before = db.system().runs_of(2);
    assert_eq!(db.get(&2).unwrap(), 999);
    assert_eq!(db.system().runs_of(2), runs_before);
}

#[test]
fn test_branching_dependencies_tracked_precisely() {
    // A query reads one of two inputs depending on a selector input; only the
    // branch it actually took is a dependency.
    #[derive(Clone, PartialEq, Eq, PartialOrd, Ord)]
    enum K {
        Select,
        Left,
        Right,
        Picked,
    }
    struct Switch {
        runs: StdCell<u32>,
    }
    impl System for Switch {
        type Key = K;
        type Value = i64;
        fn compute(&self, db: &mut Runtime<K, i64>, key: &K) -> Result<i64, QueryError> {
            match key {
                K::Select | K::Left | K::Right => Ok(0),
                K::Picked => {
                    self.runs.set(self.runs.get() + 1);
                    if db.get(self, &K::Select)? == 0 {
                        db.get(self, &K::Left)
                    } else {
                        db.get(self, &K::Right)
                    }
                }
            }
        }
    }
    let mut db = Database::new(Switch {
        runs: StdCell::new(0),
    });
    db.set(K::Select, 0);
    db.set(K::Left, 100);
    db.set(K::Right, 200);
    assert_eq!(db.get(&K::Picked).unwrap(), 100);
    assert_eq!(db.system().runs.get(), 1);

    // Changing Right must NOT recompute Picked: it read Left, not Right.
    db.set(K::Right, 999);
    assert_eq!(db.get(&K::Picked).unwrap(), 100);
    assert_eq!(db.system().runs.get(), 1);

    // Changing Left DOES recompute Picked.
    db.set(K::Left, 111);
    assert_eq!(db.get(&K::Picked).unwrap(), 111);
    assert_eq!(db.system().runs.get(), 2);
}

#[test]
fn test_string_values_work() {
    struct Greeter;
    impl System for Greeter {
        type Key = u32;
        type Value = String;
        fn compute(&self, db: &mut Runtime<u32, String>, k: &u32) -> Result<String, QueryError> {
            if *k == 0 {
                Ok("world".to_string())
            } else {
                Ok(format!("hello, {}", db.get(self, &0)?))
            }
        }
    }
    let mut db = Database::new(Greeter);
    assert_eq!(db.get(&1).unwrap(), "hello, world");
}

#[test]
fn test_debug_reports_shape() {
    let mut db = Database::new(Counting::new());
    db.set(0, 1);
    let _ = db.get(&2).unwrap();
    let rendered = db.debug_string();
    assert!(rendered.contains("revision"));
    assert!(rendered.contains("memos"));
}

#[test]
fn test_diamond_recomputes_shared_dep_once() {
    // top depends on left and right, both of which depend on a shared input.
    #[derive(Clone, PartialEq, Eq, PartialOrd, Ord)]
    enum K {
        In,
        Left,
        Right,
        Top,
    }
    struct Diamond {
        in_runs: StdCell<u32>,
    }
    impl System for Diamond {
        type Key = K;
        type Value = i64;
        fn compute(&self, db: &mut Runtime<K, i64>, key: &K) -> Result<i64, QueryError> {
            match key {
                K::In => Ok(0),
                K::Left => Ok(db.get(self, &K::In)? + 1),
                K::Right => Ok(db.get(self, &K::In)? + 2),
                K::Top => {
                    self.in_runs.set(self.in_runs.get() + 1);
                    Ok(db.get(self, &K::Left)? + db.get(self, &K::Right)?)
                }
            }
        }
    }
    let mut db = Database::new(Diamond {
        in_runs: StdCell::new(0),
    });
    db.set(K::In, 10);
    assert_eq!(db.get(&K::Top).unwrap(), (10 + 1) + (10 + 2));
    assert_eq!(db.system().in_runs.get(), 1);

    db.set(K::In, 20);
    assert_eq!(db.get(&K::Top).unwrap(), (20 + 1) + (20 + 2));
    assert_eq!(db.system().in_runs.get(), 2);
}

#[test]
fn test_multiple_deps_each_invalidate() {
    // Guards against a regression where deps are dropped: a query with two
    // input deps must be invalidated by either.
    let mut db = Database::new(Counting::new());
    db.set(0, 1);
    db.set(1, 2);
    // key 3 = (A*10) + B = 10 + 2 = 12
    assert_eq!(db.get(&3).unwrap(), 12);
    db.set(1, 5);
    assert_eq!(db.get(&3).unwrap(), 15);
    // And the other dependency still invalidates it too.
    db.set(0, 2); // A*10 becomes 20
    assert_eq!(db.get(&3).unwrap(), 25);
}
