//! The resolution counters.

use query_lang::Stats;

#[test]
fn test_default_is_all_zero() {
    let s = Stats::default();
    assert_eq!(s.computed, 0);
    assert_eq!(s.validated, 0);
    assert_eq!(s.hits, 0);
    assert_eq!(s.total(), 0);
}

#[test]
fn test_total_sums_all_paths() {
    let s = Stats {
        computed: 1,
        validated: 2,
        hits: 4,
    };
    assert_eq!(s.total(), 7);
}

#[test]
fn test_display_lists_counters() {
    let s = Stats {
        computed: 1,
        validated: 2,
        hits: 3,
    };
    assert_eq!(s.to_string(), "computed=1, validated=2, hits=3");
}
