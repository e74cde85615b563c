//! The revision clock.

use query_lang::Revision;

#[test]
fn test_start_is_zero() {
    assert_eq!(Revision::start().as_u64(), 0);
}

#[test]
fn test_next_advances_by_one() {
    assert_eq!(Revision::start().next().as_u64(), 1);
    assert_eq!(Revision::start().next().next().as_u64(), 2);
}

#[test]
fn test_ordering_reflects_age() {
    assert!(Revision::start().next() > Revision::start());
    assert!(Revision::start() < Revision::start().next());
}

#[test]
fn test_next_saturates_at_max() {
    let max = Revision(u64::MAX);
    assert_eq!(max.next(), max);
}

#[test]
fn test_display_is_prefixed() {
    assert_eq!(Revision(7).to_string(), "r7");
}
