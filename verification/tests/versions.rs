use reducer::identifier::CoreIdentifier;
use reducer::versions::Versions;

fn source(name: &str) -> CoreIdentifier {
    CoreIdentifier::Source(name.to_string())
}

#[test]
fn first_version_of_a_name_is_zero() {
    let mut v = Versions::new();
    assert_eq!(v.current(&source("a")), None);
    assert_eq!(v.fresh(&source("a")), Some(0));
    assert_eq!(v.current(&source("a")), Some(0));
}

#[test]
fn fresh_versions_grow_by_one_per_name() {
    let mut v = Versions::new();
    assert_eq!(v.fresh(&source("a")), Some(0));
    assert_eq!(v.fresh(&source("b")), Some(0));
    assert_eq!(v.fresh(&source("a")), Some(1));
    assert_eq!(v.fresh(&source("a")), Some(2));
    assert_eq!(v.fresh(&source("b")), Some(1));
    assert_eq!(v.current(&source("a")), Some(2));
    assert_eq!(v.current(&source("b")), Some(1));
}

#[test]
fn source_names_and_call_slots_are_different_names() {
    let mut v = Versions::new();
    assert_eq!(v.fresh(&CoreIdentifier::Call(0)), Some(0));
    assert_eq!(v.fresh(&CoreIdentifier::Call(1)), Some(0));
    assert_eq!(v.fresh(&CoreIdentifier::Call(0)), Some(1));
    assert_eq!(v.current(&source("0")), None);
}

#[test]
fn bump_all_raises_every_version_by_one() {
    let mut v = Versions::new();
    v.fresh(&source("a"));
    v.fresh(&source("a"));
    v.fresh(&source("b"));
    assert!(v.bump_all());
    assert_eq!(v.current(&source("a")), Some(2));
    assert_eq!(v.current(&source("b")), Some(1));
    assert_eq!(v.current(&source("c")), None);
    assert_eq!(v.fresh(&source("a")), Some(3));
}

#[test]
fn shift_raises_every_version_by_the_given_number() {
    let mut v = Versions::new();
    v.fresh(&source("a"));
    v.fresh(&source("b"));
    v.fresh(&source("b"));
    assert!(v.shift(2));
    assert_eq!(v.current(&source("a")), Some(2));
    assert_eq!(v.current(&source("b")), Some(3));
}

#[test]
fn shift_that_does_not_fit_changes_nothing() {
    let mut v = Versions::new();
    v.fresh(&source("a"));
    v.fresh(&source("b"));
    assert!(v.shift(usize::MAX - 1));
    assert_eq!(v.current(&source("a")), Some(usize::MAX - 1));
    assert!(!v.shift(2));
    assert_eq!(v.current(&source("a")), Some(usize::MAX - 1));
    assert_eq!(v.current(&source("b")), Some(usize::MAX - 1));
    assert!(v.shift(1));
    assert!(!v.bump_all());
    assert_eq!(v.current(&source("a")), Some(usize::MAX));
}

#[test]
fn fresh_at_the_largest_version_fails_and_changes_nothing() {
    let mut v = Versions::new();
    v.fresh(&source("a"));
    assert!(v.shift(usize::MAX));
    assert_eq!(v.fresh(&source("a")), None);
    assert_eq!(v.current(&source("a")), Some(usize::MAX));
    assert_eq!(v.fresh(&source("b")), Some(0));
}

#[test]
fn snapshot_is_not_changed_by_later_versions() {
    let mut v = Versions::new();
    v.fresh(&source("a"));
    let before = v.snapshot();
    v.fresh(&source("a"));
    v.fresh(&source("b"));
    assert_eq!(before.current(&source("a")), Some(0));
    assert_eq!(before.current(&source("b")), None);
    assert_eq!(v.current(&source("a")), Some(1));
}

#[test]
fn keys_are_listed_once_in_the_order_of_their_first_version() {
    let mut v = Versions::new();
    v.fresh(&source("b"));
    v.fresh(&source("a"));
    v.fresh(&source("b"));
    assert_eq!(v.len(), 2);
    assert_eq!(v.key(0), &source("b"));
    assert_eq!(v.key(1), &source("a"));
}
