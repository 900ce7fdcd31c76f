use std::collections::hash_map::RandomState;

use scope_map::ScopeSet;

#[test]
fn set_init() {
    let set: ScopeSet<String> = ScopeSet::new();
    assert_eq!(0, set.len());
    assert_eq!(1, set.layer_count());
    assert!(set.is_empty());
}

#[test]
fn set_default() {
    let set: ScopeSet<String> = Default::default();
    assert_eq!(0, set.len());
    assert_eq!(1, set.layer_count());
    assert!(set.is_empty());
}

#[test]
fn set_capacity() {
    let set: ScopeSet<String> = ScopeSet::with_capacity(16);
    assert_eq!(16, set.capacity());
}

#[test]
fn set_with_hasher() {
    let set: ScopeSet<String, RandomState> = ScopeSet::with_hasher(RandomState::new());
    assert_eq!(0, set.len());
    let set2: ScopeSet<String, RandomState> =
        ScopeSet::with_capacity_and_hasher(8, RandomState::new());
    assert_eq!(8, set2.capacity());
}

#[test]
fn set_define_contains() {
    let mut set = ScopeSet::new();
    set.define("foo");
    assert!(set.contains(&"foo"));
    assert!(!set.contains(&"bar"));
    assert_eq!(1, set.len());
}

#[test]
fn set_delete() {
    let mut set = ScopeSet::new();
    set.define("foo");
    assert!(set.delete("foo"));
    assert!(!set.delete("foo"));
    assert!(!set.contains(&"foo"));
    assert!(set.is_empty());
}

#[test]
fn set_layers_shadow() {
    let mut set = ScopeSet::new();
    set.define("foo");
    set.push_layer();
    assert!(set.contains(&"foo"));
    assert!(!set.contains_at_top(&"foo"));
    set.define("foo");
    assert!(set.contains_at_top(&"foo"));
    assert_eq!(1, set.len());
    set.pop_layer();
    assert!(set.contains(&"foo"));
    assert_eq!(1, set.len());
}

#[test]
fn set_pop_discards() {
    let mut set = ScopeSet::new();
    set.push_layer();
    set.define("foo");
    assert!(set.pop_layer());
    assert!(!set.contains(&"foo"));
    assert!(!set.pop_layer());
    assert_eq!(1, set.layer_count());
}

#[test]
fn set_clear_top() {
    let mut set = ScopeSet::new();
    set.define("a");
    set.push_layer();
    set.define("b");
    set.clear_top();
    assert_eq!(2, set.layer_count());
    assert!(!set.contains(&"b"));
    assert!(set.contains(&"a"));
    set.define("c");
    assert!(set.contains_at_top(&"c"));
}

#[test]
fn set_clear_all() {
    let mut set = ScopeSet::new();
    set.define("a");
    set.push_layer();
    set.define("b");
    set.clear_all();
    assert_eq!(1, set.layer_count());
    assert_eq!(0, set.len());
    assert!(set.is_empty());
}
