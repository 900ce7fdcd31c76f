use std::collections::hash_map::RandomState;

use scope_map::ScopeMap;

#[test]
fn map_init() {
    let map: ScopeMap<String, i32> = ScopeMap::new();
    assert_eq!(0, map.len());
    assert_eq!(1, map.depth());
    assert!(map.is_empty());
}

#[test]
fn map_default() {
    let map: ScopeMap<String, i32> = Default::default();
    assert_eq!(0, map.len());
    assert_eq!(1, map.depth());
    assert!(map.is_empty());
}

#[test]
fn map_capacity() {
    let map: ScopeMap<String, i32> = ScopeMap::with_capacity(32);
    assert_eq!(32, map.capacity());
}

#[test]
fn map_define() {
    let mut map = ScopeMap::new();
    map.define("foo", 123);
    assert_eq!(1, map.len());
    assert_eq!(Some(&123), map.get(&"foo"));
}

#[test]
fn map_delete() {
    let mut map = ScopeMap::new();
    map.define("foo", 123);
    map.delete("foo");
    assert_eq!(0, map.len());
    assert_eq!(None, map.get(&"foo"));
    assert!(!map.contains_key(&"foo"));
}

#[test]
fn map_layer_count() {
    let mut map: ScopeMap<String, i32> = Default::default();
    map.push_layer();
    assert_eq!(2, map.depth());
    map.pop_layer();
    assert_eq!(1, map.depth());
}

#[test]
fn map_try_pop_first_layer() {
    let mut map: ScopeMap<String, i32> = Default::default();
    assert_eq!(false, map.pop_layer());
    assert_eq!(1, map.depth());
}

#[test]
fn map_get_none() {
    let mut map = ScopeMap::new();
    map.define("foo", 123);
    assert_eq!(None, map.get(&"bar"));
}

#[test]
fn map_get_multi_layer() {
    let mut map = ScopeMap::new();
    map.define("foo", 123);
    map.push_layer();
    map.define("bar", 456);
    assert_eq!(Some(&123), map.get(&"foo"));
    assert_eq!(Some(&456), map.get(&"bar"));
}

#[test]
fn map_get_parent() {
    let mut map = ScopeMap::new();
    map.define("foo", 123);
    map.push_layer();
    map.define("foo", 456);
    assert_eq!(Some(&456), map.get_parent(&"foo", 0));
    assert_eq!(Some(&123), map.get_parent(&"foo", 1));
}

#[test]
fn map_get_parent_none() {
    let mut map = ScopeMap::new();
    map.push_layer();
    map.define("foo", 123);
    assert_eq!(None, map.get_parent(&"foo", 1));
}

#[test]
fn map_define_override() {
    let mut map = ScopeMap::new();
    map.define("foo", 123);
    map.push_layer();
    map.define("foo", 456);
    assert_eq!(Some(&456), map.get(&"foo"));
}

#[test]
fn map_delete_override() {
    let mut map = ScopeMap::new();
    map.define("foo", 123);
    map.push_layer();
    map.define("foo", 456);
    map.delete("foo");
    assert_eq!(Some(&123), map.get(&"foo"));
}

#[test]
fn map_pop_override() {
    let mut map = ScopeMap::new();
    map.define("foo", 123);
    map.push_layer();
    map.define("foo", 456);
    map.pop_layer();
    assert_eq!(Some(&123), map.get(&"foo"));
}

#[test]
fn map_get_mut() {
    let mut map = ScopeMap::new();
    map.define("foo", 123);
    if let Some(foo) = map.get_mut(&"foo") {
        *foo = 456;
    }
    assert_eq!(Some(&456), map.get(&"foo"));
}

#[test]
fn map_contains_key() {
    let mut map = ScopeMap::new();
    map.define("foo", 123);
    assert!(map.contains_key(&"foo"));
}

#[test]
fn map_not_contains_key() {
    let mut map = ScopeMap::new();
    map.define("foo", 123);
    assert!(!map.contains_key(&"bar"));
}

#[test]
fn map_depth_of() {
    let mut map = ScopeMap::new();
    map.define("foo", 123);
    map.push_layer();
    map.define("bar", 456);
    assert_eq!(Some(1), map.depth_of(&"foo"));
    assert_eq!(Some(0), map.depth_of(&"bar"));
    assert_eq!(None, map.depth_of(&"baz"));
}

#[test]
fn map_with_hasher() {
    let map: ScopeMap<String, i32, RandomState> = ScopeMap::with_hasher(RandomState::new());
    assert_eq!(0, map.len());
    assert_eq!(1, map.depth());
}

#[test]
fn map_with_capacity_and_hasher() {
    let map: ScopeMap<String, i32, RandomState> =
        ScopeMap::with_capacity_and_hasher(8, RandomState::new());
    assert_eq!(8, map.capacity());
    assert!(map.is_empty());
}

#[test]
fn map_get_mut_none() {
    let mut map = ScopeMap::new();
    map.define("foo", 123);
    assert_eq!(None, map.get_mut(&"bar"));
    map.push_layer();
    map.delete("foo");
    assert_eq!(Some(&123), map.get(&"foo"));
}

#[test]
fn map_clear_top_empty_layer() {
    let mut map: ScopeMap<&str, i32> = ScopeMap::new();
    map.clear_top();
    assert_eq!(1, map.depth());
    assert_eq!(0, map.len());
    map.define("foo", 1);
    map.clear_top();
    assert_eq!(0, map.len());
    assert!(!map.contains_key(&"foo"));
}
