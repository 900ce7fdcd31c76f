use scope_map::ScopeMap;

#[test]
fn layer_invariant() {
    let mut map: ScopeMap<&str, i32> = ScopeMap::new();
    assert!(map.depth() >= 1);
    assert_eq!(false, map.pop_layer());
    assert_eq!(1, map.depth());
    map.push_layer();
    assert_eq!(true, map.pop_layer());
    assert_eq!(false, map.pop_layer());
    assert_eq!(1, map.depth());
}

#[test]
fn shadow_and_restore() {
    let mut map = ScopeMap::new();
    map.define("k", 1);
    map.push_layer();
    map.define("k", 2);
    assert_eq!(Some(&2), map.get(&"k"));
    map.pop_layer();
    assert_eq!(Some(&1), map.get(&"k"));
}

#[test]
fn skip_semantics() {
    let mut map = ScopeMap::new();
    map.define("k", 10);
    map.push_layer();
    map.define("k", 20);
    map.push_layer();
    map.define("k", 30);
    assert_eq!(Some(&30), map.get_parent(&"k", 0));
    assert_eq!(Some(&20), map.get_parent(&"k", 1));
    assert_eq!(Some(&10), map.get_parent(&"k", 2));
    assert_eq!(None, map.get_parent(&"k", 3));
    assert_eq!(Some(0), map.depth_of(&"k"));
    map.pop_layer();
    map.pop_layer();
    assert_eq!(Some(&10), map.get(&"k"));
}

#[test]
fn skip_ignores_untouched_layers() {
    let mut map = ScopeMap::new();
    map.define("k", 10);
    map.push_layer();
    map.push_layer();
    map.define("k", 30);
    // the middle layer never rebound `k`, so one skip reaches the base layer,
    // and skipping past the untouched layer still shows the same binding
    assert_eq!(Some(&30), map.get_parent(&"k", 0));
    assert_eq!(Some(&10), map.get_parent(&"k", 1));
    assert_eq!(Some(&10), map.get_parent(&"k", 2));
    assert_eq!(None, map.get_parent(&"k", 3));
}

#[test]
fn scoped_delete() {
    let mut map = ScopeMap::new();
    map.define("k", 1);
    map.push_layer();
    map.define("k", 2);
    assert_eq!(true, map.delete("k"));
    assert_eq!(Some(&1), map.get(&"k"));
    assert_eq!(false, map.delete("k"));
    assert_eq!(Some(&1), map.get(&"k"));
}

#[test]
fn top_only_containment() {
    let mut map = ScopeMap::new();
    map.define("k", 1);
    map.push_layer();
    assert_eq!(true, map.contains_key(&"k"));
    assert_eq!(false, map.contains_key_at_top(&"k"));
    map.define("k", 2);
    assert_eq!(true, map.contains_key_at_top(&"k"));
}

#[test]
fn idempotent_redefinition() {
    let mut map = ScopeMap::new();
    map.define("k", 1);
    map.push_layer();
    map.define("k", 2);
    assert_eq!(Some(0), map.depth_of(&"k"));
    map.define("k", 3);
    // redefining within the same layer changes the value, not the depth
    assert_eq!(Some(0), map.depth_of(&"k"));
    assert_eq!(Some(&3), map.get(&"k"));
    // only one shadowed binding exists: the base layer's
    assert_eq!(Some(&1), map.get_parent(&"k", 1));
    assert_eq!(None, map.get_parent(&"k", 2));
    map.pop_layer();
    assert_eq!(Some(&1), map.get(&"k"));
}

#[test]
fn clear_top_vs_pop_layer() {
    let mut map = ScopeMap::new();
    map.define("a", 1);
    map.push_layer();
    map.define("b", 2);
    map.clear_top();
    assert_eq!(2, map.depth());
    assert_eq!(false, map.contains_key(&"b"));
    assert_eq!(true, map.contains_key(&"a"));
    // a later definition still lands in the same, now-empty layer
    map.define("c", 3);
    assert_eq!(true, map.contains_key_at_top(&"c"));
    assert_eq!(2, map.depth());
}

#[test]
fn clear_all_reset() {
    let mut map = ScopeMap::new();
    map.define("a", 1);
    map.push_layer();
    map.define("b", 2);
    map.define("a", 3);
    map.push_layer();
    map.delete("zzz");
    map.clear_all();
    assert_eq!(1, map.depth());
    assert_eq!(0, map.len());
    assert!(map.is_empty());
    assert_eq!(None, map.get(&"a"));
    assert_eq!(None, map.depth_of(&"b"));
}

#[test]
fn revived_key_counts_once() {
    let mut map = ScopeMap::new();
    map.define("k", 1);
    map.delete("k");
    assert_eq!(0, map.len());
    assert!(map.is_empty());
    map.define("k", 2);
    assert_eq!(1, map.len());
    assert_eq!(Some(&2), map.get(&"k"));
}

#[test]
fn get_parent_mut_updates_shadowed_binding() {
    let mut map = ScopeMap::new();
    map.define("k", 1);
    map.push_layer();
    map.define("k", 2);
    if let Some(v) = map.get_parent_mut(&"k", 1) {
        *v = 7;
    }
    assert_eq!(Some(&2), map.get(&"k"));
    map.pop_layer();
    assert_eq!(Some(&7), map.get(&"k"));
}

#[test]
fn get_parent_mut_out_of_range() {
    let mut map = ScopeMap::new();
    map.define("k", 1);
    assert_eq!(None, map.get_parent_mut(&"k", 1));
    assert_eq!(None, map.get_parent_mut(&"missing", 0));
}

/// A reference model: one vector of owned `(key, value)` bindings per layer.
struct RefLayers {
    layers: Vec<Vec<(&'static str, i32)>>,
}

impl RefLayers {
    fn new() -> RefLayers {
        RefLayers { layers: vec![Vec::new()] }
    }

    fn define(&mut self, k: &'static str, v: i32) {
        let top = self.layers.last_mut().unwrap();
        for slot in top.iter_mut() {
            if slot.0 == k {
                slot.1 = v;
                return;
            }
        }
        top.push((k, v));
    }

    fn delete(&mut self, k: &'static str) -> bool {
        let top = self.layers.last_mut().unwrap();
        let before = top.len();
        top.retain(|slot| slot.0 != k);
        top.len() != before
    }

    fn push_layer(&mut self) {
        self.layers.push(Vec::new());
    }

    fn pop_layer(&mut self) -> bool {
        if self.layers.len() > 1 {
            self.layers.pop();
            true
        } else {
            false
        }
    }

    fn clear_top(&mut self) {
        self.layers.last_mut().unwrap().clear();
    }

    fn get(&self, k: &str) -> Option<i32> {
        for layer in self.layers.iter().rev() {
            for slot in layer {
                if slot.0 == k {
                    return Some(slot.1);
                }
            }
        }
        None
    }

    fn len(&self) -> usize {
        let mut keys: Vec<&str> = Vec::new();
        for layer in &self.layers {
            for slot in layer {
                if !keys.contains(&slot.0) {
                    keys.push(slot.0);
                }
            }
        }
        keys.len()
    }
}

#[test]
fn len_accuracy_under_mixed_operations() {
    const KEYS: [&str; 5] = ["a", "b", "c", "d", "e"];
    let mut map: ScopeMap<&str, i32> = ScopeMap::new();
    let mut model = RefLayers::new();
    let mut x: u64 = 0x2545f4914f6cdd1d;
    for step in 0..600 {
        x = x.wrapping_mul(6364136223846793005).wrapping_add(1442695040888963407);
        let op = (x >> 33) % 8;
        let key = KEYS[((x >> 17) % KEYS.len() as u64) as usize];
        let val = (x >> 7) as i32 % 1000;
        match op {
            0 | 1 | 2 => {
                map.define(key, val);
                model.define(key, val);
            }
            3 => {
                assert_eq!(model.delete(key), map.delete(key), "delete at step {step}");
            }
            4 => {
                map.push_layer();
                model.push_layer();
            }
            5 => {
                assert_eq!(model.pop_layer(), map.pop_layer(), "pop at step {step}");
            }
            6 => {
                map.clear_top();
                model.clear_top();
            }
            _ => {
                map.define(key, val);
                model.define(key, val);
            }
        }
        assert_eq!(model.len(), map.len(), "len at step {step}");
        assert_eq!(model.layers.len(), map.depth(), "depth at step {step}");
        for k in KEYS {
            assert_eq!(model.get(k), map.get(&k).copied(), "get {k} at step {step}");
            assert_eq!(model.get(k).is_some(), map.contains_key(&k), "contains {k} at step {step}");
        }
    }
}
