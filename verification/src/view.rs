//! The abstract model of a layered map: a sequence of partial maps, one per
//! active layer, innermost (most recently pushed) layer last. Each layer's
//! map holds exactly the bindings that this layer owns, so a key shadowed by
//! an inner layer still appears in the outer layer's map.

use vstd::prelude::*;

verus! {

/// The model after binding `k` to `v` in the innermost layer.
pub open spec fn with_binding<K, V>(s: Seq<Map<K, V>>, k: K, v: V) -> Seq<Map<K, V>> {
    s.update(s.len() - 1, s.last().insert(k, v))
}

/// The model after removing the innermost layer's own binding for `k`
/// (bindings owned by outer layers are untouched).
pub open spec fn without_binding<K, V>(s: Seq<Map<K, V>>, k: K) -> Seq<Map<K, V>> {
    s.update(s.len() - 1, s.last().remove(k))
}

/// The model after removing every binding owned by the innermost layer,
/// while keeping the layer itself in place.
pub open spec fn with_top_cleared<K, V>(s: Seq<Map<K, V>>) -> Seq<Map<K, V>> {
    s.update(s.len() - 1, Map::empty())
}

/// The model after pushing a new, empty innermost layer.
pub open spec fn with_new_layer<K, V>(s: Seq<Map<K, V>>) -> Seq<Map<K, V>> {
    s.push(Map::empty())
}

/// The model of a freshly constructed map: a single empty base layer.
pub open spec fn initial<K, V>() -> Seq<Map<K, V>> {
    seq![Map::empty()]
}

/// The binding for `k` that is visible from the innermost of the layers
/// `s[0], ..., s[hi - 1]`: the value owned by the topmost of those layers
/// that binds `k`, or `None` when none of them binds `k`.
pub open spec fn lookup_below<K, V>(s: Seq<Map<K, V>>, k: K, hi: int) -> Option<V>
    decreases hi,
{
    if hi <= 0 {
        None
    } else if s[hi - 1].dom().contains(k) {
        Some(s[hi - 1][k])
    } else {
        lookup_below(s, k, hi - 1)
    }
}

/// The binding for `k` visible from the innermost layer outward.
pub open spec fn lookup<K, V>(s: Seq<Map<K, V>>, k: K) -> Option<V> {
    lookup_below(s, k, s.len() as int)
}

/// Whether some active layer owns a binding for `k`.
pub open spec fn visible<K, V>(s: Seq<Map<K, V>>, k: K) -> bool {
    exists|l: int| 0 <= l < s.len() && (#[trigger] s[l].dom().contains(k))
}

/// Whether the innermost layer itself owns a binding for `k`.
pub open spec fn visible_at_top<K, V>(s: Seq<Map<K, V>>, k: K) -> bool {
    s.last().dom().contains(k)
}

/// The set of keys with a visible binding.
pub open spec fn visible_keys<K, V>(s: Seq<Map<K, V>>) -> Set<K> {
    Set::new(|k: K| visible(s, k))
}

/// How many layers down from the innermost layer the most recent binding for
/// `k` lives: `Some(0)` when the innermost layer owns one, and `None` when no
/// layer does.
pub open spec fn binding_depth<K, V>(s: Seq<Map<K, V>>, k: K) -> Option<int>
    decreases s.len(),
{
    if s.len() == 0 {
        None
    } else if s.last().dom().contains(k) {
        Some(0)
    } else {
        match binding_depth(s.drop_last(), k) {
            Some(d) => Some(d + 1),
            None => None,
        }
    }
}

/// `lookup_below` returns `None` exactly when none of the layers below `hi`
/// binds `k`.
pub proof fn lemma_lookup_below_none<K, V>(s: Seq<Map<K, V>>, k: K, hi: int)
    ensures
        lookup_below(s, k, hi) is None <==> (forall|l: int|
            0 <= l < hi ==> !(#[trigger] s[l].dom().contains(k))),
    decreases hi,
{
    if hi > 0 {
        lemma_lookup_below_none(s, k, hi - 1);
    }
}

/// A key is visible exactly when the innermost-outward lookup finds a value.
pub proof fn lemma_visible_lookup<K, V>(s: Seq<Map<K, V>>, k: K)
    ensures
        visible(s, k) <==> lookup(s, k) is Some,
{
    lemma_lookup_below_none(s, k, s.len() as int);
}

/// `binding_depth` returns `None` exactly when no layer binds the key.
pub proof fn lemma_binding_depth_none<K, V>(s: Seq<Map<K, V>>, k: K)
    ensures
        binding_depth(s, k) is None <==> !visible(s, k),
    decreases s.len(),
{
    if s.len() > 0 {
        lemma_binding_depth_none(s.drop_last(), k);
        assert(s.drop_last() =~= s.subrange(0, s.len() - 1));
        if visible(s, k) && !s.last().dom().contains(k) {
            let l = choose|l: int| 0 <= l < s.len() && (#[trigger] s[l].dom().contains(k));
            assert(s.drop_last()[l] == s[l]);
            assert(visible(s.drop_last(), k));
        }
        if visible(s.drop_last(), k) {
            let l = choose|l: int|
                0 <= l < s.drop_last().len() && (#[trigger] s.drop_last()[l].dom().contains(k));
            assert(s[l] == s.drop_last()[l]);
            assert(visible(s, k));
        }
    }
}

/// `binding_depth` returns `Some(d)` exactly for the distance from the
/// innermost layer to the topmost layer binding the key.
pub proof fn lemma_binding_depth_some<K, V>(s: Seq<Map<K, V>>, k: K, d: int)
    requires
        0 <= d < s.len(),
        s[s.len() - 1 - d].dom().contains(k),
        forall|l: int| s.len() - d <= l < s.len() ==> !(#[trigger] s[l].dom().contains(k)),
    ensures
        binding_depth(s, k) == Some(d),
    decreases s.len(),
{
    if d == 0 {
    } else {
        assert(!s[s.len() - 1].dom().contains(k));
        let s2 = s.drop_last();
        assert(s2[s2.len() - 1 - (d - 1)] == s[s.len() - 1 - d]);
        assert forall|l: int| s2.len() - (d - 1) <= l < s2.len() implies !(
        #[trigger] s2[l].dom().contains(k)) by {
            assert(s2[l] == s[l]);
        }
        lemma_binding_depth_some(s2, k, d - 1);
    }
}

} // verus!
