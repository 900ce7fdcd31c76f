//! Scoping laws: how the layered-map model behaves across sequences of
//! operations. Each law is stated over the abstract model (see [`crate::view`])
//! that the executable methods' contracts are written against.

use vstd::prelude::*;

use crate::view::{
    binding_depth, initial, lemma_lookup_below_none, lookup, lookup_below, visible,
    visible_at_top, visible_keys, with_binding, with_new_layer, with_top_cleared,
    without_binding,
};

verus! {

/// Shadow and restore: after defining a key, pushing a layer, and defining
/// the key again, the inner binding is the one visible; popping the layer
/// restores the outer binding.
pub proof fn lemma_shadow_and_restore<K, V>(s: Seq<Map<K, V>>, k: K, v1: V, v2: V)
    requires
        s.len() >= 1,
    ensures
        ({
            let s1 = with_binding(s, k, v1);
            let s2 = with_new_layer(s1);
            let s3 = with_binding(s2, k, v2);
            &&& lookup(s3, k) == Some(v2)
            &&& s3.drop_last() == s1
            &&& lookup(s1, k) == Some(v1)
        }),
{
    let s1 = with_binding(s, k, v1);
    let s2 = with_new_layer(s1);
    let s3 = with_binding(s2, k, v2);
    assert(s3.drop_last() =~= s1);
    assert(s1[s1.len() - 1].dom().contains(k));
    assert(s3[s3.len() - 1].dom().contains(k));
}

/// Skip semantics: with a key rebound by each of three nested layers, the
/// parent lookups walk the shadowed bindings innermost-outward and run out
/// exactly after the outermost one.
pub proof fn lemma_skip_visibility<K, V>(s: Seq<Map<K, V>>, k: K, v1: V, v2: V, v3: V)
    requires
        s.len() >= 1,
        !visible(s, k),
    ensures
        ({
            let s3 = with_binding(
                with_new_layer(with_binding(with_new_layer(with_binding(s, k, v1)), k, v2)),
                k,
                v3,
            );
            &&& lookup_below(s3, k, s3.len() as int) == Some(v3)
            &&& lookup_below(s3, k, s3.len() - 1) == Some(v2)
            &&& lookup_below(s3, k, s3.len() - 2) == Some(v1)
            &&& lookup_below(s3, k, s3.len() - 3) is None
        }),
{
    let n = s.len() as int;
    let s3 = with_binding(
        with_new_layer(with_binding(with_new_layer(with_binding(s, k, v1)), k, v2)),
        k,
        v3,
    );
    assert(s3.len() == n + 2);
    assert(s3[n + 1].dom().contains(k));
    assert(s3[n].dom().contains(k));
    assert(s3[n - 1].dom().contains(k));
    assert(s3[n - 1][k] == v1);
    assert forall|l: int| 0 <= l < n - 1 implies !(#[trigger] s3[l].dom().contains(k)) by {
        assert(s3[l] == s[l]);
        assert(!s[l].dom().contains(k));
    }
    lemma_lookup_below_none(s3, k, n - 1);
}

/// Scoped delete: deleting an inner redefinition succeeds, restores the
/// outer binding, and deleting again at the same layer is a no-op.
pub proof fn lemma_scoped_delete<K, V>(s: Seq<Map<K, V>>, k: K, v0: V, v1: V)
    requires
        s.len() >= 1,
    ensures
        ({
            let s1 = with_binding(s, k, v0);
            let s3 = with_binding(with_new_layer(s1), k, v1);
            let s4 = without_binding(s3, k);
            &&& visible_at_top(s3, k)
            &&& lookup(s4, k) == Some(v0)
            &&& !visible_at_top(s4, k)
            &&& without_binding(s4, k) == s4
        }),
{
    let s1 = with_binding(s, k, v0);
    let s3 = with_binding(with_new_layer(s1), k, v1);
    let s4 = without_binding(s3, k);
    assert(s3[s3.len() - 1].dom().contains(k));
    assert(!s4[s4.len() - 1].dom().contains(k));
    assert(s4[s4.len() - 2].dom().contains(k));
    assert(s4[s4.len() - 2][k] == v0);
    assert(lookup_below(s4, k, s4.len() as int) == lookup_below(s4, k, s4.len() - 1));
    assert(lookup_below(s4, k, s4.len() - 1) == Some(v0));
    assert(s4[s4.len() - 1].remove(k) =~= s4[s4.len() - 1]);
    assert(without_binding(s4, k) =~= s4);
}

/// Top-only containment: a key defined below a freshly pushed layer is
/// contained in the map but not at the top layer.
pub proof fn lemma_top_only_containment<K, V>(s: Seq<Map<K, V>>, k: K, v: V)
    requires
        s.len() >= 1,
    ensures
        ({
            let s2 = with_new_layer(with_binding(s, k, v));
            &&& visible(s2, k)
            &&& !visible_at_top(s2, k)
        }),
{
    let s2 = with_new_layer(with_binding(s, k, v));
    assert(s2[s.len() - 1].dom().contains(k));
}

/// Idempotent redefinition: defining a key twice in the same layer is the
/// same as defining it once with the second value, and either way the key's
/// most recent binding stays at depth zero.
pub proof fn lemma_idempotent_redefinition<K, V>(s: Seq<Map<K, V>>, k: K, v1: V, v2: V)
    requires
        s.len() >= 1,
    ensures
        with_binding(with_binding(s, k, v1), k, v2) == with_binding(s, k, v2),
        binding_depth(with_binding(s, k, v1), k) == Some(0int),
        binding_depth(with_binding(s, k, v2), k) == Some(0int),
{
    assert(with_binding(with_binding(s, k, v1), k, v2) =~~= with_binding(s, k, v2));
    assert(with_binding(s, k, v1).last().dom().contains(k));
    assert(with_binding(s, k, v2).last().dom().contains(k));
}

/// Clearing the top layer keeps the layer itself: the depth is unchanged,
/// the layer is empty, and a subsequent definition lands in that same layer.
pub proof fn lemma_clear_top_keeps_layer<K, V>(s: Seq<Map<K, V>>, k: K, v: V)
    requires
        s.len() >= 1,
    ensures
        ({
            let c = with_top_cleared(s);
            &&& c.len() == s.len()
            &&& c.last() == Map::<K, V>::empty()
            &&& with_binding(c, k, v) == s.update(s.len() - 1, Map::<K, V>::empty().insert(k, v))
        }),
{
    let c = with_top_cleared(s);
    assert(with_binding(c, k, v) =~= s.update(s.len() - 1, Map::<K, V>::empty().insert(k, v)));
}

/// A freshly constructed (or fully cleared) map has a single layer, binds
/// nothing, and contains no keys.
pub proof fn lemma_initial_is_empty<K, V>()
    ensures
        initial::<K, V>().len() == 1,
        forall|k: K| !(#[trigger] visible(initial::<K, V>(), k)),
        forall|k: K| #[trigger] lookup(initial::<K, V>(), k) is None,
        visible_keys(initial::<K, V>()) == Set::<K>::empty(),
{
    let s = initial::<K, V>();
    assert forall|k: K| !(#[trigger] visible(s, k)) by {
        if visible(s, k) {
            let l = choose|l: int| 0 <= l < s.len() && (#[trigger] s[l].dom().contains(k));
            assert(s[l] == Map::<K, V>::empty());
            assert(false);
        }
    }
    assert forall|k: K| #[trigger] lookup(s, k) is None by {
        lemma_lookup_below_none(s, k, s.len() as int);
    }
    assert(visible_keys(s) =~= Set::<K>::empty());
}

} // verus!
