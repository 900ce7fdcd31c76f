//! A layered hash set for representing scoped variables.

use std::collections::hash_map::RandomState;
use std::hash::BuildHasher;
use std::hash::Hash;
use vstd::laws_eq::obeys_concrete_eq;
use vstd::prelude::*;

use crate::map::ScopeMap;
use crate::view::{visible, visible_at_top, visible_keys};

verus! {

/// A layered set for scoped membership: a [`ScopeMap`] with no value
/// channel. Every operation forwards to the underlying map.
///
/// Abstractly (see the [`View`] impl), the set is a sequence of plain sets,
/// one per layer, innermost last: each layer holds exactly the members that
/// this layer owns.
#[derive(Clone)]
pub struct ScopeSet<T, S = RandomState> {
    map: ScopeMap<T, (), S>,
}

/// The per-layer member sets of a layered map's model.
pub open spec fn layer_doms<T>(ms: Seq<Map<T, ()>>) -> Seq<Set<T>> {
    ms.map_values(|m: Map<T, ()>| m.dom())
}

/// The model of a freshly constructed set: a single empty base layer.
pub open spec fn set_initial<T>() -> Seq<Set<T>> {
    seq![Set::empty()]
}

/// The model after adding `k` to the innermost layer.
pub open spec fn with_member<T>(s: Seq<Set<T>>, k: T) -> Seq<Set<T>> {
    s.update(s.len() - 1, s.last().insert(k))
}

/// The model after removing the innermost layer's own membership of `k`.
pub open spec fn without_member<T>(s: Seq<Set<T>>, k: T) -> Seq<Set<T>> {
    s.update(s.len() - 1, s.last().remove(k))
}

/// The model after emptying the innermost layer, keeping it in place.
pub open spec fn with_cleared_top<T>(s: Seq<Set<T>>) -> Seq<Set<T>> {
    s.update(s.len() - 1, Set::empty())
}

/// Whether some active layer holds `k`.
pub open spec fn member_visible<T>(s: Seq<Set<T>>, k: T) -> bool {
    exists|l: int| 0 <= l < s.len() && (#[trigger] s[l].contains(k))
}

/// Whether the innermost layer itself holds `k`.
pub open spec fn member_at_top<T>(s: Seq<Set<T>>, k: T) -> bool {
    s.last().contains(k)
}

/// The members visible from any layer.
pub open spec fn members<T>(s: Seq<Set<T>>) -> Set<T> {
    Set::new(|k: T| member_visible(s, k))
}

impl<T, S> ScopeSet<T, S> {
    /// The internal invariant: the underlying map's invariant.
    pub closed spec fn wf(self) -> bool {
        self.map.wf()
    }

    /// The capacity hint the set was configured with.
    pub closed spec fn spec_capacity(self) -> int {
        self.map.spec_capacity()
    }
}

impl<T, S> View for ScopeSet<T, S> {
    type V = Seq<Set<T>>;

    closed spec fn view(&self) -> Seq<Set<T>> {
        layer_doms(self.map@)
    }
}

/// A key is visible in the member sets exactly when it is visible in the
/// underlying layered map.
proof fn lemma_member_visible<T>(ms: Seq<Map<T, ()>>, k: T)
    ensures
        member_visible(layer_doms(ms), k) <==> visible(ms, k),
{
    let s = layer_doms(ms);
    if member_visible(s, k) {
        let l = choose|l: int| 0 <= l < s.len() && (#[trigger] s[l].contains(k));
        assert(ms[l].dom().contains(k));
    }
    if visible(ms, k) {
        let l = choose|l: int| 0 <= l < ms.len() && (#[trigger] ms[l].dom().contains(k));
        assert(s[l].contains(k));
    }
}

/// The visible members are the visible keys of the underlying map.
proof fn lemma_members_are_visible_keys<T>(ms: Seq<Map<T, ()>>)
    ensures
        members(layer_doms(ms)) == visible_keys(ms),
{
    assert forall|k: T| true implies #[trigger] members(layer_doms(ms)).contains(k)
        == visible_keys(ms).contains(k) by {
        lemma_member_visible(ms, k);
    }
    assert(members(layer_doms(ms)) =~= visible_keys(ms));
}

impl<T> ScopeSet<T, RandomState> {
    /// Creates an empty `ScopeSet` with a default hasher and capacity.
    pub fn new() -> (r: ScopeSet<T, RandomState>)
        ensures
            r.wf(),
            r@ == set_initial::<T>(),
            r.spec_capacity() == 0,
    {
        let r = ScopeSet::<T, RandomState> { map: ScopeMap::new() };
        proof {
            assert(r@ =~~= set_initial::<T>());
        }
        r
    }

    /// Creates an empty `ScopeSet` with a default hasher and the specified
    /// capacity.
    pub fn with_capacity(capacity: usize) -> (r: ScopeSet<T, RandomState>)
        ensures
            r.wf(),
            r@ == set_initial::<T>(),
            r.spec_capacity() == capacity,
    {
        let r = ScopeSet::<T, RandomState> { map: ScopeMap::with_capacity(capacity) };
        proof {
            assert(r@ =~~= set_initial::<T>());
        }
        r
    }
}

impl<T, S: BuildHasher> ScopeSet<T, S> {
    /// Creates an empty `ScopeSet` with the specified hasher and a default
    /// capacity.
    pub fn with_hasher(hash_builder: S) -> (r: Self)
        ensures
            r.wf(),
            r@ == set_initial::<T>(),
            r.spec_capacity() == 0,
    {
        let r = ScopeSet { map: ScopeMap::with_hasher(hash_builder) };
        proof {
            assert(r@ =~~= set_initial::<T>());
        }
        r
    }

    /// Creates an empty `ScopeSet` with the specified hasher and capacity.
    pub fn with_capacity_and_hasher(capacity: usize, hash_builder: S) -> (r: Self)
        ensures
            r.wf(),
            r@ == set_initial::<T>(),
            r.spec_capacity() == capacity,
    {
        let r = ScopeSet { map: ScopeMap::with_capacity_and_hasher(capacity, hash_builder) };
        proof {
            assert(r@ =~~= set_initial::<T>());
        }
        r
    }

    /// Returns `true` if the set is empty: no key is a visible member.
    pub fn is_empty(&self) -> (r: bool)
        requires
            self.wf(),
        ensures
            r <==> members(self@) == Set::<T>::empty(),
    {
        proof {
            lemma_members_are_visible_keys(self.map@);
        }
        self.map.is_empty()
    }

    /// Gets the number of elements the set can hold without reallocating.
    pub fn capacity(&self) -> (r: usize)
        requires
            self.wf(),
        ensures
            r == self.spec_capacity(),
    {
        self.map.capacity()
    }

    /// Gets the number of unique keys in the set.
    pub fn len(&self) -> (r: usize)
        requires
            self.wf(),
        ensures
            members(self@).finite(),
            r == members(self@).len(),
    {
        proof {
            lemma_members_are_visible_keys(self.map@);
        }
        self.map.len()
    }

    /// Gets the number of layers in the set.
    pub fn layer_count(&self) -> (r: usize)
        requires
            self.wf(),
        ensures
            r == self@.len(),
    {
        self.map.depth()
    }

    /// The base layer is always present: the set's layer count is at least
    /// one.
    pub proof fn lemma_layer_count_positive(self)
        requires
            self.wf(),
        ensures
            self@.len() >= 1,
    {
        self.map.lemma_depth_positive();
    }

    /// Adds a new, empty layer.
    pub fn push_layer(&mut self)
        requires
            old(self).wf(),
        ensures
            final (self).wf(),
            final (self)@ == old(self)@.push(Set::<T>::empty()),
            final (self).spec_capacity() == old(self).spec_capacity(),
    {
        self.map.push_layer();
        proof {
            assert(self@ =~= old(self)@.push(Set::<T>::empty()));
        }
    }

    /// Removes the topmost layer (if it isn't the bottom layer) and all
    /// associated keys. Returns `true` if a layer was removed.
    pub fn pop_layer(&mut self) -> (r: bool)
        requires
            old(self).wf(),
        ensures
            final (self).wf(),
            final (self).spec_capacity() == old(self).spec_capacity(),
            old(self)@.len() > 1 ==> r == true && final (self)@ == old(self)@.drop_last(),
            old(self)@.len() == 1 ==> r == false && final (self)@ == old(self)@,
    {
        proof {
            old(self).map.lemma_depth_positive();
        }
        let r = self.map.pop_layer();
        proof {
            if old(self)@.len() > 1 {
                assert(self@ =~= old(self)@.drop_last());
            } else {
                assert(self@ =~= old(self)@);
            }
        }
        r
    }
}

impl<T: Eq + Hash, S: BuildHasher> ScopeSet<T, S> {
    /// Removes all elements and additional layers, keeping the allocated
    /// storage.
    pub fn clear_all(&mut self)
        requires
            old(self).wf(),
        ensures
            final (self).wf(),
            final (self).spec_capacity() == old(self).spec_capacity(),
            final (self)@ == set_initial::<T>(),
    {
        self.map.clear_all();
        proof {
            assert(self@ =~~= set_initial::<T>());
        }
    }

    /// Removes all entries in the topmost layer, leaving the layer itself
    /// in place.
    pub fn clear_top(&mut self)
        requires
            old(self).wf(),
        ensures
            final (self).wf(),
            final (self).spec_capacity() == old(self).spec_capacity(),
            final (self)@ == with_cleared_top(old(self)@),
    {
        self.map.clear_top();
        proof {
            old(self).map.lemma_depth_positive();
            assert(self@ =~~= with_cleared_top(old(self)@));
        }
    }

    /// Adds the specified key to the topmost layer.
    pub fn define(&mut self, key: T)
        requires
            old(self).wf(),
            obeys_concrete_eq::<T>(),
        ensures
            final (self).wf(),
            final (self)@ == with_member(old(self)@, key),
            final (self).spec_capacity() >= old(self).spec_capacity(),
    {
        self.map.define(key, ());
        proof {
            old(self).map.lemma_depth_positive();
            assert(self@ =~~= with_member(old(self)@, key));
        }
    }

    /// Removes the specified key from the topmost layer.
    ///
    /// Returns `true` exactly when the topmost layer owned a membership for
    /// this key; an outer layer's membership may remain visible afterward.
    pub fn delete(&mut self, key: T) -> (r: bool)
        requires
            old(self).wf(),
            obeys_concrete_eq::<T>(),
        ensures
            final (self).wf(),
            final (self).spec_capacity() == old(self).spec_capacity(),
            r == member_at_top(old(self)@, key),
            r ==> final (self)@ == without_member(old(self)@, key),
            !r ==> final (self)@ == old(self)@,
    {
        let r = self.map.delete(key);
        proof {
            old(self).map.lemma_depth_positive();
            assert(old(self)@.len() >= 1);
            assert(member_at_top(old(self)@, key) == visible_at_top(old(self).map@, key));
            if r {
                assert(self@ =~~= without_member(old(self)@, key));
            }
        }
        r
    }

    /// Returns `true` if the set contains the specified key in any layer.
    pub fn contains(&self, key: &T) -> (r: bool)
        requires
            self.wf(),
            obeys_concrete_eq::<T>(),
        ensures
            r == member_visible(self@, *key),
    {
        proof {
            lemma_member_visible(self.map@, *key);
        }
        self.map.contains_key(key)
    }

    /// Returns `true` if the set contains the specified key at the top
    /// layer.
    pub fn contains_at_top(&self, key: &T) -> (r: bool)
        requires
            self.wf(),
            obeys_concrete_eq::<T>(),
        ensures
            r == member_at_top(self@, *key),
    {
        proof {
            self.map.lemma_depth_positive();
            assert(self@.len() >= 1);
            assert(member_at_top(self@, *key) == visible_at_top(self.map@, *key));
        }
        self.map.contains_key_at_top(key)
    }
}

impl<T, S: Default + BuildHasher> Default for ScopeSet<T, S> {
    /// Creates a new `ScopeSet` with the default configuration.
    fn default() -> (r: Self)
        ensures
            r.wf(),
            r@ == set_initial::<T>(),
            r.spec_capacity() == 0,
    {
        let r = ScopeSet { map: Default::default() };
        proof {
            assert(r@ =~~= set_initial::<T>());
        }
        r
    }
}

} // verus!
