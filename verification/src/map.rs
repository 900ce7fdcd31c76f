//! A layered hash map for representing scoped variables and their values.

use std::collections::hash_map::RandomState;
use std::hash::BuildHasher;
use std::hash::Hash;
use std::marker::PhantomData;
use vstd::prelude::*;

use crate::view::{
    binding_depth, initial, lemma_binding_depth_none, lemma_binding_depth_some,
    lemma_visible_lookup, lookup, lookup_below, visible, visible_at_top, visible_keys,
    with_binding, with_new_layer, with_top_cleared, without_binding,
};
use vstd::laws_eq::obeys_concrete_eq;

verus! {

/// Relies on std::marker::PhantomData's Clone impl: `PhantomData` is a unit
/// marker type, so cloning returns the same (only) value.
pub assume_specification<T>[ <PhantomData<T> as Clone>::clone ](v: &PhantomData<T>) -> (r:
    PhantomData<T>)
    where T: core::marker::PointeeSized
    ensures
        r == *v,
;

/// One dictionary slot: a key together with the ordered history of its
/// bindings across the layers that currently bind it, most recent last.
#[derive(Clone)]
struct Entry<K, V> {
    key: K,
    stack: Vec<V>,
}

/// A layered map for scoped bindings.
///
/// The map owns a dictionary from keys to per-key value stacks, plus a
/// parallel stack of layer-membership sets recording, per active layer, the
/// dictionary slots that were (re)defined there. A slot whose stack has been
/// fully unwound is kept (logically absent) so that the slot indices stored
/// in the membership sets stay stable.
///
/// Abstractly (see the [`View`] impl), the map is a sequence of partial
/// maps, one per layer, innermost last: each layer's map holds exactly the
/// bindings that this layer owns.
#[derive(Clone)]
pub struct ScopeMap<K, V, S = RandomState> {
    entries: Vec<Entry<K, V>>,
    layers: Vec<Vec<usize>>,
    empty_key_count: usize,
    cap: usize,
    marker: PhantomData<S>,
}

/// How many of the layers `ls[lo], ..., ls[hi - 1]` record slot `i` as their
/// own.
spec fn owners_in(ls: Seq<Seq<usize>>, i: usize, lo: int, hi: int) -> int
    decreases hi - lo,
{
    if hi <= lo {
        0
    } else {
        owners_in(ls, i, lo, hi - 1) + (if ls[hi - 1].contains(i) {
            1int
        } else {
            0int
        })
    }
}

/// The topmost layer below `hi` that records slot `i`, or `-1` when none
/// does.
spec fn top_owner_below(ls: Seq<Seq<usize>>, i: usize, hi: int) -> int
    decreases hi,
{
    if hi <= 0 {
        -1
    } else if ls[hi - 1].contains(i) {
        hi - 1
    } else {
        top_owner_below(ls, i, hi - 1)
    }
}

/// How many slots among `es` have a fully unwound (empty) stack.
spec fn count_empty<K, V>(es: Seq<Entry<K, V>>) -> int
    decreases es.len(),
{
    if es.len() == 0 {
        0
    } else {
        count_empty(es.drop_last()) + (if es.last().stack@.len() == 0 {
            1int
        } else {
            0int
        })
    }
}

/// The keys held by the slots, in slot order.
spec fn keys_of<K, V>(es: Seq<Entry<K, V>>) -> Seq<K> {
    es.map_values(|e: Entry<K, V>| e.key)
}

/// Whether position `i` of the key sequence `ks` holds `k`.
spec fn slot_with_key<K>(ks: Seq<K>, k: K, i: int) -> bool {
    0 <= i < ks.len() && ks[i] == k
}

/// Whether some slot holds key `k`.
spec fn has_key<K>(ks: Seq<K>, k: K) -> bool {
    exists|i: int| slot_with_key(ks, k, i)
}

/// The slot index holding key `k` (unique under `distinct_keys`).
spec fn slot_of<K>(ks: Seq<K>, k: K) -> int {
    choose|i: int| slot_with_key(ks, k, i)
}

/// No two slots hold the same key.
spec fn distinct_keys<K>(ks: Seq<K>) -> bool {
    forall|i: int, j: int| 0 <= i < j < ks.len() ==> ks[i] != ks[j]
}

/// Whether slot `i` holds key `k` and is recorded by layer `ls[l]`.
spec fn owner_slot<K>(ks: Seq<K>, ls: Seq<Seq<usize>>, l: int, i: int, k: K) -> bool {
    slot_with_key(ks, k, i) && ls[l].contains(i as usize)
}

/// The bindings owned by layer `l`: the keys of the slots that `ls[l]`
/// records, each mapped to the stack position that layer `l` pushed, which
/// sits above the positions pushed by the owning layers below `l`.
spec fn layer_map_of<K, V>(es: Seq<Entry<K, V>>, ls: Seq<Seq<usize>>, l: int) -> Map<K, V> {
    Map::new(
        |k: K| exists|i: int| owner_slot(keys_of(es), ls, l, i, k),
        |k: K|
            es[slot_of(keys_of(es), k)].stack@[owners_in(
                ls,
                slot_of(keys_of(es), k) as usize,
                0,
                l,
            )],
    )
}

/// The abstract model of a representation: one partial map per layer.
spec fn view_of<K, V>(es: Seq<Entry<K, V>>, ls: Seq<Seq<usize>>) -> Seq<Map<K, V>> {
    Seq::new(ls.len(), |l: int| layer_map_of(es, ls, l))
}

/// The representation invariant: at least the base layer exists; membership
/// sets hold distinct, in-range slot indices; each slot's stack holds one
/// value per owning layer; and keys are pairwise distinct.
spec fn wf_rep<K, V>(es: Seq<Entry<K, V>>, ls: Seq<Seq<usize>>) -> bool {
    &&& ls.len() >= 1
    &&& forall|l: int, j: int|
        0 <= l < ls.len() && 0 <= j < ls[l].len() ==> (#[trigger] ls[l][j]) < es.len()
    &&& forall|l: int| 0 <= l < ls.len() ==> (#[trigger] ls[l]).no_duplicates()
    &&& forall|i: int|
        0 <= i < es.len() ==> (#[trigger] es[i].stack@).len() == owners_in(
            ls,
            i as usize,
            0,
            ls.len() as int,
        )
    &&& distinct_keys(keys_of(es))
}

impl<K, V, S> ScopeMap<K, V, S> {
    /// The membership sets, as plain sequences of slot indices.
    spec fn layer_views(self) -> Seq<Seq<usize>> {
        self.layers@.map_values(|layer: Vec<usize>| layer@)
    }

    /// The internal invariant: the representation invariant, plus an
    /// accurate cached count of fully unwound slots, plus the capacity bound
    /// covering the slots in use.
    pub closed spec fn wf(self) -> bool {
        &&& wf_rep(self.entries@, self.layer_views())
        &&& self.empty_key_count == count_empty(self.entries@)
        &&& self.entries@.len() <= self.cap
    }

    /// The capacity hint the map was configured with (grown to cover the
    /// slots actually in use).
    pub closed spec fn spec_capacity(self) -> int {
        self.cap as int
    }
}

impl<K, V, S> View for ScopeMap<K, V, S> {
    type V = Seq<Map<K, V>>;

    closed spec fn view(&self) -> Seq<Map<K, V>> {
        view_of(self.entries@, self.layer_views())
    }
}

/// Two membership-set sequences that agree below `hi` record the same owner
/// counts there.
proof fn lemma_owners_in_agree(
    ls1: Seq<Seq<usize>>,
    ls2: Seq<Seq<usize>>,
    i: usize,
    lo: int,
    hi: int,
)
    requires
        forall|l: int| lo <= l < hi ==> ls1[l] == ls2[l],
    ensures
        owners_in(ls1, i, lo, hi) == owners_in(ls2, i, lo, hi),
    decreases hi - lo,
{
    if hi > lo {
        lemma_owners_in_agree(ls1, ls2, i, lo, hi - 1);
    }
}

/// Owner counts over adjacent ranges add up.
proof fn lemma_owners_in_split(ls: Seq<Seq<usize>>, i: usize, lo: int, mid: int, hi: int)
    requires
        lo <= mid <= hi,
    ensures
        owners_in(ls, i, lo, hi) == owners_in(ls, i, lo, mid) + owners_in(ls, i, mid, hi),
    decreases hi - mid,
{
    if hi > mid {
        lemma_owners_in_split(ls, i, lo, mid, hi - 1);
    }
}

/// Owner counts are non-negative and bounded by the range length.
proof fn lemma_owners_in_bounds(ls: Seq<Seq<usize>>, i: usize, lo: int, hi: int)
    ensures
        0 <= owners_in(ls, i, lo, hi),
        hi >= lo ==> owners_in(ls, i, lo, hi) <= hi - lo,
    decreases hi - lo,
{
    if hi > lo {
        lemma_owners_in_bounds(ls, i, lo, hi - 1);
    }
}

/// When some layer below `hi` records slot `i`, the topmost such layer
/// exists, no layer above it (below `hi`) records `i`, and exactly the
/// owners up to and including it are counted.
proof fn lemma_top_owner(ls: Seq<Seq<usize>>, i: usize, hi: int)
    requires
        owners_in(ls, i, 0, hi) > 0,
    ensures
        0 <= top_owner_below(ls, i, hi) < hi,
        ls[top_owner_below(ls, i, hi)].contains(i),
        forall|l: int| top_owner_below(ls, i, hi) < l < hi ==> !(#[trigger] ls[l]).contains(i),
        owners_in(ls, i, 0, top_owner_below(ls, i, hi)) == owners_in(ls, i, 0, hi) - 1,
    decreases hi,
{
    if hi > 0 {
        if !ls[hi - 1].contains(i) {
            lemma_top_owner(ls, i, hi - 1);
        }
    }
}

/// The cached empty-slot count is non-negative and at most the slot count.
proof fn lemma_count_empty_bounds<K, V>(es: Seq<Entry<K, V>>)
    ensures
        0 <= count_empty(es) <= es.len(),
    decreases es.len(),
{
    if es.len() > 0 {
        lemma_count_empty_bounds(es.drop_last());
    }
}

/// A slot with an empty stack contributes to the empty-slot count.
proof fn lemma_count_empty_pos<K, V>(es: Seq<Entry<K, V>>, i: int)
    requires
        0 <= i < es.len(),
        es[i].stack@.len() == 0,
    ensures
        count_empty(es) >= 1,
    decreases es.len(),
{
    lemma_count_empty_bounds(es.drop_last());
    if i < es.len() - 1 {
        lemma_count_empty_pos(es.drop_last(), i);
    }
}

/// Changing a single slot changes the empty-slot count by the difference
/// the two slot states contribute.
proof fn lemma_count_empty_update<K, V>(es1: Seq<Entry<K, V>>, es2: Seq<Entry<K, V>>, i: int)
    requires
        es1.len() == es2.len(),
        0 <= i < es1.len(),
        forall|j: int| 0 <= j < es1.len() && j != i ==> es1[j] == es2[j],
    ensures
        count_empty(es2) == count_empty(es1) + (if es2[i].stack@.len() == 0 {
            1int
        } else {
            0int
        }) - (if es1[i].stack@.len() == 0 {
            1int
        } else {
            0int
        }),
    decreases es1.len(),
{
    if i == es1.len() - 1 {
        assert(es1.drop_last() =~= es2.drop_last());
    } else {
        lemma_count_empty_update(es1.drop_last(), es2.drop_last(), i);
    }
}

/// Appending a slot adds its own contribution to the empty-slot count.
proof fn lemma_count_empty_push<K, V>(es: Seq<Entry<K, V>>, e: Entry<K, V>)
    ensures
        count_empty(es.push(e)) == count_empty(es) + (if e.stack@.len() == 0 {
            1int
        } else {
            0int
        }),
{
    assert(es.push(e).drop_last() =~= es);
    assert(es.push(e).last() == e);
}

/// Under key distinctness, `slot_of` returns the one slot holding the key.
proof fn lemma_slot_of_unique<K>(ks: Seq<K>, k: K, i: int)
    requires
        distinct_keys(ks),
        slot_with_key(ks, k, i),
    ensures
        slot_of(ks, k) == i,
{
    let j = slot_of(ks, k);
    assert(slot_with_key(ks, k, j));
}

/// A layer's bindings depend only on the membership sets up to and
/// including that layer.
proof fn lemma_layer_map_prefix_agree<K, V>(
    es: Seq<Entry<K, V>>,
    ls1: Seq<Seq<usize>>,
    ls2: Seq<Seq<usize>>,
    l: int,
)
    requires
        0 <= l,
        forall|l2: int| 0 <= l2 <= l ==> ls1[l2] == ls2[l2],
    ensures
        layer_map_of(es, ls1, l) == layer_map_of(es, ls2, l),
{
    assert forall|i: usize| true implies owners_in(ls1, i, 0, l) == owners_in(ls2, i, 0, l) by {
        lemma_owners_in_agree(ls1, ls2, i, 0, l);
    }
    let ks = keys_of(es);
    let m1 = layer_map_of(es, ls1, l);
    let m2 = layer_map_of(es, ls2, l);
    assert forall|k: K| m1.dom().contains(k) implies m2.dom().contains(k) by {
        let i = choose|i: int| owner_slot(ks, ls1, l, i, k);
        assert(owner_slot(ks, ls2, l, i, k));
    }
    assert forall|k: K| m2.dom().contains(k) implies m1.dom().contains(k) by {
        let i = choose|i: int| owner_slot(ks, ls2, l, i, k);
        assert(owner_slot(ks, ls1, l, i, k));
    }
    assert(m1 =~= m2);
}

/// A layer's bindings are unchanged between two slot states that keep the
/// keys and agree on every stack position the layer reads.
proof fn lemma_layer_map_stacks_agree<K, V>(
    es1: Seq<Entry<K, V>>,
    es2: Seq<Entry<K, V>>,
    ls: Seq<Seq<usize>>,
    l: int,
)
    requires
        es1.len() == es2.len(),
        keys_of(es1) == keys_of(es2),
        distinct_keys(keys_of(es1)),
        forall|i: int|
            0 <= i < es1.len() && (#[trigger] ls[l].contains(i as usize)) ==> {
                let pos = owners_in(ls, i as usize, 0, l);
                &&& 0 <= pos < es1[i].stack@.len()
                &&& pos < es2[i].stack@.len()
                &&& es1[i].stack@[pos] == es2[i].stack@[pos]
            },
    ensures
        layer_map_of(es1, ls, l) == layer_map_of(es2, ls, l),
{
    let ks = keys_of(es1);
    let m1 = layer_map_of(es1, ls, l);
    let m2 = layer_map_of(es2, ls, l);
    assert forall|k: K| m1.dom().contains(k) implies m1[k] == m2[k] by {
        let i = choose|i: int| owner_slot(ks, ls, l, i, k);
        lemma_slot_of_unique(ks, k, i);
        assert(ks.len() == es1.len());
    }
    assert(m1 =~= m2);
}

/// For a slot holding key `k`, the binding visible below `hi` sits at the
/// stack position counting the owning layers below `hi`; when no layer
/// below `hi` owns the slot, nothing is visible there.
proof fn lemma_lookup_is_stack<K, V>(
    es: Seq<Entry<K, V>>,
    ls: Seq<Seq<usize>>,
    k: K,
    i: int,
    hi: int,
)
    requires
        wf_rep(es, ls),
        0 <= hi <= ls.len(),
        slot_with_key(keys_of(es), k, i),
    ensures
        owners_in(ls, i as usize, 0, hi) > 0 ==> lookup_below(view_of(es, ls), k, hi) == Some(
            es[i].stack@[owners_in(ls, i as usize, 0, hi) - 1],
        ),
        owners_in(ls, i as usize, 0, hi) <= 0 ==> lookup_below(view_of(es, ls), k, hi) is None,
    decreases hi,
{
    let s = view_of(es, ls);
    let ks = keys_of(es);
    let iu = i as usize;
    if hi > 0 {
        lemma_lookup_is_stack(es, ls, k, i, hi - 1);
        if ls[hi - 1].contains(iu) {
            lemma_owners_in_bounds(ls, iu, 0, hi - 1);
            assert(owner_slot(ks, ls, hi - 1, i, k));
            assert(s[hi - 1].dom().contains(k));
            lemma_slot_of_unique(ks, k, i);
            assert(s[hi - 1][k] == es[i].stack@[owners_in(ls, iu, 0, hi - 1)]);
        } else {
            if s[hi - 1].dom().contains(k) {
                let lt = hi - 1;
                let j = choose|j: int| owner_slot(ks, ls, lt, j, k);
                assert(ks[j] == k && ks[i] == k);
                assert(j == i);
                assert(false);
            }
        }
    }
}

/// When no slot holds key `k`, nothing is visible for `k` in any layer.
proof fn lemma_lookup_no_slot<K, V>(es: Seq<Entry<K, V>>, ls: Seq<Seq<usize>>, k: K, hi: int)
    requires
        hi <= ls.len(),
        !has_key(keys_of(es), k),
    ensures
        lookup_below(view_of(es, ls), k, hi) is None,
    decreases hi,
{
    let s = view_of(es, ls);
    if hi > 0 {
        lemma_lookup_no_slot(es, ls, k, hi - 1);
        if s[hi - 1].dom().contains(k) {
            let lt = hi - 1;
            let j = choose|j: int| owner_slot(keys_of(es), ls, lt, j, k);
            assert(slot_with_key(keys_of(es), k, j));
            assert(false);
        }
    }
}

impl<K, V> ScopeMap<K, V, RandomState> {
    /// Creates an empty `ScopeMap` with a default hasher and capacity.
    pub fn new() -> (r: ScopeMap<K, V, RandomState>)
        ensures
            r.wf(),
            r@ == initial::<K, V>(),
            r.spec_capacity() == 0,
    {
        let mut layers: Vec<Vec<usize>> = Vec::new();
        layers.push(Vec::new());
        let r = ScopeMap {
            entries: Vec::<Entry<K, V>>::new(),
            layers,
            empty_key_count: 0,
            cap: 0,
            marker: PhantomData,
        };
        proof {
            assert(r@ =~~= initial::<K, V>());
        }
        r
    }

    /// Creates an empty `ScopeMap` with a default hasher and the specified
    /// capacity.
    pub fn with_capacity(capacity: usize) -> (r: ScopeMap<K, V, RandomState>)
        ensures
            r.wf(),
            r@ == initial::<K, V>(),
            r.spec_capacity() == capacity,
    {
        let mut layers: Vec<Vec<usize>> = Vec::new();
        layers.push(Vec::new());
        let r = ScopeMap {
            entries: Vec::<Entry<K, V>>::with_capacity(capacity),
            layers,
            empty_key_count: 0,
            cap: capacity,
            marker: PhantomData,
        };
        proof {
            assert(r@ =~~= initial::<K, V>());
        }
        r
    }
}

impl<K, V, S: BuildHasher> ScopeMap<K, V, S> {
    /// Creates an empty `ScopeMap` with the specified hasher and a default
    /// capacity.
    ///
    /// The hash strategy is a constructor-time option with no effect on the
    /// scoping semantics; this implementation resolves keys by equality
    /// alone, so the strategy value is accepted and dropped.
    pub fn with_hasher(hash_builder: S) -> (r: Self)
        ensures
            r.wf(),
            r@ == initial::<K, V>(),
            r.spec_capacity() == 0,
    {
        let _ = hash_builder;
        let mut layers: Vec<Vec<usize>> = Vec::new();
        layers.push(Vec::new());
        let r = ScopeMap {
            entries: Vec::<Entry<K, V>>::new(),
            layers,
            empty_key_count: 0,
            cap: 0,
            marker: PhantomData,
        };
        proof {
            assert(r@ =~~= initial::<K, V>());
        }
        r
    }

    /// Creates an empty `ScopeMap` with the specified hasher and capacity.
    pub fn with_capacity_and_hasher(capacity: usize, hash_builder: S) -> (r: Self)
        ensures
            r.wf(),
            r@ == initial::<K, V>(),
            r.spec_capacity() == capacity,
    {
        let _ = hash_builder;
        let mut layers: Vec<Vec<usize>> = Vec::new();
        layers.push(Vec::new());
        let r = ScopeMap {
            entries: Vec::<Entry<K, V>>::with_capacity(capacity),
            layers,
            empty_key_count: 0,
            cap: capacity,
            marker: PhantomData,
        };
        proof {
            assert(r@ =~~= initial::<K, V>());
        }
        r
    }

    /// Gets the number of elements the map can hold without reallocating.
    pub fn capacity(&self) -> (r: usize)
        requires
            self.wf(),
        ensures
            r == self.spec_capacity(),
    {
        self.cap
    }

    /// Gets the number of layers in the map.
    pub fn depth(&self) -> (r: usize)
        requires
            self.wf(),
        ensures
            r == self@.len(),
    {
        self.layers.len()
    }

    /// Adds a new, empty layer.
    pub fn push_layer(&mut self)
        requires
            old(self).wf(),
        ensures
            final (self).wf(),
            final (self)@ == with_new_layer(old(self)@),
            final (self).spec_capacity() == old(self).spec_capacity(),
    {
        self.layers.push(Vec::new());
        proof {
            let es = self.entries@;
            let ls1 = old(self).layer_views();
            let ls2 = self.layer_views();
            let n = ls1.len() as int;
            assert(ls2 =~= ls1.push(Seq::empty()));
            assert forall|i: int| 0 <= i < es.len() implies (#[trigger] es[i].stack@).len()
                == owners_in(ls2, i as usize, 0, ls2.len() as int) by {
                lemma_owners_in_agree(ls1, ls2, i as usize, 0, n);
                assert(!ls2[n].contains(i as usize));
            }
            assert forall|l: int| 0 <= l < n implies layer_map_of(es, ls2, l) == layer_map_of(
                es,
                ls1,
                l,
            ) by {
                lemma_layer_map_prefix_agree(es, ls2, ls1, l);
            }
            assert(layer_map_of(es, ls2, n) =~= Map::<K, V>::empty());
            assert(self@ =~= with_new_layer(old(self)@));
        }
    }

    /// The base layer is always present: the map's depth is at least one.
    pub proof fn lemma_depth_positive(self)
        requires
            self.wf(),
        ensures
            self@.len() >= 1,
    {
    }
}

/// For a slot holding key `k`, layer `l` binds `k` exactly when its
/// membership set records that slot.
proof fn lemma_layer_dom<K, V>(es: Seq<Entry<K, V>>, ls: Seq<Seq<usize>>, k: K, i: int, l: int)
    requires
        distinct_keys(keys_of(es)),
        slot_with_key(keys_of(es), k, i),
        0 <= l < ls.len(),
    ensures
        view_of(es, ls)[l].dom().contains(k) <==> ls[l].contains(i as usize),
{
    let ks = keys_of(es);
    if ls[l].contains(i as usize) {
        assert(owner_slot(ks, ls, l, i, k));
    }
    if view_of(es, ls)[l].dom().contains(k) {
        let j = choose|j: int| owner_slot(ks, ls, l, j, k);
        assert(ks[j] == k && ks[i] == k);
        assert(j == i);
    }
}

/// When no slot holds key `k`, no layer binds `k`.
proof fn lemma_no_slot_dom<K, V>(es: Seq<Entry<K, V>>, ls: Seq<Seq<usize>>, k: K, l: int)
    requires
        !has_key(keys_of(es), k),
        0 <= l < ls.len(),
    ensures
        !view_of(es, ls)[l].dom().contains(k),
{
    if view_of(es, ls)[l].dom().contains(k) {
        let j = choose|j: int| owner_slot(keys_of(es), ls, l, j, k);
        assert(slot_with_key(keys_of(es), k, j));
    }
}

/// Whether the membership set `layer` records slot index `x`.
fn layer_has_index(layer: &Vec<usize>, x: usize) -> (r: bool)
    ensures
        r == layer@.contains(x),
{
    let mut j: usize = 0;
    while j < layer.len()
        invariant
            j <= layer@.len(),
            forall|t: int| 0 <= t < j ==> layer@[t] != x,
        decreases layer@.len() - j,
    {
        if layer[j] == x {
            return true;
        }
        j += 1;
    }
    false
}

impl<K: Eq + Hash, V, S: BuildHasher> ScopeMap<K, V, S> {
    /// The slot holding the given key, found by scanning the dictionary.
    fn find_index(&self, key: &K) -> (r: Option<usize>)
        requires
            self.wf(),
            obeys_concrete_eq::<K>(),
        ensures
            (match r {
                Some(i) => slot_with_key(keys_of(self.entries@), *key, i as int),
                None => !has_key(keys_of(self.entries@), *key),
            }),
    {
        let mut j: usize = 0;
        while j < self.entries.len()
            invariant
                self.wf(),
                obeys_concrete_eq::<K>(),
                j <= self.entries@.len(),
                forall|t: int| 0 <= t < j ==> keys_of(self.entries@)[t] != *key,
            decreases self.entries@.len() - j,
        {
            let hit = self.entries[j].key == *key;
            proof {
                reveal(obeys_concrete_eq);
                assert(keys_of(self.entries@)[j as int] == self.entries@[j as int].key);
            }
            if hit {
                return Some(j);
            }
            j += 1;
        }
        proof {
            if has_key(keys_of(self.entries@), *key) {
                let i = choose|i: int| slot_with_key(keys_of(self.entries@), *key, i);
                assert(false);
            }
        }
        None
    }

    /// Returns `true` if the map contains the specified key in any layer.
    pub fn contains_key(&self, key: &K) -> (r: bool)
        requires
            self.wf(),
            obeys_concrete_eq::<K>(),
        ensures
            r == visible(self@, *key),
    {
        match self.find_index(key) {
            Some(i) => {
                proof {
                    let es = self.entries@;
                    let ls = self.layer_views();
                    assert(keys_of(es).len() == es.len());
                    lemma_lookup_is_stack(es, ls, *key, i as int, ls.len() as int);
                    lemma_visible_lookup(self@, *key);
                    lemma_owners_in_bounds(ls, i, 0, ls.len() as int);
                }
                self.entries[i].stack.len() > 0
            },
            None => {
                proof {
                    lemma_lookup_no_slot(
                        self.entries@,
                        self.layer_views(),
                        *key,
                        self.layer_views().len() as int,
                    );
                    lemma_visible_lookup(self@, *key);
                }
                false
            },
        }
    }

    /// Returns `true` if the map contains the specified key at the top
    /// layer.
    pub fn contains_key_at_top(&self, key: &K) -> (r: bool)
        requires
            self.wf(),
            obeys_concrete_eq::<K>(),
        ensures
            r == visible_at_top(self@, *key),
    {
        match self.find_index(key) {
            Some(i) => {
                let top = self.layers.len() - 1;
                let r = layer_has_index(&self.layers[top], i);
                proof {
                    lemma_layer_dom(
                        self.entries@,
                        self.layer_views(),
                        *key,
                        i as int,
                        top as int,
                    );
                }
                r
            },
            None => {
                proof {
                    lemma_no_slot_dom(
                        self.entries@,
                        self.layer_views(),
                        *key,
                        self.layer_views().len() - 1,
                    );
                }
                false
            },
        }
    }

    /// Gets a reference to the topmost value associated with a key.
    pub fn get(&self, key: &K) -> (r: Option<&V>)
        requires
            self.wf(),
            obeys_concrete_eq::<K>(),
        ensures
            (match r {
                Some(v) => lookup(self@, *key) == Some(*v),
                None => lookup(self@, *key) is None,
            }),
    {
        match self.find_index(key) {
            Some(i) => {
                proof {
                    let es = self.entries@;
                    let ls = self.layer_views();
                    assert(keys_of(es).len() == es.len());
                    lemma_lookup_is_stack(es, ls, *key, i as int, ls.len() as int);
                    lemma_owners_in_bounds(ls, i, 0, ls.len() as int);
                }
                let stack = &self.entries[i].stack;
                let n = stack.len();
                if n > 0 {
                    Some(&stack[n - 1])
                } else {
                    None
                }
            },
            None => {
                proof {
                    lemma_lookup_no_slot(
                        self.entries@,
                        self.layer_views(),
                        *key,
                        self.layer_views().len() as int,
                    );
                }
                None
            },
        }
    }

    /// Gets a reference to a value `skip_count` layers below the topmost
    /// value associated with a key.
    ///
    /// "Below" counts only the layers that actually rebind this key; when
    /// `skip_count` exceeds the number of shadowed bindings the result is
    /// absent rather than an error.
    pub fn get_parent(&self, key: &K, skip_count: usize) -> (r: Option<&V>)
        requires
            self.wf(),
            obeys_concrete_eq::<K>(),
        ensures
            (match r {
                Some(v) => lookup_below(self@, *key, self@.len() - skip_count) == Some(*v),
                None => lookup_below(self@, *key, self@.len() - skip_count) is None,
            }),
    {
        let i = match self.find_index(key) {
            Some(i) => i,
            None => {
                proof {
                    lemma_lookup_no_slot(
                        self.entries@,
                        self.layer_views(),
                        *key,
                        self@.len() - skip_count,
                    );
                }
                return None;
            },
        };
        let depth = self.layers.len();
        let take = if skip_count < depth {
            skip_count
        } else {
            depth
        };
        let mut cnt: usize = 0;
        let mut t: usize = 0;
        while t < take
            invariant
                self.wf(),
                slot_with_key(keys_of(self.entries@), *key, i as int),
                take <= depth,
                depth == self.layer_views().len(),
                t <= take,
                cnt <= t,
                cnt as int == owners_in(
                    self.layer_views(),
                    i,
                    depth as int - t as int,
                    depth as int,
                ),
            decreases take - t,
        {
            let ghost ls = self.layer_views();
            let ghost lo = depth as int - t as int - 1;
            let owned = layer_has_index(&self.layers[depth - 1 - t], i);
            proof {
                lemma_owners_in_split(ls, i, lo, lo + 1, depth as int);
                assert(owners_in(ls, i, lo, lo) == 0);
            }
            if owned {
                cnt = cnt + 1;
            }
            t = t + 1;
        }
        proof {
            assert(keys_of(self.entries@).len() == self.entries@.len());
        }
        let stack = &self.entries[i].stack;
        let stack_len = stack.len();
        proof {
            let es = self.entries@;
            let ls = self.layer_views();
            let hi = depth as int - take as int;
            lemma_owners_in_split(ls, i, 0, hi, depth as int);
            lemma_owners_in_bounds(ls, i, 0, hi);
            lemma_lookup_is_stack(es, ls, *key, i as int, hi);
        }
        if cnt < stack_len {
            proof {
                if skip_count >= depth {
                    assert(false);
                }
            }
            Some(&stack[stack_len - 1 - cnt])
        } else {
            None
        }
    }

    /// Gets the depth of the specified key: how many layers down from the
    /// current innermost layer its most recent binding lives. A depth of 0
    /// means that the current layer owns the binding; `None` means the key
    /// has no live binding anywhere.
    pub fn depth_of(&self, key: &K) -> (r: Option<usize>)
        requires
            self.wf(),
            obeys_concrete_eq::<K>(),
        ensures
            (match r {
                Some(d) => binding_depth(self@, *key) == Some(d as int),
                None => binding_depth(self@, *key) is None,
            }),
    {
        let i = match self.find_index(key) {
            Some(i) => i,
            None => {
                proof {
                    assert forall|l: int| 0 <= l < self@.len() implies !(
                    #[trigger] self@[l].dom().contains(*key)) by {
                        lemma_no_slot_dom(self.entries@, self.layer_views(), *key, l);
                    }
                    lemma_binding_depth_none(self@, *key);
                }
                return None;
            },
        };
        let depth = self.layers.len();
        let mut d: usize = 0;
        while d < depth
            invariant
                self.wf(),
                obeys_concrete_eq::<K>(),
                slot_with_key(keys_of(self.entries@), *key, i as int),
                depth == self.layer_views().len(),
                d <= depth,
                forall|l: int|
                    depth - d <= l < depth ==> !(#[trigger] self.layer_views()[l]).contains(i),
            decreases depth - d,
        {
            let owned = layer_has_index(&self.layers[depth - 1 - d], i);
            if owned {
                proof {
                    let es = self.entries@;
                    let ls = self.layer_views();
                    lemma_layer_dom(es, ls, *key, i as int, depth - 1 - d);
                    assert forall|l: int| depth - d <= l < depth implies !(
                    #[trigger] self@[l].dom().contains(*key)) by {
                        lemma_layer_dom(es, ls, *key, i as int, l);
                    }
                    lemma_binding_depth_some(self@, *key, d as int);
                }
                return Some(d);
            }
            d = d + 1;
        }
        proof {
            assert forall|l: int| 0 <= l < self@.len() implies !(
            #[trigger] self@[l].dom().contains(*key)) by {
                lemma_layer_dom(self.entries@, self.layer_views(), *key, i as int, l);
            }
            lemma_binding_depth_none(self@, *key);
        }
        None
    }
}

/// Membership after appending one index.
proof fn lemma_push_contains(s: Seq<usize>, y: usize, x: usize)
    ensures
        s.push(y).contains(x) <==> (s.contains(x) || x == y),
{
    if s.push(y).contains(x) {
        let t = choose|t: int| 0 <= t < s.push(y).len() && s.push(y)[t] == x;
        if t < s.len() {
            assert(s[t] == x);
        }
    }
    if s.contains(x) {
        let t = choose|t: int| 0 <= t < s.len() && s[t] == x;
        assert(s.push(y)[t] == x);
    }
    if x == y {
        assert(s.push(y)[s.len() as int] == x);
    }
}

impl<K, V, S> ScopeMap<K, V, S> {
    /// Pops one binding off each of the given slots' stacks, keeping the
    /// cached empty-slot count accurate: the unwinding step shared by layer
    /// removal and layer clearing.
    fn unwind_slots(&mut self, idxs: &Vec<usize>)
        requires
            idxs@.no_duplicates(),
            forall|j: int| 0 <= j < idxs@.len() ==> (#[trigger] idxs@[j]) < old(self).entries@.len(),
            forall|j: int|
                0 <= j < idxs@.len() ==> old(self).entries@[(#[trigger] idxs@[j])
                    as int].stack@.len() >= 1,
            old(self).empty_key_count == count_empty(old(self).entries@),
        ensures
            final (self).entries@.len() == old(self).entries@.len(),
            forall|i: int|
                0 <= i < old(self).entries@.len() ==> ((#[trigger] final (self).entries@[i]).key
                    == old(self).entries@[i].key && final (self).entries@[i].stack@ == (
                if idxs@.contains(i as usize) {
                    old(self).entries@[i].stack@.drop_last()
                } else {
                    old(self).entries@[i].stack@
                })),
            final (self).empty_key_count == count_empty(final (self).entries@),
            final (self).layers == old(self).layers,
            final (self).cap == old(self).cap,
    {
        let ghost es0 = old(self).entries@;
        let mut j: usize = 0;
        while j < idxs.len()
            invariant
                j <= idxs@.len(),
                idxs@.no_duplicates(),
                forall|t: int| 0 <= t < idxs@.len() ==> (#[trigger] idxs@[t]) < es0.len(),
                forall|t: int|
                    0 <= t < idxs@.len() ==> es0[(#[trigger] idxs@[t]) as int].stack@.len() >= 1,
                self.entries@.len() == es0.len(),
                forall|i: int|
                    0 <= i < es0.len() ==> ((#[trigger] self.entries@[i]).key == es0[i].key
                        && self.entries@[i].stack@ == (if idxs@.take(j as int).contains(
                        i as usize,
                    ) {
                        es0[i].stack@.drop_last()
                    } else {
                        es0[i].stack@
                    })),
                self.empty_key_count == count_empty(self.entries@),
                self.layers == old(self).layers,
                self.cap == old(self).cap,
            decreases idxs@.len() - j,
        {
            let i = idxs[j];
            let ghost es_pre = self.entries@;
            proof {
                if idxs@.take(j as int).contains(i) {
                    let t = choose|t: int| 0 <= t < j && idxs@.take(j as int)[t] == i;
                    assert(idxs@[t] == idxs@[j as int]);
                    assert(false);
                }
                assert(es_pre[i as int].stack@ == es0[i as int].stack@);
            }
            let num_slots = self.entries.len();
            let slot = &mut self.entries[i];
            slot.stack.pop();
            let now_empty = slot.stack.len() == 0;
            proof {
                let es_post = self.entries@;
                lemma_count_empty_update(es_pre, es_post, i as int);
                lemma_count_empty_bounds(es_post);
                assert(es_post.len() == num_slots);
                assert(idxs@.take(j as int + 1) =~= idxs@.take(j as int).push(i));
                assert forall|i2: int| 0 <= i2 < es0.len() implies ((
                #[trigger] es_post[i2]).key == es0[i2].key && es_post[i2].stack@ == (
                if idxs@.take(j as int + 1).contains(i2 as usize) {
                    es0[i2].stack@.drop_last()
                } else {
                    es0[i2].stack@
                })) by {
                    lemma_push_contains(idxs@.take(j as int), i, i2 as usize);
                    if i2 == i as int {
                        assert(es_post[i2].stack@ =~= es0[i2].stack@.drop_last());
                    }
                }
            }
            if now_empty {
                self.empty_key_count = self.empty_key_count + 1;
            }
            j = j + 1;
        }
        proof {
            assert(idxs@.take(idxs@.len() as int) =~= idxs@);
        }
    }
}

/// Unwinding the slots owned by the innermost layer leaves every outer
/// layer's bindings unchanged: the positions those layers read sit strictly
/// below the popped stack tops.
proof fn lemma_unwound_layer_map<K, V>(
    es1: Seq<Entry<K, V>>,
    es2: Seq<Entry<K, V>>,
    ls: Seq<Seq<usize>>,
    idxs: Seq<usize>,
    l: int,
)
    requires
        wf_rep(es1, ls),
        0 <= l < ls.len() - 1,
        idxs == ls[ls.len() - 1],
        es2.len() == es1.len(),
        forall|i: int|
            0 <= i < es1.len() ==> ((#[trigger] es2[i]).key == es1[i].key && es2[i].stack@ == (
            if idxs.contains(i as usize) {
                es1[i].stack@.drop_last()
            } else {
                es1[i].stack@
            })),
    ensures
        layer_map_of(es2, ls, l) == layer_map_of(es1, ls, l),
{
    let n = ls.len() as int;
    assert(keys_of(es2) =~= keys_of(es1));
    assert forall|i: int| 0 <= i < es1.len() && (#[trigger] ls[l].contains(i as usize)) implies {
        let pos = owners_in(ls, i as usize, 0, l);
        &&& 0 <= pos < es1[i].stack@.len()
        &&& pos < es2[i].stack@.len()
        &&& es1[i].stack@[pos] == es2[i].stack@[pos]
    } by {
        let iu = i as usize;
        let pos = owners_in(ls, iu, 0, l);
        lemma_owners_in_bounds(ls, iu, 0, l);
        lemma_owners_in_split(ls, iu, 0, l + 1, n);
        lemma_owners_in_bounds(ls, iu, l + 1, n);
        assert(owners_in(ls, iu, 0, l + 1) == pos + 1);
        if idxs.contains(iu) {
            assert(owners_in(ls, iu, n - 1, n) == owners_in(ls, iu, n - 1, n - 1) + 1);
            lemma_owners_in_split(ls, iu, l + 1, n - 1, n);
            lemma_owners_in_bounds(ls, iu, l + 1, n - 1);
            assert(pos < es1[i].stack@.len() - 1);
        }
    }
    lemma_layer_map_stacks_agree(es1, es2, ls, l);
}

impl<K, V, S: BuildHasher> ScopeMap<K, V, S> {
    /// Removes the topmost layer (if it isn't the bottom layer) and all
    /// associated keys/values. Returns `true` if a layer was removed.
    pub fn pop_layer(&mut self) -> (r: bool)
        requires
            old(self).wf(),
        ensures
            final (self).wf(),
            final (self).spec_capacity() == old(self).spec_capacity(),
            old(self)@.len() > 1 ==> r == true && final (self)@ == old(self)@.drop_last(),
            old(self)@.len() == 1 ==> r == false && final (self)@ == old(self)@,
    {
        if self.layers.len() > 1 {
            let idxs = match self.layers.pop() {
                Some(idxs) => idxs,
                None => {
                    proof {
                        assert(false);
                    }
                    Vec::new()
                },
            };
            let ghost es1 = old(self).entries@;
            let ghost ls1 = old(self).layer_views();
            let ghost n = ls1.len() as int;
            proof {
                assert(idxs@ == ls1[n - 1]);
                assert forall|j: int| 0 <= j < idxs@.len() implies es1[(#[trigger] idxs@[j])
                    as int].stack@.len() >= 1 by {
                    let iu = idxs@[j];
                    assert(ls1[n - 1].contains(iu));
                    lemma_owners_in_split(ls1, iu, 0, n - 1, n);
                    lemma_owners_in_bounds(ls1, iu, 0, n - 1);
                    assert(owners_in(ls1, iu, n - 1, n) == owners_in(ls1, iu, n - 1, n - 1) + 1);
                }
            }
            self.unwind_slots(&idxs);
            proof {
                let es2 = self.entries@;
                let ls2 = self.layer_views();
                assert(ls2 =~= ls1.drop_last());
                assert(keys_of(es2) =~= keys_of(es1));
                assert forall|i: int| 0 <= i < es2.len() implies (#[trigger] es2[i].stack@).len()
                    == owners_in(ls2, i as usize, 0, ls2.len() as int) by {
                    let iu = i as usize;
                    lemma_owners_in_agree(ls2, ls1, iu, 0, n - 1);
                    assert(owners_in(ls1, iu, 0, n) == owners_in(ls1, iu, 0, n - 1) + (if ls1[n
                        - 1].contains(iu) {
                        1int
                    } else {
                        0int
                    }));
                    if idxs@.contains(iu) {
                        lemma_owners_in_bounds(ls1, iu, 0, n - 1);
                    }
                }
                assert(wf_rep(es2, ls2));
                assert forall|l: int| 0 <= l < n - 1 implies layer_map_of(es2, ls2, l)
                    == layer_map_of(es1, ls1, l) by {
                    lemma_layer_map_prefix_agree(es2, ls2, ls1, l);
                    lemma_unwound_layer_map(es1, es2, ls1, idxs@, l);
                }
                assert(self@ =~= old(self)@.drop_last());
            }
            true
        } else {
            false
        }
    }

}

impl<K: Eq + Hash, V, S: BuildHasher> ScopeMap<K, V, S> {
    /// Removes all entries in the topmost layer, leaving the layer itself in
    /// place.
    pub fn clear_top(&mut self)
        requires
            old(self).wf(),
        ensures
            final (self).wf(),
            final (self).spec_capacity() == old(self).spec_capacity(),
            final (self)@ == crate::view::with_top_cleared(old(self)@),
    {
        let idxs = match self.layers.pop() {
            Some(idxs) => idxs,
            None => {
                proof {
                    assert(false);
                }
                Vec::new()
            },
        };
        let ghost es1 = old(self).entries@;
        let ghost ls1 = old(self).layer_views();
        let ghost n = ls1.len() as int;
        proof {
            assert(idxs@ == ls1[n - 1]);
            assert forall|j: int| 0 <= j < idxs@.len() implies es1[(#[trigger] idxs@[j])
                as int].stack@.len() >= 1 by {
                let iu = idxs@[j];
                assert(ls1[n - 1].contains(iu));
                lemma_owners_in_split(ls1, iu, 0, n - 1, n);
                lemma_owners_in_bounds(ls1, iu, 0, n - 1);
                assert(owners_in(ls1, iu, n - 1, n) == owners_in(ls1, iu, n - 1, n - 1) + 1);
            }
        }
        self.unwind_slots(&idxs);
        self.layers.push(Vec::new());
        proof {
            let es2 = self.entries@;
            let ls2 = self.layer_views();
            assert(ls2 =~= ls1.update(n - 1, Seq::empty()));
            assert(keys_of(es2) =~= keys_of(es1));
            assert forall|i: int| 0 <= i < es2.len() implies (#[trigger] es2[i].stack@).len()
                == owners_in(ls2, i as usize, 0, ls2.len() as int) by {
                let iu = i as usize;
                lemma_owners_in_agree(ls2, ls1, iu, 0, n - 1);
                assert(owners_in(ls1, iu, 0, n) == owners_in(ls1, iu, 0, n - 1) + (if ls1[n
                    - 1].contains(iu) {
                    1int
                } else {
                    0int
                }));
                assert(owners_in(ls2, iu, 0, n) == owners_in(ls2, iu, 0, n - 1) + (if ls2[n
                    - 1].contains(iu) {
                    1int
                } else {
                    0int
                }));
                if idxs@.contains(iu) {
                    lemma_owners_in_bounds(ls1, iu, 0, n - 1);
                }
            }
            assert(wf_rep(es2, ls2));
            assert forall|l: int| 0 <= l < n - 1 implies layer_map_of(es2, ls2, l)
                == layer_map_of(es1, ls1, l) by {
                lemma_layer_map_prefix_agree(es2, ls2, ls1, l);
                lemma_unwound_layer_map(es1, es2, ls1, idxs@, l);
            }
            assert(layer_map_of(es2, ls2, n - 1) =~= Map::<K, V>::empty());
            assert(self@ =~= crate::view::with_top_cleared(old(self)@));
        }
    }

    /// Removes all elements and additional layers, keeping the allocated
    /// storage.
    pub fn clear_all(&mut self)
        requires
            old(self).wf(),
        ensures
            final (self).wf(),
            final (self).spec_capacity() == old(self).spec_capacity(),
            final (self)@ == initial::<K, V>(),
    {
        self.entries.clear();
        self.layers.clear();
        self.layers.push(Vec::new());
        self.empty_key_count = 0;
        proof {
            assert(self@ =~~= initial::<K, V>());
        }
    }
}

/// A range of layers none of which records slot `i` counts no owners.
proof fn lemma_owners_in_zero(ls: Seq<Seq<usize>>, i: usize, lo: int, hi: int)
    requires
        forall|l: int| lo <= l < hi ==> !(#[trigger] ls[l]).contains(i),
    ensures
        owners_in(ls, i, lo, hi) == 0,
    decreases hi - lo,
{
    if hi > lo {
        lemma_owners_in_zero(ls, i, lo, hi - 1);
    }
}

/// A recorded slot index is in range for the dictionary.
proof fn lemma_owned_index_in_range<K, V>(
    es: Seq<Entry<K, V>>,
    ls: Seq<Seq<usize>>,
    l: int,
    x: usize,
)
    requires
        wf_rep(es, ls),
        0 <= l < ls.len(),
        ls[l].contains(x),
    ensures
        x < es.len(),
{
    let t = choose|t: int| 0 <= t < ls[l].len() && ls[l][t] == x;
    assert(ls[l][t] < es.len());
}

/// The position of `x` in a membership set that contains it.
fn position_of(layer: &Vec<usize>, x: usize) -> (r: usize)
    requires
        layer@.contains(x),
    ensures
        r < layer@.len(),
        layer@[r as int] == x,
{
    let mut p: usize = 0;
    while p < layer.len()
        invariant
            p <= layer@.len(),
            forall|t: int| 0 <= t < p ==> layer@[t] != x,
        decreases layer@.len() - p,
    {
        if layer[p] == x {
            return p;
        }
        p = p + 1;
    }
    proof {
        let t = choose|t: int| 0 <= t < layer@.len() && layer@[t] == x;
        assert(false);
    }
    0
}

/// Removes one occurrence of `x` from a duplicate-free membership set,
/// keeping it duplicate-free.
fn remove_index(layer: &mut Vec<usize>, x: usize)
    requires
        old(layer)@.no_duplicates(),
        old(layer)@.contains(x),
    ensures
        final (layer)@.no_duplicates(),
        final (layer)@.len() == old(layer)@.len() - 1,
        forall|y: usize|
            #[trigger] final (layer)@.contains(y) <==> (old(layer)@.contains(y) && y != x),
{
    let p = position_of(layer, x);
    layer.swap_remove(p);
    proof {
        let s1 = old(layer)@;
        let s2 = layer@;
        let n1 = s1.len() as int;
        assert forall|t1: int, t2: int|
            0 <= t1 < s2.len() && 0 <= t2 < s2.len() && t1 != t2 implies s2[t1] != s2[t2] by {
            assert(s2[t1] == (if t1 == p {
                s1[n1 - 1]
            } else {
                s1[t1]
            }));
            assert(s2[t2] == (if t2 == p {
                s1[n1 - 1]
            } else {
                s1[t2]
            }));
        }
        assert forall|y: usize| #[trigger] s2.contains(y) implies (s1.contains(y) && y != x) by {
            let t = choose|t: int| 0 <= t < s2.len() && s2[t] == y;
            if t == p {
                assert(s1[n1 - 1] == y);
            } else {
                assert(s1[t] == y);
            }
        }
        assert forall|y: usize| s1.contains(y) && y != x implies #[trigger] s2.contains(y) by {
            let t = choose|t: int| 0 <= t < s1.len() && s1[t] == y;
            if t < n1 - 1 {
                assert(s2[t] == y);
            } else {
                assert(p < n1 - 1);
                assert(s2[p as int] == y);
            }
        }
    }
}

impl<K: Eq + Hash, V, S: BuildHasher> ScopeMap<K, V, S> {
    /// Adds the specified entry to the topmost layer.
    ///
    /// When the topmost layer already owns a binding for the key, that
    /// binding is overwritten in place; otherwise a new binding is pushed,
    /// shadowing any binding owned by an outer layer.
    pub fn define(&mut self, key: K, value: V)
        requires
            old(self).wf(),
            obeys_concrete_eq::<K>(),
        ensures
            final (self).wf(),
            final (self)@ == with_binding(old(self)@, key, value),
            final (self).spec_capacity() >= old(self).spec_capacity(),
    {
        let idx_opt = self.find_index(&key);
        let top = self.layers.len() - 1;
        let ghost es1 = old(self).entries@;
        let ghost ls1 = old(self).layer_views();
        let ghost n = ls1.len() as int;
        let ghost ks1 = keys_of(es1);
        match idx_opt {
            None => {
                let i = self.entries.len();
                let mut stack = Vec::new();
                stack.push(value);
                self.entries.push(Entry { key, stack });
                let top_layer = &mut self.layers[top];
                top_layer.push(i);
                if self.cap < self.entries.len() {
                    self.cap = self.entries.len();
                }
                proof {
                    let es2 = self.entries@;
                    let ls2 = self.layer_views();
                    let ks2 = keys_of(es2);
                    let iu = i as usize;
                    assert(es2 =~= es1.push(es2[i as int]));
                    assert(es2[i as int].key == key && es2[i as int].stack@ =~= seq![value]);
                    assert(ks2 =~= ks1.push(key));
                    assert forall|l: int| 0 <= l < n - 1 implies ls2[l] == ls1[l] by {}
                    assert(ls2[n - 1] =~= ls1[n - 1].push(iu));
                    // the new slot is fresh: no membership set mentions it
                    assert forall|l: int| 0 <= l < n - 1 implies !(#[trigger] ls2[l]).contains(
                        iu,
                    ) by {
                        if ls2[l].contains(iu) {
                            let t = choose|t: int| 0 <= t < ls1[l].len() && ls1[l][t] == iu;
                        }
                    }
                    lemma_owners_in_zero(ls2, iu, 0, n - 1);
                    assert(ks2[i as int] == key);
                    assert forall|t1: int, t2: int| 0 <= t1 < t2 < ks2.len() implies ks2[t1]
                        != ks2[t2] by {
                        if t2 == es1.len() {
                            if ks2[t1] == key {
                                assert(slot_with_key(ks1, key, t1));
                            }
                        }
                    }
                    // well-formedness
                    assert forall|i2: int| 0 <= i2 < es2.len() implies (
                    #[trigger] es2[i2].stack@).len() == owners_in(ls2, i2 as usize, 0, n) by {
                        let i2u = i2 as usize;
                        lemma_owners_in_agree(ls2, ls1, i2u, 0, n - 1);
                        lemma_push_contains(ls1[n - 1], iu, i2u);
                        assert(owners_in(ls2, i2u, 0, n) == owners_in(ls2, i2u, 0, n - 1) + (
                        if ls2[n - 1].contains(i2u) {
                            1int
                        } else {
                            0int
                        }));
                        if i2 < i {
                            assert(es2[i2].stack@ == es1[i2].stack@);
                        }
                    }
                    assert(distinct_keys(ks2));
                    lemma_count_empty_push(es1, es2[i as int]);
                    assert(wf_rep(es2, ls2));
                    // lower layers unchanged
                    assert forall|l: int| 0 <= l < n - 1 implies #[trigger] layer_map_of(
                        es2,
                        ls2,
                        l,
                    ) == layer_map_of(es1, ls1, l) by {
                        lemma_layer_map_prefix_agree(es2, ls2, ls1, l);
                        let ma = layer_map_of(es2, ls1, l);
                        let mb = layer_map_of(es1, ls1, l);
                        assert forall|k: K| #[trigger] ma.dom().contains(k) implies mb.dom().contains(k)
                            && ma[k] == mb[k] by {
                            let j = choose|j: int| owner_slot(ks2, ls1, l, j, k);
                            lemma_owned_index_in_range(es1, ls1, l, j as usize);
                            assert(j != i);
                            assert(owner_slot(ks1, ls1, l, j, k));
                            lemma_slot_of_unique(ks1, k, j);
                            lemma_slot_of_unique(ks2, k, j);
                        }
                        assert forall|k: K| #[trigger] mb.dom().contains(k) implies ma.dom().contains(k) by {
                            let j = choose|j: int| owner_slot(ks1, ls1, l, j, k);
                            assert(owner_slot(ks2, ls1, l, j, k));
                        }
                        assert(ma.dom() =~= mb.dom());
                        assert forall|k: K| #[trigger] ma.dom().contains(k) implies ma[k] == mb[k] by {}
                        assert(ma =~= mb);
                    }
                    // the top layer gains exactly the new binding
                    let m1 = layer_map_of(es1, ls1, n - 1);
                    let m2 = layer_map_of(es2, ls2, n - 1);
                    assert forall|k: K| #[trigger] m2.dom().contains(k) implies m1.insert(
                        key,
                        value,
                    ).dom().contains(k) && m2[k] == m1.insert(key, value)[k] by {
                        let lt = n - 1;
                        let j = choose|j: int| owner_slot(ks2, ls2, lt, j, k);
                        lemma_push_contains(ls1[n - 1], iu, j as usize);
                        lemma_slot_of_unique(ks2, k, j);
                        if j == i {
                            assert(k == key);
                            assert(m2[k] == es2[i as int].stack@[owners_in(ls2, iu, 0, n - 1)]);
                        } else {
                            assert(owner_slot(ks1, ls1, n - 1, j, k));
                            assert(k != key);
                            lemma_slot_of_unique(ks1, k, j);
                            lemma_owners_in_agree(ls2, ls1, j as usize, 0, n - 1);
                        }
                    }
                    assert forall|k: K| #[trigger] m1.insert(key, value).dom().contains(k) implies
                        m2.dom().contains(k) by {
                        if k == key {
                            lemma_push_contains(ls1[n - 1], iu, iu);
                            assert(owner_slot(ks2, ls2, n - 1, i as int, k));
                        } else {
                            let lt = n - 1;
                        let j = choose|j: int| owner_slot(ks1, ls1, lt, j, k);
                            lemma_push_contains(ls1[n - 1], iu, j as usize);
                            assert(owner_slot(ks2, ls2, n - 1, j, k));
                        }
                    }
                    assert(m2 =~= m1.insert(key, value));
                    assert(self@ =~= with_binding(old(self)@, key, value));
                }
            },
            Some(i) => {
                let owned = layer_has_index(&self.layers[top], i);
                let ghost iu = i;
                proof {
                    assert(owners_in(ls1, iu, n - 1, n - 1) == 0);
                    assert(owners_in(ls1, iu, n - 1, n) == (if ls1[n - 1].contains(iu) {
                        1int
                    } else {
                        0int
                    }));
                    lemma_owners_in_split(ls1, iu, 0, n - 1, n);
                    lemma_owners_in_bounds(ls1, iu, 0, n - 1);
                }
                if owned {
                    let m = self.entries[i].stack.len();
                    let el = &mut self.entries[i].stack[m - 1];
                    *el = value;
                    proof {
                        let es2 = self.entries@;
                        let ls2 = self.layer_views();
                        let ks2 = keys_of(es2);
                        assert(ls2 =~= ls1);
                        assert(es2.len() == es1.len());
                        assert(es2[i as int].key == es1[i as int].key);
                        assert(es2[i as int].stack@ =~= es1[i as int].stack@.update(
                            m - 1,
                            value,
                        ));
                        assert(ks2 =~= ks1);
                        assert forall|i2: int| 0 <= i2 < es2.len() && i2 != i implies es2[i2]
                            == es1[i2] by {}
                        assert forall|i2: int| 0 <= i2 < es2.len() implies (
                        #[trigger] es2[i2].stack@).len() == owners_in(ls2, i2 as usize, 0, n) by {
                            lemma_owners_in_agree(ls2, ls1, i2 as usize, 0, n);
                        }
                        lemma_count_empty_update(es1, es2, i as int);
                        assert(wf_rep(es2, ls2));
                        // lower layers read positions strictly below the top
                        assert forall|l: int| 0 <= l < n - 1 implies #[trigger] layer_map_of(
                            es2,
                            ls2,
                            l,
                        ) == layer_map_of(es1, ls1, l) by {
                            lemma_layer_map_prefix_agree(es2, ls2, ls1, l);
                            assert forall|i2: int|
                                0 <= i2 < es1.len() && (#[trigger] ls1[l].contains(
                                    i2 as usize,
                                )) implies {
                                let pos = owners_in(ls1, i2 as usize, 0, l);
                                &&& 0 <= pos < es1[i2].stack@.len()
                                &&& pos < es2[i2].stack@.len()
                                &&& es1[i2].stack@[pos] == es2[i2].stack@[pos]
                            } by {
                                let i2u = i2 as usize;
                                let pos = owners_in(ls1, i2u, 0, l);
                                lemma_owners_in_bounds(ls1, i2u, 0, l);
                                lemma_owners_in_split(ls1, i2u, 0, l + 1, n);
                                lemma_owners_in_bounds(ls1, i2u, l + 1, n);
                                assert(owners_in(ls1, i2u, 0, l + 1) == pos + 1);
                                if i2 == i {
                                    lemma_owners_in_split(ls1, i2u, l + 1, n - 1, n);
                                    lemma_owners_in_bounds(ls1, i2u, l + 1, n - 1);
                                    assert(pos < m - 1);
                                }
                            }
                            lemma_layer_map_stacks_agree(es1, es2, ls1, l);
                        }
                        // the top layer's binding for the key is overwritten
                        let m1 = layer_map_of(es1, ls1, n - 1);
                        let m2 = layer_map_of(es2, ls2, n - 1);
                        assert forall|k: K| #[trigger] m2.dom().contains(k) implies m1.insert(
                            key,
                            value,
                        ).dom().contains(k) && m2[k] == m1.insert(key, value)[k] by {
                            let lt = n - 1;
                        let j = choose|j: int| owner_slot(ks2, ls2, lt, j, k);
                            assert(owner_slot(ks1, ls1, n - 1, j, k));
                            lemma_slot_of_unique(ks1, k, j);
                            lemma_slot_of_unique(ks2, k, j);
                            lemma_owners_in_agree(ls2, ls1, j as usize, 0, n - 1);
                            if j == i {
                                assert(ks1[j] == key);
                                assert(k == key);
                                assert(owners_in(ls1, iu, 0, n - 1) == m - 1);
                            } else {
                                assert(k != key);
                            }
                        }
                        assert forall|k: K| #[trigger] m1.insert(key, value).dom().contains(k) implies
                            m2.dom().contains(k) by {
                            if k == key {
                                assert(owner_slot(ks2, ls2, n - 1, i as int, k));
                            } else {
                                let lt = n - 1;
                        let j = choose|j: int| owner_slot(ks1, ls1, lt, j, k);
                                assert(owner_slot(ks2, ls2, n - 1, j, k));
                            }
                        }
                        assert(m2 =~= m1.insert(key, value));
                        assert(self@ =~= with_binding(old(self)@, key, value));
                    }
                } else {
                    let was_empty = self.entries[i].stack.len() == 0;
                    let slot = &mut self.entries[i];
                    slot.stack.push(value);
                    let top_layer = &mut self.layers[top];
                    top_layer.push(i);
                    proof {
                        if was_empty {
                            lemma_count_empty_pos(es1, i as int);
                        }
                    }
                    if was_empty {
                        self.empty_key_count = self.empty_key_count - 1;
                    }
                    proof {
                        let es2 = self.entries@;
                        let ls2 = self.layer_views();
                        let ks2 = keys_of(es2);
                        let m = es1[i as int].stack@.len() as int;
                        assert(!ls1[n - 1].contains(iu));
                        assert(owners_in(ls1, iu, 0, n - 1) == m);
                        assert(es2.len() == es1.len());
                        assert(es2[i as int].key == es1[i as int].key);
                        assert(es2[i as int].stack@ =~= es1[i as int].stack@.push(value));
                        assert(ks2 =~= ks1);
                        assert forall|i2: int| 0 <= i2 < es2.len() && i2 != i implies es2[i2]
                            == es1[i2] by {}
                        assert forall|l: int| 0 <= l < n - 1 implies ls2[l] == ls1[l] by {}
                        assert(ls2[n - 1] =~= ls1[n - 1].push(iu));
                        assert forall|i2: int| 0 <= i2 < es2.len() implies (
                        #[trigger] es2[i2].stack@).len() == owners_in(ls2, i2 as usize, 0, n) by {
                            let i2u = i2 as usize;
                            lemma_owners_in_agree(ls2, ls1, i2u, 0, n - 1);
                            lemma_push_contains(ls1[n - 1], iu, i2u);
                            assert(owners_in(ls2, i2u, 0, n) == owners_in(ls2, i2u, 0, n - 1) + (
                            if ls2[n - 1].contains(i2u) {
                                1int
                            } else {
                                0int
                            }));
                        }
                        lemma_count_empty_update(es1, es2, i as int);
                        assert(wf_rep(es2, ls2));
                        assert forall|l: int| 0 <= l < n - 1 implies #[trigger] layer_map_of(
                            es2,
                            ls2,
                            l,
                        ) == layer_map_of(es1, ls1, l) by {
                            lemma_layer_map_prefix_agree(es2, ls2, ls1, l);
                            assert forall|i2: int|
                                0 <= i2 < es1.len() && (#[trigger] ls1[l].contains(
                                    i2 as usize,
                                )) implies {
                                let pos = owners_in(ls1, i2 as usize, 0, l);
                                &&& 0 <= pos < es1[i2].stack@.len()
                                &&& pos < es2[i2].stack@.len()
                                &&& es1[i2].stack@[pos] == es2[i2].stack@[pos]
                            } by {
                                let i2u = i2 as usize;
                                let pos = owners_in(ls1, i2u, 0, l);
                                lemma_owners_in_bounds(ls1, i2u, 0, l);
                                lemma_owners_in_split(ls1, i2u, 0, l + 1, n);
                                lemma_owners_in_bounds(ls1, i2u, l + 1, n);
                                assert(owners_in(ls1, i2u, 0, l + 1) == pos + 1);
                            }
                            lemma_layer_map_stacks_agree(es1, es2, ls1, l);
                        }
                        let m1 = layer_map_of(es1, ls1, n - 1);
                        let m2 = layer_map_of(es2, ls2, n - 1);
                        assert forall|k: K| #[trigger] m2.dom().contains(k) implies m1.insert(
                            key,
                            value,
                        ).dom().contains(k) && m2[k] == m1.insert(key, value)[k] by {
                            let lt = n - 1;
                        let j = choose|j: int| owner_slot(ks2, ls2, lt, j, k);
                            lemma_push_contains(ls1[n - 1], iu, j as usize);
                            lemma_slot_of_unique(ks1, k, j);
                            lemma_slot_of_unique(ks2, k, j);
                            lemma_owners_in_agree(ls2, ls1, j as usize, 0, n - 1);
                            if j == i {
                                assert(ks1[j] == key);
                                assert(k == key);
                                assert(m2[k] == es2[i as int].stack@[m]);
                            } else {
                                assert(k != key);
                                assert(owner_slot(ks1, ls1, n - 1, j, k));
                            }
                        }
                        assert forall|k: K| #[trigger] m1.insert(key, value).dom().contains(k) implies
                            m2.dom().contains(k) by {
                            lemma_push_contains(ls1[n - 1], iu, iu);
                            if k == key {
                                assert(owner_slot(ks2, ls2, n - 1, i as int, k));
                            } else {
                                let lt = n - 1;
                        let j = choose|j: int| owner_slot(ks1, ls1, lt, j, k);
                                lemma_push_contains(ls1[n - 1], iu, j as usize);
                                assert(owner_slot(ks2, ls2, n - 1, j, k));
                            }
                        }
                        assert(m2.dom() =~= m1.insert(key, value).dom());
                        assert forall|k: K| #[trigger] m2.dom().contains(k) implies m2[k] == m1.insert(
                            key,
                            value,
                        )[k] by {}
                        assert(m2 =~= m1.insert(key, value));
                        assert(self@ =~= with_binding(old(self)@, key, value));
                    }
                }
            },
        }
    }

    /// Removes the entry with the specified key from the topmost layer.
    ///
    /// Returns `true` and pops exactly the topmost binding when the topmost
    /// layer owns one for this key; returns `false` (a no-op) otherwise,
    /// even when an outer layer's binding remains visible.
    pub fn delete(&mut self, key: K) -> (r: bool)
        requires
            old(self).wf(),
            obeys_concrete_eq::<K>(),
        ensures
            final (self).wf(),
            final (self).spec_capacity() == old(self).spec_capacity(),
            r == visible_at_top(old(self)@, key),
            r ==> final (self)@ == without_binding(old(self)@, key),
            !r ==> final (self)@ == old(self)@,
    {
        let idx_opt = self.find_index(&key);
        let top = self.layers.len() - 1;
        let ghost es1 = old(self).entries@;
        let ghost ls1 = old(self).layer_views();
        let ghost n = ls1.len() as int;
        let ghost ks1 = keys_of(es1);
        match idx_opt {
            None => {
                proof {
                    lemma_no_slot_dom(es1, ls1, key, n - 1);
                }
                false
            },
            Some(i) => {
                let owned = layer_has_index(&self.layers[top], i);
                let ghost iu = i;
                proof {
                    lemma_layer_dom(es1, ls1, key, i as int, n - 1);
                    assert(owners_in(ls1, iu, n - 1, n - 1) == 0);
                    assert(owners_in(ls1, iu, n - 1, n) == (if ls1[n - 1].contains(iu) {
                        1int
                    } else {
                        0int
                    }));
                    lemma_owners_in_split(ls1, iu, 0, n - 1, n);
                    lemma_owners_in_bounds(ls1, iu, 0, n - 1);
                }
                if owned {
                    let slot = &mut self.entries[i];
                    slot.stack.pop();
                    let now_empty = slot.stack.len() == 0;
                    proof {
                        let es_post = self.entries@;
                        lemma_count_empty_update(es1, es_post, i as int);
                        lemma_count_empty_bounds(es_post);
                        lemma_count_empty_bounds(es1);
                    }
                    if now_empty {
                        self.empty_key_count = self.empty_key_count + 1;
                    }
                    let top_layer = &mut self.layers[top];
                    remove_index(top_layer, i);
                    proof {
                        let es2 = self.entries@;
                        let ls2 = self.layer_views();
                        let ks2 = keys_of(es2);
                        let m = es1[i as int].stack@.len() as int;
                        assert(owners_in(ls1, iu, 0, n - 1) == m - 1);
                        assert(es2.len() == es1.len());
                        assert(es2[i as int].key == es1[i as int].key);
                        assert(es2[i as int].stack@ =~= es1[i as int].stack@.drop_last());
                        assert(ks2 =~= ks1);
                        assert forall|i2: int| 0 <= i2 < es2.len() && i2 != i implies es2[i2]
                            == es1[i2] by {}
                        assert forall|l: int| 0 <= l < n - 1 implies ls2[l] == ls1[l] by {}
                        assert forall|i2: int| 0 <= i2 < es2.len() implies (
                        #[trigger] es2[i2].stack@).len() == owners_in(ls2, i2 as usize, 0, n) by {
                            let i2u = i2 as usize;
                            lemma_owners_in_agree(ls2, ls1, i2u, 0, n - 1);
                            assert(owners_in(ls2, i2u, 0, n) == owners_in(ls2, i2u, 0, n - 1) + (
                            if ls2[n - 1].contains(i2u) {
                                1int
                            } else {
                                0int
                            }));
                        }
                        assert forall|l: int, j: int|
                            0 <= l < ls2.len() && 0 <= j < ls2[l].len() implies (
                        #[trigger] ls2[l][j]) < es2.len() by {
                            if l == n - 1 {
                                assert(ls2[l].contains(ls2[l][j]));
                            }
                        }
                        assert(wf_rep(es2, ls2));
                        assert forall|l: int| 0 <= l < n - 1 implies #[trigger] layer_map_of(
                            es2,
                            ls2,
                            l,
                        ) == layer_map_of(es1, ls1, l) by {
                            lemma_layer_map_prefix_agree(es2, ls2, ls1, l);
                            assert forall|i2: int|
                                0 <= i2 < es1.len() && (#[trigger] ls1[l].contains(
                                    i2 as usize,
                                )) implies {
                                let pos = owners_in(ls1, i2 as usize, 0, l);
                                &&& 0 <= pos < es1[i2].stack@.len()
                                &&& pos < es2[i2].stack@.len()
                                &&& es1[i2].stack@[pos] == es2[i2].stack@[pos]
                            } by {
                                let i2u = i2 as usize;
                                let pos = owners_in(ls1, i2u, 0, l);
                                lemma_owners_in_bounds(ls1, i2u, 0, l);
                                lemma_owners_in_split(ls1, i2u, 0, l + 1, n);
                                lemma_owners_in_bounds(ls1, i2u, l + 1, n);
                                assert(owners_in(ls1, i2u, 0, l + 1) == pos + 1);
                                if i2 == i {
                                    lemma_owners_in_split(ls1, i2u, l + 1, n - 1, n);
                                    lemma_owners_in_bounds(ls1, i2u, l + 1, n - 1);
                                    assert(pos < m - 1);
                                }
                            }
                            lemma_layer_map_stacks_agree(es1, es2, ls1, l);
                        }
                        let m1 = layer_map_of(es1, ls1, n - 1);
                        let m2 = layer_map_of(es2, ls2, n - 1);
                        assert forall|k: K| #[trigger] m2.dom().contains(k) implies m1.remove(
                            key,
                        ).dom().contains(k) && m2[k] == m1.remove(key)[k] by {
                            let lt = n - 1;
                        let j = choose|j: int| owner_slot(ks2, ls2, lt, j, k);
                            assert(ls1[n - 1].contains(j as usize));
                            lemma_slot_of_unique(ks1, k, j);
                            lemma_slot_of_unique(ks2, k, j);
                            lemma_owners_in_agree(ls2, ls1, j as usize, 0, n - 1);
                            assert(j != i);
                            assert(k != key);
                            assert(owner_slot(ks1, ls1, n - 1, j, k));
                        }
                        assert forall|k: K| #[trigger] m1.remove(key).dom().contains(k) implies
                            m2.dom().contains(k) by {
                            let lt = n - 1;
                        let j = choose|j: int| owner_slot(ks1, ls1, lt, j, k);
                            assert(j != i);
                            assert(ls2[n - 1].contains(j as usize));
                            assert(owner_slot(ks2, ls2, n - 1, j, k));
                        }
                        assert(m2.dom() =~= m1.remove(key).dom());
                        assert forall|k: K| #[trigger] m2.dom().contains(k) implies m2[k] == m1.remove(
                            key,
                        )[k] by {}
                        assert(m2 =~= m1.remove(key));
                        assert(self@ =~= without_binding(old(self)@, key));
                    }
                    true
                } else {
                    false
                }
            },
        }
    }
}

/// Whether slot `i` (below `n`) holds key `k` with a live binding.
spec fn live_slot_below<K, V>(es: Seq<Entry<K, V>>, n: int, i: int, k: K) -> bool {
    0 <= i < n && es[i].key == k && es[i].stack@.len() > 0
}

/// The keys of the slots below `n` whose stacks are non-empty.
spec fn live_keys_below<K, V>(es: Seq<Entry<K, V>>, n: int) -> Set<K> {
    Set::new(|k: K| exists|i: int| live_slot_below(es, n, i, k))
}

/// Counting the live keys slot by slot: each non-empty slot contributes one
/// distinct key.
proof fn lemma_live_keys_count<K, V>(es: Seq<Entry<K, V>>, n: int)
    requires
        0 <= n <= es.len(),
        distinct_keys(keys_of(es)),
    ensures
        live_keys_below(es, n).finite(),
        live_keys_below(es, n).len() == n - count_empty(es.take(n)),
    decreases n,
{
    if n == 0 {
        assert(live_keys_below(es, 0) =~= Set::<K>::empty());
        assert(es.take(0) =~= Seq::<Entry<K, V>>::empty());
    } else {
        lemma_live_keys_count(es, n - 1);
        let s1 = live_keys_below(es, n - 1);
        let s2 = live_keys_below(es, n);
        assert(es.take(n).drop_last() =~= es.take(n - 1));
        assert(es.take(n).last() == es[n - 1]);
        if es[n - 1].stack@.len() > 0 {
            let key = es[n - 1].key;
            assert(live_slot_below(es, n, n - 1, key));
            if s1.contains(key) {
                let np = n - 1;
                let i = choose|i: int| live_slot_below(es, np, i, key);
                assert(keys_of(es)[i] == keys_of(es)[n - 1]);
                assert(false);
            }
            assert forall|k: K| #[trigger] s2.contains(k) implies s1.insert(key).contains(k) by {
                let i = choose|i: int| live_slot_below(es, n, i, k);
                if i < n - 1 {
                    assert(live_slot_below(es, n - 1, i, k));
                }
            }
            assert forall|k: K| #[trigger] s1.insert(key).contains(k) implies s2.contains(k) by {
                if k == key {
                    assert(live_slot_below(es, n, n - 1, k));
                } else {
                    let np = n - 1;
                    let i = choose|i: int| live_slot_below(es, np, i, k);
                    assert(live_slot_below(es, n, i, k));
                }
            }
            assert(s2 =~= s1.insert(key));
        } else {
            assert forall|k: K| #[trigger] s2.contains(k) implies s1.contains(k) by {
                let i = choose|i: int| live_slot_below(es, n, i, k);
                assert(live_slot_below(es, n - 1, i, k));
            }
            assert forall|k: K| #[trigger] s1.contains(k) implies s2.contains(k) by {
                let np = n - 1;
                let i = choose|i: int| live_slot_below(es, np, i, k);
                assert(live_slot_below(es, n, i, k));
            }
            assert(s2 =~= s1);
        }
    }
}

/// The visible keys are exactly the keys of the non-empty slots, so the
/// dictionary size minus the cached empty-slot count counts them.
proof fn lemma_visible_count<K, V>(es: Seq<Entry<K, V>>, ls: Seq<Seq<usize>>)
    requires
        wf_rep(es, ls),
    ensures
        visible_keys(view_of(es, ls)).finite(),
        visible_keys(view_of(es, ls)).len() == es.len() - count_empty(es),
{
    let s = view_of(es, ls);
    let n = es.len() as int;
    let nl = ls.len() as int;
    lemma_live_keys_count(es, n);
    assert(es.take(n) =~= es);
    assert(s.len() == ls.len());
    assert forall|k: K| #[trigger] visible_keys(s).contains(k) implies live_keys_below(
        es,
        n,
    ).contains(k) by {
        lemma_visible_lookup(s, k);
        if !has_key(keys_of(es), k) {
            lemma_lookup_no_slot(es, ls, k, nl);
            assert(false);
        }
        let i = choose|i: int| slot_with_key(keys_of(es), k, i);
        lemma_lookup_is_stack(es, ls, k, i, nl);
        lemma_owners_in_bounds(ls, i as usize, 0, nl);
        assert(es[i].stack@.len() > 0);
        assert(live_slot_below(es, n, i, k));
    }
    assert forall|k: K| #[trigger] live_keys_below(es, n).contains(k) implies visible_keys(
        s,
    ).contains(k) by {
        let i = choose|i: int| live_slot_below(es, n, i, k);
        assert(slot_with_key(keys_of(es), k, i));
        lemma_lookup_is_stack(es, ls, k, i, nl);
        lemma_visible_lookup(s, k);
    }
    assert(visible_keys(s) =~= live_keys_below(es, n));
}

impl<K, V, S: BuildHasher> ScopeMap<K, V, S> {
    /// Gets the number of unique keys in the map: the keys with a live
    /// binding in some layer.
    pub fn len(&self) -> (r: usize)
        requires
            self.wf(),
        ensures
            visible_keys(self@).finite(),
            r == visible_keys(self@).len(),
    {
        proof {
            lemma_visible_count(self.entries@, self.layer_views());
            lemma_count_empty_bounds(self.entries@);
        }
        self.entries.len() - self.empty_key_count
    }

    /// Returns `true` if the map is empty: no key has a live binding.
    pub fn is_empty(&self) -> (r: bool)
        requires
            self.wf(),
        ensures
            r <==> visible_keys(self@) == Set::<K>::empty(),
    {
        proof {
            lemma_visible_count(self.entries@, self.layer_views());
            lemma_count_empty_bounds(self.entries@);
            if visible_keys(self@).len() == 0 {
                visible_keys(self@).lemma_len0_is_empty();
            }
        }
        self.entries.len() - self.empty_key_count == 0
    }

    /// The key count reported by `len` counts exactly the keys that
    /// `contains_key` reports as present.
    pub proof fn lemma_len_counts_visible(self)
        requires
            self.wf(),
        ensures
            visible_keys(self@).finite(),
            forall|k: K| #[trigger] visible_keys(self@).contains(k) <==> visible(self@, k),
    {
        lemma_visible_count(self.entries@, self.layer_views());
    }
}

/// Overwriting the one stack position that holds the binding visible below
/// `hi` updates exactly the owning layer's binding for that key and leaves
/// every other binding in place.
proof fn lemma_binding_update<K, V>(
    es1: Seq<Entry<K, V>>,
    es2: Seq<Entry<K, V>>,
    ls: Seq<Seq<usize>>,
    k: K,
    i: int,
    hi: int,
)
    requires
        wf_rep(es1, ls),
        0 <= hi <= ls.len(),
        slot_with_key(keys_of(es1), k, i),
        owners_in(ls, i as usize, 0, hi) > 0,
        es2.len() == es1.len(),
        forall|j: int| 0 <= j < es1.len() && j != i ==> es2[j] == es1[j],
        es2[i].key == es1[i].key,
        es2[i].stack@.len() == es1[i].stack@.len(),
        forall|p: int|
            0 <= p < es1[i].stack@.len() && p != owners_in(ls, i as usize, 0, hi) - 1
                ==> es2[i].stack@[p] == es1[i].stack@[p],
    ensures
        ({
            let t = top_owner_below(ls, i as usize, hi);
            let pos = owners_in(ls, i as usize, 0, hi) - 1;
            let w = es2[i].stack@[pos];
            &&& wf_rep(es2, ls)
            &&& count_empty(es2) == count_empty(es1)
            &&& 0 <= t < hi
            &&& 0 <= pos < es1[i].stack@.len()
            &&& view_of(es1, ls)[t].dom().contains(k)
            &&& (forall|l: int|
                t < l < hi ==> !(#[trigger] view_of(es1, ls)[l].dom().contains(k)))
            &&& lookup_below(view_of(es1, ls), k, hi) == Some(es1[i].stack@[pos])
            &&& view_of(es2, ls) == view_of(es1, ls).update(
                t,
                view_of(es1, ls)[t].insert(k, w),
            )
        }),
{
    let iu = i as usize;
    let nl = ls.len() as int;
    let ks1 = keys_of(es1);
    let ks2 = keys_of(es2);
    let t = top_owner_below(ls, iu, hi);
    let cnt = owners_in(ls, iu, 0, hi);
    let pos = cnt - 1;
    let w = es2[i].stack@[pos];
    lemma_top_owner(ls, iu, hi);
    lemma_owners_in_split(ls, iu, 0, hi, nl);
    lemma_owners_in_bounds(ls, iu, hi, nl);
    lemma_owners_in_bounds(ls, iu, 0, t);
    assert(es1[i].stack@.len() == owners_in(ls, iu, 0, nl));
    assert(0 <= pos < es1[i].stack@.len());
    assert(ks2 =~= ks1);
    // well-formedness and the cached count carry over unchanged
    assert forall|i2: int| 0 <= i2 < es2.len() implies (#[trigger] es2[i2].stack@).len()
        == owners_in(ls, i2 as usize, 0, nl) by {}
    assert(wf_rep(es2, ls));
    lemma_count_empty_update(es1, es2, i);
    // the key is bound at layer `t` and at no layer above it below `hi`
    lemma_layer_dom(es1, ls, k, i, t);
    assert forall|l: int| t < l < hi implies !(#[trigger] view_of(es1, ls)[l].dom().contains(
        k,
    )) by {
        lemma_layer_dom(es1, ls, k, i, l);
    }
    lemma_lookup_is_stack(es1, ls, k, i, hi);
    assert(owners_in(ls, iu, 0, t) == pos);
    // every layer but `t` keeps its bindings
    assert forall|l: int| 0 <= l < nl && l != t implies #[trigger] layer_map_of(es2, ls, l)
        == layer_map_of(es1, ls, l) by {
        assert forall|i2: int|
            0 <= i2 < es1.len() && (#[trigger] ls[l].contains(i2 as usize)) implies {
            let p2 = owners_in(ls, i2 as usize, 0, l);
            &&& 0 <= p2 < es1[i2].stack@.len()
            &&& p2 < es2[i2].stack@.len()
            &&& es1[i2].stack@[p2] == es2[i2].stack@[p2]
        } by {
            let i2u = i2 as usize;
            let p2 = owners_in(ls, i2u, 0, l);
            lemma_owners_in_bounds(ls, i2u, 0, l);
            lemma_owners_in_split(ls, i2u, 0, l + 1, nl);
            lemma_owners_in_bounds(ls, i2u, l + 1, nl);
            assert(owners_in(ls, i2u, 0, l + 1) == p2 + 1);
            if i2 == i {
                if l < t {
                    lemma_owners_in_split(ls, iu, 0, l + 1, t);
                    lemma_owners_in_bounds(ls, iu, l + 1, t);
                    assert(p2 < owners_in(ls, iu, 0, t));
                } else if l < hi {
                    assert(false);
                } else {
                    lemma_owners_in_split(ls, iu, 0, hi, l);
                    lemma_owners_in_bounds(ls, iu, hi, l);
                    assert(p2 >= cnt);
                }
            }
        }
        lemma_layer_map_stacks_agree(es1, es2, ls, l);
    }
    // layer `t` gets exactly the overwritten binding
    let m1 = layer_map_of(es1, ls, t);
    let m2 = layer_map_of(es2, ls, t);
    assert forall|k2: K| #[trigger] m2.dom().contains(k2) implies m1.insert(k, w).dom().contains(
        k2,
    ) && m2[k2] == m1.insert(k, w)[k2] by {
        let j = choose|j: int| owner_slot(ks2, ls, t, j, k2);
        lemma_slot_of_unique(ks1, k2, j);
        lemma_slot_of_unique(ks2, k2, j);
        assert(owner_slot(ks1, ls, t, j, k2));
        if j == i {
            assert(k2 == k);
            assert(m2[k2] == es2[i].stack@[owners_in(ls, iu, 0, t)]);
        } else {
            assert(k2 != k);
        }
    }
    assert forall|k2: K| #[trigger] m1.insert(k, w).dom().contains(k2) implies m2.dom().contains(
        k2,
    ) by {
        if k2 == k {
            assert(owner_slot(ks2, ls, t, i, k2));
        } else {
            let j = choose|j: int| owner_slot(ks1, ls, t, j, k2);
            assert(owner_slot(ks2, ls, t, j, k2));
        }
    }
    assert(m2 =~= m1.insert(k, w));
    assert(view_of(es2, ls) =~= view_of(es1, ls).update(t, view_of(es1, ls)[t].insert(k, w)));
}

impl<K: Eq + Hash, V, S: BuildHasher> ScopeMap<K, V, S> {
    /// Gets a mutable reference to the topmost value associated with a key.
    ///
    /// Writing through the reference overwrites the binding owned by the
    /// layer that the key's depth reports, leaving every other binding in
    /// place.
    pub fn get_mut(&mut self, key: &K) -> (r: Option<&mut V>)
        requires
            old(self).wf(),
            obeys_concrete_eq::<K>(),
        ensures
            final (self).wf(),
            final (self).spec_capacity() == old(self).spec_capacity(),
            r is None ==> *final (self) == *old(self) && lookup(old(self)@, *key) is None,
            r is Some ==> binding_depth(old(self)@, *key) is Some,
            r is Some ==> ({
                let t = old(self)@.len() - 1 - binding_depth(old(self)@, *key).unwrap();
                &&& lookup(old(self)@, *key) == Some(*r.unwrap())
                &&& final (self)@ == old(self)@.update(
                    t,
                    old(self)@[t].insert(*key, *final (r.unwrap())),
                )
            }),
    {
        let ghost es1 = old(self).entries@;
        let ghost ls1 = old(self).layer_views();
        let ghost nl = ls1.len() as int;
        let i = match self.find_index(key) {
            Some(i) => i,
            None => {
                proof {
                    lemma_lookup_no_slot(es1, ls1, *key, nl);
                }
                return None;
            },
        };
        let n = self.entries[i].stack.len();
        proof {
            lemma_owners_in_bounds(ls1, i, 0, nl);
        }
        if n == 0 {
            proof {
                lemma_lookup_is_stack(es1, ls1, *key, i as int, nl);
            }
            return None;
        }
        let el = &mut self.entries[i].stack[n - 1];
        proof {
            let es2 = after_borrow(*self).entries@;
            lemma_binding_update(es1, es2, ls1, *key, i as int, nl);
            let t = top_owner_below(ls1, i, nl);
            lemma_binding_depth_some(old(self)@, *key, nl - 1 - t);
        }
        Some(el)
    }

    /// Gets a mutable reference to a value `skip_count` layers below the
    /// topmost value associated with a key.
    ///
    /// "Below" counts only the layers that actually rebind this key; when
    /// `skip_count` exceeds the number of shadowed bindings the result is
    /// absent rather than an error. Writing through the reference overwrites
    /// the one shadowed binding it refers to.
    pub fn get_parent_mut(&mut self, key: &K, skip_count: usize) -> (r: Option<&mut V>)
        requires
            old(self).wf(),
            obeys_concrete_eq::<K>(),
        ensures
            final (self).wf(),
            final (self).spec_capacity() == old(self).spec_capacity(),
            r is None ==> *final (self) == *old(self) && lookup_below(
                old(self)@,
                *key,
                old(self)@.len() - skip_count,
            ) is None,
            r is Some ==> binding_depth(old(self)@.take(old(self)@.len() - skip_count), *key)
                is Some,
            r is Some ==> ({
                let hi = old(self)@.len() - skip_count;
                let t = hi - 1 - binding_depth(old(self)@.take(hi), *key).unwrap();
                &&& lookup_below(old(self)@, *key, hi) == Some(*r.unwrap())
                &&& final (self)@ == old(self)@.update(
                    t,
                    old(self)@[t].insert(*key, *final (r.unwrap())),
                )
            }),
    {
        let ghost es1 = old(self).entries@;
        let ghost ls1 = old(self).layer_views();
        let ghost nl = ls1.len() as int;
        let i = match self.find_index(key) {
            Some(i) => i,
            None => {
                proof {
                    lemma_lookup_no_slot(es1, ls1, *key, old(self)@.len() - skip_count);
                }
                return None;
            },
        };
        let depth = self.layers.len();
        let take = if skip_count < depth {
            skip_count
        } else {
            depth
        };
        let mut cnt: usize = 0;
        let mut t: usize = 0;
        while t < take
            invariant
                self == old(self),
                self.wf(),
                slot_with_key(keys_of(self.entries@), *key, i as int),
                take <= depth,
                depth == self.layer_views().len(),
                t <= take,
                cnt <= t,
                cnt as int == owners_in(
                    self.layer_views(),
                    i,
                    depth as int - t as int,
                    depth as int,
                ),
            decreases take - t,
        {
            let ghost ls = self.layer_views();
            let ghost lo = depth as int - t as int - 1;
            let owned = layer_has_index(&self.layers[depth - 1 - t], i);
            proof {
                lemma_owners_in_split(ls, i, lo, lo + 1, depth as int);
                assert(owners_in(ls, i, lo, lo) == 0);
            }
            if owned {
                cnt = cnt + 1;
            }
            t = t + 1;
        }
        let stack_len = self.entries[i].stack.len();
        let ghost hi = nl - take as int;
        proof {
            assert(keys_of(es1).len() == es1.len());
            lemma_owners_in_split(ls1, i, 0, hi, nl);
            lemma_owners_in_bounds(ls1, i, 0, hi);
            lemma_lookup_is_stack(es1, ls1, *key, i as int, hi);
        }
        if cnt < stack_len {
            proof {
                if skip_count >= depth {
                    assert(false);
                }
            }
            let el = &mut self.entries[i].stack[stack_len - 1 - cnt];
            proof {
                let es2 = after_borrow(*self).entries@;
                lemma_binding_update(es1, es2, ls1, *key, i as int, hi);
                let tl = top_owner_below(ls1, i, hi);
                let sub = old(self)@.take(hi);
                assert(sub[tl].dom().contains(*key));
                assert forall|l: int| sub.len() - (hi - 1 - tl) <= l < sub.len() implies !(
                #[trigger] sub[l].dom().contains(*key)) by {
                    assert(sub[l] == old(self)@[l]);
                }
                lemma_binding_depth_some(sub, *key, hi - 1 - tl);
            }
            Some(el)
        } else {
            None
        }
    }
}

impl<K, V, S: Default + BuildHasher> Default for ScopeMap<K, V, S> {
    /// Creates a new `ScopeMap` with the default configuration.
    fn default() -> (r: Self)
        ensures
            r.wf(),
            r@ == initial::<K, V>(),
            r.spec_capacity() == 0,
    {
        Self::with_hasher(Default::default())
    }
}

} // verus!
