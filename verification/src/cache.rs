//! Key-value cache for autoregressive generation.
//!
//! While tokens are generated one after the other, the keys and values of the earlier ones are
//! kept, and attention is computed for the new token only.
use vstd::prelude::*;

use crate::ops;
use crate::tensor::{
    concatenated, in_bounds, lemma_same_elements, FloatTensor, TensorView,
};

verus! {

/// The cache of a single attention layer.
#[derive(Debug)]
pub struct KVCache {
    /// Cached keys: `[batch, seq_len, num_kv_heads, head_dim]`
    pub key: Option<FloatTensor>,
    /// Cached values: `[batch, seq_len, num_kv_heads, head_dim]`
    pub value: Option<FloatTensor>,
}

/// The caches of all layers of a model.
#[derive(Debug)]
pub struct ModelCache {
    /// One cache for every layer.
    pub layers: Vec<KVCache>,
}

/// What the cache of a layer holds.
pub struct KVCacheView {
    pub key: Option<TensorView>,
    pub value: Option<TensorView>,
}

/// What an optional tensor holds.
pub open spec fn tensor_view(t: Option<FloatTensor>) -> Option<TensorView> {
    match t {
        Some(tensor) => Some(tensor@),
        None => None,
    }
}

impl View for KVCache {
    type V = KVCacheView;

    open spec fn view(&self) -> KVCacheView {
        KVCacheView { key: tensor_view(self.key), value: tensor_view(self.value) }
    }
}

impl View for ModelCache {
    type V = Seq<KVCacheView>;

    open spec fn view(&self) -> Seq<KVCacheView> {
        self.layers@.map_values(|c: KVCache| c@)
    }
}

/// Whether `new` can follow `past` along the sequence axis.
pub open spec fn follows(past: TensorView, new: TensorView) -> bool {
    &&& past.wf()
    &&& past.dims.len() == 4
    &&& past.dims[0] == new.dims[0]
    &&& past.dims[2] == new.dims[2]
    &&& past.dims[3] == new.dims[3]
    &&& past.dims[1] + new.dims[1] <= usize::MAX
}

impl KVCacheView {
    /// The empty cache.
    pub open spec fn empty() -> KVCacheView {
        KVCacheView { key: None, value: None }
    }

    /// The number of positions in the cache.
    pub open spec fn seq_len(self) -> nat {
        match self.key {
            Some(k) => k.dims[1],
            None => 0,
        }
    }

    /// The cache is empty, or holds keys and values for the same positions, with `heads` heads of
    /// `head_dim` for each of `batch` sequences.
    pub open spec fn wf(self, batch: nat, heads: nat, head_dim: nat) -> bool {
        match (self.key, self.value) {
            (Some(k), Some(v)) => {
                &&& k.wf()
                &&& v.wf()
                &&& k.dims == seq![batch, k.dims[1], heads, head_dim]
                &&& v.dims == k.dims
            },
            (None, None) => true,
            _ => false,
        }
    }

    /// The number of positions that an update puts new ones behind: those in the cache, if it has
    /// both keys and values.
    pub open spec fn past_len(self) -> nat {
        if self.key is Some && self.value is Some {
            (self.key->0).dims[1]
        } else {
            0
        }
    }

    /// The cache can take more positions of `batch` sequences with `heads` heads of `head_dim`: it
    /// is well-formed, or lacks its keys or its values and will start anew.
    pub open spec fn fits(self, batch: nat, heads: nat, head_dim: nat) -> bool {
        self.key is Some && self.value is Some ==> self.wf(batch, heads, head_dim)
    }

    /// The cache accepts `key` and `value`: what it already holds, they can follow.
    pub open spec fn accepts(self, key: TensorView, value: TensorView) -> bool {
        self.key is Some && self.value is Some ==> follows(self.key->0, key) && follows(
            self.value->0,
            value,
        )
    }

    /// `after` is the cache once `key` and `value` have been put behind what it holds.
    pub open spec fn updated(self, key: TensorView, value: TensorView, after: KVCacheView) -> bool {
        &&& after.key is Some
        &&& after.value is Some
        &&& if self.key is Some && self.value is Some {
            &&& concatenated(self.key->0, key, 1, after.key->0)
            &&& concatenated(self.value->0, value, 1, after.value->0)
        } else {
            &&& after.key->0 == key
            &&& after.value->0 == value
        }
    }
}

impl Clone for KVCache {
    fn clone(&self) -> (r: KVCache)
        ensures
            r@ == self@,
    {
        let key = match &self.key {
            Some(k) => Some(k.clone()),
            None => None,
        };
        let value = match &self.value {
            Some(v) => Some(v.clone()),
            None => None,
        };
        KVCache { key, value }
    }
}

impl Default for KVCache {
    fn default() -> (r: KVCache)
        ensures
            r@ == KVCacheView::empty(),
    {
        KVCache::new()
    }
}

impl KVCache {
    /// Creates an empty cache.
    pub fn new() -> (r: KVCache)
        ensures
            r@ == KVCacheView::empty(),
    {
        KVCache { key: None, value: None }
    }

    /// Puts new keys and values behind the cached ones along the sequence axis, and returns all of
    /// them. A cache that lacks its keys or its values starts anew.
    ///
    /// # Arguments
    /// * `new_key` - New keys `[batch, new_seq_len, num_kv_heads, head_dim]`
    /// * `new_value` - New values `[batch, new_seq_len, num_kv_heads, head_dim]`
    pub fn update(&mut self, new_key: FloatTensor, new_value: FloatTensor) -> (r: (
        FloatTensor,
        FloatTensor,
    ))
        requires
            new_key@.wf(),
            new_value@.wf(),
            new_key@.dims.len() == 4,
            new_value@.dims.len() == 4,
            old(self)@.accepts(new_key@, new_value@),
        ensures
            old(self)@.updated(new_key@, new_value@, final(self)@),
            final(self)@.key == Some(r.0@),
            final(self)@.value == Some(r.1@),
    {
        let (key, value) = match (&self.key, &self.value) {
            (Some(cached_key), Some(cached_value)) => {
                let key = ops::cat::<4>(cached_key, &new_key, 1);
                let value = ops::cat::<4>(cached_value, &new_value, 1);
                (key, value)
            },
            _ => (new_key, new_value),
        };
        self.key = Some(key.clone());
        self.value = Some(value.clone());
        (key, value)
    }

    /// The number of positions in the cache.
    pub fn seq_len(&self) -> (r: usize)
        requires
            self@.key matches Some(k) ==> k.dims.len() >= 2,
        ensures
            r == self@.seq_len(),
    {
        match &self.key {
            Some(k) => k.dims()[1],
            None => 0,
        }
    }

    /// Empties the cache.
    pub fn clear(&mut self)
        ensures
            final(self)@ == KVCacheView::empty(),
    {
        self.key = None;
        self.value = None;
    }
}

/// The number of positions in the first layer's cache.
pub open spec fn model_seq_len(layers: Seq<KVCacheView>) -> nat {
    if layers.len() > 0 {
        layers[0].seq_len()
    } else {
        0
    }
}

/// The empty caches of `n` layers.
pub open spec fn empty_caches(n: nat) -> Seq<KVCacheView> {
    Seq::new(n, |i: int| KVCacheView::empty())
}

impl ModelCache {
    /// Creates an empty cache for a model with this number of layers.
    pub fn new(num_layers: usize) -> (r: ModelCache)
        ensures
            r@ == empty_caches(num_layers as nat),
    {
        let mut layers: Vec<KVCache> = Vec::new();
        let mut i: usize = 0;
        while i < num_layers
            invariant
                0 <= i <= num_layers,
                layers@.len() == i,
                forall|j: int| 0 <= j < i ==> (#[trigger] layers@[j])@ == KVCacheView::empty(),
            decreases num_layers - i,
        {
            layers.push(KVCache::new());
            i += 1;
        }
        let r = ModelCache { layers };
        assert(r@ =~= empty_caches(num_layers as nat));
        r
    }

    /// The number of positions in the first layer's cache.
    pub fn seq_len(&self) -> (r: usize)
        requires
            self@.len() > 0 && self@[0].key is Some ==> (self@[0].key->0).dims.len() >= 2,
        ensures
            r == model_seq_len(self@),
    {
        if self.layers.len() == 0 {
            return 0;
        }
        assert(self@[0] == self.layers@[0]@);
        self.layers[0].seq_len()
    }

    /// Empties the caches of all layers.
    pub fn clear(&mut self)
        ensures
            final(self)@ == empty_caches(old(self)@.len()),
    {
        let mut i: usize = 0;
        while i < self.layers.len()
            invariant
                0 <= i <= self.layers@.len(),
                self.layers@.len() == old(self).layers@.len(),
                forall|j: int| 0 <= j < i ==> (#[trigger] self.layers@[j])@ == KVCacheView::empty(),
            decreases self.layers@.len() - i,
        {
            self.layers[i].clear();
            i += 1;
        }
        assert(self@ =~= empty_caches(old(self)@.len()));
    }
}

/// A cache that lacks its keys or its values starts anew: it forgets what it holds.
pub proof fn lemma_half_a_cache_starts_anew(
    before: KVCacheView,
    key: TensorView,
    value: TensorView,
    after: KVCacheView,
)
    requires
        before.key is None || before.value is None,
        before.updated(key, value, after),
    ensures
        after.key == Some(key),
        after.value == Some(value),
{
}

/// What a cache holds is the tensors of its fields, and what a model's caches hold is those of
/// every layer.
pub proof fn lemma_caches_hold_their_tensors(cache: ModelCache, l: int)
    requires
        0 <= l < cache.layers@.len(),
    ensures
        cache@.len() == cache.layers@.len(),
        cache@[l] == cache.layers@[l]@,
        cache.layers@[l].key is None <==> cache@[l].key is None,
        cache.layers@[l].value is None <==> cache@[l].value is None,
        cache.layers@[l].key matches Some(k) ==> cache@[l].key == Some(k@),
        cache.layers@[l].value matches Some(v) ==> cache@[l].value == Some(v@),
{
}

/// The length of a model's caches is the number of positions whose keys the first of them holds:
/// none without layers, and none before the first update.
pub proof fn lemma_length_is_that_of_the_keys(layers: Seq<KVCacheView>, n: nat, l: int)
    requires
        0 <= l < n,
    ensures
        layers.len() == 0 ==> model_seq_len(layers) == 0,
        layers.len() > 0 && layers[0].key is None ==> model_seq_len(layers) == 0,
        layers.len() > 0 ==> (layers[0].key matches Some(k) ==> model_seq_len(layers) == k.dims[1]),
        empty_caches(n).len() == n,
        empty_caches(n)[l].key is None,
        empty_caches(n)[l].value is None,
        model_seq_len(empty_caches(n)) == 0,
{
}

/// An update makes the cache longer by what was put in.
pub proof fn lemma_update_adds_positions(
    before: KVCacheView,
    key: TensorView,
    value: TensorView,
    after: KVCacheView,
    batch: nat,
    heads: nat,
    head_dim: nat,
)
    requires
        before.wf(batch, heads, head_dim),
        key.wf(),
        value.wf(),
        key.dims == seq![batch, key.dims[1], heads, head_dim],
        value.dims == key.dims,
        before.updated(key, value, after),
    ensures
        after.wf(batch, heads, head_dim),
        after.seq_len() == before.seq_len() + key.dims[1],
{
    if before.key is Some {
        let k = before.key->0;
        assert((after.key->0).dims =~= seq![batch, k.dims[1] + key.dims[1], heads, head_dim]);
        assert((after.value->0).dims =~= (after.key->0).dims);
    }
}

/// An update leaves every cached key and value where it was.
pub proof fn lemma_update_keeps_past(
    before: KVCacheView,
    key: TensorView,
    value: TensorView,
    after: KVCacheView,
    batch: nat,
    heads: nat,
    head_dim: nat,
    idx: Seq<int>,
)
    requires
        before.wf(batch, heads, head_dim),
        before.key is Some,
        key.dims == seq![batch, key.dims[1], heads, head_dim],
        value.dims == key.dims,
        before.updated(key, value, after),
        in_bounds((before.key->0).dims, idx),
    ensures
        (after.key->0).at(idx) == (before.key->0).at(idx),
        (after.value->0).at(idx) == (before.value->0).at(idx),
{
    assert(idx[1] < (before.key->0).dims[1]);
    assert(in_bounds((after.key->0).dims, idx));
    assert(in_bounds((after.value->0).dims, idx));
}

/// Putting one tensor behind another and a third behind both gives what putting the second and
/// the third, already joined, behind the first gives.
pub proof fn lemma_concatenation_is_associative(
    a: TensorView,
    b: TensorView,
    c: TensorView,
    ab: TensorView,
    bc: TensorView,
    left: TensorView,
    right: TensorView,
    dim: int,
)
    requires
        0 <= dim < a.dims.len(),
        b.dims == a.dims.update(dim, b.dims[dim]),
        c.dims == a.dims.update(dim, c.dims[dim]),
        concatenated(a, b, dim, ab),
        concatenated(ab, c, dim, left),
        concatenated(b, c, dim, bc),
        concatenated(a, bc, dim, right),
    ensures
        left == right,
{
    assert(left.dims =~= right.dims);
    assert forall|idx: Seq<int>| in_bounds(left.dims, idx) implies #[trigger] left.at(idx)
        == right.at(idx) by {
        let i = idx[dim];
        let na = a.dims[dim];
        let nb = b.dims[dim];
        if i < na {
            assert(in_bounds(ab.dims, idx));
            assert(ab.at(idx) == a.at(idx));
        } else {
            let j = idx.update(dim, i - na);
            assert(in_bounds(bc.dims, j)) by {
                assert forall|k: int| 0 <= k < bc.dims.len() implies 0 <= #[trigger] j[k]
                    < bc.dims[k] by {
                    assert(0 <= idx[k] < left.dims[k]);
                }
            }
            if i < na + nb {
                assert(in_bounds(ab.dims, idx)) by {
                    assert forall|k: int| 0 <= k < ab.dims.len() implies 0 <= #[trigger] idx[k]
                        < ab.dims[k] by {}
                }
                assert(ab.at(idx) == b.at(j));
                assert(bc.at(j) == b.at(j));
            } else {
                assert(bc.at(j) == c.at(j.update(dim, j[dim] - nb)));
                assert(j.update(dim, j[dim] - nb) =~= idx.update(dim, i - (na + nb)));
            }
        }
    }
    lemma_same_elements(left, right);
}

/// Two updates one after the other leave the cache that one update with both parts joined leaves.
pub proof fn lemma_updates_compose(
    before: KVCacheView,
    key_a: TensorView,
    value_a: TensorView,
    key_b: TensorView,
    value_b: TensorView,
    between: KVCacheView,
    after: KVCacheView,
    key_ab: TensorView,
    value_ab: TensorView,
    at_once: KVCacheView,
    batch: nat,
    heads: nat,
    head_dim: nat,
)
    requires
        before.wf(batch, heads, head_dim),
        key_a.wf(),
        value_a.wf(),
        key_b.wf(),
        value_b.wf(),
        key_a.dims == seq![batch, key_a.dims[1], heads, head_dim],
        value_a.dims == key_a.dims,
        key_b.dims == seq![batch, key_b.dims[1], heads, head_dim],
        value_b.dims == key_b.dims,
        before.updated(key_a, value_a, between),
        between.updated(key_b, value_b, after),
        concatenated(key_a, key_b, 1, key_ab),
        concatenated(value_a, value_b, 1, value_ab),
        before.updated(key_ab, value_ab, at_once),
    ensures
        after == at_once,
{
    if before.key is Some {
        let k = before.key->0;
        let v = before.value->0;
        assert(key_a.dims =~= k.dims.update(1, key_a.dims[1]));
        assert(key_b.dims =~= k.dims.update(1, key_b.dims[1]));
        assert(value_a.dims =~= v.dims.update(1, value_a.dims[1]));
        assert(value_b.dims =~= v.dims.update(1, value_b.dims[1]));
        lemma_concatenation_is_associative(
            k,
            key_a,
            key_b,
            between.key->0,
            key_ab,
            after.key->0,
            at_once.key->0,
            1,
        );
        lemma_concatenation_is_associative(
            v,
            value_a,
            value_b,
            between.value->0,
            value_ab,
            after.value->0,
            at_once.value->0,
            1,
        );
    } else {
        assert((after.key->0).dims =~= key_ab.dims);
        assert((after.value->0).dims =~= value_ab.dims);
        lemma_same_elements(after.key->0, key_ab);
        lemma_same_elements(after.value->0, value_ab);
    }
}

/// An update puts new position `j` behind all cached ones: it becomes position `len + j` of a cache
/// that held `len`.
pub proof fn lemma_update_puts_behind(
    before: KVCacheView,
    key: TensorView,
    value: TensorView,
    after: KVCacheView,
    batch: nat,
    heads: nat,
    head_dim: nat,
    idx: Seq<int>,
    len: nat,
)
    requires
        before.wf(batch, heads, head_dim),
        key.dims == seq![batch, key.dims[1], heads, head_dim],
        value.dims == key.dims,
        before.updated(key, value, after),
        in_bounds(key.dims, idx),
        before.key is None ==> len == 0,
        before.key matches Some(k) ==> len == k.dims[1],
    ensures
        after.key is Some,
        after.value is Some,
        (after.key->0).dims == key.dims.update(1, len + key.dims[1]),
        (after.value->0).dims == key.dims.update(1, len + key.dims[1]),
        (after.key->0).at(idx.update(1, len + idx[1])) == key.at(idx),
        (after.value->0).at(idx.update(1, len + idx[1])) == value.at(idx),
{
    let moved = idx.update(1, len + idx[1]);
    if before.key is Some {
        let (k, v) = (after.key->0, after.value->0);
        assert(k.dims =~= key.dims.update(1, len + key.dims[1]));
        assert(v.dims =~= k.dims);
        assert forall|i: int| 0 <= i < k.dims.len() implies 0 <= #[trigger] moved[i]
            < k.dims[i] by {
            assert(0 <= idx[i] < key.dims[i]);
        }
        assert(in_bounds(k.dims, moved));
        assert(in_bounds(v.dims, moved));
        assert(moved.update(1, moved[1] - len) =~= idx);
    } else {
        assert(key.dims.update(1, len + key.dims[1]) =~= key.dims);
        assert(moved =~= idx);
    }
}

} // verus!
