//! The base model: token embeddings, decoder layers and a final normalization.
use vstd::prelude::*;

use crate::cache::{empty_caches, KVCacheView, ModelCache};
use crate::config::{Qwen3Config, Qwen3DecoderLayerConfig};
use crate::decoder::Qwen3DecoderLayer;
use crate::mask::{flag_rows, is_table, padding_fits, table_view};
use crate::nn::{
    entries_below, int_rows, is_int_table, looked_up, normalized, Embedding, RmsNorm,
};
use crate::ops;
use crate::tensor::{in_bounds, FloatTensor, TensorView};

verus! {

/// The decoder-only transformer, for hidden states and embeddings.
pub struct Qwen3Model {
    pub config: Qwen3Config,
    pub embed_tokens: Embedding,
    pub layers: Vec<Qwen3DecoderLayer>,
    pub norm: RmsNorm,
}

/// The positions `start`, `start + 1` and so on, the same for every sequence.
pub open spec fn positions_from(start: nat, batch: nat, seq: nat) -> Seq<Seq<i64>> {
    Seq::new(batch, |b: int| Seq::new(seq, |j: int| (start + j) as i64))
}

/// The positions of `seq` tokens that follow `start` others, for `batch` sequences.
pub(crate) fn position_rows(start: usize, batch: usize, seq: usize) -> (r: Vec<Vec<i64>>)
    requires
        start + seq <= i64::MAX,
    ensures
        int_rows(r@) == positions_from(start as nat, batch as nat, seq as nat),
        is_int_table(int_rows(r@), batch as nat, seq as nat),
        forall|b: int, j: int|
            0 <= b < batch && 0 <= j < seq ==> #[trigger] r@[b]@[j] == start + j,
{
    let mut rows: Vec<Vec<i64>> = Vec::new();
    let ghost want = positions_from(start as nat, batch as nat, seq as nat);
    let mut b: usize = 0;
    while b < batch
        invariant
            0 <= b <= batch,
            start + seq <= i64::MAX,
            want == positions_from(start as nat, batch as nat, seq as nat),
            rows@.len() == b,
            forall|i: int| 0 <= i < b ==> (#[trigger] rows@[i])@ == want[i],
        decreases batch - b,
    {
        let mut row: Vec<i64> = Vec::new();
        let mut j: usize = 0;
        while j < seq
            invariant
                0 <= j <= seq,
                start + seq <= i64::MAX,
                row@.len() == j,
                forall|i: int| 0 <= i < j ==> #[trigger] row@[i] == start + i,
            decreases seq - j,
        {
            row.push(start as i64 + j as i64);
            j += 1;
        }
        assert(row@ =~= want[b as int]);
        rows.push(row);
        b += 1;
    }
    assert(int_rows(rows@) =~= want);
    assert forall|b: int, j: int| 0 <= b < batch && 0 <= j < seq implies #[trigger] rows@[b]@[j]
        == start + j by {
        assert(rows@[b]@ == want[b]);
    }
    rows
}

/// Whether `ids` are tokens of a batch: at least one sequence, all equally long and not empty, and
/// every token below `vocab`.
pub open spec fn are_tokens(ids: Seq<Seq<i64>>, vocab: nat) -> bool {
    &&& ids.len() > 0
    &&& ids[0].len() > 0
    &&& is_int_table(ids, ids.len(), ids[0].len())
    &&& entries_below(ids, vocab)
}

/// The smaller of two numbers.
pub open spec fn least(a: nat, b: nat) -> nat {
    if a < b {
        a
    } else {
        b
    }
}

impl Qwen3Config {
    /// Whether `model` is a model of this configuration as it is first made.
    pub open spec fn made(self, model: Qwen3Model) -> bool {
        &&& model.config == self
        &&& model.layers@.len() == self.num_hidden_layers
        &&& forall|l: int|
            0 <= l < model.layers@.len() ==> self.layer().made(#[trigger] model.layers@[l])
        &&& model.embed_tokens.wf(self.vocab_size as nat, self.hidden_size as nat)
        &&& model.norm.unscaled(self.hidden_size as nat, self.rms_norm_eps)
    }

    /// Initializes a model.
    pub fn init(&self) -> (r: Qwen3Model)
        requires
            self.can_be_made(),
        ensures
            self.made(r),
            self.can_run() ==> r.wf(),
    {
        let mut layers: Vec<Qwen3DecoderLayer> = Vec::new();
        let mut i: usize = 0;
        while i < self.num_hidden_layers
            invariant
                0 <= i <= self.num_hidden_layers,
                self.can_be_made(),
                layers@.len() == i,
                forall|l: int| 0 <= l < i ==> self.layer().made(#[trigger] layers@[l]),
                self.can_run() ==> forall|l: int| 0 <= l < i ==> (#[trigger] layers@[l]).wf(),
            decreases self.num_hidden_layers - i,
        {
            let layer = Qwen3DecoderLayerConfig::from_model_config(self).init();
            layers.push(layer);
            i += 1;
        }
        Qwen3Model {
            config: *self,
            embed_tokens: Embedding::init(self.vocab_size, self.hidden_size),
            layers,
            norm: RmsNorm::init(self.hidden_size, self.rms_norm_eps),
        }
    }
}

impl Qwen3Model {
    /// The layers are well-formed and fit the sizes of the configuration.
    pub open spec fn wf(self) -> bool {
        &&& self.embed_tokens.wf(self.config.vocab_size as nat, self.config.hidden_size as nat)
        &&& self.norm.wf(self.config.hidden_size as nat)
        &&& forall|l: int|
            0 <= l < self.layers@.len() ==> (#[trigger] self.layers@[l]).wf()
                && self.layers@[l].hidden_size() == self.config.hidden_size
    }

    /// `states` are the embeddings of `ids`, then what each layer makes of what the one before it
    /// gave, and last the final normalization.
    pub open spec fn forward_outcome(
        self,
        ids: Seq<Seq<i64>>,
        padding: Option<Seq<Seq<bool>>>,
        states: Seq<TensorView>,
    ) -> bool {
        let layers = self.layers@;
        &&& states.len() == layers.len() + 2
        &&& looked_up(self.embed_tokens.weight@, ids, states[0])
        &&& forall|l: int|
            0 <= l < layers.len() ==> (#[trigger] layers[l]).forward_outcome(
                states[l],
                padding,
                positions_from(0, ids.len(), ids[0].len()),
                states[l + 1],
            )
        &&& normalized(
            self.norm.gamma@,
            self.norm.epsilon,
            states[layers.len() as int],
            states.last(),
        )
    }

    /// `states` are the embeddings of `ids`, and then what each layer with a cache makes of what
    /// the one before it gave, with the caches going from `before` to `after`. A layer beyond the
    /// caches is left out, and so is a cache beyond the layers.
    pub open spec fn cached_states(
        self,
        ids: Seq<Seq<i64>>,
        padding: Option<Seq<Seq<bool>>>,
        positions: Seq<Seq<i64>>,
        before: Seq<KVCacheView>,
        after: Seq<KVCacheView>,
        states: Seq<TensorView>,
    ) -> bool {
        let used = least(self.layers@.len(), before.len());
        &&& states.len() == used + 1
        &&& after.len() == before.len()
        &&& looked_up(self.embed_tokens.weight@, ids, states[0])
        &&& forall|l: int|
            0 <= l < used ==> (#[trigger] self.layers@[l]).cached_outcome(
                states[l],
                padding,
                positions,
                before[l],
                after[l],
                states[l + 1],
            )
        &&& forall|l: int| used <= l < before.len() ==> #[trigger] after[l] == before[l]
    }

    /// `r` is a possible result of the forward pass on `ids` with caches that hold `before`, and
    /// `after` is what they then hold.
    pub open spec fn cached_outcome(
        self,
        ids: Seq<Seq<i64>>,
        padding: Option<Seq<Seq<bool>>>,
        positions: Seq<Seq<i64>>,
        before: Seq<KVCacheView>,
        after: Seq<KVCacheView>,
        r: TensorView,
    ) -> bool {
        exists|states: Seq<TensorView>|
            {
                &&& #[trigger] self.cached_states(ids, padding, positions, before, after, states)
                &&& normalized(self.norm.gamma@, self.norm.epsilon, states.last(), r)
            }
    }

    /// Whether the caches can take `seq` more positions of `batch` sequences.
    pub open spec fn caches_fit(
        self,
        batch: nat,
        seq: nat,
        padding: Option<Seq<Seq<bool>>>,
        caches: Seq<KVCacheView>,
    ) -> bool {
        forall|l: int|
            0 <= l < least(self.layers@.len(), caches.len()) ==> (
            #[trigger] self.layers@[l]).cache_fits(
                batch,
                seq,
                padding,
                caches[l],
            )
    }

    /// Whether every layer has a cache that holds `len` positions of `batch` sequences.
    pub open spec fn caches_hold(self, batch: nat, len: nat, caches: Seq<KVCacheView>) -> bool {
        &&& caches.len() == self.layers@.len()
        &&& forall|l: int|
            0 <= l < caches.len() ==> (#[trigger] self.layers@[l]).cache_holds(
                batch,
                len,
                caches[l],
            )
    }

    /// Whether every cache that a layer uses has grown by `seq` positions of `batch` sequences.
    pub open spec fn caches_grown(
        self,
        batch: nat,
        seq: nat,
        before: Seq<KVCacheView>,
        after: Seq<KVCacheView>,
    ) -> bool {
        forall|l: int|
            0 <= l < least(self.layers@.len(), before.len()) ==> (
            #[trigger] self.layers@[l]).cache_grown(
                batch,
                seq,
                before[l],
                after[l],
            )
    }

    /// The embedding weights.
    pub fn embed_tokens_weight(&self) -> (r: FloatTensor)
        ensures
            r@ == self.embed_tokens.weight@,
    {
        self.embed_tokens.weight.clone()
    }

    /// Forward pass returning all hidden states: the embeddings, the output of each layer, and the
    /// final normalized output.
    ///
    /// # Arguments
    /// * `input_ids` - Token IDs `[batch, seq]`
    /// * `attention_mask` - Optional attention mask `[batch, seq]`, true for a valid token
    pub fn forward(
        &self,
        input_ids: &Vec<Vec<i64>>,
        attention_mask: &Option<Vec<Vec<bool>>>,
    ) -> (r: Vec<FloatTensor>)
        requires
            self.wf(),
            are_tokens(int_rows(input_ids@), self.config.vocab_size as nat),
            input_ids@[0]@.len() <= i64::MAX,
            padding_fits(table_view(*attention_mask), input_ids@.len(), input_ids@[0]@.len()),
        ensures
            self.forward_outcome(
                int_rows(input_ids@),
                table_view(*attention_mask),
                r@.map_values(|t: FloatTensor| t@),
            ),
            forall|i: int|
                0 <= i < r@.len() ==> (#[trigger] r@[i])@.wf() && r@[i]@.dims == seq![
                    input_ids@.len(),
                    input_ids@[0]@.len(),
                    self.config.hidden_size as nat,
                ],
    {
        let ghost ids = int_rows(input_ids@);
        assert(ids[0] == input_ids@[0]@);
        let batch: usize = input_ids.len();
        let seq: usize = input_ids[0].len();
        let ghost dims = seq![batch as nat, seq as nat, self.config.hidden_size as nat];
        let ghost padding = table_view(*attention_mask);
        let ghost positions = positions_from(0, batch as nat, seq as nat);
        let position_ids = position_rows(0, batch, seq);
        let mut hidden_states = self.embed_tokens.forward(input_ids);
        let mut all: Vec<FloatTensor> = Vec::new();
        all.push(hidden_states.clone());
        let mut i: usize = 0;
        while i < self.layers.len()
            invariant
                0 <= i <= self.layers@.len(),
                self.wf(),
                padding == table_view(*attention_mask),
                int_rows(position_ids@) == positions,
                dims == seq![batch as nat, seq as nat, self.config.hidden_size as nat],
                padding_fits(padding, batch as nat, seq as nat),
                is_int_table(positions, batch as nat, seq as nat),
                all@.len() == i + 1,
                hidden_states@ == all@[i as int]@,
                looked_up(self.embed_tokens.weight@, ids, all@[0]@),
                forall|l: int|
                    0 <= l <= i ==> (#[trigger] all@[l])@.wf() && all@[l]@.dims == dims,
                forall|l: int|
                    0 <= l < i ==> (#[trigger] self.layers@[l]).forward_outcome(
                        all@[l]@,
                        padding,
                        positions,
                        all@[l + 1]@,
                    ),
            decreases self.layers@.len() - i,
        {
            let ghost before = all@;
            let layer = &self.layers[i];
            hidden_states = layer.forward(&hidden_states, attention_mask, &position_ids);
            all.push(hidden_states.clone());
            proof {
                assert forall|l: int| 0 <= l < i + 1 implies (
                #[trigger] self.layers@[l]).forward_outcome(
                    all@[l]@,
                    padding,
                    positions,
                    all@[l + 1]@,
                ) by {
                    assert(all@[l] == before[l]);
                    if l < i {
                        assert(all@[l + 1] == before[l + 1]);
                    }
                }
            }
            i += 1;
        }
        let ghost before = all@;
        let normed = self.norm.forward::<3>(&hidden_states);
        all.push(normed);
        proof {
            let states = all@.map_values(|t: FloatTensor| t@);
            assert forall|l: int| 0 <= l < self.layers@.len() implies (
            #[trigger] self.layers@[l]).forward_outcome(
                states[l],
                padding,
                positions,
                states[l + 1],
            ) by {
                assert(all@[l] == before[l]);
                assert(all@[l + 1] == before[l + 1]);
            }
            assert(all@[0] == before[0]);
            assert(all@[i as int] == before[i as int]);
        }
        all
    }

    /// Text embeddings: the output of the second-to-last layer, with the positions that the
    /// attention mask does not mark as valid set to zero.
    ///
    /// # Arguments
    /// * `input_ids` - Token IDs `[batch, seq]`
    /// * `attention_mask` - Attention mask `[batch, seq]`, true for a valid token
    pub fn encode(
        &self,
        input_ids: &Vec<Vec<i64>>,
        attention_mask: &Vec<Vec<bool>>,
    ) -> (r: FloatTensor)
        requires
            self.wf(),
            self.layers@.len() > 0,
            are_tokens(int_rows(input_ids@), self.config.vocab_size as nat),
            input_ids@[0]@.len() <= i64::MAX,
            is_table(flag_rows(attention_mask@), input_ids@.len(), input_ids@[0]@.len()),
        ensures
            self.encode_outcome(int_rows(input_ids@), flag_rows(attention_mask@), r@),
            r@.wf(),
            r@.dims == seq![
                input_ids@.len(),
                input_ids@[0]@.len(),
                self.config.hidden_size as nat,
            ],
    {
        let ghost valid = flag_rows(attention_mask@);
        let batch: usize = input_ids.len();
        let seq: usize = input_ids[0].len();
        let mut shared: Vec<Vec<bool>> = Vec::new();
        let mut hidden: Vec<Vec<bool>> = Vec::new();
        let mut b: usize = 0;
        while b < batch
            invariant
                0 <= b <= batch,
                valid == flag_rows(attention_mask@),
                is_table(valid, batch as nat, seq as nat),
                shared@.len() == b,
                hidden@.len() == b,
                forall|i: int| 0 <= i < b ==> (#[trigger] shared@[i])@ == valid[i],
                forall|i: int|
                    0 <= i < b ==> (#[trigger] hidden@[i])@ == Seq::new(
                        seq as nat,
                        |j: int| !valid[i][j],
                    ),
            decreases batch - b,
        {
            assert(valid[b as int] == attention_mask@[b as int]@);
            let mut keep: Vec<bool> = Vec::new();
            let mut drop: Vec<bool> = Vec::new();
            let mut j: usize = 0;
            while j < seq
                invariant
                    0 <= j <= seq,
                    0 <= b < attention_mask@.len(),
                    attention_mask@[b as int]@.len() == seq,
                    keep@ == attention_mask@[b as int]@.take(j as int),
                    drop@.len() == j,
                    forall|i: int|
                        0 <= i < j ==> #[trigger] drop@[i] == !attention_mask@[b as int]@[i],
                decreases seq - j,
            {
                keep.push(attention_mask[b][j]);
                drop.push(!attention_mask[b][j]);
                assert(keep@ =~= attention_mask@[b as int]@.take(j + 1));
                j += 1;
            }
            assert(keep@ =~= valid[b as int]);
            assert(drop@ =~= Seq::new(seq as nat, |j: int| !valid[b as int][j]));
            shared.push(keep);
            hidden.push(drop);
            b += 1;
        }
        let mask = Some(shared);
        assert(flag_rows(mask->0@) =~= valid);
        let all = self.forward(input_ids, &mask);
        let n: usize = self.layers.len();
        let r = ops::zero_rows(&all[n - 1], &hidden);
        proof {
            let states = all@.map_values(|t: FloatTensor| t@);
            assert(self.forward_outcome(int_rows(input_ids@), Some(valid), states));
            assert(states[n - 1] == all@[n - 1]@);
            assert(masked(states[n - 1], valid, r@));
        }
        r
    }

    /// `r` is a possible result of `encode`: the output of the second-to-last layer where `valid`
    /// marks a token, and zero elsewhere.
    pub open spec fn encode_outcome(
        self,
        ids: Seq<Seq<i64>>,
        valid: Seq<Seq<bool>>,
        r: TensorView,
    ) -> bool {
        exists|states: Seq<TensorView>|
            {
                &&& #[trigger] self.forward_outcome(ids, Some(valid), states)
                &&& masked(states[self.layers@.len() - 1], valid, r)
            }
    }

    /// Forward pass with a cache: the final normalized hidden states of the new tokens. Layers and
    /// caches go together in order as long as there are both.
    ///
    /// # Arguments
    /// * `input_ids` - IDs of the new tokens `[batch, seq]`
    /// * `attention_mask` - Optional attention mask `[batch, total_seq]`, cached positions
    ///   included, true for a valid token
    /// * `position_ids` - Position indices `[batch, seq]` of the new tokens
    /// * `cache` - The caches of all layers
    pub fn forward_with_cache(
        &self,
        input_ids: &Vec<Vec<i64>>,
        attention_mask: &Option<Vec<Vec<bool>>>,
        position_ids: &Vec<Vec<i64>>,
        cache: &mut ModelCache,
    ) -> (r: FloatTensor)
        requires
            self.wf(),
            are_tokens(int_rows(input_ids@), self.config.vocab_size as nat),
            is_int_table(int_rows(position_ids@), input_ids@.len(), input_ids@[0]@.len()),
            self.caches_fit(
                input_ids@.len(),
                input_ids@[0]@.len(),
                table_view(*attention_mask),
                old(cache)@,
            ),
        ensures
            self.cached_outcome(
                int_rows(input_ids@),
                table_view(*attention_mask),
                int_rows(position_ids@),
                old(cache)@,
                final(cache)@,
                r@,
            ),
            final(cache)@.len() == old(cache)@.len(),
            self.caches_grown(
                input_ids@.len(),
                input_ids@[0]@.len(),
                old(cache)@,
                final(cache)@,
            ),
            r@.wf(),
            r@.dims == seq![
                input_ids@.len(),
                input_ids@[0]@.len(),
                self.config.hidden_size as nat,
            ],
    {
        let ghost ids = int_rows(input_ids@);
        let ghost padding = table_view(*attention_mask);
        let ghost positions = int_rows(position_ids@);
        let ghost before = cache@;
        let ghost used = least(self.layers@.len(), before.len());
        assert(ids[0] == input_ids@[0]@);
        let ghost batch = ids.len();
        let ghost seq = ids[0].len();
        let ghost dims = seq![batch, seq, self.config.hidden_size as nat];
        let mut hidden_states = self.embed_tokens.forward(input_ids);
        let ghost mut states: Seq<TensorView> = seq![hidden_states@];
        let mut i: usize = 0;
        while i < self.layers.len() && i < cache.layers.len()
            invariant
                0 <= i <= used,
                self.wf(),
                used == least(self.layers@.len(), before.len()),
                cache@.len() == before.len(),
                padding == table_view(*attention_mask),
                positions == int_rows(position_ids@),
                is_int_table(positions, batch, seq),
                self.caches_fit(batch, seq, padding, before),
                dims == seq![batch, seq, self.config.hidden_size as nat],
                states.len() == i + 1,
                states.last() == hidden_states@,
                hidden_states@.wf(),
                hidden_states@.dims == dims,
                looked_up(self.embed_tokens.weight@, ids, states[0]),
                forall|l: int|
                    0 <= l < i ==> (#[trigger] self.layers@[l]).cached_outcome(
                        states[l],
                        padding,
                        positions,
                        before[l],
                        cache@[l],
                        states[l + 1],
                    ),
                forall|l: int|
                    0 <= l < i ==> (#[trigger] self.layers@[l]).cache_grown(
                        batch,
                        seq,
                        before[l],
                        cache@[l],
                    ),
                forall|l: int| i <= l < before.len() ==> #[trigger] cache@[l] == before[l],
            decreases used - i,
        {
            let ghost cache_before = cache@;
            let ghost states_before = states;
            let layer = &self.layers[i];
            assert(layer.cache_fits(batch, seq, padding, before[i as int]));
            assert(cache@[i as int] == cache.layers@[i as int]@);
            hidden_states =
            layer.forward_with_cache(
                &hidden_states,
                attention_mask,
                position_ids,
                &mut cache.layers[i],
            );
            proof {
                states = states.push(hidden_states@);
                assert(cache@[i as int] == cache.layers@[i as int]@);
                assert forall|l: int| 0 <= l < before.len() && l != i implies #[trigger] cache@[l]
                    == cache_before[l] by {}
                assert forall|l: int| 0 <= l < i + 1 implies (
                #[trigger] self.layers@[l]).cached_outcome(
                    states[l],
                    padding,
                    positions,
                    before[l],
                    cache@[l],
                    states[l + 1],
                ) by {
                    assert(states[l] == states_before[l]);
                    if l < i {
                        assert(states[l + 1] == states_before[l + 1]);
                        assert(cache@[l] == cache_before[l]);
                    }
                }
            }
            i += 1;
        }
        let r = self.norm.forward::<3>(&hidden_states);
        proof {
            assert(i == used);
            assert(self.cached_states(ids, padding, positions, before, cache@, states));
        }
        r
    }

    /// Creates an empty cache for this model.
    pub fn new_cache(&self) -> (r: ModelCache)
        ensures
            r@ == empty_caches(self.layers@.len()),
    {
        ModelCache::new(self.layers.len())
    }

    /// The number of layers.
    pub fn num_layers(&self) -> (r: usize)
        ensures
            r == self.layers@.len(),
    {
        self.layers.len()
    }
}

/// `r` is `t` with zeros at the positions that `valid` does not mark.
pub open spec fn masked(t: TensorView, valid: Seq<Seq<bool>>, r: TensorView) -> bool {
    &&& r.wf()
    &&& r.dims == t.dims
    &&& forall|idx: Seq<int>| in_bounds(t.dims, idx) ==> #[trigger] r.at(idx) == (
    if valid[idx[0]][idx[1]] {
        t.at(idx)
    } else {
        0u32
    })
}

} // verus!
