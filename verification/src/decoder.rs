//! The decoder layers.
use vstd::prelude::*;

use crate::attention::Qwen3Attention;
use crate::cache::{KVCache, KVCacheView};
use crate::mask::{padding_fits, table_view};
use crate::nn::{
    column_of, dot_outcome, int_rows, is_int_table, normalized, projected, Linear, RmsNorm,
};
use crate::ops;
use crate::tensor::{
    in_bounds, last_axis, product_outcome, silu_outcome, source_index, sums, FloatTensor,
    TensorView,
};

verus! {

/// Feed-forward layer with SiLU gating.
pub struct Qwen3MLP {
    pub gate_proj: Linear,
    pub up_proj: Linear,
    pub down_proj: Linear,
}

/// `r` is a possible rounding of SiLU of `gate` times `up`, where these are the products of `row`
/// with a column each.
pub open spec fn gate_outcome(row: Seq<u32>, gate: Seq<u32>, up: Seq<u32>, r: u32) -> bool {
    exists|g: u32, s: u32, u: u32|
        {
            &&& #[trigger] dot_outcome(row, gate, g)
            &&& #[trigger] silu_outcome(g, s)
            &&& dot_outcome(row, up, u)
            &&& #[trigger] product_outcome(s, u, r)
        }
}

/// `r` holds for every row of `x` its gated projections.
pub open spec fn gated(gate: TensorView, up: TensorView, x: TensorView, r: TensorView) -> bool {
    &&& r.wf()
    &&& r.dims == x.dims.update(x.dims.len() - 1, gate.dims[1])
    &&& forall|idx: Seq<int>| in_bounds(r.dims, idx) ==> gate_outcome(
        last_axis(x, idx.drop_last()),
        column_of(gate, idx.last()),
        column_of(up, idx.last()),
        #[trigger] r.at(idx),
    )
}

impl Qwen3MLP {
    /// The length of a hidden state.
    pub open spec fn hidden_size(self) -> nat {
        self.gate_proj.weight@.dims[0]
    }

    /// The weights fit each other.
    pub open spec fn wf(self) -> bool {
        let inner = self.gate_proj.weight@.dims[1];
        &&& self.gate_proj.wf(self.hidden_size(), inner)
        &&& self.up_proj.wf(self.hidden_size(), inner)
        &&& self.down_proj.wf(inner, self.hidden_size())
    }

    /// `r` is a possible result of the layer on `x`.
    pub open spec fn outcome(self, x: TensorView, r: TensorView) -> bool {
        exists|m: TensorView|
            {
                &&& #[trigger] gated(self.gate_proj.weight@, self.up_proj.weight@, x, m)
                &&& projected(self.down_proj.weight@, m, r)
            }
    }

    /// A layer with weights drawn at random.
    pub fn new(hidden_size: usize, intermediate_size: usize) -> (r: Qwen3MLP)
        requires
            hidden_size > 0,
            intermediate_size > 0,
            hidden_size * intermediate_size <= usize::MAX,
        ensures
            r.wf(),
            r.gate_proj.wf(hidden_size as nat, intermediate_size as nat),
    {
        assert(intermediate_size * hidden_size == hidden_size * intermediate_size)
            by (nonlinear_arith);
        Qwen3MLP {
            gate_proj: Linear::init(hidden_size, intermediate_size),
            up_proj: Linear::init(hidden_size, intermediate_size),
            down_proj: Linear::init(intermediate_size, hidden_size),
        }
    }

    /// Forward pass.
    pub fn forward(&self, x: &FloatTensor) -> (r: FloatTensor)
        requires
            self.wf(),
            x@.wf(),
            x@.dims.len() == 3,
            x@.dims[2] == self.hidden_size(),
        ensures
            self.outcome(x@, r@),
            r@.wf(),
            r@.dims == x@.dims,
    {
        let gate = self.gate_proj.forward::<3>(x);
        let gate_on = ops::silu::<3>(&gate);
        let up = self.up_proj.forward::<3>(x);
        assert(gate@.dims =~= up@.dims);
        let m = ops::times::<3>(&gate_on, &up);
        assert(m@.dims =~= gate@.dims);
        let r = self.down_proj.forward::<3>(&m);
        proof {
            assert forall|idx: Seq<int>| in_bounds(m@.dims, idx) implies gate_outcome(
                last_axis(x@, idx.drop_last()),
                column_of(self.gate_proj.weight@, idx.last()),
                column_of(self.up_proj.weight@, idx.last()),
                #[trigger] m@.at(idx),
            ) by {
                assert(source_index(gate@.dims, idx) =~= idx);
                assert(silu_outcome(gate@.at(idx), gate_on@.at(idx)));
                assert(product_outcome(gate_on@.at(idx), up@.at(idx), m@.at(idx)));
            }
            assert(gated(self.gate_proj.weight@, self.up_proj.weight@, x@, m@));
            assert(r@.dims =~= x@.dims);
        }
        r
    }
}

/// A single decoder layer: attention and a feed-forward layer, each behind a normalization and
/// with its input added to its output.
pub struct Qwen3DecoderLayer {
    pub self_attn: Qwen3Attention,
    pub mlp: Qwen3MLP,
    pub input_layernorm: RmsNorm,
    pub post_attention_layernorm: RmsNorm,
}

/// The steps of a layer: the normalized input, its queries, keys and values, and the result of
/// attention.
pub struct LayerTrace {
    pub normed: TensorView,
    pub q: TensorView,
    pub k: TensorView,
    pub v: TensorView,
    pub attended: TensorView,
}

impl Qwen3DecoderLayer {
    /// The length of a hidden state.
    pub open spec fn hidden_size(self) -> nat {
        self.self_attn.hidden_size()
    }

    /// The parts are well-formed and fit each other.
    pub open spec fn wf(self) -> bool {
        &&& self.self_attn.wf()
        &&& self.mlp.wf()
        &&& self.mlp.hidden_size() == self.hidden_size()
        &&& self.input_layernorm.wf(self.hidden_size())
        &&& self.post_attention_layernorm.wf(self.hidden_size())
    }

    /// `r` is a possible result of the feed-forward half on `x`.
    pub open spec fn feed_forward_outcome(self, x: TensorView, r: TensorView) -> bool {
        exists|normed: TensorView, m: TensorView|
            {
                &&& normalized(
                    self.post_attention_layernorm.gamma@,
                    self.post_attention_layernorm.epsilon,
                    x,
                    normed,
                )
                &&& #[trigger] self.mlp.outcome(normed, m)
                &&& sums(x, m, r)
            }
    }

    /// `r` is a possible result of the layer on `x`, once attention has given `a`.
    pub open spec fn rest_outcome(self, x: TensorView, a: TensorView, r: TensorView) -> bool {
        exists|mid: TensorView| #[trigger] sums(x, a, mid) && self.feed_forward_outcome(mid, r)
    }

    /// `normed` is a possible result of the layer's first normalization of `x`.
    pub open spec fn normed(self, x: TensorView, normed: TensorView) -> bool {
        normalized(self.input_layernorm.gamma@, self.input_layernorm.epsilon, x, normed)
    }

    /// `r` is a possible result of the forward pass on `x`, by the steps `t`.
    pub open spec fn forward_with(
        self,
        x: TensorView,
        padding: Option<Seq<Seq<bool>>>,
        positions: Seq<Seq<i64>>,
        t: LayerTrace,
        r: TensorView,
    ) -> bool {
        &&& self.normed(x, t.normed)
        &&& self.self_attn.forward_with(t.normed, padding, positions, t.q, t.k, t.v, t.attended)
        &&& self.rest_outcome(x, t.attended, r)
    }

    /// `r` is a possible result of the forward pass on `x`.
    pub open spec fn forward_outcome(
        self,
        x: TensorView,
        padding: Option<Seq<Seq<bool>>>,
        positions: Seq<Seq<i64>>,
        r: TensorView,
    ) -> bool {
        exists|t: LayerTrace| #[trigger] self.forward_with(x, padding, positions, t, r)
    }

    /// `r` is a possible result of the forward pass on `x` with a cache that goes from `before` to
    /// `after`, by the steps `t`.
    pub open spec fn cached_with(
        self,
        x: TensorView,
        padding: Option<Seq<Seq<bool>>>,
        positions: Seq<Seq<i64>>,
        before: KVCacheView,
        after: KVCacheView,
        t: LayerTrace,
        r: TensorView,
    ) -> bool {
        &&& self.normed(x, t.normed)
        &&& self.self_attn.cached_with(
            t.normed,
            padding,
            positions,
            before,
            after,
            t.q,
            t.k,
            t.v,
            t.attended,
        )
        &&& self.rest_outcome(x, t.attended, r)
    }

    /// `r` is a possible result of the forward pass on `x` with a cache that holds `before`, and
    /// `after` is what the cache then holds.
    pub open spec fn cached_outcome(
        self,
        x: TensorView,
        padding: Option<Seq<Seq<bool>>>,
        positions: Seq<Seq<i64>>,
        before: KVCacheView,
        after: KVCacheView,
        r: TensorView,
    ) -> bool {
        exists|t: LayerTrace| #[trigger]
            self.cached_with(x, padding, positions, before, after, t, r)
    }

    /// Whether the cache of this layer can take `seq` more positions of `batch` sequences, and the
    /// padding mask is as long as the cache will be.
    pub open spec fn cache_fits(
        self,
        batch: nat,
        seq: nat,
        padding: Option<Seq<Seq<bool>>>,
        cache: KVCacheView,
    ) -> bool {
        &&& cache.fits(batch, self.self_attn.num_kv_heads as nat, self.self_attn.head_dim as nat)
        &&& cache.past_len() + seq <= usize::MAX
        &&& padding_fits(padding, batch, cache.past_len() + seq)
    }

    /// Whether the cache of this layer holds `len` positions of `batch` sequences.
    pub open spec fn cache_holds(self, batch: nat, len: nat, cache: KVCacheView) -> bool {
        &&& cache.fits(batch, self.self_attn.num_kv_heads as nat, self.self_attn.head_dim as nat)
        &&& cache.past_len() == len
    }

    /// Whether the cache of this layer has grown from `before` to `after` by `seq` positions of
    /// `batch` sequences, and is well-formed.
    pub open spec fn cache_grown(
        self,
        batch: nat,
        seq: nat,
        before: KVCacheView,
        after: KVCacheView,
    ) -> bool {
        &&& after.wf(batch, self.self_attn.num_kv_heads as nat, self.self_attn.head_dim as nat)
        &&& after.seq_len() == before.past_len() + seq
    }

    /// Adds the output of attention and passes the sum through the feed-forward half.
    fn rest(&self, residual: &FloatTensor, attended: &FloatTensor) -> (r: FloatTensor)
        requires
            self.wf(),
            residual@.wf(),
            attended@.wf(),
            residual@.dims.len() == 3,
            residual@.dims[2] == self.hidden_size(),
            attended@.dims == residual@.dims,
        ensures
            self.rest_outcome(residual@, attended@, r@),
            r@.wf(),
            r@.dims == residual@.dims,
    {
        let mid = ops::plus::<3>(residual, attended);
        assert(mid@.dims =~= residual@.dims);
        let normed = self.post_attention_layernorm.forward::<3>(&mid);
        let m = self.mlp.forward(&normed);
        let r = ops::plus::<3>(&mid, &m);
        proof {
            assert(r@.dims =~= residual@.dims);
            assert(sums(residual@, attended@, mid@));
            assert(sums(mid@, m@, r@));
            assert(self.mlp.outcome(normed@, m@));
            assert(self.feed_forward_outcome(mid@, r@));
        }
        r
    }

    /// Forward pass.
    pub fn forward(
        &self,
        hidden_states: &FloatTensor,
        attention_mask: &Option<Vec<Vec<bool>>>,
        position_ids: &Vec<Vec<i64>>,
    ) -> (r: FloatTensor)
        requires
            self.wf(),
            hidden_states@.wf(),
            hidden_states@.dims.len() == 3,
            hidden_states@.dims[2] == self.hidden_size(),
            padding_fits(
                table_view(*attention_mask),
                hidden_states@.dims[0],
                hidden_states@.dims[1],
            ),
            is_int_table(
                int_rows(position_ids@),
                hidden_states@.dims[0],
                hidden_states@.dims[1],
            ),
        ensures
            self.forward_outcome(
                hidden_states@,
                table_view(*attention_mask),
                int_rows(position_ids@),
                r@,
            ),
            r@.wf(),
            r@.dims == hidden_states@.dims,
    {
        let normed = self.input_layernorm.forward::<3>(hidden_states);
        let a = self.self_attn.forward(&normed, attention_mask, position_ids);
        let r = self.rest(hidden_states, &a);
        proof {
            let padding = table_view(*attention_mask);
            let positions = int_rows(position_ids@);
            let (q, k, v) = choose|q: TensorView, k: TensorView, v: TensorView| #[trigger]
                self.self_attn.forward_with(normed@, padding, positions, q, k, v, a@);
            let t = LayerTrace { normed: normed@, q, k, v, attended: a@ };
            assert(self.forward_with(hidden_states@, padding, positions, t, r@));
        }
        r
    }

    /// Forward pass with a cache.
    pub fn forward_with_cache(
        &self,
        hidden_states: &FloatTensor,
        attention_mask: &Option<Vec<Vec<bool>>>,
        position_ids: &Vec<Vec<i64>>,
        cache: &mut KVCache,
    ) -> (r: FloatTensor)
        requires
            self.wf(),
            hidden_states@.wf(),
            hidden_states@.dims.len() == 3,
            hidden_states@.dims[2] == self.hidden_size(),
            self.cache_fits(
                hidden_states@.dims[0],
                hidden_states@.dims[1],
                table_view(*attention_mask),
                old(cache)@,
            ),
            is_int_table(
                int_rows(position_ids@),
                hidden_states@.dims[0],
                hidden_states@.dims[1],
            ),
        ensures
            self.cached_outcome(
                hidden_states@,
                table_view(*attention_mask),
                int_rows(position_ids@),
                old(cache)@,
                final(cache)@,
                r@,
            ),
            self.cache_grown(
                hidden_states@.dims[0],
                hidden_states@.dims[1],
                old(cache)@,
                final(cache)@,
            ),
            r@.wf(),
            r@.dims == hidden_states@.dims,
    {
        let normed = self.input_layernorm.forward::<3>(hidden_states);
        let a = self.self_attn.forward_with_cache(&normed, attention_mask, position_ids, cache);
        let r = self.rest(hidden_states, &a);
        proof {
            let padding = table_view(*attention_mask);
            let positions = int_rows(position_ids@);
            let (q, k, v) = choose|q: TensorView, k: TensorView, v: TensorView| #[trigger]
                self.self_attn.cached_with(
                    normed@,
                    padding,
                    positions,
                    old(cache)@,
                    cache@,
                    q,
                    k,
                    v,
                    a@,
                );
            let t = LayerTrace { normed: normed@, q, k, v, attended: a@ };
            assert(self.cached_with(
                hidden_states@,
                padding,
                positions,
                old(cache)@,
                cache@,
                t,
                r@,
            ));
        }
        r
    }
}

} // verus!
