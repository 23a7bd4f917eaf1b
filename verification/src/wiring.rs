//! How the layers are wired: which elements every element of a result is computed from.
//!
//! Each law goes from the result of a forward pass down to the arithmetic on single elements, and
//! names every tensor on the way.
use vstd::prelude::*;

use crate::attention::{
    cached_column, cached_rows, grouped_attention, projected_heads, HeadsTrace, Qwen3Attention,
};
use crate::cache::KVCacheView;
use crate::causal_lm::{are_next, first_tokens, step_input, step_start, tokens_at, Qwen3ForCausalLM};
use crate::decoder::{gate_outcome, gated, LayerTrace, Qwen3DecoderLayer};
use crate::incremental::{hidden_from, lemma_heads_shapes, lemma_hidden_keys};
use crate::mask::{cached_mask, padding_fits, prefill_mask};
use crate::model::{positions_from, Qwen3Model};
use crate::nn::{
    attention_outcome, column_of, dot_outcome, is_finite, masked_outcome, normalized, projected,
    rms_norm_outcome, seen,
};
use crate::num::Single;
use crate::rope::{rotated, turn_tables};
use crate::tensor::{
    in_bounds, ix3, ix4, last_axis, lemma_offset3, lemma_offset4, product_outcome, silu_outcome,
    source_index, sum_outcome, sums, TensorView,
};

verus! {

/// Whether `positions` gives token `j` of every sequence the position `start + j`.
pub open spec fn counts_from(positions: Seq<Seq<i64>>, start: nat, batch: nat, seq: nat) -> bool {
    &&& positions.len() == batch
    &&& forall|b: int| 0 <= b < batch ==> (#[trigger] positions[b]).len() == seq
    &&& forall|b: int, j: int|
        0 <= b < batch && 0 <= j < seq ==> #[trigger] positions[b][j] == start + j
}

/// The positions of a pass are `start`, `start + 1` and so on, the same for every sequence: token
/// `j` is at `start + j`. There is one such table.
pub proof fn lemma_positions_count_up(
    positions: Seq<Seq<i64>>,
    start: nat,
    batch: nat,
    seq: nat,
)
    requires
        start + seq <= i64::MAX,
    ensures
        counts_from(positions, start, batch, seq) <==> positions == positions_from(
            start,
            batch,
            seq,
        ),
{
    let want = positions_from(start, batch, seq);
    assert(counts_from(want, start, batch, seq));
    if counts_from(positions, start, batch, seq) {
        assert forall|b: int| 0 <= b < batch implies #[trigger] positions[b] == want[b] by {
            assert forall|j: int| 0 <= j < seq implies positions[b][j] == want[b][j] by {
                assert(positions[b][j] == start + j);
            }
            assert(positions[b] =~= want[b]);
        }
        assert(positions =~= want);
    }
}

/// Two tokens of a sequence never share a position, and the next token has the next position.
pub proof fn lemma_positions_are_distinct(
    start: nat,
    batch: nat,
    seq: nat,
    b: int,
    i: int,
    j: int,
)
    requires
        start + seq <= i64::MAX,
        0 <= b < batch,
        0 <= i < seq,
        0 <= j < seq,
    ensures
        positions_from(start, batch, seq)[b][j] == start + j,
        positions_from(start, batch, seq)[b][i] == positions_from(start, batch, seq)[b][j] <==> i
            == j,
        positions_from(start, batch, seq)[b][j] - positions_from(start, batch, seq)[b][i] == j - i,
{
    lemma_positions_count_up(positions_from(start, batch, seq), start, batch, seq);
    assert(positions_from(start, batch, seq)[b][i] == start + i);
    assert(positions_from(start, batch, seq)[b][j] == start + j);
}

/// The states of a forward pass, whatever the number of layers: first the rows of the embedding
/// table that the tokens name; then for every layer what it makes of the state before, with token
/// `j` at position `j`; and last the rows of the last layer's output, normalized.
pub proof fn lemma_states_of_forward(
    model: Qwen3Model,
    ids: Seq<Seq<i64>>,
    padding: Option<Seq<Seq<bool>>>,
    states: Seq<TensorView>,
    positions: Seq<Seq<i64>>,
    l: int,
    idx: Seq<int>,
)
    requires
        model.forward_outcome(ids, padding, states),
        ids[0].len() <= i64::MAX,
        counts_from(positions, 0, ids.len(), ids[0].len()),
        0 <= l < model.layers@.len(),
    ensures
        states.len() == model.layers@.len() + 2,
        states[0].dims == seq![ids.len(), ids[0].len(), model.embed_tokens.weight@.dims[1]],
        in_bounds(states[0].dims, idx) ==> states[0].at(idx) == model.embed_tokens.weight@.at(
            seq![ids[idx[0]][idx[1]] as int, idx[2]],
        ),
        model.layers@[l].forward_outcome(states[l], padding, positions, states[l + 1]),
        states.last().dims == states[states.len() - 2].dims,
        in_bounds(states.last().dims, idx) ==> rms_norm_outcome(
            last_axis(states[states.len() - 2], idx.drop_last()),
            model.norm.epsilon.bits,
            model.norm.gamma@.data[idx.last()],
            idx.last(),
            states.last().at(idx),
        ),
{
    lemma_positions_count_up(positions, 0, ids.len(), ids[0].len());
}

/// The states of a forward pass with caches: first the rows of the embedding table that the tokens
/// name; then for every layer that has a cache what it makes of the state before, with its own
/// cache; and last the rows of the last state, normalized. A cache without a layer stays as it is.
/// The states but for the last are given back.
pub proof fn lemma_states_of_cached_forward(
    model: Qwen3Model,
    ids: Seq<Seq<i64>>,
    padding: Option<Seq<Seq<bool>>>,
    positions: Seq<Seq<i64>>,
    before: Seq<KVCacheView>,
    after: Seq<KVCacheView>,
    r: TensorView,
) -> (states: Seq<TensorView>)
    requires
        model.cached_outcome(ids, padding, positions, before, after, r),
    ensures
        states.len() == 1 + if before.len() < model.layers@.len() {
            before.len()
        } else {
            model.layers@.len()
        },
        after.len() == before.len(),
        states[0].dims == seq![ids.len(), ids[0].len(), model.embed_tokens.weight@.dims[1]],
        forall|idx: Seq<int>|
            in_bounds(states[0].dims, idx) ==> #[trigger] states[0].at(idx)
                == model.embed_tokens.weight@.at(seq![ids[idx[0]][idx[1]] as int, idx[2]]),
        forall|l: int|
            0 <= l < model.layers@.len() && l < before.len() ==> (
            #[trigger] model.layers@[l]).cached_outcome(
                states[l],
                padding,
                positions,
                before[l],
                after[l],
                states[l + 1],
            ),
        forall|l: int|
            model.layers@.len() <= l < before.len() ==> #[trigger] after[l] == before[l],
        r.dims == states.last().dims,
        forall|idx: Seq<int>|
            in_bounds(r.dims, idx) ==> rms_norm_outcome(
                last_axis(states.last(), idx.drop_last()),
                model.norm.epsilon.bits,
                model.norm.gamma@.data[idx.last()],
                idx.last(),
                #[trigger] r.at(idx),
            ),
{
    choose|states: Seq<TensorView>|
        {
            &&& #[trigger] model.cached_states(ids, padding, positions, before, after, states)
            &&& normalized(model.norm.gamma@, model.norm.epsilon, states.last(), r)
        }
}

/// The tensors between the input of a layer and its output.
pub struct LayerSteps {
    pub normed: TensorView,
    pub attended: TensorView,
    pub mid: TensorView,
    pub mid_normed: TensorView,
    pub inner: TensorView,
    pub fed: TensorView,
}

/// A layer normalizes its input, attends, and adds the input to the result; then it normalizes
/// that, passes it through the feed-forward layer, and adds what it had before to the result.
pub proof fn lemma_steps_of_layer(
    layer: Qwen3DecoderLayer,
    x: TensorView,
    padding: Option<Seq<Seq<bool>>>,
    positions: Seq<Seq<i64>>,
    r: TensorView,
) -> (s: LayerSteps)
    requires
        layer.wf(),
        x.wf(),
        x.dims.len() == 3,
        x.dims[2] == layer.hidden_size(),
        layer.forward_outcome(x, padding, positions, r),
    ensures
        r.dims == x.dims,
        layer.self_attn.forward_outcome(s.normed, padding, positions, s.attended),
        forall|idx: Seq<int>| #[trigger]
            in_bounds(x.dims, idx) ==> {
                &&& rms_norm_outcome(
                    last_axis(x, idx.drop_last()),
                    layer.input_layernorm.epsilon.bits,
                    layer.input_layernorm.gamma@.data[idx.last()],
                    idx.last(),
                    s.normed.at(idx),
                )
                &&& sum_outcome(x.at(idx), s.attended.at(idx), s.mid.at(idx))
                &&& rms_norm_outcome(
                    last_axis(s.mid, idx.drop_last()),
                    layer.post_attention_layernorm.epsilon.bits,
                    layer.post_attention_layernorm.gamma@.data[idx.last()],
                    idx.last(),
                    s.mid_normed.at(idx),
                )
                &&& dot_outcome(
                    last_axis(s.inner, idx.drop_last()),
                    column_of(layer.mlp.down_proj.weight@, idx.last()),
                    s.fed.at(idx),
                )
                &&& sum_outcome(s.mid.at(idx), s.fed.at(idx), r.at(idx))
            },
        s.mid_normed.dims == x.dims,
        gated(
            layer.mlp.gate_proj.weight@,
            layer.mlp.up_proj.weight@,
            s.mid_normed,
            s.inner,
        ),
{
    let t = choose|t: LayerTrace| #[trigger] layer.forward_with(x, padding, positions, t, r);
    lemma_attended_shape(
        layer.self_attn,
        t.normed,
        t.q,
        t.k,
        t.v,
        Some(prefill_mask(padding, x.dims[1], x.dims[1])),
        positions,
        t.k,
        t.v,
        t.attended,
    );
    let s = lemma_steps_behind_attention(layer, x, t.attended, r, t.normed);
    assert(layer.self_attn.forward_with(
        t.normed,
        padding,
        positions,
        t.q,
        t.k,
        t.v,
        t.attended,
    ));
    s
}

/// A layer with a cache goes by the same steps; only attention sees the cache.
pub proof fn lemma_steps_of_cached_layer(
    layer: Qwen3DecoderLayer,
    x: TensorView,
    padding: Option<Seq<Seq<bool>>>,
    positions: Seq<Seq<i64>>,
    before: KVCacheView,
    after: KVCacheView,
    r: TensorView,
) -> (s: LayerSteps)
    requires
        layer.wf(),
        x.wf(),
        x.dims.len() == 3,
        x.dims[2] == layer.hidden_size(),
        layer.cached_outcome(x, padding, positions, before, after, r),
    ensures
        r.dims == x.dims,
        layer.self_attn.cached_outcome(
            s.normed,
            padding,
            positions,
            before,
            after,
            s.attended,
        ),
        forall|idx: Seq<int>| #[trigger]
            in_bounds(x.dims, idx) ==> {
                &&& rms_norm_outcome(
                    last_axis(x, idx.drop_last()),
                    layer.input_layernorm.epsilon.bits,
                    layer.input_layernorm.gamma@.data[idx.last()],
                    idx.last(),
                    s.normed.at(idx),
                )
                &&& sum_outcome(x.at(idx), s.attended.at(idx), s.mid.at(idx))
                &&& rms_norm_outcome(
                    last_axis(s.mid, idx.drop_last()),
                    layer.post_attention_layernorm.epsilon.bits,
                    layer.post_attention_layernorm.gamma@.data[idx.last()],
                    idx.last(),
                    s.mid_normed.at(idx),
                )
                &&& dot_outcome(
                    last_axis(s.inner, idx.drop_last()),
                    column_of(layer.mlp.down_proj.weight@, idx.last()),
                    s.fed.at(idx),
                )
                &&& sum_outcome(s.mid.at(idx), s.fed.at(idx), r.at(idx))
            },
        s.mid_normed.dims == x.dims,
        gated(
            layer.mlp.gate_proj.weight@,
            layer.mlp.up_proj.weight@,
            s.mid_normed,
            s.inner,
        ),
{
    let t = choose|t: LayerTrace| #[trigger]
        layer.cached_with(x, padding, positions, before, after, t, r);
    let (keys, values) = (after.key->0, after.value->0);
    lemma_attended_shape(
        layer.self_attn,
        t.normed,
        t.q,
        t.k,
        t.v,
        cached_mask(padding, x.dims[1], keys.dims[1]),
        positions,
        keys,
        values,
        t.attended,
    );
    assert(layer.self_attn.cached_with(
        t.normed,
        padding,
        positions,
        before,
        after,
        t.q,
        t.k,
        t.v,
        t.attended,
    ));
    lemma_steps_behind_attention(layer, x, t.attended, r, t.normed)
}

/// What attention gives has the shape of the hidden states.
proof fn lemma_attended_shape(
    attn: Qwen3Attention,
    x: TensorView,
    q: TensorView,
    k: TensorView,
    v: TensorView,
    mask: Option<Seq<Seq<Seq<bool>>>>,
    positions: Seq<Seq<i64>>,
    keys: TensorView,
    values: TensorView,
    r: TensorView,
)
    requires
        attn.wf(),
        x.dims.len() == 3,
        x.dims[2] == attn.hidden_size(),
        attn.heads_outcome(x, positions, q, k, v),
        attn.mix_outcome(q, keys, values, mask, r),
    ensures
        r.wf(),
        r.dims == x.dims,
{
    lemma_heads_shapes(attn, x, positions, q, k, v);
    let mixed = choose|mixed: TensorView|
        {
            &&& #[trigger] grouped_attention(q, keys, values, attn.group(), mask, mixed)
            &&& projected(attn.o_proj.weight@, mixed, r)
        };
    assert(r.dims =~= x.dims);
}

/// An index is its own source in a tensor of the same axes.
proof fn lemma_own_source(dims: Seq<nat>, idx: Seq<int>)
    requires
        in_bounds(dims, idx),
    ensures
        source_index(dims, idx) == idx,
{
    assert forall|i: int| 0 <= i < idx.len() implies #[trigger] source_index(dims, idx)[i]
        == idx[i] by {
        assert(0 <= idx[i] < dims[i]);
    }
    assert(source_index(dims, idx) =~= idx);
}

/// What follows attention in a layer.
proof fn lemma_steps_behind_attention(
    layer: Qwen3DecoderLayer,
    x: TensorView,
    a: TensorView,
    r: TensorView,
    normed: TensorView,
) -> (s: LayerSteps)
    requires
        layer.wf(),
        x.wf(),
        x.dims.len() == 3,
        x.dims[2] == layer.hidden_size(),
        layer.normed(x, normed),
        a.wf(),
        a.dims == x.dims,
        layer.rest_outcome(x, a, r),
    ensures
        r.dims == x.dims,
        s.normed == normed,
        s.attended == a,
        forall|idx: Seq<int>| #[trigger]
            in_bounds(x.dims, idx) ==> {
                &&& rms_norm_outcome(
                    last_axis(x, idx.drop_last()),
                    layer.input_layernorm.epsilon.bits,
                    layer.input_layernorm.gamma@.data[idx.last()],
                    idx.last(),
                    s.normed.at(idx),
                )
                &&& sum_outcome(x.at(idx), s.attended.at(idx), s.mid.at(idx))
                &&& rms_norm_outcome(
                    last_axis(s.mid, idx.drop_last()),
                    layer.post_attention_layernorm.epsilon.bits,
                    layer.post_attention_layernorm.gamma@.data[idx.last()],
                    idx.last(),
                    s.mid_normed.at(idx),
                )
                &&& dot_outcome(
                    last_axis(s.inner, idx.drop_last()),
                    column_of(layer.mlp.down_proj.weight@, idx.last()),
                    s.fed.at(idx),
                )
                &&& sum_outcome(s.mid.at(idx), s.fed.at(idx), r.at(idx))
            },
        s.mid_normed.dims == x.dims,
        gated(
            layer.mlp.gate_proj.weight@,
            layer.mlp.up_proj.weight@,
            s.mid_normed,
            s.inner,
        ),
{
    let norm = layer.post_attention_layernorm;
    let mid = choose|mid: TensorView| #[trigger]
        sums(x, a, mid) && layer.feed_forward_outcome(mid, r);
    assert(mid.dims =~= x.dims);
    let (mid_normed, fed) = choose|normed: TensorView, m: TensorView|
        {
            &&& normalized(norm.gamma@, norm.epsilon, mid, normed)
            &&& #[trigger] layer.mlp.outcome(normed, m)
            &&& sums(mid, m, r)
        };
    let inner = choose|inner: TensorView|
        {
            &&& #[trigger] gated(
                layer.mlp.gate_proj.weight@,
                layer.mlp.up_proj.weight@,
                mid_normed,
                inner,
            )
            &&& projected(layer.mlp.down_proj.weight@, inner, fed)
        };
    assert(fed.dims =~= x.dims);
    assert(r.dims =~= x.dims);
    let s = LayerSteps { normed, attended: a, mid, mid_normed, inner, fed };
    assert forall|idx: Seq<int>| #[trigger] in_bounds(x.dims, idx) implies {
        &&& rms_norm_outcome(
            last_axis(x, idx.drop_last()),
            layer.input_layernorm.epsilon.bits,
            layer.input_layernorm.gamma@.data[idx.last()],
            idx.last(),
            s.normed.at(idx),
        )
        &&& sum_outcome(x.at(idx), s.attended.at(idx), s.mid.at(idx))
        &&& rms_norm_outcome(
            last_axis(s.mid, idx.drop_last()),
            norm.epsilon.bits,
            norm.gamma@.data[idx.last()],
            idx.last(),
            s.mid_normed.at(idx),
        )
        &&& dot_outcome(
            last_axis(s.inner, idx.drop_last()),
            column_of(layer.mlp.down_proj.weight@, idx.last()),
            s.fed.at(idx),
        )
        &&& sum_outcome(s.mid.at(idx), s.fed.at(idx), r.at(idx))
    } by {
        lemma_own_source(x.dims, idx);
        assert(normed.at(idx) == normed.at(idx));
        assert(mid.at(idx) == mid.at(idx));
        assert(mid_normed.at(idx) == mid_normed.at(idx));
        assert(fed.at(idx) == fed.at(idx));
        assert(r.at(idx) == r.at(idx));
    }
    s
}

/// An entry inside the feed-forward layer is SiLU of the product of the row with a column of the
/// first projection, times the product of the row with the same column of the second. The first
/// product, SiLU of it and the second product are given back.
pub proof fn lemma_gated_entry(
    gate: TensorView,
    up: TensorView,
    x: TensorView,
    inner: TensorView,
    b: int,
    j: int,
    c: int,
) -> (s: (u32, u32, u32))
    requires
        gated(gate, up, x, inner),
        x.dims.len() == 3,
        0 <= b < x.dims[0],
        0 <= j < x.dims[1],
        0 <= c < gate.dims[1],
    ensures
        dot_outcome(last_axis(x, seq![b, j]), column_of(gate, c), s.0),
        silu_outcome(s.0, s.1),
        dot_outcome(last_axis(x, seq![b, j]), column_of(up, c), s.2),
        product_outcome(s.1, s.2, inner.at(ix3(b, j, c))),
{
    let idx = ix3(b, j, c);
    assert(in_bounds(inner.dims, idx));
    assert(idx.drop_last() =~= seq![b, j]);
    let r = inner.at(idx);
    let (row, g, u) = (last_axis(x, seq![b, j]), column_of(gate, c), column_of(up, c));
    assert(gate_outcome(row, g, u, r));
    let (p, q, w) = choose|p: u32, q: u32, w: u32|
        {
            &&& #[trigger] dot_outcome(row, g, p)
            &&& #[trigger] silu_outcome(p, q)
            &&& dot_outcome(row, u, w)
            &&& #[trigger] product_outcome(q, w, r)
        };
    (p, q, w)
}

/// The heads of a projection, laid side by side, are what the linear layer gives: head `h` holds
/// the columns from `h * head_dim` on.
pub proof fn lemma_heads_side_by_side(
    weight: TensorView,
    x: TensorView,
    heads: nat,
    head_dim: nat,
    r: TensorView,
    b: int,
    j: int,
    h: int,
    d: int,
)
    requires
        x.dims.len() == 3,
        projected_heads(weight, x, heads, head_dim, r),
        0 <= b < x.dims[0],
        0 <= j < x.dims[1],
        0 <= h < heads,
        0 <= d < head_dim,
    ensures
        ({
            let flat = r.reshaped(seq![x.dims[0], x.dims[1], heads * head_dim]);
            let c = head_dim * h + d;
            &&& flat.at(ix3(b, j, c)) == r.at(ix4(b, j, h, d))
            &&& dot_outcome(
                last_axis(x, seq![b, j]),
                column_of(weight, c),
                flat.at(ix3(b, j, c)),
            )
        }),
{
    let flat = r.reshaped(seq![x.dims[0], x.dims[1], heads * head_dim]);
    let (e, n) = (head_dim as int, heads as int);
    let c = e * h + d;
    assert(c == h * e + d) by (nonlinear_arith)
        requires
            c == e * h + d,
    ;
    assert(0 <= c < n * e) by (nonlinear_arith)
        requires
            c == e * h + d,
            0 <= h < n,
            0 <= d < e,
    ;
    lemma_offset3(flat.dims, ix3(b, j, c));
    lemma_offset4(r.dims, ix4(b, j, h, d));
    let s = x.dims[1] as int;
    assert((b * s + j) * (n * e) + c == ((b * s + j) * n + h) * e + d) by (nonlinear_arith)
        requires
            c == e * h + d,
    ;
    assert(in_bounds(r.dims, ix4(b, j, h, d)));
    let idx = ix4(b, j, h, d);
    assert(seq![idx[0], idx[1]] =~= seq![b, j]);
    assert(dot_outcome(
        last_axis(x, seq![idx[0], idx[1]]),
        column_of(weight, idx[2] * head_dim + idx[3]),
        r.at(idx),
    ));
}

/// Queries and keys are projected, normalized vector by vector with their own scale, and turned by
/// the tables of their positions; values are projected only.
pub proof fn lemma_steps_to_heads(
    attn: Qwen3Attention,
    x: TensorView,
    positions: Seq<Seq<i64>>,
    q: TensorView,
    k: TensorView,
    v: TensorView,
    idx: Seq<int>,
) -> (t: HeadsTrace)
    requires
        attn.heads_outcome(x, positions, q, k, v),
    ensures
        projected_heads(
            attn.q_proj.weight@,
            x,
            attn.num_heads as nat,
            attn.head_dim as nat,
            t.q,
        ),
        projected_heads(
            attn.k_proj.weight@,
            x,
            attn.num_kv_heads as nat,
            attn.head_dim as nat,
            t.k,
        ),
        projected_heads(
            attn.v_proj.weight@,
            x,
            attn.num_kv_heads as nat,
            attn.head_dim as nat,
            v,
        ),
        t.q_normed.dims == t.q.dims,
        t.k_normed.dims == t.k.dims,
        in_bounds(t.q.dims, idx) ==> rms_norm_outcome(
            last_axis(t.q, idx.drop_last()),
            attn.q_norm.epsilon.bits,
            attn.q_norm.gamma@.data[idx.last()],
            idx.last(),
            t.q_normed.at(idx),
        ),
        in_bounds(t.k.dims, idx) ==> rms_norm_outcome(
            last_axis(t.k, idx.drop_last()),
            attn.k_norm.epsilon.bits,
            attn.k_norm.gamma@.data[idx.last()],
            idx.last(),
            t.k_normed.at(idx),
        ),
        turn_tables(positions, attn.head_dim as nat, attn.rope_theta, t.cos, t.sin),
        rotated(t.q_normed, t.cos, t.sin, q),
        rotated(t.k_normed, t.cos, t.sin, k),
{
    choose|t: HeadsTrace| #[trigger] attn.heads_with(x, positions, t, q, k, v)
}

/// The rows of the result are the mixed values times the weights of the output projection, and the
/// values are mixed for the queries under the causal mask and the padding.
pub proof fn lemma_steps_of_attention(
    attn: Qwen3Attention,
    x: TensorView,
    padding: Option<Seq<Seq<bool>>>,
    positions: Seq<Seq<i64>>,
    r: TensorView,
) -> (t: (TensorView, TensorView, TensorView, TensorView))
    requires
        attn.forward_outcome(x, padding, positions, r),
    ensures
        attn.heads_outcome(x, positions, t.0, t.1, t.2),
        grouped_attention(
            t.0,
            t.1,
            t.2,
            (attn.num_heads / attn.num_kv_heads) as nat,
            Some(prefill_mask(padding, x.dims[1], x.dims[1])),
            t.3,
        ),
        r.dims == t.3.dims.update(t.3.dims.len() - 1, attn.o_proj.weight@.dims[1]),
        forall|idx: Seq<int>|
            in_bounds(r.dims, idx) ==> dot_outcome(
                last_axis(t.3, idx.drop_last()),
                column_of(attn.o_proj.weight@, idx.last()),
                #[trigger] r.at(idx),
            ),
{
    let (q, k, v) = choose|q: TensorView, k: TensorView, v: TensorView| #[trigger]
        attn.forward_with(x, padding, positions, q, k, v, r);
    let mask = Some(prefill_mask(padding, x.dims[1], x.dims[1]));
    let mixed = choose|mixed: TensorView|
        {
            &&& #[trigger] grouped_attention(q, k, v, attn.group(), mask, mixed)
            &&& projected(attn.o_proj.weight@, mixed, r)
        };
    (q, k, v, mixed)
}

/// The same with a cache: the new keys and values go behind the cached ones, and the values are
/// mixed over all of them.
pub proof fn lemma_steps_of_cached_attention(
    attn: Qwen3Attention,
    x: TensorView,
    padding: Option<Seq<Seq<bool>>>,
    positions: Seq<Seq<i64>>,
    before: KVCacheView,
    after: KVCacheView,
    r: TensorView,
) -> (t: (TensorView, TensorView, TensorView, TensorView))
    requires
        attn.cached_outcome(x, padding, positions, before, after, r),
    ensures
        attn.heads_outcome(x, positions, t.0, t.1, t.2),
        before.updated(t.1, t.2, after),
        after.key is Some,
        after.value is Some,
        grouped_attention(
            t.0,
            after.key->0,
            after.value->0,
            (attn.num_heads / attn.num_kv_heads) as nat,
            cached_mask(padding, x.dims[1], (after.key->0).dims[1]),
            t.3,
        ),
        r.dims == t.3.dims.update(t.3.dims.len() - 1, attn.o_proj.weight@.dims[1]),
        forall|idx: Seq<int>|
            in_bounds(r.dims, idx) ==> dot_outcome(
                last_axis(t.3, idx.drop_last()),
                column_of(attn.o_proj.weight@, idx.last()),
                #[trigger] r.at(idx),
            ),
{
    let (q, k, v) = choose|q: TensorView, k: TensorView, v: TensorView| #[trigger]
        attn.cached_with(x, padding, positions, before, after, q, k, v, r);
    let (keys, values) = (after.key->0, after.value->0);
    let mask = cached_mask(padding, x.dims[1], keys.dims[1]);
    let mixed = choose|mixed: TensorView|
        {
            &&& #[trigger] grouped_attention(q, keys, values, attn.group(), mask, mixed)
            &&& projected(attn.o_proj.weight@, mixed, r)
        };
    (q, k, v, mixed)
}

/// What a query looks at. The query heads come in groups, and member `m` of group `g` looks at head
/// `g` of keys and values. The query at position `p` of a sequence, which is the last but
/// `keys - 1 - p`, looks at the keys up to `p` that are no padding, and at those alone as long as
/// the values of the others are finite.
pub proof fn lemma_what_a_query_looks_at(
    q: TensorView,
    keys: TensorView,
    values: TensorView,
    group: nat,
    padding: Option<Seq<Seq<bool>>>,
    mixed: TensorView,
    b: int,
    j: int,
    g: int,
    m: int,
    d: int,
    hidden: Seq<bool>,
)
    requires
        q.wf(),
        q.dims.len() == 4,
        keys.dims.len() == 4,
        q.dims[1] <= keys.dims[1],
        q.dims[0] == keys.dims[0],
        q.dims[2] == keys.dims[2] * group,
        padding_fits(padding, q.dims[0], keys.dims[1]),
        values.dims == keys.dims,
        grouped_attention(
            q,
            keys,
            values,
            group,
            cached_mask(padding, q.dims[1], keys.dims[1]),
            mixed,
        ) || grouped_attention(
            q,
            keys,
            values,
            group,
            Some(prefill_mask(padding, q.dims[1], keys.dims[1])),
            mixed,
        ),
        0 <= b < q.dims[0],
        0 <= j < q.dims[1],
        0 <= g < keys.dims[2],
        0 <= m < group,
        0 <= d < q.dims[3],
        hidden.len() == keys.dims[1],
        forall|t: int|
            0 <= t < hidden.len() ==> #[trigger] hidden[t] == (t > keys.dims[1] - q.dims[1] + j || (
            padding matches Some(valid) && !valid[b][t])),
        forall|t: int|
            0 <= t < hidden.len() && hidden[t] ==> is_finite(
                #[trigger] values.at(ix4(b, t, g, d)),
            ),
    ensures
        attention_outcome(
            last_axis(q, ix3(b, j, group * g + m)),
            seen(Seq::new(keys.dims[1], |t: int| last_axis(keys, ix3(b, t, g))), hidden),
            seen(Seq::new(keys.dims[1], |t: int| values.at(ix4(b, t, g, d))), hidden),
            mixed.at(ix3(b, j, q.dims[3] * (group * g + m) + d)),
        ),
{
    let e = q.dims[3] as int;
    let n = group as int;
    let h = n * g + m;
    let c = e * h + d;
    assert(0 <= h < q.dims[2] && h / n == g) by {
        assert(h == g * n + m) by (nonlinear_arith)
            requires
                h == n * g + m,
        ;
        vstd::arithmetic::div_mod::lemma_fundamental_div_mod_converse(h, n, g, m);
        let k = keys.dims[2] as int;
        assert(0 <= h < k * n) by (nonlinear_arith)
            requires
                h == g * n + m,
                0 <= g < k,
                0 <= m < n,
        ;
    }
    assert(c / e == h && c % e == d && 0 <= c < q.dims[2] * e) by {
        assert(c == h * e + d) by (nonlinear_arith)
            requires
                c == e * h + d,
        ;
        vstd::arithmetic::div_mod::lemma_fundamental_div_mod_converse(c, e, h, d);
        let w = q.dims[2] as int;
        assert(0 <= c < w * e) by (nonlinear_arith)
            requires
                c == h * e + d,
                0 <= h < w,
                0 <= d < e,
        ;
    }
    let idx = ix3(b, j, c);
    assert(in_bounds(mixed.dims, idx));
    lemma_hidden_keys(padding, q.dims[0], q.dims[1], keys.dims[1], b, j);
    assert(hidden =~= hidden_from(
        padding,
        b,
        keys.dims[1] - q.dims[1] + j,
        keys.dims[1],
    ));
    let rows = cached_rows(keys, b, g);
    let column = cached_column(values, b, g, d);
    assert(rows =~= Seq::new(keys.dims[1], |t: int| last_axis(keys, ix3(b, t, g))));
    assert(column =~= Seq::new(keys.dims[1], |t: int| values.at(ix4(b, t, g, d))));
    assert(masked_outcome(last_axis(q, ix3(b, j, h)), rows, column, hidden, mixed.at(idx)));
    assert forall|t: int| 0 <= t < column.len() && hidden[t] implies is_finite(
        #[trigger] column[t],
    ) by {
        assert(is_finite(values.at(ix4(b, t, g, d))));
    }
}

/// Logits are the rows of the final state times the columns of the head.
pub proof fn lemma_steps_to_logits(
    lm: Qwen3ForCausalLM,
    ids: Seq<Seq<i64>>,
    padding: Option<Seq<Seq<bool>>>,
    logits: TensorView,
) -> (states: Seq<TensorView>)
    requires
        lm.forward_outcome(ids, padding, logits),
    ensures
        lm.model.forward_outcome(ids, padding, states),
        logits.dims == states.last().dims.update(
            states.last().dims.len() - 1,
            lm.lm_head.weight@.dims[1],
        ),
        forall|idx: Seq<int>|
            in_bounds(logits.dims, idx) ==> dot_outcome(
                last_axis(states.last(), idx.drop_last()),
                column_of(lm.lm_head.weight@, idx.last()),
                #[trigger] logits.at(idx),
            ),
{
    choose|states: Seq<TensorView>|
        {
            &&& #[trigger] lm.model.forward_outcome(ids, padding, states)
            &&& projected(lm.lm_head.weight@, states.last(), logits)
        }
}

/// With caches, too, logits are the rows of the final state times the columns of the head.
pub proof fn lemma_steps_to_cached_logits(
    lm: Qwen3ForCausalLM,
    ids: Seq<Seq<i64>>,
    padding: Option<Seq<Seq<bool>>>,
    positions: Seq<Seq<i64>>,
    before: Seq<KVCacheView>,
    after: Seq<KVCacheView>,
    logits: TensorView,
) -> (state: TensorView)
    requires
        lm.cached_outcome(ids, padding, positions, before, after, logits),
    ensures
        lm.model.cached_outcome(ids, padding, positions, before, after, state),
        logits.dims == state.dims.update(state.dims.len() - 1, lm.lm_head.weight@.dims[1]),
        forall|idx: Seq<int>|
            in_bounds(logits.dims, idx) ==> dot_outcome(
                last_axis(state, idx.drop_last()),
                column_of(lm.lm_head.weight@, idx.last()),
                #[trigger] logits.at(idx),
            ),
{
    choose|state: TensorView|
        {
            &&& #[trigger] lm.model.cached_outcome(ids, padding, positions, before, after, state)
            &&& projected(lm.lm_head.weight@, state, logits)
        }
}

/// The steps of generation with a cache. The first one feeds the initial tokens, token `j` at
/// position `j`, to empty caches. Step `i` after it feeds the tokens of the step before, at the
/// position behind all that have been fed, to the caches as that step has left them. The tokens of
/// every step are chosen from its logits.
pub proof fn lemma_steps_of_generation(
    lm: Qwen3ForCausalLM,
    ids: Seq<Seq<i64>>,
    temperature: Single,
    top_p: Single,
    top_k: nat,
    caches: Seq<Seq<KVCacheView>>,
    columns: Seq<Seq<i64>>,
    i: int,
    input: Seq<Seq<i64>>,
    positions: Seq<Seq<i64>>,
) -> (logits: TensorView)
    requires
        ids.len() > 0,
        lm.cached_run(ids, temperature, top_p, top_k, caches, columns),
        ids[0].len() + columns.len() <= i64::MAX,
        0 <= i < columns.len(),
        i == 0 ==> input == ids && counts_from(positions, 0, ids.len(), ids[0].len()),
        i > 0 ==> {
            &&& columns[i - 1].len() == ids.len()
            &&& input == Seq::new(ids.len(), |b: int| seq![columns[i - 1][b]])
            &&& counts_from(positions, (ids[0].len() + i - 1) as nat, ids.len(), 1)
        },
    ensures
        caches.len() == columns.len() + 1,
        caches[0].len() == lm.model.layers@.len(),
        forall|l: int|
            0 <= l < caches[0].len() ==> (#[trigger] caches[0][l]).key is None
                && caches[0][l].value is None,
        lm.cached_outcome(input, None, positions, caches[i], caches[i + 1], logits),
        are_next(logits, temperature, top_p, top_k, columns[i]),
{
    let done = columns.take(i);
    let (fed, start) = (step_input(ids, done), step_start(ids, done));
    if i > 0 {
        assert(done.last() == columns[i - 1]);
        assert(fed =~= input);
        assert(fed[0].len() == 1);
    }
    assert(fed == input);
    lemma_positions_count_up(positions, start, input.len(), input[0].len());
    assert(lm.cached_step(
        fed,
        start,
        temperature,
        top_p,
        top_k,
        caches[i],
        caches[i + 1],
        columns[i],
    ));
    choose|logits: TensorView|
        {
            &&& #[trigger] lm.cached_outcome(
                input,
                None,
                positions_from(start, input.len(), input[0].len()),
                caches[i],
                caches[i + 1],
                logits,
            )
            &&& are_next(logits, temperature, top_p, top_k, columns[i])
        }
}

/// Text embeddings are what the last layer takes: where the mask marks a token, `encode` gives the
/// state from which the last layer computes its output, which is normalized to the final output of
/// the forward pass; elsewhere it gives zero. That state, the last layer's output and the final
/// output are given back.
pub proof fn lemma_encode_feeds_the_last_layer(
    model: Qwen3Model,
    ids: Seq<Seq<i64>>,
    valid: Seq<Seq<bool>>,
    r: TensorView,
    positions: Seq<Seq<i64>>,
) -> (s: (TensorView, TensorView, TensorView))
    requires
        model.layers@.len() > 0,
        ids[0].len() <= i64::MAX,
        counts_from(positions, 0, ids.len(), ids[0].len()),
        model.encode_outcome(ids, valid, r),
    ensures
        r.dims == s.0.dims,
        forall|idx: Seq<int>|
            in_bounds(r.dims, idx) ==> #[trigger] r.at(idx) == if valid[idx[0]][idx[1]] {
                s.0.at(idx)
            } else {
                0u32
            },
        model.layers@.last().forward_outcome(s.0, Some(valid), positions, s.1),
        normalized(model.norm.gamma@, model.norm.epsilon, s.1, s.2),
        exists|states: Seq<TensorView>| #[trigger]
            model.forward_outcome(ids, Some(valid), states) && states.last() == s.2
                && states[states.len() - 2] == s.1 && states[states.len() - 3] == s.0,
{
    lemma_positions_count_up(positions, 0, ids.len(), ids[0].len());
    let n = model.layers@.len() as int;
    let states = choose|states: Seq<TensorView>|
        {
            &&& #[trigger] model.forward_outcome(ids, Some(valid), states)
            &&& crate::model::masked(states[n - 1], valid, r)
        };
    assert(model.layers@[n - 1].forward_outcome(
        states[n - 1],
        Some(valid),
        positions,
        states[n],
    ));
    (states[n - 1], states[n], states[n + 1])
}

/// The steps of generation without a cache: every new token of `generate` is chosen from the logits
/// of a forward pass on all tokens before it.
pub proof fn lemma_steps_of_plain_generation(
    lm: Qwen3ForCausalLM,
    ids: Seq<Seq<i64>>,
    count: nat,
    temperature: Single,
    top_p: Single,
    top_k: nat,
    rows: Seq<Seq<i64>>,
    n: int,
    prefix: Seq<Seq<i64>>,
    tokens: Seq<i64>,
) -> (logits: TensorView)
    requires
        lm.generated(ids, count, temperature, top_p, top_k, rows),
        ids[0].len() <= n < ids[0].len() + count,
        prefix.len() == rows.len(),
        tokens.len() == rows.len(),
        forall|b: int| 0 <= b < rows.len() ==> #[trigger] prefix[b] == rows[b].take(n),
        forall|b: int| 0 <= b < rows.len() ==> #[trigger] tokens[b] == rows[b][n],
    ensures
        rows.len() == ids.len(),
        forall|b: int|
            0 <= b < ids.len() ==> (#[trigger] rows[b]).len() == ids[0].len() + count
                && rows[b].take(ids[0].len() as int) == ids[b],
        lm.forward_outcome(prefix, None, logits),
        are_next(logits, temperature, top_p, top_k, tokens),
{
    let seq = ids[0].len() as int;
    let first = first_tokens(rows, n);
    assert forall|b: int| 0 <= b < rows.len() implies #[trigger] first[b] == prefix[b] by {}
    assert(first =~= prefix);
    let next = tokens_at(rows, n);
    assert forall|b: int| 0 <= b < rows.len() implies #[trigger] next[b] == tokens[b] by {}
    assert(next =~= tokens);
    assert forall|b: int| 0 <= b < ids.len() implies (#[trigger] rows[b]).len() == ids[0].len()
        + count && rows[b].take(seq) == ids[b] by {
        assert(first_tokens(rows, seq)[b] == rows[b].take(seq));
    }
    assert(lm.step_outcome(first, temperature, top_p, top_k, next));
    choose|logits: TensorView|
        {
            &&& #[trigger] lm.forward_outcome(prefix, None, logits)
            &&& are_next(logits, temperature, top_p, top_k, tokens)
        }
}

/// When generation with a cache ends, and with what. It appends the tokens of its steps, up to the
/// first step that gives the first sequence an end token, which is left out; and without such a
/// step it makes as many steps as it may.
pub proof fn lemma_when_generation_ends(
    lm: Qwen3ForCausalLM,
    ids: Seq<Seq<i64>>,
    max_new_tokens: nat,
    temperature: Single,
    top_p: Single,
    top_k: nat,
    eos: Seq<i64>,
    caches: Seq<Seq<KVCacheView>>,
    columns: Seq<Seq<i64>>,
    rows: Seq<Seq<i64>>,
    count: nat,
    b: int,
)
    requires
        ids.len() > 0,
        lm.generated_with(
            ids,
            max_new_tokens,
            temperature,
            top_p,
            top_k,
            eos,
            caches,
            columns,
            rows,
        ),
        rows[0].len() == ids[0].len() + count,
        0 <= b < ids.len(),
    ensures
        rows.len() == ids.len(),
        rows[b] == ids[b] + Seq::new(count, |i: int| columns[i][b]),
        count <= columns.len() <= max_new_tokens,
        forall|i: int| 0 <= i < count ==> !eos.contains(#[trigger] columns[i][0]),
        count == columns.len() ==> count == max_new_tokens,
        count < columns.len() ==> columns.len() == count + 1 && eos.contains(
            columns[count as int][0],
        ),
{
    let ended = columns.len() > 0 && eos.contains(columns.last()[0]);
    let kept = if ended {
        (columns.len() - 1) as nat
    } else {
        columns.len()
    };
    assert(rows[0] == ids[0] + Seq::new(kept, |i: int| columns[i][0]));
    assert(kept == count);
    if ended {
        assert(columns[count as int] == columns.last());
    }
}

} // verus!
