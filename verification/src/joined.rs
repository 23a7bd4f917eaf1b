//! Passes with a cache, joined, are a forward pass.
//!
//! A forward pass on the first tokens and a pass with a cache on those that follow give together
//! what one forward pass on all of them may give. So whatever generation with a cache returns,
//! generation without one may return. The value vectors must be finite.
use vstd::prelude::*;

use crate::attention::{
    cached_column, cached_rows, grouped_attention, projected_heads, HeadsTrace, Qwen3Attention,
};
use crate::cache::{empty_caches, KVCacheView};
use crate::causal_lm::{
    appended, are_next, first_tokens, last_logits, lemma_next_from_last, lone_tokens, step_input,
    step_start, tokens_at, Qwen3ForCausalLM,
};
use crate::decoder::{gate_outcome, gated, LayerTrace, Qwen3DecoderLayer};
use crate::incremental::{
    all_finite, forward_traced, full_caches, hidden_from, lemma_caches_keep_pace,
    lemma_forward_has_traces, lemma_group, lemma_heads_shapes, lemma_hidden_keys,
    lemma_index_at_offset, lemma_logits_shape, lemma_part_of_positions, lemma_part_rest,
    lemma_part_sums, lemma_prefill_is_forward, lemma_seen_of_prefix, lemma_trace_shapes,
    part_of_padding, part_of_rows, tabulated,
};
use crate::mask::{cached_mask, padding_fits, prefill_mask};
use crate::model::{are_tokens, positions_from, Qwen3Model};
use crate::nn::{
    column_of, dot_outcome, hidden_are_finite, hidden_keys, is_finite, is_int_table, looked_up,
    masked_outcome, normalized, projected, rms_norm_outcome,
};
use crate::num::{Double, Single};
use crate::rope::{entry_outcome, first_turned, rotated, second_turned, turn_tables};
use crate::tensor::{
    broadcast_dims, concatenated, in_bounds, ix3, ix4, last_axis, lemma_offset_in_volume,
    lemma_same_elements, source_index, sum_outcome, sums, TensorView,
};

verus! {

/// The positions of `a` and then those of `b`.
pub open spec fn joined(a: TensorView, b: TensorView) -> TensorView {
    tabulated(
        a.dims.update(1, a.dims[1] + b.dims[1]),
        |idx: Seq<int>|
            if idx[1] < a.dims[1] {
                a.at(idx)
            } else {
                b.at(idx.update(1, idx[1] - a.dims[1]))
            },
    )
}

/// Whether `a` and `b` are alike but for the number of positions, and can be joined.
pub open spec fn joinable(a: TensorView, b: TensorView) -> bool {
    &&& a.wf()
    &&& b.wf()
    &&& a.dims.len() >= 2
    &&& b.dims == a.dims.update(1, b.dims[1])
    &&& a.dims[1] + b.dims[1] <= usize::MAX
}

/// `r` holds the positions of `a` and then those of `b`.
pub open spec fn joins(a: TensorView, b: TensorView, r: TensorView) -> bool {
    joinable(a, b) && concatenated(a, b, 1, r)
}

/// What is joined holds the positions of both.
pub proof fn lemma_joined(a: TensorView, b: TensorView)
    requires
        joinable(a, b),
    ensures
        joins(a, b, joined(a, b)),
{
    let r = joined(a, b);
    assert forall|i: int| 0 <= i < r.dims.len() implies 0 < #[trigger] r.dims[i] <= usize::MAX by {
        assert(0 < a.dims[i] <= usize::MAX);
        assert(0 < b.dims[i] <= usize::MAX);
    }
    assert forall|idx: Seq<int>| in_bounds(r.dims, idx) implies #[trigger] r.at(idx) == (if idx[1]
        < a.dims[1] {
        a.at(idx)
    } else {
        b.at(idx.update(1, idx[1] - a.dims[1]))
    }) by {
        lemma_offset_in_volume(r.dims, idx);
        lemma_index_at_offset(r.dims, idx);
    }
}

/// A concatenation is what is joined.
proof fn lemma_concatenated_is_joined(a: TensorView, b: TensorView, r: TensorView)
    requires
        joins(a, b, r),
    ensures
        r == joined(a, b),
{
    lemma_joined(a, b);
    lemma_same_elements(r, joined(a, b));
}

/// An index of the whole is one of the first tensor or, moved, of the second.
proof fn lemma_sides(a: TensorView, b: TensorView, r: TensorView, idx: Seq<int>)
    requires
        joins(a, b, r),
        in_bounds(r.dims, idx),
    ensures
        idx[1] < a.dims[1] ==> in_bounds(a.dims, idx) && r.at(idx) == a.at(idx),
        idx[1] >= a.dims[1] ==> in_bounds(b.dims, idx.update(1, idx[1] - a.dims[1])) && r.at(idx)
            == b.at(idx.update(1, idx[1] - a.dims[1])),
{
    let moved = idx.update(1, idx[1] - a.dims[1]);
    assert forall|k: int| 0 <= k < a.dims.len() && idx[1] < a.dims[1] implies 0 <= #[trigger] idx[k]
        < a.dims[k] by {
        assert(0 <= idx[k] < r.dims[k]);
    }
    assert forall|k: int| 0 <= k < b.dims.len() && idx[1] >= a.dims[1] implies 0
        <= #[trigger] moved[k] < b.dims[k] by {
        assert(0 <= idx[k] < r.dims[k]);
    }
    assert(r.at(idx) == r.at(idx));
}

/// The rows of the whole are those of the first tensor, and then those of the second.
proof fn lemma_join_row(a: TensorView, b: TensorView, r: TensorView, prefix: Seq<int>)
    requires
        joins(a, b, r),
        a.dims.len() >= 3,
        prefix.len() == r.dims.len() - 1,
        forall|i: int| 0 <= i < prefix.len() ==> 0 <= #[trigger] prefix[i] < r.dims[i],
    ensures
        last_axis(r, prefix) == if prefix[1] < a.dims[1] {
            last_axis(a, prefix)
        } else {
            last_axis(b, prefix.update(1, prefix[1] - a.dims[1]))
        },
{
    let there = prefix.update(1, prefix[1] - a.dims[1]);
    let want = if prefix[1] < a.dims[1] {
        last_axis(a, prefix)
    } else {
        last_axis(b, there)
    };
    assert forall|i: int| 0 <= i < r.dims.last() implies #[trigger] last_axis(r, prefix)[i]
        == want[i] by {
        let idx = prefix.push(i);
        assert(in_bounds(r.dims, idx)) by {
            assert forall|k: int| 0 <= k < r.dims.len() implies 0 <= #[trigger] idx[k]
                < r.dims[k] by {
                if k < prefix.len() {
                    assert(idx[k] == prefix[k]);
                }
            }
        }
        lemma_sides(a, b, r, idx);
        assert(idx.update(1, idx[1] - a.dims[1]) =~= there.push(i));
    }
    assert(last_axis(r, prefix) =~= want);
}

/// The prefix of an index of the whole, for the rows of another whole of as many positions.
proof fn lemma_prefix_in_bounds(dims: Seq<nat>, other: Seq<nat>, idx: Seq<int>)
    requires
        in_bounds(dims, idx),
        dims.len() == other.len(),
        dims.len() >= 1,
        forall|i: int| 0 <= i < dims.len() - 1 ==> #[trigger] dims[i] == other[i],
    ensures
        idx.drop_last().len() == other.len() - 1,
        forall|i: int|
            0 <= i < idx.drop_last().len() ==> 0 <= #[trigger] idx.drop_last()[i] < other[i],
{
    assert forall|i: int| 0 <= i < idx.drop_last().len() implies 0 <= #[trigger] idx.drop_last()[i]
        < other[i] by {
        assert(0 <= idx[i] < dims[i]);
    }
}

proof fn lemma_join_projected(
    weight: TensorView,
    xa: TensorView,
    xb: TensorView,
    x: TensorView,
    ra: TensorView,
    rb: TensorView,
    r: TensorView,
)
    requires
        xa.dims.len() == 3,
        joins(xa, xb, x),
        joins(ra, rb, r),
        projected(weight, xa, ra),
        projected(weight, xb, rb),
    ensures
        projected(weight, x, r),
{
    assert(r.dims =~= x.dims.update(2, weight.dims[1]));
    assert forall|idx: Seq<int>| in_bounds(r.dims, idx) implies dot_outcome(
        last_axis(x, idx.drop_last()),
        column_of(weight, idx.last()),
        #[trigger] r.at(idx),
    ) by {
        lemma_sides(ra, rb, r, idx);
        lemma_prefix_in_bounds(r.dims, x.dims, idx);
        lemma_join_row(xa, xb, x, idx.drop_last());
        let moved = idx.update(1, idx[1] - ra.dims[1]);
        assert(moved.drop_last() =~= idx.drop_last().update(1, idx[1] - ra.dims[1]));
        assert(moved.last() == idx.last());
    }
}

proof fn lemma_join_normalized(
    gamma: TensorView,
    epsilon: Double,
    xa: TensorView,
    xb: TensorView,
    x: TensorView,
    ra: TensorView,
    rb: TensorView,
    r: TensorView,
)
    requires
        xa.dims.len() >= 3,
        joins(xa, xb, x),
        joins(ra, rb, r),
        normalized(gamma, epsilon, xa, ra),
        normalized(gamma, epsilon, xb, rb),
    ensures
        normalized(gamma, epsilon, x, r),
{
    assert(r.dims =~= x.dims);
    assert forall|idx: Seq<int>| in_bounds(r.dims, idx) implies rms_norm_outcome(
        last_axis(x, idx.drop_last()),
        epsilon.bits,
        gamma.data[idx.last()],
        idx.last(),
        #[trigger] r.at(idx),
    ) by {
        lemma_sides(ra, rb, r, idx);
        lemma_prefix_in_bounds(r.dims, x.dims, idx);
        lemma_join_row(xa, xb, x, idx.drop_last());
        let moved = idx.update(1, idx[1] - ra.dims[1]);
        assert(moved.drop_last() =~= idx.drop_last().update(1, idx[1] - ra.dims[1]));
        assert(moved.last() == idx.last());
    }
}

proof fn lemma_join_heads(
    weight: TensorView,
    xa: TensorView,
    xb: TensorView,
    x: TensorView,
    heads: nat,
    head_dim: nat,
    ra: TensorView,
    rb: TensorView,
    r: TensorView,
)
    requires
        xa.dims.len() == 3,
        joins(xa, xb, x),
        joins(ra, rb, r),
        projected_heads(weight, xa, heads, head_dim, ra),
        projected_heads(weight, xb, heads, head_dim, rb),
    ensures
        projected_heads(weight, x, heads, head_dim, r),
{
    assert(r.dims =~= seq![x.dims[0], x.dims[1], heads, head_dim]);
    assert forall|idx: Seq<int>| in_bounds(r.dims, idx) implies dot_outcome(
        last_axis(x, seq![idx[0], idx[1]]),
        column_of(weight, idx[2] * head_dim + idx[3]),
        #[trigger] r.at(idx),
    ) by {
        lemma_sides(ra, rb, r, idx);
        let prefix = seq![idx[0], idx[1]];
        assert(0 <= idx[0] < r.dims[0] && 0 <= idx[1] < r.dims[1]);
        lemma_join_row(xa, xb, x, prefix);
        let moved = idx.update(1, idx[1] - ra.dims[1]);
        assert(prefix.update(1, idx[1] - ra.dims[1]) =~= seq![moved[0], moved[1]]);
    }
}

proof fn lemma_join_tables(
    positions: Seq<Seq<i64>>,
    head_dim: nat,
    theta: Double,
    ta: HeadsTrace,
    tb: HeadsTrace,
    cos: TensorView,
    sin: TensorView,
)
    requires
        positions.len() > 0,
        is_int_table(positions, positions.len(), positions[0].len()),
        joins(ta.cos, tb.cos, cos),
        joins(ta.sin, tb.sin, sin),
        cos.dims[1] == positions[0].len(),
        turn_tables(
            part_of_rows(positions, 0, ta.cos.dims[1] as int),
            head_dim,
            theta,
            ta.cos,
            ta.sin,
        ),
        turn_tables(
            part_of_rows(positions, ta.cos.dims[1] as int, positions[0].len() as int),
            head_dim,
            theta,
            tb.cos,
            tb.sin,
        ),
    ensures
        turn_tables(positions, head_dim, theta, cos, sin),
{
    let p = ta.cos.dims[1] as int;
    let s = positions[0].len() as int;
    assert(cos.dims =~= seq![positions.len(), positions[0].len(), 1, head_dim / 2]);
    assert(sin.dims =~= cos.dims);
    assert forall|idx: Seq<int>| in_bounds(cos.dims, idx) implies entry_outcome(
        theta,
        head_dim,
        idx[3],
        positions[idx[0]][idx[1]],
        #[trigger] cos.at(idx),
        sin.at(idx),
    ) by {
        lemma_sides(ta.cos, tb.cos, cos, idx);
        lemma_sides(ta.sin, tb.sin, sin, idx);
        assert(0 <= idx[0] < cos.dims[0] && 0 <= idx[1] < cos.dims[1]);
        let moved = idx.update(1, idx[1] - p);
        if idx[1] < p {
            assert(part_of_rows(positions, 0, p)[idx[0]][idx[1]] == positions[idx[0]][idx[1]]);
        } else {
            assert(part_of_rows(positions, p, s)[moved[0]][moved[1]] == positions[idx[0]][idx[1]]);
            assert(moved[3] == idx[3]);
        }
    }
}

proof fn lemma_join_rotated(
    xa: TensorView,
    xb: TensorView,
    x: TensorView,
    ta: HeadsTrace,
    tb: HeadsTrace,
    cos: TensorView,
    sin: TensorView,
    ra: TensorView,
    rb: TensorView,
    r: TensorView,
)
    requires
        xa.dims.len() == 4,
        xa.dims[3] % 2 == 0,
        joins(xa, xb, x),
        joins(ra, rb, r),
        joins(ta.cos, tb.cos, cos),
        joins(ta.sin, tb.sin, sin),
        ta.cos.dims == seq![xa.dims[0], xa.dims[1], 1, xa.dims[3] / 2],
        ta.sin.dims == ta.cos.dims,
        tb.cos.dims == seq![xb.dims[0], xb.dims[1], 1, xb.dims[3] / 2],
        tb.sin.dims == tb.cos.dims,
        rotated(xa, ta.cos, ta.sin, ra),
        rotated(xb, tb.cos, tb.sin, rb),
    ensures
        rotated(x, cos, sin, r),
{
    let p = xa.dims[1] as int;
    let half = (xa.dims[3] / 2) as int;
    assert(r.dims =~= x.dims);
    assert forall|idx: Seq<int>| in_bounds(r.dims, idx) && idx[3] < half implies first_turned(
        x.at(idx),
        x.at(ix4(idx[0], idx[1], idx[2], idx[3] + half)),
        cos.at(ix4(idx[0], idx[1], 0, idx[3])),
        sin.at(ix4(idx[0], idx[1], 0, idx[3])),
        #[trigger] r.at(idx),
    ) by {
        assert(0 <= idx[0] < r.dims[0] && 0 <= idx[1] < r.dims[1] && 0 <= idx[2] < r.dims[2] && 0
            <= idx[3] < r.dims[3]);
        let other = ix4(idx[0], idx[1], idx[2], idx[3] + half);
        let entry = ix4(idx[0], idx[1], 0, idx[3]);
        assert(in_bounds(x.dims, other));
        assert(in_bounds(cos.dims, entry));
        assert(in_bounds(sin.dims, entry));
        lemma_sides(ra, rb, r, idx);
        lemma_sides(xa, xb, x, idx);
        lemma_sides(xa, xb, x, other);
        lemma_sides(ta.cos, tb.cos, cos, entry);
        lemma_sides(ta.sin, tb.sin, sin, entry);
        let m = idx.update(1, idx[1] - p);
        assert(other.update(1, other[1] - p) =~= ix4(m[0], m[1], m[2], m[3] + half));
        assert(entry.update(1, entry[1] - p) =~= ix4(m[0], m[1], 0, m[3]));
    }
    assert forall|idx: Seq<int>| in_bounds(r.dims, idx) && idx[3] >= half implies second_turned(
        x.at(ix4(idx[0], idx[1], idx[2], idx[3] - half)),
        x.at(idx),
        cos.at(ix4(idx[0], idx[1], 0, idx[3] - half)),
        sin.at(ix4(idx[0], idx[1], 0, idx[3] - half)),
        #[trigger] r.at(idx),
    ) by {
        assert(0 <= idx[0] < r.dims[0] && 0 <= idx[1] < r.dims[1] && 0 <= idx[2] < r.dims[2] && 0
            <= idx[3] < r.dims[3]);
        let other = ix4(idx[0], idx[1], idx[2], idx[3] - half);
        let entry = ix4(idx[0], idx[1], 0, idx[3] - half);
        assert(in_bounds(x.dims, other));
        assert(in_bounds(cos.dims, entry));
        assert(in_bounds(sin.dims, entry));
        lemma_sides(ra, rb, r, idx);
        lemma_sides(xa, xb, x, idx);
        lemma_sides(xa, xb, x, other);
        lemma_sides(ta.cos, tb.cos, cos, entry);
        lemma_sides(ta.sin, tb.sin, sin, entry);
        let m = idx.update(1, idx[1] - p);
        assert(other.update(1, other[1] - p) =~= ix4(m[0], m[1], m[2], m[3] - half));
        assert(entry.update(1, entry[1] - p) =~= ix4(m[0], m[1], 0, m[3] - half));
    }
}

/// The steps from hidden states to queries and keys, joined.
pub open spec fn joined_steps(a: HeadsTrace, b: HeadsTrace) -> HeadsTrace {
    HeadsTrace {
        q: joined(a.q, b.q),
        k: joined(a.k, b.k),
        q_normed: joined(a.q_normed, b.q_normed),
        k_normed: joined(a.k_normed, b.k_normed),
        cos: joined(a.cos, b.cos),
        sin: joined(a.sin, b.sin),
    }
}

/// The queries, keys and values of both parts are those of the whole.
proof fn lemma_join_heads_outcome(
    attn: Qwen3Attention,
    xa: TensorView,
    xb: TensorView,
    x: TensorView,
    positions: Seq<Seq<i64>>,
    qa: TensorView,
    ka: TensorView,
    va: TensorView,
    qb: TensorView,
    kb: TensorView,
    vb: TensorView,
)
    requires
        attn.wf(),
        xa.dims.len() == 3,
        joins(xa, xb, x),
        is_int_table(positions, x.dims[0], x.dims[1]),
        attn.heads_outcome(xa, part_of_rows(positions, 0, xa.dims[1] as int), qa, ka, va),
        attn.heads_outcome(
            xb,
            part_of_rows(positions, xa.dims[1] as int, x.dims[1] as int),
            qb,
            kb,
            vb,
        ),
    ensures
        attn.heads_outcome(x, positions, joined(qa, qb), joined(ka, kb), joined(va, vb)),
        joins(qa, qb, joined(qa, qb)),
        joins(ka, kb, joined(ka, kb)),
        joins(va, vb, joined(va, vb)),
{
    let p = xa.dims[1] as int;
    let s = x.dims[1] as int;
    let (first, rest) = (part_of_rows(positions, 0, p), part_of_rows(positions, p, s));
    let ta = choose|t: HeadsTrace| #[trigger] attn.heads_with(xa, first, t, qa, ka, va);
    let tb = choose|t: HeadsTrace| #[trigger] attn.heads_with(xb, rest, t, qb, kb, vb);
    let heads = attn.num_heads as nat;
    let kv_heads = attn.num_kv_heads as nat;
    let e = attn.head_dim as nat;
    assert(tb.q.dims =~= ta.q.dims.update(1, tb.q.dims[1]));
    assert(tb.k.dims =~= ta.k.dims.update(1, tb.k.dims[1]));
    assert(vb.dims =~= va.dims.update(1, vb.dims[1]));
    assert(first[0].len() == p && rest[0].len() == s - p);
    assert(tb.cos.dims =~= ta.cos.dims.update(1, tb.cos.dims[1]));
    lemma_joined(ta.q, tb.q);
    lemma_joined(ta.k, tb.k);
    lemma_joined(va, vb);
    lemma_joined(ta.q_normed, tb.q_normed);
    lemma_joined(ta.k_normed, tb.k_normed);
    lemma_joined(ta.cos, tb.cos);
    lemma_joined(ta.sin, tb.sin);
    lemma_joined(qa, qb);
    lemma_joined(ka, kb);
    let t = joined_steps(ta, tb);
    let (q, k, v) = (joined(qa, qb), joined(ka, kb), joined(va, vb));
    lemma_join_heads(attn.q_proj.weight@, xa, xb, x, heads, e, ta.q, tb.q, t.q);
    lemma_join_heads(attn.k_proj.weight@, xa, xb, x, kv_heads, e, ta.k, tb.k, t.k);
    lemma_join_heads(attn.v_proj.weight@, xa, xb, x, kv_heads, e, va, vb, v);
    let (qn, kn) = (attn.q_norm, attn.k_norm);
    lemma_join_normalized(
        qn.gamma@,
        qn.epsilon,
        ta.q,
        tb.q,
        t.q,
        ta.q_normed,
        tb.q_normed,
        t.q_normed,
    );
    lemma_join_normalized(
        kn.gamma@,
        kn.epsilon,
        ta.k,
        tb.k,
        t.k,
        ta.k_normed,
        tb.k_normed,
        t.k_normed,
    );
    lemma_join_tables(positions, e, attn.rope_theta, ta, tb, t.cos, t.sin);
    lemma_join_rotated(
        ta.q_normed,
        tb.q_normed,
        t.q_normed,
        ta,
        tb,
        t.cos,
        t.sin,
        qa,
        qb,
        q,
    );
    lemma_join_rotated(
        ta.k_normed,
        tb.k_normed,
        t.k_normed,
        ta,
        tb,
        t.cos,
        t.sin,
        ka,
        kb,
        k,
    );
    assert(attn.heads_with(x, positions, t, q, k, v));
}

/// The vectors of a head at the first positions of the whole.
proof fn lemma_join_rows(
    a: TensorView,
    b: TensorView,
    r: TensorView,
    batch: int,
    head: int,
    i: int,
)
    requires
        joins(a, b, r),
        a.dims.len() == 4,
        0 <= batch < r.dims[0],
        0 <= head < r.dims[2],
        0 <= i < r.dims[3],
    ensures
        cached_rows(a, batch, head) == cached_rows(r, batch, head).take(a.dims[1] as int),
        cached_column(a, batch, head, i) == cached_column(r, batch, head, i).take(
            a.dims[1] as int,
        ),
{
    let p = a.dims[1] as int;
    let rows = cached_rows(r, batch, head).take(p);
    assert forall|j: int| 0 <= j < p implies #[trigger] cached_rows(a, batch, head)[j]
        == rows[j] by {
        lemma_join_row(a, b, r, ix3(batch, j, head));
    }
    assert(cached_rows(a, batch, head) =~= rows);
    let column = cached_column(r, batch, head, i).take(p);
    assert forall|j: int| 0 <= j < p implies #[trigger] cached_column(a, batch, head, i)[j]
        == column[j] by {
        let idx = ix4(batch, j, head, i);
        assert(in_bounds(r.dims, idx));
        lemma_sides(a, b, r, idx);
    }
    assert(cached_column(a, batch, head, i) =~= column);
}

/// Attention on the first positions, and on the rest behind a cache of the first, is attention on
/// all of them.
proof fn lemma_join_attention(
    qa: TensorView,
    qb: TensorView,
    q: TensorView,
    ka: TensorView,
    kb: TensorView,
    k: TensorView,
    va: TensorView,
    vb: TensorView,
    v: TensorView,
    group: nat,
    padding: Option<Seq<Seq<bool>>>,
    ma: TensorView,
    mb: TensorView,
    m: TensorView,
)
    requires
        joins(qa, qb, q),
        joins(ka, kb, k),
        joins(va, vb, v),
        joins(ma, mb, m),
        qa.dims.len() == 4,
        group > 0,
        ka.dims.len() == 4,
        qa.dims == seq![ka.dims[0], ka.dims[1], ka.dims[2] * group, ka.dims[3]],
        qb.dims[1] == kb.dims[1],
        va.dims == ka.dims,
        vb.dims == kb.dims,
        padding_fits(padding, q.dims[0], q.dims[1]),
        all_finite(v),
        grouped_attention(
            qa,
            ka,
            va,
            group,
            Some(
                prefill_mask(part_of_padding(padding, qa.dims[1] as int), qa.dims[1], qa.dims[1]),
            ),
            ma,
        ),
        grouped_attention(qb, k, v, group, cached_mask(padding, qb.dims[1], q.dims[1]), mb),
    ensures
        grouped_attention(
            q,
            k,
            v,
            group,
            Some(prefill_mask(padding, q.dims[1], q.dims[1])),
            m,
        ),
{
    let p = qa.dims[1] as int;
    let s = q.dims[1];
    let e = q.dims[3] as int;
    let g = group as int;
    let cut = part_of_padding(padding, p);
    assert(padding_fits(cut, q.dims[0], p as nat));
    let mask = Some(prefill_mask(padding, s, s));
    let mask_a = Some(prefill_mask(cut, p as nat, p as nat));
    let mask_b = cached_mask(padding, qb.dims[1], s);
    assert(m.dims =~= seq![q.dims[0], q.dims[1], q.dims[2] * q.dims[3]]);
    assert forall|idx: Seq<int>| in_bounds(m.dims, idx) implies masked_outcome(
        last_axis(q, ix3(idx[0], idx[1], idx[2] / e)),
        cached_rows(k, idx[0], (idx[2] / e) / g),
        cached_column(v, idx[0], (idx[2] / e) / g, idx[2] % e),
        hidden_keys(mask, idx[0], idx[1], k.dims[1]),
        #[trigger] m.at(idx),
    ) by {
        assert(0 <= idx[0] < m.dims[0] && 0 <= idx[1] < m.dims[1] && 0 <= idx[2] < m.dims[2]);
        let h = idx[2] / e;
        let d = idx[2] % e;
        let kv = h / g;
        assert(0 <= h < q.dims[2] && 0 <= d < e) by (nonlinear_arith)
            requires
                0 <= idx[2] < q.dims[2] * e,
                e > 0,
                h == idx[2] / e,
                d == idx[2] % e,
        ;
        assert(0 <= kv < k.dims[2]) by (nonlinear_arith)
            requires
                0 <= h < k.dims[2] * g,
                g > 0,
                kv == h / g,
        ;
        let prefix = ix3(idx[0], idx[1], h);
        lemma_join_row(qa, qb, q, prefix);
        lemma_sides(ma, mb, m, idx);
        lemma_hidden_keys(padding, q.dims[0], s, s, idx[0], idx[1]);
        let rows = cached_rows(k, idx[0], kv);
        let column = cached_column(v, idx[0], kv, d);
        let hidden = hidden_from(padding, idx[0], idx[1], s);
        assert(hidden_keys(mask, idx[0], idx[1], k.dims[1]) == hidden);
        if idx[1] < p {
            lemma_join_rows(ka, kb, k, idx[0], kv, d);
            lemma_join_rows(va, vb, v, idx[0], kv, d);
            lemma_hidden_keys(cut, q.dims[0], p as nat, p as nat, idx[0], idx[1]);
            let first = hidden_from(cut, idx[0], idx[1], p as nat);
            assert(hidden_keys(mask_a, idx[0], idx[1], ka.dims[1]) == first);
            assert forall|j: int| 0 <= j < p implies #[trigger] first[j] == hidden[j] by {}
            lemma_seen_of_prefix(rows, hidden, first, p);
            lemma_seen_of_prefix(column, hidden, first, p);
            assert forall|j: int| 0 <= j < column.len() implies is_finite(#[trigger] column[j]) by {
                assert(in_bounds(v.dims, ix4(idx[0], j, kv, d)));
                lemma_offset_in_volume(v.dims, ix4(idx[0], j, kv, d));
            }
            assert(hidden_are_finite(column, hidden));
            assert(hidden_are_finite(column.take(p), first));
            assert(ma.at(idx) == m.at(idx));
        } else {
            let moved = idx.update(1, idx[1] - p);
            lemma_hidden_keys(padding, q.dims[0], qb.dims[1], s, moved[0], moved[1]);
            assert(hidden_keys(mask_b, moved[0], moved[1], k.dims[1]) == hidden);
            assert(prefix.update(1, prefix[1] - p) =~= ix3(moved[0], moved[1], h));
            assert(mb.at(moved) == m.at(idx));
        }
    }
}

/// Passes through attention join: a forward pass on the first positions, and a pass on the rest
/// with the cache that it leaves, give together what one forward pass on all positions may give.
/// The value vectors must be finite.
pub proof fn lemma_attention_passes_join(
    attn: Qwen3Attention,
    xa: TensorView,
    xb: TensorView,
    x: TensorView,
    padding: Option<Seq<Seq<bool>>>,
    positions: Seq<Seq<i64>>,
    qa: TensorView,
    ka: TensorView,
    va: TensorView,
    ra: TensorView,
    qb: TensorView,
    kb: TensorView,
    vb: TensorView,
    rb: TensorView,
    after: KVCacheView,
)
    requires
        attn.wf(),
        xa.dims.len() == 3,
        joins(xa, xb, x),
        padding_fits(padding, x.dims[0], x.dims[1]),
        is_int_table(positions, x.dims[0], x.dims[1]),
        attn.forward_with(
            xa,
            part_of_padding(padding, xa.dims[1] as int),
            part_of_rows(positions, 0, xa.dims[1] as int),
            qa,
            ka,
            va,
            ra,
        ),
        attn.cached_with(
            xb,
            padding,
            part_of_rows(positions, xa.dims[1] as int, x.dims[1] as int),
            KVCacheView { key: Some(ka), value: Some(va) },
            after,
            qb,
            kb,
            vb,
            rb,
        ),
        all_finite(after.value->0),
    ensures
        attn.forward_with(
            x,
            padding,
            positions,
            joined(qa, qb),
            joined(ka, kb),
            joined(va, vb),
            joined(ra, rb),
        ),
        after == (KVCacheView { key: Some(joined(ka, kb)), value: Some(joined(va, vb)) }),
        joins(ra, rb, joined(ra, rb)),
{
    let p = xa.dims[1] as int;
    let s = x.dims[1] as int;
    let (first, rest) = (part_of_rows(positions, 0, p), part_of_rows(positions, p, s));
    lemma_join_heads_outcome(attn, xa, xb, x, positions, qa, ka, va, qb, kb, vb);
    lemma_heads_shapes(attn, xa, first, qa, ka, va);
    lemma_heads_shapes(attn, xb, rest, qb, kb, vb);
    lemma_group(attn);
    lemma_concatenated_is_joined(ka, kb, after.key->0);
    lemma_concatenated_is_joined(va, vb, after.value->0);
    let (q, k, v) = (joined(qa, qb), joined(ka, kb), joined(va, vb));
    let w = attn.o_proj.weight@;
    let mask_a = Some(prefill_mask(part_of_padding(padding, p), p as nat, p as nat));
    let mask_b = cached_mask(padding, xb.dims[1], s as nat);
    let ma = choose|m: TensorView|
        {
            &&& #[trigger] grouped_attention(qa, ka, va, attn.group(), mask_a, m)
            &&& projected(w, m, ra)
        };
    let mb = choose|m: TensorView|
        {
            &&& #[trigger] grouped_attention(qb, k, v, attn.group(), mask_b, m)
            &&& projected(w, m, rb)
        };
    assert(mb.dims =~= ma.dims.update(1, mb.dims[1]));
    assert(rb.dims =~= ra.dims.update(1, rb.dims[1]));
    lemma_joined(ma, mb);
    lemma_joined(ra, rb);
    let (m, r) = (joined(ma, mb), joined(ra, rb));
    lemma_join_attention(
        qa,
        qb,
        q,
        ka,
        kb,
        k,
        va,
        vb,
        v,
        attn.group(),
        padding,
        ma,
        mb,
        m,
    );
    lemma_join_projected(w, ma, mb, m, ra, rb, r);
    assert(attn.mix_outcome(q, k, v, Some(prefill_mask(padding, x.dims[1], x.dims[1])), r));
}

proof fn lemma_join_sums(
    xa: TensorView,
    xb: TensorView,
    x: TensorView,
    ya: TensorView,
    yb: TensorView,
    y: TensorView,
    ra: TensorView,
    rb: TensorView,
    r: TensorView,
)
    requires
        xa.dims.len() == 3,
        joins(xa, xb, x),
        joins(ya, yb, y),
        joins(ra, rb, r),
        ya.dims == xa.dims,
        yb.dims == xb.dims,
        ra.dims == xa.dims,
        rb.dims == xb.dims,
        sums(xa, ya, ra),
        sums(xb, yb, rb),
    ensures
        sums(x, y, r),
{
    let p = xa.dims[1] as int;
    assert(r.dims =~= broadcast_dims(x.dims, y.dims));
    assert forall|idx: Seq<int>| in_bounds(r.dims, idx) implies sum_outcome(
        x.at(source_index(x.dims, idx)),
        y.at(source_index(y.dims, idx)),
        #[trigger] r.at(idx),
    ) by {
        lemma_source_is_itself(x.dims, idx);
        lemma_source_is_itself(y.dims, idx);
        lemma_sides(xa, xb, x, idx);
        lemma_sides(ya, yb, y, idx);
        lemma_sides(ra, rb, r, idx);
        if idx[1] < p {
            lemma_source_is_itself(xa.dims, idx);
            assert(ra.at(idx) == r.at(idx));
        } else {
            let moved = idx.update(1, idx[1] - p);
            lemma_source_is_itself(xb.dims, moved);
            assert(rb.at(moved) == r.at(idx));
        }
    }
}

/// An index of a tensor is its own source.
proof fn lemma_source_is_itself(dims: Seq<nat>, idx: Seq<int>)
    requires
        in_bounds(dims, idx),
    ensures
        source_index(dims, idx) == idx,
{
    assert forall|i: int| 0 <= i < idx.len() implies #[trigger] source_index(dims, idx)[i]
        == idx[i] by {
        assert(0 <= idx[i] < dims[i]);
    }
    assert(source_index(dims, idx) =~= idx);
}

proof fn lemma_join_gated(
    gate: TensorView,
    up: TensorView,
    xa: TensorView,
    xb: TensorView,
    x: TensorView,
    ra: TensorView,
    rb: TensorView,
    r: TensorView,
)
    requires
        xa.dims.len() == 3,
        joins(xa, xb, x),
        joins(ra, rb, r),
        gated(gate, up, xa, ra),
        gated(gate, up, xb, rb),
    ensures
        gated(gate, up, x, r),
{
    assert(r.dims =~= x.dims.update(2, gate.dims[1]));
    assert forall|idx: Seq<int>| in_bounds(r.dims, idx) implies gate_outcome(
        last_axis(x, idx.drop_last()),
        column_of(gate, idx.last()),
        column_of(up, idx.last()),
        #[trigger] r.at(idx),
    ) by {
        lemma_sides(ra, rb, r, idx);
        lemma_prefix_in_bounds(r.dims, x.dims, idx);
        lemma_join_row(xa, xb, x, idx.drop_last());
        let moved = idx.update(1, idx[1] - ra.dims[1]);
        assert(moved.drop_last() =~= idx.drop_last().update(1, idx[1] - ra.dims[1]));
        assert(moved.last() == idx.last());
    }
}

/// What follows attention in a layer works position by position.
proof fn lemma_join_rest(
    layer: Qwen3DecoderLayer,
    xa: TensorView,
    xb: TensorView,
    x: TensorView,
    aa: TensorView,
    ab: TensorView,
    a: TensorView,
    ra: TensorView,
    rb: TensorView,
)
    requires
        layer.wf(),
        xa.dims.len() == 3,
        xa.dims[2] == layer.hidden_size(),
        joins(xa, xb, x),
        joins(aa, ab, a),
        aa.dims == xa.dims,
        ab.dims == xb.dims,
        layer.rest_outcome(xa, aa, ra),
        layer.rest_outcome(xb, ab, rb),
    ensures
        layer.rest_outcome(x, a, joined(ra, rb)),
        joins(ra, rb, joined(ra, rb)),
        ra.dims == xa.dims,
        rb.dims == xb.dims,
{
    lemma_part_rest(layer, xa, aa, ra, 0, xa.dims[1] as int);
    lemma_part_rest(layer, xb, ab, rb, 0, xb.dims[1] as int);
    lemma_joined(ra, rb);
    let r = joined(ra, rb);
    let mida = choose|mid: TensorView| #[trigger]
        sums(xa, aa, mid) && layer.feed_forward_outcome(mid, ra);
    let midb = choose|mid: TensorView| #[trigger]
        sums(xb, ab, mid) && layer.feed_forward_outcome(mid, rb);
    lemma_part_sums(xa, aa, mida, 0, xa.dims[1] as int);
    lemma_part_sums(xb, ab, midb, 0, xb.dims[1] as int);
    lemma_joined(mida, midb);
    let mid = joined(mida, midb);
    lemma_join_sums(xa, xb, x, aa, ab, a, mida, midb, mid);
    let norm = layer.post_attention_layernorm;
    let (na, fa) = choose|normed: TensorView, m: TensorView|
        {
            &&& normalized(norm.gamma@, norm.epsilon, mida, normed)
            &&& #[trigger] layer.mlp.outcome(normed, m)
            &&& sums(mida, m, ra)
        };
    let (nb, fb) = choose|normed: TensorView, m: TensorView|
        {
            &&& normalized(norm.gamma@, norm.epsilon, midb, normed)
            &&& #[trigger] layer.mlp.outcome(normed, m)
            &&& sums(midb, m, rb)
        };
    lemma_joined(na, nb);
    let n = joined(na, nb);
    lemma_join_normalized(norm.gamma@, norm.epsilon, mida, midb, mid, na, nb, n);
    let (gate, up, down) = (
        layer.mlp.gate_proj.weight@,
        layer.mlp.up_proj.weight@,
        layer.mlp.down_proj.weight@,
    );
    let ia = choose|inner: TensorView|
        {
            &&& #[trigger] gated(gate, up, na, inner)
            &&& projected(down, inner, fa)
        };
    let ib = choose|inner: TensorView|
        {
            &&& #[trigger] gated(gate, up, nb, inner)
            &&& projected(down, inner, fb)
        };
    assert(ib.dims =~= ia.dims.update(1, ib.dims[1]));
    lemma_joined(ia, ib);
    let inner = joined(ia, ib);
    lemma_join_gated(gate, up, na, nb, n, ia, ib, inner);
    assert(fa.dims =~= mida.dims);
    assert(fb.dims =~= midb.dims);
    lemma_joined(fa, fb);
    let f = joined(fa, fb);
    lemma_join_projected(down, ia, ib, inner, fa, fb, f);
    lemma_join_sums(mida, midb, mid, fa, fb, f, ra, rb, r);
    assert(layer.mlp.outcome(n, f));
    assert(layer.feed_forward_outcome(mid, r));
}

/// The steps of a layer, joined.
pub open spec fn joined_trace(a: LayerTrace, b: LayerTrace) -> LayerTrace {
    LayerTrace {
        normed: joined(a.normed, b.normed),
        q: joined(a.q, b.q),
        k: joined(a.k, b.k),
        v: joined(a.v, b.v),
        attended: joined(a.attended, b.attended),
    }
}

/// Passes through a layer join.
proof fn lemma_layer_passes_join(
    layer: Qwen3DecoderLayer,
    xa: TensorView,
    xb: TensorView,
    x: TensorView,
    padding: Option<Seq<Seq<bool>>>,
    positions: Seq<Seq<i64>>,
    ta: LayerTrace,
    ra: TensorView,
    tb: LayerTrace,
    rb: TensorView,
    after: KVCacheView,
)
    requires
        layer.wf(),
        xa.dims.len() == 3,
        xa.dims[2] == layer.hidden_size(),
        joins(xa, xb, x),
        padding_fits(padding, x.dims[0], x.dims[1]),
        is_int_table(positions, x.dims[0], x.dims[1]),
        layer.forward_with(
            xa,
            part_of_padding(padding, xa.dims[1] as int),
            part_of_rows(positions, 0, xa.dims[1] as int),
            ta,
            ra,
        ),
        layer.cached_with(
            xb,
            padding,
            part_of_rows(positions, xa.dims[1] as int, x.dims[1] as int),
            KVCacheView { key: Some(ta.k), value: Some(ta.v) },
            after,
            tb,
            rb,
        ),
        all_finite(after.value->0),
    ensures
        layer.forward_with(x, padding, positions, joined_trace(ta, tb), joined(ra, rb)),
        after == (KVCacheView { key: Some(joined(ta.k, tb.k)), value: Some(joined(ta.v, tb.v)) }),
        joins(ra, rb, joined(ra, rb)),
        ra.dims == xa.dims,
        rb.dims == xb.dims,
{
    let p = xa.dims[1] as int;
    let norm = layer.input_layernorm;
    lemma_joined(ta.normed, tb.normed);
    let normed = joined(ta.normed, tb.normed);
    lemma_join_normalized(norm.gamma@, norm.epsilon, xa, xb, x, ta.normed, tb.normed, normed);
    lemma_attention_passes_join(
        layer.self_attn,
        ta.normed,
        tb.normed,
        normed,
        padding,
        positions,
        ta.q,
        ta.k,
        ta.v,
        ta.attended,
        tb.q,
        tb.k,
        tb.v,
        tb.attended,
        after,
    );
    lemma_trace_shapes(
        layer,
        xa,
        part_of_padding(padding, p),
        part_of_rows(positions, 0, p),
        ta,
        ra,
    );
    assert(tb.attended.dims =~= xb.dims);
    lemma_join_rest(
        layer,
        xa,
        xb,
        x,
        ta.attended,
        tb.attended,
        joined(ta.attended, tb.attended),
        ra,
        rb,
    );
}

/// The embeddings of both parts are those of the whole.
proof fn lemma_join_looked_up(
    weight: TensorView,
    ids: Seq<Seq<i64>>,
    p: int,
    ra: TensorView,
    rb: TensorView,
    r: TensorView,
)
    requires
        ids.len() > 0,
        is_int_table(ids, ids.len(), ids[0].len()),
        0 < p < ids[0].len(),
        looked_up(weight, part_of_rows(ids, 0, p), ra),
        looked_up(weight, part_of_rows(ids, p, ids[0].len() as int), rb),
        joins(ra, rb, r),
    ensures
        looked_up(weight, ids, r),
{
    let s = ids[0].len() as int;
    let (first, rest) = (part_of_rows(ids, 0, p), part_of_rows(ids, p, s));
    assert(first[0].len() == p && rest[0].len() == s - p);
    assert(r.dims =~= seq![ids.len(), ids[0].len(), weight.dims[1]]);
    assert forall|idx: Seq<int>| in_bounds(r.dims, idx) implies #[trigger] r.at(idx) == weight.at(
        seq![ids[idx[0]][idx[1]] as int, idx[2]],
    ) by {
        lemma_sides(ra, rb, r, idx);
        assert(0 <= idx[0] < r.dims[0] && 0 <= idx[1] < r.dims[1]);
        if idx[1] < p {
            assert(first[idx[0]][idx[1]] == ids[idx[0]][idx[1]]);
        } else {
            let moved = idx.update(1, idx[1] - p);
            assert(rest[moved[0]][moved[1]] == ids[idx[0]][idx[1]]);
            assert(moved[2] == idx[2]);
        }
    }
}

/// The values that the caches hold are finite.
pub open spec fn cached_values_are_finite(caches: Seq<KVCacheView>) -> bool {
    forall|l: int|
        0 <= l < caches.len() ==> ((#[trigger] caches[l]).value matches Some(v) ==> all_finite(v))
}

/// The steps of all layers, joined.
pub open spec fn joined_traces(a: Seq<LayerTrace>, b: Seq<LayerTrace>) -> Seq<LayerTrace> {
    Seq::new(a.len(), |l: int| joined_trace(a[l], b[l]))
}

/// The states of all layers, joined.
pub open spec fn joined_states(a: Seq<TensorView>, b: Seq<TensorView>) -> Seq<TensorView> {
    Seq::new(a.len(), |l: int| joined(a[l], b[l]))
}

/// `states` are those of a pass on `ids` with caches that go from `before` to `after`, by the steps
/// `traces` of the layers.
pub open spec fn cached_traced(
    model: Qwen3Model,
    ids: Seq<Seq<i64>>,
    padding: Option<Seq<Seq<bool>>>,
    positions: Seq<Seq<i64>>,
    before: Seq<KVCacheView>,
    after: Seq<KVCacheView>,
    traces: Seq<LayerTrace>,
    states: Seq<TensorView>,
) -> bool {
    let layers = model.layers@;
    &&& states.len() == layers.len() + 2
    &&& traces.len() == layers.len()
    &&& before.len() == layers.len()
    &&& after.len() == layers.len()
    &&& looked_up(model.embed_tokens.weight@, ids, states[0])
    &&& forall|l: int|
        0 <= l < layers.len() ==> (#[trigger] layers[l]).cached_with(
            states[l],
            padding,
            positions,
            before[l],
            after[l],
            traces[l],
            states[l + 1],
        )
    &&& normalized(
        model.norm.gamma@,
        model.norm.epsilon,
        states[layers.len() as int],
        states.last(),
    )
}

/// A pass with caches goes by some steps.
proof fn lemma_cached_pass_has_traces(
    model: Qwen3Model,
    ids: Seq<Seq<i64>>,
    padding: Option<Seq<Seq<bool>>>,
    positions: Seq<Seq<i64>>,
    before: Seq<KVCacheView>,
    after: Seq<KVCacheView>,
    r: TensorView,
) -> (steps: (Seq<LayerTrace>, Seq<TensorView>))
    requires
        before.len() == model.layers@.len(),
        model.cached_outcome(ids, padding, positions, before, after, r),
    ensures
        cached_traced(model, ids, padding, positions, before, after, steps.0, steps.1),
        steps.1.last() == r,
{
    let layers = model.layers@;
    let cached = choose|states: Seq<TensorView>|
        {
            &&& #[trigger] model.cached_states(ids, padding, positions, before, after, states)
            &&& normalized(model.norm.gamma@, model.norm.epsilon, states.last(), r)
        };
    let states = cached.push(r);
    let traces = Seq::new(
        layers.len(),
        |l: int|
            choose|t: LayerTrace| #[trigger]
                layers[l].cached_with(
                    cached[l],
                    padding,
                    positions,
                    before[l],
                    after[l],
                    t,
                    cached[l + 1],
                ),
    );
    assert forall|l: int| 0 <= l < layers.len() implies (#[trigger] layers[l]).cached_with(
        states[l],
        padding,
        positions,
        before[l],
        after[l],
        traces[l],
        states[l + 1],
    ) by {
        assert(layers[l].cached_outcome(
            cached[l],
            padding,
            positions,
            before[l],
            after[l],
            cached[l + 1],
        ));
    }
    (traces, states)
}

/// The states of both passes can be joined, layer by layer.
proof fn lemma_join_states(
    model: Qwen3Model,
    ids: Seq<Seq<i64>>,
    padding: Option<Seq<Seq<bool>>>,
    p: int,
    ta: Seq<LayerTrace>,
    sa: Seq<TensorView>,
    after: Seq<KVCacheView>,
    tb: Seq<LayerTrace>,
    sb: Seq<TensorView>,
    l: int,
)
    requires
        model.wf(),
        ids.len() > 0,
        is_int_table(ids, ids.len(), ids[0].len()),
        ids[0].len() <= usize::MAX,
        padding_fits(padding, ids.len(), ids[0].len()),
        0 < p < ids[0].len(),
        forward_traced(model, part_of_rows(ids, 0, p), part_of_padding(padding, p), ta, sa),
        cached_traced(
            model,
            part_of_rows(ids, p, ids[0].len() as int),
            padding,
            positions_from(p as nat, ids.len(), (ids[0].len() - p) as nat),
            full_caches(ta),
            after,
            tb,
            sb,
        ),
        cached_values_are_finite(after),
        0 <= l <= model.layers@.len(),
    ensures
        joins(sa[l], sb[l], joined(sa[l], sb[l])),
        joined(sa[l], sb[l]).dims == seq![
            ids.len(),
            ids[0].len(),
            model.config.hidden_size as nat,
        ],
        sa[l].dims[1] == p,
        l > 0 ==> {
            &&& model.layers@[l - 1].forward_with(
                joined(sa[l - 1], sb[l - 1]),
                padding,
                positions_from(0, ids.len(), ids[0].len()),
                joined_trace(ta[l - 1], tb[l - 1]),
                joined(sa[l], sb[l]),
            )
            &&& after[l - 1] == full_caches(joined_traces(ta, tb))[l - 1]
        },
    decreases l,
{
    let s = ids[0].len() as int;
    let (first, rest) = (part_of_rows(ids, 0, p), part_of_rows(ids, p, s));
    assert(first[0].len() == p && rest[0].len() == s - p);
    if l == 0 {
        assert(sb[0].dims =~= sa[0].dims.update(1, sb[0].dims[1]));
        lemma_joined(sa[0], sb[0]);
        assert(joined(sa[0], sb[0]).dims =~= seq![
            ids.len(),
            ids[0].len(),
            model.config.hidden_size as nat,
        ]);
    } else {
        let i = l - 1;
        lemma_join_states(model, ids, padding, p, ta, sa, after, tb, sb, i);
        let layer = model.layers@[i];
        assert(layer.wf());
        let positions = positions_from(0, ids.len(), ids[0].len());
        lemma_part_of_positions(ids.len(), ids[0].len(), 0, p);
        lemma_part_of_positions(ids.len(), ids[0].len(), p, s);
        let x = joined(sa[i], sb[i]);
        assert(layer.cached_with(
            sb[i],
            padding,
            part_of_rows(positions, p, s),
            full_caches(ta)[i],
            after[i],
            tb[i],
            sb[l],
        ));
        assert(after[i].value is Some);
        lemma_layer_passes_join(
            layer,
            sa[i],
            sb[i],
            x,
            padding,
            positions,
            ta[i],
            sa[l],
            tb[i],
            sb[l],
            after[i],
        );
        assert(joined(sa[l], sb[l]).dims =~= x.dims);
    }
}

/// Passes through a model join: a forward pass on the first `p` tokens, and a pass on the rest with
/// the caches that it leaves, are together a forward pass on all tokens, and the caches hold its
/// keys and values. The value vectors must be finite.
pub proof fn lemma_model_passes_join(
    model: Qwen3Model,
    ids: Seq<Seq<i64>>,
    padding: Option<Seq<Seq<bool>>>,
    p: int,
    ta: Seq<LayerTrace>,
    sa: Seq<TensorView>,
    after: Seq<KVCacheView>,
    tb: Seq<LayerTrace>,
    sb: Seq<TensorView>,
)
    requires
        model.wf(),
        ids.len() > 0,
        is_int_table(ids, ids.len(), ids[0].len()),
        ids[0].len() <= usize::MAX,
        padding_fits(padding, ids.len(), ids[0].len()),
        0 < p < ids[0].len(),
        forward_traced(model, part_of_rows(ids, 0, p), part_of_padding(padding, p), ta, sa),
        cached_traced(
            model,
            part_of_rows(ids, p, ids[0].len() as int),
            padding,
            positions_from(p as nat, ids.len(), (ids[0].len() - p) as nat),
            full_caches(ta),
            after,
            tb,
            sb,
        ),
        cached_values_are_finite(after),
    ensures
        forward_traced(model, ids, padding, joined_traces(ta, tb), joined_states(sa, sb)),
        after == full_caches(joined_traces(ta, tb)),
        joins(sa.last(), sb.last(), joined(sa.last(), sb.last())),
{
    let layers = model.layers@;
    let n = layers.len() as int;
    let s = ids[0].len() as int;
    let (traces, states) = (joined_traces(ta, tb), joined_states(sa, sb));
    let positions = positions_from(0, ids.len(), ids[0].len());
    lemma_join_states(model, ids, padding, p, ta, sa, after, tb, sb, 0);
    lemma_join_looked_up(model.embed_tokens.weight@, ids, p, sa[0], sb[0], states[0]);
    assert forall|l: int| 0 <= l < n implies (#[trigger] layers[l]).forward_with(
        states[l],
        padding,
        positions,
        traces[l],
        states[l + 1],
    ) by {
        lemma_join_states(model, ids, padding, p, ta, sa, after, tb, sb, l + 1);
    }
    assert forall|l: int| 0 <= l < n implies #[trigger] after[l] == full_caches(traces)[l] by {
        lemma_join_states(model, ids, padding, p, ta, sa, after, tb, sb, l + 1);
    }
    assert(after =~= full_caches(traces));
    lemma_join_states(model, ids, padding, p, ta, sa, after, tb, sb, n);
    lemma_joined(sa.last(), sb.last());
    lemma_join_normalized(
        model.norm.gamma@,
        model.norm.epsilon,
        sa[n],
        sb[n],
        states[n],
        sa.last(),
        sb.last(),
        states.last(),
    );
}

/// Logits of passes join: the logits of a forward pass on the first `p` tokens, and those of a pass
/// on the rest with the caches that it leaves, are together logits of a forward pass on all tokens.
/// The value vectors must be finite.
pub proof fn lemma_logits_join(
    lm: Qwen3ForCausalLM,
    ids: Seq<Seq<i64>>,
    padding: Option<Seq<Seq<bool>>>,
    p: int,
    ta: Seq<LayerTrace>,
    sa: Seq<TensorView>,
    la: TensorView,
    after: Seq<KVCacheView>,
    lb: TensorView,
) -> (steps: (Seq<LayerTrace>, Seq<TensorView>))
    requires
        lm.wf(),
        ids.len() > 0,
        is_int_table(ids, ids.len(), ids[0].len()),
        ids[0].len() <= usize::MAX,
        padding_fits(padding, ids.len(), ids[0].len()),
        0 < p < ids[0].len(),
        forward_traced(lm.model, part_of_rows(ids, 0, p), part_of_padding(padding, p), ta, sa),
        projected(lm.lm_head.weight@, sa.last(), la),
        lm.cached_outcome(
            part_of_rows(ids, p, ids[0].len() as int),
            padding,
            positions_from(p as nat, ids.len(), (ids[0].len() - p) as nat),
            full_caches(ta),
            after,
            lb,
        ),
        cached_values_are_finite(after),
    ensures
        forward_traced(lm.model, ids, padding, steps.0, steps.1),
        projected(lm.lm_head.weight@, steps.1.last(), joined(la, lb)),
        lm.forward_outcome(ids, padding, joined(la, lb)),
        after == full_caches(steps.0),
        joins(la, lb, joined(la, lb)),
{
    let s = ids[0].len() as int;
    let rest = part_of_rows(ids, p, s);
    let positions = positions_from(p as nat, ids.len(), (ids[0].len() - p) as nat);
    let state = choose|state: TensorView|
        {
            &&& #[trigger] lm.model.cached_outcome(
                rest,
                padding,
                positions,
                full_caches(ta),
                after,
                state,
            )
            &&& projected(lm.lm_head.weight@, state, lb)
        };
    let (tb, sb) = lemma_cached_pass_has_traces(
        lm.model,
        rest,
        padding,
        positions,
        full_caches(ta),
        after,
        state,
    );
    lemma_model_passes_join(lm.model, ids, padding, p, ta, sa, after, tb, sb);
    lemma_join_states(
        lm.model,
        ids,
        padding,
        p,
        ta,
        sa,
        after,
        tb,
        sb,
        lm.model.layers@.len() as int,
    );
    let states = joined_states(sa, sb);
    assert(lb.dims =~= la.dims.update(1, lb.dims[1]));
    lemma_joined(la, lb);
    lemma_join_projected(
        lm.lm_head.weight@,
        sa.last(),
        sb.last(),
        states.last(),
        la,
        lb,
        joined(la, lb),
    );
    lemma_forward_has_traces(lm.model, ids, padding, states);
    (joined_traces(ta, tb), states)
}

/// Every cache of a run holds finite values.
pub open spec fn run_is_finite(caches: Seq<Seq<KVCacheView>>) -> bool {
    forall|i: int| 0 <= i < caches.len() ==> cached_values_are_finite(#[trigger] caches[i])
}

/// The tokens that the first steps of a run have fed, in two parts: those fed before the last of
/// these steps, and those fed in it.
proof fn lemma_fed_in_parts(ids: Seq<Seq<i64>>, columns: Seq<Seq<i64>>, i: int)
    requires
        ids.len() > 0,
        is_int_table(ids, ids.len(), ids[0].len()),
        0 < i <= columns.len(),
        columns[i - 1].len() == ids.len(),
    ensures
        ({
            let fed = appended(ids, columns, i as nat);
            let n = ids[0].len() + i;
            &&& is_int_table(fed, ids.len(), n as nat)
            &&& part_of_rows(fed, 0, n - 1) == appended(ids, columns, (i - 1) as nat)
            &&& part_of_rows(fed, n - 1, n) == lone_tokens(columns[i - 1])
        }),
{
    let fed = appended(ids, columns, i as nat);
    let n = ids[0].len() + i;
    let before = appended(ids, columns, (i - 1) as nat);
    let (first, last) = (part_of_rows(fed, 0, n - 1), part_of_rows(fed, n - 1, n));
    assert forall|b: int| 0 <= b < ids.len() implies #[trigger] first[b] == before[b] by {
        assert(ids[b].len() == ids[0].len());
        assert(first[b] =~= before[b]);
    }
    assert(first =~= before);
    assert forall|b: int| 0 <= b < ids.len() implies #[trigger] last[b] == lone_tokens(
        columns[i - 1],
    )[b] by {
        assert(ids[b].len() == ids[0].len());
        assert(last[b] =~= lone_tokens(columns[i - 1])[b]);
    }
    assert(last =~= lone_tokens(columns[i - 1]));
}

/// The first step of a run is a forward pass on the initial tokens.
proof fn lemma_first_step_is_forward(
    lm: Qwen3ForCausalLM,
    ids: Seq<Seq<i64>>,
    temperature: Single,
    top_p: Single,
    top_k: nat,
    after: Seq<KVCacheView>,
    tokens: Seq<i64>,
) -> (r: (Seq<LayerTrace>, Seq<TensorView>, TensorView))
    requires
        lm.wf(),
        lm.cached_step(
            ids,
            0,
            temperature,
            top_p,
            top_k,
            empty_caches(lm.model.layers@.len()),
            after,
            tokens,
        ),
    ensures
        forward_traced(lm.model, ids, None, r.0, r.1),
        projected(lm.lm_head.weight@, r.1.last(), r.2),
        after == full_caches(r.0),
        are_next(r.2, temperature, top_p, top_k, tokens),
{
    let empty = empty_caches(lm.model.layers@.len());
    let positions = positions_from(0, ids.len(), ids[0].len());
    let logits = choose|logits: TensorView|
        {
            &&& #[trigger] lm.cached_outcome(ids, None, positions, empty, after, logits)
            &&& are_next(logits, temperature, top_p, top_k, tokens)
        };
    let state = choose|state: TensorView|
        {
            &&& #[trigger] lm.model.cached_outcome(ids, None, positions, empty, after, state)
            &&& projected(lm.lm_head.weight@, state, logits)
        };
    let (traces, states) = lemma_prefill_is_forward(lm.model, ids, None, after, state);
    (traces, states, logits)
}

/// A step of a run, joined to a forward pass on the tokens before it, is a forward pass on those
/// tokens and its own.
proof fn lemma_next_step_is_forward(
    lm: Qwen3ForCausalLM,
    fed: Seq<Seq<i64>>,
    p: int,
    temperature: Single,
    top_p: Single,
    top_k: nat,
    ta: Seq<LayerTrace>,
    sa: Seq<TensorView>,
    la: TensorView,
    after: Seq<KVCacheView>,
    tokens: Seq<i64>,
) -> (r: (Seq<LayerTrace>, Seq<TensorView>, TensorView))
    requires
        lm.wf(),
        fed.len() > 0,
        is_int_table(fed, fed.len(), (p + 1) as nat),
        0 < p < usize::MAX,
        forward_traced(lm.model, part_of_rows(fed, 0, p), None, ta, sa),
        projected(lm.lm_head.weight@, sa.last(), la),
        lm.cached_step(
            part_of_rows(fed, p, p + 1),
            p as nat,
            temperature,
            top_p,
            top_k,
            full_caches(ta),
            after,
            tokens,
        ),
        cached_values_are_finite(after),
    ensures
        forward_traced(lm.model, fed, None, r.0, r.1),
        projected(lm.lm_head.weight@, r.1.last(), r.2),
        after == full_caches(r.0),
        are_next(r.2, temperature, top_p, top_k, tokens),
{
    let input = part_of_rows(fed, p, p + 1);
    assert(fed[0].len() == p + 1);
    assert(input[0].len() == 1);
    let positions = positions_from(p as nat, fed.len(), 1);
    let logits = choose|logits: TensorView|
        {
            &&& #[trigger] lm.cached_outcome(
                input,
                None,
                positions,
                full_caches(ta),
                after,
                logits,
            )
            &&& are_next(logits, temperature, top_p, top_k, tokens)
        };
    assert(part_of_padding(None, p) is None);
    let (traces, states) = lemma_logits_join(lm, fed, None, p, ta, sa, la, after, logits);
    let all = joined(la, logits);
    lemma_logits_shape(lm, fed, traces, states, all);
    lemma_logits_shape(lm, part_of_rows(fed, 0, p), ta, sa, la);
    assert(part_of_rows(fed, 0, p)[0].len() == p);
    assert(logits.dims[1] == 1);
    assert forall|b: int| 0 <= b < logits.dims[0] implies #[trigger] last_logits(all, b)
        == last_logits(logits, b) by {
        lemma_join_row(la, logits, all, seq![b, p]);
        assert(seq![b, p].update(1, p - la.dims[1]) =~= seq![b, 0int]);
    }
    lemma_next_from_last(logits, all, temperature, top_p, top_k, tokens);
    (traces, states, all)
}

/// The steps of a run up to step `i` are together a forward pass on the tokens that they have fed,
/// and the tokens of step `i` are chosen from its logits.
proof fn lemma_run_is_forward(
    lm: Qwen3ForCausalLM,
    ids: Seq<Seq<i64>>,
    temperature: Single,
    top_p: Single,
    top_k: nat,
    caches: Seq<Seq<KVCacheView>>,
    columns: Seq<Seq<i64>>,
    i: int,
) -> (r: (Seq<LayerTrace>, Seq<TensorView>, TensorView))
    requires
        lm.wf(),
        are_tokens(ids, lm.model.config.vocab_size as nat),
        lm.cached_run(ids, temperature, top_p, top_k, caches, columns),
        run_is_finite(caches),
        0 <= i < columns.len(),
        ids[0].len() + i <= usize::MAX,
    ensures
        forward_traced(lm.model, appended(ids, columns, i as nat), None, r.0, r.1),
        projected(lm.lm_head.weight@, r.1.last(), r.2),
        caches[i + 1] == full_caches(r.0),
        are_next(r.2, temperature, top_p, top_k, columns[i]),
    decreases i,
{
    let fed = appended(ids, columns, i as nat);
    let done = columns.take(i);
    assert(lm.cached_step(
        step_input(ids, done),
        step_start(ids, done),
        temperature,
        top_p,
        top_k,
        caches[i],
        caches[i + 1],
        columns[i],
    ));
    if i == 0 {
        assert forall|b: int| 0 <= b < ids.len() implies #[trigger] fed[b] == ids[b] by {
            assert(fed[b] =~= ids[b]);
        }
        assert(fed =~= ids);
        lemma_first_step_is_forward(
            lm,
            ids,
            temperature,
            top_p,
            top_k,
            caches[1],
            columns[0],
        )
    } else {
        let (ta, sa, la) = lemma_run_is_forward(
            lm,
            ids,
            temperature,
            top_p,
            top_k,
            caches,
            columns,
            i - 1,
        );
        let p = ids[0].len() + i - 1;
        assert(columns[i - 1].len() == ids.len()) by {
            lemma_caches_keep_pace(lm, ids, temperature, top_p, top_k, caches, columns, i);
        }
        lemma_fed_in_parts(ids, columns, i);
        assert(done.last() == columns[i - 1]);
        assert(cached_values_are_finite(caches[i + 1]));
        lemma_next_step_is_forward(
            lm,
            fed,
            p,
            temperature,
            top_p,
            top_k,
            ta,
            sa,
            la,
            caches[i + 1],
            columns[i],
        )
    }
}

/// The tokens of step `i` of a run are possible next tokens after those before them.
proof fn lemma_run_step(
    lm: Qwen3ForCausalLM,
    ids: Seq<Seq<i64>>,
    temperature: Single,
    top_p: Single,
    top_k: nat,
    caches: Seq<Seq<KVCacheView>>,
    columns: Seq<Seq<i64>>,
    i: int,
)
    requires
        lm.wf(),
        are_tokens(ids, lm.model.config.vocab_size as nat),
        lm.cached_run(ids, temperature, top_p, top_k, caches, columns),
        run_is_finite(caches),
        0 <= i < columns.len(),
        ids[0].len() + i <= usize::MAX,
    ensures
        lm.step_outcome(
            appended(ids, columns, i as nat),
            temperature,
            top_p,
            top_k,
            columns[i],
        ),
        columns[i].len() == ids.len(),
{
    let (traces, states, logits) = lemma_run_is_forward(
        lm,
        ids,
        temperature,
        top_p,
        top_k,
        caches,
        columns,
        i,
    );
    let fed = appended(ids, columns, i as nat);
    lemma_forward_has_traces(lm.model, fed, None, states);
    assert(lm.model.forward_outcome(fed, None, states));
    assert(lm.forward_outcome(fed, None, logits));
    lemma_caches_keep_pace(lm, ids, temperature, top_p, top_k, caches, columns, i + 1);
}

/// The tokens behind the initial ones are those of the steps.
proof fn lemma_rows_of_steps(ids: Seq<Seq<i64>>, columns: Seq<Seq<i64>>, count: nat, i: int)
    requires
        ids.len() > 0,
        is_int_table(ids, ids.len(), ids[0].len()),
        0 <= i <= count <= columns.len(),
    ensures
        ({
            let rows = appended(ids, columns, count);
            let n = ids[0].len() + i;
            &&& is_int_table(rows, ids.len(), ids[0].len() + count)
            &&& first_tokens(rows, n) == appended(ids, columns, i as nat)
            &&& first_tokens(rows, ids[0].len() as int) == ids
            &&& i < count && columns[i].len() == ids.len() ==> tokens_at(rows, n) == columns[i]
        }),
{
    let rows = appended(ids, columns, count);
    let n = ids[0].len() + i;
    let fed = appended(ids, columns, i as nat);
    let first = first_tokens(rows, n);
    assert forall|b: int| 0 <= b < ids.len() implies #[trigger] first[b] == fed[b] by {
        assert(ids[b].len() == ids[0].len());
        assert(first[b] =~= fed[b]);
    }
    assert(first =~= fed);
    let initial = first_tokens(rows, ids[0].len() as int);
    assert forall|b: int| 0 <= b < ids.len() implies #[trigger] initial[b] == ids[b] by {
        assert(ids[b].len() == ids[0].len());
        assert(initial[b] =~= ids[b]);
    }
    assert(initial =~= ids);
    if i < count && columns[i].len() == ids.len() {
        assert forall|b: int| 0 <= b < ids.len() implies #[trigger] tokens_at(rows, n)[b]
            == columns[i][b] by {
            assert(ids[b].len() == ids[0].len());
        }
        assert(tokens_at(rows, n) =~= columns[i]);
    }
}

/// The cache changes the cost and not the tokens: whatever generation with a cache returns, by the
/// steps `columns` with `caches`, `generate` may return for as many new tokens. And it ends before
/// `max_new_tokens` only where a next token of the first sequence is an end token. The value
/// vectors, which the caches hold, must be finite.
pub proof fn lemma_cached_generation_is_generation(
    lm: Qwen3ForCausalLM,
    ids: Seq<Seq<i64>>,
    max_new_tokens: nat,
    temperature: Single,
    top_p: Single,
    top_k: nat,
    eos: Seq<i64>,
    caches: Seq<Seq<KVCacheView>>,
    columns: Seq<Seq<i64>>,
    rows: Seq<Seq<i64>>,
)
    requires
        lm.wf(),
        are_tokens(ids, lm.model.config.vocab_size as nat),
        ids[0].len() + max_new_tokens <= usize::MAX,
        lm.generated_with(
            ids,
            max_new_tokens,
            temperature,
            top_p,
            top_k,
            eos,
            caches,
            columns,
            rows,
        ),
        run_is_finite(caches),
    ensures
        lm.generated(
            ids,
            (rows[0].len() - ids[0].len()) as nat,
            temperature,
            top_p,
            top_k,
            rows,
        ),
        eos.len() == 0 ==> rows[0].len() == ids[0].len() + max_new_tokens,
        rows[0].len() < ids[0].len() + max_new_tokens ==> {
            &&& lm.step_outcome(rows, temperature, top_p, top_k, columns.last())
            &&& eos.contains(columns.last()[0])
        },
{
    let seq = ids[0].len() as int;
    let ended = columns.len() > 0 && eos.contains(columns.last()[0]);
    let count = if ended {
        (columns.len() - 1) as nat
    } else {
        columns.len()
    };
    assert(rows == appended(ids, columns, count));
    lemma_rows_of_steps(ids, columns, count, 0);
    assert forall|n: int| seq <= n < seq + count implies lm.step_outcome(
        first_tokens(rows, n),
        temperature,
        top_p,
        top_k,
        #[trigger] tokens_at(rows, n),
    ) by {
        lemma_run_step(lm, ids, temperature, top_p, top_k, caches, columns, n - seq);
        lemma_rows_of_steps(ids, columns, count, n - seq);
    }
    if ended {
        lemma_run_step(lm, ids, temperature, top_p, top_k, caches, columns, count as int);
    }
}

} // verus!
