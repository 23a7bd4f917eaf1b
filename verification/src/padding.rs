//! What padding is for: a position that the mask marks as padding has no influence on the others.
//!
//! The results of the arithmetic are known up to rounding, so the law speaks of possible results:
//! what a forward pass may give, it may still give at all other positions when the hidden state of
//! a padded position is another.
use vstd::prelude::*;

use crate::attention::{
    cached_column, cached_rows, grouped_attention, projected_heads, HeadsTrace, Qwen3Attention,
};
use crate::incremental::{
    all_finite, hidden_from, lemma_group, lemma_heads_shapes, lemma_hidden_keys,
    lemma_index_at_offset, lemma_seen_agrees, tabulated,
};
use crate::mask::{is_table, prefill_mask};
use crate::nn::{
    column_of, dot_outcome, hidden_are_finite, hidden_keys, is_finite, is_int_table,
    masked_outcome, normalized, projected, rms_norm_outcome,
};
use crate::num::Double;
use crate::rope::{entry_outcome, first_turned, rotated, second_turned, turn_tables};
use crate::tensor::{
    in_bounds, ix3, ix4, last_axis, lemma_offset_in_volume, TensorView,
};

verus! {

/// Whether an index is at position `pos` of sequence `batch`.
pub open spec fn is_at(idx: Seq<int>, batch: int, pos: int) -> bool {
    idx[0] == batch && idx[1] == pos
}

/// `a` and `b` hold the same but at position `pos` of sequence `batch`.
pub open spec fn agree_off(a: TensorView, b: TensorView, batch: int, pos: int) -> bool {
    &&& a.dims == b.dims
    &&& forall|idx: Seq<int>|
        in_bounds(a.dims, idx) && !is_at(idx, batch, pos) ==> #[trigger] a.at(idx) == b.at(idx)
}

/// `a` with what `b` holds at position `pos` of sequence `batch`.
pub open spec fn spliced(a: TensorView, b: TensorView, batch: int, pos: int) -> TensorView {
    tabulated(
        a.dims,
        |idx: Seq<int>|
            if is_at(idx, batch, pos) {
                b.at(idx)
            } else {
                a.at(idx)
            },
    )
}

/// The elements of a spliced tensor.
pub proof fn lemma_spliced(a: TensorView, b: TensorView, batch: int, pos: int)
    requires
        a.wf(),
    ensures
        spliced(a, b, batch, pos).wf(),
        spliced(a, b, batch, pos).dims == a.dims,
        forall|idx: Seq<int>|
            in_bounds(a.dims, idx) ==> #[trigger] spliced(a, b, batch, pos).at(idx) == if is_at(
                idx,
                batch,
                pos,
            ) {
                b.at(idx)
            } else {
                a.at(idx)
            },
{
    let p = spliced(a, b, batch, pos);
    assert forall|idx: Seq<int>| in_bounds(a.dims, idx) implies #[trigger] p.at(idx) == if is_at(
        idx,
        batch,
        pos,
    ) {
        b.at(idx)
    } else {
        a.at(idx)
    } by {
        lemma_offset_in_volume(a.dims, idx);
        lemma_index_at_offset(a.dims, idx);
    }
}

/// The rows of a spliced tensor.
proof fn lemma_spliced_row(a: TensorView, b: TensorView, batch: int, pos: int, prefix: Seq<int>)
    requires
        a.wf(),
        a.dims.len() >= 3,
        b.dims == a.dims,
        prefix.len() == a.dims.len() - 1,
        forall|i: int| 0 <= i < prefix.len() ==> 0 <= #[trigger] prefix[i] < a.dims[i],
    ensures
        last_axis(spliced(a, b, batch, pos), prefix) == if is_at(prefix, batch, pos) {
            last_axis(b, prefix)
        } else {
            last_axis(a, prefix)
        },
{
    lemma_spliced(a, b, batch, pos);
    let p = spliced(a, b, batch, pos);
    let want = if is_at(prefix, batch, pos) {
        last_axis(b, prefix)
    } else {
        last_axis(a, prefix)
    };
    assert forall|i: int| 0 <= i < a.dims.last() implies #[trigger] last_axis(p, prefix)[i]
        == want[i] by {
        let idx = prefix.push(i);
        assert(in_bounds(a.dims, idx)) by {
            assert forall|k: int| 0 <= k < a.dims.len() implies 0 <= #[trigger] idx[k]
                < a.dims[k] by {
                if k < prefix.len() {
                    assert(idx[k] == prefix[k]);
                }
            }
        }
    }
    assert(last_axis(p, prefix) =~= want);
}

/// Tensors that agree but at one position have the same rows elsewhere.
proof fn lemma_agreeing_row(a: TensorView, b: TensorView, batch: int, pos: int, prefix: Seq<int>)
    requires
        agree_off(a, b, batch, pos),
        a.dims.len() >= 3,
        prefix.len() == a.dims.len() - 1,
        forall|i: int| 0 <= i < prefix.len() ==> 0 <= #[trigger] prefix[i] < a.dims[i],
        !is_at(prefix, batch, pos),
    ensures
        last_axis(a, prefix) == last_axis(b, prefix),
{
    assert forall|i: int| 0 <= i < a.dims.last() implies #[trigger] last_axis(a, prefix)[i]
        == last_axis(b, prefix)[i] by {
        let idx = prefix.push(i);
        assert(in_bounds(a.dims, idx)) by {
            assert forall|k: int| 0 <= k < a.dims.len() implies 0 <= #[trigger] idx[k]
                < a.dims[k] by {
                if k < prefix.len() {
                    assert(idx[k] == prefix[k]);
                }
            }
        }
        assert(a.at(idx) == b.at(idx));
    }
    assert(last_axis(a, prefix) =~= last_axis(b, prefix));
}

proof fn lemma_spliced_heads(
    weight: TensorView,
    x1: TensorView,
    x2: TensorView,
    heads: nat,
    head_dim: nat,
    r1: TensorView,
    r2: TensorView,
    batch: int,
    pos: int,
)
    requires
        x1.wf(),
        x1.dims.len() == 3,
        agree_off(x1, x2, batch, pos),
        projected_heads(weight, x1, heads, head_dim, r1),
        projected_heads(weight, x2, heads, head_dim, r2),
    ensures
        projected_heads(weight, x2, heads, head_dim, spliced(r1, r2, batch, pos)),
{
    lemma_spliced(r1, r2, batch, pos);
    let r = spliced(r1, r2, batch, pos);
    assert forall|idx: Seq<int>| in_bounds(r.dims, idx) implies dot_outcome(
        last_axis(x2, seq![idx[0], idx[1]]),
        column_of(weight, idx[2] * head_dim + idx[3]),
        #[trigger] r.at(idx),
    ) by {
        let prefix = seq![idx[0], idx[1]];
        assert(0 <= idx[0] < r.dims[0] && 0 <= idx[1] < r.dims[1]);
        if is_at(idx, batch, pos) {
            assert(r.at(idx) == r2.at(idx));
        } else {
            lemma_agreeing_row(x1, x2, batch, pos, prefix);
            assert(r.at(idx) == r1.at(idx));
        }
    }
}

proof fn lemma_spliced_normalized(
    gamma: TensorView,
    epsilon: Double,
    x1: TensorView,
    x2: TensorView,
    r1: TensorView,
    r2: TensorView,
    batch: int,
    pos: int,
)
    requires
        x1.wf(),
        x1.dims.len() >= 3,
        x2.dims == x1.dims,
        normalized(gamma, epsilon, x1, r1),
        normalized(gamma, epsilon, x2, r2),
    ensures
        normalized(gamma, epsilon, spliced(x1, x2, batch, pos), spliced(r1, r2, batch, pos)),
{
    lemma_spliced(x1, x2, batch, pos);
    lemma_spliced(r1, r2, batch, pos);
    let (x, r) = (spliced(x1, x2, batch, pos), spliced(r1, r2, batch, pos));
    assert forall|idx: Seq<int>| in_bounds(r.dims, idx) implies rms_norm_outcome(
        last_axis(x, idx.drop_last()),
        epsilon.bits,
        gamma.data[idx.last()],
        idx.last(),
        #[trigger] r.at(idx),
    ) by {
        let prefix = idx.drop_last();
        assert forall|i: int| 0 <= i < prefix.len() implies 0 <= #[trigger] prefix[i]
            < x1.dims[i] by {
            assert(0 <= idx[i] < r.dims[i]);
        }
        lemma_spliced_row(x1, x2, batch, pos, prefix);
        if is_at(idx, batch, pos) {
            assert(r.at(idx) == r2.at(idx));
        } else {
            assert(r.at(idx) == r1.at(idx));
        }
    }
}

proof fn lemma_spliced_tables(
    positions: Seq<Seq<i64>>,
    head_dim: nat,
    theta: Double,
    t1: HeadsTrace,
    t2: HeadsTrace,
    batch: int,
    pos: int,
)
    requires
        turn_tables(positions, head_dim, theta, t1.cos, t1.sin),
        turn_tables(positions, head_dim, theta, t2.cos, t2.sin),
    ensures
        turn_tables(
            positions,
            head_dim,
            theta,
            spliced(t1.cos, t2.cos, batch, pos),
            spliced(t1.sin, t2.sin, batch, pos),
        ),
{
    lemma_spliced(t1.cos, t2.cos, batch, pos);
    lemma_spliced(t1.sin, t2.sin, batch, pos);
    let (cos, sin) = (spliced(t1.cos, t2.cos, batch, pos), spliced(t1.sin, t2.sin, batch, pos));
    assert forall|idx: Seq<int>| in_bounds(cos.dims, idx) implies entry_outcome(
        theta,
        head_dim,
        idx[3],
        positions[idx[0]][idx[1]],
        #[trigger] cos.at(idx),
        sin.at(idx),
    ) by {
        assert(in_bounds(t1.sin.dims, idx));
        if is_at(idx, batch, pos) {
            assert(cos.at(idx) == t2.cos.at(idx) && sin.at(idx) == t2.sin.at(idx));
        } else {
            assert(cos.at(idx) == t1.cos.at(idx) && sin.at(idx) == t1.sin.at(idx));
        }
    }
}

proof fn lemma_spliced_rotated(
    x1: TensorView,
    x2: TensorView,
    t1: HeadsTrace,
    t2: HeadsTrace,
    r1: TensorView,
    r2: TensorView,
    batch: int,
    pos: int,
)
    requires
        x1.wf(),
        x1.dims.len() == 4,
        x1.dims[3] % 2 == 0,
        x2.dims == x1.dims,
        t1.cos.wf(),
        t1.sin.wf(),
        t1.cos.dims == seq![x1.dims[0], x1.dims[1], 1, x1.dims[3] / 2],
        t1.sin.dims == t1.cos.dims,
        t2.cos.dims == t1.cos.dims,
        t2.sin.dims == t1.cos.dims,
        rotated(x1, t1.cos, t1.sin, r1),
        rotated(x2, t2.cos, t2.sin, r2),
    ensures
        rotated(
            spliced(x1, x2, batch, pos),
            spliced(t1.cos, t2.cos, batch, pos),
            spliced(t1.sin, t2.sin, batch, pos),
            spliced(r1, r2, batch, pos),
        ),
{
    lemma_spliced(x1, x2, batch, pos);
    lemma_spliced(r1, r2, batch, pos);
    lemma_spliced(t1.cos, t2.cos, batch, pos);
    lemma_spliced(t1.sin, t2.sin, batch, pos);
    let (cos, sin) = (spliced(t1.cos, t2.cos, batch, pos), spliced(t1.sin, t2.sin, batch, pos));
    let (x, r) = (spliced(x1, x2, batch, pos), spliced(r1, r2, batch, pos));
    let half = (x1.dims[3] / 2) as int;
    assert forall|idx: Seq<int>| in_bounds(r.dims, idx) && idx[3] < half implies first_turned(
        x.at(idx),
        x.at(ix4(idx[0], idx[1], idx[2], idx[3] + half)),
        cos.at(ix4(idx[0], idx[1], 0, idx[3])),
        sin.at(ix4(idx[0], idx[1], 0, idx[3])),
        #[trigger] r.at(idx),
    ) by {
        let other = ix4(idx[0], idx[1], idx[2], idx[3] + half);
        assert(0 <= idx[0] < r.dims[0] && 0 <= idx[1] < r.dims[1] && 0 <= idx[2] < r.dims[2] && 0
            <= idx[3] < r.dims[3]);
        assert(in_bounds(t1.cos.dims, ix4(idx[0], idx[1], 0, idx[3])));
        assert(in_bounds(x1.dims, other));
        if is_at(idx, batch, pos) {
            assert(r.at(idx) == r2.at(idx));
        } else {
            assert(r.at(idx) == r1.at(idx));
        }
    }
    assert forall|idx: Seq<int>| in_bounds(r.dims, idx) && idx[3] >= half implies second_turned(
        x.at(ix4(idx[0], idx[1], idx[2], idx[3] - half)),
        x.at(idx),
        cos.at(ix4(idx[0], idx[1], 0, idx[3] - half)),
        sin.at(ix4(idx[0], idx[1], 0, idx[3] - half)),
        #[trigger] r.at(idx),
    ) by {
        let other = ix4(idx[0], idx[1], idx[2], idx[3] - half);
        assert(0 <= idx[0] < r.dims[0] && 0 <= idx[1] < r.dims[1] && 0 <= idx[2] < r.dims[2] && 0
            <= idx[3] < r.dims[3]);
        assert(in_bounds(t1.cos.dims, ix4(idx[0], idx[1], 0, idx[3] - half)));
        assert(in_bounds(x1.dims, other));
        if is_at(idx, batch, pos) {
            assert(r.at(idx) == r2.at(idx));
        } else {
            assert(r.at(idx) == r1.at(idx));
        }
    }
}

proof fn lemma_spliced_projected(
    weight: TensorView,
    x1: TensorView,
    x2: TensorView,
    r1: TensorView,
    r2: TensorView,
    batch: int,
    pos: int,
)
    requires
        x1.wf(),
        x1.dims.len() == 3,
        x2.dims == x1.dims,
        projected(weight, x1, r1),
        projected(weight, x2, r2),
    ensures
        projected(weight, spliced(x1, x2, batch, pos), spliced(r1, r2, batch, pos)),
{
    lemma_spliced(x1, x2, batch, pos);
    lemma_spliced(r1, r2, batch, pos);
    let (x, r) = (spliced(x1, x2, batch, pos), spliced(r1, r2, batch, pos));
    assert forall|idx: Seq<int>| in_bounds(r.dims, idx) implies dot_outcome(
        last_axis(x, idx.drop_last()),
        column_of(weight, idx.last()),
        #[trigger] r.at(idx),
    ) by {
        let prefix = idx.drop_last();
        assert forall|i: int| 0 <= i < prefix.len() implies 0 <= #[trigger] prefix[i]
            < x1.dims[i] by {
            assert(0 <= idx[i] < r.dims[i]);
        }
        lemma_spliced_row(x1, x2, batch, pos, prefix);
        if is_at(idx, batch, pos) {
            assert(r.at(idx) == r2.at(idx));
        } else {
            assert(r.at(idx) == r1.at(idx));
        }
    }
}

/// The steps from hidden states to queries and keys, spliced.
pub open spec fn spliced_steps(a: HeadsTrace, b: HeadsTrace, batch: int, pos: int) -> HeadsTrace {
    HeadsTrace {
        q: spliced(a.q, b.q, batch, pos),
        k: spliced(a.k, b.k, batch, pos),
        q_normed: spliced(a.q_normed, b.q_normed, batch, pos),
        k_normed: spliced(a.k_normed, b.k_normed, batch, pos),
        cos: spliced(a.cos, b.cos, batch, pos),
        sin: spliced(a.sin, b.sin, batch, pos),
    }
}

/// The queries, keys and values of a position depend on its hidden state alone: where `x2` differs
/// from `x1` at one position only, the queries, keys and values of `x1` are possible ones of `x2`
/// at all other positions.
pub proof fn lemma_heads_are_local(
    attn: Qwen3Attention,
    x1: TensorView,
    x2: TensorView,
    positions: Seq<Seq<i64>>,
    t1: HeadsTrace,
    q1: TensorView,
    k1: TensorView,
    v1: TensorView,
    t2: HeadsTrace,
    q2: TensorView,
    k2: TensorView,
    v2: TensorView,
    batch: int,
    pos: int,
)
    requires
        attn.wf(),
        x1.wf(),
        x1.dims.len() == 3,
        agree_off(x1, x2, batch, pos),
        is_int_table(positions, x1.dims[0], x1.dims[1]),
        attn.heads_with(x1, positions, t1, q1, k1, v1),
        attn.heads_with(x2, positions, t2, q2, k2, v2),
    ensures
        attn.heads_with(
            x2,
            positions,
            spliced_steps(t1, t2, batch, pos),
            spliced(q1, q2, batch, pos),
            spliced(k1, k2, batch, pos),
            spliced(v1, v2, batch, pos),
        ),
{
    let heads = attn.num_heads as nat;
    let kv_heads = attn.num_kv_heads as nat;
    let e = attn.head_dim as nat;
    lemma_spliced_heads(attn.q_proj.weight@, x1, x2, heads, e, t1.q, t2.q, batch, pos);
    lemma_spliced_heads(attn.k_proj.weight@, x1, x2, kv_heads, e, t1.k, t2.k, batch, pos);
    lemma_spliced_heads(attn.v_proj.weight@, x1, x2, kv_heads, e, v1, v2, batch, pos);
    let (qn, kn) = (attn.q_norm, attn.k_norm);
    lemma_spliced_normalized(
        qn.gamma@,
        qn.epsilon,
        t1.q,
        t2.q,
        t1.q_normed,
        t2.q_normed,
        batch,
        pos,
    );
    lemma_spliced_normalized(
        kn.gamma@,
        kn.epsilon,
        t1.k,
        t2.k,
        t1.k_normed,
        t2.k_normed,
        batch,
        pos,
    );
    lemma_spliced_tables(positions, e, attn.rope_theta, t1, t2, batch, pos);
    lemma_spliced_rotated(t1.q_normed, t2.q_normed, t1, t2, q1, q2, batch, pos);
    lemma_spliced_rotated(t1.k_normed, t2.k_normed, t1, t2, k1, k2, batch, pos);
}

/// The vectors of a head in a spliced tensor.
proof fn lemma_spliced_rows(
    a: TensorView,
    b: TensorView,
    batch: int,
    pos: int,
    i: int,
    head: int,
    d: int,
)
    requires
        a.wf(),
        a.dims.len() == 4,
        b.dims == a.dims,
        0 <= i < a.dims[0],
        0 <= head < a.dims[2],
        0 <= d < a.dims[3],
    ensures
        ({
            let p = spliced(a, b, batch, pos);
            &&& cached_rows(p, i, head).len() == a.dims[1]
            &&& cached_column(p, i, head, d).len() == a.dims[1]
            &&& forall|j: int|
                0 <= j < a.dims[1] && (i != batch || j != pos) ==> #[trigger] cached_rows(
                    p,
                    i,
                    head,
                )[j] == cached_rows(a, i, head)[j]
            &&& forall|j: int|
                0 <= j < a.dims[1] && (i != batch || j != pos) ==> #[trigger] cached_column(
                    p,
                    i,
                    head,
                    d,
                )[j] == cached_column(a, i, head, d)[j]
            &&& forall|j: int|
                0 <= j < a.dims[1] && i == batch && j == pos ==> #[trigger] cached_column(
                    p,
                    i,
                    head,
                    d,
                )[j] == cached_column(b, i, head, d)[j]
        }),
{
    lemma_spliced(a, b, batch, pos);
    let p = spliced(a, b, batch, pos);
    assert forall|j: int| 0 <= j < a.dims[1] && (i != batch || j != pos) implies
        #[trigger] cached_rows(p, i, head)[j] == cached_rows(a, i, head)[j] by {
        lemma_spliced_row(a, b, batch, pos, ix3(i, j, head));
    }
    assert forall|j: int| 0 <= j < a.dims[1] implies #[trigger] cached_column(p, i, head, d)[j]
        == if i == batch && j == pos {
        cached_column(b, i, head, d)[j]
    } else {
        cached_column(a, i, head, d)[j]
    } by {
        assert(in_bounds(a.dims, ix4(i, j, head, d)));
    }
}

/// The values of a head are finite if all are.
proof fn lemma_column_is_finite(v: TensorView, i: int, head: int, d: int)
    requires
        v.wf(),
        v.dims.len() == 4,
        all_finite(v),
        0 <= i < v.dims[0],
        0 <= head < v.dims[2],
        0 <= d < v.dims[3],
    ensures
        forall|j: int|
            0 <= j < v.dims[1] ==> is_finite(#[trigger] cached_column(v, i, head, d)[j]),
{
    assert forall|j: int| 0 <= j < v.dims[1] implies is_finite(
        #[trigger] cached_column(v, i, head, d)[j],
    ) by {
        assert(in_bounds(v.dims, ix4(i, j, head, d)));
        lemma_offset_in_volume(v.dims, ix4(i, j, head, d));
    }
}

/// Attention gives at all other positions what it gave before the padded position changed.
proof fn lemma_spliced_attention(
    q1: TensorView,
    k1: TensorView,
    v1: TensorView,
    q2: TensorView,
    k2: TensorView,
    v2: TensorView,
    group: nat,
    valid: Seq<Seq<bool>>,
    m1: TensorView,
    m2: TensorView,
    batch: int,
    pos: int,
)
    requires
        q1.wf(),
        k1.wf(),
        v1.wf(),
        v2.wf(),
        q1.dims.len() == 4,
        group > 0,
        k1.dims.len() == 4,
        q1.dims == seq![k1.dims[0], k1.dims[1], k1.dims[2] * group, k1.dims[3]],
        v1.dims == k1.dims,
        q2.dims == q1.dims,
        k2.dims == k1.dims,
        v2.dims == k1.dims,
        all_finite(v1),
        all_finite(v2),
        is_table(valid, q1.dims[0], q1.dims[1]),
        0 <= batch < q1.dims[0],
        0 <= pos < q1.dims[1],
        !valid[batch][pos],
        grouped_attention(
            q1,
            k1,
            v1,
            group,
            Some(prefill_mask(Some(valid), q1.dims[1], q1.dims[1])),
            m1,
        ),
        grouped_attention(
            spliced(q1, q2, batch, pos),
            spliced(k1, k2, batch, pos),
            spliced(v1, v2, batch, pos),
            group,
            Some(prefill_mask(Some(valid), q1.dims[1], q1.dims[1])),
            m2,
        ),
    ensures
        grouped_attention(
            spliced(q1, q2, batch, pos),
            spliced(k1, k2, batch, pos),
            spliced(v1, v2, batch, pos),
            group,
            Some(prefill_mask(Some(valid), q1.dims[1], q1.dims[1])),
            spliced(m1, m2, batch, pos),
        ),
        m1.dims == m2.dims,
{
    lemma_spliced(q1, q2, batch, pos);
    lemma_spliced(k1, k2, batch, pos);
    lemma_spliced(v1, v2, batch, pos);
    lemma_spliced(m1, m2, batch, pos);
    let (q, k, v) = (
        spliced(q1, q2, batch, pos),
        spliced(k1, k2, batch, pos),
        spliced(v1, v2, batch, pos),
    );
    let m = spliced(m1, m2, batch, pos);
    let s = q1.dims[1];
    let e = q1.dims[3] as int;
    let g = group as int;
    let mask = Some(prefill_mask(Some(valid), s, s));
    assert forall|idx: Seq<int>| in_bounds(m.dims, idx) implies masked_outcome(
        last_axis(q, ix3(idx[0], idx[1], idx[2] / e)),
        cached_rows(k, idx[0], (idx[2] / e) / g),
        cached_column(v, idx[0], (idx[2] / e) / g, idx[2] % e),
        hidden_keys(mask, idx[0], idx[1], k.dims[1]),
        #[trigger] m.at(idx),
    ) by {
        if is_at(idx, batch, pos) {
            assert(m.at(idx) == m2.at(idx));
        } else {
            assert(m.at(idx) == m1.at(idx));
            assert(0 <= idx[0] < m.dims[0] && 0 <= idx[1] < m.dims[1] && 0 <= idx[2] < m.dims[2]);
            let h = idx[2] / e;
            let d = idx[2] % e;
            let kv = h / g;
            assert(0 <= h < q1.dims[2] && 0 <= d < e) by (nonlinear_arith)
                requires
                    0 <= idx[2] < q1.dims[2] * e,
                    e > 0,
                    h == idx[2] / e,
                    d == idx[2] % e,
            ;
            assert(0 <= kv < k1.dims[2]) by (nonlinear_arith)
                requires
                    0 <= h < k1.dims[2] * g,
                    g > 0,
                    kv == h / g,
            ;
            lemma_spliced_row(q1, q2, batch, pos, ix3(idx[0], idx[1], h));
            lemma_spliced_rows(k1, k2, batch, pos, idx[0], kv, d);
            lemma_spliced_rows(v1, v2, batch, pos, idx[0], kv, d);
            lemma_hidden_keys(Some(valid), q1.dims[0], s, s, idx[0], idx[1]);
            let hidden = hidden_from(Some(valid), idx[0], idx[1], s);
            assert(idx[0] == batch ==> hidden[pos]);
            let (rows1, rows) = (cached_rows(k1, idx[0], kv), cached_rows(k, idx[0], kv));
            let (column1, column) = (
                cached_column(v1, idx[0], kv, d),
                cached_column(v, idx[0], kv, d),
            );
            lemma_seen_agrees(rows1, rows, hidden, hidden);
            lemma_seen_agrees(column1, column, hidden, hidden);
            lemma_column_is_finite(v1, idx[0], kv, d);
            lemma_column_is_finite(v2, idx[0], kv, d);
            assert(hidden_are_finite(column1, hidden));
            assert forall|j: int| 0 <= j < column.len() implies is_finite(
                #[trigger] column[j],
            ) by {
                if idx[0] == batch && j == pos {
                    assert(column[j] == cached_column(v2, idx[0], kv, d)[j]);
                } else {
                    assert(column[j] == column1[j]);
                }
            }
            assert(hidden_are_finite(column, hidden));
        }
    }
}

/// A padded position has no influence on any other position or sequence. Let the hidden states
/// `x2` differ from `x1` at position `pos` of sequence `batch` only, which the mask marks as
/// padding, and let `r1` be what the forward pass on `x1` gave. Then the forward pass on `x2` may
/// give the same at all other positions. It goes by the queries, keys and values of `x1` but for
/// the padded position, where they, and the result, are those of `x2`. The value vectors must be
/// finite.
pub proof fn lemma_padding_has_no_influence(
    attn: Qwen3Attention,
    x1: TensorView,
    x2: TensorView,
    valid: Seq<Seq<bool>>,
    positions: Seq<Seq<i64>>,
    t1: HeadsTrace,
    q1: TensorView,
    k1: TensorView,
    v1: TensorView,
    r1: TensorView,
    t2: HeadsTrace,
    q2: TensorView,
    k2: TensorView,
    v2: TensorView,
    r2: TensorView,
    batch: int,
    pos: int,
)
    requires
        attn.wf(),
        x1.wf(),
        x1.dims.len() == 3,
        is_table(valid, x1.dims[0], x1.dims[1]),
        agree_off(x1, x2, batch, pos),
        0 <= batch < x1.dims[0],
        0 <= pos < x1.dims[1],
        !valid[batch][pos],
        is_int_table(positions, x1.dims[0], x1.dims[1]),
        attn.heads_with(x1, positions, t1, q1, k1, v1),
        attn.heads_with(x2, positions, t2, q2, k2, v2),
        all_finite(v1),
        all_finite(v2),
        attn.forward_with(x1, Some(valid), positions, q1, k1, v1, r1),
        attn.mix_outcome(
            spliced(q1, q2, batch, pos),
            spliced(k1, k2, batch, pos),
            spliced(v1, v2, batch, pos),
            Some(prefill_mask(Some(valid), x1.dims[1], x1.dims[1])),
            r2,
        ),
    ensures
        attn.forward_with(
            x2,
            Some(valid),
            positions,
            spliced(q1, q2, batch, pos),
            spliced(k1, k2, batch, pos),
            spliced(v1, v2, batch, pos),
            spliced(r1, r2, batch, pos),
        ),
        agree_off(r1, spliced(r1, r2, batch, pos), batch, pos),
{
    let s = x1.dims[1];
    let mask = Some(prefill_mask(Some(valid), s, s));
    let (q, k, v) = (
        spliced(q1, q2, batch, pos),
        spliced(k1, k2, batch, pos),
        spliced(v1, v2, batch, pos),
    );
    let w = attn.o_proj.weight@;
    lemma_heads_shapes(attn, x1, positions, q1, k1, v1);
    lemma_heads_shapes(attn, x2, positions, q2, k2, v2);
    lemma_heads_are_local(
        attn,
        x1,
        x2,
        positions,
        t1,
        q1,
        k1,
        v1,
        t2,
        q2,
        k2,
        v2,
        batch,
        pos,
    );
    lemma_group(attn);
    let m1 = choose|m: TensorView|
        {
            &&& #[trigger] grouped_attention(q1, k1, v1, attn.group(), mask, m)
            &&& projected(w, m, r1)
        };
    let m2 = choose|m: TensorView|
        {
            &&& #[trigger] grouped_attention(q, k, v, attn.group(), mask, m)
            &&& projected(w, m, r2)
        };
    lemma_spliced_attention(
        q1,
        k1,
        v1,
        q2,
        k2,
        v2,
        attn.group(),
        valid,
        m1,
        m2,
        batch,
        pos,
    );
    lemma_spliced_projected(w, m1, m2, r1, r2, batch, pos);
    lemma_spliced(r1, r2, batch, pos);
    assert(attn.mix_outcome(q, k, v, mask, spliced(r1, r2, batch, pos)));
}

} // verus!
