//! What the cache is for: computing position by position, or in portions, gives what a forward pass
//! over all positions gives.
//!
//! The results of the arithmetic are known up to rounding, so the laws speak of possible results:
//! what a forward pass over a sequence may give at some positions is what a forward pass over
//! those positions alone, or a step with a cache, may give there.
use vstd::prelude::*;

use crate::attention::{
    cached_column, cached_rows, grouped_attention, projected_heads, HeadsTrace, Qwen3Attention,
};
use crate::cache::{empty_caches, KVCacheView};
use crate::causal_lm::{
    appended, are_next, first_tokens, last_logits, lemma_next_from_last, lemma_next_in_vocabulary,
    step_input, step_start, tokens_at, Qwen3ForCausalLM,
};
use crate::decoder::{gated, LayerTrace, Qwen3DecoderLayer};
use crate::mask::{cached_mask, padding_fits, prefill_mask};
use crate::model::{are_tokens, positions_from, Qwen3Model};
use crate::nn::{
    column_of, dot_outcome, hidden_are_finite, hidden_keys, is_finite, is_int_table, looked_up,
    masked_outcome, normalized, projected, rms_norm_outcome, seen,
};
use crate::num::{Double, Single};
use crate::rope::{entry_outcome, first_turned, rotated, second_turned, turn_tables};
use crate::tensor::{
    concatenated, in_bounds, ix3, ix4, last_axis, lemma_offset_in_volume, lemma_same_elements,
    offset, source_index, sums, volume, TensorView,
};

verus! {

/// The index of the element at a place in row-major order.
pub open spec fn index_at(dims: Seq<nat>, place: int) -> Seq<int>
    decreases dims.len(),
{
    if dims.len() == 0 {
        seq![]
    } else {
        index_at(dims.drop_last(), place / (dims.last() as int)).push(
            place % (dims.last() as int),
        )
    }
}

/// The tensor with the given axes whose element at every index is `f` of the index.
pub open spec fn tabulated(dims: Seq<nat>, f: spec_fn(Seq<int>) -> u32) -> TensorView {
    TensorView { dims, data: Seq::new(volume(dims), |place: int| f(index_at(dims, place))) }
}

/// The positions from `lo` up to `hi` of a tensor whose second axis is the sequence.
pub open spec fn part(t: TensorView, lo: int, hi: int) -> TensorView {
    tabulated(
        t.dims.update(1, (hi - lo) as nat),
        |idx: Seq<int>| t.at(idx.update(1, idx[1] + lo)),
    )
}

/// The entries from `lo` up to `hi` of every row.
pub open spec fn part_of_rows(rows: Seq<Seq<i64>>, lo: int, hi: int) -> Seq<Seq<i64>> {
    rows.map_values(|row: Seq<i64>| row.subrange(lo, hi))
}

/// The element at a place in row-major order has the index that leads to the place.
pub(crate) proof fn lemma_index_at_offset(dims: Seq<nat>, idx: Seq<int>)
    requires
        in_bounds(dims, idx),
    ensures
        index_at(dims, offset(dims, idx)) == idx,
    decreases dims.len(),
{
    if dims.len() == 0 {
        assert(idx =~= seq![]);
    } else {
        let d = dims.drop_last();
        let i = idx.drop_last();
        let n = dims.last() as int;
        assert(0 <= idx[idx.len() - 1] < dims[dims.len() - 1]);
        assert(in_bounds(d, i)) by {
            assert forall|k: int| 0 <= k < d.len() implies 0 <= #[trigger] i[k] < d[k] by {
                assert(idx[k] == i[k]);
            }
        }
        lemma_index_at_offset(d, i);
        let place = offset(dims, idx);
        assert(place == offset(d, i) * n + idx.last());
        vstd::arithmetic::div_mod::lemma_fundamental_div_mod_converse(
            place,
            n,
            offset(d, i),
            idx.last(),
        );
        assert(i.push(idx.last()) =~= idx);
    }
}

/// The elements of a part are those of the whole, moved along the sequence.
pub proof fn lemma_part(t: TensorView, lo: int, hi: int)
    requires
        t.wf(),
        t.dims.len() >= 2,
        0 <= lo < hi <= t.dims[1],
    ensures
        part(t, lo, hi).wf(),
        part(t, lo, hi).dims == t.dims.update(1, (hi - lo) as nat),
        forall|idx: Seq<int>|
            in_bounds(part(t, lo, hi).dims, idx) ==> #[trigger] part(t, lo, hi).at(idx) == t.at(
                idx.update(1, idx[1] + lo),
            ),
{
    let p = part(t, lo, hi);
    assert forall|i: int| 0 <= i < p.dims.len() implies 0 < #[trigger] p.dims[i] <= usize::MAX by {
        assert(0 < t.dims[i] <= usize::MAX);
    }
    assert forall|idx: Seq<int>| in_bounds(p.dims, idx) implies #[trigger] p.at(idx) == t.at(
        idx.update(1, idx[1] + lo),
    ) by {
        lemma_offset_in_volume(p.dims, idx);
        lemma_index_at_offset(p.dims, idx);
    }
}

/// The rows of a part are those of the whole.
proof fn lemma_part_row(t: TensorView, lo: int, hi: int, prefix: Seq<int>)
    requires
        t.wf(),
        t.dims.len() >= 3,
        0 <= lo < hi <= t.dims[1],
        prefix.len() == t.dims.len() - 1,
        forall|i: int|
            0 <= i < prefix.len() ==> 0 <= #[trigger] prefix[i] < part(t, lo, hi).dims[i],
    ensures
        last_axis(part(t, lo, hi), prefix) == last_axis(t, prefix.update(1, prefix[1] + lo)),
{
    lemma_part(t, lo, hi);
    let p = part(t, lo, hi);
    let there = prefix.update(1, prefix[1] + lo);
    assert forall|i: int| 0 <= i < t.dims.last() implies #[trigger] last_axis(p, prefix)[i]
        == last_axis(t, there)[i] by {
        let idx = prefix.push(i);
        assert(in_bounds(p.dims, idx)) by {
            assert forall|k: int| 0 <= k < p.dims.len() implies 0 <= #[trigger] idx[k]
                < p.dims[k] by {
                if k < prefix.len() {
                    assert(idx[k] == prefix[k]);
                }
            }
        }
        assert(idx.update(1, idx[1] + lo) =~= there.push(i));
    }
    assert(last_axis(p, prefix) =~= last_axis(t, there));
}

/// An index of a part, moved along the sequence, is one of the whole.
proof fn lemma_moved_in_bounds(dims: Seq<nat>, lo: int, hi: int, idx: Seq<int>)
    requires
        dims.len() >= 2,
        0 <= lo < hi <= dims[1],
        in_bounds(dims.update(1, (hi - lo) as nat), idx),
    ensures
        in_bounds(dims, idx.update(1, idx[1] + lo)),
{
    let moved = idx.update(1, idx[1] + lo);
    let p = dims.update(1, (hi - lo) as nat);
    assert forall|k: int| 0 <= k < dims.len() implies 0 <= #[trigger] moved[k] < dims[k] by {
        assert(0 <= idx[k] < p[k]);
    }
}

proof fn lemma_part_projected(weight: TensorView, x: TensorView, r: TensorView, lo: int, hi: int)
    requires
        x.wf(),
        x.dims.len() == 3,
        projected(weight, x, r),
        0 <= lo < hi <= x.dims[1],
    ensures
        projected(weight, part(x, lo, hi), part(r, lo, hi)),
{
    lemma_part(x, lo, hi);
    lemma_part(r, lo, hi);
    let (px, pr) = (part(x, lo, hi), part(r, lo, hi));
    assert(pr.dims =~= px.dims.update(2, weight.dims[1]));
    assert forall|idx: Seq<int>| in_bounds(pr.dims, idx) implies dot_outcome(
        last_axis(px, idx.drop_last()),
        column_of(weight, idx.last()),
        #[trigger] pr.at(idx),
    ) by {
        let moved = idx.update(1, idx[1] + lo);
        lemma_moved_in_bounds(r.dims, lo, hi, idx);
        let prefix = idx.drop_last();
        assert forall|i: int| 0 <= i < prefix.len() implies 0 <= #[trigger] prefix[i]
            < px.dims[i] by {
            assert(0 <= idx[i] < pr.dims[i]);
        }
        lemma_part_row(x, lo, hi, prefix);
        assert(moved.drop_last() =~= prefix.update(1, prefix[1] + lo));
        assert(pr.at(idx) == r.at(moved));
    }
}

proof fn lemma_part_normalized(
    gamma: TensorView,
    epsilon: Double,
    x: TensorView,
    r: TensorView,
    lo: int,
    hi: int,
)
    requires
        x.wf(),
        x.dims.len() >= 3,
        normalized(gamma, epsilon, x, r),
        0 <= lo < hi <= x.dims[1],
    ensures
        normalized(gamma, epsilon, part(x, lo, hi), part(r, lo, hi)),
{
    lemma_part(x, lo, hi);
    lemma_part(r, lo, hi);
    let (px, pr) = (part(x, lo, hi), part(r, lo, hi));
    assert forall|idx: Seq<int>| in_bounds(pr.dims, idx) implies rms_norm_outcome(
        last_axis(px, idx.drop_last()),
        epsilon.bits,
        gamma.data[idx.last()],
        idx.last(),
        #[trigger] pr.at(idx),
    ) by {
        let moved = idx.update(1, idx[1] + lo);
        lemma_moved_in_bounds(r.dims, lo, hi, idx);
        let prefix = idx.drop_last();
        assert forall|i: int| 0 <= i < prefix.len() implies 0 <= #[trigger] prefix[i]
            < px.dims[i] by {
            assert(0 <= idx[i] < pr.dims[i]);
        }
        lemma_part_row(x, lo, hi, prefix);
        assert(moved.drop_last() =~= prefix.update(1, prefix[1] + lo));
        assert(pr.at(idx) == r.at(moved));
        assert(moved.last() == idx.last());
    }
}

proof fn lemma_part_heads(
    weight: TensorView,
    x: TensorView,
    heads: nat,
    head_dim: nat,
    r: TensorView,
    lo: int,
    hi: int,
)
    requires
        x.wf(),
        x.dims.len() == 3,
        projected_heads(weight, x, heads, head_dim, r),
        0 <= lo < hi <= x.dims[1],
    ensures
        projected_heads(weight, part(x, lo, hi), heads, head_dim, part(r, lo, hi)),
{
    lemma_part(x, lo, hi);
    lemma_part(r, lo, hi);
    let (px, pr) = (part(x, lo, hi), part(r, lo, hi));
    assert(pr.dims =~= seq![px.dims[0], px.dims[1], heads, head_dim]);
    assert forall|idx: Seq<int>| in_bounds(pr.dims, idx) implies dot_outcome(
        last_axis(px, seq![idx[0], idx[1]]),
        column_of(weight, idx[2] * head_dim + idx[3]),
        #[trigger] pr.at(idx),
    ) by {
        let moved = idx.update(1, idx[1] + lo);
        lemma_moved_in_bounds(r.dims, lo, hi, idx);
        let prefix = seq![idx[0], idx[1]];
        assert(0 <= idx[0] < pr.dims[0] && 0 <= idx[1] < pr.dims[1]);
        lemma_part_row(x, lo, hi, prefix);
        assert(prefix.update(1, prefix[1] + lo) =~= seq![moved[0], moved[1]]);
        assert(pr.at(idx) == r.at(moved));
    }
}

proof fn lemma_part_rope(
    positions: Seq<Seq<i64>>,
    head_dim: nat,
    theta: Double,
    cos: TensorView,
    sin: TensorView,
    lo: int,
    hi: int,
)
    requires
        turn_tables(positions, head_dim, theta, cos, sin),
        positions.len() > 0,
        forall|b: int|
            0 <= b < positions.len() ==> (#[trigger] positions[b]).len() == positions[0].len(),
        0 <= lo < hi <= positions[0].len(),
    ensures
        turn_tables(
            part_of_rows(positions, lo, hi),
            head_dim,
            theta,
            part(cos, lo, hi),
            part(sin, lo, hi),
        ),
{
    lemma_part(cos, lo, hi);
    lemma_part(sin, lo, hi);
    let (pc, ps) = (part(cos, lo, hi), part(sin, lo, hi));
    let pp = part_of_rows(positions, lo, hi);
    assert(pc.dims =~= seq![pp.len(), pp[0].len(), 1, head_dim / 2]);
    assert forall|idx: Seq<int>| in_bounds(pc.dims, idx) implies entry_outcome(
        theta,
        head_dim,
        idx[3],
        pp[idx[0]][idx[1]],
        #[trigger] pc.at(idx),
        ps.at(idx),
    ) by {
        let moved = idx.update(1, idx[1] + lo);
        lemma_moved_in_bounds(cos.dims, lo, hi, idx);
        assert(0 <= idx[0] < pc.dims[0] && 0 <= idx[1] < pc.dims[1]);
        assert(pc.at(idx) == cos.at(moved));
        assert(ps.at(idx) == sin.at(moved));
        assert(pp[idx[0]][idx[1]] == positions[moved[0]][moved[1]]);
    }
}

proof fn lemma_part_rotated(
    x: TensorView,
    cos: TensorView,
    sin: TensorView,
    r: TensorView,
    lo: int,
    hi: int,
)
    requires
        x.wf(),
        cos.wf(),
        sin.wf(),
        x.dims.len() == 4,
        x.dims[3] % 2 == 0,
        cos.dims == seq![x.dims[0], x.dims[1], 1, x.dims[3] / 2],
        sin.dims == cos.dims,
        rotated(x, cos, sin, r),
        0 <= lo < hi <= x.dims[1],
    ensures
        rotated(part(x, lo, hi), part(cos, lo, hi), part(sin, lo, hi), part(r, lo, hi)),
{
    lemma_part(x, lo, hi);
    lemma_part(cos, lo, hi);
    lemma_part(sin, lo, hi);
    lemma_part(r, lo, hi);
    let half = (x.dims[3] / 2) as int;
    let (px, pc, ps, pr) = (
        part(x, lo, hi),
        part(cos, lo, hi),
        part(sin, lo, hi),
        part(r, lo, hi),
    );
    assert forall|a: int, b: int, c: int, d: int|
        0 <= a < x.dims[0] && 0 <= b < hi - lo && 0 <= c < x.dims[2] && 0 <= d
            < x.dims[3] implies #[trigger] px.at(ix4(a, b, c, d)) == x.at(ix4(a, b + lo, c, d)) by {
        let idx = ix4(a, b, c, d);
        assert(in_bounds(px.dims, idx));
        assert(idx.update(1, idx[1] + lo) =~= ix4(a, b + lo, c, d));
    }
    assert forall|a: int, b: int, d: int|
        0 <= a < x.dims[0] && 0 <= b < hi - lo && 0 <= d < half implies #[trigger] pc.at(
        ix4(a, b, 0, d),
    ) == cos.at(ix4(a, b + lo, 0, d)) && ps.at(ix4(a, b, 0, d)) == sin.at(
        ix4(a, b + lo, 0, d),
    ) by {
        let idx = ix4(a, b, 0, d);
        assert(in_bounds(pc.dims, idx));
        assert(in_bounds(ps.dims, idx));
        assert(idx.update(1, idx[1] + lo) =~= ix4(a, b + lo, 0, d));
        assert(pc.at(idx) == cos.at(ix4(a, b + lo, 0, d)));
        assert(ps.at(idx) == sin.at(ix4(a, b + lo, 0, d)));
    }
    assert forall|idx: Seq<int>|
        in_bounds(pr.dims, idx) && idx[3] < half implies first_turned(
        px.at(idx),
        px.at(ix4(idx[0], idx[1], idx[2], idx[3] + half)),
        pc.at(ix4(idx[0], idx[1], 0, idx[3])),
        ps.at(ix4(idx[0], idx[1], 0, idx[3])),
        #[trigger] pr.at(idx),
    ) by {
        let moved = idx.update(1, idx[1] + lo);
        lemma_moved_in_bounds(r.dims, lo, hi, idx);
        assert(0 <= idx[0] && 0 <= idx[1] && 0 <= idx[2] && 0 <= idx[3]);
        assert(idx[0] < pr.dims[0] && idx[1] < pr.dims[1] && idx[2] < pr.dims[2]);
        assert(idx =~= ix4(idx[0], idx[1], idx[2], idx[3]));
        assert(moved =~= ix4(idx[0], idx[1] + lo, idx[2], idx[3]));
        assert(pr.at(idx) == r.at(moved));
        assert(px.at(idx) == x.at(moved));
        assert(px.at(ix4(idx[0], idx[1], idx[2], idx[3] + half)) == x.at(
            ix4(moved[0], moved[1], moved[2], moved[3] + half),
        ));
        assert(pc.at(ix4(idx[0], idx[1], 0, idx[3])) == cos.at(
            ix4(moved[0], moved[1], 0, moved[3]),
        ));
    }
    assert forall|idx: Seq<int>|
        in_bounds(pr.dims, idx) && idx[3] >= half implies second_turned(
        px.at(ix4(idx[0], idx[1], idx[2], idx[3] - half)),
        px.at(idx),
        pc.at(ix4(idx[0], idx[1], 0, idx[3] - half)),
        ps.at(ix4(idx[0], idx[1], 0, idx[3] - half)),
        #[trigger] pr.at(idx),
    ) by {
        let moved = idx.update(1, idx[1] + lo);
        lemma_moved_in_bounds(r.dims, lo, hi, idx);
        assert(0 <= idx[0] && 0 <= idx[1] && 0 <= idx[2] && 0 <= idx[3]);
        assert(idx[0] < pr.dims[0] && idx[1] < pr.dims[1] && idx[2] < pr.dims[2] && idx[3]
            < pr.dims[3]);
        assert(idx =~= ix4(idx[0], idx[1], idx[2], idx[3]));
        assert(moved =~= ix4(idx[0], idx[1] + lo, idx[2], idx[3]));
        assert(pr.at(idx) == r.at(moved));
        assert(px.at(idx) == x.at(moved));
        assert(px.at(ix4(idx[0], idx[1], idx[2], idx[3] - half)) == x.at(
            ix4(moved[0], moved[1], moved[2], moved[3] - half),
        ));
        assert(pc.at(ix4(idx[0], idx[1], 0, idx[3] - half)) == cos.at(
            ix4(moved[0], moved[1], 0, moved[3] - half),
        ));
    }
}

/// The queries, keys and values of some positions depend on those positions alone.
proof fn lemma_part_heads_outcome(
    attn: Qwen3Attention,
    x: TensorView,
    positions: Seq<Seq<i64>>,
    q: TensorView,
    k: TensorView,
    v: TensorView,
    lo: int,
    hi: int,
)
    requires
        attn.wf(),
        x.wf(),
        x.dims.len() == 3,
        is_int_table(positions, x.dims[0], x.dims[1]),
        attn.heads_outcome(x, positions, q, k, v),
        0 <= lo < hi <= x.dims[1],
    ensures
        attn.heads_outcome(
            part(x, lo, hi),
            part_of_rows(positions, lo, hi),
            part(q, lo, hi),
            part(k, lo, hi),
            part(v, lo, hi),
        ),
{
    let t = choose|t: HeadsTrace| #[trigger] attn.heads_with(x, positions, t, q, k, v);
    let heads = attn.num_heads as nat;
    let kv_heads = attn.num_kv_heads as nat;
    let head_dim = attn.head_dim as nat;
    lemma_part_heads(attn.q_proj.weight@, x, heads, head_dim, t.q, lo, hi);
    lemma_part_heads(attn.k_proj.weight@, x, kv_heads, head_dim, t.k, lo, hi);
    lemma_part_heads(attn.v_proj.weight@, x, kv_heads, head_dim, v, lo, hi);
    lemma_part_normalized(attn.q_norm.gamma@, attn.q_norm.epsilon, t.q, t.q_normed, lo, hi);
    lemma_part_normalized(attn.k_norm.gamma@, attn.k_norm.epsilon, t.k, t.k_normed, lo, hi);
    lemma_part_rope(positions, head_dim, attn.rope_theta, t.cos, t.sin, lo, hi);
    lemma_part_rotated(t.q_normed, t.cos, t.sin, q, lo, hi);
    lemma_part_rotated(t.k_normed, t.cos, t.sin, k, lo, hi);
    let p = HeadsTrace {
        q: part(t.q, lo, hi),
        k: part(t.k, lo, hi),
        q_normed: part(t.q_normed, lo, hi),
        k_normed: part(t.k_normed, lo, hi),
        cos: part(t.cos, lo, hi),
        sin: part(t.sin, lo, hi),
    };
    assert(attn.heads_with(
        part(x, lo, hi),
        part_of_rows(positions, lo, hi),
        p,
        part(q, lo, hi),
        part(k, lo, hi),
        part(v, lo, hi),
    ));
}

/// The shapes of queries, keys and values.
pub(crate) proof fn lemma_heads_shapes(
    attn: Qwen3Attention,
    x: TensorView,
    positions: Seq<Seq<i64>>,
    q: TensorView,
    k: TensorView,
    v: TensorView,
)
    requires
        attn.heads_outcome(x, positions, q, k, v),
    ensures
        q.wf(),
        k.wf(),
        v.wf(),
        q.dims == seq![x.dims[0], x.dims[1], attn.num_heads as nat, attn.head_dim as nat],
        k.dims == seq![x.dims[0], x.dims[1], attn.num_kv_heads as nat, attn.head_dim as nat],
        v.dims == k.dims,
{
    let t = choose|t: HeadsTrace| #[trigger] attn.heads_with(x, positions, t, q, k, v);
}

/// What is seen does not depend on what is hidden.
pub(crate) proof fn lemma_seen_agrees<A>(a: Seq<A>, b: Seq<A>, ha: Seq<bool>, hb: Seq<bool>)
    requires
        a.len() == b.len(),
        forall|j: int| 0 <= j < a.len() ==> #[trigger] ha[j] == hb[j],
        forall|j: int| 0 <= j < a.len() && !ha[j] ==> #[trigger] a[j] == b[j],
    ensures
        seen(a, ha) == seen(b, hb),
    decreases a.len(),
{
    if a.len() > 0 {
        let n = a.len() - 1;
        assert(ha[n] == hb[n]);
        assert forall|j: int| 0 <= j < n && !ha[j] implies #[trigger] a.drop_last()[j]
            == b.drop_last()[j] by {
            assert(a[j] == b[j]);
        }
        lemma_seen_agrees(a.drop_last(), b.drop_last(), ha, hb);
        if !ha[n] {
            assert(a[n] == b[n]);
        }
    } else {
        assert(a =~= b);
    }
}

/// Hidden keys at the end do not count.
pub(crate) proof fn lemma_seen_of_prefix<A>(s: Seq<A>, hidden: Seq<bool>, first: Seq<bool>, n: int)
    requires
        0 <= n <= s.len(),
        forall|j: int| 0 <= j < n ==> #[trigger] first[j] == hidden[j],
        forall|j: int| n <= j < s.len() ==> #[trigger] hidden[j],
    ensures
        seen(s, hidden) == seen(s.take(n), first),
    decreases s.len(),
{
    if s.len() > n {
        assert(hidden[s.len() - 1]);
        lemma_seen_of_prefix(s.drop_last(), hidden, first, n);
        assert(s.drop_last().take(n) =~= s.take(n));
    } else {
        assert(s.take(n) =~= s);
        lemma_seen_agrees(s, s, hidden, first);
    }
}

/// The padding of the first `n` positions.
pub open spec fn part_of_padding(
    padding: Option<Seq<Seq<bool>>>,
    n: int,
) -> Option<Seq<Seq<bool>>> {
    match padding {
        Some(valid) => Some(valid.map_values(|row: Seq<bool>| row.take(n))),
        None => None,
    }
}

/// The keys that the query at `position` of sequence `batch` must not look at.
pub open spec fn hidden_from(
    padding: Option<Seq<Seq<bool>>>,
    batch: int,
    position: int,
    keys: nat,
) -> Seq<bool> {
    Seq::new(
        keys,
        |j: int| position < j || (padding matches Some(valid) && !valid[batch][j]),
    )
}

/// The row of a mask for a query.
pub(crate) proof fn lemma_hidden_keys(
    padding: Option<Seq<Seq<bool>>>,
    batches: nat,
    queries: nat,
    keys: nat,
    b: int,
    i: int,
)
    requires
        padding_fits(padding, batches, keys),
        0 <= b < batches,
        0 <= i < queries <= keys,
    ensures
        hidden_keys(Some(prefill_mask(padding, queries, keys)), b, i, keys) == hidden_from(
            padding,
            b,
            keys - queries + i,
            keys,
        ),
        hidden_keys(cached_mask(padding, queries, keys), b, i, keys) == hidden_from(
            padding,
            b,
            keys - queries + i,
            keys,
        ),
{
    let want = hidden_from(padding, b, keys - queries + i, keys);
    assert(hidden_keys(Some(prefill_mask(padding, queries, keys)), b, i, keys) =~= want);
    assert(hidden_keys(cached_mask(padding, queries, keys), b, i, keys) =~= want);
}

/// Masks that hide the same keys give the same results.
proof fn lemma_same_hidden(
    q: TensorView,
    k: TensorView,
    v: TensorView,
    group: nat,
    a: Option<Seq<Seq<Seq<bool>>>>,
    b: Option<Seq<Seq<Seq<bool>>>>,
    mixed: TensorView,
)
    requires
        q.dims.len() == 4,
        forall|i: int, j: int|
            0 <= i < q.dims[0] && 0 <= j < q.dims[1] ==> #[trigger] hidden_keys(
                a,
                i,
                j,
                k.dims[1],
            ) == hidden_keys(b, i, j, k.dims[1]),
    ensures
        grouped_attention(q, k, v, group, a, mixed) ==> grouped_attention(
            q,
            k,
            v,
            group,
            b,
            mixed,
        ),
{
    if grouped_attention(q, k, v, group, a, mixed) {
        let e = q.dims[3] as int;
        let g = group as int;
        assert forall|idx: Seq<int>| in_bounds(mixed.dims, idx) implies masked_outcome(
            last_axis(q, ix3(idx[0], idx[1], idx[2] / e)),
            cached_rows(k, idx[0], (idx[2] / e) / g),
            cached_column(v, idx[0], (idx[2] / e) / g, idx[2] % e),
            hidden_keys(b, idx[0], idx[1], k.dims[1]),
            #[trigger] mixed.at(idx),
        ) by {
            assert(0 <= idx[0] < mixed.dims[0] && 0 <= idx[1] < mixed.dims[1]);
            assert(hidden_keys(a, idx[0], idx[1], k.dims[1]) == hidden_keys(
                b,
                idx[0],
                idx[1],
                k.dims[1],
            ));
        }
    }
}

/// The result for queries depends on the mask by what it hides alone.
proof fn lemma_mix_same_hidden(
    attn: Qwen3Attention,
    q: TensorView,
    k: TensorView,
    v: TensorView,
    a: Option<Seq<Seq<Seq<bool>>>>,
    b: Option<Seq<Seq<Seq<bool>>>>,
    r: TensorView,
)
    requires
        q.dims.len() == 4,
        forall|i: int, j: int|
            0 <= i < q.dims[0] && 0 <= j < q.dims[1] ==> #[trigger] hidden_keys(
                a,
                i,
                j,
                k.dims[1],
            ) == hidden_keys(b, i, j, k.dims[1]),
    ensures
        attn.mix_outcome(q, k, v, a, r) ==> attn.mix_outcome(q, k, v, b, r),
{
    if attn.mix_outcome(q, k, v, a, r) {
        let mixed = choose|mixed: TensorView|
            {
                &&& #[trigger] grouped_attention(q, k, v, attn.group(), a, mixed)
                &&& projected(attn.o_proj.weight@, mixed, r)
            };
        lemma_same_hidden(q, k, v, attn.group(), a, b, mixed);
        assert(grouped_attention(q, k, v, attn.group(), b, mixed));
    }
}

/// Every element is a finite float.
pub open spec fn all_finite(t: TensorView) -> bool {
    forall|i: int| 0 <= i < t.data.len() ==> is_finite(#[trigger] t.data[i])
}

/// The vectors of a head at the first positions of a part.
proof fn lemma_part_rows(t: TensorView, n: int, batch: int, head: int, i: int)
    requires
        t.wf(),
        t.dims.len() == 4,
        0 < n <= t.dims[1],
        0 <= batch < t.dims[0],
        0 <= head < t.dims[2],
        0 <= i < t.dims[3],
    ensures
        cached_rows(part(t, 0, n), batch, head) == cached_rows(t, batch, head).take(n),
        cached_column(part(t, 0, n), batch, head, i) == cached_column(t, batch, head, i).take(n),
{
    lemma_part(t, 0, n);
    let p = part(t, 0, n);
    let rows = cached_rows(t, batch, head).take(n);
    assert forall|j: int| 0 <= j < n implies #[trigger] cached_rows(p, batch, head)[j]
        == rows[j] by {
        let prefix = ix3(batch, j, head);
        lemma_part_row(t, 0, n, prefix);
        assert(prefix.update(1, prefix[1] + 0) =~= prefix);
    }
    assert(cached_rows(p, batch, head) =~= rows);
    let column = cached_column(t, batch, head, i).take(n);
    assert forall|j: int| 0 <= j < n implies #[trigger] cached_column(p, batch, head, i)[j]
        == column[j] by {
        let idx = ix4(batch, j, head, i);
        assert(in_bounds(p.dims, idx));
        assert(idx.update(1, idx[1] + 0) =~= idx);
    }
    assert(cached_column(p, batch, head, i) =~= column);
}

/// Attention at the positions from `lo` up to `hi` looks at the positions up to `hi`. What follows
/// does not matter, as long as the values there are finite.
proof fn lemma_part_attention(
    q: TensorView,
    k: TensorView,
    v: TensorView,
    group: nat,
    padding: Option<Seq<Seq<bool>>>,
    mixed: TensorView,
    lo: int,
    hi: int,
)
    requires
        q.wf(),
        k.wf(),
        v.wf(),
        q.dims.len() == 4,
        group > 0,
        k.dims.len() == 4,
        q.dims == seq![k.dims[0], k.dims[1], k.dims[2] * group, k.dims[3]],
        v.dims == k.dims,
        padding_fits(padding, q.dims[0], q.dims[1]),
        0 <= lo < hi <= q.dims[1],
        hi == q.dims[1] || all_finite(v),
        grouped_attention(
            q,
            k,
            v,
            group,
            Some(prefill_mask(padding, q.dims[1], q.dims[1])),
            mixed,
        ),
    ensures
        grouped_attention(
            part(q, lo, hi),
            part(k, 0, hi),
            part(v, 0, hi),
            group,
            cached_mask(part_of_padding(padding, hi), (hi - lo) as nat, hi as nat),
            part(mixed, lo, hi),
        ),
{
    lemma_part(q, lo, hi);
    lemma_part(k, 0, hi);
    lemma_part(v, 0, hi);
    lemma_part(mixed, lo, hi);
    let (pq, pk, pv, pm) = (part(q, lo, hi), part(k, 0, hi), part(v, 0, hi), part(mixed, lo, hi));
    let s = q.dims[1];
    let e = q.dims[3] as int;
    let g = group as int;
    let cut = part_of_padding(padding, hi);
    let mask = Some(prefill_mask(padding, s, s));
    let pmask = cached_mask(cut, (hi - lo) as nat, hi as nat);
    assert(padding_fits(cut, q.dims[0], hi as nat));
    assert(pm.dims =~= seq![pq.dims[0], pq.dims[1], pq.dims[2] * pq.dims[3]]);
    assert forall|idx: Seq<int>| in_bounds(pm.dims, idx) implies masked_outcome(
        last_axis(pq, ix3(idx[0], idx[1], idx[2] / e)),
        cached_rows(pk, idx[0], (idx[2] / e) / g),
        cached_column(pv, idx[0], (idx[2] / e) / g, idx[2] % e),
        hidden_keys(pmask, idx[0], idx[1], pk.dims[1]),
        #[trigger] pm.at(idx),
    ) by {
        lemma_moved_in_bounds(mixed.dims, lo, hi, idx);
        let moved = idx.update(1, idx[1] + lo);
        assert(0 <= idx[0] < pm.dims[0] && 0 <= idx[1] < pm.dims[1] && 0 <= idx[2] < pm.dims[2]);
        let h = idx[2] / e;
        let d = idx[2] % e;
        let kv = h / g;
        assert(0 <= h < q.dims[2] && 0 <= d < e) by (nonlinear_arith)
            requires
                0 <= idx[2] < q.dims[2] * e,
                e > 0,
                h == idx[2] / e,
                d == idx[2] % e,
        ;
        assert(0 <= kv < k.dims[2]) by (nonlinear_arith)
            requires
                0 <= h < k.dims[2] * g,
                g > 0,
                kv == h / g,
        ;
        let prefix = ix3(idx[0], idx[1], h);
        lemma_part_row(q, lo, hi, prefix);
        assert(prefix.update(1, prefix[1] + lo) =~= ix3(moved[0], moved[1], h));
        lemma_part_rows(k, hi, idx[0], kv, d);
        lemma_part_rows(v, hi, idx[0], kv, d);
        let rows = cached_rows(k, idx[0], kv);
        let column = cached_column(v, idx[0], kv, d);
        lemma_hidden_keys(padding, q.dims[0], s, s, moved[0], moved[1]);
        lemma_hidden_keys(cut, q.dims[0], (hi - lo) as nat, hi as nat, idx[0], idx[1]);
        let hidden = hidden_from(padding, idx[0], moved[1], s);
        let phidden = hidden_from(cut, idx[0], moved[1], hi as nat);
        assert(hidden_keys(mask, moved[0], moved[1], k.dims[1]) == hidden);
        assert(hidden_keys(pmask, idx[0], idx[1], pk.dims[1]) == phidden);
        assert(mixed.at(moved) == pm.at(idx));
        assert(masked_outcome(
            last_axis(q, ix3(moved[0], moved[1], h)),
            rows,
            column,
            hidden,
            mixed.at(moved),
        ));
        assert forall|j: int| 0 <= j < hi implies #[trigger] phidden[j] == hidden[j] by {}
        if hi == s {
            assert(rows.take(hi) =~= rows);
            assert(column.take(hi) =~= column);
            assert(phidden =~= hidden);
        } else {
            lemma_seen_of_prefix(rows, hidden, phidden, hi);
            lemma_seen_of_prefix(column, hidden, phidden, hi);
            assert forall|j: int| 0 <= j < column.len() implies is_finite(#[trigger] column[j]) by {
                assert(in_bounds(v.dims, ix4(idx[0], j, kv, d)));
                lemma_offset_in_volume(v.dims, ix4(idx[0], j, kv, d));
            }
            assert(hidden_are_finite(column, hidden));
            assert(hidden_are_finite(column.take(hi), phidden));
        }
    }
}

/// The whole is a part of itself.
proof fn lemma_whole(t: TensorView)
    requires
        t.wf(),
        t.dims.len() >= 2,
    ensures
        part(t, 0, t.dims[1] as int) == t,
{
    let n = t.dims[1] as int;
    lemma_part(t, 0, n);
    let p = part(t, 0, n);
    assert(p.dims =~= t.dims);
    assert forall|idx: Seq<int>| in_bounds(p.dims, idx) implies #[trigger] p.at(idx) == t.at(
        idx,
    ) by {
        assert(idx.update(1, idx[1] + 0) =~= idx);
    }
    lemma_same_elements(p, t);
}

/// The whole padding is a part of itself.
proof fn lemma_whole_padding(padding: Option<Seq<Seq<bool>>>, batch: nat, n: nat)
    requires
        padding_fits(padding, batch, n),
    ensures
        part_of_padding(padding, n as int) == padding,
{
    if let Some(valid) = padding {
        let cut = valid.map_values(|row: Seq<bool>| row.take(n as int));
        assert forall|b: int| 0 <= b < valid.len() implies #[trigger] cut[b] == valid[b] by {
            assert(valid[b].take(n as int) =~= valid[b]);
        }
        assert(cut =~= valid);
    }
}

/// What comes later does not matter to attention: what a forward pass gives at the first `n`
/// positions, a forward pass on those positions alone may give, with the padding cut to them, as
/// long as the value vectors are finite.
pub proof fn lemma_attention_is_causal(
    attn: Qwen3Attention,
    x: TensorView,
    padding: Option<Seq<Seq<bool>>>,
    positions: Seq<Seq<i64>>,
    q: TensorView,
    k: TensorView,
    v: TensorView,
    r: TensorView,
    n: int,
)
    requires
        attn.wf(),
        x.wf(),
        x.dims.len() == 3,
        padding_fits(padding, x.dims[0], x.dims[1]),
        is_int_table(positions, x.dims[0], x.dims[1]),
        attn.forward_with(x, padding, positions, q, k, v, r),
        all_finite(v),
        0 < n <= x.dims[1],
    ensures
        attn.forward_with(
            part(x, 0, n),
            part_of_padding(padding, n),
            part_of_rows(positions, 0, n),
            part(q, 0, n),
            part(k, 0, n),
            part(v, 0, n),
            part(r, 0, n),
        ),
{
    lemma_part(x, 0, n);
    lemma_part_heads_outcome(attn, x, positions, q, k, v, 0, n);
    lemma_heads_shapes(attn, x, positions, q, k, v);
    lemma_part(q, 0, n);
    lemma_part(k, 0, n);
    lemma_group(attn);
    let mask = Some(prefill_mask(padding, x.dims[1], x.dims[1]));
    let mixed = choose|mixed: TensorView|
        {
            &&& #[trigger] grouped_attention(q, k, v, attn.group(), mask, mixed)
            &&& projected(attn.o_proj.weight@, mixed, r)
        };
    lemma_part_attention(q, k, v, attn.group(), padding, mixed, 0, n);
    lemma_part_projected(attn.o_proj.weight@, mixed, r, 0, n);
    let cut = part_of_padding(padding, n);
    let cached = cached_mask(cut, n as nat, n as nat);
    let plain = Some(prefill_mask(cut, n as nat, n as nat));
    assert(padding_fits(cut, x.dims[0], n as nat));
    assert forall|i: int, j: int|
        0 <= i < part(q, 0, n).dims[0] && 0 <= j < part(q, 0, n).dims[1] implies
        #[trigger] hidden_keys(cached, i, j, n as nat) == hidden_keys(plain, i, j, n as nat) by {
        lemma_hidden_keys(cut, x.dims[0], n as nat, n as nat, i, j);
    }
    assert(attn.mix_outcome(part(q, 0, n), part(k, 0, n), part(v, 0, n), cached, part(r, 0, n)));
    lemma_mix_same_hidden(
        attn,
        part(q, 0, n),
        part(k, 0, n),
        part(v, 0, n),
        cached,
        plain,
        part(r, 0, n),
    );
}

/// The heads are as many as the groups times the size of a group.
pub(crate) proof fn lemma_group(attn: Qwen3Attention)
    requires
        attn.wf(),
    ensures
        attn.group() > 0,
        attn.num_kv_heads * attn.group() == attn.num_heads,
{
    let h = attn.num_heads as int;
    let k = attn.num_kv_heads as int;
    assert(k * (h / k) == h && h / k > 0) by (nonlinear_arith)
        requires
            h % k == 0,
            h > 0,
            k > 0,
    ;
}

/// A cache that holds the keys and values of the first `n` positions.
pub open spec fn cache_of_first(k: TensorView, v: TensorView, n: int) -> KVCacheView {
    if n == 0 {
        KVCacheView::empty()
    } else {
        KVCacheView { key: Some(part(k, 0, n)), value: Some(part(v, 0, n)) }
    }
}

/// Attention goes on behind a cache where it left off: what a forward pass gives at the positions
/// from `lo` up to `hi`, a pass on those positions may give with a cache that holds the keys and
/// values of the positions before them; it leaves those of the positions up to `hi` in the cache.
/// If positions follow, the value vectors must be finite. With `lo` of zero it is the first pass,
/// on an empty cache; with `hi` of `lo + 1` it decodes one token. The pass that reaches the end
/// takes the whole padding mask and leaves all keys and values in the cache.
pub proof fn lemma_attention_behind_cache(
    attn: Qwen3Attention,
    x: TensorView,
    padding: Option<Seq<Seq<bool>>>,
    positions: Seq<Seq<i64>>,
    q: TensorView,
    k: TensorView,
    v: TensorView,
    r: TensorView,
    lo: int,
    hi: int,
)
    requires
        attn.wf(),
        x.wf(),
        x.dims.len() == 3,
        padding_fits(padding, x.dims[0], x.dims[1]),
        is_int_table(positions, x.dims[0], x.dims[1]),
        attn.forward_with(x, padding, positions, q, k, v, r),
        0 <= lo < hi <= x.dims[1],
        hi == x.dims[1] || all_finite(v),
    ensures
        attn.cached_with(
            part(x, lo, hi),
            part_of_padding(padding, hi),
            part_of_rows(positions, lo, hi),
            cache_of_first(k, v, lo),
            cache_of_first(k, v, hi),
            part(q, lo, hi),
            part(k, lo, hi),
            part(v, lo, hi),
            part(r, lo, hi),
        ),
        hi == x.dims[1] ==> part_of_padding(padding, hi) == padding && cache_of_first(k, v, hi) == (
        KVCacheView { key: Some(k), value: Some(v) }),
{
    lemma_part(x, lo, hi);
    lemma_part_heads_outcome(attn, x, positions, q, k, v, lo, hi);
    lemma_heads_shapes(attn, x, positions, q, k, v);
    lemma_part(k, 0, hi);
    lemma_part(v, 0, hi);
    if hi == x.dims[1] {
        lemma_whole(k);
        lemma_whole(v);
        lemma_whole_padding(padding, x.dims[0], x.dims[1]);
    }
    lemma_group(attn);
    if lo > 0 {
        lemma_part_of_part(k, hi, 0, lo);
        lemma_part_of_part(k, hi, lo, hi);
        lemma_part_of_part(v, hi, 0, lo);
        lemma_part_of_part(v, hi, lo, hi);
        lemma_parts_join(part(k, 0, hi), lo);
        lemma_parts_join(part(v, 0, hi), lo);
    }
    let mask = Some(prefill_mask(padding, x.dims[1], x.dims[1]));
    let mixed = choose|mixed: TensorView|
        {
            &&& #[trigger] grouped_attention(q, k, v, attn.group(), mask, mixed)
            &&& projected(attn.o_proj.weight@, mixed, r)
        };
    lemma_part_attention(q, k, v, attn.group(), padding, mixed, lo, hi);
    lemma_part_projected(attn.o_proj.weight@, mixed, r, lo, hi);
}

/// The positions before `n` and those from `n` on make up the whole.
proof fn lemma_parts_join(t: TensorView, n: int)
    requires
        t.wf(),
        t.dims.len() == 4,
        0 < n < t.dims[1],
    ensures
        concatenated(part(t, 0, n), part(t, n, t.dims[1] as int), 1, t),
{
    let s = t.dims[1] as int;
    lemma_part(t, 0, n);
    lemma_part(t, n, s);
    let (a, b) = (part(t, 0, n), part(t, n, s));
    assert(t.dims =~= a.dims.update(1, a.dims[1] + b.dims[1]));
    assert forall|idx: Seq<int>| in_bounds(t.dims, idx) implies #[trigger] t.at(idx) == (if idx[1]
        < a.dims[1] {
        a.at(idx)
    } else {
        b.at(idx.update(1, idx[1] - a.dims[1]))
    }) by {
        if idx[1] < n {
            assert(in_bounds(a.dims, idx)) by {
                assert forall|i: int| 0 <= i < a.dims.len() implies 0 <= #[trigger] idx[i]
                    < a.dims[i] by {}
            }
            assert(idx.update(1, idx[1] + 0) =~= idx);
        } else {
            let j = idx.update(1, idx[1] - n);
            assert(in_bounds(b.dims, j)) by {
                assert forall|i: int| 0 <= i < b.dims.len() implies 0 <= #[trigger] j[i]
                    < b.dims[i] by {
                    assert(0 <= idx[i] < t.dims[i]);
                }
            }
            assert(j.update(1, j[1] + n) =~= idx);
        }
    }
}

/// On an empty cache the pass with a cache is the forward pass: each may give what the other may
/// give, and the keys and values are then in the cache.
pub proof fn lemma_empty_cache_is_forward(
    attn: Qwen3Attention,
    x: TensorView,
    padding: Option<Seq<Seq<bool>>>,
    positions: Seq<Seq<i64>>,
    q: TensorView,
    k: TensorView,
    v: TensorView,
    r: TensorView,
)
    requires
        padding_fits(padding, x.dims[0], x.dims[1]),
    ensures
        attn.forward_with(x, padding, positions, q, k, v, r) <==> attn.cached_with(
            x,
            padding,
            positions,
            KVCacheView::empty(),
            KVCacheView { key: Some(k), value: Some(v) },
            q,
            k,
            v,
            r,
        ),
{
    let s = x.dims[1];
    if attn.heads_outcome(x, positions, q, k, v) {
        lemma_heads_shapes(attn, x, positions, q, k, v);
        let plain = Some(prefill_mask(padding, s, s));
        let cached = cached_mask(padding, s, s);
        assert forall|i: int, j: int| 0 <= i < q.dims[0] && 0 <= j < q.dims[1] implies
            #[trigger] hidden_keys(plain, i, j, s) == hidden_keys(cached, i, j, s) by {
            lemma_hidden_keys(padding, x.dims[0], s, s, i, j);
        }
        lemma_mix_same_hidden(attn, q, k, v, plain, cached, r);
        assert forall|i: int, j: int| 0 <= i < q.dims[0] && 0 <= j < q.dims[1] implies
            #[trigger] hidden_keys(cached, i, j, s) == hidden_keys(plain, i, j, s) by {
            lemma_hidden_keys(padding, x.dims[0], s, s, i, j);
        }
        lemma_mix_same_hidden(attn, q, k, v, cached, plain, r);
    }
}

/// A mask that marks every token as valid changes nothing: the forward pass with it and the one
/// without a mask may give the same.
pub proof fn lemma_all_valid_changes_nothing(
    attn: Qwen3Attention,
    x: TensorView,
    valid: Seq<Seq<bool>>,
    positions: Seq<Seq<i64>>,
    r: TensorView,
)
    requires
        padding_fits(Some(valid), x.dims[0], x.dims[1]),
        forall|b: int, j: int|
            0 <= b < x.dims[0] && 0 <= j < x.dims[1] ==> #[trigger] valid[b][j],
    ensures
        attn.forward_outcome(x, Some(valid), positions, r) <==> attn.forward_outcome(
            x,
            None,
            positions,
            r,
        ),
{
    if attn.forward_outcome(x, Some(valid), positions, r) {
        lemma_forward_same_hidden(attn, x, Some(valid), None, positions, r);
    }
    if attn.forward_outcome(x, None, positions, r) {
        lemma_forward_same_hidden(attn, x, None, Some(valid), positions, r);
    }
}

/// The forward pass depends on the padding by what it hides alone.
proof fn lemma_forward_same_hidden(
    attn: Qwen3Attention,
    x: TensorView,
    a: Option<Seq<Seq<bool>>>,
    b: Option<Seq<Seq<bool>>>,
    positions: Seq<Seq<i64>>,
    r: TensorView,
)
    requires
        padding_fits(a, x.dims[0], x.dims[1]),
        padding_fits(b, x.dims[0], x.dims[1]),
        forall|i: int, j: int|
            0 <= i < x.dims[0] && 0 <= j < x.dims[1] ==> #[trigger] hidden_from(
                a,
                i,
                j,
                x.dims[1],
            ) =~= hidden_from(b, i, j, x.dims[1]),
        attn.forward_outcome(x, a, positions, r),
    ensures
        attn.forward_outcome(x, b, positions, r),
{
    let s = x.dims[1];
    let (q, k, v) = choose|q: TensorView, k: TensorView, v: TensorView| #[trigger]
        attn.forward_with(x, a, positions, q, k, v, r);
    lemma_heads_shapes(attn, x, positions, q, k, v);
    let (ma, mb) = (Some(prefill_mask(a, s, s)), Some(prefill_mask(b, s, s)));
    assert forall|i: int, j: int| 0 <= i < q.dims[0] && 0 <= j < q.dims[1] implies
        #[trigger] hidden_keys(ma, i, j, s) == hidden_keys(mb, i, j, s) by {
        lemma_hidden_keys(a, x.dims[0], s, s, i, j);
        lemma_hidden_keys(b, x.dims[0], s, s, i, j);
        assert(hidden_from(a, i, j, s) =~= hidden_from(b, i, j, s));
    }
    lemma_mix_same_hidden(attn, q, k, v, ma, mb, r);
    assert(attn.forward_with(x, b, positions, q, k, v, r));
}

pub(crate) proof fn lemma_part_sums(a: TensorView, b: TensorView, r: TensorView, lo: int, hi: int)
    requires
        a.wf(),
        b.wf(),
        a.dims.len() == 3,
        b.dims == a.dims,
        sums(a, b, r),
        0 <= lo < hi <= a.dims[1],
    ensures
        sums(part(a, lo, hi), part(b, lo, hi), part(r, lo, hi)),
        r.dims == a.dims,
{
    assert(r.dims =~= a.dims);
    lemma_part(a, lo, hi);
    lemma_part(b, lo, hi);
    lemma_part(r, lo, hi);
    let (pa, pb, pr) = (part(a, lo, hi), part(b, lo, hi), part(r, lo, hi));
    assert(pr.dims =~= crate::tensor::broadcast_dims(pa.dims, pb.dims));
    assert forall|idx: Seq<int>| in_bounds(pr.dims, idx) implies crate::tensor::sum_outcome(
        pa.at(source_index(pa.dims, idx)),
        pb.at(source_index(pb.dims, idx)),
        #[trigger] pr.at(idx),
    ) by {
        let moved = idx.update(1, idx[1] + lo);
        lemma_moved_in_bounds(r.dims, lo, hi, idx);
        assert forall|i: int| 0 <= i < idx.len() implies #[trigger] source_index(pa.dims, idx)[i]
            == idx[i] by {
            assert(0 <= idx[i] < pr.dims[i]);
        }
        assert(source_index(pa.dims, idx) =~= idx);
        assert forall|i: int| 0 <= i < idx.len() implies #[trigger] source_index(a.dims, moved)[i]
            == moved[i] by {
            assert(0 <= moved[i] < r.dims[i]);
        }
        assert(source_index(a.dims, moved) =~= moved);
        assert(pr.at(idx) == r.at(moved));
        assert(pa.at(idx) == a.at(moved));
        assert(pb.at(idx) == b.at(moved));
    }
}

proof fn lemma_part_gated(
    gate: TensorView,
    up: TensorView,
    x: TensorView,
    r: TensorView,
    lo: int,
    hi: int,
)
    requires
        x.wf(),
        x.dims.len() == 3,
        gated(gate, up, x, r),
        0 <= lo < hi <= x.dims[1],
    ensures
        gated(gate, up, part(x, lo, hi), part(r, lo, hi)),
{
    lemma_part(x, lo, hi);
    lemma_part(r, lo, hi);
    let (px, pr) = (part(x, lo, hi), part(r, lo, hi));
    assert(pr.dims =~= px.dims.update(2, gate.dims[1]));
    assert forall|idx: Seq<int>| in_bounds(pr.dims, idx) implies crate::decoder::gate_outcome(
        last_axis(px, idx.drop_last()),
        column_of(gate, idx.last()),
        column_of(up, idx.last()),
        #[trigger] pr.at(idx),
    ) by {
        let moved = idx.update(1, idx[1] + lo);
        lemma_moved_in_bounds(r.dims, lo, hi, idx);
        let prefix = idx.drop_last();
        assert forall|i: int| 0 <= i < prefix.len() implies 0 <= #[trigger] prefix[i]
            < px.dims[i] by {
            assert(0 <= idx[i] < pr.dims[i]);
        }
        lemma_part_row(x, lo, hi, prefix);
        assert(moved.drop_last() =~= prefix.update(1, prefix[1] + lo));
        assert(pr.at(idx) == r.at(moved));
        assert(moved.last() == idx.last());
    }
}

/// What follows attention in a layer works position by position.
pub(crate) proof fn lemma_part_rest(
    layer: Qwen3DecoderLayer,
    x: TensorView,
    a: TensorView,
    r: TensorView,
    lo: int,
    hi: int,
)
    requires
        layer.wf(),
        x.wf(),
        a.wf(),
        x.dims.len() == 3,
        x.dims[2] == layer.hidden_size(),
        a.dims == x.dims,
        layer.rest_outcome(x, a, r),
        0 <= lo < hi <= x.dims[1],
    ensures
        layer.rest_outcome(part(x, lo, hi), part(a, lo, hi), part(r, lo, hi)),
        r.wf(),
        r.dims == x.dims,
{
    let mid = choose|mid: TensorView| #[trigger]
        sums(x, a, mid) && layer.feed_forward_outcome(mid, r);
    lemma_part_sums(x, a, mid, lo, hi);
    let norm = layer.post_attention_layernorm;
    let (normed, m) = choose|normed: TensorView, m: TensorView|
        {
            &&& normalized(norm.gamma@, norm.epsilon, mid, normed)
            &&& #[trigger] layer.mlp.outcome(normed, m)
            &&& sums(mid, m, r)
        };
    lemma_part_normalized(norm.gamma@, norm.epsilon, mid, normed, lo, hi);
    let inner = choose|inner: TensorView|
        {
            &&& #[trigger] gated(
                layer.mlp.gate_proj.weight@,
                layer.mlp.up_proj.weight@,
                normed,
                inner,
            )
            &&& projected(layer.mlp.down_proj.weight@, inner, m)
        };
    lemma_part_gated(
        layer.mlp.gate_proj.weight@,
        layer.mlp.up_proj.weight@,
        normed,
        inner,
        lo,
        hi,
    );
    lemma_part_projected(layer.mlp.down_proj.weight@, inner, m, lo, hi);
    assert(m.dims =~= mid.dims);
    lemma_part_sums(mid, m, r, lo, hi);
    assert(layer.mlp.outcome(part(normed, lo, hi), part(m, lo, hi)));
    assert(layer.feed_forward_outcome(part(mid, lo, hi), part(r, lo, hi)));
}

/// The steps of a layer at the positions from `lo` up to `hi`.
pub open spec fn part_of_trace(t: LayerTrace, lo: int, hi: int) -> LayerTrace {
    LayerTrace {
        normed: part(t.normed, lo, hi),
        q: part(t.q, lo, hi),
        k: part(t.k, lo, hi),
        v: part(t.v, lo, hi),
        attended: part(t.attended, lo, hi),
    }
}

/// The shapes in the steps of a layer.
pub(crate) proof fn lemma_trace_shapes(
    layer: Qwen3DecoderLayer,
    x: TensorView,
    padding: Option<Seq<Seq<bool>>>,
    positions: Seq<Seq<i64>>,
    t: LayerTrace,
    r: TensorView,
)
    requires
        layer.wf(),
        x.wf(),
        x.dims.len() == 3,
        x.dims[2] == layer.hidden_size(),
        layer.forward_with(x, padding, positions, t, r),
    ensures
        t.normed.wf(),
        t.normed.dims == x.dims,
        t.k.wf(),
        t.v.wf(),
        t.k.dims.len() == 4,
        t.v.dims == t.k.dims,
        t.k.dims[0] == x.dims[0],
        t.k.dims[1] == x.dims[1],
        t.k.dims[2] == layer.self_attn.num_kv_heads,
        t.k.dims[3] == layer.self_attn.head_dim,
        t.attended.wf(),
        t.attended.dims == x.dims,
        r.wf(),
        r.dims == x.dims,
{
    let attn = layer.self_attn;
    lemma_heads_shapes(attn, t.normed, positions, t.q, t.k, t.v);
    let mask = Some(prefill_mask(padding, x.dims[1], x.dims[1]));
    let mixed = choose|mixed: TensorView|
        {
            &&& #[trigger] grouped_attention(t.q, t.k, t.v, attn.group(), mask, mixed)
            &&& projected(attn.o_proj.weight@, mixed, t.attended)
        };
    assert(t.attended.dims =~= x.dims);
    lemma_part_rest(layer, x, t.attended, r, 0, x.dims[1] as int);
}

/// The first `n` positions of a layer's forward pass are a forward pass of those positions.
proof fn lemma_layer_prefix(
    layer: Qwen3DecoderLayer,
    x: TensorView,
    padding: Option<Seq<Seq<bool>>>,
    positions: Seq<Seq<i64>>,
    t: LayerTrace,
    r: TensorView,
    n: int,
)
    requires
        layer.wf(),
        x.wf(),
        x.dims.len() == 3,
        x.dims[2] == layer.hidden_size(),
        padding_fits(padding, x.dims[0], x.dims[1]),
        is_int_table(positions, x.dims[0], x.dims[1]),
        layer.forward_with(x, padding, positions, t, r),
        all_finite(t.v),
        0 < n <= x.dims[1],
    ensures
        layer.forward_with(
            part(x, 0, n),
            part_of_padding(padding, n),
            part_of_rows(positions, 0, n),
            part_of_trace(t, 0, n),
            part(r, 0, n),
        ),
{
    lemma_trace_shapes(layer, x, padding, positions, t, r);
    let norm = layer.input_layernorm;
    lemma_part_normalized(norm.gamma@, norm.epsilon, x, t.normed, 0, n);
    lemma_attention_is_causal(
        layer.self_attn,
        t.normed,
        padding,
        positions,
        t.q,
        t.k,
        t.v,
        t.attended,
        n,
    );
    lemma_part_rest(layer, x, t.attended, r, 0, n);
}

/// A layer's forward pass at some positions is a pass with a cache of the positions before them.
proof fn lemma_layer_behind_cache(
    layer: Qwen3DecoderLayer,
    x: TensorView,
    padding: Option<Seq<Seq<bool>>>,
    positions: Seq<Seq<i64>>,
    t: LayerTrace,
    r: TensorView,
    lo: int,
    hi: int,
)
    requires
        layer.wf(),
        x.wf(),
        x.dims.len() == 3,
        x.dims[2] == layer.hidden_size(),
        padding_fits(padding, x.dims[0], x.dims[1]),
        is_int_table(positions, x.dims[0], x.dims[1]),
        layer.forward_with(x, padding, positions, t, r),
        0 <= lo < hi <= x.dims[1],
        hi == x.dims[1] || all_finite(t.v),
    ensures
        layer.cached_outcome(
            part(x, lo, hi),
            part_of_padding(padding, hi),
            part_of_rows(positions, lo, hi),
            cache_of_first(t.k, t.v, lo),
            cache_of_first(t.k, t.v, hi),
            part(r, lo, hi),
        ),
{
    lemma_trace_shapes(layer, x, padding, positions, t, r);
    let norm = layer.input_layernorm;
    lemma_part_normalized(norm.gamma@, norm.epsilon, x, t.normed, lo, hi);
    lemma_attention_behind_cache(
        layer.self_attn,
        t.normed,
        padding,
        positions,
        t.q,
        t.k,
        t.v,
        t.attended,
        lo,
        hi,
    );
    lemma_part_rest(layer, x, t.attended, r, lo, hi);
    assert(layer.cached_with(
        part(x, lo, hi),
        part_of_padding(padding, hi),
        part_of_rows(positions, lo, hi),
        cache_of_first(t.k, t.v, lo),
        cache_of_first(t.k, t.v, hi),
        part_of_trace(t, lo, hi),
        part(r, lo, hi),
    ));
}

/// `states` are those of a forward pass on `ids`, by the steps `traces` of the layers.
pub open spec fn forward_traced(
    model: Qwen3Model,
    ids: Seq<Seq<i64>>,
    padding: Option<Seq<Seq<bool>>>,
    traces: Seq<LayerTrace>,
    states: Seq<TensorView>,
) -> bool {
    let layers = model.layers@;
    &&& states.len() == layers.len() + 2
    &&& traces.len() == layers.len()
    &&& looked_up(model.embed_tokens.weight@, ids, states[0])
    &&& forall|l: int|
        0 <= l < layers.len() ==> (#[trigger] layers[l]).forward_with(
            states[l],
            padding,
            positions_from(0, ids.len(), ids[0].len()),
            traces[l],
            states[l + 1],
        )
    &&& normalized(
        model.norm.gamma@,
        model.norm.epsilon,
        states[layers.len() as int],
        states.last(),
    )
}

/// A forward pass goes by some steps.
pub proof fn lemma_forward_has_traces(
    model: Qwen3Model,
    ids: Seq<Seq<i64>>,
    padding: Option<Seq<Seq<bool>>>,
    states: Seq<TensorView>,
)
    ensures
        model.forward_outcome(ids, padding, states) <==> exists|traces: Seq<LayerTrace>|
         #[trigger]
            forward_traced(model, ids, padding, traces, states),
{
    let layers = model.layers@;
    let positions = positions_from(0, ids.len(), ids[0].len());
    if model.forward_outcome(ids, padding, states) {
        let traces = Seq::new(
            layers.len(),
            |l: int|
                choose|t: LayerTrace| #[trigger]
                    layers[l].forward_with(states[l], padding, positions, t, states[l + 1]),
        );
        assert forall|l: int| 0 <= l < layers.len() implies (#[trigger] layers[l]).forward_with(
            states[l],
            padding,
            positions,
            traces[l],
            states[l + 1],
        ) by {
            assert(layers[l].forward_outcome(states[l], padding, positions, states[l + 1]));
        }
        assert(forward_traced(model, ids, padding, traces, states));
    }
    if exists|traces: Seq<LayerTrace>| #[trigger]
        forward_traced(model, ids, padding, traces, states) {
        let traces = choose|traces: Seq<LayerTrace>| #[trigger]
            forward_traced(model, ids, padding, traces, states);
        assert forall|l: int| 0 <= l < layers.len() implies (#[trigger] layers[l]).forward_outcome(
            states[l],
            padding,
            positions,
            states[l + 1],
        ) by {
            assert(layers[l].forward_with(
                states[l],
                padding,
                positions,
                traces[l],
                states[l + 1],
            ));
        }
    }
}

/// Every state of a forward pass is `[batch, seq, hidden_size]`.
pub(crate) proof fn lemma_states_shapes(
    model: Qwen3Model,
    ids: Seq<Seq<i64>>,
    padding: Option<Seq<Seq<bool>>>,
    traces: Seq<LayerTrace>,
    states: Seq<TensorView>,
    l: int,
)
    requires
        model.wf(),
        forward_traced(model, ids, padding, traces, states),
        0 <= l <= model.layers@.len(),
    ensures
        states[l].wf(),
        states[l].dims == seq![ids.len(), ids[0].len(), model.config.hidden_size as nat],
    decreases l,
{
    if l > 0 {
        lemma_states_shapes(model, ids, padding, traces, states, l - 1);
        let layer = model.layers@[l - 1];
        assert(layer.wf());
        lemma_trace_shapes(
            layer,
            states[l - 1],
            padding,
            positions_from(0, ids.len(), ids[0].len()),
            traces[l - 1],
            states[l],
        );
    }
}

/// The positions of a part of a sequence.
pub(crate) proof fn lemma_part_of_positions(batch: nat, seq: nat, lo: int, hi: int)
    requires
        0 <= lo < hi <= seq,
    ensures
        part_of_rows(positions_from(0, batch, seq), lo, hi) == positions_from(
            lo as nat,
            batch,
            (hi - lo) as nat,
        ),
        is_int_table(positions_from(0, batch, seq), batch, seq),
{
    let a = part_of_rows(positions_from(0, batch, seq), lo, hi);
    let b = positions_from(lo as nat, batch, (hi - lo) as nat);
    assert forall|i: int| 0 <= i < batch implies #[trigger] a[i] == b[i] by {
        assert(a[i] =~= b[i]);
    }
    assert(a =~= b);
}

/// The embeddings of some positions are those of their tokens.
proof fn lemma_part_looked_up(
    weight: TensorView,
    ids: Seq<Seq<i64>>,
    r: TensorView,
    lo: int,
    hi: int,
)
    requires
        looked_up(weight, ids, r),
        ids.len() > 0,
        is_int_table(ids, ids.len(), ids[0].len()),
        0 <= lo < hi <= ids[0].len(),
    ensures
        looked_up(weight, part_of_rows(ids, lo, hi), part(r, lo, hi)),
{
    lemma_part(r, lo, hi);
    let (pi, pr) = (part_of_rows(ids, lo, hi), part(r, lo, hi));
    assert(pr.dims =~= seq![pi.len(), pi[0].len(), weight.dims[1]]);
    assert forall|idx: Seq<int>| in_bounds(pr.dims, idx) implies #[trigger] pr.at(idx)
        == weight.at(seq![pi[idx[0]][idx[1]] as int, idx[2]]) by {
        let moved = idx.update(1, idx[1] + lo);
        lemma_moved_in_bounds(r.dims, lo, hi, idx);
        assert(0 <= idx[0] < pr.dims[0] && 0 <= idx[1] < pr.dims[1]);
        assert(pi[idx[0]][idx[1]] == ids[moved[0]][moved[1]]);
    }
}

/// Every value vector of every layer is finite.
pub open spec fn values_are_finite(traces: Seq<LayerTrace>) -> bool {
    forall|l: int| 0 <= l < traces.len() ==> all_finite((#[trigger] traces[l]).v)
}

/// The steps of all layers at the positions from `lo` up to `hi`.
pub open spec fn part_of_traces(traces: Seq<LayerTrace>, lo: int, hi: int) -> Seq<LayerTrace> {
    traces.map_values(|t: LayerTrace| part_of_trace(t, lo, hi))
}

/// The states at the positions from `lo` up to `hi`.
pub open spec fn part_of_states(states: Seq<TensorView>, lo: int, hi: int) -> Seq<TensorView> {
    states.map_values(|t: TensorView| part(t, lo, hi))
}

/// The caches of all layers once they have seen the first `n` positions of the steps.
pub open spec fn caches_after(traces: Seq<LayerTrace>, n: int) -> Seq<KVCacheView> {
    traces.map_values(|t: LayerTrace| cache_of_first(t.k, t.v, n))
}

/// What comes later does not matter: the states that a forward pass gives at the first `n` tokens
/// are states of a forward pass on those tokens alone, with the padding cut to them, as long as
/// the value vectors are finite.
pub proof fn lemma_forward_is_causal(
    model: Qwen3Model,
    ids: Seq<Seq<i64>>,
    padding: Option<Seq<Seq<bool>>>,
    traces: Seq<LayerTrace>,
    states: Seq<TensorView>,
    n: int,
)
    requires
        model.wf(),
        are_tokens(ids, model.config.vocab_size as nat),
        padding_fits(padding, ids.len(), ids[0].len()),
        forward_traced(model, ids, padding, traces, states),
        values_are_finite(traces),
        0 < n <= ids[0].len(),
    ensures
        forward_traced(
            model,
            part_of_rows(ids, 0, n),
            part_of_padding(padding, n),
            part_of_traces(traces, 0, n),
            part_of_states(states, 0, n),
        ),
        model.forward_outcome(
            part_of_rows(ids, 0, n),
            part_of_padding(padding, n),
            part_of_states(states, 0, n),
        ),
{
    let layers = model.layers@;
    let s = ids[0].len();
    let positions = positions_from(0, ids.len(), s);
    let cut = part_of_padding(padding, n);
    let (pi, pt, ps) = (
        part_of_rows(ids, 0, n),
        part_of_traces(traces, 0, n),
        part_of_states(states, 0, n),
    );
    lemma_part_of_positions(ids.len(), s, 0, n);
    lemma_part_looked_up(model.embed_tokens.weight@, ids, states[0], 0, n);
    assert forall|l: int| 0 <= l < layers.len() implies (#[trigger] layers[l]).forward_with(
        ps[l],
        cut,
        positions_from(0, pi.len(), pi[0].len()),
        pt[l],
        ps[l + 1],
    ) by {
        lemma_states_shapes(model, ids, padding, traces, states, l);
        lemma_layer_prefix(
            layers[l],
            states[l],
            padding,
            positions,
            traces[l],
            states[l + 1],
            n,
        );
    }
    lemma_states_shapes(model, ids, padding, traces, states, layers.len() as int);
    lemma_part_normalized(
        model.norm.gamma@,
        model.norm.epsilon,
        states[layers.len() as int],
        states.last(),
        0,
        n,
    );
    assert(forward_traced(model, pi, cut, pt, ps));
    lemma_forward_has_traces(model, pi, cut, ps);
}

/// A pass with caches goes on where the one before it left off: what a forward pass on `ids` gives
/// at the tokens from `lo` up to `hi`, a pass on those tokens may give with caches that hold the
/// keys and values of the tokens before them, and those of the tokens up to `hi` are then in the
/// caches. With `lo` of zero it is the first pass, on empty caches. If tokens follow, the value
/// vectors must be finite.
pub proof fn lemma_model_behind_caches(
    model: Qwen3Model,
    ids: Seq<Seq<i64>>,
    padding: Option<Seq<Seq<bool>>>,
    traces: Seq<LayerTrace>,
    states: Seq<TensorView>,
    lo: int,
    hi: int,
)
    requires
        model.wf(),
        are_tokens(ids, model.config.vocab_size as nat),
        padding_fits(padding, ids.len(), ids[0].len()),
        forward_traced(model, ids, padding, traces, states),
        0 <= lo < hi <= ids[0].len(),
        hi == ids[0].len() || values_are_finite(traces),
    ensures
        model.cached_outcome(
            part_of_rows(ids, lo, hi),
            part_of_padding(padding, hi),
            positions_from(lo as nat, ids.len(), (hi - lo) as nat),
            caches_after(traces, lo),
            caches_after(traces, hi),
            part(states.last(), lo, hi),
        ),
{
    let layers = model.layers@;
    let positions = positions_from(0, ids.len(), ids[0].len());
    let cut = part_of_padding(padding, hi);
    let fed = positions_from(lo as nat, ids.len(), (hi - lo) as nat);
    let (before, after) = (caches_after(traces, lo), caches_after(traces, hi));
    let cached = part_of_states(states.drop_last(), lo, hi);
    lemma_part_of_positions(ids.len(), ids[0].len(), lo, hi);
    lemma_part_looked_up(model.embed_tokens.weight@, ids, states[0], lo, hi);
    assert forall|l: int| 0 <= l < layers.len() implies (#[trigger] layers[l]).cached_outcome(
        cached[l],
        cut,
        fed,
        before[l],
        after[l],
        cached[l + 1],
    ) by {
        lemma_states_shapes(model, ids, padding, traces, states, l);
        lemma_layer_behind_cache(
            layers[l],
            states[l],
            padding,
            positions,
            traces[l],
            states[l + 1],
            lo,
            hi,
        );
    }
    lemma_states_shapes(model, ids, padding, traces, states, layers.len() as int);
    lemma_part_normalized(
        model.norm.gamma@,
        model.norm.epsilon,
        states[layers.len() as int],
        states.last(),
        lo,
        hi,
    );
    assert(model.cached_states(part_of_rows(ids, lo, hi), cut, fed, before, after, cached));
    assert(cached.last() == part(states[layers.len() as int], lo, hi));
}

/// A part of a part is a part.
proof fn lemma_part_of_part(t: TensorView, n: int, lo: int, hi: int)
    requires
        t.wf(),
        t.dims.len() >= 2,
        0 <= lo < hi <= n <= t.dims[1],
    ensures
        part(part(t, 0, n), lo, hi) == part(t, lo, hi),
{
    lemma_part(t, 0, n);
    lemma_part(part(t, 0, n), lo, hi);
    lemma_part(t, lo, hi);
    let (p, a, b) = (part(t, 0, n), part(part(t, 0, n), lo, hi), part(t, lo, hi));
    assert(a.dims =~= b.dims);
    assert forall|idx: Seq<int>| in_bounds(a.dims, idx) implies #[trigger] a.at(idx) == b.at(
        idx,
    ) by {
        let moved = idx.update(1, idx[1] + lo);
        lemma_moved_in_bounds(p.dims, lo, hi, idx);
        assert(moved.update(1, moved[1] + 0) =~= moved);
        assert(a.at(idx) == p.at(moved));
        assert(p.at(moved) == t.at(moved));
        assert(b.at(idx) == t.at(moved));
    }
    lemma_same_elements(a, b);
}

/// Computing with caches gives the logits of a forward pass: if `logits` are those of a forward
/// pass on `ids`, then a pass on the tokens from `lo` up to `hi` may give the logits at those
/// tokens. It finds the caches as the passes on the tokens before have left them, and leaves them
/// as the passes on the tokens after find them, so the tokens can be fed in any portions. With `lo`
/// of zero the caches are empty. If tokens follow, the value vectors must be finite.
pub proof fn lemma_cache_agrees_with_forward(
    lm: Qwen3ForCausalLM,
    ids: Seq<Seq<i64>>,
    padding: Option<Seq<Seq<bool>>>,
    traces: Seq<LayerTrace>,
    states: Seq<TensorView>,
    logits: TensorView,
    lo: int,
    hi: int,
)
    requires
        lm.wf(),
        are_tokens(ids, lm.model.config.vocab_size as nat),
        padding_fits(padding, ids.len(), ids[0].len()),
        forward_traced(lm.model, ids, padding, traces, states),
        projected(lm.lm_head.weight@, states.last(), logits),
        0 <= lo < hi <= ids[0].len(),
        hi == ids[0].len() || values_are_finite(traces),
    ensures
        caches_after(traces, 0) == empty_caches(lm.model.layers@.len()),
        lm.cached_outcome(
            part_of_rows(ids, lo, hi),
            part_of_padding(padding, hi),
            positions_from(lo as nat, ids.len(), (hi - lo) as nat),
            caches_after(traces, lo),
            caches_after(traces, hi),
            part(logits, lo, hi),
        ),
{
    assert(caches_after(traces, 0) =~= empty_caches(lm.model.layers@.len()));
    lemma_states_shapes(
        lm.model,
        ids,
        padding,
        traces,
        states,
        lm.model.layers@.len() as int,
    );
    lemma_model_behind_caches(lm.model, ids, padding, traces, states, lo, hi);
    lemma_part_projected(lm.lm_head.weight@, states.last(), logits, lo, hi);
}

/// The caches of all layers once they have seen all positions of the steps.
pub open spec fn full_caches(traces: Seq<LayerTrace>) -> Seq<KVCacheView> {
    traces.map_values(|t: LayerTrace| KVCacheView { key: Some(t.k), value: Some(t.v) })
}

/// A forward pass is a pass with empty caches.
proof fn lemma_forward_is_prefill(
    model: Qwen3Model,
    ids: Seq<Seq<i64>>,
    padding: Option<Seq<Seq<bool>>>,
    states: Seq<TensorView>,
) -> (after: Seq<KVCacheView>)
    requires
        model.wf(),
        padding_fits(padding, ids.len(), ids[0].len()),
        model.forward_outcome(ids, padding, states),
    ensures
        model.cached_outcome(
            ids,
            padding,
            positions_from(0, ids.len(), ids[0].len()),
            empty_caches(model.layers@.len()),
            after,
            states.last(),
        ),
{
    let layers = model.layers@;
    let positions = positions_from(0, ids.len(), ids[0].len());
    lemma_forward_has_traces(model, ids, padding, states);
    let traces = choose|traces: Seq<LayerTrace>| #[trigger]
        forward_traced(model, ids, padding, traces, states);
    let before = empty_caches(layers.len());
    let after = full_caches(traces);
    let cached = states.drop_last();
    assert forall|l: int| 0 <= l < layers.len() implies (#[trigger] layers[l]).cached_outcome(
        cached[l],
        padding,
        positions,
        before[l],
        after[l],
        cached[l + 1],
    ) by {
        let t = traces[l];
        assert(layers[l].forward_with(states[l], padding, positions, t, states[l + 1]));
        lemma_states_shapes(model, ids, padding, traces, states, l);
        lemma_empty_cache_is_forward(
            layers[l].self_attn,
            t.normed,
            padding,
            positions,
            t.q,
            t.k,
            t.v,
            t.attended,
        );
        assert(layers[l].cached_with(
            states[l],
            padding,
            positions,
            before[l],
            after[l],
            t,
            states[l + 1],
        ));
    }
    assert(model.cached_states(ids, padding, positions, before, after, cached));
    after
}

/// A pass with empty caches is a forward pass, and leaves the keys and values in the caches.
pub(crate) proof fn lemma_prefill_is_forward(
    model: Qwen3Model,
    ids: Seq<Seq<i64>>,
    padding: Option<Seq<Seq<bool>>>,
    after: Seq<KVCacheView>,
    r: TensorView,
) -> (steps: (Seq<LayerTrace>, Seq<TensorView>))
    requires
        model.wf(),
        padding_fits(padding, ids.len(), ids[0].len()),
        model.cached_outcome(
            ids,
            padding,
            positions_from(0, ids.len(), ids[0].len()),
            empty_caches(model.layers@.len()),
            after,
            r,
        ),
    ensures
        forward_traced(model, ids, padding, steps.0, steps.1),
        after == full_caches(steps.0),
        steps.1.last() == r,
{
    let layers = model.layers@;
    let positions = positions_from(0, ids.len(), ids[0].len());
    let before = empty_caches(layers.len());
    let cached = choose|states: Seq<TensorView>|
        {
            &&& #[trigger] model.cached_states(ids, padding, positions, before, after, states)
            &&& normalized(model.norm.gamma@, model.norm.epsilon, states.last(), r)
        };
    let states = cached.push(r);
    let traces = Seq::new(
        layers.len(),
        |l: int|
            choose|t: LayerTrace| #[trigger]
                layers[l].cached_with(
                    cached[l],
                    padding,
                    positions,
                    before[l],
                    after[l],
                    t,
                    cached[l + 1],
                ),
    );
    assert forall|l: int| 0 <= l < layers.len() implies (#[trigger] layers[l]).forward_with(
        states[l],
        padding,
        positions,
        traces[l],
        states[l + 1],
    ) && after[l] == full_caches(traces)[l] by {
        let t = traces[l];
        assert(layers[l].cached_outcome(
            cached[l],
            padding,
            positions,
            before[l],
            after[l],
            cached[l + 1],
        ));
        assert(layers[l].cached_with(
            cached[l],
            padding,
            positions,
            before[l],
            after[l],
            t,
            cached[l + 1],
        ));
        assert(after[l] == (KVCacheView { key: Some(t.k), value: Some(t.v) }));
        lemma_cached_states_shapes(model, ids, padding, positions, before, after, cached, l);
        lemma_empty_cache_is_forward(
            layers[l].self_attn,
            t.normed,
            padding,
            positions,
            t.q,
            t.k,
            t.v,
            t.attended,
        );
    }
    assert forall|l: int| 0 <= l < after.len() implies #[trigger] after[l] == full_caches(
        traces,
    )[l] by {
        assert(layers[l].forward_with(states[l], padding, positions, traces[l], states[l + 1]));
    }
    assert(after =~= full_caches(traces));
    (traces, states)
}

/// On fresh caches the pass with caches is the forward pass: its result may be what the forward
/// pass may give last, which is the final normalized output, and nothing else.
pub proof fn lemma_fresh_caches_agree(
    model: Qwen3Model,
    ids: Seq<Seq<i64>>,
    padding: Option<Seq<Seq<bool>>>,
    r: TensorView,
)
    requires
        model.wf(),
        padding_fits(padding, ids.len(), ids[0].len()),
    ensures
        (exists|states: Seq<TensorView>| #[trigger]
            model.forward_outcome(ids, padding, states) && states.last() == r) <==> (exists|
            after: Seq<KVCacheView>,
        | #[trigger]
            model.cached_outcome(
                ids,
                padding,
                positions_from(0, ids.len(), ids[0].len()),
                empty_caches(model.layers@.len()),
                after,
                r,
            )),
{
    let positions = positions_from(0, ids.len(), ids[0].len());
    let empty = empty_caches(model.layers@.len());
    if exists|states: Seq<TensorView>| #[trigger]
        model.forward_outcome(ids, padding, states) && states.last() == r {
        let states = choose|states: Seq<TensorView>| #[trigger]
            model.forward_outcome(ids, padding, states) && states.last() == r;
        let after = lemma_forward_is_prefill(model, ids, padding, states);
        assert(model.cached_outcome(ids, padding, positions, empty, after, r));
    }
    if exists|after: Seq<KVCacheView>| #[trigger]
        model.cached_outcome(ids, padding, positions, empty, after, r) {
        let after = choose|after: Seq<KVCacheView>| #[trigger]
            model.cached_outcome(ids, padding, positions, empty, after, r);
        let (traces, states) = lemma_prefill_is_forward(model, ids, padding, after, r);
        lemma_forward_has_traces(model, ids, padding, states);
        assert(model.forward_outcome(ids, padding, states));
    }
}

/// On fresh caches the pass with caches may give the logits that the forward pass may give, and no
/// others.
pub proof fn lemma_fresh_logits_agree(
    lm: Qwen3ForCausalLM,
    ids: Seq<Seq<i64>>,
    padding: Option<Seq<Seq<bool>>>,
    logits: TensorView,
)
    requires
        lm.wf(),
        padding_fits(padding, ids.len(), ids[0].len()),
    ensures
        lm.forward_outcome(ids, padding, logits) <==> exists|after: Seq<KVCacheView>| #[trigger]
            lm.cached_outcome(
                ids,
                padding,
                positions_from(0, ids.len(), ids[0].len()),
                empty_caches(lm.model.layers@.len()),
                after,
                logits,
            ),
{
    let positions = positions_from(0, ids.len(), ids[0].len());
    let empty = empty_caches(lm.model.layers@.len());
    let w = lm.lm_head.weight@;
    if lm.forward_outcome(ids, padding, logits) {
        let states = choose|states: Seq<TensorView>|
            {
                &&& #[trigger] lm.model.forward_outcome(ids, padding, states)
                &&& projected(w, states.last(), logits)
            };
        let after = lemma_forward_is_prefill(lm.model, ids, padding, states);
        assert(lm.cached_outcome(ids, padding, positions, empty, after, logits));
    }
    if exists|after: Seq<KVCacheView>| #[trigger]
        lm.cached_outcome(ids, padding, positions, empty, after, logits) {
        let after = choose|after: Seq<KVCacheView>| #[trigger]
            lm.cached_outcome(ids, padding, positions, empty, after, logits);
        let state = choose|state: TensorView|
            {
                &&& #[trigger] lm.model.cached_outcome(
                    ids,
                    padding,
                    positions,
                    empty,
                    after,
                    state,
                )
                &&& projected(w, state, logits)
            };
        let (traces, states) = lemma_prefill_is_forward(lm.model, ids, padding, after, state);
        lemma_forward_has_traces(lm.model, ids, padding, states);
        assert(lm.model.forward_outcome(ids, padding, states));
    }
}

/// The first token is chosen alike with and without a cache: what `generate` may choose after the
/// sequences `ids` is what the first step of generation with a cache may choose.
pub proof fn lemma_first_step_agrees(
    lm: Qwen3ForCausalLM,
    ids: Seq<Seq<i64>>,
    temperature: Single,
    top_p: Single,
    top_k: nat,
    tokens: Seq<i64>,
)
    requires
        lm.wf(),
    ensures
        lm.step_outcome(ids, temperature, top_p, top_k, tokens) <==> exists|after: Seq<KVCacheView>|
         #[trigger]
            lm.cached_step(
                ids,
                0,
                temperature,
                top_p,
                top_k,
                empty_caches(lm.model.layers@.len()),
                after,
                tokens,
            ),
{
    let empty = empty_caches(lm.model.layers@.len());
    let positions = positions_from(0, ids.len(), ids[0].len());
    if lm.step_outcome(ids, temperature, top_p, top_k, tokens) {
        let logits = choose|logits: TensorView|
            {
                &&& #[trigger] lm.forward_outcome(ids, None, logits)
                &&& are_next(logits, temperature, top_p, top_k, tokens)
            };
        lemma_fresh_logits_agree(lm, ids, None, logits);
        let after = choose|after: Seq<KVCacheView>| #[trigger]
            lm.cached_outcome(ids, None, positions, empty, after, logits);
        assert(lm.cached_step(ids, 0, temperature, top_p, top_k, empty, after, tokens));
    }
    if exists|after: Seq<KVCacheView>| #[trigger]
        lm.cached_step(ids, 0, temperature, top_p, top_k, empty, after, tokens) {
        let after = choose|after: Seq<KVCacheView>| #[trigger]
            lm.cached_step(ids, 0, temperature, top_p, top_k, empty, after, tokens);
        let logits = choose|logits: TensorView|
            {
                &&& #[trigger] lm.cached_outcome(ids, None, positions, empty, after, logits)
                &&& are_next(logits, temperature, top_p, top_k, tokens)
            };
        lemma_fresh_logits_agree(lm, ids, None, logits);
    }
}

/// `rows` are the sequences `ids` followed by tokens each of which is a possible next token after
/// the logits, given in `logits`, of those before it.
pub open spec fn chosen_from(
    logits: TensorView,
    ids: Seq<Seq<i64>>,
    temperature: Single,
    top_p: Single,
    top_k: nat,
    rows: Seq<Seq<i64>>,
) -> bool {
    let seq = ids[0].len();
    &&& ids[0].len() <= rows[0].len()
    &&& first_tokens(rows, seq as int) == ids
    &&& forall|n: int|
        seq <= n < rows[0].len() ==> are_next(
            part(logits, 0, n),
            temperature,
            top_p,
            top_k,
            #[trigger] tokens_at(rows, n),
        )
}

/// The next tokens depend on the logits at the last position alone.
proof fn lemma_last_position_decides(
    logits: TensorView,
    lo: int,
    hi: int,
    temperature: Single,
    top_p: Single,
    top_k: nat,
    tokens: Seq<i64>,
)
    requires
        logits.wf(),
        logits.dims.len() == 3,
        0 <= lo < hi <= logits.dims[1],
        are_next(part(logits, 0, hi), temperature, top_p, top_k, tokens),
    ensures
        are_next(part(logits, lo, hi), temperature, top_p, top_k, tokens),
{
    lemma_part(logits, 0, hi);
    lemma_part(logits, lo, hi);
    let (a, b) = (part(logits, 0, hi), part(logits, lo, hi));
    assert forall|i: int| 0 <= i < logits.dims[0] implies #[trigger] last_logits(b, i)
        == last_logits(a, i) by {
        lemma_part_row(logits, 0, hi, seq![i, hi - 1]);
        lemma_part_row(logits, lo, hi, seq![i, hi - lo - 1]);
        assert(seq![i, hi - 1].update(1, hi - 1 + 0) =~= seq![i, hi - 1]);
        assert(seq![i, hi - lo - 1].update(1, hi - lo - 1 + lo) =~= seq![i, hi - 1]);
    }
    lemma_next_from_last(a, b, temperature, top_p, top_k, tokens);
}

/// The logits of a forward pass are `[batch, seq, vocab_size]`.
pub(crate) proof fn lemma_logits_shape(
    lm: Qwen3ForCausalLM,
    ids: Seq<Seq<i64>>,
    traces: Seq<LayerTrace>,
    states: Seq<TensorView>,
    logits: TensorView,
)
    requires
        lm.wf(),
        forward_traced(lm.model, ids, None, traces, states),
        projected(lm.lm_head.weight@, states.last(), logits),
    ensures
        logits.wf(),
        logits.dims.len() == 3,
        logits.dims[0] == ids.len(),
        logits.dims[1] == ids[0].len(),
{
    lemma_states_shapes(lm.model, ids, None, traces, states, lm.model.layers@.len() as int);
}

/// One forward pass tells what `generate` may return: if `logits` are those of a forward pass on
/// `rows`, and every token behind `ids` is chosen from the logits one position before it, then
/// `generate` may return `rows`. The value vectors must be finite.
pub proof fn lemma_forward_tells_generation(
    lm: Qwen3ForCausalLM,
    ids: Seq<Seq<i64>>,
    temperature: Single,
    top_p: Single,
    top_k: nat,
    rows: Seq<Seq<i64>>,
    traces: Seq<LayerTrace>,
    states: Seq<TensorView>,
    logits: TensorView,
)
    requires
        lm.wf(),
        are_tokens(ids, lm.model.config.vocab_size as nat),
        are_tokens(rows, lm.model.config.vocab_size as nat),
        forward_traced(lm.model, rows, None, traces, states),
        projected(lm.lm_head.weight@, states.last(), logits),
        values_are_finite(traces),
        chosen_from(logits, ids, temperature, top_p, top_k, rows),
    ensures
        lm.generated(
            ids,
            (rows[0].len() - ids[0].len()) as nat,
            temperature,
            top_p,
            top_k,
            rows,
        ),
{
    let seq = ids[0].len() as int;
    assert(first_tokens(rows, seq).len() == rows.len());
    lemma_logits_shape(lm, rows, traces, states, logits);
    assert forall|n: int| seq <= n < rows[0].len() implies lm.step_outcome(
        first_tokens(rows, n),
        temperature,
        top_p,
        top_k,
        #[trigger] tokens_at(rows, n),
    ) by {
        lemma_forward_is_causal(lm.model, rows, None, traces, states, n);
        lemma_states_shapes(lm.model, rows, None, traces, states, lm.model.layers@.len() as int);
        lemma_part_projected(lm.lm_head.weight@, states.last(), logits, 0, n);
        lemma_first_is_part(rows, n);
        let ps = part_of_states(states, 0, n);
        assert(ps.last() == part(states.last(), 0, n));
        assert(lm.model.forward_outcome(first_tokens(rows, n), None, ps));
        assert(lm.forward_outcome(first_tokens(rows, n), None, part(logits, 0, n)));
    }
}

/// The first tokens are a part of the tokens.
proof fn lemma_first_is_part(rows: Seq<Seq<i64>>, n: int)
    requires
        rows.len() > 0,
        is_int_table(rows, rows.len(), rows[0].len()),
        0 <= n <= rows[0].len(),
    ensures
        first_tokens(rows, n) == part_of_rows(rows, 0, n),
{
    let (a, b) = (first_tokens(rows, n), part_of_rows(rows, 0, n));
    assert forall|i: int| 0 <= i < rows.len() implies #[trigger] a[i] == b[i] by {
        assert(a[i] =~= b[i]);
    }
    assert(a =~= b);
}

/// A step of generation with a cache that follows the steps `done`, if a forward pass on `rows`
/// gives `logits`, from which the tokens are chosen.
proof fn lemma_step_of_forward(
    lm: Qwen3ForCausalLM,
    ids: Seq<Seq<i64>>,
    temperature: Single,
    top_p: Single,
    top_k: nat,
    rows: Seq<Seq<i64>>,
    traces: Seq<LayerTrace>,
    states: Seq<TensorView>,
    logits: TensorView,
    done: Seq<Seq<i64>>,
    i: int,
)
    requires
        lm.wf(),
        are_tokens(ids, lm.model.config.vocab_size as nat),
        are_tokens(rows, lm.model.config.vocab_size as nat),
        forward_traced(lm.model, rows, None, traces, states),
        projected(lm.lm_head.weight@, states.last(), logits),
        values_are_finite(traces),
        chosen_from(logits, ids, temperature, top_p, top_k, rows),
        done.len() == i,
        i > 0 ==> done.last() == tokens_at(rows, ids[0].len() + i - 1),
        0 <= i,
        ids[0].len() + i < rows[0].len(),
    ensures
        lm.cached_step(
            step_input(ids, done),
            step_start(ids, done),
            temperature,
            top_p,
            top_k,
            caches_after(traces, step_start(ids, done) as int),
            caches_after(traces, ids[0].len() + i),
            tokens_at(rows, ids[0].len() + i),
        ),
{
    let seq = ids[0].len() as int;
    let lo = step_start(ids, done) as int;
    let hi = seq + i;
    let input = step_input(ids, done);
    let fed = part_of_rows(rows, lo, hi);
    assert(first_tokens(rows, seq).len() == rows.len());
    lemma_logits_shape(lm, rows, traces, states, logits);
    if i == 0 {
        lemma_first_is_part(rows, seq);
    } else {
        assert forall|b: int| 0 <= b < rows.len() implies #[trigger] input[b] == fed[b] by {
            assert(input[b] =~= fed[b]);
        }
        assert(input =~= fed);
    }
    assert(input == fed);
    let tokens = tokens_at(rows, hi);
    lemma_cache_agrees_with_forward(lm, rows, None, traces, states, logits, lo, hi);
    lemma_last_position_decides(logits, lo, hi, temperature, top_p, top_k, tokens);
    assert(lm.cached_outcome(
        input,
        None,
        positions_from(lo as nat, input.len(), input[0].len()),
        caches_after(traces, lo),
        caches_after(traces, hi),
        part(logits, lo, hi),
    ));
}

/// One forward pass tells what generation with a cache may return: if `logits` are those of a
/// forward pass on `rows`, and every token behind `ids` is chosen from the logits one position
/// before it, then generation with a cache may return `rows` up to the first end token of the
/// first sequence. So the cache changes the cost and not the tokens: without end tokens it may
/// return all of `rows`, as `generate` may. The value vectors must be finite.
pub proof fn lemma_forward_tells_generation_with_cache(
    lm: Qwen3ForCausalLM,
    ids: Seq<Seq<i64>>,
    max_new_tokens: nat,
    temperature: Single,
    top_p: Single,
    top_k: nat,
    eos: Seq<i64>,
    rows: Seq<Seq<i64>>,
    traces: Seq<LayerTrace>,
    states: Seq<TensorView>,
    logits: TensorView,
    end: int,
)
    requires
        lm.wf(),
        are_tokens(ids, lm.model.config.vocab_size as nat),
        are_tokens(rows, lm.model.config.vocab_size as nat),
        forward_traced(lm.model, rows, None, traces, states),
        projected(lm.lm_head.weight@, states.last(), logits),
        values_are_finite(traces),
        chosen_from(logits, ids, temperature, top_p, top_k, rows),
        rows[0].len() == ids[0].len() + max_new_tokens,
        ids[0].len() <= end <= rows[0].len(),
        forall|n: int| ids[0].len() <= n < end ==> !eos.contains(#[trigger] rows[0][n]),
        end < rows[0].len() ==> eos.contains(rows[0][end]),
    ensures
        lm.generated_with_cache(
            ids,
            max_new_tokens,
            temperature,
            top_p,
            top_k,
            eos,
            first_tokens(rows, end),
        ),
        end == rows[0].len() ==> first_tokens(rows, end) == rows,
{
    let seq = ids[0].len() as int;
    let ended = end < rows[0].len();
    let count = if ended {
        (end - seq + 1) as nat
    } else {
        max_new_tokens
    };
    let columns = Seq::new(count, |i: int| tokens_at(rows, seq + i));
    let caches = Seq::new(
        count + 1,
        |i: int|
            caches_after(
                traces,
                if i == 0 {
                    0
                } else {
                    seq + i - 1
                },
            ),
    );
    assert(first_tokens(rows, seq).len() == rows.len());
    assert(caches[0] =~= empty_caches(lm.model.layers@.len()));
    lemma_logits_shape(lm, rows, traces, states, logits);
    assert forall|i: int| 0 <= i < columns.len() implies lm.cached_step(
        step_input(ids, columns.take(i)),
        step_start(ids, columns.take(i)),
        temperature,
        top_p,
        top_k,
        caches[i],
        caches[i + 1],
        #[trigger] columns[i],
    ) by {
        lemma_step_of_forward(
            lm,
            ids,
            temperature,
            top_p,
            top_k,
            rows,
            traces,
            states,
            logits,
            columns.take(i),
            i,
        );
        assert(columns[i] == tokens_at(rows, seq + i));
    }
    assert(lm.cached_run(ids, temperature, top_p, top_k, caches, columns));
    let kept = (end - seq) as nat;
    let all = appended(ids, columns, kept);
    assert forall|b: int| 0 <= b < rows.len() implies #[trigger] all[b] == first_tokens(
        rows,
        end,
    )[b] by {
        assert(ids[b] == rows[b].take(seq)) by {
            assert(first_tokens(rows, seq)[b] == rows[b].take(seq));
        }
        assert(all[b] =~= rows[b].take(end));
    }
    assert(all =~= first_tokens(rows, end));
    assert forall|i: int| 0 <= i < kept implies !eos.contains(#[trigger] columns[i][0]) by {
        assert(columns[i][0] == rows[0][seq + i]);
    }
    if ended {
        assert(columns.last()[0] == rows[0][end]);
    } else if count > 0 {
        assert(columns.last()[0] == rows[0][end - 1]);
    }
    assert(lm.generated_with(
        ids,
        max_new_tokens,
        temperature,
        top_p,
        top_k,
        eos,
        caches,
        columns,
        first_tokens(rows, end),
    ));
    if !ended {
        assert forall|b: int| 0 <= b < rows.len() implies #[trigger] first_tokens(rows, end)[b]
            == rows[b] by {
            assert(rows[b].take(end) =~= rows[b]);
        }
        assert(first_tokens(rows, end) =~= rows);
    }
}

/// The cached keys, if there are any, are `[batch, seq, heads, head_dim]`.
pub open spec fn has_four_axes(cache: KVCacheView) -> bool {
    cache.key matches Some(k) ==> k.dims.len() == 4
}

/// A layer keeps the shape of the states, and its cache grows by as many positions as there are
/// states.
proof fn lemma_cached_layer_shapes(
    layer: Qwen3DecoderLayer,
    x: TensorView,
    padding: Option<Seq<Seq<bool>>>,
    positions: Seq<Seq<i64>>,
    before: KVCacheView,
    after: KVCacheView,
    r: TensorView,
)
    requires
        layer.wf(),
        x.dims.len() == 3,
        x.dims[2] == layer.hidden_size(),
        layer.cached_outcome(x, padding, positions, before, after, r),
        has_four_axes(before),
    ensures
        r.dims == x.dims,
        has_four_axes(after),
        after.past_len() == before.past_len() + x.dims[1],
{
    let attn = layer.self_attn;
    let t = choose|t: LayerTrace| #[trigger]
        layer.cached_with(x, padding, positions, before, after, t, r);
    lemma_heads_shapes(attn, t.normed, positions, t.q, t.k, t.v);
    let keys = after.key->0;
    let mask = cached_mask(padding, x.dims[1], keys.dims[1]);
    let mixed = choose|mixed: TensorView|
        {
            &&& #[trigger] grouped_attention(
                t.q,
                keys,
                after.value->0,
                attn.group(),
                mask,
                mixed,
            )
            &&& projected(attn.o_proj.weight@, mixed, t.attended)
        };
    assert(t.attended.dims =~= x.dims);
    let mid = choose|mid: TensorView| #[trigger]
        sums(x, t.attended, mid) && layer.feed_forward_outcome(mid, r);
    assert(mid.dims =~= x.dims);
    let norm = layer.post_attention_layernorm;
    let (normed, m) = choose|normed: TensorView, m: TensorView|
        {
            &&& normalized(norm.gamma@, norm.epsilon, mid, normed)
            &&& #[trigger] layer.mlp.outcome(normed, m)
            &&& sums(mid, m, r)
        };
    let inner = choose|inner: TensorView|
        {
            &&& #[trigger] gated(
                layer.mlp.gate_proj.weight@,
                layer.mlp.up_proj.weight@,
                normed,
                inner,
            )
            &&& projected(layer.mlp.down_proj.weight@, inner, m)
        };
    assert(m.dims =~= x.dims);
    assert(r.dims =~= x.dims);
}

/// The states of a pass with caches keep their shape from layer to layer.
proof fn lemma_cached_states_shapes(
    model: Qwen3Model,
    ids: Seq<Seq<i64>>,
    padding: Option<Seq<Seq<bool>>>,
    positions: Seq<Seq<i64>>,
    before: Seq<KVCacheView>,
    after: Seq<KVCacheView>,
    states: Seq<TensorView>,
    l: int,
)
    requires
        model.wf(),
        model.cached_states(ids, padding, positions, before, after, states),
        forall|i: int| 0 <= i < before.len() ==> has_four_axes(#[trigger] before[i]),
        0 <= l < states.len(),
    ensures
        states[l].dims == seq![ids.len(), ids[0].len(), model.config.hidden_size as nat],
    decreases l,
{
    if l > 0 {
        lemma_cached_states_shapes(model, ids, padding, positions, before, after, states, l - 1);
        let layer = model.layers@[l - 1];
        assert(layer.wf());
        lemma_cached_layer_shapes(
            layer,
            states[l - 1],
            padding,
            positions,
            before[l - 1],
            after[l - 1],
            states[l],
        );
    }
}

/// A step with caches adds the positions that it feeds to the cache of every layer, and chooses
/// tokens of the vocabulary.
pub proof fn lemma_step_grows_caches(
    lm: Qwen3ForCausalLM,
    input: Seq<Seq<i64>>,
    start: nat,
    temperature: Single,
    top_p: Single,
    top_k: nat,
    before: Seq<KVCacheView>,
    after: Seq<KVCacheView>,
    tokens: Seq<i64>,
)
    requires
        lm.wf(),
        before.len() == lm.model.layers@.len(),
        forall|l: int| 0 <= l < before.len() ==> has_four_axes(#[trigger] before[l]),
        lm.cached_step(input, start, temperature, top_p, top_k, before, after, tokens),
    ensures
        after.len() == before.len(),
        forall|l: int| 0 <= l < after.len() ==> has_four_axes(#[trigger] after[l]),
        forall|l: int|
            0 <= l < after.len() ==> (#[trigger] after[l]).past_len() == before[l].past_len()
                + input[0].len(),
        tokens.len() == input.len(),
        forall|b: int|
            0 <= b < tokens.len() ==> 0 <= #[trigger] tokens[b] < lm.model.config.vocab_size,
{
    let positions = positions_from(start, input.len(), input[0].len());
    let logits = choose|logits: TensorView|
        {
            &&& #[trigger] lm.cached_outcome(input, None, positions, before, after, logits)
            &&& are_next(logits, temperature, top_p, top_k, tokens)
        };
    let state = choose|state: TensorView|
        {
            &&& #[trigger] lm.model.cached_outcome(input, None, positions, before, after, state)
            &&& projected(lm.lm_head.weight@, state, logits)
        };
    let states = choose|states: Seq<TensorView>|
        {
            &&& #[trigger] lm.model.cached_states(input, None, positions, before, after, states)
            &&& normalized(lm.model.norm.gamma@, lm.model.norm.epsilon, states.last(), state)
        };
    assert forall|l: int| 0 <= l < after.len() implies has_four_axes(#[trigger] after[l])
        && after[l].past_len() == before[l].past_len() + input[0].len() by {
        lemma_cached_states_shapes(
            lm.model,
            input,
            None,
            positions,
            before,
            after,
            states,
            l,
        );
        let layer = lm.model.layers@[l];
        assert(layer.wf());
        lemma_cached_layer_shapes(
            layer,
            states[l],
            None,
            positions,
            before[l],
            after[l],
            states[l + 1],
        );
    }
    lemma_cached_states_shapes(
        lm.model,
        input,
        None,
        positions,
        before,
        after,
        states,
        states.len() - 1,
    );
    lemma_next_in_vocabulary(logits, temperature, top_p, top_k, tokens);
}

/// The caches keep pace with the tokens: before every step of generation the cache of every layer
/// holds as many positions as the position at which the step goes on.
pub proof fn lemma_caches_keep_pace(
    lm: Qwen3ForCausalLM,
    ids: Seq<Seq<i64>>,
    temperature: Single,
    top_p: Single,
    top_k: nat,
    caches: Seq<Seq<KVCacheView>>,
    columns: Seq<Seq<i64>>,
    i: int,
)
    requires
        lm.wf(),
        ids.len() > 0,
        lm.cached_run(ids, temperature, top_p, top_k, caches, columns),
        0 <= i <= columns.len(),
    ensures
        caches[i].len() == lm.model.layers@.len(),
        forall|l: int| 0 <= l < caches[i].len() ==> has_four_axes(#[trigger] caches[i][l]),
        forall|l: int|
            0 <= l < caches[i].len() ==> (#[trigger] caches[i][l]).past_len() == step_start(
                ids,
                columns.take(i),
            ),
        i > 0 ==> columns[i - 1].len() == ids.len() && forall|b: int|
            0 <= b < ids.len() ==> 0 <= #[trigger] columns[i - 1][b] < lm.model.config.vocab_size,
    decreases i,
{
    if i > 0 {
        lemma_caches_keep_pace(lm, ids, temperature, top_p, top_k, caches, columns, i - 1);
        let done = columns.take(i - 1);
        let input = step_input(ids, done);
        lemma_step_grows_caches(
            lm,
            input,
            step_start(ids, done),
            temperature,
            top_p,
            top_k,
            caches[i - 1],
            caches[i],
            columns[i - 1],
        );
        if i > 1 {
            assert(done.last() == columns[i - 2]);
            assert(input[0] == seq![columns[i - 2][0]]);
        }
        assert forall|l: int| 0 <= l < caches[i].len() implies (
        #[trigger] caches[i][l]).past_len() == step_start(ids, columns.take(i)) by {
            assert(caches[i - 1][l].past_len() == step_start(ids, done));
        }
    } else {
        assert(columns.take(0).len() == 0);
    }
}

} // verus!
