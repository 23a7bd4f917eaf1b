//! Grouped query attention.
use vstd::prelude::*;

use crate::cache::{KVCache, KVCacheView};
use crate::mask::{
    build_cached_mask, build_prefill_mask, cached_mask, is_mask, mask_view, padding_fits,
    prefill_mask, table_view, AttentionMask,
};
use crate::nn;
use crate::nn::{
    attended, column_of, dot_outcome, head_column, head_rows, hidden_keys,
    int_rows, is_int_table, masked_outcome, normalized, projected, Linear, RmsNorm,
};
use crate::num::Double;
use crate::ops;
use crate::rope::{
    apply_rope, compute_rope_embeddings, lemma_tables_by_entry, rotated, turn_tables,
};
use crate::tensor::{
    in_bounds, ix3, ix4, last_axis, lemma_offset3, lemma_offset4, lemma_offset5, middle_swapped,
    nats, FloatTensor, TensorView,
};

verus! {

/// Grouped query attention: groups of query heads share a head of keys and values.
pub struct Qwen3Attention {
    pub num_heads: usize,
    pub num_kv_heads: usize,
    pub head_dim: usize,
    pub rope_theta: Double,
    pub q_proj: Linear,
    pub k_proj: Linear,
    pub v_proj: Linear,
    pub o_proj: Linear,
    pub q_norm: RmsNorm,
    pub k_norm: RmsNorm,
}

/// `r` is `t` with every head repeated `times` times in place.
pub open spec fn heads_repeated(t: TensorView, times: nat, r: TensorView) -> bool {
    &&& r.wf()
    &&& r.dims == seq![t.dims[0], t.dims[1], t.dims[2] * times, t.dims[3]]
    &&& forall|idx: Seq<int>| in_bounds(r.dims, idx) ==> #[trigger] r.at(idx) == t.at(
        ix4(idx[0], idx[1], idx[2] / (times as int), idx[3]),
    )
}

/// The elements of a tensor `[batch, seq, heads, head_dim]` repeated head by head.
fn repeat_heads(t: &FloatTensor, times: usize) -> (r: FloatTensor)
    requires
        t@.wf(),
        t@.dims.len() == 4,
        times > 0,
        t@.dims[2] * times <= usize::MAX,
    ensures
        heads_repeated(t@, times as nat, r@),
{
    if times == 1 {
        proof {
            assert(seq![t@.dims[0], t@.dims[1], t@.dims[2] * 1, t@.dims[3]] =~= t@.dims);
            assert forall|idx: Seq<int>| in_bounds(t@.dims, idx) implies #[trigger] t@.at(idx)
                == t@.at(ix4(idx[0], idx[1], idx[2] / 1, idx[3])) by {
                assert(ix4(idx[0], idx[1], idx[2] / 1, idx[3]) =~= idx);
            }
        }
        return t.clone();
    }
    let d = t.dims();
    let (batch, seq, heads, head_dim): (usize, usize, usize, usize) = (d[0], d[1], d[2], d[3]);
    proof {
        lemma_offset4(t@.dims, ix4(0, 0, 0, 0));
        let n = nats([batch, seq, heads, 1, head_dim]@);
        lemma_offset5(n, seq![0int, 0int, 0int, 0int, 0int]);
        assert(batch as int * seq as int * heads as int * 1 * head_dim as int == batch as int * seq
            as int * heads as int * head_dim as int);
    }
    let apart = ops::reshape::<4, 5>(t, [batch, seq, heads, 1, head_dim]);
    let wide = ops::repeat_dim::<5>(&apart, 3, times);
    let ghost b = batch as int;
    let ghost s = seq as int;
    let ghost k = heads as int;
    let ghost n = times as int;
    let ghost e = head_dim as int;
    proof {
        assert(apart@.dims =~= seq![b as nat, s as nat, k as nat, 1nat, e as nat]);
        assert(1 * n == n) by (nonlinear_arith);
        assert(wide@.dims =~= seq![b as nat, s as nat, k as nat, n as nat, e as nat]);
        lemma_offset5(wide@.dims, seq![0int, 0int, 0int, 0int, 0int]);
        let m = nats([batch, seq, (heads * times) as usize, head_dim]@);
        lemma_offset4(m, ix4(0, 0, 0, 0));
        assert(b * s * k * n * e == b * s * (k * n) * e) by (nonlinear_arith);
        assert(k * n > 0) by (nonlinear_arith)
            requires
                k > 0,
                n > 0,
        ;
    }
    let r = ops::reshape::<5, 4>(&wide, [batch, seq, heads * times, head_dim]);
    proof {
        assert(r@.dims =~= seq![b as nat, s as nat, (k * n) as nat, e as nat]);
        assert forall|idx: Seq<int>| in_bounds(r@.dims, idx) implies #[trigger] r@.at(idx)
            == t@.at(ix4(idx[0], idx[1], idx[2] / n, idx[3])) by {
            let (i0, i1, i2, i3) = (idx[0], idx[1], idx[2], idx[3]);
            let g = i2 / n;
            let m = i2 % n;
            assert(0 <= g < k && 0 <= m < n && i2 == g * n + m) by (nonlinear_arith)
                requires
                    0 <= i2 < k * n,
                    n > 0,
                    g == i2 / n,
                    m == i2 % n,
            ;
            let five = seq![i0, i1, g, m, i3];
            assert(in_bounds(wide@.dims, five));
            lemma_offset5(wide@.dims, five);
            lemma_offset4(r@.dims, idx);
            assert((i0 * s + i1) * (k * n) + i2 == ((i0 * s + i1) * k + g) * n + m)
                by (nonlinear_arith)
                requires
                    i2 == g * n + m,
            ;
            assert(r@.at(idx) == wide@.at(five));
            let narrow = seq![i0, i1, g, 0int, i3];
            assert(five.update(3, m % 1) =~= narrow);
            assert(wide@.at(five) == apart@.at(narrow));
            lemma_offset5(apart@.dims, narrow);
            lemma_offset4(t@.dims, ix4(i0, i1, g, i3));
            assert(((i0 * s + i1) * k + g) * 1 + 0 == (i0 * s + i1) * k + g);
        }
    }
    r
}

/// `r` is the projection of every row of `x`, cut into `heads` heads of `head_dim`: entry `d` of
/// head `h` comes of column `h * head_dim + d` of the weights.
pub open spec fn projected_heads(
    weight: TensorView,
    x: TensorView,
    heads: nat,
    head_dim: nat,
    r: TensorView,
) -> bool {
    &&& r.wf()
    &&& r.dims == seq![x.dims[0], x.dims[1], heads, head_dim]
    &&& forall|idx: Seq<int>| in_bounds(r.dims, idx) ==> dot_outcome(
        last_axis(x, seq![idx[0], idx[1]]),
        column_of(weight, idx[2] * head_dim + idx[3]),
        #[trigger] r.at(idx),
    )
}

/// The vectors of head `head` of sequence `batch` in `[batch, seq, heads, head_dim]`, one for every
/// position.
pub open spec fn cached_rows(t: TensorView, batch: int, head: int) -> Seq<Seq<u32>> {
    Seq::new(t.dims[1], |j: int| last_axis(t, ix3(batch, j, head)))
}

/// Entry `i` of those vectors.
pub open spec fn cached_column(t: TensorView, batch: int, head: int, i: int) -> Seq<u32> {
    Seq::new(t.dims[1], |j: int| t.at(ix4(batch, j, head, i)))
}

/// `mixed`, which is `[batch, seq, heads * head_dim]`, holds for every query of every head the
/// mean of the values weighted by how well the keys match it. Groups of `group` query heads share
/// a head of keys and values: query head `h` reads head `h / group`.
pub open spec fn grouped_attention(
    q: TensorView,
    keys: TensorView,
    values: TensorView,
    group: nat,
    mask: Option<Seq<Seq<Seq<bool>>>>,
    mixed: TensorView,
) -> bool {
    let head_dim = q.dims[3] as int;
    &&& mixed.wf()
    &&& mixed.dims == seq![q.dims[0], q.dims[1], q.dims[2] * q.dims[3]]
    &&& forall|idx: Seq<int>| in_bounds(mixed.dims, idx) ==> masked_outcome(
        last_axis(q, ix3(idx[0], idx[1], idx[2] / head_dim)),
        cached_rows(keys, idx[0], (idx[2] / head_dim) / (group as int)),
        cached_column(
            values,
            idx[0],
            (idx[2] / head_dim) / (group as int),
            idx[2] % head_dim,
        ),
        hidden_keys(mask, idx[0], idx[1], keys.dims[1]),
        #[trigger] mixed.at(idx),
    )
}

/// The steps from hidden states to queries and keys.
pub struct HeadsTrace {
    pub q: TensorView,
    pub k: TensorView,
    pub q_normed: TensorView,
    pub k_normed: TensorView,
    pub cos: TensorView,
    pub sin: TensorView,
}

/// A reshaped projection holds the heads one after the other.
proof fn lemma_projected_heads(
    weight: TensorView,
    x: TensorView,
    flat: TensorView,
    heads: nat,
    head_dim: nat,
)
    requires
        x.dims.len() == 3,
        projected(weight, x, flat),
        weight.dims[1] == heads * head_dim,
        heads > 0,
        head_dim > 0,
        heads * head_dim <= usize::MAX,
        0 < x.dims[0] <= usize::MAX,
        0 < x.dims[1] <= usize::MAX,
    ensures
        projected_heads(
            weight,
            x,
            heads,
            head_dim,
            flat.reshaped(seq![x.dims[0], x.dims[1], heads, head_dim]),
        ),
{
    let b = x.dims[0] as int;
    let s = x.dims[1] as int;
    let h = heads as int;
    let e = head_dim as int;
    let r = flat.reshaped(seq![x.dims[0], x.dims[1], heads, head_dim]);
    assert(heads <= usize::MAX && head_dim <= usize::MAX) by (nonlinear_arith)
        requires
            heads * head_dim <= usize::MAX,
            heads > 0,
            head_dim > 0,
    ;
    assert(flat.dims =~= seq![x.dims[0], x.dims[1], heads * head_dim]);
    lemma_offset3(flat.dims, ix3(0, 0, 0));
    lemma_offset4(r.dims, ix4(0, 0, 0, 0));
    assert(b * s * (h * e) == b * s * h * e) by (nonlinear_arith);
    assert forall|idx: Seq<int>| in_bounds(r.dims, idx) implies dot_outcome(
        last_axis(x, seq![idx[0], idx[1]]),
        column_of(weight, idx[2] * e + idx[3]),
        #[trigger] r.at(idx),
    ) by {
        let (i0, i1, i2, i3) = (idx[0], idx[1], idx[2], idx[3]);
        let j = ix3(i0, i1, i2 * e + i3);
        assert(0 <= i2 * e + i3 < h * e) by (nonlinear_arith)
            requires
                0 <= i2 < h,
                0 <= i3 < e,
        ;
        assert(in_bounds(flat.dims, j));
        lemma_offset3(flat.dims, j);
        lemma_offset4(r.dims, idx);
        assert((i0 * s + i1) * (h * e) + (i2 * e + i3) == ((i0 * s + i1) * h + i2) * e + i3)
            by (nonlinear_arith);
        assert(r.at(idx) == flat.at(j));
        assert(j.drop_last() =~= seq![i0, i1]);
    }
}

/// Attention on repeated and transposed heads is grouped attention.
proof fn lemma_grouped_attention(
    q: TensorView,
    keys: TensorView,
    values: TensorView,
    group: nat,
    mask: Option<Seq<Seq<Seq<bool>>>>,
    wide_keys: TensorView,
    wide_values: TensorView,
    qt: TensorView,
    kt: TensorView,
    vt: TensorView,
    out: TensorView,
    back: TensorView,
)
    requires
        q.wf(),
        keys.wf(),
        values.wf(),
        q.dims.len() == 4,
        group > 0,
        keys.dims.len() == 4,
        q.dims == seq![keys.dims[0], q.dims[1], keys.dims[2] * group, keys.dims[3]],
        values.dims == keys.dims,
        q.dims[2] * q.dims[3] <= usize::MAX,
        heads_repeated(keys, group, wide_keys),
        heads_repeated(values, group, wide_values),
        middle_swapped(q, qt),
        middle_swapped(wide_keys, kt),
        middle_swapped(wide_values, vt),
        attended(qt, kt, vt, mask, out),
        middle_swapped(out, back),
    ensures
        grouped_attention(
            q,
            keys,
            values,
            group,
            mask,
            back.reshaped(seq![q.dims[0], q.dims[1], q.dims[2] * q.dims[3]]),
        ),
{
    let b = q.dims[0] as int;
    let s = q.dims[1] as int;
    let h = q.dims[2] as int;
    let e = q.dims[3] as int;
    let g = group as int;
    let mixed = back.reshaped(seq![q.dims[0], q.dims[1], q.dims[2] * q.dims[3]]);
    assert(back.dims =~= q.dims);
    lemma_offset3(mixed.dims, ix3(0, 0, 0));
    lemma_offset4(back.dims, ix4(0, 0, 0, 0));
    assert(b * s * (h * e) == b * s * h * e) by (nonlinear_arith);
    assert(h * e > 0) by (nonlinear_arith)
        requires
            h > 0,
            e > 0,
    ;
    assert forall|idx: Seq<int>| in_bounds(mixed.dims, idx) implies masked_outcome(
        last_axis(q, ix3(idx[0], idx[1], idx[2] / e)),
        cached_rows(keys, idx[0], (idx[2] / e) / g),
        cached_column(values, idx[0], (idx[2] / e) / g, idx[2] % e),
        hidden_keys(mask, idx[0], idx[1], keys.dims[1]),
        #[trigger] mixed.at(idx),
    ) by {
        let (i0, i1, i2) = (idx[0], idx[1], idx[2]);
        let hd = i2 / e;
        let d = i2 % e;
        let kv = hd / g;
        assert(0 <= hd < h && 0 <= d < e && i2 == hd * e + d) by (nonlinear_arith)
            requires
                0 <= i2 < h * e,
                e > 0,
                hd == i2 / e,
                d == i2 % e,
        ;
        let j = ix4(i0, i1, hd, d);
        let jt = ix4(i0, hd, i1, d);
        assert(in_bounds(back.dims, j));
        lemma_offset3(mixed.dims, idx);
        lemma_offset4(back.dims, j);
        assert((i0 * s + i1) * (h * e) + (hd * e + d) == ((i0 * s + i1) * h + hd) * e + d)
            by (nonlinear_arith);
        assert(mixed.at(idx) == back.at(j));
        assert(seq![j[0], j[2], j[1], j[3]] =~= jt);
        assert(back.at(j) == out.at(jt));
        assert(in_bounds(out.dims, jt));
        assert(jt.drop_last() =~= ix3(i0, hd, i1));
        assert(last_axis(qt, jt.drop_last()) =~= last_axis(q, ix3(i0, i1, hd))) by {
            assert forall|i: int| 0 <= i < e implies qt.at(jt.drop_last().push(i)) == q.at(
                ix3(i0, i1, hd).push(i),
            ) by {
                let a = jt.drop_last().push(i);
                assert(a =~= ix4(i0, hd, i1, i));
                assert(in_bounds(qt.dims, a));
                assert(seq![a[0], a[2], a[1], a[3]] =~= ix3(i0, i1, hd).push(i));
            }
        }
        assert(0 <= kv < keys.dims[2]) by (nonlinear_arith)
            requires
                0 <= hd < keys.dims[2] * g,
                g > 0,
                kv == hd / g,
        ;
        assert(head_rows(kt, i0, hd) =~= cached_rows(keys, i0, kv)) by {
            assert forall|t: int| 0 <= t < keys.dims[1] implies last_axis(kt, ix3(i0, hd, t))
                == #[trigger] last_axis(keys, ix3(i0, t, kv)) by {
                assert forall|i: int| 0 <= i < e implies kt.at(ix3(i0, hd, t).push(i)) == keys.at(
                    ix3(i0, t, kv).push(i),
                ) by {
                    let a = ix3(i0, hd, t).push(i);
                    assert(a =~= ix4(i0, hd, t, i));
                    assert(in_bounds(kt.dims, a));
                    let w = ix4(i0, t, hd, i);
                    assert(seq![a[0], a[2], a[1], a[3]] =~= w);
                    assert(in_bounds(wide_keys.dims, w));
                    assert(ix4(w[0], w[1], w[2] / g, w[3]) =~= ix3(i0, t, kv).push(i));
                }
                assert(last_axis(kt, ix3(i0, hd, t)) =~= last_axis(keys, ix3(i0, t, kv)));
            }
        }
        assert(head_column(vt, i0, hd, d) =~= cached_column(values, i0, kv, d)) by {
            assert forall|t: int| 0 <= t < keys.dims[1] implies #[trigger] vt.at(
                ix4(i0, hd, t, d),
            ) == values.at(ix4(i0, t, kv, d)) by {
                let a = ix4(i0, hd, t, d);
                assert(in_bounds(vt.dims, a));
                let w = ix4(i0, t, hd, d);
                assert(seq![a[0], a[2], a[1], a[3]] =~= w);
                assert(in_bounds(wide_values.dims, w));
                assert(ix4(w[0], w[1], w[2] / g, w[3]) =~= ix4(i0, t, kv, d));
            }
        }
        assert(out.at(jt) == mixed.at(idx));
    }
}

impl Qwen3Attention {
    /// The length of a hidden state.
    pub open spec fn hidden_size(self) -> nat {
        self.q_proj.weight@.dims[0]
    }

    /// The number of query heads that share a head of keys and values.
    pub open spec fn group(self) -> nat {
        (self.num_heads / self.num_kv_heads) as nat
    }

    /// The heads come in whole groups, they can be cut in halves, and the weights fit them.
    pub open spec fn wf(self) -> bool {
        &&& self.num_kv_heads > 0
        &&& self.num_heads > 0
        &&& self.num_heads % self.num_kv_heads == 0
        &&& 2 <= self.head_dim <= i64::MAX
        &&& self.head_dim % 2 == 0
        &&& self.num_heads * self.head_dim <= usize::MAX
        &&& self.q_proj.wf(self.hidden_size(), (self.num_heads * self.head_dim) as nat)
        &&& self.k_proj.wf(self.hidden_size(), (self.num_kv_heads * self.head_dim) as nat)
        &&& self.v_proj.wf(self.hidden_size(), (self.num_kv_heads * self.head_dim) as nat)
        &&& self.o_proj.wf((self.num_heads * self.head_dim) as nat, self.hidden_size())
        &&& self.q_norm.wf(self.head_dim as nat)
        &&& self.k_norm.wf(self.head_dim as nat)
    }

    /// `q`, `k` and `v` are the queries, keys and values of the hidden states `x` at `positions`,
    /// by the steps `t`: queries and keys are normalized head by head and then turned.
    pub open spec fn heads_with(
        self,
        x: TensorView,
        positions: Seq<Seq<i64>>,
        t: HeadsTrace,
        q: TensorView,
        k: TensorView,
        v: TensorView,
    ) -> bool {
        let heads = self.num_heads as nat;
        let kv_heads = self.num_kv_heads as nat;
        let head_dim = self.head_dim as nat;
        &&& projected_heads(self.q_proj.weight@, x, heads, head_dim, t.q)
        &&& projected_heads(self.k_proj.weight@, x, kv_heads, head_dim, t.k)
        &&& projected_heads(self.v_proj.weight@, x, kv_heads, head_dim, v)
        &&& normalized(self.q_norm.gamma@, self.q_norm.epsilon, t.q, t.q_normed)
        &&& normalized(self.k_norm.gamma@, self.k_norm.epsilon, t.k, t.k_normed)
        &&& turn_tables(positions, head_dim, self.rope_theta, t.cos, t.sin)
        &&& rotated(t.q_normed, t.cos, t.sin, q)
        &&& rotated(t.k_normed, t.cos, t.sin, k)
    }

    /// `q`, `k` and `v` are possible queries, keys and values of the hidden states `x` at
    /// `positions`.
    pub open spec fn heads_outcome(
        self,
        x: TensorView,
        positions: Seq<Seq<i64>>,
        q: TensorView,
        k: TensorView,
        v: TensorView,
    ) -> bool {
        exists|t: HeadsTrace| #[trigger] self.heads_with(x, positions, t, q, k, v)
    }

    /// `r` is a possible result for the queries `q` over `keys` and `values`.
    pub open spec fn mix_outcome(
        self,
        q: TensorView,
        keys: TensorView,
        values: TensorView,
        mask: Option<Seq<Seq<Seq<bool>>>>,
        r: TensorView,
    ) -> bool {
        exists|mixed: TensorView|
            {
                &&& #[trigger] grouped_attention(q, keys, values, self.group(), mask, mixed)
                &&& projected(self.o_proj.weight@, mixed, r)
            }
    }

    /// `r` is a possible result of the forward pass on `x`, with the queries `q`, keys `k` and
    /// values `v`: every position looks at itself and the earlier ones that are no padding.
    pub open spec fn forward_with(
        self,
        x: TensorView,
        padding: Option<Seq<Seq<bool>>>,
        positions: Seq<Seq<i64>>,
        q: TensorView,
        k: TensorView,
        v: TensorView,
        r: TensorView,
    ) -> bool {
        &&& self.heads_outcome(x, positions, q, k, v)
        &&& self.mix_outcome(q, k, v, Some(prefill_mask(padding, x.dims[1], x.dims[1])), r)
    }

    /// `r` is a possible result of the forward pass on `x`.
    pub open spec fn forward_outcome(
        self,
        x: TensorView,
        padding: Option<Seq<Seq<bool>>>,
        positions: Seq<Seq<i64>>,
        r: TensorView,
    ) -> bool {
        exists|q: TensorView, k: TensorView, v: TensorView| #[trigger]
            self.forward_with(x, padding, positions, q, k, v, r)
    }

    /// `r` is a possible result of the forward pass on `x`, with the queries `q`, keys `k` and
    /// values `v`, and a cache that goes from `before` to `after`: the keys and values go behind
    /// the cached ones, and every query looks at all cached positions, those of the new ones up to
    /// its own, and no padding.
    pub open spec fn cached_with(
        self,
        x: TensorView,
        padding: Option<Seq<Seq<bool>>>,
        positions: Seq<Seq<i64>>,
        before: KVCacheView,
        after: KVCacheView,
        q: TensorView,
        k: TensorView,
        v: TensorView,
        r: TensorView,
    ) -> bool {
        &&& self.heads_outcome(x, positions, q, k, v)
        &&& before.updated(k, v, after)
        &&& self.mix_outcome(
            q,
            after.key->0,
            after.value->0,
            cached_mask(padding, x.dims[1], (after.key->0).dims[1]),
            r,
        )
    }

    /// `r` is a possible result of the forward pass on `x` with a cache that holds `before`, and
    /// `after` is what the cache then holds.
    pub open spec fn cached_outcome(
        self,
        x: TensorView,
        padding: Option<Seq<Seq<bool>>>,
        positions: Seq<Seq<i64>>,
        before: KVCacheView,
        after: KVCacheView,
        r: TensorView,
    ) -> bool {
        exists|q: TensorView, k: TensorView, v: TensorView| #[trigger]
            self.cached_with(x, padding, positions, before, after, q, k, v, r)
    }

    /// The queries, keys and values of hidden states.
    fn project(&self, hidden_states: &FloatTensor, positions: &Vec<Vec<i64>>) -> (r: (
        FloatTensor,
        FloatTensor,
        FloatTensor,
    ))
        requires
            self.wf(),
            hidden_states@.wf(),
            hidden_states@.dims.len() == 3,
            hidden_states@.dims[2] == self.hidden_size(),
            is_int_table(
                int_rows(positions@),
                hidden_states@.dims[0],
                hidden_states@.dims[1],
            ),
        ensures
            self.heads_outcome(hidden_states@, int_rows(positions@), r.0@, r.1@, r.2@),
            r.0@.wf(),
            r.1@.wf(),
            r.2@.wf(),
            r.0@.dims == seq![
                hidden_states@.dims[0],
                hidden_states@.dims[1],
                self.num_heads as nat,
                self.head_dim as nat,
            ],
            r.1@.dims == seq![
                hidden_states@.dims[0],
                hidden_states@.dims[1],
                self.num_kv_heads as nat,
                self.head_dim as nat,
            ],
            r.2@.dims == r.1@.dims,
    {
        let d = hidden_states.dims();
        let (batch, seq): (usize, usize) = (d[0], d[1]);
        let (heads, kv_heads, head_dim): (usize, usize, usize) = (
            self.num_heads,
            self.num_kv_heads,
            self.head_dim,
        );
        let ghost x = hidden_states@;
        proof {
            assert(kv_heads <= heads) by (nonlinear_arith)
                requires
                    heads % kv_heads == 0,
                    heads > 0,
                    kv_heads > 0,
            ;
            assert(kv_heads * head_dim <= heads * head_dim) by (nonlinear_arith)
                requires
                    kv_heads <= heads,
            ;
        }
        let query = self.q_proj.forward::<3>(hidden_states);
        let key = self.k_proj.forward::<3>(hidden_states);
        let value = self.v_proj.forward::<3>(hidden_states);
        proof {
            lemma_projected_heads(self.q_proj.weight@, x, query@, heads as nat, head_dim as nat);
            lemma_projected_heads(self.k_proj.weight@, x, key@, kv_heads as nat, head_dim as nat);
            lemma_projected_heads(self.v_proj.weight@, x, value@, kv_heads as nat, head_dim as nat);
            assert(nats([batch, seq, heads, head_dim]@) =~= seq![
                x.dims[0],
                x.dims[1],
                heads as nat,
                head_dim as nat,
            ]);
            assert(nats([batch, seq, kv_heads, head_dim]@) =~= seq![
                x.dims[0],
                x.dims[1],
                kv_heads as nat,
                head_dim as nat,
            ]);
        }
        let query = ops::reshape::<3, 4>(&query, [batch, seq, heads, head_dim]);
        let key = ops::reshape::<3, 4>(&key, [batch, seq, kv_heads, head_dim]);
        let value = ops::reshape::<3, 4>(&value, [batch, seq, kv_heads, head_dim]);
        let q_normed = self.q_norm.forward::<4>(&query);
        let k_normed = self.k_norm.forward::<4>(&key);
        assert(int_rows(positions@)[0] == positions@[0]@);
        let (cos, sin) = compute_rope_embeddings(positions, head_dim, self.rope_theta);
        let (q_turned, k_turned) = apply_rope(&q_normed, &k_normed, &cos, &sin);
        proof {
            lemma_tables_by_entry(
                int_rows(positions@),
                head_dim as nat,
                self.rope_theta,
                cos@,
                sin@,
            );
            let t = HeadsTrace {
                q: query@,
                k: key@,
                q_normed: q_normed@,
                k_normed: k_normed@,
                cos: cos@,
                sin: sin@,
            };
            assert(self.heads_with(x, int_rows(positions@), t, q_turned@, k_turned@, value@));
        }
        (q_turned, k_turned, value)
    }

    /// Attention of queries over keys and values, and the projection back to hidden states.
    fn mix(
        &self,
        query: &FloatTensor,
        key: &FloatTensor,
        value: &FloatTensor,
        mask: &Option<AttentionMask>,
    ) -> (r: FloatTensor)
        requires
            self.wf(),
            query@.wf(),
            key@.wf(),
            value@.wf(),
            query@.dims == seq![
                key@.dims[0],
                query@.dims[1],
                self.num_heads as nat,
                self.head_dim as nat,
            ],
            key@.dims == seq![
                key@.dims[0],
                key@.dims[1],
                self.num_kv_heads as nat,
                self.head_dim as nat,
            ],
            value@.dims == key@.dims,
            mask matches Some(m) ==> is_mask(m@, m@.len(), query@.dims[1], key@.dims[1]) && (
            m@.len() == 1 || m@.len() == query@.dims[0]),
        ensures
            self.mix_outcome(query@, key@, value@, mask_view(*mask), r@),
            r@.wf(),
            r@.dims == seq![query@.dims[0], query@.dims[1], self.hidden_size()],
    {
        let d = query.dims();
        let (batch, seq): (usize, usize) = (d[0], d[1]);
        let group: usize = self.num_heads / self.num_kv_heads;
        proof {
            let h = self.num_heads as int;
            let k = self.num_kv_heads as int;
            assert(k * (h / k) == h && h / k > 0) by (nonlinear_arith)
                requires
                    h % k == 0,
                    h > 0,
                    k > 0,
            ;
        }
        let wide_key = repeat_heads(key, group);
        let wide_value = repeat_heads(value, group);
        let qt = ops::swap_middle(query);
        let kt = ops::swap_middle(&wide_key);
        let vt = ops::swap_middle(&wide_value);
        assert(kt@.dims =~= qt@.dims.update(2, kt@.dims[2]));
        assert(vt@.dims =~= kt@.dims);
        let out = nn::attention(&qt, &kt, &vt, mask);
        let back = ops::swap_middle(&out);
        proof {
            lemma_grouped_attention(
                query@,
                key@,
                value@,
                group as nat,
                mask_view(*mask),
                wide_key@,
                wide_value@,
                qt@,
                kt@,
                vt@,
                out@,
                back@,
            );
            assert(nats([batch, seq, (self.num_heads * self.head_dim) as usize]@) =~= seq![
                query@.dims[0],
                query@.dims[1],
                query@.dims[2] * query@.dims[3],
            ]);
        }
        let mixed = ops::reshape::<4, 3>(&back, [batch, seq, self.num_heads * self.head_dim]);
        let r = self.o_proj.forward::<3>(&mixed);
        proof {
            assert(grouped_attention(
                query@,
                key@,
                value@,
                self.group(),
                mask_view(*mask),
                mixed@,
            ));
            assert(projected(self.o_proj.weight@, mixed@, r@));
            assert(r@.dims =~= seq![query@.dims[0], query@.dims[1], self.hidden_size()]);
        }
        r
    }

    /// Forward pass.
    ///
    /// # Arguments
    /// * `hidden_states` - Input `[batch, seq, hidden_size]`
    /// * `attention_mask` - Optional attention mask `[batch, seq]`, true for a valid token
    /// * `position_ids` - Position indices `[batch, seq]`
    pub fn forward(
        &self,
        hidden_states: &FloatTensor,
        attention_mask: &Option<Vec<Vec<bool>>>,
        position_ids: &Vec<Vec<i64>>,
    ) -> (r: FloatTensor)
        requires
            self.wf(),
            hidden_states@.wf(),
            hidden_states@.dims.len() == 3,
            hidden_states@.dims[2] == self.hidden_size(),
            padding_fits(
                table_view(*attention_mask),
                hidden_states@.dims[0],
                hidden_states@.dims[1],
            ),
            is_int_table(
                int_rows(position_ids@),
                hidden_states@.dims[0],
                hidden_states@.dims[1],
            ),
        ensures
            self.forward_outcome(
                hidden_states@,
                table_view(*attention_mask),
                int_rows(position_ids@),
                r@,
            ),
            r@.wf(),
            r@.dims == hidden_states@.dims,
    {
        let d = hidden_states.dims();
        let seq_len: usize = d[1];
        let (query, key, value) = self.project(hidden_states, position_ids);
        let mask = Some(build_prefill_mask(attention_mask, seq_len, seq_len));
        let r = self.mix(&query, &key, &value, &mask);
        proof {
            assert(r@.dims =~= hidden_states@.dims);
            assert(self.forward_with(
                hidden_states@,
                table_view(*attention_mask),
                int_rows(position_ids@),
                query@,
                key@,
                value@,
                r@,
            ));
        }
        r
    }

    /// Forward pass with a cache of earlier keys and values.
    ///
    /// # Arguments
    /// * `hidden_states` - Input `[batch, seq, hidden_size]` (usually one position)
    /// * `attention_mask` - Optional attention mask `[batch, total_seq]`, cached positions
    ///   included, true for a valid token
    /// * `position_ids` - Position indices `[batch, seq]` of the new tokens
    /// * `cache` - The cache of this layer
    pub fn forward_with_cache(
        &self,
        hidden_states: &FloatTensor,
        attention_mask: &Option<Vec<Vec<bool>>>,
        position_ids: &Vec<Vec<i64>>,
        cache: &mut KVCache,
    ) -> (r: FloatTensor)
        requires
            self.wf(),
            hidden_states@.wf(),
            hidden_states@.dims.len() == 3,
            hidden_states@.dims[2] == self.hidden_size(),
            old(cache)@.fits(
                hidden_states@.dims[0],
                self.num_kv_heads as nat,
                self.head_dim as nat,
            ),
            old(cache)@.past_len() + hidden_states@.dims[1] <= usize::MAX,
            padding_fits(
                table_view(*attention_mask),
                hidden_states@.dims[0],
                old(cache)@.past_len() + hidden_states@.dims[1],
            ),
            is_int_table(
                int_rows(position_ids@),
                hidden_states@.dims[0],
                hidden_states@.dims[1],
            ),
        ensures
            self.cached_outcome(
                hidden_states@,
                table_view(*attention_mask),
                int_rows(position_ids@),
                old(cache)@,
                final(cache)@,
                r@,
            ),
            final(cache)@.wf(
                hidden_states@.dims[0],
                self.num_kv_heads as nat,
                self.head_dim as nat,
            ),
            final(cache)@.seq_len() == old(cache)@.past_len() + hidden_states@.dims[1],
            r@.wf(),
            r@.dims == hidden_states@.dims,
    {
        let d = hidden_states.dims();
        let seq_len: usize = d[1];
        let (query, new_key, new_value) = self.project(hidden_states, position_ids);
        let ghost (k, v) = (new_key@, new_value@);
        let (key, value) = cache.update(new_key, new_value);
        proof {
            assert(key@.dims =~= seq![
                hidden_states@.dims[0],
                old(cache)@.past_len() + hidden_states@.dims[1],
                self.num_kv_heads as nat,
                self.head_dim as nat,
            ]);
            assert(value@.dims =~= key@.dims);
        }
        let total_seq: usize = key.dims()[1];
        let mask = build_cached_mask(attention_mask, seq_len, total_seq);
        let r = self.mix(&query, &key, &value, &mask);
        proof {
            assert(r@.dims =~= hidden_states@.dims);
            assert(self.cached_with(
                hidden_states@,
                table_view(*attention_mask),
                int_rows(position_ids@),
                old(cache)@,
                cache@,
                query@,
                k,
                v,
                r@,
            ));
        }
        r
    }
}

} // verus!
