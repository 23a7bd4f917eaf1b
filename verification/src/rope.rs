//! Rotary position embeddings.
//!
//! Position `p` turns the pair made of entry `i` of the first half and entry `i` of the second
//! half of a head by the angle `p / theta^(2i / head_dim)`.
use vstd::arithmetic::power2::pow2;
use vstd::prelude::*;

use crate::float::{
    lemma_common_factor, lemma_proper_fraction, lemma_quotient_of_wholes,
    lemma_whole_numbers_are_floats, rounds_to,
};
use crate::nn::{int_rows, is_int_table};
use crate::num::Double;
use crate::ops;
use crate::ops::{narrowing_outcome, nearest_float};
use crate::tensor::{
    cosine_outcome, difference_outcome, in_bounds, ix4, lemma_offset4, lemma_offset_in_volume,
    nats, power_outcome, product_outcome, quotient_outcome, sine_outcome, source_index,
    sum_outcome, FloatTensor, TensorView,
};

verus! {

/// `f` is a possible rounding of the frequency `1 / theta^(2i / head_dim)`.
pub open spec fn frequency_outcome(theta: Double, head_dim: nat, i: int, f: u32) -> bool {
    exists|t: u32, e: u32, p: u32|
        {
            &&& #[trigger] narrowing_outcome(theta.bits, t)
            &&& quotient_outcome(nearest_float((2 * i) as i64), nearest_float(head_dim as i64), e)
            &&& #[trigger] power_outcome(t, e, p)
            &&& quotient_outcome(nearest_float(1), p, f)
        }
}

/// `c` and `s` are a possible cosine and sine of the angle `position * frequency`.
pub open spec fn turn_outcome(position: i64, frequency: u32, c: u32, s: u32) -> bool {
    exists|angle: u32|
        {
            &&& #[trigger] product_outcome(nearest_float(position), frequency, angle)
            &&& cosine_outcome(angle, c)
            &&& sine_outcome(angle, s)
        }
}

/// `cos` and `sin`, both `[batch, seq, 1, head_dim / 2]`, hold the cosine and the sine of the
/// angle of every position and every frequency.
pub open spec fn rope_tables(
    positions: Seq<Seq<i64>>,
    head_dim: nat,
    theta: Double,
    cos: TensorView,
    sin: TensorView,
) -> bool {
    &&& cos.wf()
    &&& sin.wf()
    &&& cos.dims == seq![positions.len(), positions[0].len(), 1, head_dim / 2]
    &&& sin.dims == cos.dims
    &&& exists|freqs: Seq<u32>| #[trigger]
        rope_tables_with(positions, head_dim, theta, freqs, cos, sin)
}

/// The tables are those of the frequencies `freqs`.
pub open spec fn rope_tables_with(
    positions: Seq<Seq<i64>>,
    head_dim: nat,
    theta: Double,
    freqs: Seq<u32>,
    cos: TensorView,
    sin: TensorView,
) -> bool {
    &&& freqs.len() == head_dim / 2
    &&& forall|i: int|
        0 <= i < freqs.len() ==> frequency_outcome(theta, head_dim, i, #[trigger] freqs[i])
    &&& forall|idx: Seq<int>| in_bounds(cos.dims, idx) ==> turn_outcome(
        positions[idx[0]][idx[1]],
        freqs[idx[3]],
        #[trigger] cos.at(idx),
        sin.at(idx),
    )
}

/// `c` and `s` are a possible cosine and sine of the angle of `position` and frequency `i`.
pub open spec fn entry_outcome(
    theta: Double,
    head_dim: nat,
    i: int,
    position: i64,
    c: u32,
    s: u32,
) -> bool {
    exists|f: u32|
        #![trigger turn_outcome(position, f, c, s)]
        frequency_outcome(theta, head_dim, i, f) && turn_outcome(position, f, c, s)
}

/// Every entry of `cos` and `sin`, both `[batch, seq, 1, head_dim / 2]`, is a possible cosine and
/// sine of the angle of its position and its frequency. This is what [`rope_tables`] says of each
/// entry on its own.
pub open spec fn turn_tables(
    positions: Seq<Seq<i64>>,
    head_dim: nat,
    theta: Double,
    cos: TensorView,
    sin: TensorView,
) -> bool {
    &&& cos.wf()
    &&& sin.wf()
    &&& cos.dims == seq![positions.len(), positions[0].len(), 1, head_dim / 2]
    &&& sin.dims == cos.dims
    &&& forall|idx: Seq<int>| in_bounds(cos.dims, idx) ==> entry_outcome(
        theta,
        head_dim,
        idx[3],
        positions[idx[0]][idx[1]],
        #[trigger] cos.at(idx),
        sin.at(idx),
    )
}

/// The tables hold a possible cosine and sine in every entry.
pub proof fn lemma_tables_by_entry(
    positions: Seq<Seq<i64>>,
    head_dim: nat,
    theta: Double,
    cos: TensorView,
    sin: TensorView,
)
    requires
        rope_tables(positions, head_dim, theta, cos, sin),
    ensures
        turn_tables(positions, head_dim, theta, cos, sin),
{
    let freqs = choose|freqs: Seq<u32>| #[trigger]
        rope_tables_with(positions, head_dim, theta, freqs, cos, sin);
    assert forall|idx: Seq<int>| in_bounds(cos.dims, idx) implies entry_outcome(
        theta,
        head_dim,
        idx[3],
        positions[idx[0]][idx[1]],
        #[trigger] cos.at(idx),
        sin.at(idx),
    ) by {
        assert(0 <= idx[3] < cos.dims[3]);
        let f = freqs[idx[3]];
        assert(frequency_outcome(theta, head_dim, idx[3], f));
        assert(turn_outcome(positions[idx[0]][idx[1]], f, cos.at(idx), sin.at(idx)));
    }
}

/// `r` is a possible rounding of `x * c - y * s`.
pub open spec fn first_turned(x: u32, y: u32, c: u32, s: u32, r: u32) -> bool {
    exists|p: u32, q: u32| #[trigger]
        product_outcome(x, c, p) && #[trigger] product_outcome(y, s, q) && difference_outcome(
            p,
            q,
            r,
        )
}

/// `r` is a possible rounding of `x * s + y * c`.
pub open spec fn second_turned(x: u32, y: u32, c: u32, s: u32, r: u32) -> bool {
    exists|p: u32, q: u32| #[trigger]
        product_outcome(x, s, p) && #[trigger] product_outcome(y, c, q) && sum_outcome(p, q, r)
}

/// `r` is `x` with every head turned: entry `i` of the first half and entry `i` of the second
/// half go to `x1 * cos - x2 * sin` and `x1 * sin + x2 * cos`.
pub open spec fn rotated(x: TensorView, cos: TensorView, sin: TensorView, r: TensorView) -> bool {
    let half = (x.dims[3] / 2) as int;
    &&& r.wf()
    &&& r.dims == x.dims
    &&& forall|idx: Seq<int>| in_bounds(r.dims, idx) && idx[3] < half ==> first_turned(
        x.at(idx),
        x.at(ix4(idx[0], idx[1], idx[2], idx[3] + half)),
        cos.at(ix4(idx[0], idx[1], 0, idx[3])),
        sin.at(ix4(idx[0], idx[1], 0, idx[3])),
        #[trigger] r.at(idx),
    )
    &&& forall|idx: Seq<int>| in_bounds(r.dims, idx) && idx[3] >= half ==> second_turned(
        x.at(ix4(idx[0], idx[1], idx[2], idx[3] - half)),
        x.at(idx),
        cos.at(ix4(idx[0], idx[1], 0, idx[3] - half)),
        sin.at(ix4(idx[0], idx[1], 0, idx[3] - half)),
        #[trigger] r.at(idx),
    )
}

/// The tables fit the heads of `x`.
pub open spec fn rope_fits(x: TensorView, cos: TensorView, sin: TensorView) -> bool {
    &&& x.wf()
    &&& cos.wf()
    &&& sin.wf()
    &&& x.dims.len() == 4
    &&& x.dims[3] % 2 == 0
    &&& cos.dims == seq![x.dims[0], x.dims[1], 1, x.dims[3] / 2]
    &&& sin.dims == cos.dims
}

/// The positions of a batch as a column of floats for every sequence.
fn positions_column(positions: &Vec<Vec<i64>>) -> (r: FloatTensor)
    requires
        positions@.len() > 0,
        positions@[0]@.len() > 0,
        is_int_table(int_rows(positions@), positions@.len(), positions@[0]@.len()),
    ensures
        r@.wf(),
        r@.dims == seq![positions@.len(), positions@[0]@.len(), 1nat, 1nat],
        forall|idx: Seq<int>|
            in_bounds(r@.dims, idx) ==> #[trigger] r@.at(idx) == nearest_float(
                positions@[idx[0]]@[idx[1]],
            ),
{
    let batch: usize = positions.len();
    let seq: usize = positions[0].len();
    let mut flat: Vec<i64> = Vec::new();
    let mut b: usize = 0;
    while b < batch
        invariant
            0 <= b <= batch,
            batch == positions@.len(),
            seq == positions@[0]@.len(),
            is_int_table(int_rows(positions@), batch as nat, seq as nat),
            flat@.len() == b * seq,
            forall|i: int, j: int|
                0 <= i < b && 0 <= j < seq ==> flat@[i * seq + j] == #[trigger] positions@[i]@[j],
        decreases batch - b,
    {
        assert(int_rows(positions@)[b as int] == positions@[b as int]@);
        let mut s: usize = 0;
        while s < seq
            invariant
                0 <= s <= seq,
                0 <= b < batch,
                batch == positions@.len(),
                positions@[b as int]@.len() == seq,
                flat@.len() == b * seq + s,
                forall|i: int, j: int|
                    0 <= i < b && 0 <= j < seq ==> flat@[i * seq + j]
                        == #[trigger] positions@[i]@[j],
                forall|j: int|
                    0 <= j < s ==> flat@[b * seq + j] == #[trigger] positions@[b as int]@[j],
            decreases seq - s,
        {
            let ghost before = flat@;
            flat.push(positions[b][s]);
            proof {
                assert forall|i: int, j: int| 0 <= i < b && 0 <= j < seq implies flat@[i * seq + j]
                    == #[trigger] positions@[i]@[j] by {
                    assert(i * seq + j < b * seq && 0 <= i * seq + j) by (nonlinear_arith)
                        requires
                            0 <= i < b,
                            0 <= j < seq,
                    ;
                    assert(flat@[i * seq + j] == before[i * seq + j]);
                }
            }
            s += 1;
        }
        proof {
            assert(b * seq + seq == (b + 1) * seq) by (nonlinear_arith);
        }
        b += 1;
    }
    let dims: Vec<usize> = vec![batch, seq, 1, 1];
    proof {
        let d = nats(dims@);
        lemma_offset4(d, ix4(0, 0, 0, 0));
        assert(d[0] == batch && d[1] == seq && d[2] == 1 && d[3] == 1);
        assert(batch as int * seq as int * 1 * 1 == batch * seq);
    }
    let ghost values = flat@;
    let r = ops::from_ints(dims, flat);
    proof {
        assert(r@.dims =~= seq![batch as nat, seq as nat, 1nat, 1nat]);
        assert forall|idx: Seq<int>| in_bounds(r@.dims, idx) implies #[trigger] r@.at(idx)
            == nearest_float(positions@[idx[0]]@[idx[1]]) by {
            lemma_offset4(r@.dims, idx);
            lemma_offset_in_volume(r@.dims, idx);
            let place = idx[0] * seq + idx[1];
            assert(idx[2] == 0 && idx[3] == 0);
            assert(values[place] == positions@[idx[0]]@[idx[1]]);
        }
    }
    r
}

/// The tensor `[1, 1, 1, n]` of the even numbers from zero on.
fn even_numbers(n: usize) -> (r: FloatTensor)
    requires
        0 < n <= i64::MAX / 2,
    ensures
        r@.wf(),
        r@.dims == seq![1nat, 1nat, 1nat, n as nat],
        forall|i: int| 0 <= i < n ==> #[trigger] r@.data[i] == nearest_float((2 * i) as i64),
{
    let mut values: Vec<i64> = Vec::new();
    let mut i: usize = 0;
    while i < n
        invariant
            0 <= i <= n <= i64::MAX / 2,
            values@.len() == i,
            forall|j: int| 0 <= j < i ==> #[trigger] values@[j] == 2 * j,
        decreases n - i,
    {
        values.push(2 * (i as i64));
        i += 1;
    }
    let dims: Vec<usize> = vec![1, 1, 1, n];
    proof {
        let d = nats(dims@);
        lemma_offset4(d, ix4(0, 0, 0, 0));
        assert(d[0] == 1 && d[1] == 1 && d[2] == 1 && d[3] == n);
        assert(1 * 1 * 1 * n == n) by (nonlinear_arith);
    }
    let r = ops::from_ints(dims, values);
    proof {
        assert(r@.dims =~= seq![1nat, 1nat, 1nat, n as nat]);
        lemma_offset4(r@.dims, ix4(0, 0, 0, 0));
        assert forall|i: int| 0 <= i < n implies #[trigger] r@.data[i] == nearest_float(
            (2 * i) as i64,
        ) by {
            assert(values@[i] == (2 * i) as i64);
        }
    }
    r
}

/// The tensor `[1, 1, 1, 1]` of one integer.
fn lone_int(value: i64) -> (r: FloatTensor)
    ensures
        r@.wf(),
        r@.dims == seq![1nat, 1nat, 1nat, 1nat],
        r@.data[0] == nearest_float(value),
{
    let dims: Vec<usize> = vec![1, 1, 1, 1];
    let values: Vec<i64> = vec![value];
    proof {
        let d = nats(dims@);
        lemma_offset4(d, ix4(0, 0, 0, 0));
        assert(d[0] * d[1] * d[2] * d[3] == 1) by (nonlinear_arith)
            requires
                d[0] == 1,
                d[1] == 1,
                d[2] == 1,
                d[3] == 1,
        ;
    }
    let r = ops::from_ints(dims, values);
    proof {
        assert(r@.dims =~= seq![1nat, 1nat, 1nat, 1nat]);
        lemma_offset4(r@.dims, ix4(0, 0, 0, 0));
        assert(values@[0] == value);
    }
    r
}

/// Computes the rotary tables of a batch.
///
/// # Arguments
/// * `positions` - Position indices `[batch, seq]`
/// * `head_dim` - Dimension per attention head
/// * `theta` - RoPE theta parameter
///
/// The cosines and the sines are `[batch, seq, 1, head_dim / 2]`.
pub fn compute_rope_embeddings(
    positions: &Vec<Vec<i64>>,
    head_dim: usize,
    theta: Double,
) -> (r: (FloatTensor, FloatTensor))
    requires
        positions@.len() > 0,
        positions@[0]@.len() > 0,
        is_int_table(int_rows(positions@), positions@.len(), positions@[0]@.len()),
        2 <= head_dim <= i64::MAX,
    ensures
        rope_tables(int_rows(positions@), head_dim as nat, theta, r.0@, r.1@),
{
    let half: usize = head_dim / 2;
    let numerators = even_numbers(half);
    let denominator = lone_int(head_dim as i64);
    let exponents = ops::divided_by::<4>(&numerators, &denominator);
    let base = ops::from_double(theta.bits);
    let powers = ops::to_the_power::<4>(&base, &exponents);
    let one = lone_int(1);
    let freqs = ops::divided_by::<4>(&one, &powers);
    let column = positions_column(positions);
    let angles = ops::times::<4>(&column, &freqs);
    let cos = ops::cosine::<4>(&angles);
    let sin = ops::sine::<4>(&angles);
    proof {
        let rows = int_rows(positions@);
        let f = Seq::new(half as nat, |i: int| freqs@.at(ix4(0, 0, 0, i)));
        assert(exponents@.dims =~= seq![1nat, 1nat, 1nat, half as nat]);
        assert(powers@.dims =~= seq![1nat, 1nat, 1nat, half as nat]);
        assert(freqs@.dims =~= seq![1nat, 1nat, 1nat, half as nat]);
        assert(angles@.dims =~= seq![
            positions@.len(),
            positions@[0]@.len(),
            1nat,
            half as nat,
        ]);
        assert forall|i: int| 0 <= i < f.len() implies frequency_outcome(
            theta,
            head_dim as nat,
            i,
            #[trigger] f[i],
        ) by {
            let idx = ix4(0, 0, 0, i);
            let zero = ix4(0, 0, 0, 0);
            assert(in_bounds(freqs@.dims, idx));
            assert(source_index(one@.dims, idx) =~= zero);
            assert(source_index(denominator@.dims, idx) =~= zero);
            assert(source_index(base@.dims, idx) =~= zero);
            assert(source_index(powers@.dims, idx) =~= idx);
            assert(source_index(exponents@.dims, idx) =~= idx);
            assert(source_index(numerators@.dims, idx) =~= idx);
            lemma_offset4(one@.dims, zero);
            lemma_offset4(denominator@.dims, zero);
            lemma_offset4(base@.dims, zero);
            lemma_offset4(numerators@.dims, idx);
            assert(in_bounds(exponents@.dims, idx));
            assert(in_bounds(powers@.dims, idx));
            let e = exponents@.at(idx);
            let p = powers@.at(idx);
            assert(quotient_outcome(one@.at(zero), p, freqs@.at(idx)));
            assert(power_outcome(base@.at(zero), e, p));
            assert(quotient_outcome(numerators@.at(idx), denominator@.at(zero), e));
            assert(narrowing_outcome(theta.bits, base@.at(zero)));
        }
        assert forall|idx: Seq<int>| in_bounds(cos@.dims, idx) implies turn_outcome(
            rows[idx[0]][idx[1]],
            f[idx[3]],
            #[trigger] cos@.at(idx),
            sin@.at(idx),
        ) by {
            assert(in_bounds(angles@.dims, idx));
            assert(idx[0] >= 0 && idx[1] >= 0 && idx[2] == 0 && idx[3] >= 0);
            assert(source_index(freqs@.dims, idx) =~= ix4(0, 0, 0, idx[3]));
            let src = source_index(column@.dims, idx);
            assert(src =~= ix4(idx[0], idx[1], 0, 0));
            assert(in_bounds(column@.dims, src));
            let angle = angles@.at(idx);
            assert(column@.at(src) == nearest_float(positions@[idx[0]]@[idx[1]]));
            assert(product_outcome(nearest_float(rows[idx[0]][idx[1]]), f[idx[3]], angle));
            assert(sine_outcome(angle, sin@.at(idx)));
        }
        assert(rope_tables_with(rows, head_dim as nat, theta, f, cos@, sin@));
    }
    (cos, sin)
}

/// Turns every head of a tensor by the angles of its positions.
fn rotate_half(x: &FloatTensor, cos: &FloatTensor, sin: &FloatTensor) -> (r: FloatTensor)
    requires
        rope_fits(x@, cos@, sin@),
    ensures
        rotated(x@, cos@, sin@, r@),
{
    let d = x.dims();
    let (batch, seq, heads, head_dim): (usize, usize, usize, usize) = (d[0], d[1], d[2], d[3]);
    let half: usize = head_dim / 2;
    let x1 = ops::slice::<4>(x, [0, 0, 0, 0], [batch, seq, heads, half]);
    let x2 = ops::slice::<4>(x, [0, 0, 0, half], [batch, seq, heads, head_dim]);
    let x1_cos = ops::times::<4>(&x1, cos);
    let x2_sin = ops::times::<4>(&x2, sin);
    let first = ops::minus::<4>(&x1_cos, &x2_sin);
    let x1_sin = ops::times::<4>(&x1, sin);
    let x2_cos = ops::times::<4>(&x2, cos);
    let second = ops::plus::<4>(&x1_sin, &x2_cos);
    let r = ops::cat::<4>(&first, &second, 3);
    proof {
        let h = half as int;
        let half_dims = seq![batch as nat, seq as nat, heads as nat, half as nat];
        assert(x1@.dims =~= half_dims);
        assert(x2@.dims =~= half_dims);
        assert(x1_cos@.dims =~= half_dims);
        assert(x2_sin@.dims =~= half_dims);
        assert(first@.dims =~= half_dims);
        assert(x1_sin@.dims =~= half_dims);
        assert(x2_cos@.dims =~= half_dims);
        assert(second@.dims =~= half_dims);
        assert(r@.dims =~= x@.dims);
        assert forall|j: Seq<int>| #[trigger] in_bounds(half_dims, j) implies {
            let lo = x@.at(j);
            let hi = x@.at(ix4(j[0], j[1], j[2], j[3] + h));
            let c = cos@.at(ix4(j[0], j[1], 0, j[3]));
            let s = sin@.at(ix4(j[0], j[1], 0, j[3]));
            first_turned(lo, hi, c, s, first@.at(j)) && second_turned(lo, hi, c, s, second@.at(j))
        } by {
            assert(j[0] >= 0 && j[1] >= 0 && j[2] >= 0 && j[3] >= 0);
            let t = ix4(j[0], j[1], 0, j[3]);
            assert(source_index(half_dims, j) =~= j);
            assert(source_index(cos@.dims, j) =~= t);
            assert(Seq::new(j.len(), |i: int| nats([0usize, 0, 0, 0]@)[i] + j[i]) =~= j);
            assert(Seq::new(j.len(), |i: int| nats([0usize, 0, 0, half]@)[i] + j[i]) =~= ix4(
                j[0],
                j[1],
                j[2],
                j[3] + h,
            ));
            assert(x1@.at(j) == x@.at(j));
            assert(x2@.at(j) == x@.at(ix4(j[0], j[1], j[2], j[3] + h)));
            assert(product_outcome(x@.at(j), cos@.at(t), x1_cos@.at(j)));
            assert(product_outcome(x@.at(j), sin@.at(t), x1_sin@.at(j)));
            assert(product_outcome(x2@.at(j), cos@.at(t), x2_cos@.at(j)));
            assert(product_outcome(x2@.at(j), sin@.at(t), x2_sin@.at(j)));
            assert(difference_outcome(x1_cos@.at(j), x2_sin@.at(j), first@.at(j)));
            assert(sum_outcome(x1_sin@.at(j), x2_cos@.at(j), second@.at(j)));
        }
        assert forall|idx: Seq<int>| in_bounds(r@.dims, idx) && idx[3] < h implies first_turned(
            x@.at(idx),
            x@.at(ix4(idx[0], idx[1], idx[2], idx[3] + h)),
            cos@.at(ix4(idx[0], idx[1], 0, idx[3])),
            sin@.at(ix4(idx[0], idx[1], 0, idx[3])),
            #[trigger] r@.at(idx),
        ) by {
            assert(in_bounds(half_dims, idx));
        }
        assert forall|idx: Seq<int>| in_bounds(r@.dims, idx) && idx[3] >= h implies second_turned(
            x@.at(ix4(idx[0], idx[1], idx[2], idx[3] - h)),
            x@.at(idx),
            cos@.at(ix4(idx[0], idx[1], 0, idx[3] - h)),
            sin@.at(ix4(idx[0], idx[1], 0, idx[3] - h)),
            #[trigger] r@.at(idx),
        ) by {
            let j = idx.update(3, idx[3] - h);
            assert(j =~= ix4(idx[0], idx[1], idx[2], idx[3] - h));
            assert(in_bounds(half_dims, j));
            assert(ix4(j[0], j[1], j[2], j[3] + h) =~= idx);
        }
    }
    r
}

/// Turns queries and keys by the angles of their positions.
///
/// # Arguments
/// * `q` - Query tensor `[batch, seq, n_heads, head_dim]`
/// * `k` - Key tensor `[batch, seq, n_kv_heads, head_dim]`
/// * `cos` - Cosines `[batch, seq, 1, head_dim / 2]`
/// * `sin` - Sines `[batch, seq, 1, head_dim / 2]`
pub fn apply_rope(
    q: &FloatTensor,
    k: &FloatTensor,
    cos: &FloatTensor,
    sin: &FloatTensor,
) -> (r: (FloatTensor, FloatTensor))
    requires
        rope_fits(q@, cos@, sin@),
        rope_fits(k@, cos@, sin@),
    ensures
        rotated(q@, cos@, sin@, r.0@),
        rotated(k@, cos@, sin@, r.1@),
{
    let q_rotated = rotate_half(q, cos, sin);
    let k_rotated = rotate_half(k, cos, sin);
    (q_rotated, k_rotated)
}

/// The steps to an entry of the tables.
pub struct TurnSteps {
    pub base: u32,
    pub exponent: u32,
    pub power: u32,
    pub frequency: u32,
    pub angle: u32,
}

/// Pair `i` of a head turns at position `p` by the angle `p / theta^(2i / head_dim)`: the exponent
/// is the float nearest to `2i / head_dim`, which is less than one; the frequency is one over the
/// power of theta with it; and the angle is the frequency times the position. Heads may be up to
/// `2^24` long, beyond which their lengths are no floats.
pub proof fn lemma_angle_of_pair(
    positions: Seq<Seq<i64>>,
    head_dim: nat,
    theta: Double,
    cos: TensorView,
    sin: TensorView,
    b: int,
    s: int,
    i: int,
) -> (t: TurnSteps)
    requires
        turn_tables(positions, head_dim, theta, cos, sin),
        0 <= b < positions.len(),
        0 <= s < positions[0].len(),
        0 <= i,
        2 * i + 2 <= head_dim,
        head_dim <= 0x100_0000,
    ensures
        rounds_to((2 * i) as nat * pow2(149), head_dim, t.exponent),
        t.exponent < 0x3f80_0000,
        narrowing_outcome(theta.bits, t.base),
        power_outcome(t.base, t.exponent, t.power),
        quotient_outcome(0x3f80_0000, t.power, t.frequency),
        product_outcome(nearest_float(positions[b][s]), t.frequency, t.angle),
        cosine_outcome(t.angle, cos.at(ix4(b, s, 0, i))),
        sine_outcome(t.angle, sin.at(ix4(b, s, 0, i))),
{
    let idx = ix4(b, s, 0, i);
    assert(in_bounds(cos.dims, idx));
    let (c, d) = (cos.at(idx), sin.at(idx));
    assert(entry_outcome(theta, head_dim, i, positions[b][s], c, d));
    let f = choose|f: u32|
        #![trigger turn_outcome(positions[b][s], f, c, d)]
        frequency_outcome(theta, head_dim, i, f) && turn_outcome(positions[b][s], f, c, d);
    let (base, exponent, power) = choose|t: u32, e: u32, p: u32|
        {
            &&& #[trigger] narrowing_outcome(theta.bits, t)
            &&& quotient_outcome(nearest_float((2 * i) as i64), nearest_float(head_dim as i64), e)
            &&& #[trigger] power_outcome(t, e, p)
            &&& quotient_outcome(nearest_float(1), p, f)
        };
    let angle = choose|angle: u32|
        {
            &&& #[trigger] product_outcome(nearest_float(positions[b][s]), f, angle)
            &&& cosine_outcome(angle, c)
            &&& sine_outcome(angle, d)
        };
    lemma_quotient_of_wholes((2 * i) as i64, head_dim as i64, exponent);
    lemma_proper_fraction((2 * i) as nat, head_dim, exponent);
    lemma_whole_numbers_are_floats(1);
    TurnSteps { base, exponent, power, frequency: f, angle }
}

/// The tables of one call share their frequencies: pair `i` turns at any two places, `at` and
/// `other` with their sequences and positions, by one frequency times the position. The frequency
/// and the two angles are given back.
pub proof fn lemma_frequencies_are_shared(
    positions: Seq<Seq<i64>>,
    head_dim: nat,
    theta: Double,
    cos: TensorView,
    sin: TensorView,
    i: int,
    at: (int, int),
    other: (int, int),
) -> (f: (u32, u32, u32))
    requires
        rope_tables(positions, head_dim, theta, cos, sin),
        0 <= i,
        2 * i + 2 <= head_dim,
        0 <= at.0 < positions.len(),
        0 <= at.1 < positions[0].len(),
        0 <= other.0 < positions.len(),
        0 <= other.1 < positions[0].len(),
    ensures
        frequency_outcome(theta, head_dim, i, f.0),
        product_outcome(nearest_float(positions[at.0][at.1]), f.0, f.1),
        cosine_outcome(f.1, cos.at(ix4(at.0, at.1, 0, i))),
        sine_outcome(f.1, sin.at(ix4(at.0, at.1, 0, i))),
        product_outcome(nearest_float(positions[other.0][other.1]), f.0, f.2),
        cosine_outcome(f.2, cos.at(ix4(other.0, other.1, 0, i))),
        sine_outcome(f.2, sin.at(ix4(other.0, other.1, 0, i))),
{
    let freqs = choose|freqs: Seq<u32>| #[trigger]
        rope_tables_with(positions, head_dim, theta, freqs, cos, sin);
    assert(0 <= i < freqs.len());
    let f = freqs[i];
    let (x, y) = (ix4(at.0, at.1, 0, i), ix4(other.0, other.1, 0, i));
    assert(in_bounds(cos.dims, x));
    assert(in_bounds(cos.dims, y));
    let (p, q) = (positions[at.0][at.1], positions[other.0][other.1]);
    assert(turn_outcome(p, f, cos.at(x), sin.at(x)));
    assert(turn_outcome(q, f, cos.at(y), sin.at(y)));
    let a = choose|angle: u32|
        {
            &&& #[trigger] product_outcome(nearest_float(p), f, angle)
            &&& cosine_outcome(angle, cos.at(x))
            &&& sine_outcome(angle, sin.at(x))
        };
    let c = choose|angle: u32|
        {
            &&& #[trigger] product_outcome(nearest_float(q), f, angle)
            &&& cosine_outcome(angle, cos.at(y))
            &&& sine_outcome(angle, sin.at(y))
        };
    (f, a, c)
}

/// A head of twice the length has at every second pair the frequencies of the shorter head.
pub proof fn lemma_longer_heads_turn_alike(theta: Double, head_dim: nat, i: int, f: u32)
    requires
        0 <= i,
        2 * i < head_dim,
        2 * head_dim <= 0x100_0000,
    ensures
        frequency_outcome(theta, 2 * head_dim, 2 * i, f) <==> frequency_outcome(
            theta,
            head_dim,
            i,
            f,
        ),
{
    assert forall|e: u32| #[trigger]
        quotient_outcome(
            nearest_float((4 * i) as i64),
            nearest_float((2 * head_dim) as i64),
            e,
        ) == quotient_outcome(
        nearest_float((2 * i) as i64),
        nearest_float(head_dim as i64),
        e,
    ) by {
        lemma_quotient_of_wholes((4 * i) as i64, (2 * head_dim) as i64, e);
        lemma_quotient_of_wholes((2 * i) as i64, head_dim as i64, e);
        lemma_common_factor((2 * i) as nat * pow2(149), head_dim, 2, e);
        let p = pow2(149);
        assert((4 * i) as nat * p == ((2 * i) as nat * p) * 2) by (nonlinear_arith)
            requires
                i >= 0,
        ;
    }
    let (long, short) = (
        frequency_outcome(theta, 2 * head_dim, 2 * i, f),
        frequency_outcome(theta, head_dim, i, f),
    );
    assert(2 * (2 * i) == 4 * i);
    if long {
        let (t, e, p) = choose|t: u32, e: u32, p: u32|
            {
                &&& #[trigger] narrowing_outcome(theta.bits, t)
                &&& quotient_outcome(
                    nearest_float((2 * (2 * i)) as i64),
                    nearest_float((2 * head_dim) as i64),
                    e,
                )
                &&& #[trigger] power_outcome(t, e, p)
                &&& quotient_outcome(nearest_float(1), p, f)
            };
        assert(quotient_outcome(
            nearest_float((4 * i) as i64),
            nearest_float((2 * head_dim) as i64),
            e,
        ));
        assert(narrowing_outcome(theta.bits, t) && power_outcome(t, e, p));
        assert(short);
    }
    if short {
        let (t, e, p) = choose|t: u32, e: u32, p: u32|
            {
                &&& #[trigger] narrowing_outcome(theta.bits, t)
                &&& quotient_outcome(
                    nearest_float((2 * i) as i64),
                    nearest_float(head_dim as i64),
                    e,
                )
                &&& #[trigger] power_outcome(t, e, p)
                &&& quotient_outcome(nearest_float(1), p, f)
            };
        assert(quotient_outcome(
            nearest_float((4 * i) as i64),
            nearest_float((2 * head_dim) as i64),
            e,
        ));
        assert(narrowing_outcome(theta.bits, t) && power_outcome(t, e, p));
        assert(long);
    }
}

/// Turning pairs entry `i` of the first half of a head with entry `i` of the second half, and does
/// the same in every head: `(x, y)` goes to `(x cos - y sin, x sin + y cos)`. The four products
/// are given back.
pub proof fn lemma_turned_pair(
    x: TensorView,
    cos: TensorView,
    sin: TensorView,
    r: TensorView,
    half: nat,
    b: int,
    s: int,
    h: int,
    i: int,
) -> (p: (u32, u32, u32, u32))
    requires
        rope_fits(x, cos, sin),
        rotated(x, cos, sin, r),
        x.dims[3] == 2 * half,
        0 <= b < x.dims[0],
        0 <= s < x.dims[1],
        0 <= h < x.dims[2],
        0 <= i < half,
    ensures
        ({
            let (first, second) = (x.at(ix4(b, s, h, i)), x.at(ix4(b, s, h, half + i)));
            let (c, d) = (cos.at(ix4(b, s, 0, i)), sin.at(ix4(b, s, 0, i)));
            &&& product_outcome(first, c, p.0)
            &&& product_outcome(second, d, p.1)
            &&& difference_outcome(p.0, p.1, r.at(ix4(b, s, h, i)))
            &&& product_outcome(first, d, p.2)
            &&& product_outcome(second, c, p.3)
            &&& sum_outcome(p.2, p.3, r.at(ix4(b, s, h, half + i)))
        }),
{
    let (lo, hi) = (ix4(b, s, h, i), ix4(b, s, h, half + i));
    let (first, second) = (x.at(lo), x.at(hi));
    let (c, d) = (cos.at(ix4(b, s, 0, i)), sin.at(ix4(b, s, 0, i)));
    assert(in_bounds(r.dims, lo));
    assert(in_bounds(r.dims, hi));
    assert(ix4(lo[0], lo[1], lo[2], lo[3] + half) =~= hi);
    assert(ix4(hi[0], hi[1], hi[2], hi[3] - half) =~= lo);
    assert(first_turned(first, second, c, d, r.at(lo)));
    assert(second_turned(first, second, c, d, r.at(hi)));
    let (p, q) = choose|p: u32, q: u32| #[trigger]
        product_outcome(first, c, p) && #[trigger] product_outcome(second, d, q)
            && difference_outcome(p, q, r.at(lo));
    let (u, v) = choose|p: u32, q: u32| #[trigger]
        product_outcome(first, d, p) && #[trigger] product_outcome(second, c, q) && sum_outcome(
            p,
            q,
            r.at(hi),
        );
    (p, q, u, v)
}

} // verus!
