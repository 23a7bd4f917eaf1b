//! How the next token is chosen: by the greatest logit, or by a draw from the probabilities that
//! the logits over the temperature give.
//!
//! The laws speak of the numbers that the floats stand for.
use vstd::arithmetic::power2::{lemma_pow2_pos, pow2};
use vstd::prelude::*;

use crate::causal_lm::{are_greedy, are_next, last_logits, softmaxed, tempered};
use crate::float::{
    float_quotient, float_sum, lemma_common_factor, lemma_float_is_nearest,
    lemma_nearest_is_unique, lemma_units_increase, lemma_what_bits_say, lemma_zero_units,
    magnitude, rounds_to, units, value, INFINITY,
};
use crate::nn::is_finite;
use crate::num::Single;
use crate::ops::softmax_outcome;
use crate::random::RandomSource;
use crate::sampling::{
    are_drawn, are_drawn_by, drawn_with, falls_on, holds_share, is_drawn, is_nucleus, is_ranking,
    kept_by_top_k, lemma_ranking_is_complete, ranked_before, reaches, share_of_first,
    sum_of_first,
};
use crate::tensor::{in_bounds, is_nan, ix3, order_key, quotient_outcome, row_of, TensorView};

verus! {

/// Floats are ordered as the numbers that they stand for.
pub proof fn lemma_floats_are_ordered(a: u32, b: u32)
    requires
        !is_nan(a),
        !is_nan(b),
    ensures
        order_key(a) <= order_key(b) <==> value(a) <= value(b),
        order_key(a) == order_key(b) <==> value(a) == value(b),
{
    let (x, y) = (magnitude(a), magnitude(b));
    lemma_zero_units();
    if x > 0 {
        lemma_units_increase(0, x);
    }
    if y > 0 {
        lemma_units_increase(0, y);
    }
    if x < y {
        lemma_units_increase(x, y);
    } else if y < x {
        lemma_units_increase(y, x);
    }
}

/// At temperature zero the next token of a sequence is the first of those with the greatest logit
/// at its last position, whatever the other settings.
pub proof fn lemma_greatest_logit_is_chosen(
    logits: TensorView,
    temperature: Single,
    top_p: Single,
    top_k: nat,
    tokens: Seq<i64>,
    b: int,
    v: int,
)
    requires
        temperature.bits == 0 || temperature.bits == 0x8000_0000,
        are_next(logits, temperature, top_p, top_k, tokens),
        logits.dims.len() == 3,
        0 <= b < logits.dims[0],
        0 <= v < logits.dims[2],
        forall|u: int|
            0 <= u < logits.dims[2] ==> !is_nan(
                #[trigger] logits.at(ix3(b, logits.dims[1] - 1, u)),
            ),
    ensures
        tokens.len() == logits.dims[0],
        0 <= tokens[b] < logits.dims[2],
        value(logits.at(ix3(b, logits.dims[1] - 1, v))) <= value(
            logits.at(ix3(b, logits.dims[1] - 1, tokens[b] as int)),
        ),
        v < tokens[b] ==> value(logits.at(ix3(b, logits.dims[1] - 1, v))) < value(
            logits.at(ix3(b, logits.dims[1] - 1, tokens[b] as int)),
        ),
{
    let last = logits.dims[1] - 1;
    let row = last_logits(logits, b);
    assert forall|u: int| 0 <= u < logits.dims[2] implies #[trigger] row[u] == logits.at(
        ix3(b, last, u),
    ) by {
        assert(seq![b, last].push(u) =~= ix3(b, last, u));
    }
    assert(are_greedy(logits, tokens));
    let t = tokens[b] as int;
    assert(0 <= t < logits.dims[2]);
    lemma_floats_are_ordered(row[v], row[t]);
    lemma_floats_are_ordered(row[t], row[v]);
}

/// At any other temperature the tokens are drawn from softmax of the logits at the last position,
/// each divided once by the temperature, or taken as it is at temperature one. The divided logits,
/// the probabilities and the source of the random words are given back.
pub proof fn lemma_steps_to_sampled_tokens(
    logits: TensorView,
    temperature: Single,
    top_p: Single,
    top_k: nat,
    tokens: Seq<i64>,
) -> (s: (TensorView, TensorView, RandomSource))
    requires
        temperature.bits != 0,
        temperature.bits != 0x8000_0000,
        logits.dims.len() == 3,
        are_next(logits, temperature, top_p, top_k, tokens),
    ensures
        s.0.dims == seq![logits.dims[0], logits.dims[2]],
        s.1.dims == s.0.dims,
        forall|idx: Seq<int>| #[trigger]
            in_bounds(s.0.dims, idx) ==> {
                let logit = logits.at(ix3(idx[0], logits.dims[1] - 1, idx[1]));
                &&& temperature.bits == 0x3f80_0000 ==> s.0.at(idx) == logit
                &&& temperature.bits != 0x3f80_0000 ==> quotient_outcome(
                    logit,
                    temperature.bits,
                    s.0.at(idx),
                )
                &&& softmax_outcome(
                    Seq::new(logits.dims[2], |v: int| s.0.at(seq![idx[0], v])),
                    idx[1],
                    s.1.at(idx),
                )
            },
        are_drawn_by(s.1, top_k, top_p, s.2, tokens),
{
    let (scaled, probs, source) = choose|
        scaled: TensorView,
        probs: TensorView,
        source: RandomSource,
    |
        {
            &&& tempered(logits, temperature, scaled)
            &&& #[trigger] softmaxed(scaled, probs)
            &&& #[trigger] are_drawn_by(probs, top_k, top_p, source, tokens)
        };
    assert forall|idx: Seq<int>| #[trigger] in_bounds(scaled.dims, idx) implies {
        let logit = logits.at(ix3(idx[0], logits.dims[1] - 1, idx[1]));
        &&& temperature.bits == 0x3f80_0000 ==> scaled.at(idx) == logit
        &&& temperature.bits != 0x3f80_0000 ==> quotient_outcome(
            logit,
            temperature.bits,
            scaled.at(idx),
        )
        &&& softmax_outcome(
            Seq::new(logits.dims[2], |v: int| scaled.at(seq![idx[0], v])),
            idx[1],
            probs.at(idx),
        )
    } by {
        let last = logits.dims[1] - 1;
        assert(0 <= idx[0] < scaled.dims[0] && 0 <= idx[1] < scaled.dims[1]);
        assert(seq![idx[0], last].push(idx[1]) =~= ix3(idx[0], last, idx[1]));
        assert(last_logits(logits, idx[0])[idx[1]] == logits.at(ix3(idx[0], last, idx[1])));
        assert(scaled.at(idx) == scaled.at(idx));
        assert(probs.at(idx) == probs.at(idx));
        assert(row_of(scaled, idx[0]) =~= Seq::new(
            logits.dims[2],
            |v: int| scaled.at(seq![idx[0], v]),
        ));
    }
    (scaled, probs, source)
}

/// A finite logit over a positive temperature is the float nearest to the exact quotient, with the
/// sign of the logit; temperature one changes nothing.
pub proof fn lemma_tempered_logit(
    logits: TensorView,
    temperature: Single,
    scaled: TensorView,
    b: int,
    v: int,
)
    requires
        logits.dims.len() == 3,
        tempered(logits, temperature, scaled),
        0 < temperature.bits < INFINITY,
        0 <= b < logits.dims[0],
        0 <= v < logits.dims[2],
        is_finite(logits.at(ix3(b, logits.dims[1] - 1, v))),
    ensures
        ({
            let logit = logits.at(ix3(b, logits.dims[1] - 1, v));
            let r = scaled.at(seq![b, v]);
            &&& (r < 0x8000_0000) == (logit < 0x8000_0000)
            &&& rounds_to(
                units(magnitude(logit)) * pow2(149),
                units(temperature.bits),
                magnitude(r),
            )
        }),
{
    reveal(quotient_outcome);
    let last = logits.dims[1] - 1;
    let logit = logits.at(ix3(b, last, v));
    let idx = seq![b, v];
    let r = scaled.at(idx);
    assert(in_bounds(scaled.dims, idx));
    assert(seq![b, last].push(v) =~= ix3(b, last, v));
    assert(last_logits(logits, b)[v] == logit);
    lemma_zero_units();
    lemma_units_increase(0, temperature.bits);
    if temperature.spec_is_one() {
        assert(r == logit);
        let m = magnitude(logit);
        lemma_what_bits_say(0);
        lemma_float_is_nearest(m);
        lemma_pow2_pos(149);
        lemma_common_factor(units(m), 1, pow2(149), m);
        assert(1 * pow2(149) == pow2(149));
    } else {
        assert(quotient_outcome(logit, temperature.bits, r));
        assert(magnitude(temperature.bits) == temperature.bits);
    }
}

/// Only the ratio of logit and temperature counts: where two logits are in the proportion of two
/// temperatures, as twice the logit at twice the temperature, they come out the same.
pub proof fn lemma_only_the_ratio_counts(
    logits: TensorView,
    temperature: Single,
    scaled: TensorView,
    other: TensorView,
    other_temperature: Single,
    other_scaled: TensorView,
    b: int,
    v: int,
)
    requires
        logits.dims.len() == 3,
        other.dims.len() == 3,
        tempered(logits, temperature, scaled),
        tempered(other, other_temperature, other_scaled),
        0 < temperature.bits < INFINITY,
        0 < other_temperature.bits < INFINITY,
        0 <= b < logits.dims[0],
        0 <= b < other.dims[0],
        0 <= v < logits.dims[2],
        0 <= v < other.dims[2],
        is_finite(logits.at(ix3(b, logits.dims[1] - 1, v))),
        is_finite(other.at(ix3(b, other.dims[1] - 1, v))),
        ({
            let (x, y) = (
                logits.at(ix3(b, logits.dims[1] - 1, v)),
                other.at(ix3(b, other.dims[1] - 1, v)),
            );
            &&& (x < 0x8000_0000) == (y < 0x8000_0000)
            &&& value(x) * value(other_temperature.bits) == value(y) * value(temperature.bits)
        }),
    ensures
        scaled.at(seq![b, v]) == other_scaled.at(seq![b, v]),
{
    lemma_tempered_logit(logits, temperature, scaled, b, v);
    lemma_tempered_logit(other, other_temperature, other_scaled, b, v);
    let (x, y) = (
        logits.at(ix3(b, logits.dims[1] - 1, v)),
        other.at(ix3(b, other.dims[1] - 1, v)),
    );
    lemma_same_quotient(
        x,
        y,
        temperature.bits,
        other_temperature.bits,
        scaled.at(seq![b, v]),
        other_scaled.at(seq![b, v]),
    );
}

/// Floats of the same sign that are in the proportion of two positive ones have the same quotients
/// by them.
proof fn lemma_same_quotient(x: u32, y: u32, s: u32, t: u32, r: u32, q: u32)
    requires
        0 < s < INFINITY,
        0 < t < INFINITY,
        (x < 0x8000_0000) == (y < 0x8000_0000),
        value(x) * value(t) == value(y) * value(s),
        (r < 0x8000_0000) == (x < 0x8000_0000),
        (q < 0x8000_0000) == (y < 0x8000_0000),
        rounds_to(units(magnitude(x)) * pow2(149), units(s), magnitude(r)),
        rounds_to(units(magnitude(y)) * pow2(149), units(t), magnitude(q)),
    ensures
        r == q,
{
    let (a, b) = (units(magnitude(x)), units(magnitude(y)));
    lemma_zero_units();
    lemma_units_increase(0, s);
    lemma_units_increase(0, t);
    lemma_ratio_without_sign(value(x), value(y), a, b, units(s), units(t));
    lemma_same_ratio(a, b, units(s), units(t), magnitude(r), magnitude(q));
}

/// Where numbers of the same sign are in proportion, so are their magnitudes.
proof fn lemma_ratio_without_sign(x: int, y: int, a: nat, b: nat, s: nat, t: nat)
    requires
        (x == a && y == b) || (x == -a && y == -b),
        x * t == y * s,
    ensures
        a * t == b * s,
{
    if x == -a {
        assert((-a) * t == -(a * t)) by (nonlinear_arith);
        assert((-b) * s == -(b * s)) by (nonlinear_arith);
    }
}

/// Equal ratios are rounded alike.
proof fn lemma_same_ratio(a: nat, b: nat, s: nat, t: nat, r: u32, q: u32)
    requires
        a * t == b * s,
        s > 0,
        t > 0,
        rounds_to(a * pow2(149), s, r),
        rounds_to(b * pow2(149), t, q),
    ensures
        r == q,
{
    let p = pow2(149);
    lemma_common_factor(a * p, s, t, r);
    lemma_common_factor(b * p, t, s, q);
    assert((a * p) * t == (b * p) * s) by (nonlinear_arith)
        requires
            a * t == b * s,
    ;
    assert(s * t == t * s && s * t > 0) by (nonlinear_arith)
        requires
            s > 0,
            t > 0,
    ;
    lemma_nearest_is_unique((a * p) * t, s * t, r, q);
}

/// A ranking lists every token of the row once, the greater probability first, and of equal ones
/// the lesser token. Those whose probability is no number come last, the lesser token first.
pub proof fn lemma_ranked_by_probability(row: Seq<u32>, order: Seq<int>, i: int, j: int)
    requires
        is_ranking(row, order),
        0 <= i < j < row.len(),
    ensures
        order.len() == row.len(),
        0 <= order[i] < row.len(),
        is_nan(row[order[i]]) ==> is_nan(row[order[j]]) && order[i] < order[j],
        is_nan(row[order[j]]) || value(row[order[i]]) > value(row[order[j]]) || (value(
            row[order[i]],
        ) == value(row[order[j]]) && order[i] < order[j]),
        forall|t: int| 0 <= t < row.len() ==> #[trigger] order.contains(t),
{
    assert(ranked_before(row, order[i], order[j]));
    if !is_nan(row[order[i]]) && !is_nan(row[order[j]]) {
        lemma_floats_are_ordered(row[order[i]], row[order[j]]);
    }
    assert forall|t: int| 0 <= t < row.len() implies #[trigger] order.contains(t) by {
        let k = lemma_ranking_is_complete(row, order, t);
        assert(order[k] == t);
    }
}

/// Sums and shares start at zero and take in one token of the ranking after the other.
pub proof fn lemma_sums_take_in_tokens(row: Seq<u32>, order: Seq<int>, total: u32, n: int)
    requires
        n >= 0,
    ensures
        sum_of_first(row, order, 0) == 0,
        sum_of_first(row, order, n + 1) == float_sum(sum_of_first(row, order, n), row[order[n]]),
        share_of_first(row, order, total, 0) == 0,
        share_of_first(row, order, total, n + 1) == float_sum(
            share_of_first(row, order, total, n),
            float_quotient(row[order[n]], total),
        ),
{
}

/// Which token a draw stands for. The ranked tokens are cut down to the first `k`, where `k` is
/// `top_k`, or all if that is zero or not below their number; and then to the first `n`, the fewest
/// whose share of the sum is at least `top_p`, or all `k` if `top_p` is one or more or no number,
/// or the sum gives no shares. The token is at place `j`, the first place up to which the shares
/// add up to more than `draw * 2^-24`, or the first place of all if there is none or the sum gives
/// no shares. The ranking, `k`, `n` and `j` are given back.
pub proof fn lemma_which_token_is_drawn(
    row: Seq<u32>,
    top_k: nat,
    top_p: Single,
    draw: u32,
    token: int,
) -> (s: (Seq<int>, int, int, int))
    requires
        is_drawn(row, top_k, top_p, draw, token),
    ensures
        ({
            let (order, k, n, j) = s;
            let kept = sum_of_first(row, order, k);
            let total = sum_of_first(row, order, n);
            &&& is_ranking(row, order)
            &&& k == if top_k == 0 || top_k >= row.len() {
                row.len()
            } else {
                top_k
            }
            &&& 0 <= j < n <= k
            &&& (is_nan(top_p.bits) || value(top_p.bits) >= pow2(149) || kept == 0 || kept
                >= INFINITY) ==> n == k
            &&& !(is_nan(top_p.bits) || value(top_p.bits) >= pow2(149) || kept == 0 || kept
                >= INFINITY) ==> {
                &&& n < k ==> is_share_of(share_of_first(row, order, kept, n), top_p.bits)
                &&& forall|m: int|
                    1 <= m < n ==> !is_share_of(
                        #[trigger] share_of_first(row, order, kept, m),
                        top_p.bits,
                    )
            }
            &&& token == order[j]
            &&& (total == 0 || total >= INFINITY) ==> j == 0
            &&& 0 < total < INFINITY ==> {
                ||| is_past(share_of_first(row, order, total, j + 1), draw) && forall|i: int|
                    1 <= i <= j ==> !is_past(#[trigger] share_of_first(row, order, total, i), draw)
                ||| j == 0 && forall|i: int|
                    1 <= i <= n ==> !is_past(#[trigger] share_of_first(row, order, total, i), draw)
            }
        }),
{
    let (order, n, j) = choose|order: Seq<int>, n: int, j: int| #[trigger]
        drawn_with(row, top_k, top_p, draw, order, n, j, token);
    let k = kept_by_top_k(top_k, row.len()) as int;
    let kept = sum_of_first(row, order, k);
    let total = sum_of_first(row, order, n);
    lemma_what_bits_say(0);
    if !is_nan(top_p.bits) {
        lemma_floats_are_ordered(0x3f80_0000, top_p.bits);
    }
    assert(is_nucleus(row, order, k, top_p, n));
    if !(is_nan(top_p.bits) || value(top_p.bits) >= pow2(149) || kept == 0 || kept >= INFINITY) {
        if n < k {
            let share = share_of_first(row, order, kept, n);
            lemma_floats_are_ordered(top_p.bits, share);
        }
        assert forall|m: int| 1 <= m < n implies !is_share_of(
            #[trigger] share_of_first(row, order, kept, m),
            top_p.bits,
        ) by {
            let share = share_of_first(row, order, kept, m);
            assert(!holds_share(row, order, k, top_p, m));
            if !is_nan(share) {
                lemma_floats_are_ordered(top_p.bits, share);
            }
        }
    }
    assert(falls_on(row, order, n, draw, j));
    if 0 < total < INFINITY {
        if reaches(row, order, n, draw, j) {
            assert forall|i: int| 1 <= i <= j && (forall|m: int|
                0 <= m < j ==> !#[trigger] reaches(row, order, n, draw, m)) implies !is_past(
                #[trigger] share_of_first(row, order, total, i),
                draw,
            ) by {
                assert(!reaches(row, order, n, draw, i - 1));
            }
        } else {
            assert forall|i: int| 1 <= i <= n implies !is_past(
                #[trigger] share_of_first(row, order, total, i),
                draw,
            ) by {
                assert(!reaches(row, order, n, draw, i - 1));
            }
        }
    }
    (order, k, n, j)
}

/// Whether a share is a number and at least `top_p`.
pub open spec fn is_share_of(share: u32, top_p: u32) -> bool {
    !is_nan(share) && value(share) >= value(top_p)
}

/// Whether a share is a number and more than `draw * 2^-24`; `2^125` units are `2^-24`.
pub open spec fn is_past(share: u32, draw: u32) -> bool {
    !is_nan(share) && value(share) > draw * pow2(125)
}

/// Every row of a batch is drawn from by its own draw and its own probabilities.
pub proof fn lemma_rows_are_drawn_from(
    probs: TensorView,
    top_k: nat,
    top_p: Single,
    draws: Seq<u32>,
    tokens: Seq<i64>,
    b: int,
)
    requires
        are_drawn(probs, top_k, top_p, draws, tokens),
        0 <= b < probs.dims[0],
    ensures
        draws.len() == probs.dims[0],
        tokens.len() == probs.dims[0],
        draws[b] < 0x100_0000,
        is_drawn(
            Seq::new(probs.dims[1], |v: int| probs.at(seq![b, v])),
            top_k,
            top_p,
            draws[b],
            tokens[b] as int,
        ),
{
    assert(row_of(probs, b) =~= Seq::new(probs.dims[1], |v: int| probs.at(seq![b, v])));
    assert(is_drawn(row_of(probs, b), top_k, top_p, draws[b], tokens[b] as int));
}

} // verus!
