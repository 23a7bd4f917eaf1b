//! Choosing the next token out of the probabilities of a row.
//!
//! The tokens are ranked from the most to the least probable, cut down to the first `top_k` and
//! then to the nucleus that holds a share `top_p` of what is left, and one of them is drawn in
//! proportion to its probability: the shares of the tokens are added up one after the other until
//! they exceed the draw. All of that is done with 32-bit floats, so a sum may stay below the draw
//! to the end. Then, as in a row without a positive and finite sum, the first of the ranking is
//! taken. A draw is one of the `2^24` multiples of `2^-24` below one.
use vstd::arithmetic::power2::pow2;
use vstd::prelude::*;

use crate::float::{
    add_floats, divide_floats, draw_is_below, float_quotient, float_sum, is_below,
    lemma_float_is_nearest, lemma_nearest_exists, lemma_nearest_to_nothing, lemma_sum_with_zero,
    lemma_units_increase, lemma_zero_units, units, value, INFINITY,
};
use crate::nn::is_finite;
use crate::num::Single;
use crate::random::RandomSource;
use crate::tensor::{
    is_first_max, is_nan, lemma_offset2, order_key, row_of, FloatTensor, TensorView,
};

verus! {

/// The place of a probability in the ranking, the greatest first and a NaN last.
pub open spec fn rank_key(bits: u32) -> int {
    if is_nan(bits) {
        0xffff_ffff
    } else {
        0x7fff_ffff - order_key(bits)
    }
}

/// Whether token `a` is ranked before token `b`: it is more probable, or as probable and first.
pub open spec fn ranked_before(row: Seq<u32>, a: int, b: int) -> bool {
    rank_key(row[a]) < rank_key(row[b]) || (rank_key(row[a]) == rank_key(row[b]) && a < b)
}

/// `order` lists all tokens of the row from the first to the last ranked.
pub open spec fn is_ranking(row: Seq<u32>, order: Seq<int>) -> bool {
    &&& order.len() == row.len()
    &&& forall|i: int| 0 <= i < order.len() ==> 0 <= #[trigger] order[i] < row.len()
    &&& forall|i: int, j: int|
        0 <= i < j < order.len() ==> ranked_before(row, #[trigger] order[i], #[trigger] order[j])
}

/// The sum of the first `n` probabilities of a ranking.
pub open spec fn sum_of_first(row: Seq<u32>, order: Seq<int>, n: int) -> u32
    decreases n,
{
    if n <= 0 {
        0
    } else {
        float_sum(sum_of_first(row, order, n - 1), row[order[n - 1]])
    }
}

/// Whether the first `n` probabilities of a ranking can be divided by their sum to give shares: it
/// is positive and finite.
pub open spec fn has_shares(row: Seq<u32>, order: Seq<int>, n: int) -> bool {
    0 < sum_of_first(row, order, n) < INFINITY
}

/// The sum of the shares that the first `m` probabilities of a ranking have of `total`.
pub open spec fn share_of_first(row: Seq<u32>, order: Seq<int>, total: u32, m: int) -> u32
    decreases m,
{
    if m <= 0 {
        0
    } else {
        float_sum(
            share_of_first(row, order, total, m - 1),
            float_quotient(row[order[m - 1]], total),
        )
    }
}

/// How many tokens `top_k` keeps: all of them if it is zero or not below their number.
pub open spec fn kept_by_top_k(top_k: nat, tokens: nat) -> nat {
    if 0 < top_k < tokens {
        top_k
    } else {
        tokens
    }
}

/// Whether nucleus sampling is off: `top_p` is one or more, or no number.
pub open spec fn nucleus_off(top_p: Single) -> bool {
    0x3f80_0000 <= top_p.bits < 0x8000_0000 || is_nan(top_p.bits)
}

/// Whether the first `n` of `k` ranked tokens hold a share `top_p` of the sum.
pub open spec fn holds_share(
    row: Seq<u32>,
    order: Seq<int>,
    k: int,
    top_p: Single,
    n: int,
) -> bool {
    let share = share_of_first(row, order, sum_of_first(row, order, k), n);
    !is_nan(share) && order_key(share) >= order_key(top_p.bits)
}

/// The nucleus of the first `k` ranked tokens is the first `n`: the fewest that hold the share
/// `top_p`, but at least one, and all of them if none or no fewer do.
pub open spec fn is_nucleus(
    row: Seq<u32>,
    order: Seq<int>,
    k: int,
    top_p: Single,
    n: int,
) -> bool {
    if nucleus_off(top_p) || !has_shares(row, order, k) {
        n == k
    } else {
        &&& 1 <= n <= k
        &&& n < k ==> holds_share(row, order, k, top_p, n)
        &&& forall|m: int| 1 <= m < n ==> !#[trigger] holds_share(row, order, k, top_p, m)
    }
}

/// Whether `draw` is less than the share that the first `j + 1` of the first `n` ranked tokens have
/// of their sum.
pub open spec fn reaches(row: Seq<u32>, order: Seq<int>, n: int, draw: u32, j: int) -> bool {
    draw_is_below(draw, share_of_first(row, order, sum_of_first(row, order, n), j + 1))
}

/// `draw` falls on place `j` of the first `n` ranked tokens: on the first place where the shares
/// added up exceed it. If there is no such place, or there are no shares, it is the first place.
pub open spec fn falls_on(row: Seq<u32>, order: Seq<int>, n: int, draw: u32, j: int) -> bool {
    &&& 0 <= j < n
    &&& if has_shares(row, order, n) {
        ||| {
            &&& reaches(row, order, n, draw, j)
            &&& forall|i: int| 0 <= i < j ==> !#[trigger] reaches(row, order, n, draw, i)
        }
        ||| {
            &&& j == 0
            &&& forall|i: int| 0 <= i < n ==> !#[trigger] reaches(row, order, n, draw, i)
        }
    } else {
        j == 0
    }
}

/// `token` is at place `j` of the ranking `order`, cut down to `n` tokens, and `draw`, in units of
/// `2^-24`, falls on it.
pub open spec fn drawn_with(
    row: Seq<u32>,
    top_k: nat,
    top_p: Single,
    draw: u32,
    order: Seq<int>,
    n: int,
    j: int,
    token: int,
) -> bool {
    &&& is_ranking(row, order)
    &&& is_nucleus(row, order, kept_by_top_k(top_k, row.len()) as int, top_p, n)
    &&& falls_on(row, order, n, draw, j)
    &&& token == order[j]
}

/// `token` is the token of the row that `draw`, in units of `2^-24`, stands for.
pub open spec fn is_drawn(
    row: Seq<u32>,
    top_k: nat,
    top_p: Single,
    draw: u32,
    token: int,
) -> bool {
    exists|order: Seq<int>, n: int, j: int| #[trigger]
        drawn_with(row, top_k, top_p, draw, order, n, j, token)
}

/// Pairs in ascending order, by the first and then by the second component.
pub open spec fn pair_order(a: (u32, usize), b: (u32, usize)) -> bool {
    a.0 < b.0 || (a.0 == b.0 && a.1 <= b.1)
}

/// `slice::sort` of pairs of integers: the same pairs in ascending order.
#[verifier::external_body]
fn sort_pairs(pairs: &mut Vec<(u32, usize)>)
    ensures
        final(pairs)@.to_multiset() == old(pairs)@.to_multiset(),
        forall|i: int, j: int|
            0 <= i < j < final(pairs)@.len() ==> pair_order(
                #[trigger] final(pairs)@[i],
                #[trigger] final(pairs)@[j],
            ),
{
    pairs.sort()
}

/// The rank key of a probability.
fn rank_key_of(bits: u32) -> (r: u32)
    ensures
        r == rank_key(bits),
{
    if bits % 0x8000_0000 > 0x7f80_0000 {
        0xffff_ffff
    } else if bits >= 0x8000_0000 {
        0x7fff_ffff + (bits - 0x8000_0000)
    } else {
        0x7fff_ffff - bits
    }
}

/// The tokens of a row from the first to the last ranked.
fn rank(row: &Vec<u32>) -> (r: Vec<usize>)
    ensures
        is_ranking(row@, r@.map_values(|t: usize| t as int)),
{
    let mut pairs: Vec<(u32, usize)> = Vec::new();
    let mut i: usize = 0;
    while i < row.len()
        invariant
            0 <= i <= row@.len(),
            pairs@.len() == i,
            forall|j: int|
                0 <= j < i ==> (#[trigger] pairs@[j]).0 == rank_key(row@[j]) && pairs@[j].1 == j,
        decreases row@.len() - i,
    {
        pairs.push((rank_key_of(row[i]), i));
        i += 1;
    }
    let ghost unsorted = pairs@;
    sort_pairs(&mut pairs);
    proof {
        assert(unsorted.no_duplicates());
        unsorted.lemma_multiset_has_no_duplicates();
        pairs@.lemma_multiset_has_no_duplicates_conv();
        broadcast use vstd::seq_lib::group_to_multiset_ensures;

        assert(pairs@.to_multiset().len() == pairs@.len());
        assert(unsorted.to_multiset().len() == unsorted.len());
        assert forall|k: int| 0 <= k < pairs@.len() implies 0 <= (#[trigger] pairs@[k]).1
            < row@.len() && pairs@[k].0 == rank_key(row@[pairs@[k].1 as int]) by {
            assert(pairs@.contains(pairs@[k]));
            assert(pairs@.to_multiset().count(pairs@[k]) > 0);
            assert(unsorted.contains(pairs@[k]));
        }
    }
    let mut order: Vec<usize> = Vec::new();
    let mut k: usize = 0;
    while k < pairs.len()
        invariant
            0 <= k <= pairs@.len(),
            order@.len() == k,
            forall|j: int| 0 <= j < k ==> #[trigger] order@[j] == pairs@[j].1,
        decreases pairs@.len() - k,
    {
        order.push(pairs[k].1);
        k += 1;
    }
    proof {
        let places = order@.map_values(|t: usize| t as int);
        assert forall|i: int, j: int| 0 <= i < j < places.len() implies ranked_before(
            row@,
            #[trigger] places[i],
            #[trigger] places[j],
        ) by {
            assert(order@[i] == pairs@[i].1 && order@[j] == pairs@[j].1);
            assert(pair_order(pairs@[i], pairs@[j]));
            assert(pairs@[i] != pairs@[j]);
        }
    }
    order
}

/// Whether nucleus sampling is off.
fn is_nucleus_off(top_p: Single) -> (r: bool)
    ensures
        r == nucleus_off(top_p),
{
    top_p.bits % 0x8000_0000 > 0x7f80_0000 || (0x3f80_0000 <= top_p.bits && top_p.bits
        < 0x8000_0000)
}

/// The sum of the first `n` probabilities of a ranking.
fn total_of(row: &Vec<u32>, order: &Vec<usize>, n: usize) -> (total: u32)
    requires
        is_ranking(row@, order@.map_values(|t: usize| t as int)),
        n <= order@.len(),
    ensures
        total == sum_of_first(row@, order@.map_values(|t: usize| t as int), n as int),
{
    let ghost places = order@.map_values(|t: usize| t as int);
    let mut total: u32 = 0;
    let mut i: usize = 0;
    while i < n
        invariant
            0 <= i <= n <= order@.len(),
            places == order@.map_values(|t: usize| t as int),
            is_ranking(row@, places),
            total == sum_of_first(row@, places, i as int),
        decreases n - i,
    {
        assert(places[i as int] == order@[i as int]);
        total = add_floats(total, row[order[i]]);
        i += 1;
    }
    total
}

/// Only finite probabilities have a finite sum.
proof fn lemma_finite_sum(row: Seq<u32>, order: Seq<int>, n: int, i: int)
    requires
        0 <= i < n,
        is_finite(sum_of_first(row, order, n)),
    ensures
        is_finite(row[order[i]]),
    decreases n,
{
    let (s, p) = (sum_of_first(row, order, n - 1), row[order[n - 1]]);
    assert(is_finite(s) && is_finite(p));
    if i < n - 1 {
        lemma_finite_sum(row, order, n - 1, i);
    }
}

/// The size of the nucleus of the first `k` ranked tokens.
fn nucleus_size(row: &Vec<u32>, order: &Vec<usize>, k: usize, top_p: Single) -> (n: usize)
    requires
        is_ranking(row@, order@.map_values(|t: usize| t as int)),
        1 <= k <= order@.len(),
    ensures
        is_nucleus(row@, order@.map_values(|t: usize| t as int), k as int, top_p, n as int),
        1 <= n <= k,
{
    let ghost places = order@.map_values(|t: usize| t as int);
    if is_nucleus_off(top_p) {
        return k;
    }
    let total = total_of(row, order, k);
    if total == 0 || total >= INFINITY {
        return k;
    }
    let mut share: u32 = 0;
    let mut n: usize = 0;
    while n < k
        invariant
            0 <= n <= k <= order@.len(),
            places == order@.map_values(|t: usize| t as int),
            is_ranking(row@, places),
            total == sum_of_first(row@, places, k as int),
            0 < total < INFINITY,
            !nucleus_off(top_p),
            share == share_of_first(row@, places, total, n as int),
            forall|m: int|
                1 <= m <= n ==> !#[trigger] holds_share(row@, places, k as int, top_p, m),
        decreases k - n,
    {
        assert(places[n as int] == order@[n as int]);
        proof {
            lemma_finite_sum(row@, places, k as int, n as int);
        }
        share = add_floats(share, divide_floats(row[order[n]], total));
        n += 1;
        if is_at_least(share, top_p.bits) {
            return n;
        }
    }
    k
}

/// Tells whether a float is no NaN and at least another one that is no NaN.
fn is_at_least(a: u32, b: u32) -> (r: bool)
    ensures
        r == (!is_nan(a) && order_key(a) >= order_key(b)),
{
    if a % 0x8000_0000 > 0x7f80_0000 {
        return false;
    }
    if a < 0x8000_0000 {
        if b < 0x8000_0000 {
            a >= b
        } else {
            true
        }
    } else if b < 0x8000_0000 {
        a == 0x8000_0000 && b == 0
    } else {
        a <= b
    }
}

/// The place that a draw falls on, of the first `n` ranked tokens.
fn place_of(row: &Vec<u32>, order: &Vec<usize>, n: usize, draw: u32) -> (j: usize)
    requires
        is_ranking(row@, order@.map_values(|t: usize| t as int)),
        1 <= n <= order@.len(),
    ensures
        falls_on(row@, order@.map_values(|t: usize| t as int), n as int, draw, j as int),
        j < n,
{
    let ghost places = order@.map_values(|t: usize| t as int);
    let total = total_of(row, order, n);
    if total == 0 || total >= INFINITY {
        return 0;
    }
    let mut share: u32 = 0;
    let mut j: usize = 0;
    while j < n
        invariant
            0 <= j <= n <= order@.len(),
            n >= 1,
            places == order@.map_values(|t: usize| t as int),
            is_ranking(row@, places),
            total == sum_of_first(row@, places, n as int),
            0 < total < INFINITY,
            share == share_of_first(row@, places, total, j as int),
            forall|i: int| 0 <= i < j ==> !#[trigger] reaches(row@, places, n as int, draw, i),
        decreases n - j,
    {
        assert(places[j as int] == order@[j as int]);
        proof {
            lemma_finite_sum(row@, places, n as int, j as int);
        }
        share = add_floats(share, divide_floats(row[order[j]], total));
        assert(share == share_of_first(row@, places, total, j + 1));
        if is_below(draw, share) {
            assert(reaches(row@, places, n as int, draw, j as int));
            return j;
        }
        assert(!reaches(row@, places, n as int, draw, j as int));
        j += 1;
    }
    0
}

/// The token of a row that a draw stands for.
///
/// # Arguments
/// * `row` - The probabilities of all tokens
/// * `top_k` - How many of the most probable tokens to choose from (0 = all)
/// * `top_p` - The share of the sum that the nucleus holds (1 = off)
/// * `draw` - A number below `2^24`
pub fn sample_row(row: &Vec<u32>, top_k: usize, top_p: Single, draw: u32) -> (token: usize)
    requires
        row@.len() > 0,
        draw < 0x100_0000,
    ensures
        is_drawn(row@, top_k as nat, top_p, draw, token as int),
        token < row@.len(),
{
    let order = rank(row);
    let ghost places = order@.map_values(|t: usize| t as int);
    let vocab: usize = row.len();
    let k: usize = if top_k > 0 && top_k < vocab {
        top_k
    } else {
        vocab
    };
    let n = nucleus_size(row, &order, k, top_p);
    let j = place_of(row, &order, n, draw);
    proof {
        assert(places[j as int] == order@[j as int]);
        assert(drawn_with(
            row@,
            top_k as nat,
            top_p,
            draw,
            places,
            n as int,
            j as int,
            places[j as int],
        ));
    }
    order[j]
}

/// `tokens` holds a token for every row of `probs`: that which the draw of the row stands for.
pub open spec fn are_drawn(
    probs: TensorView,
    top_k: nat,
    top_p: Single,
    draws: Seq<u32>,
    tokens: Seq<i64>,
) -> bool {
    &&& draws.len() == probs.dims[0]
    &&& tokens.len() == probs.dims[0]
    &&& forall|b: int|
        0 <= b < tokens.len() ==> draws[b] < 0x100_0000 && is_drawn(
            row_of(probs, b),
            top_k,
            top_p,
            draws[b],
            #[trigger] tokens[b] as int,
        )
}

/// The tokens of a batch that given draws stand for.
///
/// # Arguments
/// * `probs` - The probabilities of all tokens `[batch, vocab]`
/// * `top_k` - How many of the most probable tokens to choose from (0 = all)
/// * `top_p` - The share of the sum that the nucleus holds (1 = off)
/// * `draws` - A number below `2^24` for every row
pub fn sample_with_draws(
    probs: &FloatTensor,
    top_k: usize,
    top_p: Single,
    draws: &Vec<u32>,
) -> (tokens: Vec<i64>)
    requires
        probs@.wf(),
        probs@.dims.len() == 2,
        probs@.dims[1] <= i64::MAX,
        draws@.len() == probs@.dims[0],
        forall|b: int| 0 <= b < draws@.len() ==> #[trigger] draws@[b] < 0x100_0000,
    ensures
        are_drawn(probs@, top_k as nat, top_p, draws@, tokens@),
        forall|b: int| 0 <= b < tokens@.len() ==> 0 <= #[trigger] tokens@[b] < probs@.dims[1],
{
    let d = probs.dims();
    let (batch, vocab): (usize, usize) = (d[0], d[1]);
    let bits = probs.to_bits();
    let count: usize = bits.len();
    let mut tokens: Vec<i64> = Vec::new();
    let mut b: usize = 0;
    proof {
        lemma_offset2(probs@.dims, 0, 0);
    }
    while b < batch
        invariant
            0 <= b <= batch,
            probs@.dims.len() == 2,
            probs@.dims[0] == batch,
            probs@.dims[1] == vocab,
            0 < vocab <= i64::MAX,
            bits@ == probs@.data,
            bits@.len() == batch * vocab,
            bits@.len() == count,
            draws@.len() == batch,
            forall|i: int| 0 <= i < draws@.len() ==> #[trigger] draws@[i] < 0x100_0000,
            tokens@.len() == b,
            forall|i: int|
                0 <= i < b ==> is_drawn(
                    row_of(probs@, i),
                    top_k as nat,
                    top_p,
                    draws@[i],
                    #[trigger] tokens@[i] as int,
                ) && 0 <= tokens@[i] < vocab,
        decreases batch - b,
    {
        let mut row: Vec<u32> = Vec::new();
        let mut i: usize = 0;
        proof {
            assert((b + 1) * vocab <= batch * vocab) by (nonlinear_arith)
                requires
                    b + 1 <= batch,
            ;
            assert((b + 1) * vocab == b * vocab + vocab) by (nonlinear_arith);
        }
        let start: usize = b * vocab;
        while i < vocab
            invariant
                0 <= i <= vocab,
                start + vocab <= count,
                count == bits@.len(),
                row@ == bits@.subrange(start as int, start + i),
            decreases vocab - i,
        {
            row.push(bits[start + i]);
            assert(row@ =~= bits@.subrange(start as int, start + i + 1));
            i += 1;
        }
        proof {
            assert forall|j: int| 0 <= j < vocab implies row@[j] == #[trigger] row_of(
                probs@,
                b as int,
            )[j] by {
                lemma_offset2(probs@.dims, b as int, j);
            }
            assert(row@ =~= row_of(probs@, b as int));
        }
        let token = sample_row(&row, top_k, top_p, draws[b]);
        tokens.push(token as i64);
        b += 1;
    }
    tokens
}

/// The draw that a random word stands for: its upper 24 bits. Every draw stands for equally many
/// words.
pub fn draw_of_word(word: u32) -> (draw: u32)
    ensures
        draw == word / 0x100,
        draw < 0x100_0000,
{
    word / 0x100
}

/// The draws that random words stand for.
pub open spec fn draws_of(words: Seq<u32>) -> Seq<u32> {
    words.map_values(|w: u32| w / 0x100)
}

/// `tokens` are those that the words of a source stand for, one word for every row of `probs`.
pub open spec fn are_drawn_by(
    probs: TensorView,
    top_k: nat,
    top_p: Single,
    source: RandomSource,
    tokens: Seq<i64>,
) -> bool {
    &&& source.is_drawn()
    &&& source@.len() == probs.dims[0]
    &&& are_drawn(probs, top_k, top_p, draws_of(source@), tokens)
}

/// Draws a token out of every row of a batch of probabilities, with a new word of the source for
/// each of them.
///
/// # Arguments
/// * `probs` - The probabilities of all tokens `[batch, vocab]`
/// * `top_k` - How many of the most probable tokens to choose from (0 = all)
/// * `top_p` - The share of the sum that the nucleus holds (1 = off)
/// * `source` - Where the random words come from
pub fn sample_from_source(
    probs: &FloatTensor,
    top_k: usize,
    top_p: Single,
    source: &mut RandomSource,
) -> (tokens: Vec<i64>)
    requires
        probs@.wf(),
        probs@.dims.len() == 2,
        probs@.dims[1] <= i64::MAX,
        old(source).is_drawn(),
    ensures
        final(source).is_drawn(),
        final(source)@.len() == old(source)@.len() + probs@.dims[0],
        final(source)@.take(old(source)@.len() as int) == old(source)@,
        are_drawn(
            probs@,
            top_k as nat,
            top_p,
            draws_of(final(source)@.skip(old(source)@.len() as int)),
            tokens@,
        ),
        tokens@.len() == probs@.dims[0],
        forall|b: int| 0 <= b < tokens@.len() ==> 0 <= #[trigger] tokens@[b] < probs@.dims[1],
{
    let batch: usize = probs.dims()[0];
    let ghost before = source@;
    let mut draws: Vec<u32> = Vec::new();
    let mut b: usize = 0;
    assert(source@.take(before.len() as int) =~= before);
    assert(draws@ =~= draws_of(source@.skip(before.len() as int)));
    while b < batch
        invariant
            0 <= b <= batch,
            draws@.len() == b,
            source.is_drawn(),
            source@.len() == before.len() + b,
            source@.take(before.len() as int) == before,
            draws@ == draws_of(source@.skip(before.len() as int)),
            forall|i: int| 0 <= i < b ==> #[trigger] draws@[i] < 0x100_0000,
        decreases batch - b,
    {
        let ghost drawn = source@;
        let word = source.next();
        draws.push(draw_of_word(word));
        proof {
            let n = before.len() as int;
            assert(source@.take(n) =~= drawn.take(n));
            assert(source@.skip(n) =~= drawn.skip(n).push(word));
            assert(draws@ =~= draws_of(source@.skip(n)));
        }
        b += 1;
    }
    sample_with_draws(probs, top_k, top_p, &draws)
}

/// Draws a token out of every row of a batch of probabilities.
///
/// # Arguments
/// * `probs` - The probabilities of all tokens `[batch, vocab]`
/// * `top_k` - How many of the most probable tokens to choose from (0 = all)
/// * `top_p` - The share of the sum that the nucleus holds (1 = off)
pub fn sample_from_probs(probs: &FloatTensor, top_k: usize, top_p: Single) -> (tokens: Vec<i64>)
    requires
        probs@.wf(),
        probs@.dims.len() == 2,
        probs@.dims[1] <= i64::MAX,
    ensures
        exists|source: RandomSource| #[trigger]
            are_drawn_by(probs@, top_k as nat, top_p, source, tokens@),
        exists|draws: Seq<u32>| #[trigger]
            are_drawn(probs@, top_k as nat, top_p, draws, tokens@),
        tokens@.len() == probs@.dims[0],
        forall|b: int| 0 <= b < tokens@.len() ==> 0 <= #[trigger] tokens@[b] < probs@.dims[1],
{
    let mut source = RandomSource::new();
    let tokens = sample_from_source(probs, top_k, top_p, &mut source);
    proof {
        assert(source@.skip(0) =~= source@);
        assert(are_drawn_by(probs@, top_k as nat, top_p, source, tokens@));
    }
    tokens
}

/// A draw is the upper 24 bits of its own word: word `b` gives draw `d` if and only if it is one of
/// the 256 words from `256 d` on. So every draw comes of equally many words.
pub proof fn lemma_draws_are_upper_bits(words: Seq<u32>, b: int, d: u32)
    requires
        0 <= b < words.len(),
    ensures
        draws_of(words).len() == words.len(),
        draws_of(words)[b] == d <==> 256 * d <= words[b] < 256 * d + 256,
{
}

/// Every result that some draws below `2^24` stand for may come of random words, in a batch of any
/// number of rows.
pub proof fn lemma_all_draws_may_come(
    probs: TensorView,
    top_k: nat,
    top_p: Single,
    draws: Seq<u32>,
    tokens: Seq<i64>,
) -> (words: Seq<u32>)
    requires
        are_drawn(probs, top_k, top_p, draws, tokens),
    ensures
        words.len() == probs.dims[0],
        forall|b: int| 0 <= b < words.len() ==> #[trigger] words[b] == 256 * draws[b],
        are_drawn(probs, top_k, top_p, draws_of(words), tokens),
{
    let words = Seq::new(draws.len(), |b: int| (256 * draws[b]) as u32);
    assert forall|b: int| 0 <= b < words.len() implies #[trigger] words[b] == 256 * draws[b]
        && draws_of(words)[b] == draws[b] by {
        assert(is_drawn(row_of(probs, b), top_k, top_p, draws[b], tokens[b] as int));
    }
    assert(draws_of(words) =~= draws);
    words
}

/// A ranking lists every token of the row.
pub(crate) proof fn lemma_ranking_is_complete(
    row: Seq<u32>,
    order: Seq<int>,
    token: int,
) -> (i: int)
    requires
        is_ranking(row, order),
        0 <= token < row.len(),
    ensures
        0 <= i < order.len(),
        order[i] == token,
{
    let all = vstd::set_lib::set_int_range(0, row.len() as int);
    vstd::set_lib::lemma_int_range(0, row.len() as int);
    assert(order.no_duplicates());
    order.unique_seq_to_set();
    assert(order.to_set().subset_of(all));
    vstd::set_lib::lemma_subset_equality(order.to_set(), all);
    assert(order.to_set().contains(token));
    choose|i: int| 0 <= i < order.len() && order[i] == token
}

/// A row has one ranking.
proof fn lemma_one_ranking(row: Seq<u32>, a: Seq<int>, b: Seq<int>, n: int)
    requires
        is_ranking(row, a),
        is_ranking(row, b),
        0 <= n <= row.len(),
    ensures
        a.take(n) == b.take(n),
    decreases n,
{
    if n > 0 {
        lemma_one_ranking(row, a, b, n - 1);
        let i = n - 1;
        assert forall|k: int| 0 <= k < i implies #[trigger] a[k] == b[k] by {
            assert(a.take(i)[k] == b.take(i)[k]);
        }
        if a[i] != b[i] {
            let in_b = lemma_ranking_is_complete(row, b, a[i]);
            let in_a = lemma_ranking_is_complete(row, a, b[i]);
            if in_b < i {
                assert(a[in_b] == b[in_b]);
                assert(ranked_before(row, a[in_b], a[i]));
            } else if in_a < i {
                assert(a[in_a] == b[in_a]);
                assert(ranked_before(row, b[in_a], b[i]));
            } else {
                assert(ranked_before(row, b[i], b[in_b]));
                assert(ranked_before(row, a[i], a[in_a]));
            }
        }
        assert(a.take(n) =~= b.take(n));
    } else {
        assert(a.take(n) =~= b.take(n));
    }
}

/// The row, the settings and the draw determine the token.
pub proof fn lemma_draw_determines_token(
    row: Seq<u32>,
    top_k: nat,
    top_p: Single,
    draw: u32,
    a: int,
    b: int,
)
    requires
        is_drawn(row, top_k, top_p, draw, a),
        is_drawn(row, top_k, top_p, draw, b),
    ensures
        a == b,
{
    let (oa, na, ja) = choose|order: Seq<int>, n: int, j: int| #[trigger]
        drawn_with(row, top_k, top_p, draw, order, n, j, a);
    let (ob, nb, jb) = choose|order: Seq<int>, n: int, j: int| #[trigger]
        drawn_with(row, top_k, top_p, draw, order, n, j, b);
    lemma_one_ranking(row, oa, ob, row.len() as int);
    assert(oa.take(row.len() as int) =~= oa);
    assert(ob.take(row.len() as int) =~= ob);
    let k = kept_by_top_k(top_k, row.len()) as int;
    if !nucleus_off(top_p) && has_shares(row, oa, k) {
        if na < nb {
            assert(!holds_share(row, ob, k, top_p, na));
        } else if nb < na {
            assert(!holds_share(row, oa, k, top_p, nb));
        }
    }
    if has_shares(row, oa, na) {
        if reaches(row, oa, na, draw, ja) {
            if ja < jb {
                assert(!reaches(row, oa, na, draw, ja));
            }
        }
        if reaches(row, oa, na, draw, jb) {
            if jb < ja {
                assert(!reaches(row, oa, na, draw, jb));
            }
        }
    }
}

/// Fewer than `top_k` tokens are ranked before the drawn one.
pub proof fn lemma_fewer_ranked_before(
    row: Seq<u32>,
    top_k: nat,
    top_p: Single,
    draw: u32,
    token: int,
)
    requires
        is_drawn(row, top_k, top_p, draw, token),
    ensures
        0 <= token < row.len(),
        top_k > 0 ==> vstd::set_lib::set_int_range(0, row.len() as int).filter(
            |t: int| ranked_before(row, t, token),
        ).len() < top_k,
{
    let (order, n, j) = choose|order: Seq<int>, n: int, j: int| #[trigger]
        drawn_with(row, top_k, top_p, draw, order, n, j, token);
    let all = vstd::set_lib::set_int_range(0, row.len() as int);
    vstd::set_lib::lemma_int_range(0, row.len() as int);
    let before = all.filter(|t: int| ranked_before(row, t, token));
    let first = order.take(j);
    assert(first.no_duplicates());
    first.unique_seq_to_set();
    assert(before =~= first.to_set()) by {
        assert forall|t: int| before.contains(t) implies first.to_set().contains(t) by {
            let i = lemma_ranking_is_complete(row, order, t);
            if i >= j {
                if i > j {
                    assert(ranked_before(row, order[j], order[i]));
                }
                assert(false);
            }
            assert(first[i] == t);
        }
        assert forall|t: int| first.to_set().contains(t) implies before.contains(t) by {
            let i = choose|i: int| 0 <= i < first.len() && first[i] == t;
            assert(ranked_before(row, order[i], order[j]));
        }
    }
}

/// With `top_k` of one, or `top_p` of zero or less, the token is a most probable one, and the
/// first of them.
pub proof fn lemma_narrow_choice_is_greedy(
    row: Seq<u32>,
    top_k: nat,
    top_p: Single,
    draw: u32,
    token: int,
)
    requires
        is_drawn(row, top_k, top_p, draw, token),
        top_k == 1 || (!nucleus_off(top_p) && (top_p.bits == 0 || top_p.bits >= 0x8000_0000)),
        forall|t: int| 0 <= t < row.len() ==> !is_nan(#[trigger] row[t]),
    ensures
        is_first_max(row, token),
{
    let (order, n, j) = choose|order: Seq<int>, n: int, j: int| #[trigger]
        drawn_with(row, top_k, top_p, draw, order, n, j, token);
    if top_k != 1 {
        lemma_narrow_nucleus(row, order, kept_by_top_k(top_k, row.len()) as int, top_p, n);
    }
    assert(j == 0);
    lemma_first_ranked_is_greatest(row, order);
}

/// A nucleus that need not hold any share is one token, unless there are no shares.
proof fn lemma_narrow_nucleus(row: Seq<u32>, order: Seq<int>, k: int, top_p: Single, n: int)
    requires
        is_ranking(row, order),
        1 <= k <= row.len(),
        forall|t: int| 0 <= t < row.len() ==> !is_nan(#[trigger] row[t]),
        is_nucleus(row, order, k, top_p, n),
        !nucleus_off(top_p),
        top_p.bits == 0 || top_p.bits >= 0x8000_0000,
    ensures
        n == 1 || (n == k && !has_shares(row, order, k)),
{
    if has_shares(row, order, k) {
        lemma_first_holds_something(row, order, k);
        assert(holds_share(row, order, k, top_p, 1));
    }
}

/// The first of a ranking is a most probable token, and the first of them.
proof fn lemma_first_ranked_is_greatest(row: Seq<u32>, order: Seq<int>)
    requires
        is_ranking(row, order),
        row.len() > 0,
        forall|t: int| 0 <= t < row.len() ==> !is_nan(#[trigger] row[t]),
    ensures
        is_first_max(row, order[0]),
{
    let first = order[0];
    assert forall|t: int| 0 <= t < row.len() implies order_key(#[trigger] row[t]) <= order_key(
        row[first],
    ) && (t < first ==> order_key(row[t]) < order_key(row[first])) by {
        let i = lemma_ranking_is_complete(row, order, t);
        if i > 0 {
            assert(ranked_before(row, order[0], order[i]));
        }
    }
}

/// A token of probability zero is drawn only as the first of the ranking.
pub proof fn lemma_drawn_token_is_probable(
    row: Seq<u32>,
    top_k: nat,
    top_p: Single,
    draw: u32,
    order: Seq<int>,
    n: int,
    j: int,
    token: int,
)
    requires
        drawn_with(row, top_k, top_p, draw, order, n, j, token),
        row[token] % 0x8000_0000 == 0,
    ensures
        j == 0,
{
    if j > 0 {
        let total = sum_of_first(row, order, n);
        let share = share_of_first(row, order, total, j);
        lemma_zero_units();
        lemma_units_increase(0, total);
        lemma_nearest_to_nothing(units(total));
        assert(0 * pow2(149) == 0);
        if !is_nan(share) {
            lemma_sum_with_zero(share, float_quotient(row[token], total));
        }
        assert(!reaches(row, order, n, draw, j - 1));
        assert(reaches(row, order, n, draw, j));
    }
}

/// Numbers of which none is positive have no positive sum.
proof fn lemma_no_positive_sum(row: Seq<u32>, order: Seq<int>, n: int)
    requires
        forall|i: int|
            0 <= i < n ==> !is_nan(row[#[trigger] order[i]]) && order_key(row[order[i]]) <= 0,
    ensures
        sum_of_first(row, order, n) == 0 || 0x8000_0000 <= sum_of_first(row, order, n)
            <= 0xff80_0000,
    decreases n,
{
    if n > 0 {
        lemma_no_positive_sum(row, order, n - 1);
        let (s, p) = (sum_of_first(row, order, n - 1), row[order[n - 1]]);
        if is_finite(s) && is_finite(p) {
            let v = value(s) + value(p);
            lemma_zero_units();
            assert(v <= 0);
            lemma_float_is_nearest(0);
            lemma_nearest_exists((-v) as nat, 1);
        }
    }
}

/// The most probable token has a share that is not negative.
proof fn lemma_first_holds_something(row: Seq<u32>, order: Seq<int>, k: int)
    requires
        is_ranking(row, order),
        1 <= k <= row.len(),
        forall|t: int| 0 <= t < row.len() ==> !is_nan(#[trigger] row[t]),
        has_shares(row, order, k),
    ensures
        share_of_first(row, order, sum_of_first(row, order, k), 1) <= INFINITY,
{
    let total = sum_of_first(row, order, k);
    let first = row[order[0]];
    if order_key(first) <= 0 {
        assert forall|i: int| 0 <= i < k implies !is_nan(row[#[trigger] order[i]]) && order_key(
            row[order[i]],
        ) <= 0 by {
            if i > 0 {
                assert(ranked_before(row, order[0], order[i]));
            }
        }
        lemma_no_positive_sum(row, order, k);
        assert(false);
    }
    let q = float_quotient(first, total);
    lemma_nearest_exists(units(first) * pow2(149), units(total));
    reveal_with_fuel(share_of_first, 2);
    lemma_zero_units();
    if q < INFINITY {
        lemma_float_is_nearest(q);
    }
}

} // verus!
