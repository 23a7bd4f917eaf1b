//! The causal language model: the base model with a projection to the vocabulary, and text
//! generation with it.
use vstd::prelude::*;

use crate::cache::{empty_caches, KVCacheView, ModelCache};
use crate::chance::{
    are_next_with, cached_step_with, drawn_run, drawn_tokens, generated_by,
    generated_with_cache_by, lemma_run_starts, lemma_run_takes_words, lemma_tokens_start,
    lemma_tokens_take_words, words_of_step,
};
use crate::config::Qwen3Config;
use crate::decoder::LayerTrace;
use crate::incremental::lemma_caches_keep_pace;
use crate::mask::{padding_fits, table_view};
use crate::model::{are_tokens, least, position_rows, positions_from, Qwen3Model};
use crate::nn::{entries_below, int_rows, is_int_table, normalized, projected, Linear};
use crate::num::Single;
use crate::ops;
use crate::ops::softmax_outcome;
use crate::random::RandomSource;
use crate::sampling::{are_drawn_by, draws_of, lemma_fewer_ranked_before, sample_from_source};
use crate::tensor::{
    in_bounds, is_first_max, is_nan, ix3, last_axis, lemma_offset2, lemma_offset3, nats,
    order_key, quotient_outcome, row_of, source_index, sums, FloatTensor, TensorView,
};

verus! {

/// The base model with a language modeling head.
pub struct Qwen3ForCausalLM {
    /// The base transformer model.
    pub model: Qwen3Model,
    /// Projection of hidden states to the logits of the vocabulary.
    pub lm_head: Linear,
}

/// The logits of sequence `b` at its last position.
pub open spec fn last_logits(logits: TensorView, b: int) -> Seq<u32> {
    last_axis(logits, seq![b, logits.dims[1] - 1])
}

/// `r`, which is `[batch, vocab]`, holds the logits at the last position over the temperature, or
/// as they are if the temperature is one.
pub open spec fn tempered(logits: TensorView, temperature: Single, r: TensorView) -> bool {
    &&& r.wf()
    &&& r.dims == seq![logits.dims[0], logits.dims[2]]
    &&& forall|idx: Seq<int>| in_bounds(r.dims, idx) ==> if temperature.spec_is_one() {
        #[trigger] r.at(idx) == last_logits(logits, idx[0])[idx[1]]
    } else {
        quotient_outcome(last_logits(logits, idx[0])[idx[1]], temperature.bits, r.at(idx))
    }
}

/// `r` holds softmax of every row of `a`.
pub open spec fn softmaxed(a: TensorView, r: TensorView) -> bool {
    &&& r.wf()
    &&& r.dims == a.dims
    &&& forall|idx: Seq<int>| in_bounds(r.dims, idx) ==> softmax_outcome(
        row_of(a, idx[0]),
        idx[1],
        #[trigger] r.at(idx),
    )
}

/// `tokens` are the first tokens with the greatest logit at the last position. Of a row with a NaN
/// only that the token is one of the vocabulary.
pub open spec fn are_greedy(logits: TensorView, tokens: Seq<i64>) -> bool {
    &&& tokens.len() == logits.dims[0]
    &&& forall|b: int| 0 <= b < tokens.len() ==> 0 <= #[trigger] tokens[b] < logits.dims[2]
    &&& forall|b: int|
        0 <= b < tokens.len() && (forall|j: int|
            0 <= j < logits.dims[2] ==> !is_nan(#[trigger] last_logits(logits, b)[j]))
            ==> is_first_max(last_logits(logits, b), #[trigger] tokens[b] as int)
}

/// `tokens` are drawn from softmax of the logits at the last position over the temperature.
pub open spec fn are_sampled(
    logits: TensorView,
    temperature: Single,
    top_p: Single,
    top_k: nat,
    tokens: Seq<i64>,
) -> bool {
    exists|scaled: TensorView, probs: TensorView, source: RandomSource|
        {
            &&& tempered(logits, temperature, scaled)
            &&& #[trigger] softmaxed(scaled, probs)
            &&& #[trigger] are_drawn_by(probs, top_k, top_p, source, tokens)
        }
}

/// `tokens` are possible next tokens after `logits`: greedy at temperature zero, drawn otherwise.
pub open spec fn are_next(
    logits: TensorView,
    temperature: Single,
    top_p: Single,
    top_k: nat,
    tokens: Seq<i64>,
) -> bool {
    if temperature.spec_is_zero() {
        are_greedy(logits, tokens)
    } else {
        are_sampled(logits, temperature, top_p, top_k, tokens)
    }
}

/// The logits `[batch, vocab]` at the last position.
fn take_last(logits: &FloatTensor) -> (r: FloatTensor)
    requires
        logits@.wf(),
        logits@.dims.len() == 3,
    ensures
        r@.wf(),
        r@.dims == seq![logits@.dims[0], logits@.dims[2]],
        forall|b: int|
            0 <= b < logits@.dims[0] ==> #[trigger] row_of(r@, b) == last_logits(logits@, b),
{
    let d = logits.dims();
    let (batch, seq, vocab): (usize, usize, usize) = (d[0], d[1], d[2]);
    let row = ops::slice::<3>(logits, [0, seq - 1, 0], [batch, seq, vocab]);
    proof {
        assert(row@.dims =~= seq![batch as nat, 1nat, vocab as nat]);
        assert(nats([batch, vocab]@) =~= seq![batch as nat, vocab as nat]);
        lemma_offset3(row@.dims, ix3(0, 0, 0));
        lemma_offset2(nats([batch, vocab]@), 0, 0);
    }
    let r = ops::reshape::<3, 2>(&row, [batch, vocab]);
    proof {
        assert forall|b: int| 0 <= b < batch implies #[trigger] row_of(r@, b) == last_logits(
            logits@,
            b,
        ) by {
            assert forall|j: int| 0 <= j < vocab implies #[trigger] row_of(r@, b)[j] == last_logits(
                logits@,
                b,
            )[j] by {
                lemma_offset2(r@.dims, b, j);
                lemma_offset3(row@.dims, ix3(b, 0, j));
                assert(in_bounds(row@.dims, ix3(b, 0, j)));
                assert(b * 1 + 0 == b);
                assert(r@.at(seq![b, j]) == row@.at(ix3(b, 0, j)));
                let starts = nats([0usize, (seq - 1) as usize, 0usize]@);
                assert(Seq::new(3, |i: int| starts[i] + ix3(b, 0, j)[i]) =~= seq![
                    b,
                    logits@.dims[1] - 1,
                ].push(j));
            }
            assert(row_of(r@, b) =~= last_logits(logits@, b));
        }
    }
    r
}

/// Chooses the next token of every sequence, and gives back the source of the random words that it
/// took: none at temperature zero, and otherwise a word for every sequence.
fn choose_next(
    logits: &FloatTensor,
    temperature: Single,
    top_p: Single,
    top_k: usize,
) -> (r: (Vec<i64>, RandomSource))
    requires
        logits@.wf(),
        logits@.dims.len() == 3,
        logits@.dims[2] <= i32::MAX,
    ensures
        are_next(logits@, temperature, top_p, top_k as nat, r.0@),
        are_next_with(logits@, temperature, top_p, top_k as nat, r.1@, r.0@),
        r.1.is_drawn(),
        r.1@.len() == words_of_step(temperature, logits@.dims[0]),
        r.0@.len() == logits@.dims[0],
        forall|b: int| 0 <= b < r.0@.len() ==> 0 <= #[trigger] r.0@[b] < logits@.dims[2],
{
    let mut source = RandomSource::new();
    let last = take_last(logits);
    if temperature.is_zero() {
        let tokens = ops::argmax(&last);
        proof {
            assert forall|b: int|
                0 <= b < tokens@.len() && (forall|j: int|
                    0 <= j < logits@.dims[2] ==> !is_nan(
                        #[trigger] last_logits(logits@, b)[j],
                    )) implies is_first_max(
                last_logits(logits@, b),
                #[trigger] tokens@[b] as int,
            ) by {
                assert(row_of(last@, b) == last_logits(logits@, b));
            }
        }
        return (tokens, source);
    }
    let scaled = if temperature.is_one() {
        last
    } else {
        let mut one: Vec<usize> = Vec::new();
        one.push(1);
        one.push(1);
        let mut bits: Vec<u32> = Vec::new();
        bits.push(temperature.bits);
        proof {
            assert(nats(one@) =~= seq![1nat, 1nat]);
            lemma_offset2(nats(one@), 0, 0);
        }
        let divisor = ops::from_data(one, bits);
        let quotient = ops::divided_by::<2>(&last, &divisor);
        proof {
            assert(quotient@.dims =~= last@.dims);
            assert forall|idx: Seq<int>| in_bounds(quotient@.dims, idx) implies quotient_outcome(
                last_logits(logits@, idx[0])[idx[1]],
                temperature.bits,
                #[trigger] quotient@.at(idx),
            ) by {
                assert(source_index(last@.dims, idx) =~= seq![idx[0], idx[1]]);
                assert(source_index(divisor@.dims, idx) =~= seq![0int, 0int]);
                lemma_offset2(divisor@.dims, 0, 0);
                assert(row_of(last@, idx[0])[idx[1]] == last@.at(seq![idx[0], idx[1]]));
            }
        }
        quotient
    };
    proof {
        assert(tempered(logits@, temperature, scaled@)) by {
            if temperature.spec_is_one() {
                assert forall|idx: Seq<int>| in_bounds(scaled@.dims, idx) implies
                    #[trigger] scaled@.at(idx) == last_logits(logits@, idx[0])[idx[1]] by {
                    assert(idx =~= seq![idx[0], idx[1]]);
                    assert(row_of(scaled@, idx[0])[idx[1]] == scaled@.at(seq![idx[0], idx[1]]));
                }
            }
        }
    }
    let probs = ops::softmax(&scaled);
    assert(softmaxed(scaled@, probs@));
    let tokens = sample_from_source(&probs, top_k, top_p, &mut source);
    proof {
        assert(source@.skip(0) =~= source@);
        assert(are_drawn_by(probs@, top_k as nat, top_p, source, tokens@));
    }
    (tokens, source)
}

/// Chooses the next token of every sequence: the one with the greatest logit at temperature zero,
/// and otherwise one drawn from the probabilities.
///
/// # Arguments
/// * `logits` - Logits `[batch, seq, vocab]`, of which the last position counts
/// * `temperature` - Sampling temperature
/// * `top_p` - Nucleus sampling threshold (1 = off)
/// * `top_k` - Top-k sampling (0 = off)
pub fn next_tokens(
    logits: &FloatTensor,
    temperature: Single,
    top_p: Single,
    top_k: usize,
) -> (tokens: Vec<i64>)
    requires
        logits@.wf(),
        logits@.dims.len() == 3,
        logits@.dims[2] <= i32::MAX,
    ensures
        are_next(logits@, temperature, top_p, top_k as nat, tokens@),
        tokens@.len() == logits@.dims[0],
        forall|b: int| 0 <= b < tokens@.len() ==> 0 <= #[trigger] tokens@[b] < logits@.dims[2],
{
    let (tokens, _) = choose_next(logits, temperature, top_p, top_k);
    tokens
}

/// The first `n` tokens of every sequence.
pub open spec fn first_tokens(rows: Seq<Seq<i64>>, n: int) -> Seq<Seq<i64>> {
    rows.map_values(|row: Seq<i64>| row.take(n))
}

/// Token `n` of every sequence.
pub open spec fn tokens_at(rows: Seq<Seq<i64>>, n: int) -> Seq<i64> {
    rows.map_values(|row: Seq<i64>| row[n])
}

/// Every sequence made of one token.
pub open spec fn lone_tokens(tokens: Seq<i64>) -> Seq<Seq<i64>> {
    tokens.map_values(|t: i64| seq![t])
}

/// `rows` with the first `n` of `columns` appended, each of which holds a token for every sequence.
pub open spec fn appended(rows: Seq<Seq<i64>>, columns: Seq<Seq<i64>>, n: nat) -> Seq<Seq<i64>> {
    Seq::new(rows.len(), |b: int| rows[b] + Seq::new(n, |i: int| columns[i][b]))
}

/// A copy of the tokens.
fn copy_rows(rows: &Vec<Vec<i64>>) -> (r: Vec<Vec<i64>>)
    ensures
        int_rows(r@) == int_rows(rows@),
        r@.len() == rows@.len(),
{
    let mut copy: Vec<Vec<i64>> = Vec::new();
    let mut b: usize = 0;
    while b < rows.len()
        invariant
            0 <= b <= rows@.len(),
            copy@.len() == b,
            forall|i: int| 0 <= i < b ==> (#[trigger] copy@[i])@ == rows@[i]@,
        decreases rows@.len() - b,
    {
        let mut row: Vec<i64> = Vec::new();
        let mut j: usize = 0;
        while j < rows[b].len()
            invariant
                0 <= b < rows@.len(),
                0 <= j <= rows@[b as int]@.len(),
                row@ == rows@[b as int]@.take(j as int),
            decreases rows@[b as int]@.len() - j,
        {
            row.push(rows[b][j]);
            assert(row@ =~= rows@[b as int]@.take(j + 1));
            j += 1;
        }
        assert(row@ =~= rows@[b as int]@);
        copy.push(row);
        b += 1;
    }
    assert(int_rows(copy@) =~= int_rows(rows@));
    copy
}

/// Appends a token to every sequence.
fn append_tokens(rows: &mut Vec<Vec<i64>>, tokens: &Vec<i64>)
    requires
        old(rows)@.len() == tokens@.len(),
    ensures
        int_rows(final(rows)@) == Seq::new(
            tokens@.len(),
            |b: int| int_rows(old(rows)@)[b].push(tokens@[b]),
        ),
        final(rows)@.len() == old(rows)@.len(),
{
    let mut b: usize = 0;
    while b < tokens.len()
        invariant
            0 <= b <= tokens@.len(),
            rows@.len() == old(rows)@.len() == tokens@.len(),
            forall|i: int| 0 <= i < b ==> (#[trigger] rows@[i])@ == old(rows)@[i]@.push(tokens@[i]),
            forall|i: int| b <= i < rows@.len() ==> #[trigger] rows@[i] == old(rows)@[i],
        decreases tokens@.len() - b,
    {
        rows[b].push(tokens[b]);
        b += 1;
    }
    assert(int_rows(rows@) =~= Seq::new(
        tokens@.len(),
        |b: int| int_rows(old(rows)@)[b].push(tokens@[b]),
    ));
}

/// Every sequence made of one token.
fn lone_rows(tokens: &Vec<i64>) -> (r: Vec<Vec<i64>>)
    ensures
        int_rows(r@) == lone_tokens(tokens@),
        r@.len() == tokens@.len(),
{
    let mut rows: Vec<Vec<i64>> = Vec::new();
    let mut b: usize = 0;
    while b < tokens.len()
        invariant
            0 <= b <= tokens@.len(),
            rows@.len() == b,
            forall|i: int| 0 <= i < b ==> (#[trigger] rows@[i])@ == seq![tokens@[i]],
        decreases tokens@.len() - b,
    {
        let mut row: Vec<i64> = Vec::new();
        row.push(tokens[b]);
        assert(row@ =~= seq![tokens@[b as int]]);
        rows.push(row);
        b += 1;
    }
    assert(int_rows(rows@) =~= lone_tokens(tokens@));
    rows
}

/// Tells whether a token is one of those that end generation.
fn is_end(token: i64, eos_token_ids: &[i64]) -> (r: bool)
    ensures
        r == eos_token_ids@.contains(token),
{
    let mut i: usize = 0;
    while i < eos_token_ids.len()
        invariant
            0 <= i <= eos_token_ids@.len(),
            forall|j: int| 0 <= j < i ==> #[trigger] eos_token_ids@[j] != token,
        decreases eos_token_ids@.len() - i,
    {
        if eos_token_ids[i] == token {
            assert(eos_token_ids@[i as int] == token);
            return true;
        }
        i += 1;
    }
    false
}

impl Qwen3Config {
    /// Initializes a causal language model.
    pub fn init_causal_lm(&self) -> (r: Qwen3ForCausalLM)
        requires
            self.can_be_made(),
        ensures
            self.made(r.model),
            r.lm_head.wf(self.hidden_size as nat, self.vocab_size as nat),
            self.can_run() ==> r.wf(),
    {
        assert(self.hidden_size * self.vocab_size == self.vocab_size * self.hidden_size)
            by (nonlinear_arith);
        Qwen3ForCausalLM {
            model: self.init(),
            lm_head: Linear::init(self.hidden_size, self.vocab_size),
        }
    }
}

impl Qwen3ForCausalLM {
    /// The base model is well-formed and the head fits it.
    pub open spec fn wf(self) -> bool {
        &&& self.model.wf()
        &&& self.lm_head.wf(
            self.model.config.hidden_size as nat,
            self.model.config.vocab_size as nat,
        )
    }

    /// `r` holds possible logits of the forward pass on `ids`.
    pub open spec fn forward_outcome(
        self,
        ids: Seq<Seq<i64>>,
        padding: Option<Seq<Seq<bool>>>,
        r: TensorView,
    ) -> bool {
        exists|states: Seq<TensorView>|
            {
                &&& #[trigger] self.model.forward_outcome(ids, padding, states)
                &&& projected(self.lm_head.weight@, states.last(), r)
            }
    }

    /// `r` holds possible logits of the forward pass on `ids` with caches that hold `before`, and
    /// `after` is what they then hold.
    pub open spec fn cached_outcome(
        self,
        ids: Seq<Seq<i64>>,
        padding: Option<Seq<Seq<bool>>>,
        positions: Seq<Seq<i64>>,
        before: Seq<KVCacheView>,
        after: Seq<KVCacheView>,
        r: TensorView,
    ) -> bool {
        exists|state: TensorView|
            {
                &&& #[trigger] self.model.cached_outcome(
                    ids,
                    padding,
                    positions,
                    before,
                    after,
                    state,
                )
                &&& projected(self.lm_head.weight@, state, r)
            }
    }

    /// `tokens` are possible next tokens after the sequences `ids`.
    pub open spec fn step_outcome(
        self,
        ids: Seq<Seq<i64>>,
        temperature: Single,
        top_p: Single,
        top_k: nat,
        tokens: Seq<i64>,
    ) -> bool {
        exists|logits: TensorView|
            {
                &&& #[trigger] self.forward_outcome(ids, None, logits)
                &&& are_next(logits, temperature, top_p, top_k, tokens)
            }
    }

    /// `tokens` are the greedy choice after possible logits of the sequences `ids`.
    pub open spec fn greedy_outcome(self, ids: Seq<Seq<i64>>, tokens: Seq<i64>) -> bool {
        exists|logits: TensorView|
            {
                &&& #[trigger] self.forward_outcome(ids, None, logits)
                &&& are_greedy(logits, tokens)
            }
    }

    /// `rows` are the sequences `ids` followed by `count` tokens each, every one of which is a
    /// possible next token after those before it.
    pub open spec fn generated(
        self,
        ids: Seq<Seq<i64>>,
        count: nat,
        temperature: Single,
        top_p: Single,
        top_k: nat,
        rows: Seq<Seq<i64>>,
    ) -> bool {
        let seq = ids[0].len();
        &&& is_int_table(rows, ids.len(), seq + count)
        &&& first_tokens(rows, seq as int) == ids
        &&& forall|n: int|
            seq <= n < seq + count ==> self.step_outcome(
                first_tokens(rows, n),
                temperature,
                top_p,
                top_k,
                #[trigger] tokens_at(rows, n),
            )
    }

    /// `tokens` are possible next tokens of a step with caches: it feeds `input` at the positions
    /// from `start` on, and the caches go from `before` to `after`.
    pub open spec fn cached_step(
        self,
        input: Seq<Seq<i64>>,
        start: nat,
        temperature: Single,
        top_p: Single,
        top_k: nat,
        before: Seq<KVCacheView>,
        after: Seq<KVCacheView>,
        tokens: Seq<i64>,
    ) -> bool {
        exists|logits: TensorView|
            {
                &&& #[trigger] self.cached_outcome(
                    input,
                    None,
                    positions_from(start, input.len(), input[0].len()),
                    before,
                    after,
                    logits,
                )
                &&& are_next(logits, temperature, top_p, top_k, tokens)
            }
    }

    /// `columns` are the tokens of successive steps with caches: the first step feeds `ids` to
    /// empty caches, and every later one the tokens of the step before, at the position after
    /// those already fed. `caches` are the caches before the first step and after every step.
    pub open spec fn cached_run(
        self,
        ids: Seq<Seq<i64>>,
        temperature: Single,
        top_p: Single,
        top_k: nat,
        caches: Seq<Seq<KVCacheView>>,
        columns: Seq<Seq<i64>>,
    ) -> bool {
        &&& caches.len() == columns.len() + 1
        &&& caches[0] == empty_caches(self.model.layers@.len())
        &&& forall|i: int|
            0 <= i < columns.len() ==> self.cached_step(
                step_input(ids, columns.take(i)),
                step_start(ids, columns.take(i)),
                temperature,
                top_p,
                top_k,
                caches[i],
                caches[i + 1],
                #[trigger] columns[i],
            )
    }

    /// `rows` are the sequences `ids` followed by the tokens of the steps `columns`. Generation
    /// ends after `max_new_tokens` steps, or with the first step that gives the first sequence a
    /// token of `eos`; the tokens of that step are left out.
    pub open spec fn generated_with(
        self,
        ids: Seq<Seq<i64>>,
        max_new_tokens: nat,
        temperature: Single,
        top_p: Single,
        top_k: nat,
        eos: Seq<i64>,
        caches: Seq<Seq<KVCacheView>>,
        columns: Seq<Seq<i64>>,
        rows: Seq<Seq<i64>>,
    ) -> bool {
        let ended = columns.len() > 0 && eos.contains(columns.last()[0]);
        let count = if ended {
            (columns.len() - 1) as nat
        } else {
            columns.len()
        };
        &&& self.cached_run(ids, temperature, top_p, top_k, caches, columns)
        &&& columns.len() <= max_new_tokens
        &&& !ended ==> columns.len() == max_new_tokens
        &&& forall|i: int| 0 <= i < count ==> !eos.contains(#[trigger] columns[i][0])
        &&& rows == appended(ids, columns, count)
    }

    /// `rows` are a possible result of generation with a cache.
    pub open spec fn generated_with_cache(
        self,
        ids: Seq<Seq<i64>>,
        max_new_tokens: nat,
        temperature: Single,
        top_p: Single,
        top_k: nat,
        eos: Seq<i64>,
        rows: Seq<Seq<i64>>,
    ) -> bool {
        exists|caches: Seq<Seq<KVCacheView>>, columns: Seq<Seq<i64>>| #[trigger]
            self.generated_with(
                ids,
                max_new_tokens,
                temperature,
                top_p,
                top_k,
                eos,
                caches,
                columns,
                rows,
            )
    }

    /// Forward pass returning logits over the vocabulary.
    ///
    /// # Arguments
    /// * `input_ids` - Token IDs `[batch, seq]`
    /// * `attention_mask` - Optional attention mask `[batch, seq]`, true for a valid token
    ///
    /// The logits are `[batch, seq, vocab_size]`.
    pub fn forward(
        &self,
        input_ids: &Vec<Vec<i64>>,
        attention_mask: &Option<Vec<Vec<bool>>>,
    ) -> (r: FloatTensor)
        requires
            self.wf(),
            are_tokens(int_rows(input_ids@), self.model.config.vocab_size as nat),
            input_ids@[0]@.len() <= i64::MAX,
            padding_fits(table_view(*attention_mask), input_ids@.len(), input_ids@[0]@.len()),
        ensures
            self.forward_outcome(int_rows(input_ids@), table_view(*attention_mask), r@),
            r@.wf(),
            r@.dims == seq![
                input_ids@.len(),
                input_ids@[0]@.len(),
                self.model.config.vocab_size as nat,
            ],
    {
        let all = self.model.forward(input_ids, attention_mask);
        let n: usize = all.len();
        let last = &all[n - 1];
        let r = self.lm_head.forward::<3>(last);
        proof {
            let states = all@.map_values(|t: FloatTensor| t@);
            assert(self.model.forward_outcome(
                int_rows(input_ids@),
                table_view(*attention_mask),
                states,
            ));
            assert(states.last() == last@);
            assert(projected(self.lm_head.weight@, last@, r@));
        }
        r
    }

    /// Forward pass with a cache returning logits.
    ///
    /// # Arguments
    /// * `input_ids` - IDs of the new tokens `[batch, seq]`
    /// * `attention_mask` - Optional attention mask `[batch, total_seq]`, cached positions
    ///   included, true for a valid token
    /// * `position_ids` - Position indices `[batch, seq]` of the new tokens
    /// * `cache` - The caches of all layers
    ///
    /// The logits are `[batch, seq, vocab_size]`.
    pub fn forward_with_cache(
        &self,
        input_ids: &Vec<Vec<i64>>,
        attention_mask: &Option<Vec<Vec<bool>>>,
        position_ids: &Vec<Vec<i64>>,
        cache: &mut ModelCache,
    ) -> (r: FloatTensor)
        requires
            self.wf(),
            are_tokens(int_rows(input_ids@), self.model.config.vocab_size as nat),
            is_int_table(int_rows(position_ids@), input_ids@.len(), input_ids@[0]@.len()),
            self.model.caches_fit(
                input_ids@.len(),
                input_ids@[0]@.len(),
                table_view(*attention_mask),
                old(cache)@,
            ),
        ensures
            self.cached_outcome(
                int_rows(input_ids@),
                table_view(*attention_mask),
                int_rows(position_ids@),
                old(cache)@,
                final(cache)@,
                r@,
            ),
            final(cache)@.len() == old(cache)@.len(),
            self.model.caches_grown(
                input_ids@.len(),
                input_ids@[0]@.len(),
                old(cache)@,
                final(cache)@,
            ),
            r@.wf(),
            r@.dims == seq![
                input_ids@.len(),
                input_ids@[0]@.len(),
                self.model.config.vocab_size as nat,
            ],
    {
        let state = self.model.forward_with_cache(
            input_ids,
            attention_mask,
            position_ids,
            cache,
        );
        let r = self.lm_head.forward::<3>(&state);
        assert(projected(self.lm_head.weight@, state@, r@));
        r
    }

    /// Generates text token by token, without a cache: slower but simpler.
    ///
    /// # Arguments
    /// * `input_ids` - Initial token IDs `[batch, seq]`
    /// * `max_new_tokens` - Number of tokens to generate
    /// * `temperature` - Sampling temperature (0 = greedy, 1 = no change, below sharper, above
    ///   flatter)
    /// * `top_p` - Nucleus sampling threshold (1 = off)
    /// * `top_k` - Top-k sampling (0 = off)
    ///
    /// The result is `[batch, seq + max_new_tokens]`.
    pub fn generate(
        &self,
        input_ids: &Vec<Vec<i64>>,
        max_new_tokens: usize,
        temperature: Single,
        top_p: Single,
        top_k: usize,
    ) -> (r: Vec<Vec<i64>>)
        requires
            self.wf(),
            self.model.config.vocab_size <= i32::MAX,
            are_tokens(int_rows(input_ids@), self.model.config.vocab_size as nat),
            input_ids@[0]@.len() + max_new_tokens <= i64::MAX,
        ensures
            self.generated(
                int_rows(input_ids@),
                max_new_tokens as nat,
                temperature,
                top_p,
                top_k as nat,
                int_rows(r@),
            ),
            exists|source: RandomSource| #[trigger]
                generated_by(
                    *self,
                    int_rows(input_ids@),
                    max_new_tokens as nat,
                    temperature,
                    top_p,
                    top_k as nat,
                    source,
                    int_rows(r@),
                ),
    {
        let ghost ids = int_rows(input_ids@);
        let ghost vocab = self.model.config.vocab_size as nat;
        let ghost seq = ids[0].len();
        assert(ids[0] == input_ids@[0]@);
        let mut source = RandomSource::new();
        let mut generated = copy_rows(input_ids);
        let mut i: usize = 0;
        proof {
            assert(first_tokens(ids, seq as int) =~= ids) by {
                assert forall|b: int| 0 <= b < ids.len() implies #[trigger] first_tokens(
                    ids,
                    seq as int,
                )[b] == ids[b] by {
                    assert(ids[b].take(seq as int) =~= ids[b]);
                }
            }
            lemma_tokens_start(*self, ids, temperature, top_p, top_k as nat, source@);
        }
        while i < max_new_tokens
            invariant
                0 <= i <= max_new_tokens,
                self.wf(),
                vocab == self.model.config.vocab_size,
                vocab <= i32::MAX,
                ids.len() > 0,
                seq == ids[0].len(),
                seq > 0,
                seq + max_new_tokens <= i64::MAX,
                entries_below(int_rows(generated@), vocab),
                self.generated(
                    ids,
                    i as nat,
                    temperature,
                    top_p,
                    top_k as nat,
                    int_rows(generated@),
                ),
                source.is_drawn(),
                drawn_tokens(
                    *self,
                    ids,
                    i as nat,
                    temperature,
                    top_p,
                    top_k as nat,
                    source@,
                    int_rows(generated@),
                ),
            decreases max_new_tokens - i,
        {
            let ghost before = int_rows(generated@);
            let ghost taken = source@;
            assert(before[0] == generated@[0]@);
            let logits = self.forward(&generated, &None);
            let (tokens, drawn) = choose_next(&logits, temperature, top_p, top_k);
            append_tokens(&mut generated, &tokens);
            let ghost words = drawn@;
            source.append(drawn);
            proof {
                let after = int_rows(generated@);
                assert(self.forward_outcome(before, None, logits@));
                assert(self.step_outcome(before, temperature, top_p, top_k as nat, tokens@));
                lemma_generated_grows(
                    *self,
                    ids,
                    i as nat,
                    temperature,
                    top_p,
                    top_k as nat,
                    before,
                    tokens@,
                    after,
                );
                lemma_tokens_take_words(
                    *self,
                    ids,
                    i as nat,
                    temperature,
                    top_p,
                    top_k as nat,
                    taken,
                    before,
                    logits@,
                    words,
                    tokens@,
                    after,
                );
                assert(entries_below(after, vocab));
            }
            i += 1;
        }
        assert(generated_by(
            *self,
            ids,
            max_new_tokens as nat,
            temperature,
            top_p,
            top_k as nat,
            source,
            int_rows(generated@),
        ));
        generated
    }

    /// Generates text token by token with a cache: faster than `generate`, since only the new
    /// tokens pass through the model while the earlier keys and values are reused. Ends early at
    /// the end tokens of Qwen3.
    ///
    /// # Arguments
    /// * `input_ids` - Initial token IDs `[batch, seq]`
    /// * `max_new_tokens` - Maximum number of tokens to generate
    /// * `temperature` - Sampling temperature (0 = greedy, 1 = no change, below sharper, above
    ///   flatter)
    /// * `top_p` - Nucleus sampling threshold (1 = off)
    /// * `top_k` - Top-k sampling (0 = off)
    ///
    /// The result is `[batch, seq + generated]`.
    pub fn generate_with_cache(
        &self,
        input_ids: &Vec<Vec<i64>>,
        max_new_tokens: usize,
        temperature: Single,
        top_p: Single,
        top_k: usize,
    ) -> (r: Vec<Vec<i64>>)
        requires
            self.wf(),
            self.model.config.vocab_size <= i32::MAX,
            are_tokens(int_rows(input_ids@), self.model.config.vocab_size as nat),
            input_ids@[0]@.len() + max_new_tokens <= i64::MAX,
            input_ids@[0]@.len() + max_new_tokens <= usize::MAX,
        ensures
            self.generated_with_cache(
                int_rows(input_ids@),
                max_new_tokens as nat,
                temperature,
                top_p,
                top_k as nat,
                seq![151643i64, 151645i64],
                int_rows(r@),
            ),
            exists|source: RandomSource| #[trigger]
                source.is_drawn() && generated_with_cache_by(
                    *self,
                    int_rows(input_ids@),
                    max_new_tokens as nat,
                    temperature,
                    top_p,
                    top_k as nat,
                    seq![151643i64, 151645i64],
                    source,
                    int_rows(r@),
                ),
    {
        let eos: [i64; 2] = [151643, 151645];
        assert(eos@ =~= seq![151643i64, 151645i64]);
        self.generate_with_cache_eos(
            input_ids,
            max_new_tokens,
            temperature,
            top_p,
            top_k,
            eos.as_slice(),
        )
    }

    /// Feeds tokens to the caches at the positions after those already there, and chooses the next
    /// ones. Gives back the source of the random words that the choice took, too.
    fn advance(
        &self,
        input: &Vec<Vec<i64>>,
        start: usize,
        temperature: Single,
        top_p: Single,
        top_k: usize,
        cache: &mut ModelCache,
    ) -> (r: (Vec<i64>, RandomSource))
        requires
            self.wf(),
            self.model.config.vocab_size <= i32::MAX,
            are_tokens(int_rows(input@), self.model.config.vocab_size as nat),
            start + input@[0]@.len() <= i64::MAX,
            start + input@[0]@.len() <= usize::MAX,
            self.model.caches_hold(input@.len(), start as nat, old(cache)@),
        ensures
            self.cached_step(
                int_rows(input@),
                start as nat,
                temperature,
                top_p,
                top_k as nat,
                old(cache)@,
                final(cache)@,
                r.0@,
            ),
            cached_step_with(
                *self,
                int_rows(input@),
                start as nat,
                temperature,
                top_p,
                top_k as nat,
                r.1@,
                old(cache)@,
                final(cache)@,
                r.0@,
            ),
            r.1.is_drawn(),
            r.1@.len() == words_of_step(temperature, input@.len()),
            self.model.caches_hold(
                input@.len(),
                (start + input@[0]@.len()) as nat,
                final(cache)@,
            ),
            r.0@.len() == input@.len(),
            forall|b: int|
                0 <= b < r.0@.len() ==> 0 <= #[trigger] r.0@[b]
                    < self.model.config.vocab_size,
    {
        let ghost fed = int_rows(input@);
        let ghost before = cache@;
        assert(fed[0] == input@[0]@);
        let batch: usize = input.len();
        let seq: usize = input[0].len();
        proof {
            assert forall|l: int|
                0 <= l < least(self.model.layers@.len(), cache@.len()) implies (
            #[trigger] self.model.layers@[l]).cache_fits(
                batch as nat,
                seq as nat,
                None,
                cache@[l],
            ) by {
                assert(self.model.layers@[l].cache_holds(batch as nat, start as nat, cache@[l]));
            }
        }
        let position_ids = position_rows(start, batch, seq);
        let logits = self.forward_with_cache(input, &None, &position_ids, cache);
        let (tokens, drawn) = choose_next(&logits, temperature, top_p, top_k);
        proof {
            assert(self.cached_outcome(
                fed,
                None,
                positions_from(start as nat, batch as nat, seq as nat),
                before,
                cache@,
                logits@,
            ));
            assert forall|l: int| 0 <= l < cache@.len() implies (
            #[trigger] self.model.layers@[l]).cache_holds(
                batch as nat,
                (start + seq) as nat,
                cache@[l],
            ) by {
                assert(self.model.layers@[l].cache_holds(batch as nat, start as nat, before[l]));
                assert(self.model.layers@[l].cache_grown(
                    batch as nat,
                    seq as nat,
                    before[l],
                    cache@[l],
                ));
            }
        }
        (tokens, drawn)
    }

    /// Generates text token by token with a cache, up to given end tokens.
    ///
    /// # Arguments
    /// * `input_ids` - Initial token IDs `[batch, seq]`
    /// * `max_new_tokens` - Maximum number of tokens to generate
    /// * `temperature` - Sampling temperature (0 = greedy, 1 = no change, below sharper, above
    ///   flatter)
    /// * `top_p` - Nucleus sampling threshold (1 = off)
    /// * `top_k` - Top-k sampling (0 = off)
    /// * `eos_token_ids` - Tokens that end generation when the first sequence gets one
    ///
    /// The result is `[batch, seq + generated]`.
    pub fn generate_with_cache_eos(
        &self,
        input_ids: &Vec<Vec<i64>>,
        max_new_tokens: usize,
        temperature: Single,
        top_p: Single,
        top_k: usize,
        eos_token_ids: &[i64],
    ) -> (r: Vec<Vec<i64>>)
        requires
            self.wf(),
            self.model.config.vocab_size <= i32::MAX,
            are_tokens(int_rows(input_ids@), self.model.config.vocab_size as nat),
            input_ids@[0]@.len() + max_new_tokens <= i64::MAX,
            input_ids@[0]@.len() + max_new_tokens <= usize::MAX,
        ensures
            self.generated_with_cache(
                int_rows(input_ids@),
                max_new_tokens as nat,
                temperature,
                top_p,
                top_k as nat,
                eos_token_ids@,
                int_rows(r@),
            ),
            exists|source: RandomSource| #[trigger]
                generated_with_cache_by(
                    *self,
                    int_rows(input_ids@),
                    max_new_tokens as nat,
                    temperature,
                    top_p,
                    top_k as nat,
                    eos_token_ids@,
                    source,
                    int_rows(r@),
                ),
    {
        let ghost ids = int_rows(input_ids@);
        let ghost vocab = self.model.config.vocab_size as nat;
        let ghost eos = eos_token_ids@;
        let ghost k = top_k as nat;
        let ghost limit = max_new_tokens as nat;
        assert(ids[0] == input_ids@[0]@);
        let initial: usize = input_ids[0].len();
        let mut cache = self.model.new_cache();
        let mut source = RandomSource::new();
        let mut generated = copy_rows(input_ids);
        let mut input = copy_rows(input_ids);
        let mut start: usize = 0;
        let mut i: usize = 0;
        let ghost mut caches: Seq<Seq<KVCacheView>> = seq![cache@];
        let ghost mut columns: Seq<Seq<i64>> = seq![];
        proof {
            lemma_progress_starts(*self, ids, temperature, top_p, k, eos, caches, columns);
            lemma_run_starts(*self, ids, temperature, top_p, k, source@, caches, columns);
        }
        while i < max_new_tokens
            invariant
                0 <= i <= max_new_tokens,
                self.wf(),
                vocab == self.model.config.vocab_size,
                vocab <= i32::MAX,
                eos == eos_token_ids@,
                k == top_k,
                limit == max_new_tokens,
                ids == int_rows(input_ids@),
                ids.len() > 0,
                ids[0].len() == initial,
                initial + max_new_tokens <= i64::MAX,
                initial + max_new_tokens <= usize::MAX,
                columns.len() == i,
                caches.len() == i + 1,
                caches.last() == cache@,
                int_rows(input@) == step_input(ids, columns),
                start == step_start(ids, columns),
                input@.len() == ids.len(),
                are_tokens(int_rows(input@), vocab),
                self.model.caches_hold(ids.len(), start as nat, cache@),
                generated@.len() == ids.len(),
                progress(
                    *self,
                    ids,
                    temperature,
                    top_p,
                    k,
                    eos,
                    caches,
                    columns,
                    int_rows(generated@),
                ),
                source.is_drawn(),
                drawn_run(*self, ids, temperature, top_p, k, source@, caches, columns),
            decreases max_new_tokens - i,
        {
            let ghost before = int_rows(generated@);
            let ghost taken = source@;
            assert(int_rows(input@)[0] == input@[0]@);
            let (tokens, drawn) = self.advance(
                &input,
                start,
                temperature,
                top_p,
                top_k,
                &mut cache,
            );
            let ghost words = drawn@;
            source.append(drawn);
            proof {
                lemma_run_takes_words(
                    *self,
                    ids,
                    temperature,
                    top_p,
                    k,
                    taken,
                    caches,
                    columns,
                    words,
                    cache@,
                    tokens@,
                );
            }
            if is_end(tokens[0], eos_token_ids) {
                proof {
                    lemma_progress_ends(
                        *self,
                        ids,
                        limit,
                        temperature,
                        top_p,
                        k,
                        eos,
                        caches,
                        columns,
                        before,
                        cache@,
                        tokens@,
                    );
                    assert(generated_with_cache_by(
                        *self,
                        ids,
                        limit,
                        temperature,
                        top_p,
                        k,
                        eos,
                        source,
                        before,
                    ));
                }
                return generated;
            }
            append_tokens(&mut generated, &tokens);
            input = lone_rows(&tokens);
            start = initial + i;
            proof {
                lemma_progress_goes_on(
                    *self,
                    ids,
                    temperature,
                    top_p,
                    k,
                    eos,
                    caches,
                    columns,
                    before,
                    cache@,
                    tokens@,
                );
                lemma_lone_tokens(tokens@, vocab);
                columns = columns.push(tokens@);
                caches = caches.push(cache@);
                assert(columns.last() == tokens@);
            }
            i += 1;
        }
        proof {
            lemma_progress_completes(
                *self,
                ids,
                limit,
                temperature,
                top_p,
                k,
                eos,
                caches,
                columns,
                int_rows(generated@),
            );
            assert(generated_with_cache_by(
                *self,
                ids,
                limit,
                temperature,
                top_p,
                k,
                eos,
                source,
                int_rows(generated@),
            ));
        }
        generated
    }

    /// Creates an empty cache for this model.
    pub fn new_cache(&self) -> (r: ModelCache)
        ensures
            r@ == empty_caches(self.model.layers@.len()),
    {
        self.model.new_cache()
    }

    /// The vocabulary size.
    pub fn vocab_size(&self) -> (r: usize)
        ensures
            r == self.model.config.vocab_size,
    {
        self.model.config.vocab_size
    }

    /// The hidden size.
    pub fn hidden_size(&self) -> (r: usize)
        ensures
            r == self.model.config.hidden_size,
    {
        self.model.config.hidden_size
    }
}

/// What the next step feeds: the sequences themselves, or the tokens of the last step.
pub open spec fn step_input(ids: Seq<Seq<i64>>, columns: Seq<Seq<i64>>) -> Seq<Seq<i64>> {
    if columns.len() == 0 {
        ids
    } else {
        lone_tokens(columns.last())
    }
}

/// The first position that the next step feeds.
pub open spec fn step_start(ids: Seq<Seq<i64>>, columns: Seq<Seq<i64>>) -> nat {
    if columns.len() == 0 {
        0
    } else {
        (ids[0].len() + columns.len() - 1) as nat
    }
}

/// The steps so far gave no end token, and `rows` holds their tokens behind the sequences.
#[verifier::opaque]
spec fn progress(
    lm: Qwen3ForCausalLM,
    ids: Seq<Seq<i64>>,
    temperature: Single,
    top_p: Single,
    top_k: nat,
    eos: Seq<i64>,
    caches: Seq<Seq<KVCacheView>>,
    columns: Seq<Seq<i64>>,
    rows: Seq<Seq<i64>>,
) -> bool {
    &&& lm.cached_run(ids, temperature, top_p, top_k, caches, columns)
    &&& forall|i: int| 0 <= i < columns.len() ==> !eos.contains(#[trigger] columns[i][0])
    &&& rows == appended(ids, columns, columns.len())
}

proof fn lemma_progress_starts(
    lm: Qwen3ForCausalLM,
    ids: Seq<Seq<i64>>,
    temperature: Single,
    top_p: Single,
    top_k: nat,
    eos: Seq<i64>,
    caches: Seq<Seq<KVCacheView>>,
    columns: Seq<Seq<i64>>,
)
    requires
        caches == seq![empty_caches(lm.model.layers@.len())],
        columns.len() == 0,
    ensures
        progress(lm, ids, temperature, top_p, top_k, eos, caches, columns, ids),
{
    reveal(progress);
    assert forall|b: int| 0 <= b < ids.len() implies #[trigger] appended(ids, columns, 0)[b]
        == ids[b] by {
        assert(appended(ids, columns, 0)[b] =~= ids[b]);
    }
    assert(appended(ids, columns, 0) =~= ids);
}

proof fn lemma_progress_goes_on(
    lm: Qwen3ForCausalLM,
    ids: Seq<Seq<i64>>,
    temperature: Single,
    top_p: Single,
    top_k: nat,
    eos: Seq<i64>,
    caches: Seq<Seq<KVCacheView>>,
    columns: Seq<Seq<i64>>,
    rows: Seq<Seq<i64>>,
    after: Seq<KVCacheView>,
    tokens: Seq<i64>,
)
    requires
        progress(lm, ids, temperature, top_p, top_k, eos, caches, columns, rows),
        lm.cached_step(
            step_input(ids, columns),
            step_start(ids, columns),
            temperature,
            top_p,
            top_k,
            caches.last(),
            after,
            tokens,
        ),
        tokens.len() == ids.len(),
        !eos.contains(tokens[0]),
    ensures
        progress(
            lm,
            ids,
            temperature,
            top_p,
            top_k,
            eos,
            caches.push(after),
            columns.push(tokens),
            Seq::new(tokens.len(), |b: int| rows[b].push(tokens[b])),
        ),
{
    reveal(progress);
    lemma_run_grows(lm, ids, temperature, top_p, top_k, caches, columns, after, tokens);
    lemma_appended_grows(ids, columns, tokens, columns.len());
    let more = columns.push(tokens);
    assert forall|i: int| 0 <= i < more.len() implies !eos.contains(#[trigger] more[i][0]) by {
        if i < columns.len() {
            assert(more[i] == columns[i]);
        }
    }
}

proof fn lemma_progress_ends(
    lm: Qwen3ForCausalLM,
    ids: Seq<Seq<i64>>,
    max_new_tokens: nat,
    temperature: Single,
    top_p: Single,
    top_k: nat,
    eos: Seq<i64>,
    caches: Seq<Seq<KVCacheView>>,
    columns: Seq<Seq<i64>>,
    rows: Seq<Seq<i64>>,
    after: Seq<KVCacheView>,
    tokens: Seq<i64>,
)
    requires
        progress(lm, ids, temperature, top_p, top_k, eos, caches, columns, rows),
        lm.cached_step(
            step_input(ids, columns),
            step_start(ids, columns),
            temperature,
            top_p,
            top_k,
            caches.last(),
            after,
            tokens,
        ),
        columns.len() < max_new_tokens,
        eos.contains(tokens[0]),
    ensures
        lm.generated_with(
            ids,
            max_new_tokens,
            temperature,
            top_p,
            top_k,
            eos,
            caches.push(after),
            columns.push(tokens),
            rows,
        ),
{
    reveal(progress);
    lemma_run_grows(lm, ids, temperature, top_p, top_k, caches, columns, after, tokens);
    let more = columns.push(tokens);
    assert forall|i: int| 0 <= i < columns.len() implies !eos.contains(#[trigger] more[i][0]) by {
        assert(more[i] == columns[i]);
    }
    lemma_appended_prefix(ids, columns, more, columns.len());
    assert(lm.generated_with(
        ids,
        max_new_tokens,
        temperature,
        top_p,
        top_k,
        eos,
        caches.push(after),
        more,
        rows,
    ));
}

proof fn lemma_progress_completes(
    lm: Qwen3ForCausalLM,
    ids: Seq<Seq<i64>>,
    max_new_tokens: nat,
    temperature: Single,
    top_p: Single,
    top_k: nat,
    eos: Seq<i64>,
    caches: Seq<Seq<KVCacheView>>,
    columns: Seq<Seq<i64>>,
    rows: Seq<Seq<i64>>,
)
    requires
        progress(lm, ids, temperature, top_p, top_k, eos, caches, columns, rows),
        columns.len() == max_new_tokens,
    ensures
        lm.generated_with(
            ids,
            max_new_tokens,
            temperature,
            top_p,
            top_k,
            eos,
            caches,
            columns,
            rows,
        ),
{
    reveal(progress);
    if columns.len() > 0 {
        assert(!eos.contains(columns[columns.len() - 1][0]));
    }
    assert(lm.generated_with(
        ids,
        max_new_tokens,
        temperature,
        top_p,
        top_k,
        eos,
        caches,
        columns,
        rows,
    ));
}

/// Tokens of the vocabulary make sequences of one token.
proof fn lemma_lone_tokens(tokens: Seq<i64>, vocab: nat)
    requires
        tokens.len() > 0,
        forall|b: int| 0 <= b < tokens.len() ==> 0 <= #[trigger] tokens[b] < vocab,
    ensures
        are_tokens(lone_tokens(tokens), vocab),
{
    let rows = lone_tokens(tokens);
    assert forall|b: int, j: int| 0 <= b < rows.len() && 0 <= j < rows[b].len() implies 0
        <= #[trigger] rows[b][j] < vocab by {
        assert(rows[b] == seq![tokens[b]]);
    }
}

/// A step more makes a longer run.
proof fn lemma_run_grows(
    lm: Qwen3ForCausalLM,
    ids: Seq<Seq<i64>>,
    temperature: Single,
    top_p: Single,
    top_k: nat,
    caches: Seq<Seq<KVCacheView>>,
    columns: Seq<Seq<i64>>,
    after: Seq<KVCacheView>,
    tokens: Seq<i64>,
)
    requires
        lm.cached_run(ids, temperature, top_p, top_k, caches, columns),
        lm.cached_step(
            step_input(ids, columns),
            step_start(ids, columns),
            temperature,
            top_p,
            top_k,
            caches.last(),
            after,
            tokens,
        ),
    ensures
        lm.cached_run(ids, temperature, top_p, top_k, caches.push(after), columns.push(tokens)),
{
    let more = columns.push(tokens);
    let more_caches = caches.push(after);
    assert forall|i: int| 0 <= i < more.len() implies lm.cached_step(
        step_input(ids, more.take(i)),
        step_start(ids, more.take(i)),
        temperature,
        top_p,
        top_k,
        more_caches[i],
        more_caches[i + 1],
        #[trigger] more[i],
    ) by {
        assert(more.take(i) =~= columns.take(i));
        if i < columns.len() {
            assert(more[i] == columns[i]);
            assert(more_caches[i + 1] == caches[i + 1]);
        } else {
            assert(columns.take(i) =~= columns);
        }
    }
}

/// The first columns decide what is appended.
proof fn lemma_appended_prefix(
    rows: Seq<Seq<i64>>,
    a: Seq<Seq<i64>>,
    b: Seq<Seq<i64>>,
    n: nat,
)
    requires
        n <= a.len(),
        n <= b.len(),
        forall|i: int| 0 <= i < n ==> #[trigger] a[i] == b[i],
    ensures
        appended(rows, a, n) == appended(rows, b, n),
{
    assert forall|r: int| 0 <= r < rows.len() implies #[trigger] appended(rows, a, n)[r]
        == appended(rows, b, n)[r] by {
        assert(appended(rows, a, n)[r] =~= appended(rows, b, n)[r]);
    }
    assert(appended(rows, a, n) =~= appended(rows, b, n));
}

/// A column more is a token more for every sequence.
proof fn lemma_appended_grows(
    rows: Seq<Seq<i64>>,
    columns: Seq<Seq<i64>>,
    tokens: Seq<i64>,
    n: nat,
)
    requires
        n == columns.len(),
        tokens.len() == rows.len(),
    ensures
        appended(rows, columns.push(tokens), n + 1) == Seq::new(
            tokens.len(),
            |b: int| appended(rows, columns, n)[b].push(tokens[b]),
        ),
{
    let more = appended(rows, columns.push(tokens), n + 1);
    let want = Seq::new(tokens.len(), |b: int| appended(rows, columns, n)[b].push(tokens[b]));
    assert forall|r: int| 0 <= r < rows.len() implies #[trigger] more[r] == want[r] by {
        assert(more[r] =~= want[r]);
    }
    assert(more =~= want);
}

/// A step more keeps what was generated before and adds its tokens.
proof fn lemma_generated_grows(
    lm: Qwen3ForCausalLM,
    ids: Seq<Seq<i64>>,
    count: nat,
    temperature: Single,
    top_p: Single,
    top_k: nat,
    before: Seq<Seq<i64>>,
    tokens: Seq<i64>,
    after: Seq<Seq<i64>>,
)
    requires
        ids.len() > 0,
        lm.generated(ids, count, temperature, top_p, top_k, before),
        lm.step_outcome(before, temperature, top_p, top_k, tokens),
        tokens.len() == ids.len(),
        after == Seq::new(tokens.len(), |b: int| before[b].push(tokens[b])),
    ensures
        lm.generated(ids, count + 1, temperature, top_p, top_k, after),
{
    let seq = ids[0].len() as int;
    let n = seq + count;
    assert forall|m: int| 0 <= m <= n implies #[trigger] first_tokens(after, m) == first_tokens(
        before,
        m,
    ) by {
        assert forall|b: int| 0 <= b < after.len() implies #[trigger] first_tokens(after, m)[b]
            == first_tokens(before, m)[b] by {
            assert(after[b].take(m) =~= before[b].take(m));
        }
        assert(first_tokens(after, m) =~= first_tokens(before, m));
    }
    assert(first_tokens(before, n) =~= before) by {
        assert forall|b: int| 0 <= b < before.len() implies #[trigger] first_tokens(before, n)[b]
            == before[b] by {
            assert(before[b].take(n) =~= before[b]);
        }
    }
    assert(first_tokens(after, seq) == first_tokens(before, seq));
    assert forall|m: int| seq <= m < n + 1 implies lm.step_outcome(
        first_tokens(after, m),
        temperature,
        top_p,
        top_k,
        #[trigger] tokens_at(after, m),
    ) by {
        assert(first_tokens(after, m) == first_tokens(before, m));
        if m < n {
            assert(tokens_at(after, m) =~= tokens_at(before, m));
        } else {
            assert(tokens_at(after, m) =~= tokens);
        }
    }
}

/// The next tokens depend on the logits at the last position alone.
pub proof fn lemma_next_from_last(
    a: TensorView,
    b: TensorView,
    temperature: Single,
    top_p: Single,
    top_k: nat,
    tokens: Seq<i64>,
)
    requires
        a.dims[0] == b.dims[0],
        a.dims[2] == b.dims[2],
        forall|i: int|
            0 <= i < a.dims[0] ==> #[trigger] last_logits(b, i) == last_logits(a, i),
        are_next(a, temperature, top_p, top_k, tokens),
    ensures
        are_next(b, temperature, top_p, top_k, tokens),
{
    if temperature.spec_is_zero() {
        assert forall|i: int|
            0 <= i < tokens.len() && (forall|j: int|
                0 <= j < b.dims[2] ==> !is_nan(#[trigger] last_logits(b, i)[j])) implies
            is_first_max(last_logits(b, i), #[trigger] tokens[i] as int) by {
            assert(last_logits(b, i) == last_logits(a, i));
        }
    } else {
        let (scaled, probs, source) = choose|
            scaled: TensorView,
            probs: TensorView,
            source: RandomSource,
        |
            {
                &&& tempered(a, temperature, scaled)
                &&& #[trigger] softmaxed(scaled, probs)
                &&& #[trigger] are_drawn_by(probs, top_k, top_p, source, tokens)
            };
        assert forall|idx: Seq<int>| in_bounds(scaled.dims, idx) implies
            if temperature.spec_is_one() {
            #[trigger] scaled.at(idx) == last_logits(b, idx[0])[idx[1]]
        } else {
            quotient_outcome(last_logits(b, idx[0])[idx[1]], temperature.bits, scaled.at(idx))
        } by {
            assert(0 <= idx[0] < scaled.dims[0]);
            assert(last_logits(b, idx[0]) == last_logits(a, idx[0]));
            assert(scaled.at(idx) == scaled.at(idx));
        }
        assert(tempered(b, temperature, scaled));
        assert(softmaxed(scaled, probs) && are_drawn_by(probs, top_k, top_p, source, tokens));
    }
}

/// Next tokens are tokens of the vocabulary.
pub proof fn lemma_next_in_vocabulary(
    logits: TensorView,
    temperature: Single,
    top_p: Single,
    top_k: nat,
    tokens: Seq<i64>,
)
    requires
        are_next(logits, temperature, top_p, top_k, tokens),
    ensures
        tokens.len() == logits.dims[0],
        forall|b: int| 0 <= b < tokens.len() ==> 0 <= #[trigger] tokens[b] < logits.dims[2],
{
    if !temperature.spec_is_zero() {
        let (scaled, probs, source) = choose|
            scaled: TensorView,
            probs: TensorView,
            source: RandomSource,
        |
            {
                &&& tempered(logits, temperature, scaled)
                &&& #[trigger] softmaxed(scaled, probs)
                &&& #[trigger] are_drawn_by(probs, top_k, top_p, source, tokens)
            };
        assert forall|b: int| 0 <= b < tokens.len() implies 0 <= #[trigger] tokens[b]
            < logits.dims[2] by {
            lemma_fewer_ranked_before(
                row_of(probs, b),
                top_k,
                top_p,
                draws_of(source@)[b],
                tokens[b] as int,
            );
        }
    }
}

/// Greedy decoding leaves no choice: the logits determine the tokens, unless there is a NaN among
/// them.
pub proof fn lemma_greedy_is_determined(logits: TensorView, a: Seq<i64>, b: Seq<i64>)
    requires
        are_greedy(logits, a),
        are_greedy(logits, b),
        forall|i: int, j: int|
            0 <= i < logits.dims[0] && 0 <= j < logits.dims[2] ==> !is_nan(
                #[trigger] last_logits(logits, i)[j],
            ),
    ensures
        a == b,
{
    assert forall|i: int| 0 <= i < a.len() implies a[i] == b[i] by {
        let row = last_logits(logits, i);
        assert(is_first_max(row, a[i] as int));
        assert(is_first_max(row, b[i] as int));
        if a[i] < b[i] {
            assert(order_key(row[a[i] as int]) < order_key(row[b[i] as int]));
        } else if b[i] < a[i] {
            assert(order_key(row[b[i] as int]) < order_key(row[a[i] as int]));
        }
    }
    assert(a =~= b);
}

/// At temperature zero `generate` is greedy: every new token is the first with the greatest logit
/// that a forward pass on the tokens before it gives, and neither `top_p` nor `top_k` matters.
pub proof fn lemma_generation_is_greedy(
    lm: Qwen3ForCausalLM,
    ids: Seq<Seq<i64>>,
    count: nat,
    temperature: Single,
    top_p: Single,
    top_k: nat,
    rows: Seq<Seq<i64>>,
    other_p: Single,
    other_k: nat,
)
    requires
        temperature.spec_is_zero(),
        lm.generated(ids, count, temperature, top_p, top_k, rows),
    ensures
        lm.generated(ids, count, temperature, other_p, other_k, rows),
        forall|n: int|
            ids[0].len() <= n < ids[0].len() + count ==> lm.greedy_outcome(
                first_tokens(rows, n),
                #[trigger] tokens_at(rows, n),
            ),
{
    let seq = ids[0].len() as int;
    assert forall|n: int| seq <= n < seq + count implies lm.step_outcome(
        first_tokens(rows, n),
        temperature,
        other_p,
        other_k,
        #[trigger] tokens_at(rows, n),
    ) by {
        assert(lm.step_outcome(
            first_tokens(rows, n),
            temperature,
            top_p,
            top_k,
            tokens_at(rows, n),
        ));
    }
    assert forall|n: int| seq <= n < seq + count implies lm.greedy_outcome(
        first_tokens(rows, n),
        #[trigger] tokens_at(rows, n),
    ) by {
        assert(lm.step_outcome(
            first_tokens(rows, n),
            temperature,
            top_p,
            top_k,
            tokens_at(rows, n),
        ));
    }
}

/// The first tokens of the first tokens.
proof fn lemma_first_of_first(rows: Seq<Seq<i64>>, n: int, m: int)
    requires
        0 <= n <= m,
        forall|b: int| 0 <= b < rows.len() ==> (#[trigger] rows[b]).len() >= m,
    ensures
        first_tokens(first_tokens(rows, m), n) == first_tokens(rows, n),
        n < m ==> tokens_at(first_tokens(rows, m), n) == tokens_at(rows, n),
{
    let first = first_tokens(rows, m);
    assert forall|b: int| 0 <= b < rows.len() implies #[trigger] first_tokens(first, n)[b]
        == first_tokens(rows, n)[b] by {
        assert(rows[b].len() >= m);
        assert(rows[b].take(m).take(n) =~= rows[b].take(n));
    }
    assert(first_tokens(first, n) =~= first_tokens(rows, n));
    if n < m {
        assert forall|b: int| 0 <= b < rows.len() implies #[trigger] tokens_at(first, n)[b]
            == tokens_at(rows, n)[b] by {
            assert(rows[b].len() >= m);
        }
        assert(tokens_at(first, n) =~= tokens_at(rows, n));
    }
}

/// Asking `generate` for more tokens only extends the result: what it may return for `more` new
/// tokens begins with what it may return for `fewer`.
pub proof fn lemma_more_tokens_extend(
    lm: Qwen3ForCausalLM,
    ids: Seq<Seq<i64>>,
    fewer: nat,
    more: nat,
    temperature: Single,
    top_p: Single,
    top_k: nat,
    rows: Seq<Seq<i64>>,
)
    requires
        fewer <= more,
        lm.generated(ids, more, temperature, top_p, top_k, rows),
    ensures
        lm.generated(
            ids,
            fewer,
            temperature,
            top_p,
            top_k,
            first_tokens(rows, (ids[0].len() + fewer) as int),
        ),
{
    let seq = ids[0].len() as int;
    let m = seq + fewer;
    let first = first_tokens(rows, m);
    assert forall|b: int| 0 <= b < rows.len() implies (#[trigger] first[b]).len() == m by {
        assert(rows[b].len() == seq + more);
    }
    lemma_first_of_first(rows, seq, m);
    assert forall|n: int| seq <= n < m implies lm.step_outcome(
        first_tokens(first, n),
        temperature,
        top_p,
        top_k,
        #[trigger] tokens_at(first, n),
    ) by {
        lemma_first_of_first(rows, n, m);
        assert(lm.step_outcome(
            first_tokens(rows, n),
            temperature,
            top_p,
            top_k,
            tokens_at(rows, n),
        ));
    }
}

/// The first steps of a run are a run.
proof fn lemma_shorter_run(
    lm: Qwen3ForCausalLM,
    ids: Seq<Seq<i64>>,
    temperature: Single,
    top_p: Single,
    top_k: nat,
    caches: Seq<Seq<KVCacheView>>,
    columns: Seq<Seq<i64>>,
    n: int,
)
    requires
        lm.cached_run(ids, temperature, top_p, top_k, caches, columns),
        0 <= n <= columns.len(),
    ensures
        lm.cached_run(ids, temperature, top_p, top_k, caches.take(n + 1), columns.take(n)),
{
    let (held, some) = (caches.take(n + 1), columns.take(n));
    assert forall|i: int| 0 <= i < some.len() implies lm.cached_step(
        step_input(ids, some.take(i)),
        step_start(ids, some.take(i)),
        temperature,
        top_p,
        top_k,
        held[i],
        held[i + 1],
        #[trigger] some[i],
    ) by {
        assert(some.take(i) =~= columns.take(i));
        assert(some[i] == columns[i]);
    }
}

/// The first tokens, once the tokens of some steps have been appended.
proof fn lemma_first_appended(
    ids: Seq<Seq<i64>>,
    columns: Seq<Seq<i64>>,
    count: nat,
    n: int,
    fewer: nat,
)
    requires
        ids.len() > 0,
        is_int_table(ids, ids.len(), ids[0].len()),
        fewer <= count,
        fewer <= n <= columns.len(),
    ensures
        first_tokens(appended(ids, columns, count), (ids[0].len() + fewer) as int) == appended(
            ids,
            columns.take(n),
            fewer,
        ),
{
    let rows = appended(ids, columns, count);
    let got = first_tokens(rows, (ids[0].len() + fewer) as int);
    let want = appended(ids, columns.take(n), fewer);
    assert forall|b: int| 0 <= b < ids.len() implies #[trigger] got[b] == want[b] by {
        assert(ids[b].len() == ids[0].len());
        assert(got[b] =~= want[b]);
    }
    assert(got =~= want);
}

/// Asking generation with a cache for more tokens only extends the result: what it may return for
/// up to `more` new tokens begins with what it may return for up to `fewer`.
pub proof fn lemma_more_tokens_extend_with_cache(
    lm: Qwen3ForCausalLM,
    ids: Seq<Seq<i64>>,
    fewer: nat,
    more: nat,
    temperature: Single,
    top_p: Single,
    top_k: nat,
    eos: Seq<i64>,
    rows: Seq<Seq<i64>>,
)
    requires
        ids.len() > 0,
        is_int_table(ids, ids.len(), ids[0].len()),
        fewer <= more,
        lm.generated_with_cache(ids, more, temperature, top_p, top_k, eos, rows),
    ensures
        lm.generated_with_cache(
            ids,
            fewer,
            temperature,
            top_p,
            top_k,
            eos,
            first_tokens(rows, least(rows[0].len(), ids[0].len() + fewer) as int),
        ),
{
    let (caches, columns) = choose|caches: Seq<Seq<KVCacheView>>, columns: Seq<Seq<i64>>| #[trigger]
        lm.generated_with(ids, more, temperature, top_p, top_k, eos, caches, columns, rows);
    let ended = columns.len() > 0 && eos.contains(columns.last()[0]);
    let count = if ended {
        (columns.len() - 1) as nat
    } else {
        columns.len()
    };
    let kept = least(columns.len(), fewer) as int;
    let some = columns.take(kept);
    lemma_shorter_run(lm, ids, temperature, top_p, top_k, caches, columns, kept);
    assert(rows[0].len() == ids[0].len() + count);
    let short = least(count, fewer);
    lemma_first_appended(ids, columns, count, kept, short);
    if kept > 0 && kept <= count {
        assert(some.last() == columns[kept - 1]);
        assert(!eos.contains(columns[kept - 1][0]));
    } else if kept > 0 {
        assert(some =~= columns);
    }
    assert forall|i: int| 0 <= i < short implies !eos.contains(#[trigger] some[i][0]) by {
        assert(some[i] == columns[i]);
    }
    assert(lm.generated_with(
        ids,
        fewer,
        temperature,
        top_p,
        top_k,
        eos,
        caches.take(kept + 1),
        some,
        appended(ids, some, short),
    ));
}

/// Generation keeps the initial tokens, and every token that it adds is one of the vocabulary.
pub proof fn lemma_generated_tokens(
    lm: Qwen3ForCausalLM,
    ids: Seq<Seq<i64>>,
    count: nat,
    temperature: Single,
    top_p: Single,
    top_k: nat,
    rows: Seq<Seq<i64>>,
    b: int,
)
    requires
        lm.wf(),
        are_tokens(ids, lm.model.config.vocab_size as nat),
        lm.generated(ids, count, temperature, top_p, top_k, rows),
        0 <= b < ids.len(),
    ensures
        rows[b].len() == ids[0].len() + count,
        rows[b].take(ids[0].len() as int) == ids[b],
        forall|n: int|
            ids[0].len() <= n < rows[b].len() ==> 0 <= #[trigger] rows[b][n]
                < lm.model.config.vocab_size,
{
    let seq = ids[0].len() as int;
    assert(first_tokens(rows, seq)[b] == rows[b].take(seq));
    assert forall|n: int| seq <= n < rows[b].len() implies 0 <= #[trigger] rows[b][n]
        < lm.model.config.vocab_size by {
        let tokens = tokens_at(rows, n);
        assert(lm.step_outcome(first_tokens(rows, n), temperature, top_p, top_k, tokens));
        let logits = choose|logits: TensorView|
            {
                &&& #[trigger] lm.forward_outcome(first_tokens(rows, n), None, logits)
                &&& are_next(logits, temperature, top_p, top_k, tokens)
            };
        lemma_next_in_vocabulary(logits, temperature, top_p, top_k, tokens);
        let states = choose|states: Seq<TensorView>|
            {
                &&& #[trigger] lm.model.forward_outcome(first_tokens(rows, n), None, states)
                &&& projected(lm.lm_head.weight@, states.last(), logits)
            };
        lemma_last_state_rank(lm.model, first_tokens(rows, n), None, states);
        assert(tokens[b] == rows[b][n]);
    }
}

/// The final state of a forward pass has rank three.
proof fn lemma_last_state_rank(
    model: Qwen3Model,
    ids: Seq<Seq<i64>>,
    padding: Option<Seq<Seq<bool>>>,
    states: Seq<TensorView>,
)
    requires
        model.forward_outcome(ids, padding, states),
    ensures
        states.last().dims.len() == 3,
{
    let n = model.layers@.len() as int;
    lemma_state_rank(model, ids, padding, states, n);
}

proof fn lemma_state_rank(
    model: Qwen3Model,
    ids: Seq<Seq<i64>>,
    padding: Option<Seq<Seq<bool>>>,
    states: Seq<TensorView>,
    l: int,
)
    requires
        model.forward_outcome(ids, padding, states),
        0 <= l <= model.layers@.len(),
    ensures
        states[l].dims.len() == 3,
    decreases l,
{
    if l > 0 {
        lemma_state_rank(model, ids, padding, states, l - 1);
        let layer = model.layers@[l - 1];
        let positions = positions_from(0, ids.len(), ids[0].len());
        assert(layer.forward_outcome(states[l - 1], padding, positions, states[l]));
        let t = choose|t: LayerTrace| #[trigger]
            layer.forward_with(states[l - 1], padding, positions, t, states[l]);
        let mid = choose|mid: TensorView| #[trigger]
            sums(states[l - 1], t.attended, mid) && layer.feed_forward_outcome(mid, states[l]);
        let norm = layer.post_attention_layernorm;
        let (normed, m) = choose|normed: TensorView, m: TensorView|
            {
                &&& normalized(norm.gamma@, norm.epsilon, mid, normed)
                &&& #[trigger] layer.mlp.outcome(normed, m)
                &&& sums(mid, m, states[l])
            };
    }
}

/// The tokens of a step with caches are tokens of the vocabulary.
proof fn lemma_column_in_vocabulary(
    lm: Qwen3ForCausalLM,
    ids: Seq<Seq<i64>>,
    temperature: Single,
    top_p: Single,
    top_k: nat,
    caches: Seq<Seq<KVCacheView>>,
    columns: Seq<Seq<i64>>,
    i: int,
    b: int,
)
    requires
        lm.wf(),
        lm.cached_run(ids, temperature, top_p, top_k, caches, columns),
        0 <= i < columns.len(),
        0 <= b < ids.len(),
    ensures
        0 <= columns[i][b] < lm.model.config.vocab_size,
{
    lemma_caches_keep_pace(lm, ids, temperature, top_p, top_k, caches, columns, i + 1);
    assert(0 <= columns[i][b] < lm.model.config.vocab_size);
}

/// What the sequences hold once the tokens of some steps have been appended.
proof fn lemma_appended_rows(
    ids: Seq<Seq<i64>>,
    columns: Seq<Seq<i64>>,
    count: nat,
    eos: Seq<i64>,
    vocab: nat,
    b: int,
)
    requires
        is_int_table(ids, ids.len(), ids[0].len()),
        0 <= b < ids.len(),
        forall|i: int| 0 <= i < count ==> !eos.contains(#[trigger] columns[i][0]),
        forall|i: int| 0 <= i < count ==> 0 <= #[trigger] columns[i][b] < vocab,
    ensures
        ({
            let rows = appended(ids, columns, count);
            &&& rows.len() == ids.len()
            &&& rows[b].len() == rows[0].len() == ids[0].len() + count
            &&& rows[b].take(ids[0].len() as int) == ids[b]
            &&& forall|n: int|
                ids[0].len() <= n < rows[0].len() ==> !eos.contains(#[trigger] rows[0][n])
            &&& forall|n: int|
                ids[0].len() <= n < rows[b].len() ==> 0 <= #[trigger] rows[b][n] < vocab
            &&& count == 0 ==> rows[b] == ids[b]
        }),
{
    let rows = appended(ids, columns, count);
    assert(ids[b].len() == ids[0].len());
    assert(rows[b].take(ids[0].len() as int) =~= ids[b]);
    assert forall|n: int| ids[0].len() <= n < rows[0].len() implies !eos.contains(
        #[trigger] rows[0][n],
    ) by {
        assert(rows[0][n] == columns[n - ids[0].len()][0]);
    }
    assert forall|n: int| ids[0].len() <= n < rows[b].len() implies 0 <= #[trigger] rows[b][n]
        < vocab by {
        assert(rows[b][n] == columns[n - ids[0].len()][b]);
    }
    if count == 0 {
        assert(rows[b] =~= ids[b]);
    }
}

/// What generation with a cache returns: the initial tokens and at most `max_new_tokens` more for
/// every sequence, equally many for all, each of them one of the vocabulary, and none of which
/// ends generation in the first sequence. Without any tokens to generate it returns the initial
/// ones.
pub proof fn lemma_generated_with_cache(
    lm: Qwen3ForCausalLM,
    ids: Seq<Seq<i64>>,
    max_new_tokens: nat,
    temperature: Single,
    top_p: Single,
    top_k: nat,
    eos: Seq<i64>,
    rows: Seq<Seq<i64>>,
    b: int,
)
    requires
        lm.wf(),
        are_tokens(ids, lm.model.config.vocab_size as nat),
        lm.generated_with_cache(ids, max_new_tokens, temperature, top_p, top_k, eos, rows),
        0 <= b < ids.len(),
    ensures
        rows.len() == ids.len(),
        rows[b].len() == rows[0].len(),
        ids[b].len() <= rows[b].len() <= ids[b].len() + max_new_tokens,
        rows[b].take(ids[b].len() as int) == ids[b],
        forall|n: int|
            ids[0].len() <= n < rows[0].len() ==> !eos.contains(#[trigger] rows[0][n]),
        forall|n: int|
            ids[0].len() <= n < rows[b].len() ==> 0 <= #[trigger] rows[b][n]
                < lm.model.config.vocab_size,
        max_new_tokens == 0 ==> rows[b] == ids[b],
{
    let (caches, columns) = choose|caches: Seq<Seq<KVCacheView>>, columns: Seq<Seq<i64>>| #[trigger]
        lm.generated_with(
            ids,
            max_new_tokens,
            temperature,
            top_p,
            top_k,
            eos,
            caches,
            columns,
            rows,
        );
    let ended = columns.len() > 0 && eos.contains(columns.last()[0]);
    let count = if ended {
        (columns.len() - 1) as nat
    } else {
        columns.len()
    };
    assert forall|i: int| 0 <= i < count implies 0 <= #[trigger] columns[i][b]
        < lm.model.config.vocab_size by {
        lemma_column_in_vocabulary(lm, ids, temperature, top_p, top_k, caches, columns, i, b);
    }
    lemma_appended_rows(ids, columns, count, eos, lm.model.config.vocab_size as nat, b);
    assert(ids[b].len() == ids[0].len());
}

} // verus!
