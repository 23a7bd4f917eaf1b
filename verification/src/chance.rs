//! Which random words generation takes: a word of its own for every token that is drawn, one step
//! after the other.
use vstd::prelude::*;

use crate::cache::KVCacheView;
use crate::causal_lm::{
    are_greedy, first_tokens, softmaxed, step_input, step_start, tempered, tokens_at,
    Qwen3ForCausalLM,
};
use crate::model::positions_from;
use crate::num::Single;
use crate::random::RandomSource;
use crate::sampling::{are_drawn, draws_of, is_drawn};
use crate::tensor::{row_of, TensorView};
use crate::wiring::{counts_from, lemma_positions_count_up};

verus! {

/// How many random words a step takes: one for every sequence, or none at temperature zero.
pub open spec fn words_of_step(temperature: Single, batch: nat) -> nat {
    if temperature.spec_is_zero() {
        0
    } else {
        batch
    }
}

/// The words of step `i`, of which every step takes `per`.
pub open spec fn step_words(words: Seq<u32>, i: int, per: nat) -> Seq<u32> {
    words.subrange(i * per, i * per + per)
}

/// `tokens` are the next tokens after `logits` that the random `words` stand for.
pub open spec fn are_next_with(
    logits: TensorView,
    temperature: Single,
    top_p: Single,
    top_k: nat,
    words: Seq<u32>,
    tokens: Seq<i64>,
) -> bool {
    if temperature.spec_is_zero() {
        are_greedy(logits, tokens)
    } else {
        exists|scaled: TensorView, probs: TensorView|
            {
                &&& tempered(logits, temperature, scaled)
                &&& #[trigger] softmaxed(scaled, probs)
                &&& are_drawn(probs, top_k, top_p, draws_of(words), tokens)
            }
    }
}

/// `tokens` are the next tokens after the sequences `ids` that the random `words` stand for.
pub open spec fn step_with(
    lm: Qwen3ForCausalLM,
    ids: Seq<Seq<i64>>,
    temperature: Single,
    top_p: Single,
    top_k: nat,
    words: Seq<u32>,
    tokens: Seq<i64>,
) -> bool {
    exists|logits: TensorView|
        {
            &&& #[trigger] lm.forward_outcome(ids, None, logits)
            &&& are_next_with(logits, temperature, top_p, top_k, words, tokens)
        }
}

/// Every token of `rows` behind the sequences `ids` is the one that its word of `words` stands for.
#[verifier::opaque]
pub open spec fn drawn_tokens(
    lm: Qwen3ForCausalLM,
    ids: Seq<Seq<i64>>,
    count: nat,
    temperature: Single,
    top_p: Single,
    top_k: nat,
    words: Seq<u32>,
    rows: Seq<Seq<i64>>,
) -> bool {
    let seq = ids[0].len();
    let per = words_of_step(temperature, ids.len());
    &&& words.len() == count * per
    &&& forall|n: int|
        seq <= n < seq + count ==> step_with(
            lm,
            first_tokens(rows, n),
            temperature,
            top_p,
            top_k,
            step_words(words, n - seq, per),
            #[trigger] tokens_at(rows, n),
        )
}

/// `rows` are what the words of a source make generation without a cache give.
pub open spec fn generated_by(
    lm: Qwen3ForCausalLM,
    ids: Seq<Seq<i64>>,
    count: nat,
    temperature: Single,
    top_p: Single,
    top_k: nat,
    source: RandomSource,
    rows: Seq<Seq<i64>>,
) -> bool {
    &&& source.is_drawn()
    &&& lm.generated(ids, count, temperature, top_p, top_k, rows)
    &&& drawn_tokens(lm, ids, count, temperature, top_p, top_k, source@, rows)
}

/// `tokens` are the next tokens of a step with caches that the random `words` stand for.
pub open spec fn cached_step_with(
    lm: Qwen3ForCausalLM,
    input: Seq<Seq<i64>>,
    start: nat,
    temperature: Single,
    top_p: Single,
    top_k: nat,
    words: Seq<u32>,
    before: Seq<KVCacheView>,
    after: Seq<KVCacheView>,
    tokens: Seq<i64>,
) -> bool {
    exists|logits: TensorView|
        {
            &&& #[trigger] lm.cached_outcome(
                input,
                None,
                positions_from(start, input.len(), input[0].len()),
                before,
                after,
                logits,
            )
            &&& are_next_with(logits, temperature, top_p, top_k, words, tokens)
        }
}

/// Every token of the steps `columns` with caches is the one that its word of `words` stands for.
#[verifier::opaque]
pub open spec fn drawn_run(
    lm: Qwen3ForCausalLM,
    ids: Seq<Seq<i64>>,
    temperature: Single,
    top_p: Single,
    top_k: nat,
    words: Seq<u32>,
    caches: Seq<Seq<KVCacheView>>,
    columns: Seq<Seq<i64>>,
) -> bool {
    let per = words_of_step(temperature, ids.len());
    &&& caches.len() == columns.len() + 1
    &&& words.len() == columns.len() * per
    &&& forall|i: int|
        0 <= i < columns.len() ==> cached_step_with(
            lm,
            step_input(ids, columns.take(i)),
            step_start(ids, columns.take(i)),
            temperature,
            top_p,
            top_k,
            step_words(words, i, per),
            caches[i],
            caches[i + 1],
            #[trigger] columns[i],
        )
}

/// `rows` are what the words of a source make generation with a cache give.
pub open spec fn generated_with_cache_by(
    lm: Qwen3ForCausalLM,
    ids: Seq<Seq<i64>>,
    max_new_tokens: nat,
    temperature: Single,
    top_p: Single,
    top_k: nat,
    eos: Seq<i64>,
    source: RandomSource,
    rows: Seq<Seq<i64>>,
) -> bool {
    &&& source.is_drawn()
    &&& exists|caches: Seq<Seq<KVCacheView>>, columns: Seq<Seq<i64>>|
        {
            &&& #[trigger] lm.generated_with(
                ids,
                max_new_tokens,
                temperature,
                top_p,
                top_k,
                eos,
                caches,
                columns,
                rows,
            )
            &&& drawn_run(lm, ids, temperature, top_p, top_k, source@, caches, columns)
        }
}

/// The words that follow leave those of the steps before as they are.
proof fn lemma_step_words(words: Seq<u32>, more: Seq<u32>, n: nat, i: int, per: nat)
    requires
        words.len() == n * per,
        more.len() == per,
        0 <= i <= n,
    ensures
        (words + more).len() == (n + 1) * per,
        i < n ==> step_words(words + more, i, per) == step_words(words, i, per),
        i == n ==> step_words(words + more, i, per) == more,
{
    assert((n + 1) * per == n * per + per) by (nonlinear_arith);
    assert(0 <= i * per) by (nonlinear_arith)
        requires
            0 <= i,
            0 <= per,
    ;
    if i < n {
        assert(i * per + per <= n * per) by (nonlinear_arith)
            requires
                i + 1 <= n,
                0 <= per,
        ;
        assert(step_words(words + more, i, per) =~= step_words(words, i, per));
    } else {
        assert(step_words(words + more, i, per) =~= more);
    }
}

pub(crate) proof fn lemma_tokens_start(
    lm: Qwen3ForCausalLM,
    ids: Seq<Seq<i64>>,
    temperature: Single,
    top_p: Single,
    top_k: nat,
    words: Seq<u32>,
)
    requires
        words.len() == 0,
    ensures
        drawn_tokens(lm, ids, 0, temperature, top_p, top_k, words, ids),
{
    reveal(drawn_tokens);
    let per = words_of_step(temperature, ids.len());
    assert(0 * per == 0) by (nonlinear_arith);
}

/// A step more takes the words that follow.
pub(crate) proof fn lemma_tokens_take_words(
    lm: Qwen3ForCausalLM,
    ids: Seq<Seq<i64>>,
    count: nat,
    temperature: Single,
    top_p: Single,
    top_k: nat,
    words: Seq<u32>,
    before: Seq<Seq<i64>>,
    logits: TensorView,
    more: Seq<u32>,
    tokens: Seq<i64>,
    after: Seq<Seq<i64>>,
)
    requires
        ids.len() > 0,
        lm.generated(ids, count, temperature, top_p, top_k, before),
        drawn_tokens(lm, ids, count, temperature, top_p, top_k, words, before),
        lm.forward_outcome(before, None, logits),
        are_next_with(logits, temperature, top_p, top_k, more, tokens),
        more.len() == words_of_step(temperature, ids.len()),
        tokens.len() == ids.len(),
        after == Seq::new(tokens.len(), |b: int| before[b].push(tokens[b])),
    ensures
        drawn_tokens(lm, ids, count + 1, temperature, top_p, top_k, words + more, after),
{
    reveal(drawn_tokens);
    let seq = ids[0].len() as int;
    let per = words_of_step(temperature, ids.len());
    let n = seq + count;
    lemma_step_words(words, more, count, count as int, per);
    assert forall|m: int| seq <= m < n + 1 implies step_with(
        lm,
        first_tokens(after, m),
        temperature,
        top_p,
        top_k,
        step_words(words + more, m - seq, per),
        #[trigger] tokens_at(after, m),
    ) by {
        assert(first_tokens(after, m) =~= first_tokens(before, m)) by {
            assert forall|b: int| 0 <= b < after.len() implies #[trigger] first_tokens(after, m)[b]
                == first_tokens(before, m)[b] by {
                assert(after[b].take(m) =~= before[b].take(m));
            }
        }
        lemma_step_words(words, more, count, m - seq, per);
        if m < n {
            assert(tokens_at(after, m) =~= tokens_at(before, m));
        } else {
            assert(tokens_at(after, m) =~= tokens);
            assert(first_tokens(before, n) =~= before) by {
                assert forall|b: int| 0 <= b < before.len() implies #[trigger] first_tokens(
                    before,
                    n,
                )[b] == before[b] by {
                    assert(before[b].take(n) =~= before[b]);
                }
            }
        }
    }
}

pub(crate) proof fn lemma_run_starts(
    lm: Qwen3ForCausalLM,
    ids: Seq<Seq<i64>>,
    temperature: Single,
    top_p: Single,
    top_k: nat,
    words: Seq<u32>,
    caches: Seq<Seq<KVCacheView>>,
    columns: Seq<Seq<i64>>,
)
    requires
        words.len() == 0,
        caches.len() == 1,
        columns.len() == 0,
    ensures
        drawn_run(lm, ids, temperature, top_p, top_k, words, caches, columns),
{
    reveal(drawn_run);
    let per = words_of_step(temperature, ids.len());
    assert(0 * per == 0) by (nonlinear_arith);
}

/// A step more with caches takes the words that follow.
pub(crate) proof fn lemma_run_takes_words(
    lm: Qwen3ForCausalLM,
    ids: Seq<Seq<i64>>,
    temperature: Single,
    top_p: Single,
    top_k: nat,
    words: Seq<u32>,
    caches: Seq<Seq<KVCacheView>>,
    columns: Seq<Seq<i64>>,
    more: Seq<u32>,
    after: Seq<KVCacheView>,
    tokens: Seq<i64>,
)
    requires
        drawn_run(lm, ids, temperature, top_p, top_k, words, caches, columns),
        cached_step_with(
            lm,
            step_input(ids, columns),
            step_start(ids, columns),
            temperature,
            top_p,
            top_k,
            more,
            caches.last(),
            after,
            tokens,
        ),
        more.len() == words_of_step(temperature, ids.len()),
    ensures
        drawn_run(
            lm,
            ids,
            temperature,
            top_p,
            top_k,
            words + more,
            caches.push(after),
            columns.push(tokens),
        ),
{
    reveal(drawn_run);
    let per = words_of_step(temperature, ids.len());
    let n = columns.len();
    let (steps, states) = (columns.push(tokens), caches.push(after));
    lemma_step_words(words, more, n, n as int, per);
    assert forall|i: int| 0 <= i < steps.len() implies cached_step_with(
        lm,
        step_input(ids, steps.take(i)),
        step_start(ids, steps.take(i)),
        temperature,
        top_p,
        top_k,
        step_words(words + more, i, per),
        states[i],
        states[i + 1],
        #[trigger] steps[i],
    ) by {
        assert(steps.take(i) =~= columns.take(i));
        lemma_step_words(words, more, n, i, per);
        if i < n {
            assert(steps[i] == columns[i]);
            assert(states[i + 1] == caches[i + 1]);
        } else {
            assert(columns.take(i) =~= columns);
        }
    }
}

/// Sequence `b` takes word `i * batch + b` of the source in step `i` of generation without a cache:
/// its token is the one that the upper 24 bits of that word stand for, after the softmax of the
/// logits over the temperature. There are no other words. The logits, what they are over the
/// temperature, and the probabilities are given back.
pub proof fn lemma_words_of_generation(
    lm: Qwen3ForCausalLM,
    ids: Seq<Seq<i64>>,
    count: nat,
    temperature: Single,
    top_p: Single,
    top_k: nat,
    source: RandomSource,
    rows: Seq<Seq<i64>>,
    i: int,
    b: int,
) -> (r: (TensorView, TensorView, TensorView))
    requires
        temperature.bits != 0,
        temperature.bits != 0x8000_0000,
        generated_by(lm, ids, count, temperature, top_p, top_k, source, rows),
        0 <= i < count,
        0 <= b < ids.len(),
    ensures
        source@.len() == count * ids.len(),
        0 <= i * ids.len() + b < source@.len(),
        lm.forward_outcome(
            Seq::new(ids.len(), |c: int| rows[c].subrange(0, ids[0].len() + i)),
            None,
            r.0,
        ),
        tempered(r.0, temperature, r.1),
        softmaxed(r.1, r.2),
        is_drawn(
            row_of(r.2, b),
            top_k,
            top_p,
            source@[i * ids.len() + b] / 256,
            rows[b][ids[0].len() + i] as int,
        ),
{
    reveal(drawn_tokens);
    let (words, batch) = (source@, ids.len());
    let n = ids[0].len() + i;
    let part = step_words(words, i, batch);
    let tokens = tokens_at(rows, n);
    lemma_word_of_token(words, count, batch, i, b);
    assert(first_tokens(rows, n) =~= Seq::new(batch, |c: int| rows[c].subrange(0, n)));
    assert(step_with(lm, first_tokens(rows, n), temperature, top_p, top_k, part, tokens));
    let logits = choose|logits: TensorView|
        {
            &&& #[trigger] lm.forward_outcome(first_tokens(rows, n), None, logits)
            &&& are_next_with(logits, temperature, top_p, top_k, part, tokens)
        };
    let (scaled, probs) = lemma_words_of_step(
        logits,
        temperature,
        top_p,
        top_k,
        part,
        tokens,
        b,
    );
    (logits, scaled, probs)
}

/// The same of generation with a cache: sequence `b` takes word `i * batch + b` of the source in
/// step `i`.
pub proof fn lemma_words_of_cached_generation(
    lm: Qwen3ForCausalLM,
    ids: Seq<Seq<i64>>,
    temperature: Single,
    top_p: Single,
    top_k: nat,
    words: Seq<u32>,
    caches: Seq<Seq<KVCacheView>>,
    columns: Seq<Seq<i64>>,
    i: int,
    b: int,
    input: Seq<Seq<i64>>,
    positions: Seq<Seq<i64>>,
) -> (r: (TensorView, TensorView, TensorView))
    requires
        temperature.bits != 0,
        temperature.bits != 0x8000_0000,
        ids[0].len() + columns.len() <= i64::MAX,
        drawn_run(lm, ids, temperature, top_p, top_k, words, caches, columns),
        0 <= i < columns.len(),
        0 <= b < ids.len(),
        columns[i].len() == ids.len(),
        i == 0 ==> input == ids && counts_from(positions, 0, ids.len(), ids[0].len()),
        i > 0 ==> {
            &&& columns[i - 1].len() == ids.len()
            &&& input == Seq::new(ids.len(), |c: int| seq![columns[i - 1][c]])
            &&& counts_from(positions, (ids[0].len() + i - 1) as nat, ids.len(), 1)
        },
    ensures
        words.len() == columns.len() * ids.len(),
        0 <= i * ids.len() + b < words.len(),
        lm.cached_outcome(input, None, positions, caches[i], caches[i + 1], r.0),
        tempered(r.0, temperature, r.1),
        softmaxed(r.1, r.2),
        is_drawn(
            row_of(r.2, b),
            top_k,
            top_p,
            words[i * ids.len() + b] / 256,
            columns[i][b] as int,
        ),
{
    let batch = ids.len();
    let part = step_words(words, i, batch);
    let logits = lemma_logits_of_step(
        lm,
        ids,
        temperature,
        top_p,
        top_k,
        words,
        caches,
        columns,
        i,
        input,
        positions,
    );
    let (scaled, probs) = lemma_words_of_step(
        logits,
        temperature,
        top_p,
        top_k,
        part,
        columns[i],
        b,
    );
    lemma_word_of_token(words, columns.len(), batch, i, b);
    (logits, scaled, probs)
}

/// A step with caches feeds its input at its positions, and takes its words.
proof fn lemma_logits_of_step(
    lm: Qwen3ForCausalLM,
    ids: Seq<Seq<i64>>,
    temperature: Single,
    top_p: Single,
    top_k: nat,
    words: Seq<u32>,
    caches: Seq<Seq<KVCacheView>>,
    columns: Seq<Seq<i64>>,
    i: int,
    input: Seq<Seq<i64>>,
    positions: Seq<Seq<i64>>,
) -> (logits: TensorView)
    requires
        ids.len() > 0,
        ids[0].len() + columns.len() <= i64::MAX,
        drawn_run(lm, ids, temperature, top_p, top_k, words, caches, columns),
        0 <= i < columns.len(),
        i == 0 ==> input == ids && counts_from(positions, 0, ids.len(), ids[0].len()),
        i > 0 ==> {
            &&& columns[i - 1].len() == ids.len()
            &&& input == Seq::new(ids.len(), |c: int| seq![columns[i - 1][c]])
            &&& counts_from(positions, (ids[0].len() + i - 1) as nat, ids.len(), 1)
        },
    ensures
        words.len() == columns.len() * words_of_step(temperature, ids.len()),
        lm.cached_outcome(input, None, positions, caches[i], caches[i + 1], logits),
        are_next_with(
            logits,
            temperature,
            top_p,
            top_k,
            step_words(words, i, words_of_step(temperature, ids.len())),
            columns[i],
        ),
{
    reveal(drawn_run);
    let part = step_words(words, i, words_of_step(temperature, ids.len()));
    let done = columns.take(i);
    let (fed, start) = (step_input(ids, done), step_start(ids, done));
    if i > 0 {
        assert(done.last() == columns[i - 1]);
        assert(fed =~= input);
        assert(fed[0].len() == 1);
    }
    assert(fed == input);
    lemma_positions_count_up(positions, start, input.len(), input[0].len());
    assert(cached_step_with(
        lm,
        fed,
        start,
        temperature,
        top_p,
        top_k,
        part,
        caches[i],
        caches[i + 1],
        columns[i],
    ));
    choose|logits: TensorView|
        {
            &&& #[trigger] lm.cached_outcome(
                input,
                None,
                positions_from(start, input.len(), input[0].len()),
                caches[i],
                caches[i + 1],
                logits,
            )
            &&& are_next_with(logits, temperature, top_p, top_k, part, columns[i])
        }
}

/// Where the word of sequence `b` in step `i` stands.
proof fn lemma_word_of_token(words: Seq<u32>, steps: nat, batch: nat, i: int, b: int)
    requires
        words.len() == steps * batch,
        0 <= i < steps,
        0 <= b < batch,
    ensures
        0 <= i * batch + b < words.len(),
        step_words(words, i, batch)[b] == words[i * batch + b],
{
    assert(0 <= i * batch && i * batch + batch <= steps * batch) by (nonlinear_arith)
        requires
            0 <= i,
            i + 1 <= steps,
            0 <= batch,
    ;
}

/// In a step, every sequence takes a word.
proof fn lemma_words_of_step(
    logits: TensorView,
    temperature: Single,
    top_p: Single,
    top_k: nat,
    words: Seq<u32>,
    tokens: Seq<i64>,
    b: int,
) -> (r: (TensorView, TensorView))
    requires
        temperature.bits != 0,
        temperature.bits != 0x8000_0000,
        are_next_with(logits, temperature, top_p, top_k, words, tokens),
        0 <= b < tokens.len(),
    ensures
        tempered(logits, temperature, r.0),
        softmaxed(r.0, r.1),
        words.len() == tokens.len(),
        is_drawn(row_of(r.1, b), top_k, top_p, words[b] / 256, tokens[b] as int),
{
    let (scaled, probs) = choose|scaled: TensorView, probs: TensorView|
        {
            &&& tempered(logits, temperature, scaled)
            &&& #[trigger] softmaxed(scaled, probs)
            &&& are_drawn(probs, top_k, top_p, draws_of(words), tokens)
        };
    assert(draws_of(words)[b] == words[b] / 256);
    assert(is_drawn(row_of(probs, b), top_k, top_p, draws_of(words)[b], tokens[b] as int));
    (scaled, probs)
}

/// No two tokens that are drawn share a random word: sequence `b` takes word `i * batch + b` of the
/// source in step `i`, other steps and sequences take other words, and the source holds as many
/// words as tokens are drawn.
pub proof fn lemma_every_token_has_its_own_word(
    words: nat,
    steps: nat,
    batch: nat,
    i: int,
    b: int,
    j: int,
    c: int,
)
    requires
        words == steps * batch,
        0 <= i < steps,
        0 <= j < steps,
        0 <= b < batch,
        0 <= c < batch,
    ensures
        0 <= i * batch + b < words,
        i * batch + b == j * batch + c ==> i == j && b == c,
{
    assert(0 <= i * batch + b < steps * batch) by (nonlinear_arith)
        requires
            0 <= i < steps,
            0 <= b < batch,
    ;
    if i < j {
        assert(i * batch + b < j * batch + c) by (nonlinear_arith)
            requires
                i + 1 <= j,
                b < batch,
                0 <= c,
        ;
    } else if j < i {
        assert(j * batch + c < i * batch + b) by (nonlinear_arith)
            requires
                j + 1 <= i,
                c < batch,
                0 <= b,
        ;
    }
}

} // verus!
