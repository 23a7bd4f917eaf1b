use qwen3_burn::attention::Qwen3Attention;
use qwen3_burn::decoder::{Qwen3DecoderLayer, Qwen3MLP};
use qwen3_burn::nn::{Embedding, Linear, RmsNorm};
use qwen3_burn::num::{Double, Single};
use qwen3_burn::causal_lm::next_tokens;
use qwen3_burn::tensor::FloatTensor;
use qwen3_burn::{KVCache, ModelCache, Qwen3Config, Qwen3ForCausalLM, Qwen3Model};

const VOCAB: usize = 7;
const HIDDEN: usize = 4;
const INNER: usize = 3;
const HEADS: usize = 4;
const KV_HEADS: usize = 2;
const HEAD_DIM: usize = 2;
const LAYERS: usize = 3;
const THETA: f64 = 100.0;
const EPS: f64 = 1e-3;

const GREEDY: Single = Single { bits: 0 };
const ONE: Single = Single { bits: 0x3f80_0000 };

/// Numbers between minus a half and a half that look random and are the same every time.
fn numbers(seed: u64, n: usize) -> Vec<f32> {
    let mut x = seed.wrapping_mul(0x9e37_79b9_7f4a_7c15) | 1;
    let mut next = || {
        x ^= x << 13;
        x ^= x >> 7;
        x ^= x << 17;
        (x >> 40) as f32 / (1u64 << 24) as f32 - 0.5
    };
    (0..n).map(|_| next()).collect()
}

fn tensor(dims: &[usize], values: &[f32]) -> FloatTensor {
    let bits = values.iter().map(|v| v.to_bits()).collect();
    FloatTensor::from_bits(dims.to_vec(), bits).unwrap()
}

fn values(t: &FloatTensor) -> Vec<f32> {
    t.to_bits().into_iter().map(f32::from_bits).collect()
}

fn close(a: &[f32], b: &[f32]) {
    assert_eq!(a.len(), b.len());
    for (x, y) in a.iter().zip(b) {
        assert!((x - y).abs() < 1e-4, "{a:?} and {b:?}");
    }
}

fn linear(seed: u64, d_in: usize, d_out: usize) -> Linear {
    let w: Vec<f32> = numbers(seed, d_in * d_out).iter().map(|x| 2.0 * x).collect();
    Linear { weight: tensor(&[d_in, d_out], &w) }
}

fn norm(seed: u64, d: usize) -> RmsNorm {
    let gamma: Vec<f32> = numbers(seed, d).iter().map(|x| 1.0 + x).collect();
    RmsNorm { gamma: tensor(&[d], &gamma), epsilon: Double { bits: EPS.to_bits() } }
}

fn attention(seed: u64) -> Qwen3Attention {
    Qwen3Attention {
        num_heads: HEADS,
        num_kv_heads: KV_HEADS,
        head_dim: HEAD_DIM,
        rope_theta: Double { bits: THETA.to_bits() },
        q_proj: linear(seed + 1, HIDDEN, HEADS * HEAD_DIM),
        k_proj: linear(seed + 2, HIDDEN, KV_HEADS * HEAD_DIM),
        v_proj: linear(seed + 3, HIDDEN, KV_HEADS * HEAD_DIM),
        o_proj: linear(seed + 4, HEADS * HEAD_DIM, HIDDEN),
        q_norm: norm(seed + 5, HEAD_DIM),
        k_norm: norm(seed + 6, HEAD_DIM),
    }
}

fn layer(seed: u64) -> Qwen3DecoderLayer {
    Qwen3DecoderLayer {
        self_attn: attention(seed),
        mlp: Qwen3MLP {
            gate_proj: linear(seed + 11, HIDDEN, INNER),
            up_proj: linear(seed + 12, HIDDEN, INNER),
            down_proj: linear(seed + 13, INNER, HIDDEN),
        },
        input_layernorm: norm(seed + 14, HIDDEN),
        post_attention_layernorm: norm(seed + 15, HIDDEN),
    }
}

fn config() -> Qwen3Config {
    Qwen3Config::new()
        .with_vocab_size(VOCAB)
        .with_hidden_size(HIDDEN)
        .with_intermediate_size(INNER)
        .with_num_hidden_layers(LAYERS)
        .with_num_attention_heads(HEADS)
        .with_num_key_value_heads(KV_HEADS)
        .with_head_dim(Some(HEAD_DIM))
}

fn model() -> Qwen3Model {
    Qwen3Model {
        config: config(),
        embed_tokens: Embedding { weight: tensor(&[VOCAB, HIDDEN], &numbers(7, VOCAB * HIDDEN)) },
        layers: (0..LAYERS as u64).map(|l| layer(100 * (l + 1))).collect(),
        norm: norm(8, HIDDEN),
    }
}

fn causal_lm() -> Qwen3ForCausalLM {
    Qwen3ForCausalLM { model: model(), lm_head: linear(9, HIDDEN, VOCAB) }
}

// A straightforward model of the same computation, on nested vectors.

type Row = Vec<f32>;

fn times(row: &[f32], w: &Linear) -> Row {
    let dims = w.weight.dims();
    let m = values(&w.weight);
    (0..dims[1])
        .map(|j| (0..dims[0]).map(|i| row[i] * m[i * dims[1] + j]).sum())
        .collect()
}

fn normed(row: &[f32], n: &RmsNorm) -> Row {
    let g = values(&n.gamma);
    let square = row.iter().map(|x| x * x).sum::<f32>() / row.len() as f32;
    let rms = (square + EPS as f32).sqrt();
    row.iter().zip(&g).map(|(x, g)| x / rms * g).collect()
}

fn turned(head: &[f32], position: i64) -> Row {
    let half = head.len() / 2;
    let mut r = head.to_vec();
    for i in 0..half {
        let f = 1.0 / (THETA as f32).powf(2.0 * i as f32 / head.len() as f32);
        let (s, c) = (position as f32 * f).sin_cos();
        r[i] = head[i] * c - head[i + half] * s;
        r[i + half] = head[i] * s + head[i + half] * c;
    }
    r
}

/// Attention of one sequence; `sees` tells which keys a query looks at.
fn attend(a: &Qwen3Attention, x: &[Row], sees: &dyn Fn(usize, usize) -> bool) -> Vec<Row> {
    let d = a.head_dim;
    let heads = |rows: Vec<Row>| -> Vec<Vec<Row>> {
        rows.iter().map(|r| r.chunks(d).map(|c| c.to_vec()).collect()).collect()
    };
    let q = heads(x.iter().map(|r| times(r, &a.q_proj)).collect());
    let k = heads(x.iter().map(|r| times(r, &a.k_proj)).collect());
    let v = heads(x.iter().map(|r| times(r, &a.v_proj)).collect());
    let group = a.num_heads / a.num_kv_heads;
    (0..x.len())
        .map(|s| {
            let mut mixed = vec![];
            for h in 0..a.num_heads {
                let query = turned(&normed(&q[s][h], &a.q_norm), s as i64);
                let seen: Vec<usize> = (0..x.len()).filter(|&t| sees(s, t)).collect();
                let scores: Row = seen
                    .iter()
                    .map(|&t| {
                        let key = turned(&normed(&k[t][h / group], &a.k_norm), t as i64);
                        let dot: f32 = query.iter().zip(&key).map(|(x, y)| x * y).sum();
                        (dot / (d as f32).sqrt()).exp()
                    })
                    .collect();
                let total: f32 = scores.iter().sum();
                for i in 0..d {
                    let sum: f32 =
                        seen.iter().zip(&scores).map(|(&t, w)| w * v[t][h / group][i]).sum();
                    mixed.push(if seen.is_empty() { 0.0 } else { sum / total });
                }
            }
            times(&mixed, &a.o_proj)
        })
        .collect()
}

fn plus(a: &[Row], b: &[Row]) -> Vec<Row> {
    a.iter().zip(b).map(|(x, y)| x.iter().zip(y).map(|(x, y)| x + y).collect()).collect()
}

fn through(l: &Qwen3DecoderLayer, x: &[Row], sees: &dyn Fn(usize, usize) -> bool) -> Vec<Row> {
    let a: Vec<Row> = x.iter().map(|r| normed(r, &l.input_layernorm)).collect();
    let mid = plus(x, &attend(&l.self_attn, &a, sees));
    let m: Vec<Row> = mid
        .iter()
        .map(|r| {
            let n = normed(r, &l.post_attention_layernorm);
            let gate = times(&n, &l.mlp.gate_proj);
            let up = times(&n, &l.mlp.up_proj);
            let inner: Row =
                gate.iter().zip(&up).map(|(g, u)| g / (1.0 + (-g).exp()) * u).collect();
            times(&inner, &l.mlp.down_proj)
        })
        .collect();
    plus(&mid, &m)
}

/// All states of one sequence: embeddings, layers and final normalization.
fn states_of(m: &Qwen3Model, ids: &[i64], valid: &[bool]) -> Vec<Vec<Row>> {
    let sees = |s: usize, t: usize| t <= s && valid[t];
    let table = values(&m.embed_tokens_weight());
    let embed = |id: i64| table[id as usize * HIDDEN..(id as usize + 1) * HIDDEN].to_vec();
    let mut all = vec![ids.iter().map(|&i| embed(i)).collect::<Vec<Row>>()];
    for l in &m.layers {
        let next = through(l, all.last().unwrap(), &sees);
        all.push(next);
    }
    let last = all.last().unwrap().iter().map(|r| normed(r, &m.norm)).collect();
    all.push(last);
    all
}

fn logits_of(lm: &Qwen3ForCausalLM, ids: &[i64]) -> Vec<Row> {
    let states = states_of(&lm.model, ids, &vec![true; ids.len()]);
    states.last().unwrap().iter().map(|r| times(r, &lm.lm_head)).collect()
}

fn best(row: &[f32]) -> i64 {
    let mut b = 0;
    for (i, x) in row.iter().enumerate() {
        if *x > row[b] {
            b = i;
        }
    }
    b as i64
}

fn greedy_of(lm: &Qwen3ForCausalLM, ids: &[i64], n: usize) -> Vec<i64> {
    let mut ids = ids.to_vec();
    for _ in 0..n {
        let next = best(logits_of(lm, &ids).last().unwrap());
        ids.push(next);
    }
    ids
}

fn flat(rows: &[Row]) -> Row {
    rows.concat()
}

fn positions(from: i64, to: i64, batch: usize) -> Vec<Vec<i64>> {
    vec![(from..to).collect(); batch]
}

#[test]
fn attention_mixes_values_by_grouped_heads() {
    let a = attention(1);
    let x = numbers(33, 2 * 5 * HIDDEN);
    let r = a.forward(&tensor(&[2, 5, HIDDEN], &x), &None, &positions(0, 5, 2));
    assert_eq!(r.dims(), vec![2, 5, HIDDEN]);
    let rows: Vec<Row> = x.chunks(HIDDEN).map(|c| c.to_vec()).collect();
    let causal = |s: usize, t: usize| t <= s;
    let mut want = flat(&attend(&a, &rows[..5], &causal));
    want.extend(flat(&attend(&a, &rows[5..], &causal)));
    close(&values(&r), &want);
}

#[test]
fn attention_does_not_look_at_padding() {
    let a = attention(1);
    let x = numbers(34, 2 * 4 * HIDDEN);
    let valid = vec![vec![true, false, true, true], vec![true, true, true, false]];
    let mask = Some(valid.clone());
    let r = a.forward(&tensor(&[2, 4, HIDDEN], &x), &mask, &positions(0, 4, 2));
    let rows: Vec<Row> = x.chunks(HIDDEN).map(|c| c.to_vec()).collect();
    let mut want = flat(&attend(&a, &rows[..4], &|s, t| t <= s && valid[0][t]));
    want.extend(flat(&attend(&a, &rows[4..], &|s, t| t <= s && valid[1][t])));
    close(&values(&r), &want);
}

#[test]
fn a_query_that_sees_no_key_gets_zero() {
    let a = attention(1);
    let x = numbers(35, 2 * HIDDEN);
    let mask = Some(vec![vec![false, true]]);
    let r = a.forward(&tensor(&[1, 2, HIDDEN], &x), &mask, &positions(0, 2, 1));
    close(&values(&r)[..HIDDEN], &[0.0; HIDDEN]);
}

#[test]
fn attention_with_a_cache_goes_on_where_it_left_off() {
    let a = attention(1);
    let x = numbers(36, 6 * HIDDEN);
    let whole = values(&a.forward(&tensor(&[1, 6, HIDDEN], &x), &None, &positions(0, 6, 1)));
    let mut cache = KVCache::new();
    let first = tensor(&[1, 4, HIDDEN], &x[..4 * HIDDEN]);
    let r = a.forward_with_cache(&first, &None, &positions(0, 4, 1), &mut cache);
    close(&values(&r), &whole[..4 * HIDDEN]);
    assert_eq!(cache.seq_len(), 4);
    for s in 4..6 {
        let one = tensor(&[1, 1, HIDDEN], &x[s * HIDDEN..(s + 1) * HIDDEN]);
        let at = s as i64;
        let r = a.forward_with_cache(&one, &None, &positions(at, at + 1, 1), &mut cache);
        close(&values(&r), &whole[s * HIDDEN..(s + 1) * HIDDEN]);
        assert_eq!(cache.seq_len(), s + 1);
    }
    assert_eq!(cache.key.as_ref().unwrap().dims(), vec![1, 6, KV_HEADS, HEAD_DIM]);
}

#[test]
fn several_positions_behind_a_cache_go_on_where_it_left_off() {
    let a = attention(1);
    let x = numbers(37, 2 * 5 * HIDDEN);
    let mask = Some(vec![vec![true, false, true, true, true], vec![true; 5]]);
    let at = |from: usize, to: usize| {
        let mut rows = x[from * HIDDEN..to * HIDDEN].to_vec();
        rows.extend(&x[(5 + from) * HIDDEN..(5 + to) * HIDDEN]);
        tensor(&[2, to - from, HIDDEN], &rows)
    };
    let first = |n: usize| mask.as_ref().map(|m| m.iter().map(|r| r[..n].to_vec()).collect());
    for padded in [false, true] {
        let given = |n: usize| if padded { first(n) } else { None };
        let whole = values(&a.forward(&at(0, 5), &given(5), &positions(0, 5, 2)));
        for p in 1..5 {
            let mut cache = KVCache::new();
            a.forward_with_cache(&at(0, p), &given(p), &positions(0, p as i64, 2), &mut cache);
            let rest = positions(p as i64, 5, 2);
            let r = values(&a.forward_with_cache(&at(p, 5), &given(5), &rest, &mut cache));
            let half = (5 - p) * HIDDEN;
            close(&r[..half], &whole[p * HIDDEN..5 * HIDDEN]);
            close(&r[half..], &whole[(5 + p) * HIDDEN..]);
        }
    }
}

#[test]
fn several_positions_behind_a_cache_see_the_positions_up_to_their_own() {
    let a = attention(1);
    let x = numbers(37, 4 * HIDDEN);
    let mut cache = KVCache::new();
    let first = tensor(&[1, 2, HIDDEN], &x[..2 * HIDDEN]);
    a.forward_with_cache(&first, &None, &positions(0, 2, 1), &mut cache);
    let second = tensor(&[1, 2, HIDDEN], &x[2 * HIDDEN..]);
    let r = values(&a.forward_with_cache(&second, &None, &positions(2, 4, 1), &mut cache));
    let rows: Vec<Row> = x.chunks(HIDDEN).map(|c| c.to_vec()).collect();
    let want = attend(&a, &rows, &|s, t| t <= s);
    close(&r, &flat(&want[2..]));
}

#[test]
fn a_lone_position_does_not_look_at_padding() {
    let a = attention(1);
    let x = numbers(38, 3 * HIDDEN);
    let rows: Vec<Row> = x.chunks(HIDDEN).map(|c| c.to_vec()).collect();
    let mut cache = KVCache::new();
    let first = tensor(&[1, 2, HIDDEN], &x[..2 * HIDDEN]);
    a.forward_with_cache(&first, &None, &positions(0, 2, 1), &mut cache);
    let last = tensor(&[1, 1, HIDDEN], &x[2 * HIDDEN..]);
    let flags = Some(vec![vec![false, true, true]]);
    let r = values(&a.forward_with_cache(&last, &flags, &positions(2, 3, 1), &mut cache));
    let want = attend(&a, &rows, &|s, t| t <= s && (s < 2 || t != 0));
    close(&r, &want[2]);
}

#[test]
fn a_lone_valid_position_sees_itself() {
    let a = attention(1);
    let x = tensor(&[1, 1, HIDDEN], &numbers(39, HIDDEN));
    let mut plain = KVCache::new();
    let want = values(&a.forward_with_cache(&x, &None, &positions(0, 1, 1), &mut plain));
    let mut cache = KVCache::new();
    let valid = Some(vec![vec![true]]);
    let r = values(&a.forward_with_cache(&x, &valid, &positions(0, 1, 1), &mut cache));
    close(&r, &want);
    assert!(want.iter().any(|v| v.abs() > 1e-3));
    let zeros = tensor(&[1, 1, HIDDEN], &[0.0; HIDDEN]);
    let mut cache = KVCache::new();
    let r = a.forward_with_cache(&zeros, &valid, &positions(0, 1, 1), &mut cache);
    assert_eq!(values(&r), vec![0.0; HIDDEN]);
}

#[test]
fn on_an_empty_cache_attention_is_the_forward_pass() {
    let a = attention(1);
    let x = tensor(&[2, 3, HIDDEN], &numbers(40, 6 * HIDDEN));
    for mask in [None, Some(vec![vec![true, false, true], vec![true, true, false]])] {
        let want = values(&a.forward(&x, &mask, &positions(0, 3, 2)));
        let mut cache = KVCache::new();
        let r = a.forward_with_cache(&x, &mask, &positions(0, 3, 2), &mut cache);
        close(&values(&r), &want);
    }
}

#[test]
fn a_mask_of_valid_tokens_changes_nothing() {
    let a = attention(1);
    let x = tensor(&[2, 3, HIDDEN], &numbers(41, 6 * HIDDEN));
    let plain = values(&a.forward(&x, &None, &positions(0, 3, 2)));
    let all = Some(vec![vec![true; 3]; 2]);
    close(&values(&a.forward(&x, &all, &positions(0, 3, 2))), &plain);
}

#[test]
fn a_padded_position_has_no_influence() {
    let a = attention(1);
    let x = numbers(42, 2 * 4 * HIDDEN);
    let (from, to) = (2 * HIDDEN, 3 * HIDDEN);
    let mut y = x.clone();
    for (i, v) in y[from..to].iter_mut().enumerate() {
        *v = 3.0 - i as f32;
    }
    let mask = Some(vec![vec![true, true, false, true], vec![true; 4]]);
    let run = |x: &[f32]| {
        let x = tensor(&[2, 4, HIDDEN], x);
        values(&a.forward(&x, &mask, &positions(0, 4, 2)))
    };
    let (r, s) = (run(&x), run(&y));
    close(&r[..from], &s[..from]);
    close(&r[to..], &s[to..]);
    // Its own query sees the others in other proportions.
    assert!(r[from..to].iter().zip(&s[from..to]).any(|(a, b)| (a - b).abs() > 1e-3));
}

#[test]
fn later_positions_do_not_matter_behind_a_mask() {
    let a = attention(1);
    let x = numbers(43, 5 * HIDDEN);
    let mask = vec![vec![true, false, true, true, false]];
    let whole = a.forward(&tensor(&[1, 5, HIDDEN], &x), &Some(mask.clone()), &positions(0, 5, 1));
    let whole = values(&whole);
    for n in 1..5 {
        let cut = Some(vec![mask[0][..n].to_vec()]);
        let first = tensor(&[1, n, HIDDEN], &x[..n * HIDDEN]);
        let r = a.forward(&first, &cut, &positions(0, n as i64, 1));
        close(&values(&r), &whole[..n * HIDDEN]);
    }
}

#[test]
fn the_forward_pass_returns_every_state() {
    let m = model();
    let ids = vec![vec![1, 5, 0, 6], vec![2, 2, 3, 4]];
    let states = m.forward(&ids, &None);
    assert_eq!(states.len(), LAYERS + 2);
    for b in 0..2 {
        let want = states_of(&m, &ids[b], &[true; 4]);
        for (state, want) in states.iter().zip(&want) {
            assert_eq!(state.dims(), vec![2, 4, HIDDEN]);
            close(&values(state)[b * 4 * HIDDEN..(b + 1) * 4 * HIDDEN], &flat(want));
        }
    }
}

#[test]
fn text_embeddings_are_the_second_to_last_layer_without_padding() {
    let m = model();
    let ids = vec![vec![1, 5, 0], vec![2, 6, 3]];
    let valid = vec![vec![true, true, false], vec![true, true, true]];
    let r = m.encode(&ids, &valid);
    assert_eq!(r.dims(), vec![2, 3, HIDDEN]);
    let r = values(&r);
    let first = states_of(&m, &ids[0], &valid[0]);
    close(&r[..2 * HIDDEN], &flat(&first[LAYERS - 1][..2]));
    assert_eq!(&r[2 * HIDDEN..3 * HIDDEN], &[0.0; HIDDEN]);
    let second = states_of(&m, &ids[1], &valid[1]);
    close(&r[3 * HIDDEN..], &flat(&second[LAYERS - 1]));
}

#[test]
fn a_model_of_one_layer_encodes_its_embeddings() {
    let mut m = model();
    m.layers.truncate(1);
    let r = m.encode(&vec![vec![4, 2]], &vec![vec![true, true]]);
    let table = values(&m.embed_tokens_weight());
    close(&values(&r)[..HIDDEN], &table[4 * HIDDEN..5 * HIDDEN]);
    close(&values(&r)[HIDDEN..], &table[2 * HIDDEN..3 * HIDDEN]);
}

#[test]
fn a_model_with_a_cache_gives_the_final_state() {
    let m = model();
    let ids = [1i64, 5, 0, 6, 2];
    let want = states_of(&m, &ids, &[true; 5]);
    let want = want.last().unwrap();
    let mut cache = m.new_cache();
    let r = m.forward_with_cache(
        &vec![ids[..3].to_vec()],
        &None,
        &positions(0, 3, 1),
        &mut cache,
    );
    assert_eq!(r.dims(), vec![1, 3, HIDDEN]);
    close(&values(&r), &flat(&want[..3]));
    assert_eq!(cache.seq_len(), 3);
    for s in 3..5usize {
        let at = s as i64;
        let r = m.forward_with_cache(
            &vec![vec![ids[s]]],
            &None,
            &positions(at, at + 1, 1),
            &mut cache,
        );
        close(&values(&r), &want[s]);
        assert!(cache.layers.iter().all(|c| c.seq_len() == s + 1));
    }
}

#[test]
fn tokens_can_be_fed_in_any_portions() {
    let lm = causal_lm();
    let ids = vec![vec![1, 5, 0, 6, 2, 3], vec![4, 4, 1, 0, 5, 6]];
    let mask = vec![vec![true, true, false, true, true, true], vec![true; 6]];
    let part = |lo: usize, hi: usize| -> Vec<Vec<i64>> {
        ids.iter().map(|r| r[lo..hi].to_vec()).collect()
    };
    for padded in [false, true] {
        let given = |n: usize| {
            let cut = mask.iter().map(|r| r[..n].to_vec()).collect::<Vec<_>>();
            if padded { Some(cut) } else { None }
        };
        let whole = values(&lm.forward(&ids, &given(6)));
        for cuts in [vec![0, 3, 6], vec![0, 2, 3, 6], vec![0, 1, 5, 6], vec![0, 6]] {
            let mut cache = lm.new_cache();
            for w in cuts.windows(2) {
                let (lo, hi) = (w[0], w[1]);
                let at = positions(lo as i64, hi as i64, 2);
                let r = lm.forward_with_cache(&part(lo, hi), &given(hi), &at, &mut cache);
                let r = values(&r);
                let half = (hi - lo) * VOCAB;
                close(&r[..half], &whole[lo * VOCAB..hi * VOCAB]);
                close(&r[half..], &whole[(6 + lo) * VOCAB..(6 + hi) * VOCAB]);
                assert_eq!(cache.seq_len(), hi);
            }
        }
    }
}

#[test]
fn what_comes_later_does_not_matter() {
    let m = model();
    let short = m.forward(&vec![vec![3, 1]], &None);
    let long = m.forward(&vec![vec![3, 1, 6, 2]], &None);
    for (a, b) in short.iter().zip(&long) {
        close(&values(a), &values(b)[..2 * HIDDEN]);
    }
    let short = m.forward(&vec![vec![3, 1, 6]], &Some(vec![vec![true, false, true]]));
    let long = m.forward(&vec![vec![3, 1, 6, 2]], &Some(vec![vec![true, false, true, true]]));
    for (a, b) in short.iter().zip(&long) {
        close(&values(a), &values(b)[..3 * HIDDEN]);
    }
}

#[test]
fn layers_beyond_the_caches_are_left_out() {
    let m = model();
    let ids = vec![vec![1, 2]];
    let mut cache = ModelCache::new(1);
    let r = m.forward_with_cache(&ids, &None, &positions(0, 2, 1), &mut cache);
    let states = states_of(&m, &ids[0], &[true; 2]);
    let want: Vec<Row> = states[1].iter().map(|r| normed(r, &m.norm)).collect();
    close(&values(&r), &flat(&want));
    let mut cache = ModelCache::new(LAYERS + 2);
    let r = m.forward_with_cache(&ids, &None, &positions(0, 2, 1), &mut cache);
    close(&values(&r), &flat(states.last().unwrap()));
    assert_eq!(cache.layers[LAYERS - 1].seq_len(), 2);
    assert_eq!(cache.layers[LAYERS].seq_len(), 0);
}

#[test]
fn logits_project_the_normalized_state() {
    let lm = causal_lm();
    let ids = vec![vec![0, 3, 5]];
    let r = lm.forward(&ids, &None);
    assert_eq!(r.dims(), vec![1, 3, VOCAB]);
    close(&values(&r), &flat(&logits_of(&lm, &ids[0])));
    let mut cache = lm.new_cache();
    let c = lm.forward_with_cache(&ids, &None, &positions(0, 3, 1), &mut cache);
    close(&values(&c), &values(&r));
}

#[test]
fn greedy_generation_takes_the_best_token() {
    let lm = causal_lm();
    let ids = vec![vec![1, 4], vec![6, 0]];
    let r = lm.generate(&ids, 5, GREEDY, ONE, 0);
    assert_eq!(r, vec![greedy_of(&lm, &ids[0], 5), greedy_of(&lm, &ids[1], 5)]);
    let negative = Single { bits: (-0.0f32).to_bits() };
    assert_eq!(lm.generate(&ids, 5, negative, ONE, 3), r);
}

#[test]
fn generation_with_a_cache_gives_the_same_tokens() {
    let lm = causal_lm();
    let ids = vec![vec![1, 4, 2], vec![6, 0, 0]];
    let slow = lm.generate(&ids, 6, GREEDY, ONE, 0);
    assert_eq!(lm.generate_with_cache(&ids, 6, GREEDY, ONE, 0), slow);
    assert_eq!(lm.generate_with_cache_eos(&ids, 6, GREEDY, ONE, 0, &[]), slow);
    let one = vec![vec![3]];
    assert_eq!(
        lm.generate_with_cache(&one, 4, GREEDY, ONE, 0),
        lm.generate(&one, 4, GREEDY, ONE, 0)
    );
}

#[test]
fn generation_ends_before_an_end_token_of_the_first_sequence() {
    let lm = causal_lm();
    let ids = vec![vec![1, 4], vec![6, 0]];
    let all = lm.generate(&ids, 8, GREEDY, ONE, 0);
    for stop in 0..VOCAB as i64 {
        let r = lm.generate_with_cache_eos(&ids, 8, GREEDY, ONE, 0, &[99, stop]);
        let new = all[0][2..].iter().take_while(|&&t| t != stop).count();
        assert_eq!(r[0], all[0][..2 + new].to_vec());
        assert_eq!(r[1], all[1][..2 + new].to_vec());
    }
}

#[test]
fn one_forward_pass_tells_all_greedy_tokens() {
    let lm = causal_lm();
    let ids = vec![vec![1, 4, 2], vec![6, 0, 0]];
    let rows = lm.generate_with_cache_eos(&ids, 5, GREEDY, ONE, 0, &[]);
    let logits = values(&lm.forward(&rows, &None));
    for b in 0..2 {
        for n in 3..8 {
            let at = (b * 8 + n - 1) * VOCAB;
            assert_eq!(rows[b][n], best(&logits[at..at + VOCAB]));
        }
    }
}

#[test]
fn greedy_generation_ignores_the_other_settings() {
    let lm = causal_lm();
    let ids = vec![vec![1, 4, 2], vec![6, 0, 0]];
    let want = lm.generate(&ids, 4, GREEDY, ONE, 0);
    for (top_p, top_k) in [(0.1f32, 3), (0.9, 1), (-1.0, 7)] {
        let top_p = Single { bits: top_p.to_bits() };
        assert_eq!(lm.generate(&ids, 4, GREEDY, top_p, top_k), want);
        assert_eq!(lm.generate_with_cache(&ids, 4, GREEDY, top_p, top_k), want);
    }
}

#[test]
fn more_tokens_only_extend_the_result() {
    let lm = causal_lm();
    let ids = vec![vec![1, 4, 2], vec![6, 0, 0]];
    let long = lm.generate(&ids, 7, GREEDY, ONE, 0);
    let stop = [long[0][7]];
    let ended = lm.generate_with_cache_eos(&ids, 7, GREEDY, ONE, 0, &stop);
    for n in 0..7 {
        let first = |rows: &[Vec<i64>]| -> Vec<Vec<i64>> {
            rows.iter().map(|r| r[..r.len().min(3 + n)].to_vec()).collect()
        };
        assert_eq!(lm.generate(&ids, n, GREEDY, ONE, 0), first(&long));
        let r = lm.generate_with_cache_eos(&ids, n, GREEDY, ONE, 0, &stop);
        assert_eq!(r, first(&ended));
    }
}

#[test]
fn fresh_caches_give_the_final_state_and_the_logits() {
    let lm = causal_lm();
    let ids = vec![vec![1, 4, 2], vec![6, 0, 0]];
    for mask in [None, Some(vec![vec![true, false, true], vec![true; 3]])] {
        let states = lm.model.forward(&ids, &mask);
        let mut cache = lm.new_cache();
        let r = lm.model.forward_with_cache(&ids, &mask, &positions(0, 3, 2), &mut cache);
        close(&values(&r), &values(states.last().unwrap()));
        let mut cache = lm.new_cache();
        let r = lm.forward_with_cache(&ids, &mask, &positions(0, 3, 2), &mut cache);
        close(&values(&r), &values(&lm.forward(&ids, &mask)));
    }
}

#[test]
fn no_new_tokens_leave_the_input() {
    let lm = causal_lm();
    let ids = vec![vec![1, 4], vec![6, 0]];
    assert_eq!(lm.generate(&ids, 0, GREEDY, ONE, 0), ids);
    assert_eq!(lm.generate_with_cache(&ids, 0, GREEDY, ONE, 0), ids);
    assert_eq!(lm.generate_with_cache_eos(&ids, 0, ONE, ONE, 2, &[1]), ids);
}

#[test]
fn sampling_among_one_token_is_greedy() {
    let lm = causal_lm();
    let ids = vec![vec![1, 4], vec![6, 0]];
    let greedy = lm.generate(&ids, 4, GREEDY, ONE, 0);
    let warm = Single { bits: 0.7f32.to_bits() };
    let none = Single { bits: 0 };
    assert_eq!(lm.generate(&ids, 4, warm, ONE, 1), greedy);
    assert_eq!(lm.generate(&ids, 4, ONE, none, 0), greedy);
    assert_eq!(lm.generate_with_cache(&ids, 4, warm, ONE, 1), greedy);
    assert_eq!(lm.generate_with_cache(&ids, 4, ONE, none, 0), greedy);
}

#[test]
fn sampled_tokens_are_of_the_vocabulary() {
    let lm = causal_lm();
    let ids = vec![vec![1, 4, 3]];
    let hot = Single { bits: 3.0f32.to_bits() };
    for _ in 0..5 {
        let r = lm.generate(&ids, 6, hot, Single { bits: 0.9f32.to_bits() }, 5);
        assert_eq!(r[0].len(), 9);
        assert_eq!(&r[0][..3], &ids[0][..]);
        assert!(r[0].iter().all(|&t| (0..VOCAB as i64).contains(&t)));
        let r = lm.generate_with_cache_eos(&ids, 6, hot, ONE, 0, &[0]);
        assert!(r[0].len() <= 9);
        assert!(!r[0][3..].contains(&0));
    }
}

#[test]
fn the_last_position_decides_the_next_token() {
    let logits = tensor(&[2, 2, 3], &[9.0, 0.0, 0.0, 1.0, 3.0, 2.0, 0.0, 9.0, 0.0, 5.0, 5.0, 4.0]);
    assert_eq!(next_tokens(&logits, GREEDY, ONE, 0), vec![1, 0]);
    assert_eq!(next_tokens(&logits, ONE, ONE, 1), vec![1, 0]);
}

#[test]
fn temperature_sharpens_and_flattens() {
    // At temperature 0.05 the better token is e^20 times as probable, at 1000 hardly more.
    let row = [0.0f32, 1.0];
    let logits = tensor(&[400, 1, 2], &row.repeat(400));
    let cold = next_tokens(&logits, Single { bits: 0.05f32.to_bits() }, ONE, 0);
    assert!(cold.iter().all(|&t| t == 1));
    let hot = next_tokens(&logits, Single { bits: 1000.0f32.to_bits() }, ONE, 0);
    let zeros = hot.iter().filter(|&&t| t == 0).count();
    assert!((130..270).contains(&zeros), "{zeros}");
    let one = next_tokens(&logits, ONE, ONE, 0);
    let zeros = one.iter().filter(|&&t| t == 0).count();
    assert!((60..160).contains(&zeros), "{zeros}");
}
