use qwen3_burn::num::Single;
use qwen3_burn::sampling::{draw_of_word, sample_from_probs, sample_row, sample_with_draws};
use qwen3_burn::tensor::FloatTensor;

const OFF: Single = Single { bits: 0x3f80_0000 };
const DRAWS: u32 = 1 << 24;

fn bits(values: &[f32]) -> Vec<u32> {
    values.iter().map(|v| v.to_bits()).collect()
}

fn single(value: f32) -> Single {
    Single { bits: value.to_bits() }
}

#[test]
fn a_draw_falls_on_its_share() {
    // Ranked: token 1 up to a half, token 2 up to three quarters, then token 0 and token 3.
    let row = bits(&[0.125, 0.5, 0.25, 0.125]);
    let at = |part: u32| sample_row(&row, 0, OFF, part);
    assert_eq!(at(0), 1);
    assert_eq!(at(DRAWS / 2 - 1), 1);
    assert_eq!(at(DRAWS / 2), 2);
    assert_eq!(at(DRAWS / 4 * 3 - 1), 2);
    assert_eq!(at(DRAWS / 4 * 3), 0);
    assert_eq!(at(DRAWS / 8 * 7 - 1), 0);
    assert_eq!(at(DRAWS / 8 * 7), 3);
    assert_eq!(at(DRAWS - 1), 3);
}

#[test]
fn top_k_keeps_the_most_probable() {
    let row = bits(&[0.1, 0.4, 0.2, 0.3]);
    for draw in [0, DRAWS / 3, DRAWS / 2, DRAWS - 1] {
        assert_eq!(sample_row(&row, 1, OFF, draw), 1);
        assert!([1, 3].contains(&sample_row(&row, 2, OFF, draw)));
    }
    // 0.4 and 0.3 share the draws as four to three.
    assert_eq!(sample_row(&row, 2, OFF, DRAWS / 7 * 4 - 16), 1);
    assert_eq!(sample_row(&row, 2, OFF, DRAWS / 7 * 4 + 16), 3);
    // As many as there are, or more, keep all.
    assert_eq!(sample_row(&row, 4, OFF, DRAWS - 1), 0);
    assert_eq!(sample_row(&row, 99, OFF, DRAWS - 1), 0);
    assert_eq!(sample_row(&row, 0, OFF, DRAWS - 1), 0);
}

#[test]
fn top_p_keeps_the_nucleus() {
    let row = bits(&[0.125, 0.5, 0.25, 0.125]);
    let last = |top_p: f32| sample_row(&row, 0, single(top_p), DRAWS - 1);
    assert_eq!(last(0.5), 1);
    assert_eq!(last(0.51), 2);
    assert_eq!(last(0.75), 2);
    assert_eq!(last(0.76), 0);
    assert_eq!(last(0.875), 0);
    assert_eq!(last(0.9), 3);
    assert_eq!(last(1.0), 3);
    assert_eq!(last(2.5), 3);
    assert_eq!(last(f32::NAN), 3);
    assert_eq!(last(f32::INFINITY), 3);
    assert_eq!(last(0.0), 1);
    assert_eq!(last(-3.0), 1);
    assert_eq!(last(1e-30), 1);
}

#[test]
fn the_nucleus_is_a_share_of_what_top_k_keeps() {
    // The first two weigh five eighths; the first of them holds four fifths of that.
    let row = bits(&[0.5, 0.125, 0.125, 0.125, 0.125]);
    assert_eq!(sample_row(&row, 2, single(0.75), DRAWS - 1), 0);
    assert_eq!(sample_row(&row, 2, single(0.85), DRAWS - 1), 1);
    assert_eq!(sample_row(&row, 0, single(0.75), DRAWS - 1), 2);
}

#[test]
fn equal_probabilities_are_ranked_by_token() {
    let row = bits(&[0.25, 0.25, 0.25, 0.25]);
    for token in 0..4u32 {
        assert_eq!(sample_row(&row, 0, OFF, DRAWS / 4 * token), token as usize);
    }
    assert_eq!(sample_row(&row, 1, OFF, DRAWS - 1), 0);
    // Zeros of either sign are equal.
    assert_eq!(sample_row(&bits(&[-0.0, 0.0]), 0, OFF, 5), 0);
}

#[test]
fn a_row_without_weight_gives_the_first_ranked() {
    assert_eq!(sample_row(&bits(&[0.0, 0.0, 0.0]), 0, OFF, DRAWS - 1), 0);
    assert_eq!(sample_row(&bits(&[-2.0, -1.0, -3.0]), 0, OFF, 0), 1);
    let nan = [f32::NAN, f32::NAN];
    assert_eq!(sample_row(&bits(&nan), 0, OFF, DRAWS - 1), 0);
    assert_eq!(sample_row(&bits(&[f32::NAN, 1.0]), 0, OFF, DRAWS - 1), 1);
    for draw in [0, DRAWS / 2, DRAWS - 1] {
        let row = bits(&[1.0, f32::INFINITY, 5.0, f32::INFINITY]);
        assert_eq!(sample_row(&row, 0, OFF, draw), 1);
        assert_eq!(sample_row(&row, 3, single(0.5), draw), 1);
        assert_eq!(sample_row(&bits(&[0.25, f32::NAN, 0.75]), 0, OFF, draw), 2);
    }
}

#[test]
fn only_the_proportions_of_a_row_count() {
    // Two to one, whatever the sum of the row.
    let draw = DRAWS / 5 * 3;
    let late = DRAWS / 10 * 7;
    for scale in [2.0f32, 0.5, 1.0, 1e-30, 1e-44, 1e30, 1e38] {
        let row = bits(&[scale, 2.0 * scale]);
        assert_eq!(sample_row(&row, 0, OFF, draw), 1, "{scale}");
        assert_eq!(sample_row(&row, 0, OFF, late), 0, "{scale}");
        assert_eq!(sample_row(&row, 0, single(0.6), late), 1, "{scale}");
        assert_eq!(sample_row(&row, 0, single(0.7), late), 0, "{scale}");
    }
    let probs = FloatTensor::from_bits(vec![1, 2], bits(&[4.0, 2.0])).unwrap();
    assert_eq!(sample_with_draws(&probs, 0, OFF, &vec![(0.6 * DRAWS as f32) as u32]), vec![0]);
    // Ten to one among tiny numbers.
    let tiny = bits(&[1e-30, 1e-31]);
    assert_eq!(sample_row(&tiny, 0, OFF, DRAWS / 10 * 9), 0);
    assert_eq!(sample_row(&tiny, 0, OFF, DRAWS / 100 * 92), 1);
}

/// The same choice with the floats of the machine.
fn chosen(row: &[f32], top_k: usize, draw: u32) -> usize {
    let mut indexed: Vec<(usize, f32)> = row.iter().cloned().enumerate().collect();
    indexed.sort_by(|a, b| b.1.partial_cmp(&a.1).unwrap());
    indexed.truncate(if top_k > 0 && top_k < row.len() { top_k } else { row.len() });
    let sum: f32 = indexed.iter().map(|(_, p)| p).sum();
    if sum <= 0.0 {
        return indexed[0].0;
    }
    let r = draw as f32 / DRAWS as f32;
    let mut cumsum = 0.0f32;
    for (token, p) in &indexed {
        cumsum += p / sum;
        if r < cumsum {
            return *token;
        }
    }
    indexed[0].0
}

fn words(seed: u64, n: usize) -> Vec<u32> {
    let mut x = seed.wrapping_mul(0x9e37_79b9_7f4a_7c15) | 1;
    let mut next = || {
        x ^= x << 13;
        x ^= x >> 7;
        x ^= x << 17;
        (x >> 32) as u32
    };
    (0..n).map(|_| next()).collect()
}

#[test]
fn draws_fall_as_the_sums_of_floats_round() {
    for seed in 0..60u64 {
        let n = 2 + seed as usize % 23;
        let row: Vec<f32> = words(seed + 1, n)
            .iter()
            .map(|w| (*w as f32 / u32::MAX as f32).powi(1 + seed as i32 % 9))
            .collect();
        let packed = bits(&row);
        for top_k in [0, 1, 3, n] {
            let mut draws = words(seed + 100, 20);
            draws.iter_mut().for_each(|d| *d = draw_of_word(*d));
            draws.extend([0, 1, DRAWS / 2, DRAWS - 2, DRAWS - 1]);
            // The draws next to the shares of the first tokens.
            let sum: f32 = row.iter().sum();
            draws.extend(row.iter().map(|p| ((p / sum) * DRAWS as f32) as u32 % DRAWS));
            for draw in draws {
                assert_eq!(sample_row(&packed, top_k, OFF, draw), chosen(&row, top_k, draw));
            }
        }
    }
}

#[test]
fn a_whole_vocabulary_is_sampled_alike() {
    let row: Vec<f32> = words(5, 151_936)
        .iter()
        .map(|w| (-20.0 * (*w as f32 / u32::MAX as f32)).exp())
        .collect();
    let packed = bits(&row);
    for draw in [0, DRAWS / 3, DRAWS - 1] {
        assert_eq!(sample_row(&packed, 0, OFF, draw), chosen(&row, 0, draw));
        assert_eq!(sample_row(&packed, 50, OFF, draw), chosen(&row, 50, draw));
    }
}

#[test]
fn a_draw_that_no_sum_exceeds_gives_the_first_ranked() {
    let mut short = 0;
    for n in 2..120 {
        let row = vec![1.0f32 / n as f32; n];
        let last = sample_row(&bits(&row), 0, OFF, DRAWS - 1);
        assert_eq!(last, chosen(&row, 0, DRAWS - 1));
        if last == 0 {
            short += 1;
        }
    }
    assert!(short > 0);
}

#[test]
fn a_sum_that_overflows_gives_the_first_ranked() {
    let row = [2e38f32, 3e38];
    for draw in [0, DRAWS / 10 * 7, DRAWS - 1] {
        assert_eq!(sample_row(&bits(&row), 0, OFF, draw), 1);
        assert_eq!(chosen(&row, 0, draw), 1);
    }
}

#[test]
fn negative_numbers_count_as_they_are() {
    for row in [[0.5f32, -0.125, 0.75], [1.0, -0.5, -0.25], [-0.5, 0.25, 0.125]] {
        for draw in [0, DRAWS / 4, DRAWS / 2, DRAWS / 3 * 2, DRAWS / 8 * 7, DRAWS - 1] {
            assert_eq!(sample_row(&bits(&row), 0, OFF, draw), chosen(&row, 0, draw));
        }
    }
}

#[test]
fn the_upper_bits_of_a_word_are_the_draw() {
    assert_eq!(draw_of_word(0), 0);
    assert_eq!(draw_of_word(0xff), 0);
    assert_eq!(draw_of_word(0x1234_5678), 0x12_3456);
    assert_eq!(draw_of_word(u32::MAX), DRAWS - 1);
}

#[test]
fn tokens_without_weight_are_not_drawn() {
    let row = bits(&[0.0, 1.0, 0.0, 1e-30]);
    for draw in [0, 1, DRAWS / 2, DRAWS - 1] {
        assert_eq!(sample_row(&row, 0, OFF, draw), 1);
    }
}

#[test]
fn a_batch_draws_row_by_row() {
    let probs = [0.75f32, 0.25, 0.25, 0.75];
    let probs = FloatTensor::from_bits(vec![2, 2], bits(&probs)).unwrap();
    let draws = vec![DRAWS / 4 * 3, DRAWS / 4 * 3 - 1];
    assert_eq!(sample_with_draws(&probs, 0, OFF, &draws), vec![1, 1]);
    let draws = vec![0, DRAWS - 1];
    assert_eq!(sample_with_draws(&probs, 0, OFF, &draws), vec![0, 0]);
}

#[test]
fn sampling_follows_the_probabilities() {
    let rows: Vec<f32> = [0.5f32, 0.0, 0.25, 0.25].repeat(2000);
    let probs = FloatTensor::from_bits(vec![2000, 4], bits(&rows)).unwrap();
    let tokens = sample_from_probs(&probs, 0, OFF);
    assert_eq!(tokens.len(), 2000);
    let count = |t: i64| tokens.iter().filter(|&&x| x == t).count();
    assert_eq!(count(1), 0);
    assert!((800..1200).contains(&count(0)), "{}", count(0));
    assert!((350..650).contains(&count(2)), "{}", count(2));
    assert!((350..650).contains(&count(3)), "{}", count(3));
    assert!(sample_from_probs(&probs, 1, OFF).iter().all(|&t| t == 0));
}
