use qwen3_burn::num::{Double, Single};
use qwen3_burn::rope::{apply_rope, compute_rope_embeddings};
use qwen3_burn::tensor::FloatTensor;

fn tensor(dims: &[usize], values: &[f32]) -> FloatTensor {
    let bits = values.iter().map(|v| v.to_bits()).collect();
    FloatTensor::from_bits(dims.to_vec(), bits).unwrap()
}

fn values(t: &FloatTensor) -> Vec<f32> {
    t.to_bits().into_iter().map(f32::from_bits).collect()
}

fn close(a: &[f32], b: &[f32]) {
    assert_eq!(a.len(), b.len());
    for (x, y) in a.iter().zip(b) {
        assert!((x - y).abs() < 1e-5, "{a:?} and {b:?}");
    }
}

#[test]
fn bits_make_a_tensor_and_come_back() {
    let bits = vec![0x3f80_0000, 0x7fc0_0001, 0x8000_0000, 1, 0xff80_0000, 7];
    let t = FloatTensor::from_bits(vec![2, 1, 3], bits.clone()).unwrap();
    assert_eq!(t.dims(), vec![2, 1, 3]);
    assert_eq!(t.to_bits(), bits);
    let copy = t.clone();
    assert_eq!(copy.dims(), vec![2, 1, 3]);
    assert_eq!(copy.to_bits(), bits);
}

#[test]
fn bits_that_do_not_fill_the_axes_make_no_tensor() {
    assert!(FloatTensor::from_bits(vec![], vec![1]).is_none());
    assert!(FloatTensor::from_bits(vec![2, 0], vec![]).is_none());
    assert!(FloatTensor::from_bits(vec![2, 2], vec![1, 2, 3]).is_none());
    assert!(FloatTensor::from_bits(vec![2, 1], vec![1, 2, 3]).is_none());
    assert!(FloatTensor::from_bits(vec![usize::MAX, 2, 2], vec![1, 2, 3, 4]).is_none());
    assert!(FloatTensor::from_bits(vec![1], vec![5]).is_some());
}

#[test]
fn zero_and_one_are_told_by_their_bits() {
    assert!(Single { bits: 0.0f32.to_bits() }.is_zero());
    assert!(Single { bits: (-0.0f32).to_bits() }.is_zero());
    assert!(!Single { bits: 1e-45f32.to_bits() }.is_zero());
    assert!(Single { bits: 1.0f32.to_bits() }.is_one());
    assert!(!Single { bits: 0.99f32.to_bits() }.is_one());
}

#[test]
fn rope_tables_hold_cosines_and_sines() {
    let theta = Double { bits: 10_000.0f64.to_bits() };
    let (cos, sin) = compute_rope_embeddings(&vec![vec![0, 3], vec![7, 1]], 4, theta);
    assert_eq!(cos.dims(), vec![2, 2, 1, 2]);
    assert_eq!(sin.dims(), vec![2, 2, 1, 2]);
    let angles = [0.0f32, 0.0, 3.0, 0.03, 7.0, 0.07, 1.0, 0.01];
    close(&values(&cos), &angles.map(f32::cos));
    close(&values(&sin), &angles.map(f32::sin));
}

#[test]
fn rope_tables_of_an_odd_head_take_its_lower_half() {
    let theta = Double { bits: 1_000_000.0f64.to_bits() };
    let (cos, sin) = compute_rope_embeddings(&vec![vec![2]], 5, theta);
    assert_eq!(cos.dims(), vec![1, 1, 1, 2]);
    let second = 2.0 / 1_000_000.0f32.powf(2.0 / 5.0);
    close(&values(&cos), &[2.0f32.cos(), second.cos()]);
    close(&values(&sin), &[2.0f32.sin(), second.sin()]);
}

#[test]
fn rope_turns_the_halves_of_a_head() {
    // One sequence, one position, two query heads and one key head of four entries.
    let q = tensor(&[1, 1, 2, 4], &[1.0, 2.0, 3.0, 4.0, -1.0, 0.5, 0.0, 2.0]);
    let k = tensor(&[1, 1, 1, 4], &[5.0, 6.0, 7.0, 8.0]);
    let (c, s) = ([0.6, 0.8], [0.8, 0.6]);
    let cos = tensor(&[1, 1, 1, 2], &c);
    let sin = tensor(&[1, 1, 1, 2], &s);
    let (rq, rk) = apply_rope(&q, &k, &cos, &sin);
    assert_eq!(rq.dims(), vec![1, 1, 2, 4]);
    assert_eq!(rk.dims(), vec![1, 1, 1, 4]);
    let turn = |x: &[f32]| {
        vec![
            x[0] * c[0] - x[2] * s[0],
            x[1] * c[1] - x[3] * s[1],
            x[0] * s[0] + x[2] * c[0],
            x[1] * s[1] + x[3] * c[1],
        ]
    };
    let mut want = turn(&[1.0, 2.0, 3.0, 4.0]);
    want.extend(turn(&[-1.0, 0.5, 0.0, 2.0]));
    close(&values(&rq), &want);
    close(&values(&rk), &turn(&[5.0, 6.0, 7.0, 8.0]));
}

#[test]
fn rope_turns_every_position_by_its_own_angle() {
    let q = tensor(&[1, 2, 1, 2], &[1.0, 0.0, 1.0, 0.0]);
    let k = tensor(&[1, 2, 1, 2], &[0.0, 1.0, 0.0, 1.0]);
    let theta = Double { bits: 1_000_000.0f64.to_bits() };
    let (cos, sin) = compute_rope_embeddings(&vec![vec![0, 2]], 2, theta);
    let (rq, rk) = apply_rope(&q, &k, &cos, &sin);
    close(&values(&rq), &[1.0, 0.0, 2.0f32.cos(), 2.0f32.sin()]);
    close(&values(&rk), &[0.0, 1.0, -(2.0f32.sin()), 2.0f32.cos()]);
}
