use qwen3_burn::tensor::FloatTensor;
use qwen3_burn::{KVCache, ModelCache};

fn tensor(dims: &[usize], first: u32) -> FloatTensor {
    let n = dims.iter().product::<usize>() as u32;
    FloatTensor::from_bits(dims.to_vec(), (first..first + n).collect()).unwrap()
}

#[test]
fn a_new_cache_is_empty() {
    let cache = KVCache::new();
    assert!(cache.key.is_none());
    assert!(cache.value.is_none());
    assert_eq!(cache.seq_len(), 0);
    assert_eq!(KVCache::default().seq_len(), 0);
}

#[test]
fn updates_put_new_positions_behind_the_old() {
    let mut cache = KVCache::new();
    let (k, v) = cache.update(tensor(&[2, 1, 1, 2], 0), tensor(&[2, 1, 1, 2], 100));
    assert_eq!(k.to_bits(), vec![0, 1, 2, 3]);
    assert_eq!(v.to_bits(), vec![100, 101, 102, 103]);
    assert_eq!(cache.seq_len(), 1);
    let (k, v) = cache.update(tensor(&[2, 2, 1, 2], 10), tensor(&[2, 2, 1, 2], 110));
    assert_eq!(k.dims(), vec![2, 3, 1, 2]);
    assert_eq!(k.to_bits(), vec![0, 1, 10, 11, 12, 13, 2, 3, 14, 15, 16, 17]);
    assert_eq!(
        v.to_bits(),
        vec![100, 101, 110, 111, 112, 113, 102, 103, 114, 115, 116, 117]
    );
    assert_eq!(cache.seq_len(), 3);
    assert_eq!(cache.key.as_ref().unwrap().to_bits(), k.to_bits());
    assert_eq!(cache.value.as_ref().unwrap().to_bits(), v.to_bits());
}

#[test]
fn two_updates_are_one_with_both_parts() {
    let whole = tensor(&[1, 3, 2, 1], 0);
    let mut at_once = KVCache::new();
    at_once.update(tensor(&[1, 1, 2, 1], 50), tensor(&[1, 1, 2, 1], 60));
    at_once.update(whole.clone(), whole.clone());
    let mut in_turn = KVCache::new();
    in_turn.update(tensor(&[1, 1, 2, 1], 50), tensor(&[1, 1, 2, 1], 60));
    in_turn.update(tensor(&[1, 1, 2, 1], 0), tensor(&[1, 1, 2, 1], 0));
    in_turn.update(tensor(&[1, 2, 2, 1], 2), tensor(&[1, 2, 2, 1], 2));
    assert_eq!(
        at_once.key.as_ref().unwrap().to_bits(),
        in_turn.key.as_ref().unwrap().to_bits()
    );
    assert_eq!(
        at_once.value.as_ref().unwrap().to_bits(),
        in_turn.value.as_ref().unwrap().to_bits()
    );
    assert_eq!(at_once.seq_len(), 4);
}

#[test]
fn a_cache_without_values_starts_anew() {
    let mut cache = KVCache::new();
    cache.update(tensor(&[1, 2, 1, 2], 0), tensor(&[1, 2, 1, 2], 0));
    cache.value = None;
    assert_eq!(cache.seq_len(), 2);
    let (k, v) = cache.update(tensor(&[1, 1, 1, 2], 7), tensor(&[1, 1, 1, 2], 8));
    assert_eq!(k.to_bits(), vec![7, 8]);
    assert_eq!(v.to_bits(), vec![8, 9]);
    assert_eq!(cache.seq_len(), 1);
}

#[test]
fn clearing_empties_the_cache() {
    let mut cache = KVCache::new();
    cache.update(tensor(&[1, 2, 1, 2], 0), tensor(&[1, 2, 1, 2], 0));
    let copy = cache.clone();
    cache.clear();
    assert_eq!(copy.seq_len(), 2);
    assert_eq!(copy.value.as_ref().unwrap().to_bits(), vec![0, 1, 2, 3]);
    assert_eq!(cache.seq_len(), 0);
    assert!(cache.key.is_none());
    assert!(cache.value.is_none());
}

#[test]
fn a_model_cache_has_one_cache_per_layer() {
    let mut cache = ModelCache::new(3);
    assert_eq!(cache.layers.len(), 3);
    assert_eq!(cache.seq_len(), 0);
    cache.layers[0].update(tensor(&[1, 5, 1, 2], 0), tensor(&[1, 5, 1, 2], 0));
    cache.layers[2].update(tensor(&[1, 4, 1, 2], 0), tensor(&[1, 4, 1, 2], 0));
    assert_eq!(cache.seq_len(), 5);
    cache.clear();
    assert_eq!(cache.layers.len(), 3);
    assert!(cache.layers.iter().all(|c| c.key.is_none() && c.value.is_none()));
    assert_eq!(cache.seq_len(), 0);
    assert_eq!(ModelCache::new(0).seq_len(), 0);
}
