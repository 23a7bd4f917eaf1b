use qwen3_burn::mask::{build_cached_mask, build_prefill_mask};

#[test]
fn causal_mask_hides_later_keys() {
    let mask = build_prefill_mask(&None, 3, 3);
    assert_eq!(
        mask.planes,
        vec![vec![
            vec![false, true, true],
            vec![false, false, true],
            vec![false, false, false],
        ]]
    );
}

#[test]
fn padding_is_hidden_from_every_query() {
    let padding = Some(vec![vec![true, true, false], vec![false, true, true]]);
    let mask = build_prefill_mask(&padding, 3, 3);
    assert_eq!(
        mask.planes,
        vec![
            vec![
                vec![false, true, true],
                vec![false, false, true],
                vec![false, false, true],
            ],
            vec![
                vec![true, true, true],
                vec![true, false, true],
                vec![true, false, false],
            ],
        ]
    );
}

#[test]
fn padding_that_marks_all_tokens_is_the_causal_mask() {
    let padded = build_prefill_mask(&Some(vec![vec![true; 4]; 2]), 4, 4);
    let plain = build_prefill_mask(&None, 4, 4);
    assert_eq!(padded.planes, vec![plain.planes[0].clone(), plain.planes[0].clone()]);
}

#[test]
fn several_queries_behind_a_cache_see_it_and_each_other_up_to_themselves() {
    let mask = build_cached_mask(&None, 2, 4).unwrap();
    assert_eq!(
        mask.planes,
        vec![vec![vec![false, false, false, true], vec![false, false, false, false]]]
    );
    let padding = Some(vec![vec![false, true, true]]);
    let padded = build_cached_mask(&padding, 2, 3).unwrap();
    assert_eq!(padded.planes, vec![vec![vec![true, false, true], vec![true, false, false]]]);
}

#[test]
fn on_an_empty_cache_the_mask_is_that_of_a_forward_pass() {
    let padding = Some(vec![vec![true, false, true], vec![true, true, true]]);
    let cached = build_cached_mask(&padding, 3, 3).unwrap();
    assert_eq!(cached.planes, build_prefill_mask(&padding, 3, 3).planes);
    let cached = build_cached_mask(&None, 3, 3).unwrap();
    assert_eq!(cached.planes, build_prefill_mask(&None, 3, 3).planes);
}

#[test]
fn a_lone_query_with_a_cache_sees_the_valid_keys() {
    assert!(build_cached_mask(&None, 1, 5).is_none());
    let flags = Some(vec![vec![true, false], vec![false, false]]);
    let mask = build_cached_mask(&flags, 1, 2).unwrap();
    assert_eq!(mask.planes, vec![vec![vec![false, true]], vec![vec![true, true]]]);
    let mask = build_cached_mask(&Some(vec![vec![true]]), 1, 1).unwrap();
    assert_eq!(mask.planes, vec![vec![vec![false]]]);
}
